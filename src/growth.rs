//! The growth-tree enumerator: grows every fixed polyomino from a seed
//! cell at the origin, committing one pending cell per step, so that each
//! shape comes from exactly one growth path.

use vstd::prelude::*;
use crate::shape::{
    P, Mino, pt, adj, cells_of, is_connected, shift_set, add_point, copy_points, lemma_cells_iff, lemma_cells_len,
    lemma_single_connected, lemma_connected_insert, lemma_connected_shift, normalized,
    lemma_wf_normalized,
};
use crate::connectivity::step_of;
use vstd::arithmetic::power::{pow, lemma_pow_positive};

verus! {

/// Largest coordinate magnitude that a growth cell may have.
pub const COORD_BOUND: i32 = 0x1000_0000;

/// A grid position met while growing: `num` is its order of discovery
/// (from 1), and `is_border` tells whether it is committed to the shape.
#[derive(Clone, Copy, Debug)]
pub struct Cell {
    pub x: i32,
    pub y: i32,
    pub num: usize,
    pub is_border: bool,
}

/// A state of the growth: every cell discovered so far, and the numbers of
/// the cells still to decide, the last one first.
#[derive(Debug)]
pub struct Node {
    pub cells: Vec<Cell>,
    pub nums: Vec<usize>,
}

pub open spec fn pos(c: Cell) -> (int, int) {
    (c.x as int, c.y as int)
}

/// Positions of the committed cells.
pub open spec fn placed_set(s: Seq<Cell>) -> Set<(int, int)> {
    Set::new(|q: (int, int)| exists|i: int| 0 <= i < s.len() && s[i].is_border && pos(s[i]) == q)
}

/// Number of committed cells.
pub open spec fn count_placed(s: Seq<Cell>) -> nat
    decreases s.len(),
{
    if s.len() == 0 {
        0
    } else {
        count_placed(s.drop_last()) + if s.last().is_border { 1nat } else { 0nat }
    }
}

/// Every cell lies within `bound` of the origin on both axes.
pub open spec fn coords_within(s: Seq<Cell>, bound: int) -> bool {
    forall|i: int| 0 <= i < s.len() ==> -bound <= (#[trigger] s[i]).x <= bound && -bound <= s[i].y <= bound
}

/// The polyomino of the committed cells of `node`, translated so that its
/// least coordinates are 0; `node` must hold at least one committed cell.
pub fn extract(node: &Node) -> (r: Mino)
    requires
        exists|i: int| 0 <= i < node.cells@.len() && (#[trigger] node.cells@[i]).is_border,
        coords_within(node.cells@, COORD_BOUND as int),
    ensures
        r.wf(),
        r.ps@.len() <= count_placed(node.cells@),
        exists|ox: int, oy: int| r.cells() == #[trigger] shift_set(placed_set(node.cells@), ox, oy),
{
    let ghost s = node.cells@;
    let len = node.cells.len();
    let mut f: usize = 0;
    while !node.cells[f].is_border
        invariant
            s == node.cells@,
            len == s.len(),
            f < s.len(),
            exists|i: int| f <= i < s.len() && (#[trigger] s[i]).is_border,
        decreases s.len() - f,
    {
        f += 1;
    }
    let mut min_x: i32 = node.cells[f].x;
    let mut min_y: i32 = node.cells[f].y;
    let mut max_x: i32 = node.cells[f].x;
    let mut max_y: i32 = node.cells[f].y;
    let mut i: usize = 0;
    while i < node.cells.len()
        invariant
            s == node.cells@,
            i <= s.len(),
            coords_within(s, COORD_BOUND as int),
            forall|j: int| 0 <= j < i && s[j].is_border ==> min_x <= (#[trigger] s[j]).x <= max_x && min_y <= s[j].y <= max_y,
            exists|j: int| 0 <= j < s.len() && s[j].is_border && (#[trigger] s[j]).x == min_x,
            exists|j: int| 0 <= j < s.len() && s[j].is_border && (#[trigger] s[j]).y == min_y,
            exists|j: int| 0 <= j < s.len() && s[j].is_border && (#[trigger] s[j]).x == max_x,
            exists|j: int| 0 <= j < s.len() && s[j].is_border && (#[trigger] s[j]).y == max_y,
        decreases s.len() - i,
    {
        let cell = node.cells[i];
        proof {
            assert(s[i as int] == cell);
        }
        if cell.is_border {
            if cell.x < min_x {
                min_x = cell.x;
            }
            if cell.y < min_y {
                min_y = cell.y;
            }
            if cell.x > max_x {
                max_x = cell.x;
            }
            if cell.y > max_y {
                max_y = cell.y;
            }
        }
        i += 1;
    }
    proof {
        let j = choose|j: int| 0 <= j < s.len() && s[j].is_border && (#[trigger] s[j]).x == min_x;
        let k = choose|j: int| 0 <= j < s.len() && s[j].is_border && (#[trigger] s[j]).y == min_y;
        assert(-COORD_BOUND <= s[j].x <= COORD_BOUND);
        assert(-COORD_BOUND <= s[k].y <= COORD_BOUND);
    }
    let ghost ox = -(min_x as int);
    let ghost oy = -(min_y as int);
    let ghost full = placed_set(s);
    let mut ps: Vec<P> = Vec::new();
    let mut i: usize = 0;
    while i < node.cells.len()
        invariant
            s == node.cells@,
            i <= s.len(),
            coords_within(s, COORD_BOUND as int),
            -COORD_BOUND <= min_x <= COORD_BOUND,
            -COORD_BOUND <= min_y <= COORD_BOUND,
            ox == -(min_x as int),
            oy == -(min_y as int),
            forall|j: int| 0 <= j < s.len() && s[j].is_border ==> min_x <= (#[trigger] s[j]).x <= max_x && min_y <= s[j].y <= max_y,
            ps@.no_duplicates(),
            ps@.len() <= count_placed(s.subrange(0, i as int)),
            cells_of(ps@) == shift_set(placed_set(s.subrange(0, i as int)), ox, oy),
        decreases s.len() - i,
    {
        let cell = node.cells[i];
        let ghost before = ps@;
        let ghost sp = s.subrange(0, i as int);
        let ghost sn = s.subrange(0, i + 1);
        proof {
            assert(sn.drop_last() == sp);
        }
        let ghost gq = (pos(cell).0 + ox, pos(cell).1 + oy);
        if cell.is_border {
            assert(min_x <= cell.x && min_y <= cell.y);
            let np = P { x: (cell.x - min_x) as usize, y: (cell.y - min_y) as usize };
            add_point(&mut ps, np);
            assert(pt(np) == gq);
        }
        proof {
            assert(sn[i as int] == cell);
            assert forall|q: (int, int)| #[trigger] shift_set(placed_set(sn), ox, oy).contains(q) <==>
                cells_of(ps@).contains(q) by {
                if cell.is_border && q == gq {
                    assert(pos(sn[i as int]) == (q.0 - ox, q.1 - oy));
                    assert(placed_set(sn).contains((q.0 - ox, q.1 - oy)));
                }
                if placed_set(sn).contains((q.0 - ox, q.1 - oy)) {
                    let j = choose|j: int| 0 <= j < sn.len() && sn[j].is_border && pos(sn[j]) == (q.0 - ox, q.1 - oy);
                    if j < i {
                        assert(sp[j] == sn[j]);
                        assert(placed_set(sp).contains((q.0 - ox, q.1 - oy)));
                    }
                }
                if shift_set(placed_set(sp), ox, oy).contains(q) {
                    let j = choose|j: int| 0 <= j < sp.len() && sp[j].is_border && pos(sp[j]) == (q.0 - ox, q.1 - oy);
                    assert(sp[j] == sn[j]);
                }
            }
            assert(cells_of(ps@) =~= shift_set(placed_set(sn), ox, oy));
        }
        i += 1;
    }
    proof {
        assert(s.subrange(0, s.len() as int) == s);
    }
    let r = Mino { ps, width: (max_x - min_x + 1) as usize, height: (max_y - min_y + 1) as usize };
    proof {
        lemma_cells_iff(r.ps@);
        assert(r.cells() == shift_set(full, ox, oy));
        assert forall|k: int| 0 <= k < r.ps@.len() implies r.ps@[k].x < r.width && r.ps@[k].y < r.height by {
            assert(r.cells().contains(pt(r.ps@[k])));
            let q = pt(r.ps@[k]);
            let j = choose|j: int| 0 <= j < s.len() && s[j].is_border && pos(s[j]) == (q.0 - ox, q.1 - oy);
            assert(min_x <= s[j].x <= max_x);
        }
        let jx = choose|j: int| 0 <= j < s.len() && s[j].is_border && (#[trigger] s[j]).x == min_x;
        let qx = (s[jx].x - min_x, s[jx].y - min_y);
        assert(full.contains(pos(s[jx])));
        assert(r.cells().contains(qx));
        let jy = choose|j: int| 0 <= j < s.len() && s[j].is_border && (#[trigger] s[j]).y == min_y;
        let qy = (s[jy].x - min_x, s[jy].y - min_y);
        assert(full.contains(pos(s[jy])));
        assert(r.cells().contains(qy));
        let jw = choose|j: int| 0 <= j < s.len() && s[j].is_border && (#[trigger] s[j]).x == max_x;
        let qw = (s[jw].x - min_x, s[jw].y - min_y);
        assert(full.contains(pos(s[jw])));
        assert(r.cells().contains(qw));
        let jh = choose|j: int| 0 <= j < s.len() && s[j].is_border && (#[trigger] s[j]).y == max_y;
        let qh = (s[jh].x - min_x, s[jh].y - min_y);
        assert(full.contains(pos(s[jh])));
        assert(r.cells().contains(qh));
    }
    r
}

proof fn lemma_count_update(s: Seq<Cell>, i: int, c: Cell)
    requires
        0 <= i < s.len(),
    ensures
        count_placed(s.update(i, c)) <= count_placed(s) + 1,
    decreases s.len(),
{
    let t = s.update(i, c);
    if i == s.len() - 1 {
        assert(t.drop_last() =~= s.drop_last());
    } else {
        assert(t.drop_last() =~= s.drop_last().update(i, c));
        lemma_count_update(s.drop_last(), i, c);
    }
}

proof fn lemma_count_push(s: Seq<Cell>, c: Cell)
    requires
        !c.is_border,
    ensures
        count_placed(s.push(c)) == count_placed(s),
{
    assert(s.push(c).drop_last() =~= s);
}

/// Whether one of the first `upto` cells lies at `(x, y)`.
fn has_cell_at(cells: &Vec<Cell>, upto: usize, x: i32, y: i32) -> (r: bool)
    requires
        upto <= cells@.len(),
    ensures
        r == exists|j: int| 0 <= j < upto && pos(#[trigger] cells@[j]) == (x as int, y as int),
{
    let mut i: usize = 0;
    while i < upto
        invariant
            upto <= cells@.len(),
            i <= upto,
            forall|j: int| 0 <= j < i ==> pos(#[trigger] cells@[j]) != (x as int, y as int),
        decreases upto - i,
    {
        if cells[i].x == x && cells[i].y == y {
            assert(pos(cells@[i as int]) == (x as int, y as int));
            return true;
        }
        i += 1;
    }
    false
}

/// `q` does not come before the origin in reading order.
pub open spec fn after_origin(q: (int, int)) -> bool {
    q.1 > 0 || (q.1 == 0 && q.0 >= 0)
}

/// Some cell lies at `q`.
pub open spec fn known(cells: Seq<Cell>, q: (int, int)) -> bool {
    exists|j: int| 0 <= j < cells.len() && pos(#[trigger] cells[j]) == q
}

/// The positions that committing a cell at `c` discovers among `cells`,
/// looking in the first `d` directions (up, left, right, down): each
/// neighbour that is not before the origin and not yet known, in order.
pub open spec fn discovered(cells: Seq<Cell>, c: (int, int), d: nat) -> Seq<(int, int)>
    decreases d,
{
    if d == 0 {
        Seq::empty()
    } else {
        let prev = discovered(cells, c, (d - 1) as nat);
        let q = step_of(c, d - 1);
        if after_origin(q) && !known(cells, q) {
            prev.push(q)
        } else {
            prev
        }
    }
}

/// `(fc, fnums)` is the node `(pc, pnums)` after committing the cell
/// numbered `num`: that cell is marked committed, and each position it
/// discovers is appended as a new pending cell with the next number.
pub open spec fn grown(pc: Seq<Cell>, pnums: Seq<usize>, num: int, fc: Seq<Cell>, fnums: Seq<usize>) -> bool {
    let l = pc.len();
    let c = pc[num - 1];
    &&& l <= fc.len() <= l + 4
    &&& fnums.len() == pnums.len() + (fc.len() - l)
    &&& forall|a: int| 0 <= a < pnums.len() ==> fnums[a] == pnums[a]
    &&& forall|a: int| pnums.len() <= a < fnums.len() ==> l < #[trigger] fnums[a] <= fc.len()
    &&& forall|a: int| pnums.len() <= a < fnums.len() ==> #[trigger] fnums[a] == l + 1 + (a - pnums.len())
    &&& forall|t: int| 0 <= t < fc.len() ==> (#[trigger] fc[t]).num == t + 1
    &&& forall|t: int| 0 <= t < l ==> pos(#[trigger] fc[t]) == pos(pc[t])
    &&& forall|t: int| 0 <= t < l ==> (#[trigger] fc[t]).is_border == (pc[t].is_border || t == num - 1)
    &&& forall|t: int| l <= t < fc.len() ==> !(#[trigger] fc[t]).is_border && adj(pos(c), pos(fc[t]))
    &&& fc.subrange(l as int, fc.len() as int).map_values(|x: Cell| pos(x)) == discovered(pc, pos(c), 4)
    &&& coords_within(fc, fc.len() as int)
    &&& placed_set(fc) == placed_set(pc).insert(pos(c))
    &&& count_placed(fc) <= count_placed(pc) + 1
}

/// Commits the cell numbered `num`, then discovers its neighbours (up,
/// left, right, down) that are new and do not come before the origin in
/// reading order, appending each as a pending cell.
pub fn neighbor(node: &mut Node, num: usize)
    requires
        1 <= num <= old(node).cells@.len(),
        old(node).cells@.len() + 4 <= COORD_BOUND,
        forall|t: int| 0 <= t < old(node).cells@.len() ==> (#[trigger] old(node).cells@[t]).num == t + 1,
        coords_within(old(node).cells@, old(node).cells@.len() as int),
    ensures
        grown(old(node).cells@, old(node).nums@, num as int, final(node).cells@, final(node).nums@),
{
    let ghost c0 = node.cells@;
    let ghost l = c0.len();
    let mut nx: i32 = 0;
    let mut ny: i32 = 0;
    let mut i: usize = 0;
    while i < node.cells.len()
        invariant
            node.cells@.len() == l,
            1 <= num <= l,
            i <= l,
            forall|t: int| 0 <= t < l ==> (#[trigger] c0[t]).num == t + 1,
            forall|t: int| 0 <= t < l ==> pos(#[trigger] node.cells@[t]) == pos(c0[t]) && node.cells@[t].num == c0[t].num,
            forall|t: int| 0 <= t < l ==> (#[trigger] node.cells@[t]).is_border == (c0[t].is_border || (t == num - 1 && t < i)),
            i >= num ==> nx == c0[num - 1].x && ny == c0[num - 1].y,
            node.nums@ == old(node).nums@,
            c0 == old(node).cells@,
        decreases l - i,
    {
        let mut cell = node.cells[i];
        if cell.num == num {
            cell.is_border = true;
            nx = cell.x;
            ny = cell.y;
            node.cells.set(i, cell);
        }
        i += 1;
    }
    let ghost c = c0[num - 1];
    let ghost c1 = node.cells@;
    proof {
        let cb = Cell { is_border: true, ..c };
        assert(c1 =~= c0.update(num - 1, cb));
        lemma_count_update(c0, num - 1, cb);
        assert forall|q: (int, int)| #[trigger] placed_set(c1).contains(q) <==> placed_set(c0).insert(pos(c)).contains(q) by {
            if placed_set(c1).contains(q) {
                let j = choose|j: int| 0 <= j < c1.len() && c1[j].is_border && pos(c1[j]) == q;
                if j != num - 1 {
                    assert(c0[j].is_border);
                }
            }
            if placed_set(c0).contains(q) {
                let j = choose|j: int| 0 <= j < c0.len() && c0[j].is_border && pos(c0[j]) == q;
                assert(c1[j].is_border);
            }
            if q == pos(c) {
                assert(c1[num - 1].is_border);
            }
        }
        assert(placed_set(c1) =~= placed_set(c0).insert(pos(c)));
    }
    let old_len: usize = node.cells.len();
    let mut length: usize = node.cells.len();
    let mut d: usize = 0;
    while d < 4
        invariant
            d <= 4,
            nx == c.x && ny == c.y,
            -(l as int) <= c.x <= l && -(l as int) <= c.y <= l,
            l + 4 <= COORD_BOUND,
            c1.len() == l,
            c0.len() == l,
            c0 == old(node).cells@,
            old_len == l,
            l <= length <= l + d,
            node.cells@.len() == length,
            node.cells@.subrange(0, l as int) == c1,
            node.nums@.len() == old(node).nums@.len() + (length - l),
            forall|a: int| 0 <= a < old(node).nums@.len() ==> node.nums@[a] == old(node).nums@[a],
            forall|a: int| old(node).nums@.len() <= a < node.nums@.len() ==> l < #[trigger] node.nums@[a] <= length,
            forall|a: int| old(node).nums@.len() <= a < node.nums@.len() ==> #[trigger] node.nums@[a] == l + 1 + (a - old(node).nums@.len()),
            forall|t: int| 0 <= t < l ==> pos(#[trigger] c1[t]) == pos(c0[t]),
            node.cells@.subrange(l as int, length as int).map_values(|x: Cell| pos(x)) == discovered(c0, pos(c), d as nat),
            forall|t: int| 0 <= t < l ==> (#[trigger] c1[t]).num == t + 1,
            forall|t: int| 0 <= t < length ==> (#[trigger] node.cells@[t]).num == t + 1,
            forall|t: int| l <= t < length ==> !(#[trigger] node.cells@[t]).is_border && adj(pos(c), pos(node.cells@[t])),
            forall|t: int| l <= t < length ==> -(length as int) <= (#[trigger] node.cells@[t]).x <= length && -(length as int) <= node.cells@[t].y <= length,
            count_placed(node.cells@) == count_placed(c1),
            placed_set(node.cells@) == placed_set(c1),
        decreases 4 - d,
    {
        let (x, y) = if d == 0 {
            (nx, ny - 1)
        } else if d == 1 {
            (nx - 1, ny)
        } else if d == 2 {
            (nx + 1, ny)
        } else {
            (nx, ny + 1)
        };
        let ghost q = step_of(pos(c), d as int);
        let ghost prev_found = node.cells@.subrange(l as int, length as int).map_values(|x: Cell| pos(x));
        assert((x as int, y as int) == q);
        let is_new = (y > 0 || (y == 0 && x >= 0)) && !has_cell_at(&node.cells, old_len, x, y);
        proof {
            assert(known(c0, q) <==> exists|j: int| 0 <= j < old_len && pos(#[trigger] node.cells@[j]) == q) by {
                if known(c0, q) {
                    let j = choose|j: int| 0 <= j < c0.len() && pos(#[trigger] c0[j]) == q;
                    assert(node.cells@.subrange(0, l as int)[j] == node.cells@[j]);
                }
                if exists|j: int| 0 <= j < old_len && pos(#[trigger] node.cells@[j]) == q {
                    let j = choose|j: int| 0 <= j < old_len && pos(#[trigger] node.cells@[j]) == q;
                    assert(node.cells@.subrange(0, l as int)[j] == node.cells@[j]);
                    assert(pos(c0[j]) == q);
                }
            }
            assert(is_new == (after_origin(q) && !known(c0, q)));
        }
        if is_new {
            length += 1;
            let ghost before = node.cells@;
            let nc = Cell { x: x, y: y, num: length, is_border: false };
            node.cells.push(nc);
            node.nums.push(length);
            proof {
                assert(node.cells@ == before.push(nc));
                lemma_count_push(before, nc);
                assert(node.cells@.subrange(0, l as int) =~= before.subrange(0, l as int));
                assert forall|q: (int, int)| #[trigger] placed_set(node.cells@).contains(q) <==> placed_set(before).contains(q) by {
                    if placed_set(node.cells@).contains(q) {
                        let j = choose|j: int| 0 <= j < node.cells@.len() && node.cells@[j].is_border && pos(node.cells@[j]) == q;
                        assert(j < before.len());
                        assert(before[j] == node.cells@[j]);
                    }
                    if placed_set(before).contains(q) {
                        let j = choose|j: int| 0 <= j < before.len() && before[j].is_border && pos(before[j]) == q;
                        assert(before[j] == node.cells@[j]);
                    }
                }
                assert(placed_set(node.cells@) =~= placed_set(before));
                assert(adj(pos(c), pos(nc)));
                assert(node.cells@.subrange(l as int, length as int) =~= before.subrange(l as int, length - 1).push(nc));
                assert(node.cells@.subrange(l as int, length as int).map_values(|x: Cell| pos(x)) =~= prev_found.push(q));
            }
        }
        proof {
            assert(discovered(c0, pos(c), (d + 1) as nat) == (if after_origin(q) && !known(c0, q) { discovered(c0, pos(c), d as nat).push(q) } else { discovered(c0, pos(c), d as nat) }));
        }
        d += 1;
    }
    proof {
        let fc = node.cells@;
        assert forall|t: int| 0 <= t < l implies (#[trigger] fc[t]) == c1[t] by {
            assert(fc.subrange(0, l as int)[t] == fc[t]);
        }
        assert forall|t: int| 0 <= t < fc.len() implies -(fc.len() as int) <= (#[trigger] fc[t]).x <= fc.len() && -(fc.len() as int) <= fc[t].y <= fc.len() by {
            if t < l {
                assert(fc[t] == c1[t]);
                assert(pos(c1[t]) == pos(c0[t]));
                assert(-(l as int) <= c0[t].x <= l);
            }
        }
    }
}

/// Largest size that the enumerator takes.
pub const MAX_N: usize = 0x0100_0000;

/// `q` is committed, or shares an edge with a committed position.
pub open spec fn touches(s: Set<(int, int)>, q: (int, int)) -> bool {
    s.contains(q) || exists|p: (int, int)| s.contains(p) && adj(p, q)
}

/// The invariant of a growth node at depth `d` of the stack.
pub open spec fn node_ok(node: Node, d: int) -> bool {
    let c = node.cells@;
    &&& 1 <= c.len() <= 4 * d + 1
    &&& forall|t: int| 0 <= t < c.len() ==> (#[trigger] c[t]).num == t + 1
    &&& coords_within(c, c.len() as int)
    &&& node.nums@.len() <= c.len()
    &&& forall|a: int| 0 <= a < node.nums@.len() ==> 1 <= #[trigger] node.nums@[a] <= c.len()
    &&& c[0].x == 0 && c[0].y == 0
    &&& (c[0].is_border || c.len() == 1)
    &&& count_placed(c) <= d
    &&& c[0].is_border ==> is_connected(placed_set(c))
    &&& c[0].is_border ==> forall|t: int| 0 <= t < c.len() ==> touches(placed_set(c), pos(#[trigger] c[t]))
}

/// The invariant of the whole stack, for sizes up to `n`.
pub open spec fn stack_ok(stack: Seq<Node>, n: int) -> bool {
    &&& stack.len() <= n + 1
    &&& forall|d: int| 0 <= d < stack.len() ==> node_ok(#[trigger] stack[d], d)
}

/// What the enumerator emits: a normalized, connected polyomino of 1 to
/// `n` cells.
pub open spec fn emitted(m: Mino, n: int) -> bool {
    &&& m.wf()
    &&& 1 <= m.cells().len() <= n
    &&& is_connected(m.cells())
}

pub open spec fn base(n: int) -> int {
    4 * n + 6
}

/// Work left on the stack: each node weighs its pending cells plus one,
/// scaled by a power of `base(n)` that falls with depth.
pub open spec fn measure(s: Seq<Node>, n: int) -> int
    decreases s.len(),
{
    if s.len() == 0 {
        0
    } else {
        measure(s.drop_last(), n) + (s.last().nums@.len() + 1) * pow(base(n), (n + 1 - s.len()) as nat)
    }
}

proof fn lemma_measure_push(s: Seq<Node>, x: Node, n: int)
    ensures
        measure(s.push(x), n) == measure(s, n) + (x.nums@.len() + 1) * pow(base(n), (n + 1 - (s.len() + 1)) as nat),
{
    assert(s.push(x).drop_last() =~= s);
}

proof fn lemma_measure_nonneg(s: Seq<Node>, n: int)
    requires
        n >= 0,
    ensures
        measure(s, n) >= 0,
    decreases s.len(),
{
    if s.len() > 0 {
        lemma_measure_nonneg(s.drop_last(), n);
        lemma_pow_positive(base(n), (n + 1 - s.len()) as nat);
        assert((s.last().nums@.len() + 1) * pow(base(n), (n + 1 - s.len()) as nat) >= 0) by (nonlinear_arith)
            requires pow(base(n), (n + 1 - s.len()) as nat) > 0;
    }
}

/// A copy of the node.
fn copy_node(node: &Node) -> (r: Node)
    ensures
        r.cells@ == node.cells@,
        r.nums@ == node.nums@,
{
    let mut cells: Vec<Cell> = Vec::new();
    let mut i: usize = 0;
    while i < node.cells.len()
        invariant
            i <= node.cells@.len(),
            cells@ == node.cells@.subrange(0, i as int),
        decreases node.cells@.len() - i,
    {
        cells.push(node.cells[i]);
        i += 1;
    }
    let mut nums: Vec<usize> = Vec::new();
    let mut i: usize = 0;
    while i < node.nums.len()
        invariant
            i <= node.nums@.len(),
            nums@ == node.nums@.subrange(0, i as int),
        decreases node.nums@.len() - i,
    {
        nums.push(node.nums[i]);
        i += 1;
    }
    assert(cells@ == node.cells@);
    assert(nums@ == node.nums@);
    Node { cells, nums }
}

/// A growth node as plain values.
pub open spec fn node_value(x: Node) -> (Seq<Cell>, Seq<usize>) {
    (x.cells@, x.nums@)
}

/// A stack of growth nodes as plain values.
pub open spec fn nodes_value(s: Seq<Node>) -> Seq<(Seq<Cell>, Seq<usize>)> {
    s.map_values(|x: Node| node_value(x))
}

/// The shapes of a list of polyominoes, in order.
pub open spec fn shapes_of(r: Seq<Mino>) -> Seq<Set<(int, int)>> {
    r.map_values(|m: Mino| m.cells())
}

/// One step of the search on plain values: from the stack `s` and the
/// shapes emitted so far `res` to `fs` and `fres`.
#[verifier::opaque]
pub open spec fn step_value(
    s: Seq<(Seq<Cell>, Seq<usize>)>,
    res: Seq<Set<(int, int)>>,
    fs: Seq<(Seq<Cell>, Seq<usize>)>,
    fres: Seq<Set<(int, int)>>,
    n: int,
) -> bool {
    let l = s.len();
    let top = s[l - 1];
    if l > n || top.1.len() == 0 {
        fs == s.drop_last() && fres == res
    } else {
        let child = fs[l as int];
        &&& fs.len() == l + 1
        &&& forall|d: int| 0 <= d < l - 1 ==> #[trigger] fs[d] == s[d]
        &&& fs[l - 1] == (top.0, top.1.drop_last())
        &&& grown(top.0, top.1.drop_last(), top.1.last() as int, child.0, child.1)
        &&& fres.len() == res.len() + 1
        &&& forall|t: int| 0 <= t < res.len() ==> #[trigger] fres[t] == res[t]
        &&& normalized(fres.last())
        &&& exists|ox: int, oy: int| fres.last() == #[trigger] shift_set(placed_set(child.0), ox, oy)
    }
}

/// The start of the search: one node holding the pending seed cell.
pub open spec fn start_value() -> (Seq<(Seq<Cell>, Seq<usize>)>, Seq<Set<(int, int)>>) {
    (seq![(seq![Cell { x: 0, y: 0, num: 1, is_border: false }], seq![1usize])], Seq::empty())
}

/// `trace` is a whole run of the search for sizes up to `n`: it begins at
/// the start, each state follows from the one before by one step taken on
/// a non-empty stack, and the last stack is empty.
pub open spec fn is_run(trace: Seq<(Seq<(Seq<Cell>, Seq<usize>)>, Seq<Set<(int, int)>>)>, n: int) -> bool {
    &&& trace.len() >= 1
    &&& trace[0] == start_value()
    &&& steps_on(trace, n)
    &&& trace.last().0.len() == 0
}

/// `r` is what a whole run of the search for sizes up to `n` emits.
pub open spec fn enumerated(n: int, r: Seq<Mino>) -> bool {
    exists|trace: Seq<(Seq<(Seq<Cell>, Seq<usize>)>, Seq<Set<(int, int)>>)>| is_run(trace, n) && #[trigger] trace.last().1 == shapes_of(r)
}

proof fn lemma_stepped_value(s: Seq<Node>, res: Seq<Mino>, fs: Seq<Node>, fres: Seq<Mino>, n: int)
    requires
        s.len() > 0,
        stepped(s, res, fs, fres, n),
    ensures
        step_value(nodes_value(s), shapes_of(res), nodes_value(fs), shapes_of(fres), n),
{
    reveal(stepped);
    reveal(step_value);
    let l = s.len();
    let top = s[l - 1];
    let vs = nodes_value(s);
    let vf = nodes_value(fs);
    assert(vs[l - 1] == node_value(top));
    if l > n || top.nums@.len() == 0 {
        assert(vf =~= vs.drop_last());
        assert(shapes_of(fres) =~= shapes_of(res));
    } else {
        assert(vf[l as int] == node_value(fs[l as int]));
        assert forall|d: int| 0 <= d < l - 1 implies #[trigger] vf[d] == vs[d] by {
            assert(fs[d] == s[d]);
        }
        assert(vf[l - 1] == node_value(fs[l - 1]));
        let m = fres.last();
        lemma_wf_normalized(m);
        assert(shapes_of(fres).last() == m.cells());
        assert forall|t: int| 0 <= t < res.len() implies #[trigger] shapes_of(fres)[t] == shapes_of(res)[t] by {
            assert(fres[t] == res[t]);
        }
        let (ox, oy) = choose|ox: int, oy: int| m.cells() == #[trigger] shift_set(placed_set(fs[l as int].cells@), ox, oy);
        assert(shapes_of(fres).last() == shift_set(placed_set(vf[l as int].0), ox, oy));
    }
}

/// Each state of `trace` but the last has a non-empty stack and steps to
/// the next one.
pub open spec fn steps_on(trace: Seq<(Seq<(Seq<Cell>, Seq<usize>)>, Seq<Set<(int, int)>>)>, n: int) -> bool {
    forall|k: int| 0 <= k < trace.len() - 1 ==> (#[trigger] trace[k]).0.len() > 0
        && step_value(trace[k].0, trace[k].1, trace[k + 1].0, trace[k + 1].1, n)
}

proof fn lemma_trace_push(
    t0: Seq<(Seq<(Seq<Cell>, Seq<usize>)>, Seq<Set<(int, int)>>)>,
    x: (Seq<(Seq<Cell>, Seq<usize>)>, Seq<Set<(int, int)>>),
    n: int,
)
    requires
        t0.len() >= 1,
        steps_on(t0, n),
        t0.last().0.len() > 0,
        step_value(t0.last().0, t0.last().1, x.0, x.1, n),
    ensures
        steps_on(t0.push(x), n),
        t0.push(x)[0] == t0[0],
{
    let t = t0.push(x);
    assert forall|k: int| 0 <= k < t.len() - 1 implies (#[trigger] t[k]).0.len() > 0
        && step_value(t[k].0, t[k].1, t[k + 1].0, t[k + 1].1, n) by {
        if k < t0.len() - 1 {
            assert(t[k] == t0[k] && t[k + 1] == t0[k + 1]);
        } else {
            assert(t[k] == t0.last());
        }
    }
}

/// What one step of the search does to the stack `s` and the output
/// `res`, giving `fs` and `fres`: it pops the top node when the stack is
/// deeper than `n` or that node has nothing pending; otherwise it takes the
/// node's last pending number, commits that cell in a copy, pushes the
/// copy, and emits the copy's committed cells, normalized.
#[verifier::opaque]
pub open spec fn stepped(s: Seq<Node>, res: Seq<Mino>, fs: Seq<Node>, fres: Seq<Mino>, n: int) -> bool {
    let l = s.len();
    let top = s[l - 1];
    if l > n || top.nums@.len() == 0 {
        fs == s.drop_last() && fres == res
    } else {
        let child = fs[l as int];
        let m = fres.last();
        &&& fs.len() == l + 1
        &&& forall|d: int| 0 <= d < l - 1 ==> #[trigger] fs[d] == s[d]
        &&& fs[l - 1].cells@ == top.cells@
        &&& fs[l - 1].nums@ == top.nums@.drop_last()
        &&& grown(top.cells@, top.nums@.drop_last(), top.nums@.last() as int, child.cells@, child.nums@)
        &&& fres.len() == res.len() + 1
        &&& forall|t: int| 0 <= t < res.len() ==> #[trigger] fres[t] == res[t]
        &&& m.wf()
        &&& exists|ox: int, oy: int| m.cells() == #[trigger] shift_set(placed_set(child.cells@), ox, oy)
    }
}

/// One step of the search: backtrack from the top node when the stack is
/// deeper than `n` or the node has nothing pending; otherwise commit its
/// last pending cell in a copy, emit that copy's polyomino, and push it.
pub fn next_step(n: usize, stack: &mut Vec<Node>, res: &mut Vec<Mino>)
    requires
        1 <= n <= MAX_N,
        old(stack)@.len() > 0,
        stack_ok(old(stack)@, n as int),
        forall|t: int| 0 <= t < old(res)@.len() ==> emitted(#[trigger] old(res)@[t], n as int),
    ensures
        stack_ok(final(stack)@, n as int),
        0 <= measure(final(stack)@, n as int) < measure(old(stack)@, n as int),
        forall|t: int| 0 <= t < final(res)@.len() ==> emitted(#[trigger] final(res)@[t], n as int),
        stepped(old(stack)@, old(res)@, final(stack)@, final(res)@, n as int),
{
    reveal(stepped);
    let ghost s = stack@;
    let len = stack.len();
    let ghost e = (n + 1 - len) as nat;
    proof {
        assert(s.drop_last().push(s.last()) =~= s);
        lemma_measure_push(s.drop_last(), s.last(), n as int);
        lemma_measure_nonneg(s.drop_last(), n as int);
        lemma_pow_positive(base(n as int), e);
    }
    if len > n || stack[len - 1].nums.len() == 0 {
        stack.pop();
        proof {
            assert(stack@ =~= s.drop_last());
            assert((s.last().nums@.len() + 1) * pow(base(n as int), e) >= 1) by (nonlinear_arith)
                requires pow(base(n as int), e) > 0;
            assert(measure(stack@, n as int) < measure(s, n as int));
        }
    } else {
        let mut top = stack.pop().unwrap();
        let ghost s0 = stack@;
        assert(top == s[len - 1]);
        assert(node_ok(top, len - 1));
        let num = top.nums.pop().unwrap();
        let mut new_node = copy_node(&top);
        stack.push(top);
        let ghost parent = new_node;
        neighbor(&mut new_node, num);
        let ghost pc = parent.cells@;
        let ghost c = pc[num - 1];
        let ghost fc = new_node.cells@;
        proof {
            assert(node_ok(top, len - 1));
            assert(pc[0].is_border || pc.len() == 1);
            assert(fc[0].is_border);
            if pc[0].is_border {
                let ps = placed_set(pc);
                assert(touches(ps, pos(pc[num - 1])));
                if ps.contains(pos(c)) {
                    assert(ps.insert(pos(c)) =~= ps);
                } else {
                    let p = choose|p: (int, int)| ps.contains(p) && adj(p, pos(c));
                    lemma_connected_insert(ps, p, pos(c));
                }
                assert forall|t: int| 0 <= t < fc.len() implies touches(placed_set(fc), pos(#[trigger] fc[t])) by {
                    if t < pc.len() {
                        assert(touches(ps, pos(pc[t])));
                        if !ps.contains(pos(pc[t])) {
                            let p = choose|p: (int, int)| ps.contains(p) && adj(p, pos(pc[t]));
                            assert(placed_set(fc).contains(p));
                        }
                    } else {
                        assert(placed_set(fc).contains(pos(c)));
                    }
                }
            } else {
                assert(placed_set(pc) =~= Set::empty()) by {
                    assert forall|q: (int, int)| !#[trigger] placed_set(pc).contains(q) by {
                        if placed_set(pc).contains(q) {
                            let j = choose|j: int| 0 <= j < pc.len() && pc[j].is_border && pos(pc[j]) == q;
                            assert(j == 0);
                        }
                    }
                }
                assert(num == 1);
                lemma_single_connected(pos(c));
                assert(placed_set(fc) == Set::<(int, int)>::empty().insert(pos(c)));
                assert forall|t: int| 0 <= t < fc.len() implies touches(placed_set(fc), pos(#[trigger] fc[t])) by {
                    assert(placed_set(fc).contains(pos(c)));
                    if t == 0 {
                        assert(pos(fc[0]) == pos(c));
                    }
                }
            }
            assert(node_ok(new_node, len as int));
        }
        let m = extract(&new_node);
        proof {
            let ps = placed_set(fc);
            let (ox, oy) = choose|ox: int, oy: int| m.cells() == #[trigger] shift_set(ps, ox, oy);
            lemma_connected_shift(ps, ox, oy);
            lemma_cells_len(m.ps@);
            assert(m.ps@.len() > 0);
        }
        let ghost r0 = res@;
        res.push(m);
        proof {
            assert forall|t: int| 0 <= t < res@.len() implies emitted(#[trigger] res@[t], n as int) by {
                if t < r0.len() {
                    assert(res@[t] == r0[t]);
                }
            }
        }
        let ghost top2 = stack@.last();
        stack.push(new_node);
        proof {
            let sn = stack@;
            assert(sn.drop_last().drop_last() =~= s0);
            assert(sn.drop_last() =~= s0.push(top2));
            assert(sn =~= s0.push(top2).push(new_node));
            lemma_measure_push(s0, top2, n as int);
            lemma_measure_push(s0.push(top2), new_node, n as int);
            assert(s0 =~= s.drop_last());
            let pw = pow(base(n as int), (e - 1) as nat);
            reveal(pow);
            assert(pow(base(n as int), e) == base(n as int) * pw);
            lemma_pow_positive(base(n as int), (e - 1) as nat);
            let k = top2.nums@.len();
            let k2 = new_node.nums@.len();
            assert(k2 + 1 < base(n as int));
            assert((k2 + 1) * pw < base(n as int) * pw) by (nonlinear_arith)
                requires k2 + 1 < base(n as int), pw > 0;
            assert((k + 1) * pow(base(n as int), e) + (k2 + 1) * pw < (k + 2) * pow(base(n as int), e)) by (nonlinear_arith)
                requires (k2 + 1) * pw < pow(base(n as int), e);
            assert((k + 1) * pow(base(n as int), e) >= 0 && (k2 + 1) * pw >= 0) by (nonlinear_arith)
                requires pow(base(n as int), e) > 0, k >= 0, k2 >= 0, pw > 0;
            assert(forall|d: int| 0 <= d < s0.len() ==> sn[d] == s[d]);
            assert(s.last().nums@.len() == k + 1);
            assert(measure(s, n as int) == measure(s0, n as int) + (k + 2) * pow(base(n as int), e));
            assert(measure(sn, n as int) == measure(s0, n as int) + (k + 1) * pow(base(n as int), e) + (k2 + 1) * pw);
            assert(measure(sn, n as int) < measure(s, n as int));
        }
    }
}

/// The head of the search's output: its first shape is the single point,
/// and for size 1 nothing follows it.
proof fn lemma_run_head(s0: Seq<Node>, r0: Seq<Mino>, s1: Seq<Node>, r1: Seq<Mino>, n: int)
    requires
        1 <= n,
        s0.len() > 0,
        stepped(s0, r0, s1, r1, n),
        r0.len() == 0 ==> s0.len() == 1 && s0[0].cells@ == seq![Cell { x: 0, y: 0, num: 1, is_border: false }] && s0[0].nums@ == seq![1usize],
        r0.len() > 0 ==> r0[0].cells() == Set::<(int, int)>::empty().insert((0, 0)),
        n == 1 ==> r0.len() <= 1,
        n == 1 && r0.len() == 1 ==> s0.len() <= 2 && (s0.len() > 0 ==> s0[0].nums@.len() == 0),
        forall|t: int| 0 <= t < r1.len() ==> emitted(#[trigger] r1[t], n),
    ensures
        r1.len() == 0 ==> s1.len() == 1 && s1[0].cells@ == seq![Cell { x: 0, y: 0, num: 1, is_border: false }] && s1[0].nums@ == seq![1usize],
        r1.len() > 0 ==> r1[0].cells() == Set::<(int, int)>::empty().insert((0, 0)),
        n == 1 ==> r1.len() <= 1,
        n == 1 && r1.len() == 1 ==> s1.len() <= 2 && (s1.len() > 0 ==> s1[0].nums@.len() == 0),
{
    reveal(stepped);
            if r0.len() == 0 {
                let child = s1[1];
                let m = r1.last();
                let pc = s0[0].cells@;
                assert(placed_set(pc) =~= Set::empty()) by {
                    assert forall|q: (int, int)| !#[trigger] placed_set(pc).contains(q) by {
                        if placed_set(pc).contains(q) {
                            let j = choose|j: int| 0 <= j < pc.len() && pc[j].is_border && pos(pc[j]) == q;
                            assert(j == 0);
                        }
                    }
                }
                let single = Set::<(int, int)>::empty().insert((0, 0));
                assert(placed_set(child.cells@) == single);
                let (ox, oy) = choose|ox: int, oy: int| m.cells() == #[trigger] shift_set(placed_set(child.cells@), ox, oy);
                lemma_cells_iff(m.ps@);
                let i = choose|i: int| 0 <= i < m.ps@.len() && m.ps@[i].x == 0;
                let j = choose|i: int| 0 <= i < m.ps@.len() && m.ps@[i].y == 0;
                assert(m.cells().contains(pt(m.ps@[i])));
                assert(m.cells().contains(pt(m.ps@[j])));
                assert(single.contains((pt(m.ps@[i]).0 - ox, pt(m.ps@[i]).1 - oy)));
                assert(single.contains((pt(m.ps@[j]).0 - ox, pt(m.ps@[j]).1 - oy)));
                assert(m.cells() =~= single);
                assert(r1[0] == m);
            } else {
                assert(r1[0] == r0[0]);
                if n == 1 {
                    assert(s1.len() > 0 ==> s1[0] == s0[0]);
                }
            }
}

/// Every fixed polyomino with 1 to `n` cells, grown from a seed at the
/// origin; each is emitted when it is first grown.
pub fn enum_polyomino(n: usize) -> (r: Vec<Mino>)
    requires
        1 <= n <= MAX_N,
    ensures
        forall|t: int| 0 <= t < r@.len() ==> emitted(#[trigger] r@[t], n as int),
        r@.len() >= 1,
        r@[0].cells() == Set::<(int, int)>::empty().insert((0, 0)),
        n == 1 ==> r@.len() == 1,
        enumerated(n as int, r@),
{
    let mut stack: Vec<Node> = Vec::new();
    let seed = Cell { x: 0, y: 0, num: 1, is_border: false };
    let mut cells: Vec<Cell> = Vec::new();
    cells.push(seed);
    let mut nums: Vec<usize> = Vec::new();
    nums.push(1);
    stack.push(Node { cells, nums });
    let mut res: Vec<Mino> = Vec::new();
    proof {
        let c = stack@[0].cells@;
        assert(c.drop_last() =~= Seq::<Cell>::empty());
        assert(count_placed(c.drop_last()) == 0);
        assert(count_placed(c) == 0);
        assert(node_ok(stack@[0], 0));
        lemma_measure_nonneg(stack@, n as int);
    }
    let ghost mut trace = seq![(nodes_value(stack@), shapes_of(res@))];
    proof {
        assert(nodes_value(stack@) =~= start_value().0);
        assert(shapes_of(res@) =~= start_value().1);
    }
    while stack.len() > 0
        invariant
            1 <= n <= MAX_N,
            stack_ok(stack@, n as int),
            measure(stack@, n as int) >= 0,
            forall|t: int| 0 <= t < res@.len() ==> emitted(#[trigger] res@[t], n as int),
            seed == (Cell { x: 0, y: 0, num: 1, is_border: false }),
            res@.len() == 0 ==> stack@.len() == 1 && stack@[0].cells@ == seq![seed] && stack@[0].nums@ == seq![1usize],
            res@.len() > 0 ==> res@[0].cells() == Set::<(int, int)>::empty().insert((0, 0)),
            n == 1 ==> res@.len() <= 1,
            n == 1 && res@.len() == 1 ==> stack@.len() <= 2 && (stack@.len() > 0 ==> stack@[0].nums@.len() == 0),
            trace.len() >= 1,
            trace[0] == start_value(),
            steps_on(trace, n as int),
            trace.last() == (nodes_value(stack@), shapes_of(res@)),
        decreases measure(stack@, n as int),
    {
        let ghost r0 = res@;
        let ghost s0 = stack@;
        next_step(n, &mut stack, &mut res);
        proof {
            let t0 = trace;
            lemma_stepped_value(s0, r0, stack@, res@, n as int);
            lemma_trace_push(t0, (nodes_value(stack@), shapes_of(res@)), n as int);
            trace = t0.push((nodes_value(stack@), shapes_of(res@)));
        }
        proof {
            lemma_run_head(s0, r0, stack@, res@, n as int);
        }
    }
    proof {
        assert(nodes_value(stack@) =~= Seq::<(Seq<Cell>, Seq<usize>)>::empty());
        assert(is_run(trace, n as int));
    }
    res
}

/// Why the enumerator refused its argument.
#[derive(Clone, Copy, Debug, PartialEq, Eq, Structural)]
pub enum EnumError {
    /// The size is zero, or larger than `MAX_N`.
    InvalidArgument,
}

/// Every fixed polyomino with 1 to `max_size` cells; a size of zero (or
/// one beyond `MAX_N`) is refused.
pub fn enumerate(max_size: usize) -> (r: Result<Vec<Mino>, EnumError>)
    ensures
        match r {
            Ok(v) => {
                &&& 1 <= max_size <= MAX_N
                &&& forall|t: int| 0 <= t < v@.len() ==> emitted(#[trigger] v@[t], max_size as int)
                &&& v@.len() >= 1
                &&& v@[0].cells() == Set::<(int, int)>::empty().insert((0, 0))
                &&& max_size == 1 ==> v@.len() == 1
                &&& enumerated(max_size as int, v@)
            },
            Err(e) => e == EnumError::InvalidArgument && (max_size == 0 || max_size > MAX_N),
        },
{
    if max_size == 0 || max_size > MAX_N {
        Err(EnumError::InvalidArgument)
    } else {
        Ok(enum_polyomino(max_size))
    }
}

/// A polyomino as plain values: its point list and bounding box.
pub open spec fn mino_value(m: Mino) -> (Seq<P>, usize, usize) {
    (m.ps@, m.width, m.height)
}

/// A copy of the polyomino.
pub fn copy_mino(m: &Mino) -> (r: Mino)
    ensures
        mino_value(r) == mino_value(*m),
{
    Mino { ps: copy_points(&m.ps), width: m.width, height: m.height }
}

/// Sorts polyominoes into size classes: entry `s` holds, in order, copies
/// of those with `s` points.
pub fn group_by_size(xs: &Vec<Mino>, n: usize) -> (r: Vec<Vec<Mino>>)
    requires
        n < usize::MAX,
        forall|i: int| 0 <= i < xs@.len() ==> (#[trigger] xs@[i]).ps@.len() <= n,
    ensures
        r@.len() == n + 1,
        forall|s: int| 0 <= s <= n ==> (#[trigger] r@[s])@.map_values(|m: Mino| mino_value(m))
            == xs@.map_values(|m: Mino| mino_value(m)).filter(|v: (Seq<P>, usize, usize)| v.0.len() == s),
{
    let mut grps: Vec<Vec<Mino>> = Vec::new();
    let mut s: usize = 0;
    while s <= n
        invariant
            n < usize::MAX,
            s <= n + 1,
            grps@.len() == s,
            forall|t: int| 0 <= t < s ==> (#[trigger] grps@[t])@.len() == 0,
        decreases n + 1 - s,
    {
        grps.push(Vec::new());
        s += 1;
    }
    let mut i: usize = 0;
    while i < xs.len()
        invariant
            i <= xs@.len(),
            grps@.len() == n + 1,
            forall|k: int| 0 <= k < xs@.len() ==> (#[trigger] xs@[k]).ps@.len() <= n,
            forall|s: int| 0 <= s <= n ==> (#[trigger] grps@[s])@.map_values(|m: Mino| mino_value(m))
                == xs@.subrange(0, i as int).map_values(|m: Mino| mino_value(m)).filter(|v: (Seq<P>, usize, usize)| v.0.len() == s),
        decreases xs@.len() - i,
    {
        let m = copy_mino(&xs[i]);
        let size = m.ps.len();
        let ghost before = grps@;
        let mut g = Vec::new();
        std::mem::swap(&mut g, &mut grps[size]);
        g.push(m);
        grps.set(size, g);
        proof {
            let pre = xs@.subrange(0, i as int).map_values(|m: Mino| mino_value(m));
            let post = xs@.subrange(0, i + 1).map_values(|m: Mino| mino_value(m));
            assert(post =~= pre.push(mino_value(xs@[i as int])));
            assert forall|s: int| 0 <= s <= n implies (#[trigger] grps@[s])@.map_values(|m: Mino| mino_value(m))
                == post.filter(|v: (Seq<P>, usize, usize)| v.0.len() == s) by {
                pre.lemma_filter_push(mino_value(xs@[i as int]), |v: (Seq<P>, usize, usize)| v.0.len() == s);
                if s == size {
                    assert(grps@[s]@.map_values(|m: Mino| mino_value(m)) =~= before[s]@.map_values(|m: Mino| mino_value(m)).push(mino_value(m)));
                } else {
                    assert(grps@[s] == before[s]);
                }
            }
        }
        i += 1;
    }
    assert(xs@.subrange(0, xs@.len() as int) == xs@);
    grps
}

/// Tiling of a board state with fields of shapes; it has no effect.
pub fn tile(state: Vec<bool>, flds: Vec<Vec<Vec<u32>>>) {
}

} // verus!
