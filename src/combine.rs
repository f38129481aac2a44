//! The pair combiner: joins two polyominoes of a size class at every offset
//! where their bounding boxes overlap or touch, and keeps each connected,
//! non-overlapping result once.

use vstd::prelude::*;
use crate::shape::{P, Mino, pt, cells_of, in_box, is_connected, add_point, lemma_cells_iff, lemma_cells_len};
use crate::connectivity::connected;
use crate::dedup::Seen;

verus! {

/// Largest width or height of a polyomino that the combiner takes.
pub const MAX_SIDE: usize = 0x0fff_ffff;

/// The bounding box fits the combiner's offset arithmetic.
pub open spec fn side_ok(m: Mino) -> bool {
    m.width <= MAX_SIDE && m.height <= MAX_SIDE
}

/// Positions of the points of `s`, each moved by `(ox, oy)`.
pub open spec fn shifted(s: Seq<P>, ox: int, oy: int) -> Set<(int, int)> {
    Set::new(|q: (int, int)| exists|j: int| 0 <= j < s.len() && q == (s[j].x + ox, s[j].y + oy))
}

/// The shape made of `a` and of `b` moved by `(-dx, -dy)`, translated so
/// that its least coordinates are 0 (for `a` and `b` whose least
/// coordinates are 0).
pub open spec fn joined(a: Set<(int, int)>, b: Set<(int, int)>, dx: int, dy: int) -> Set<(int, int)> {
    let sx = if dx > 0 { dx } else { 0 };
    let sy = if dy > 0 { dy } else { 0 };
    Set::new(|q: (int, int)| a.contains((q.0 - sx, q.1 - sy)) || b.contains((q.0 - sx + dx, q.1 - sy + dy)))
}

/// `w` and `h` are the exact bounding box of `s` (zero when `s` is empty).
pub open spec fn tight(s: Seq<P>, w: usize, h: usize) -> bool {
    &&& in_box(s, w, h)
    &&& (w == 0 || exists|i: int| 0 <= i < s.len() && s[i].x + 1 == w)
    &&& (h == 0 || exists|i: int| 0 <= i < s.len() && s[i].y + 1 == h)
    &&& (s.len() > 0 ==> w > 0 && h > 0)
}

/// Adds the points of `src`, each moved by `(ox, oy)`, to `res`, growing
/// the bounding box `(width, height)` to match.
fn add_shifted(res: &mut Vec<P>, src: &Vec<P>, ox: usize, oy: usize, width: &mut usize, height: &mut usize)
    requires
        old(res)@.no_duplicates(),
        tight(old(res)@, *old(width), *old(height)),
        in_box(src@, MAX_SIDE as usize, MAX_SIDE as usize),
        ox <= 0x3fff_ffff,
        oy <= 0x3fff_ffff,
        *old(width) <= 0x7fff_ffff,
        *old(height) <= 0x7fff_ffff,
    ensures
        final(res)@.no_duplicates(),
        tight(final(res)@, *final(width), *final(height)),
        *final(width) <= 0x7fff_ffff,
        *final(height) <= 0x7fff_ffff,
        cells_of(final(res)@) == cells_of(old(res)@).union(shifted(src@, ox as int, oy as int)),
{
    let ghost r0 = res@;
    let mut i: usize = 0;
    while i < src.len()
        invariant
            i <= src@.len(),
            in_box(src@, MAX_SIDE as usize, MAX_SIDE as usize),
            ox <= 0x3fff_ffff,
            oy <= 0x3fff_ffff,
            *width <= 0x7fff_ffff,
            *height <= 0x7fff_ffff,
            res@.no_duplicates(),
            tight(res@, *width, *height),
            cells_of(res@) == cells_of(r0).union(shifted(src@.subrange(0, i as int), ox as int, oy as int)),
        decreases src@.len() - i,
    {
        let q = P { x: src[i].x + ox, y: src[i].y + oy };
        let ghost before = res@;
        add_point(res, q);
        if q.x + 1 > *width {
            *width = q.x + 1;
        }
        if q.y + 1 > *height {
            *height = q.y + 1;
        }
        proof {
            let n = res@.len() - 1;
            assert(res@ == before || res@ == before.push(q));
            assert forall|k: int| 0 <= k < res@.len() implies res@[k].x < *width && res@[k].y < *height by {
                if k < before.len() {
                    assert(res@[k] == before[k]);
                }
            }
            if res@ == before.push(q) {
                assert(res@[n] == q);
            }
            if q.x + 1 < *width {
                let j = choose|j: int| 0 <= j < before.len() && before[j].x + 1 == *width;
                assert(res@[j] == before[j]);
            } else {
                lemma_cells_iff(res@);
                assert(cells_of(res@).contains(pt(q)));
                let j = choose|j: int| 0 <= j < res@.len() && pt(res@[j]) == pt(q);
                assert(res@[j].x + 1 == *width);
            }
            if q.y + 1 < *height {
                let j = choose|j: int| 0 <= j < before.len() && before[j].y + 1 == *height;
                assert(res@[j] == before[j]);
            } else {
                lemma_cells_iff(res@);
                assert(cells_of(res@).contains(pt(q)));
                let j = choose|j: int| 0 <= j < res@.len() && pt(res@[j]) == pt(q);
                assert(res@[j].y + 1 == *height);
            }
            let sp = src@.subrange(0, i as int);
            let sn = src@.subrange(0, i + 1);
            assert(shifted(sn, ox as int, oy as int) =~= shifted(sp, ox as int, oy as int).insert(pt(q))) by {
                assert(sn[i as int] == src@[i as int]);
                assert forall|r: (int, int)| #[trigger] shifted(sn, ox as int, oy as int).contains(r) implies
                    shifted(sp, ox as int, oy as int).insert(pt(q)).contains(r) by {
                    let j = choose|j: int| 0 <= j < sn.len() && r == (sn[j].x + ox, sn[j].y + oy);
                    if j < i {
                        assert(sp[j] == sn[j]);
                    }
                }
                assert forall|r: (int, int)| #[trigger] shifted(sp, ox as int, oy as int).contains(r) implies
                    shifted(sn, ox as int, oy as int).contains(r) by {
                    let j = choose|j: int| 0 <= j < sp.len() && r == (sp[j].x + ox, sp[j].y + oy);
                    assert(sp[j] == sn[j]);
                }
            }
            assert(cells_of(res@) =~= cells_of(r0).union(shifted(sn, ox as int, oy as int)));
        }
        i += 1;
    }
    assert(src@.subrange(0, src@.len() as int) == src@);
}

/// Offsets the combiner tries lie within `[-OFFSET_BOUND, OFFSET_BOUND]`.
pub const OFFSET_BOUND: i32 = 0x2000_0000;

/// Lays `mino2` over `mino1` moved by `(-x, -y)` and returns the union,
/// translated so that its least coordinates are 0.
pub fn concat(x: i32, y: i32, mino1: &Mino, mino2: &Mino) -> (r: Mino)
    requires
        mino1.wf(),
        mino2.wf(),
        side_ok(*mino1),
        side_ok(*mino2),
        -OFFSET_BOUND <= x <= OFFSET_BOUND,
        -OFFSET_BOUND <= y <= OFFSET_BOUND,
    ensures
        r.wf(),
        r.cells() == joined(mino1.cells(), mino2.cells(), x as int, y as int),
{
    // Both inputs have least coordinates 0, so the union's least x is
    // min(0, -x) and its least y is min(0, -y).
    let ax: usize = if x > 0 { x as usize } else { 0 };
    let bx: usize = if x > 0 { 0 } else { (-x) as usize };
    let ay: usize = if y > 0 { y as usize } else { 0 };
    let by: usize = if y > 0 { 0 } else { (-y) as usize };
    let mut ps: Vec<P> = Vec::new();
    let mut width: usize = 0;
    let mut height: usize = 0;
    add_shifted(&mut ps, &mino1.ps, ax, ay, &mut width, &mut height);
    add_shifted(&mut ps, &mino2.ps, bx, by, &mut width, &mut height);
    let r = Mino { ps, width, height };
    proof {
        let a = mino1.cells();
        let b = mino2.cells();
        let j1 = shifted(mino1.ps@, ax as int, ay as int);
        let j2 = shifted(mino2.ps@, bx as int, by as int);
        lemma_cells_iff(mino1.ps@);
        lemma_cells_iff(mino2.ps@);
        lemma_cells_iff(r.ps@);
        assert(cells_of(Seq::<P>::empty()) =~= Set::empty()) by {
            lemma_cells_iff(Seq::<P>::empty());
        }
        assert forall|q: (int, int)| #[trigger] r.cells().contains(q) <==> joined(a, b, x as int, y as int).contains(q) by {
            if j1.contains(q) {
                let j = choose|j: int| 0 <= j < mino1.ps@.len() && q == (mino1.ps@[j].x + ax, mino1.ps@[j].y + ay);
                assert(a.contains(pt(mino1.ps@[j])));
            }
            if j2.contains(q) {
                let j = choose|j: int| 0 <= j < mino2.ps@.len() && q == (mino2.ps@[j].x + bx, mino2.ps@[j].y + by);
                assert(b.contains(pt(mino2.ps@[j])));
            }
            if joined(a, b, x as int, y as int).contains(q) {
                if a.contains((q.0 - ax, q.1 - ay)) {
                    let j = choose|j: int| 0 <= j < mino1.ps@.len() && pt(mino1.ps@[j]) == (q.0 - ax, q.1 - ay);
                    assert(j1.contains(q));
                } else {
                    let j = choose|j: int| 0 <= j < mino2.ps@.len() && pt(mino2.ps@[j]) == (q.0 - bx, q.1 - by);
                    assert(j2.contains(q));
                }
            }
        }
        assert(r.cells() =~= joined(a, b, x as int, y as int));
        let i0 = choose|i: int| 0 <= i < mino1.ps@.len() && mino1.ps@[i].x == 0;
        assert(j1.contains((mino1.ps@[0].x + ax, mino1.ps@[0].y + ay)));
        assert(r.cells().contains((mino1.ps@[0].x + ax, mino1.ps@[0].y + ay)));
        assert(r.ps@.len() > 0);
        if x > 0 {
            let i = choose|i: int| 0 <= i < mino2.ps@.len() && mino2.ps@[i].x == 0;
            let q = (mino2.ps@[i].x + bx, mino2.ps@[i].y + by);
            assert(j2.contains(q));
            assert(r.cells().contains(q));
            let k = choose|k: int| 0 <= k < r.ps@.len() && pt(r.ps@[k]) == q;
            assert(r.ps@[k].x == 0);
        } else {
            let q = (mino1.ps@[i0].x + ax, mino1.ps@[i0].y + ay);
            assert(j1.contains(q));
            assert(r.cells().contains(q));
            let k = choose|k: int| 0 <= k < r.ps@.len() && pt(r.ps@[k]) == q;
            assert(r.ps@[k].x == 0);
        }
        if y > 0 {
            let i = choose|i: int| 0 <= i < mino2.ps@.len() && mino2.ps@[i].y == 0;
            let q = (mino2.ps@[i].x + bx, mino2.ps@[i].y + by);
            assert(j2.contains(q));
            assert(r.cells().contains(q));
            let k = choose|k: int| 0 <= k < r.ps@.len() && pt(r.ps@[k]) == q;
            assert(r.ps@[k].y == 0);
        } else {
            let i = choose|i: int| 0 <= i < mino1.ps@.len() && mino1.ps@[i].y == 0;
            let q = (mino1.ps@[i].x + ax, mino1.ps@[i].y + ay);
            assert(j1.contains(q));
            assert(r.cells().contains(q));
            let k = choose|k: int| 0 <= k < r.ps@.len() && pt(r.ps@[k]) == q;
            assert(r.ps@[k].y == 0);
        }
    }
    r
}

/// Every member of the group is a well-formed polyomino within the size
/// limit.
pub open spec fn group_ok(g: Seq<Mino>) -> bool {
    forall|i: int| 0 <= i < g.len() ==> (#[trigger] g[i]).wf() && side_ok(g[i])
}

/// `(dx, dy)` is one of the offsets tried for the pair `(m1, m2)`.
pub open spec fn in_range(m1: Mino, m2: Mino, dx: int, dy: int) -> bool {
    &&& -(m1.width as int) <= dx <= m1.width + m2.width
    &&& -(m1.height as int) <= dy <= m1.height + m2.height
}

/// The shape is kept for size class `k`: connected, with `2k` points.
pub open spec fn kept(c: Set<(int, int)>, k: int) -> bool {
    is_connected(c) && c.len() == 2 * k
}

/// The shape made of the group's members `i` and `j` at offset `(dx, dy)`.
pub open spec fn candidate(g: Seq<Mino>, i: int, j: int, dx: int, dy: int) -> Set<(int, int)> {
    joined(g[i].cells(), g[j].cells(), dx, dy)
}

/// Some pair of the group joins into `c` at an offset that is tried.
pub open spec fn from_group(g: Seq<Mino>, c: Set<(int, int)>) -> bool {
    exists|i: int, j: int, dx: int, dy: int|
        #![trigger candidate(g, i, j, dx, dy)]
        0 <= i < g.len() && 0 <= j < g.len() && in_range(g[i], g[j], dx, dy) && c == candidate(g, i, j, dx, dy)
}

/// Some polyomino of `res` covers exactly `c`.
pub open spec fn holds_shape(res: Seq<Mino>, c: Set<(int, int)>) -> bool {
    exists|t: int| 0 <= t < res.len() && (#[trigger] res[t]).cells() == c
}

/// Every polyomino of `res` is well formed, kept for class `k`, joined
/// from a pair of the group, and no two cover the same points.
pub open spec fn sound(g: Seq<Mino>, k: int, res: Seq<Mino>) -> bool {
    &&& forall|t: int| 0 <= t < res.len() ==> (#[trigger] res[t]).wf() && kept(res[t].cells(), k)
        && from_group(g, res[t].cells())
    &&& forall|t: int, u: int| 0 <= t < res.len() && 0 <= u < res.len() && t != u ==> (#[trigger] res[t]).cells() != (#[trigger] res[u]).cells()
}

/// `res` is what combining the group for size class `k` yields: exactly
/// one polyomino for each distinct kept shape that a pair of the group
/// forms at a tried offset.
pub open spec fn combined(g: Seq<Mino>, k: int, res: Seq<Mino>) -> bool {
    &&& sound(g, k, res)
    &&& forall|i: int, j: int, dx: int, dy: int|
        #![trigger candidate(g, i, j, dx, dy)]
        0 <= i < g.len() && 0 <= j < g.len() && in_range(g[i], g[j], dx, dy)
            && kept(candidate(g, i, j, dx, dy), k) ==> holds_shape(res, candidate(g, i, j, dx, dy))
}

proof fn lemma_holds_grow(a: Seq<Mino>, b: Seq<Mino>, c: Set<(int, int)>)
    requires
        holds_shape(a, c),
        a.len() <= b.len(),
        forall|t: int| 0 <= t < a.len() ==> b[t] == a[t],
    ensures
        holds_shape(b, c),
{
    let t = choose|t: int| 0 <= t < a.len() && (#[trigger] a[t]).cells() == c;
    assert(b[t] == a[t]);
}

/// Tries every offset for the pair `(group[i], group[j])` and appends each
/// new kept shape to `res`.
fn combine_pair(group: &Vec<Mino>, i: usize, j: usize, k: usize, seen: &mut Seen, res: &mut Vec<Mino>)
    requires
        group_ok(group@),
        i < group@.len(),
        j < group@.len(),
        sound(group@, k as int, old(res)@),
        old(seen).wf(),
        old(seen)@ == old(res)@.map_values(|m: Mino| m.cells()),
    ensures
        sound(group@, k as int, final(res)@),
        final(seen).wf(),
        final(seen)@ == final(res)@.map_values(|m: Mino| m.cells()),
        old(res)@.len() <= final(res)@.len(),
        forall|t: int| 0 <= t < old(res)@.len() ==> final(res)@[t] == old(res)@[t],
        forall|dx: int, dy: int|
            #![trigger candidate(group@, i as int, j as int, dx, dy)]
            in_range(group@[i as int], group@[j as int], dx, dy) && kept(candidate(group@, i as int, j as int, dx, dy), k as int)
                ==> holds_shape(final(res)@, candidate(group@, i as int, j as int, dx, dy)),
{
    let ghost g = group@;
    let m1 = &group[i];
    let m2 = &group[j];
    assert(m1.wf() && side_ok(*m1) && m2.wf() && side_ok(*m2));
    let ghost r0 = res@;
    let x_end: i32 = (m1.width + m2.width) as i32;
    let y_end: i32 = (m1.height + m2.height) as i32;
    let mut x: i32 = -(m1.width as i32);
    while x <= x_end
        invariant
            g == group@,
            group_ok(g),
            i < g.len(),
            j < g.len(),
            *m1 == g[i as int],
            *m2 == g[j as int],
            m1.wf() && side_ok(*m1) && m2.wf() && side_ok(*m2),
            x_end == m1.width + m2.width,
            y_end == m1.height + m2.height,
            -(m1.width as int) <= x <= x_end + 1,
            sound(g, k as int, res@),
            seen.wf(),
                seen@ == res@.map_values(|m: Mino| m.cells()),
            r0.len() <= res@.len(),
            forall|t: int| 0 <= t < r0.len() ==> res@[t] == r0[t],
            forall|dx: int, dy: int|
                #![trigger candidate(g, i as int, j as int, dx, dy)]
                in_range(g[i as int], g[j as int], dx, dy) && dx < x && kept(candidate(g, i as int, j as int, dx, dy), k as int)
                    ==> holds_shape(res@, candidate(g, i as int, j as int, dx, dy)),
        decreases x_end + 1 - x,
    {
        let mut y: i32 = -(m1.height as i32);
        while y <= y_end
            invariant
                g == group@,
                group_ok(g),
                i < g.len(),
                j < g.len(),
                *m1 == g[i as int],
                *m2 == g[j as int],
                m1.wf() && side_ok(*m1) && m2.wf() && side_ok(*m2),
                x_end == m1.width + m2.width,
                y_end == m1.height + m2.height,
                -(m1.width as int) <= x <= x_end,
                -(m1.height as int) <= y <= y_end + 1,
                sound(g, k as int, res@),
                seen.wf(),
                seen@ == res@.map_values(|m: Mino| m.cells()),
                r0.len() <= res@.len(),
                forall|t: int| 0 <= t < r0.len() ==> res@[t] == r0[t],
                forall|dx: int, dy: int|
                    #![trigger candidate(g, i as int, j as int, dx, dy)]
                    in_range(g[i as int], g[j as int], dx, dy) && (dx < x || (dx == x && dy < y))
                        && kept(candidate(g, i as int, j as int, dx, dy), k as int)
                        ==> holds_shape(res@, candidate(g, i as int, j as int, dx, dy)),
            decreases y_end + 1 - y,
        {
            let c = concat(x, y, m1, m2);
            let ghost cs = c.cells();
            let ghost before = res@;
            proof {
                lemma_cells_len(c.ps@);
                assert(cs == candidate(g, i as int, j as int, x as int, y as int));
                assert(in_range(g[i as int], g[j as int], x as int, y as int));
            }
            let n = c.ps.len();
            if connected(&c) && k <= usize::MAX / 2 && n == 2 * k {
                let ghost seen_before = seen@;
                if seen.accept(&c) {
                    res.push(c);
                    proof {
                        let n = before.len() as int;
                        assert(res@[n] == c);
                        assert(res@.map_values(|m: Mino| m.cells()) =~= seen_before.push(cs));
                        assert forall|t: int| 0 <= t < res@.len() implies (#[trigger] res@[t]).wf()
                            && kept(res@[t].cells(), k as int) && from_group(g, res@[t].cells()) by {
                            if t < n {
                                assert(res@[t] == before[t]);
                            } else {
                                assert(res@[t] == c);
                                assert(kept(cs, k as int));
                            }
                        }
                        assert forall|t: int, u: int| 0 <= t < res@.len() && 0 <= u < res@.len() && t != u
                            implies (#[trigger] res@[t]).cells() != (#[trigger] res@[u]).cells() by {
                            if t < n && u < n {
                                assert(res@[t] == before[t] && res@[u] == before[u]);
                            } else if t < n {
                                assert(res@[t] == before[t]);
                                assert(seen_before[t] == before[t].cells());
                            } else if u < n {
                                assert(res@[u] == before[u]);
                                assert(seen_before[u] == before[u].cells());
                            }
                        }
                        assert(holds_shape(res@, cs));
                    }
                } else {
                    proof {
                        let t = choose|t: int| 0 <= t < seen_before.len() && seen_before[t] == cs;
                        assert(res@[t].cells() == cs);
                        assert(holds_shape(res@, cs));
                    }
                }
            } else {
                proof {
                    if kept(cs, k as int) {
                        assert(n == 2 * k);
                        assert(false);
                    }
                }
            }
            proof {
                assert forall|dx: int, dy: int|
                    #![trigger candidate(g, i as int, j as int, dx, dy)]
                    in_range(g[i as int], g[j as int], dx, dy) && (dx < x || (dx == x && dy < y + 1))
                        && kept(candidate(g, i as int, j as int, dx, dy), k as int)
                        implies holds_shape(res@, candidate(g, i as int, j as int, dx, dy)) by {
                    if dx == x && dy == y {
                        assert(candidate(g, i as int, j as int, dx, dy) == cs);
                        assert(holds_shape(res@, cs));
                    } else {
                        lemma_holds_grow(before, res@, candidate(g, i as int, j as int, dx, dy));
                    }
                }
            }
            y += 1;
        }
        x += 1;
    }
}

/// Joins every ordered pair of the group of size-`k` polyominoes (a
/// member with itself included) at every tried offset, and returns each
/// distinct kept shape, of `2k` cells, once.
pub fn combine_all(group: &Vec<Mino>, k: usize) -> (r: Vec<Mino>)
    requires
        group_ok(group@),
        forall|i: int| 0 <= i < group@.len() ==> (#[trigger] group@[i]).ps@.len() == k,
    ensures
        combined(group@, k as int, r@),
{
    let ghost g = group@;
    let mut res: Vec<Mino> = Vec::new();
    let mut seen = Seen::new();
    assert(seen@ =~= res@.map_values(|m: Mino| m.cells()));
    let mut i: usize = 0;
    while i < group.len()
        invariant
            g == group@,
            group_ok(g),
            i <= g.len(),
            sound(g, k as int, res@),
            seen.wf(),
                seen@ == res@.map_values(|m: Mino| m.cells()),
            forall|i2: int, j2: int, dx: int, dy: int|
                #![trigger candidate(g, i2, j2, dx, dy)]
                0 <= i2 < i && 0 <= j2 < g.len() && in_range(g[i2], g[j2], dx, dy)
                    && kept(candidate(g, i2, j2, dx, dy), k as int) ==> holds_shape(res@, candidate(g, i2, j2, dx, dy)),
        decreases g.len() - i,
    {
        let mut j: usize = 0;
        while j < group.len()
            invariant
                g == group@,
                group_ok(g),
                i < g.len(),
                j <= g.len(),
                sound(g, k as int, res@),
                seen.wf(),
                seen@ == res@.map_values(|m: Mino| m.cells()),
                forall|i2: int, j2: int, dx: int, dy: int|
                    #![trigger candidate(g, i2, j2, dx, dy)]
                    0 <= i2 < g.len() && 0 <= j2 < g.len() && (i2 < i || (i2 == i && j2 < j)) && in_range(g[i2], g[j2], dx, dy)
                        && kept(candidate(g, i2, j2, dx, dy), k as int) ==> holds_shape(res@, candidate(g, i2, j2, dx, dy)),
            decreases g.len() - j,
        {
            let ghost before = res@;
            combine_pair(group, i, j, k, &mut seen, &mut res);
            proof {
                assert forall|i2: int, j2: int, dx: int, dy: int|
                    #![trigger candidate(g, i2, j2, dx, dy)]
                    0 <= i2 < g.len() && 0 <= j2 < g.len() && (i2 < i || (i2 == i && j2 < j + 1)) && in_range(g[i2], g[j2], dx, dy)
                        && kept(candidate(g, i2, j2, dx, dy), k as int) implies holds_shape(res@, candidate(g, i2, j2, dx, dy)) by {
                    if !(i2 == i && j2 == j) {
                        lemma_holds_grow(before, res@, candidate(g, i2, j2, dx, dy));
                    }
                }
            }
            j += 1;
        }
        i += 1;
    }
    res
}

/// Combines each size class of `grps`: entry `t` of the result holds the
/// combinations of `grps[t]` kept for size class `t`, so that for a
/// collection indexed by size it holds the shapes of size `2t`.
pub fn duplicate(grps: &Vec<Vec<Mino>>) -> (r: Vec<Vec<Mino>>)
    requires
        forall|t: int| 0 <= t < grps@.len() ==> group_ok(#[trigger] grps@[t]@),
        forall|t: int, i: int| 0 <= t < grps@.len() && 0 <= i < grps@[t]@.len() ==> (#[trigger] grps@[t]@[i]).ps@.len() == t,
    ensures
        r@.len() == grps@.len(),
        forall|t: int| 0 <= t < grps@.len() ==> combined(grps@[t]@, t, #[trigger] r@[t]@),
{
    let mut res: Vec<Vec<Mino>> = Vec::new();
    let mut mino_size: usize = 0;
    while mino_size < grps.len()
        invariant
            mino_size <= grps@.len(),
            res@.len() == mino_size,
            forall|t: int| 0 <= t < grps@.len() ==> group_ok(#[trigger] grps@[t]@),
            forall|t: int, i: int| 0 <= t < grps@.len() && 0 <= i < grps@[t]@.len() ==> (#[trigger] grps@[t]@[i]).ps@.len() == t,
            forall|t: int| 0 <= t < mino_size ==> combined(grps@[t]@, t, #[trigger] res@[t]@),
        decreases grps@.len() - mino_size,
    {
        let c = combine_all(&grps[mino_size], mino_size);
        res.push(c);
        mino_size += 1;
    }
    res
}

} // verus!
