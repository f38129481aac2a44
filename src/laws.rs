//! Properties that relate several results of the library.

use vstd::prelude::*;
use crate::shape::{Mino, shift_set, lemma_cells_iff, pt, normalized, lemma_wf_normalized};
use crate::growth::{
    Cell, grown, pos, discovered, placed_set, step_value, is_run, enumerated, shapes_of,
};
use crate::combine::{joined, combined, from_group, holds_shape, candidate, kept, in_range};

verus! {

/// The distinct shapes of a list of polyominoes.
pub open spec fn shapes(r: Seq<Mino>) -> Set<Set<(int, int)>> {
    r.map_values(|m: Mino| m.cells()).to_set()
}

/// A well-formed polyomino is normalized, and normalizing it again
/// changes nothing: the only translate of it that is normalized is itself.
pub proof fn lemma_renormalize(m: Mino, ox: int, oy: int)
    requires
        m.wf(),
        normalized(shift_set(m.cells(), ox, oy)),
    ensures
        normalized(m.cells()),
        ox == 0 && oy == 0,
        shift_set(m.cells(), ox, oy) == m.cells(),
{
    let s = m.cells();
    let t = shift_set(s, ox, oy);
    lemma_cells_iff(m.ps@);
    let i = choose|i: int| 0 <= i < m.ps@.len() && m.ps@[i].x == 0;
    let j = choose|i: int| 0 <= i < m.ps@.len() && m.ps@[i].y == 0;
    assert(s.contains(pt(m.ps@[i])));
    assert(s.contains(pt(m.ps@[j])));
    assert(t.contains((pt(m.ps@[i]).0 + ox, pt(m.ps@[i]).1 + oy)));
    assert(t.contains((pt(m.ps@[j]).0 + ox, pt(m.ps@[j]).1 + oy)));
    let qx = choose|q: (int, int)| #[trigger] t.contains(q) && q.0 == 0;
    let qy = choose|q: (int, int)| #[trigger] t.contains(q) && q.1 == 0;
    assert(s.contains((qx.0 - ox, qx.1 - oy)));
    assert(s.contains((qy.0 - ox, qy.1 - oy)));
    assert(t =~= s);
}

/// Combining a group for a size class gives the same set of shapes every
/// time: two results that both meet the combiner's contract hold the same
/// shapes, whatever their order.
pub proof fn lemma_combine_deterministic(g: Seq<Mino>, k: int, r1: Seq<Mino>, r2: Seq<Mino>)
    requires
        combined(g, k, r1),
        combined(g, k, r2),
    ensures
        shapes(r1) == shapes(r2),
{
    lemma_shapes_within(g, k, r1, r2);
    lemma_shapes_within(g, k, r2, r1);
    assert(shapes(r1) =~= shapes(r2));
}

proof fn lemma_shapes_within(g: Seq<Mino>, k: int, r1: Seq<Mino>, r2: Seq<Mino>)
    requires
        combined(g, k, r1),
        combined(g, k, r2),
    ensures
        shapes(r1).subset_of(shapes(r2)),
{
    let v1 = r1.map_values(|m: Mino| m.cells());
    let v2 = r2.map_values(|m: Mino| m.cells());
    assert forall|c: Set<(int, int)>| #[trigger] shapes(r1).contains(c) implies shapes(r2).contains(c) by {
        let t = choose|t: int| 0 <= t < v1.len() && v1[t] == c;
        assert(r1[t].cells() == c);
        assert(kept(c, k) && from_group(g, c));
        let (i, j, dx, dy) = choose|i: int, j: int, dx: int, dy: int|
            #![trigger candidate(g, i, j, dx, dy)]
            0 <= i < g.len() && 0 <= j < g.len() && in_range(g[i], g[j], dx, dy) && c == candidate(g, i, j, dx, dy);
        assert(holds_shape(r2, candidate(g, i, j, dx, dy)));
        let u = choose|u: int| 0 <= u < r2.len() && (#[trigger] r2[u]).cells() == c;
        assert(v2[u] == c);
    }
}

/// Committing a given cell of a given node has one outcome.
pub proof fn lemma_grown_unique(
    pc: Seq<Cell>,
    pnums: Seq<usize>,
    num: int,
    fc1: Seq<Cell>,
    fn1: Seq<usize>,
    fc2: Seq<Cell>,
    fn2: Seq<usize>,
)
    requires
        grown(pc, pnums, num, fc1, fn1),
        grown(pc, pnums, num, fc2, fn2),
    ensures
        fc1 == fc2,
        fn1 == fn2,
{
    let l = pc.len();
    let d = discovered(pc, pos(pc[num - 1]), 4);
    let v1 = fc1.subrange(l as int, fc1.len() as int).map_values(|x: Cell| pos(x));
    let v2 = fc2.subrange(l as int, fc2.len() as int).map_values(|x: Cell| pos(x));
    assert(v1.len() == fc1.len() - l && v2.len() == fc2.len() - l);
    assert(fc1.len() == fc2.len());
    assert forall|t: int| 0 <= t < fc1.len() implies fc1[t] == fc2[t] by {
        if t < l {
            assert(pos(fc1[t]) == pos(pc[t]) && pos(fc2[t]) == pos(pc[t]));
        } else {
            assert(v1[t - l] == pos(fc1[t]));
            assert(v2[t - l] == pos(fc2[t]));
        }
    }
    assert(fc1 =~= fc2);
    assert forall|a: int| 0 <= a < fn1.len() implies fn1[a] == fn2[a] by {
        if a < pnums.len() {
        } else {
            assert(fn1[a] == l + 1 + (a - pnums.len()));
            assert(fn2[a] == l + 1 + (a - pnums.len()));
        }
    }
    assert(fn1 =~= fn2);
}

/// Two normalized translates of one set of positions are the same set.
pub proof fn lemma_normal_unique(p: Set<(int, int)>, a: int, b: int, c: int, d: int)
    requires
        normalized(shift_set(p, a, b)),
        normalized(shift_set(p, c, d)),
    ensures
        shift_set(p, a, b) == shift_set(p, c, d),
{
    let q1 = shift_set(p, a, b);
    let q2 = shift_set(p, c, d);
    let x1 = choose|q: (int, int)| #[trigger] q1.contains(q) && q.0 == 0;
    let y1 = choose|q: (int, int)| #[trigger] q1.contains(q) && q.1 == 0;
    let x2 = choose|q: (int, int)| #[trigger] q2.contains(q) && q.0 == 0;
    let y2 = choose|q: (int, int)| #[trigger] q2.contains(q) && q.1 == 0;
    assert(q2.contains((x1.0 - a + c, x1.1 - b + d)));
    assert(q2.contains((y1.0 - a + c, y1.1 - b + d)));
    assert(q1.contains((x2.0 - c + a, x2.1 - d + b)));
    assert(q1.contains((y2.0 - c + a, y2.1 - d + b)));
    assert(q1 =~= q2);
}

/// One step of the enumeration has one outcome: from the same stack and
/// output, a step leads to the same stack and the same shapes.
pub proof fn lemma_step_deterministic(
    s: Seq<(Seq<Cell>, Seq<usize>)>,
    res: Seq<Set<(int, int)>>,
    fs1: Seq<(Seq<Cell>, Seq<usize>)>,
    fres1: Seq<Set<(int, int)>>,
    fs2: Seq<(Seq<Cell>, Seq<usize>)>,
    fres2: Seq<Set<(int, int)>>,
    n: int,
)
    requires
        s.len() > 0,
        step_value(s, res, fs1, fres1, n),
        step_value(s, res, fs2, fres2, n),
    ensures
        fs1 == fs2,
        fres1 == fres2,
{
    reveal(step_value);
    let l = s.len();
    let top = s[l - 1];
    if l > n || top.1.len() == 0 {
    } else {
        let c1 = fs1[l as int];
        let c2 = fs2[l as int];
        lemma_grown_unique(top.0, top.1.drop_last(), top.1.last() as int, c1.0, c1.1, c2.0, c2.1);
        assert forall|d: int| 0 <= d < fs1.len() implies fs1[d] == fs2[d] by {
            if d < l - 1 {
                assert(fs1[d] == s[d] && fs2[d] == s[d]);
            }
        }
        assert(fs1 =~= fs2);
        let p = placed_set(c1.0);
        let (ox1, oy1) = choose|ox: int, oy: int| fres1.last() == #[trigger] shift_set(p, ox, oy);
        let (ox2, oy2) = choose|ox: int, oy: int| fres2.last() == #[trigger] shift_set(p, ox, oy);
        lemma_normal_unique(p, ox1, oy1, ox2, oy2);
        assert forall|t: int| 0 <= t < fres1.len() implies fres1[t] == fres2[t] by {
            if t < res.len() {
                assert(fres1[t] == res[t] && fres2[t] == res[t]);
            }
        }
        assert(fres1 =~= fres2);
    }
}

proof fn lemma_runs_agree(
    t1: Seq<(Seq<(Seq<Cell>, Seq<usize>)>, Seq<Set<(int, int)>>)>,
    t2: Seq<(Seq<(Seq<Cell>, Seq<usize>)>, Seq<Set<(int, int)>>)>,
    n: int,
    k: int,
)
    requires
        is_run(t1, n),
        is_run(t2, n),
        0 <= k < t1.len(),
        k < t2.len(),
    ensures
        t1[k] == t2[k],
    decreases k,
{
    if k > 0 {
        lemma_runs_agree(t1, t2, n, k - 1);
        assert(t1[k - 1].0.len() > 0 && step_value(t1[k - 1].0, t1[k - 1].1, t1[k].0, t1[k].1, n));
        assert(t2[k - 1].0.len() > 0 && step_value(t2[k - 1].0, t2[k - 1].1, t2[k].0, t2[k].1, n));
        lemma_step_deterministic(t1[k - 1].0, t1[k - 1].1, t1[k].0, t1[k].1, t2[k].0, t2[k].1, n);
    }
}

/// Enumerating twice with the same bound gives the same shapes, in the
/// same order.
pub proof fn lemma_enumerate_deterministic(n: int, r1: Seq<Mino>, r2: Seq<Mino>)
    requires
        enumerated(n, r1),
        enumerated(n, r2),
    ensures
        shapes_of(r1) == shapes_of(r2),
        shapes(r1) == shapes(r2),
{
    let t1 = choose|t: Seq<(Seq<(Seq<Cell>, Seq<usize>)>, Seq<Set<(int, int)>>)>| is_run(t, n) && #[trigger] t.last().1 == shapes_of(r1);
    let t2 = choose|t: Seq<(Seq<(Seq<Cell>, Seq<usize>)>, Seq<Set<(int, int)>>)>| is_run(t, n) && #[trigger] t.last().1 == shapes_of(r2);
    if t1.len() < t2.len() {
        lemma_runs_agree(t1, t2, n, t1.len() - 1);
        assert(t2[t1.len() - 1].0.len() > 0);
    } else if t2.len() < t1.len() {
        lemma_runs_agree(t1, t2, n, t2.len() - 1);
        assert(t1[t2.len() - 1].0.len() > 0);
    } else {
        lemma_runs_agree(t1, t2, n, t1.len() - 1);
    }
    assert(shapes(r1) =~= shapes(r2)) by {
        assert(shapes_of(r1) == r1.map_values(|m: Mino| m.cells()));
        assert(shapes_of(r2) == r2.map_values(|m: Mino| m.cells()));
    }
}

/// Normalizing sees the committed positions only up to translation: two
/// well-formed polyominoes that are translates of one set of positions, or
/// of a translate of it, cover the same positions and have the same width
/// and height. So moving every cell of a growth node, or changing its
/// uncommitted cells, leaves what `extract` returns unchanged.
pub proof fn lemma_normal_form_of_translates(
    p: Set<(int, int)>,
    a: int,
    b: int,
    m1: Mino,
    ox1: int,
    oy1: int,
    m2: Mino,
    ox2: int,
    oy2: int,
)
    requires
        m1.wf(),
        m2.wf(),
        m1.cells() == shift_set(p, ox1, oy1),
        m2.cells() == shift_set(shift_set(p, a, b), ox2, oy2),
    ensures
        m1.cells() == m2.cells(),
        m1.width == m2.width,
        m1.height == m2.height,
{
    assert(shift_set(shift_set(p, a, b), ox2, oy2) =~= shift_set(p, a + ox2, b + oy2));
    lemma_wf_normalized(m1);
    lemma_wf_normalized(m2);
    lemma_normal_unique(p, ox1, oy1, a + ox2, b + oy2);
    lemma_cells_iff(m1.ps@);
    lemma_cells_iff(m2.ps@);
    let i1 = choose|i: int| 0 <= i < m1.ps@.len() && m1.ps@[i].x + 1 == m1.width;
    let i2 = choose|i: int| 0 <= i < m2.ps@.len() && m2.ps@[i].x + 1 == m2.width;
    let j1 = choose|i: int| 0 <= i < m1.ps@.len() && m1.ps@[i].y + 1 == m1.height;
    let j2 = choose|i: int| 0 <= i < m2.ps@.len() && m2.ps@[i].y + 1 == m2.height;
    assert(m2.cells().contains(pt(m1.ps@[i1])));
    assert(m1.cells().contains(pt(m2.ps@[i2])));
    assert(m2.cells().contains(pt(m1.ps@[j1])));
    assert(m1.cells().contains(pt(m2.ps@[j2])));
    let u1 = choose|k: int| 0 <= k < m2.ps@.len() && pt(m2.ps@[k]) == pt(m1.ps@[i1]);
    let u2 = choose|k: int| 0 <= k < m1.ps@.len() && pt(m1.ps@[k]) == pt(m2.ps@[i2]);
    let v1 = choose|k: int| 0 <= k < m2.ps@.len() && pt(m2.ps@[k]) == pt(m1.ps@[j1]);
    let v2 = choose|k: int| 0 <= k < m1.ps@.len() && pt(m1.ps@[k]) == pt(m2.ps@[j2]);
}

/// Laying a polyomino over itself at offset `(0, 0)` and normalizing gives
/// the polyomino back: same positions, same width and height.
pub proof fn lemma_concat_self(m: Mino, r: Mino)
    requires
        m.wf(),
        r.wf(),
        r.cells() == joined(m.cells(), m.cells(), 0, 0),
    ensures
        r.cells() == m.cells(),
        r.width == m.width,
        r.height == m.height,
{
    let c = m.cells();
    assert(joined(c, c, 0, 0) =~= shift_set(shift_set(c, 0, 0), 0, 0));
    assert(c =~= shift_set(c, 0, 0));
    lemma_normal_form_of_translates(c, 0, 0, m, 0, 0, r, 0, 0);
}

} // verus!
