//! Connectivity of a polyomino: a depth-first traversal that removes each
//! point it reaches from a working copy of the point list.

use vstd::prelude::*;
use crate::shape::{
    P, Mino, adj, pt, in_box, cells_of, closed_in, is_connected, find_point, copy_points, lemma_cells_iff,
    lemma_cells_remove,
};

verus! {

/// The neighbour of `p` in direction `dir` (up, left, right, down).
pub open spec fn step_of(p: (int, int), dir: int) -> (int, int) {
    if dir == 0 {
        (p.0, p.1 - 1)
    } else if dir == 1 {
        (p.0 - 1, p.1)
    } else if dir == 2 {
        (p.0 + 1, p.1)
    } else {
        (p.0, p.1 + 1)
    }
}

/// The neighbour of `p` in direction `dir`, when it lies in the box.
fn step(p: P, dir: usize, width: usize, height: usize) -> (r: Option<P>)
    requires
        dir < 4,
        p.x < width,
        p.y < height,
    ensures
        match r {
            Some(q) => pt(q) == step_of(pt(p), dir as int) && q.x < width && q.y < height,
            None => {
                let s = step_of(pt(p), dir as int);
                s.0 < 0 || s.0 >= width || s.1 < 0 || s.1 >= height
            },
        },
{
    if dir == 0 {
        if p.y == 0 { None } else { Some(P { x: p.x, y: p.y - 1 }) }
    } else if dir == 1 {
        if p.x == 0 { None } else { Some(P { x: p.x - 1, y: p.y }) }
    } else if dir == 2 {
        if p.x + 1 >= width { None } else { Some(P { x: p.x + 1, y: p.y }) }
    } else {
        if p.y + 1 >= height { None } else { Some(P { x: p.x, y: p.y + 1 }) }
    }
}

proof fn lemma_adj_is_step(u: (int, int), v: (int, int))
    requires
        adj(u, v),
    ensures
        exists|d: int| 0 <= d < 4 && step_of(u, d) == v,
{
    if v == step_of(u, 0) {
    } else if v == step_of(u, 1) {
    } else if v == step_of(u, 2) {
    } else {
        assert(v == step_of(u, 3));
    }
}

/// Removes from `ps` the point at `index` and, recursively, every point
/// reachable from it through neighbours inside the box.
///
/// What is removed is closed under adjacency against what stays, and lies
/// inside every adjacency-closed subset of the given points that holds
/// the start point.
pub fn dfs(index: usize, ps: &mut Vec<P>, width: usize, height: usize)
    requires
        index < old(ps)@.len(),
        old(ps)@.no_duplicates(),
        in_box(old(ps)@, width, height),
    ensures
        final(ps)@.no_duplicates(),
        in_box(final(ps)@, width, height),
        final(ps)@.len() < old(ps)@.len(),
        cells_of(final(ps)@).subset_of(cells_of(old(ps)@)),
        !cells_of(final(ps)@).contains(pt(old(ps)@[index as int])),
        forall|u: (int, int), v: (int, int)|
            #![trigger cells_of(old(ps)@).contains(u), cells_of(final(ps)@).contains(v)]
            cells_of(old(ps)@).contains(u) && !cells_of(final(ps)@).contains(u) && cells_of(
                final(ps)@,
            ).contains(v) ==> !adj(u, v),
        forall|a: Set<(int, int)>|
            #![trigger closed_in(a, cells_of(old(ps)@))]
            closed_in(a, cells_of(old(ps)@)) && a.contains(pt(old(ps)@[index as int]))
                ==> cells_of(old(ps)@).difference(cells_of(final(ps)@)).subset_of(a),
    decreases old(ps)@.len(),
{
    let ghost s0 = cells_of(ps@);
    let p = ps[index];
    let ghost pp = pt(p);
    proof {
        lemma_cells_remove(ps@, index as int);
        lemma_cells_iff(ps@);
    }
    ps.remove(index);
    proof {
        lemma_cells_iff(ps@);
    }
    let mut i: usize = 0;
    while i < 4
        invariant
            0 <= i <= 4,
            s0.contains(pp),
            p.x < width && p.y < height,
            ps@.no_duplicates(),
            in_box(ps@, width, height),
            ps@.len() < old(ps)@.len(),
            s0 == cells_of(old(ps)@),
            index < old(ps)@.len(),
            pp == pt(p),
            pp == pt(old(ps)@[index as int]),
            cells_of(ps@).subset_of(s0),
            !cells_of(ps@).contains(pp),
            forall|d: int| 0 <= d < i ==> !cells_of(ps@).contains(#[trigger] step_of(pp, d)),
            forall|u: (int, int), v: (int, int)|
                #![trigger s0.contains(u), cells_of(ps@).contains(v)]
                s0.contains(u) && !cells_of(ps@).contains(u) && cells_of(ps@).contains(v) && adj(
                    u,
                    v,
                ) ==> u == pp,
            forall|a: Set<(int, int)>|
                #![trigger closed_in(a, s0)]
                closed_in(a, s0) && a.contains(pp) ==> s0.difference(cells_of(ps@)).subset_of(a),
        decreases 4 - i,
    {
        let ghost before = ps@;
        match step(p, i, width, height) {
            Some(q) => {
                match find_point(ps, q) {
                    Some(k) => {
                        proof {
                            lemma_cells_iff(ps@);
                            assert(pt(ps@[k as int]) == pt(q));
                        }
                        dfs(k, ps, width, height);
                        proof {
                            let c = cells_of(before);
                            let c2 = cells_of(ps@);
                            let qq = pt(q);
                            assert(c.contains(qq));
                            assert(qq == step_of(pp, i as int));
                            assert(adj(pp, qq));
                            assert forall|a: Set<(int, int)>|
                                #![trigger closed_in(a, s0)]
                                closed_in(a, s0) && a.contains(pp) implies s0.difference(
                                    c2,
                                ).subset_of(a) by {
                                assert(s0.contains(qq));
                                assert(a.contains(qq));
                                let b = a.intersect(c);
                                assert(closed_in(b, c));
                                assert(c.difference(c2).subset_of(b));
                                assert(s0.difference(c).subset_of(a));
                                assert forall|u: (int, int)| #[trigger]
                                    s0.difference(c2).contains(u) implies a.contains(u) by {
                                    if c.contains(u) {
                                        assert(c.difference(c2).contains(u));
                                    } else {
                                        assert(s0.difference(c).contains(u));
                                    }
                                }
                            }
                            assert forall|u: (int, int), v: (int, int)|
                                #![trigger s0.contains(u), c2.contains(v)]
                                s0.contains(u) && !c2.contains(u) && c2.contains(v) && adj(
                                    u,
                                    v,
                                ) implies u == pp by {
                                if c.contains(u) {
                                    assert(!adj(u, v));
                                }
                            }
                            assert forall|d: int| 0 <= d < i + 1 implies !c2.contains(
                                #[trigger] step_of(pp, d),
                            ) by {
                                if d < i {
                                    assert(!c.contains(step_of(pp, d)));
                                }
                            }
                        }
                    },
                    None => {
                        proof {
                            lemma_cells_iff(ps@);
                            assert forall|d: int| 0 <= d < i + 1 implies !cells_of(ps@).contains(
                                #[trigger] step_of(pp, d),
                            ) by {
                                if d == i && cells_of(ps@).contains(step_of(pp, d)) {
                                    let j = choose|j: int|
                                        0 <= j < ps@.len() && pt(ps@[j]) == step_of(pp, d);
                                    assert(ps@[j] == q);
                                }
                            }
                        }
                    },
                }
            },
            None => {
                proof {
                    lemma_cells_iff(ps@);
                    assert forall|d: int| 0 <= d < i + 1 implies !cells_of(ps@).contains(
                        #[trigger] step_of(pp, d),
                    ) by {
                        if d == i && cells_of(ps@).contains(step_of(pp, d)) {
                            let j = choose|j: int|
                                0 <= j < ps@.len() && pt(ps@[j]) == step_of(pp, d);
                            assert(ps@[j].x < width && ps@[j].y < height);
                        }
                    }
                }
            },
        }
        i += 1;
    }
    proof {
        let s1 = cells_of(ps@);
        assert forall|u: (int, int), v: (int, int)|
            #![trigger s0.contains(u), s1.contains(v)]
            s0.contains(u) && !s1.contains(u) && s1.contains(v) implies !adj(u, v) by {
            if adj(u, v) {
                assert(u == pp);
                lemma_adj_is_step(u, v);
                let d = choose|d: int| 0 <= d < 4 && step_of(u, d) == v;
                assert(!s1.contains(step_of(pp, d)));
            }
        }
    }
}

/// Whether the polyomino is one 4-connected piece.
pub fn connected(mino: &Mino) -> (r: bool)
    requires
        mino.wf(),
    ensures
        r == is_connected(mino.cells()),
{
    let mut ps = copy_points(&mino.ps);
    let ghost s = mino.cells();
    proof {
        lemma_cells_iff(ps@);
    }
    dfs(0, &mut ps, mino.width, mino.height);
    let ghost s1 = cells_of(ps@);
    let ghost start = pt(mino.ps@[0]);
    let ghost reached = s.difference(s1);
    proof {
        lemma_cells_iff(ps@);
        assert(s.contains(start));
        assert(closed_in(reached, s)) by {
            assert forall|u: (int, int), v: (int, int)|
                #![trigger reached.contains(u), s.contains(v)]
                reached.contains(u) && s.contains(v) && adj(u, v) implies reached.contains(v) by {
                if s1.contains(v) {
                    assert(!adj(u, v));
                }
            }
        }
    }
    if ps.len() == 0 {
        proof {
            assert(s1.is_empty()) by {
                if !s1.is_empty() {
                    let w = s1.choose();
                    assert(s1.contains(w));
                }
            }
            assert forall|a: Set<(int, int)>|
                #![trigger closed_in(a, s)]
                a.subset_of(s) && closed_in(a, s) implies a.is_empty() || a == s by {
                if a.contains(start) {
                    assert(reached.subset_of(a));
                    assert(a =~= s);
                } else {
                    let b = s.difference(a);
                    assert(closed_in(b, s)) by {
                        assert forall|u: (int, int), v: (int, int)|
                            #![trigger b.contains(u), s.contains(v)]
                            b.contains(u) && s.contains(v) && adj(u, v) implies b.contains(v) by {
                            if a.contains(v) {
                                assert(adj(v, u));
                            }
                        }
                    }
                    assert(reached.subset_of(b));
                    assert(reached =~= s);
                    assert(a =~= Set::empty());
                }
            }
            assert(!s.is_empty());
        }
        true
    } else {
        proof {
            let w = ps@[0];
            assert(s1.contains(pt(w)));
            assert(reached.contains(start));
            assert(!reached.contains(pt(w)));
            assert(reached.subset_of(s));
        }
        false
    }
}

} // verus!
