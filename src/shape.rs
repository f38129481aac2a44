//! Points, polyominoes, and the set-level notions the rest of the library
//! states its contracts over.

use vstd::prelude::*;

verus! {

/// A grid point with non-negative coordinates.
#[derive(Clone, Copy, Debug, PartialEq, Eq, Structural, Hash, PartialOrd, Ord)]
pub struct P {
    pub x: usize,
    pub y: usize,
}

/// A polyomino: its distinct points, translated so that the least x and
/// the least y are both 0, and the size of its bounding box.
#[derive(Clone, Debug)]
pub struct Mino {
    pub ps: Vec<P>,
    pub width: usize,
    pub height: usize,
}

/// Two points share an edge.
pub open spec fn adj(a: (int, int), b: (int, int)) -> bool {
    (a.0 == b.0 && (a.1 - b.1 == 1 || b.1 - a.1 == 1)) || (a.1 == b.1 && (a.0 - b.0 == 1 || b.0
        - a.0 == 1))
}

pub open spec fn pt(p: P) -> (int, int) {
    (p.x as int, p.y as int)
}

/// The set of grid positions held by a sequence of points.
pub open spec fn cells_of(s: Seq<P>) -> Set<(int, int)> {
    s.map_values(|p: P| pt(p)).to_set()
}

/// Every point of `s` lies in `[0, width) x [0, height)`.
pub open spec fn in_box(s: Seq<P>, width: usize, height: usize) -> bool {
    forall|i: int| 0 <= i < s.len() ==> s[i].x < width && s[i].y < height
}

/// `a` is closed under edge adjacency inside `s`.
pub open spec fn closed_in(a: Set<(int, int)>, s: Set<(int, int)>) -> bool {
    forall|u: (int, int), v: (int, int)|
        #![trigger a.contains(u), s.contains(v)]
        a.contains(u) && s.contains(v) && adj(u, v) ==> a.contains(v)
}

/// A non-empty set of grid positions is 4-connected: the only subsets
/// closed under adjacency are the empty set and the whole set.
pub open spec fn is_connected(s: Set<(int, int)>) -> bool {
    &&& !s.is_empty()
    &&& forall|a: Set<(int, int)>|
        #![trigger closed_in(a, s)]
        a.subset_of(s) && closed_in(a, s) ==> a.is_empty() || a == s
}

/// Index of the point at `q`, if `ps` holds one.
pub fn find_point(ps: &Vec<P>, q: P) -> (r: Option<usize>)
    ensures
        match r {
            Some(k) => k < ps@.len() && ps@[k as int] == q,
            None => forall|i: int| 0 <= i < ps@.len() ==> ps@[i] != q,
        },
{
    let mut i: usize = 0;
    while i < ps.len()
        invariant
            i <= ps@.len(),
            forall|j: int| 0 <= j < i ==> ps@[j] != q,
        decreases ps@.len() - i,
    {
        if ps[i].x == q.x && ps[i].y == q.y {
            return Some(i);
        }
        i += 1;
    }
    None
}

/// A copy of the point list.
pub fn copy_points(v: &Vec<P>) -> (r: Vec<P>)
    ensures
        r@ == v@,
{
    let mut ps: Vec<P> = Vec::new();
    let mut i: usize = 0;
    while i < v.len()
        invariant
            i <= v@.len(),
            ps@ == v@.subrange(0, i as int),
        decreases v@.len() - i,
    {
        ps.push(v[i]);
        i += 1;
    }
    assert(ps@ == v@);
    ps
}

/// Adds the point `q` unless it is already there.
pub fn add_point(ps: &mut Vec<P>, q: P)
    requires
        old(ps)@.no_duplicates(),
    ensures
        final(ps)@.no_duplicates(),
        cells_of(final(ps)@) == cells_of(old(ps)@).insert(pt(q)),
        final(ps)@ == old(ps)@ || final(ps)@ == old(ps)@.push(q),
{
    proof {
        lemma_cells_iff(ps@);
    }
    match find_point(ps, q) {
        Some(_) => {
            assert(cells_of(ps@) =~= cells_of(ps@).insert(pt(q)));
        },
        None => {
            let ghost before = ps@;
            ps.push(q);
            proof {
                lemma_cells_iff(ps@);
                assert forall|r: (int, int)| #[trigger]
                    cells_of(ps@).contains(r) <==> cells_of(before).insert(pt(q)).contains(r) by {
                    if cells_of(ps@).contains(r) {
                        let i = choose|i: int| 0 <= i < ps@.len() && pt(ps@[i]) == r;
                        if i < before.len() {
                            assert(ps@[i] == before[i]);
                        }
                    }
                    if cells_of(before).contains(r) {
                        let i = choose|i: int| 0 <= i < before.len() && pt(before[i]) == r;
                        assert(ps@[i] == before[i]);
                    }
                    if r == pt(q) {
                        assert(ps@[before.len() as int] == q);
                    }
                }
                assert(cells_of(ps@) =~= cells_of(before).insert(pt(q)));
                assert forall|i: int, j: int| 0 <= i < ps@.len() && 0 <= j < ps@.len() && i != j
                    implies ps@[i] != ps@[j] by {
                    if i < before.len() && j < before.len() {
                        assert(ps@[i] == before[i] && ps@[j] == before[j]);
                    } else if i < before.len() {
                        assert(ps@[i] == before[i]);
                    } else if j < before.len() {
                        assert(ps@[j] == before[j]);
                    }
                }
            }
        },
    }
}

/// `s` moved by `(ox, oy)`.
pub open spec fn shift_set(s: Set<(int, int)>, ox: int, oy: int) -> Set<(int, int)> {
    Set::new(|q: (int, int)| s.contains((q.0 - ox, q.1 - oy)))
}

/// A single position is connected.
pub proof fn lemma_single_connected(q: (int, int))
    ensures
        is_connected(Set::empty().insert(q)),
{
    let s = Set::empty().insert(q);
    assert(s.contains(q));
    assert forall|a: Set<(int, int)>| #![trigger closed_in(a, s)]
        a.subset_of(s) && closed_in(a, s) implies a.is_empty() || a == s by {
        if a.contains(q) {
            assert(a =~= s);
        } else {
            assert(a =~= Set::empty());
        }
    }
}

/// Adding a position next to a connected set keeps it connected.
pub proof fn lemma_connected_insert(s: Set<(int, int)>, p: (int, int), q: (int, int))
    requires
        is_connected(s),
        s.contains(p),
        adj(p, q),
    ensures
        is_connected(s.insert(q)),
{
    let t = s.insert(q);
    assert(t.contains(q));
    assert forall|a: Set<(int, int)>| #![trigger closed_in(a, t)]
        a.subset_of(t) && closed_in(a, t) implies a.is_empty() || a == t by {
        let b = a.intersect(s);
        assert(closed_in(b, s)) by {
            assert forall|u: (int, int), v: (int, int)| #![trigger b.contains(u), s.contains(v)]
                b.contains(u) && s.contains(v) && adj(u, v) implies b.contains(v) by {
                assert(a.contains(u) && t.contains(v));
            }
        }
        assert(b.subset_of(s));
        if b.is_empty() {
            if a.contains(q) {
                assert(adj(q, p));
                assert(t.contains(p));
                assert(a.contains(p));
                assert(b.contains(p));
            }
            assert(a =~= Set::empty());
        } else {
            assert(b == s);
            assert(a.contains(p));
            assert(a.contains(q));
            assert(a =~= t);
        }
    }
}

/// Moving a connected set keeps it connected.
pub proof fn lemma_connected_shift(s: Set<(int, int)>, ox: int, oy: int)
    requires
        is_connected(s),
    ensures
        is_connected(shift_set(s, ox, oy)),
{
    let t = shift_set(s, ox, oy);
    let w = s.choose();
    assert(s.contains(w));
    assert(t.contains((w.0 + ox, w.1 + oy)));
    assert forall|a: Set<(int, int)>| #![trigger closed_in(a, t)]
        a.subset_of(t) && closed_in(a, t) implies a.is_empty() || a == t by {
        let b = shift_set(a, -ox, -oy);
        assert(b.subset_of(s));
        assert(closed_in(b, s)) by {
            assert forall|u: (int, int), v: (int, int)| #![trigger b.contains(u), s.contains(v)]
                b.contains(u) && s.contains(v) && adj(u, v) implies b.contains(v) by {
                let u2 = (u.0 + ox, u.1 + oy);
                let v2 = (v.0 + ox, v.1 + oy);
                assert(a.contains(u2));
                assert(t.contains(v2));
                assert(adj(u2, v2));
            }
        }
        if b.is_empty() {
            if !a.is_empty() {
                let z = a.choose();
                assert(a.contains(z));
                assert(b.contains((z.0 - ox, z.1 - oy)));
            }
        } else {
            assert(b == s);
            assert(a =~= t) by {
                assert forall|z: (int, int)| #[trigger] t.contains(z) implies a.contains(z) by {
                    assert(s.contains((z.0 - ox, z.1 - oy)));
                    assert(b.contains((z.0 - ox, z.1 - oy)));
                }
            }
        }
    }
}

/// All coordinates are non-negative, and both least coordinates are 0.
pub open spec fn normalized(s: Set<(int, int)>) -> bool {
    &&& forall|q: (int, int)| #[trigger] s.contains(q) ==> q.0 >= 0 && q.1 >= 0
    &&& exists|q: (int, int)| #[trigger] s.contains(q) && q.0 == 0
    &&& exists|q: (int, int)| #[trigger] s.contains(q) && q.1 == 0
}

/// A well-formed polyomino is normalized.
pub proof fn lemma_wf_normalized(m: Mino)
    requires
        m.wf(),
    ensures
        normalized(m.cells()),
{
    let s = m.cells();
    lemma_cells_iff(m.ps@);
    let i = choose|i: int| 0 <= i < m.ps@.len() && m.ps@[i].x == 0;
    let j = choose|i: int| 0 <= i < m.ps@.len() && m.ps@[i].y == 0;
    assert(s.contains(pt(m.ps@[i])));
    assert(s.contains(pt(m.ps@[j])));
}

impl Mino {
    /// The positions the polyomino covers.
    pub open spec fn cells(&self) -> Set<(int, int)> {
        cells_of(self.ps@)
    }

    /// Points are distinct, the least x and least y are 0, and the
    /// bounding box is exactly `width` by `height`.
    pub open spec fn wf(&self) -> bool {
        &&& self.ps@.len() > 0
        &&& self.ps@.no_duplicates()
        &&& forall|i: int| 0 <= i < self.ps@.len() ==> self.ps@[i].x < self.width
        &&& forall|i: int| 0 <= i < self.ps@.len() ==> self.ps@[i].y < self.height
        &&& exists|i: int| 0 <= i < self.ps@.len() && self.ps@[i].x == 0
        &&& exists|i: int| 0 <= i < self.ps@.len() && self.ps@[i].y == 0
        &&& exists|i: int| 0 <= i < self.ps@.len() && self.ps@[i].x + 1 == self.width
        &&& exists|i: int| 0 <= i < self.ps@.len() && self.ps@[i].y + 1 == self.height
    }

    /// Number of unit squares.
    pub fn size(&self) -> (r: usize)
        requires
            self.wf(),
        ensures
            r == self.cells().len(),
    {
        proof {
            lemma_cells_len(self.ps@);
        }
        self.ps.len()
    }
}

/// Membership in `cells_of` is membership of some point of the sequence.
pub proof fn lemma_cells_iff(s: Seq<P>)
    ensures
        forall|q: (int, int)|
            #![trigger cells_of(s).contains(q)]
            cells_of(s).contains(q) <==> exists|i: int| 0 <= i < s.len() && pt(s[i]) == q,
        forall|i: int| 0 <= i < s.len() ==> #[trigger] cells_of(s).contains(pt(s[i])),
{
    let m = s.map_values(|p: P| pt(p));
    assert forall|q: (int, int)|
        cells_of(s).contains(q) <==> exists|i: int| 0 <= i < s.len() && pt(s[i]) == q by {
        if cells_of(s).contains(q) {
            let i = choose|i: int| 0 <= i < m.len() && m[i] == q;
            assert(pt(s[i]) == q);
        }
        if exists|i: int| 0 <= i < s.len() && pt(s[i]) == q {
            let i = choose|i: int| 0 <= i < s.len() && pt(s[i]) == q;
            assert(m[i] == q);
            assert(m.contains(q));
        }
    }
    assert forall|i: int| 0 <= i < s.len() implies #[trigger] cells_of(s).contains(pt(s[i])) by {
        assert(m[i] == pt(s[i]));
        assert(m.contains(pt(s[i])));
    }
}

/// Removing one point of a duplicate-free sequence removes its position.
pub proof fn lemma_cells_remove(s: Seq<P>, k: int)
    requires
        s.no_duplicates(),
        0 <= k < s.len(),
    ensures
        cells_of(s.remove(k)) == cells_of(s).remove(pt(s[k])),
        s.remove(k).no_duplicates(),
{
    let t = s.remove(k);
    lemma_cells_iff(s);
    lemma_cells_iff(t);
    assert forall|q: (int, int)| #[trigger]
        cells_of(t).contains(q) <==> cells_of(s).remove(pt(s[k])).contains(q) by {
        if cells_of(t).contains(q) {
            let i = choose|i: int| 0 <= i < t.len() && pt(t[i]) == q;
            if i < k {
                assert(t[i] == s[i]);
            } else {
                assert(t[i] == s[i + 1]);
            }
        }
        if cells_of(s).remove(pt(s[k])).contains(q) {
            let i = choose|i: int| 0 <= i < s.len() && pt(s[i]) == q;
            assert(i != k);
            if i < k {
                assert(t[i] == s[i]);
            } else {
                assert(t[i - 1] == s[i]);
            }
        }
    }
    assert(cells_of(t) =~= cells_of(s).remove(pt(s[k])));
    assert forall|i: int, j: int| 0 <= i < t.len() && 0 <= j < t.len() && i != j implies t[i]
        != t[j] by {
        let i2 = if i < k { i } else { i + 1 };
        let j2 = if j < k { j } else { j + 1 };
        assert(t[i] == s[i2] && t[j] == s[j2]);
    }
}

pub proof fn lemma_cells_len(s: Seq<P>)
    requires
        s.no_duplicates(),
    ensures
        cells_of(s).len() == s.len(),
{
    let m = s.map_values(|p: P| pt(p));
    assert forall|i: int, j: int| 0 <= i < m.len() && 0 <= j < m.len() && i != j implies m[i]
        != m[j] by {
        assert(s[i] != s[j]);
    }
    m.unique_seq_to_set();
}

} // verus!
