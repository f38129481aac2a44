//! The deduplication engine: keys each shape by its points sorted in
//! point order, remembers the keys accepted so far within one size class,
//! and accepts each shape once.

use vstd::prelude::*;
use crate::shape::{P, Mino, pt, cells_of, lemma_cells_iff, lemma_cells_remove, lemma_cells_len};

verus! {

/// The point order: by `x`, then by `y`.
pub open spec fn p_lt(a: P, b: P) -> bool {
    a.x < b.x || (a.x == b.x && a.y < b.y)
}

/// Each point comes strictly before the next in point order.
pub open spec fn strictly_sorted(s: Seq<P>) -> bool {
    forall|i: int, j: int| 0 <= i < j < s.len() ==> p_lt(#[trigger] s[i], #[trigger] s[j])
}

/// Two strictly sorted point sequences that cover the same positions are
/// the same sequence.
pub proof fn lemma_sorted_unique(a: Seq<P>, b: Seq<P>)
    requires
        strictly_sorted(a),
        strictly_sorted(b),
        cells_of(a) == cells_of(b),
    ensures
        a == b,
    decreases a.len(),
{
    lemma_cells_iff(a);
    lemma_cells_iff(b);
    if a.len() == 0 {
        if b.len() > 0 {
            assert(cells_of(b).contains(pt(b[0])));
        }
        assert(a =~= b);
    } else {
        assert(cells_of(a).contains(pt(a[0])));
        assert(b.len() > 0);
        assert(cells_of(b).contains(pt(b[0])));
        let j = choose|j: int| 0 <= j < b.len() && pt(b[j]) == pt(a[0]);
        let i = choose|i: int| 0 <= i < a.len() && pt(a[i]) == pt(b[0]);
        if j > 0 {
            assert(p_lt(b[0], b[j]));
            if i > 0 {
                assert(p_lt(a[0], a[i]));
            }
        }
        assert(a[0] == b[0]);
        assert(a.no_duplicates()) by {
            assert forall|x: int, y: int| 0 <= x < a.len() && 0 <= y < a.len() && x != y implies a[x] != a[y] by {
                if x < y { assert(p_lt(a[x], a[y])); } else { assert(p_lt(a[y], a[x])); }
            }
        }
        assert(b.no_duplicates()) by {
            assert forall|x: int, y: int| 0 <= x < b.len() && 0 <= y < b.len() && x != y implies b[x] != b[y] by {
                if x < y { assert(p_lt(b[x], b[y])); } else { assert(p_lt(b[y], b[x])); }
            }
        }
        lemma_cells_remove(a, 0);
        lemma_cells_remove(b, 0);
        let a1 = a.remove(0);
        let b1 = b.remove(0);
        assert(strictly_sorted(a1)) by {
            assert forall|x: int, y: int| 0 <= x < y < a1.len() implies p_lt(#[trigger] a1[x], #[trigger] a1[y]) by {
                assert(a1[x] == a[x + 1] && a1[y] == a[y + 1]);
            }
        }
        assert(strictly_sorted(b1)) by {
            assert forall|x: int, y: int| 0 <= x < y < b1.len() implies p_lt(#[trigger] b1[x], #[trigger] b1[y]) by {
                assert(b1[x] == b[x + 1] && b1[y] == b[y + 1]);
            }
        }
        lemma_sorted_unique(a1, b1);
        assert(a =~= b) by {
            assert forall|x: int| 0 <= x < a.len() implies a[x] == b[x] by {
                if x > 0 {
                    assert(a[x] == a1[x - 1] && b[x] == b1[x - 1]);
                }
            }
            lemma_cells_len(a);
            lemma_cells_len(b);
        }
    }
}

/// The canonical key of a polyomino: its points sorted in point order.
pub fn canonical_key(m: &Mino) -> (r: Vec<P>)
    requires
        m.ps@.no_duplicates(),
    ensures
        strictly_sorted(r@),
        cells_of(r@) == m.cells(),
{
    let mut key: Vec<P> = Vec::new();
    let mut i: usize = 0;
    while i < m.ps.len()
        invariant
            i <= m.ps@.len(),
            m.ps@.no_duplicates(),
            strictly_sorted(key@),
            cells_of(key@) == cells_of(m.ps@.subrange(0, i as int)),
        decreases m.ps@.len() - i,
    {
        let p = m.ps[i];
        let mut k: usize = 0;
        while k < key.len() && (key[k].x < p.x || (key[k].x == p.x && key[k].y < p.y))
            invariant
                k <= key@.len(),
                forall|t: int| 0 <= t < k ==> p_lt(#[trigger] key@[t], p),
            decreases key@.len() - k,
        {
            k += 1;
        }
        let ghost before = key@;
        let ghost pre = m.ps@.subrange(0, i as int);
        let ghost post = m.ps@.subrange(0, i + 1);
        proof {
            lemma_cells_iff(before);
            lemma_cells_iff(pre);
            lemma_cells_iff(post);
            assert(post =~= pre.push(p));
            assert forall|t: int| 0 <= t < before.len() implies before[t] != p by {
                assert(cells_of(pre).contains(pt(before[t])));
                let u = choose|u: int| 0 <= u < pre.len() && pt(pre[u]) == pt(before[t]);
                assert(pre[u] == m.ps@[u]);
                assert(m.ps@[u] != m.ps@[i as int]);
            }
            if k < before.len() {
                assert(before[k as int] != p);
                assert(p_lt(p, before[k as int]));
            }
        }
        key.insert(k, p);
        proof {
            let ks = key@;
            assert(ks =~= before.insert(k as int, p));
            assert forall|x: int, y: int| 0 <= x < y < ks.len() implies p_lt(#[trigger] ks[x], #[trigger] ks[y]) by {
                if y < k {
                    assert(ks[x] == before[x] && ks[y] == before[y]);
                } else if y == k {
                    assert(ks[x] == before[x]);
                } else if x < k {
                    assert(ks[x] == before[x] && ks[y] == before[y - 1]);
                    assert(p_lt(before[x], p));
                    assert(p_lt(p, before[k as int]) || k as int == y - 1);
                    if k as int != y - 1 {
                        assert(p_lt(before[k as int], before[y - 1]));
                    }
                } else if x == k {
                    assert(ks[y] == before[y - 1]);
                    if k as int != y - 1 {
                        assert(p_lt(before[k as int], before[y - 1]));
                    }
                } else {
                    assert(ks[x] == before[x - 1] && ks[y] == before[y - 1]);
                }
            }
            lemma_cells_iff(ks);
            assert forall|q: (int, int)| #[trigger] cells_of(ks).contains(q) <==> cells_of(post).contains(q) by {
                if cells_of(ks).contains(q) {
                    let t = choose|t: int| 0 <= t < ks.len() && pt(ks[t]) == q;
                    if t < k {
                        assert(ks[t] == before[t]);
                        assert(cells_of(before).contains(q));
                    } else if t > k {
                        assert(ks[t] == before[t - 1]);
                        assert(cells_of(before).contains(q));
                    } else {
                        assert(post[i as int] == p);
                    }
                    let u = choose|u: int| 0 <= u < post.len() && pt(post[u]) == q;
                }
                if cells_of(post).contains(q) {
                    let u = choose|u: int| 0 <= u < post.len() && pt(post[u]) == q;
                    if u < i {
                        assert(post[u] == pre[u]);
                        assert(cells_of(pre).contains(q));
                        let t = choose|t: int| 0 <= t < before.len() && pt(before[t]) == q;
                        if t < k {
                            assert(ks[t] == before[t]);
                        } else {
                            assert(ks[t + 1] == before[t]);
                        }
                    } else {
                        assert(ks[k as int] == p);
                    }
                }
            }
            assert(cells_of(ks) =~= cells_of(post));
        }
        i += 1;
    }
    assert(m.ps@.subrange(0, m.ps@.len() as int) == m.ps@);
    key
}

/// Whether two keys are the same sequence.
fn keys_equal(a: &Vec<P>, b: &Vec<P>) -> (r: bool)
    ensures
        r == (a@ == b@),
{
    if a.len() != b.len() {
        return false;
    }
    let mut i: usize = 0;
    while i < a.len()
        invariant
            a@.len() == b@.len(),
            i <= a@.len(),
            forall|t: int| 0 <= t < i ==> a@[t] == b@[t],
        decreases a@.len() - i,
    {
        if a[i].x != b[i].x || a[i].y != b[i].y {
            return false;
        }
        i += 1;
    }
    assert(a@ =~= b@);
    true
}

/// The canonical keys of the shapes accepted so far.
pub struct Seen {
    keys: Vec<Vec<P>>,
}

impl Seen {
    /// The accepted shapes, in order of acceptance.
    pub closed spec fn view(&self) -> Seq<Set<(int, int)>> {
        self.keys@.map_values(|k: Vec<P>| cells_of(k@))
    }

    /// Every stored key is canonical.
    pub closed spec fn wf(&self) -> bool {
        forall|i: int| 0 <= i < self.keys@.len() ==> strictly_sorted(#[trigger] self.keys@[i]@)
    }

    /// An engine that has accepted nothing.
    pub fn new() -> (r: Seen)
        ensures
            r.wf(),
            r@ == Seq::<Set<(int, int)>>::empty(),
    {
        let r = Seen { keys: Vec::new() };
        assert(r@ =~= Seq::<Set<(int, int)>>::empty());
        r
    }

    /// Accepts `m` when no shape with the same canonical key was accepted
    /// before, and records its key.
    pub fn accept(&mut self, m: &Mino) -> (r: bool)
        requires
            old(self).wf(),
            m.ps@.no_duplicates(),
        ensures
            final(self).wf(),
            r == !old(self)@.contains(m.cells()),
            final(self)@ == (if r { old(self)@.push(m.cells()) } else { old(self)@ }),
    {
        let key = canonical_key(m);
        let mut i: usize = 0;
        while i < self.keys.len()
            invariant
                self.wf(),
                strictly_sorted(key@),
                cells_of(key@) == m.cells(),
                i <= self@.len(),
                self@.len() == self.keys@.len(),
                forall|j: int| 0 <= j < i ==> self@[j] != m.cells(),
            decreases self.keys@.len() - i,
        {
            let same = keys_equal(&self.keys[i], &key);
            proof {
                assert(self@[i as int] == cells_of(self.keys@[i as int]@));
                if self@[i as int] == m.cells() {
                    assert(strictly_sorted(self.keys@[i as int]@));
                    lemma_sorted_unique(self.keys@[i as int]@, key@);
                }
            }
            if same {
                return false;
            }
            i += 1;
        }
        let ghost before = self@;
        self.keys.push(key);
        assert(self@ =~= before.push(m.cells()));
        true
    }
}

} // verus!
