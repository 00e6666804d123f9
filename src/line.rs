//! Lines with finitely many explicit coordinates followed by unboundedly many
//! copies of one infinite coordinate, and the domination order between them.
use crate::bitarray::{lemma_subset, lemma_view_eq, lemma_word_sum, word_sum, BitArray};
use vstd::multiset::Multiset;
use vstd::prelude::*;

verus! {

broadcast use crate::bitarray::lemma_view_len;

/// A line: the explicit coordinates `finite`, then `infinite` repeated without end.
#[derive(Clone, Debug)]
pub struct Line<const C: usize> {
    pub finite: Vec<BitArray<C>>,
    pub infinite: BitArray<C>,
}

/// `m` pairs some explicit coordinates of `b` with distinct explicit
/// coordinates of `a` (an entry of `-1` leaves one unpaired), each inside its
/// partner.
pub open spec fn is_partial_pairing<const C: usize>(a: Line<C>, b: Line<C>, m: Seq<int>) -> bool {
    &&& m.len() == b.finite@.len()
    &&& forall|j: int|
        0 <= j < m.len() && #[trigger] m[j] != -1 ==> 0 <= m[j] < a.finite@.len()
            && b.finite@[j].subset_of(a.finite@[m[j]])
    &&& forall|j: int, l: int| 0 <= j < m.len() && 0 <= l < m.len() && j != l && #[trigger] m[j] != -1 ==> m[j] != #[trigger] m[l]
}

/// `m` is a pairing that lets `a` dominate `b`: every unpaired explicit
/// coordinate of `b` lies inside `a`'s infinite one, and every unpaired
/// explicit coordinate of `a` contains `b`'s infinite one.
pub open spec fn is_pairing<const C: usize>(a: Line<C>, b: Line<C>, m: Seq<int>) -> bool {
    &&& is_partial_pairing(a, b, m)
    &&& forall|j: int| 0 <= j < m.len() && #[trigger] m[j] == -1 ==> b.finite@[j].subset_of(a.infinite)
    &&& forall|k: int|
        0 <= k < a.finite@.len() && !#[trigger] m.contains(k) ==> b.infinite.subset_of(a.finite@[k])
}

/// `a` dominates `b`: the coordinates of `b` can be matched one to one with
/// coordinates of `a` that contain them.
pub open spec fn dominates<const C: usize>(a: Line<C>, b: Line<C>) -> bool {
    b.infinite.subset_of(a.infinite) && exists|m: Seq<int>| is_pairing(a, b, m)
}

/// Explicit coordinate `k` of `a` does not contain `b`'s infinite coordinate,
/// so a dominating pairing must pair it.
pub open spec fn a_mandatory<const C: usize>(a: Line<C>, b: Line<C>, k: int) -> bool {
    !b.infinite.subset_of(a.finite@[k])
}

/// `m2` keeps every pair of `m1`.
pub open spec fn extends(m2: Seq<int>, m1: Seq<int>) -> bool {
    m2.len() == m1.len() && forall|j: int| 0 <= j < m1.len() && #[trigger] m1[j] != -1 ==> m2[j] == m1[j]
}

/// The state of the search for a dominating pairing.
struct GeCtx {
    /// Which explicit coordinates of the dominated line are taken.
    used_other: Vec<bool>,
    /// Explicit coordinates of the dominating line that must be paired.
    mandatory: Vec<usize>,
    /// Explicit coordinates of the dominating line that may stay unpaired.
    optional: Vec<usize>,
    /// Explicit coordinates of the dominated line that must be paired.
    other_mandatory: Vec<usize>,
}

impl GeCtx {
    spec fn inv<const C: usize>(self, a: Line<C>, b: Line<C>) -> bool {
        &&& a.finite@.len() <= usize::MAX
        &&& b.finite@.len() <= usize::MAX
        &&& self.used_other@.len() == b.finite@.len()
        &&& forall|p: int|
            0 <= p < self.mandatory@.len() ==> (#[trigger] self.mandatory@[p] as int) < a.finite@.len()
                && !b.infinite.subset_of(a.finite@[self.mandatory@[p] as int])
        &&& forall|p: int|
            0 <= p < self.optional@.len() ==> (#[trigger] self.optional@[p] as int) < a.finite@.len()
                && b.infinite.subset_of(a.finite@[self.optional@[p] as int])
        &&& forall|k: int|
            0 <= k < a.finite@.len() && !b.infinite.subset_of(a.finite@[k]) ==> #[trigger] self.mandatory@.contains(k as usize)
        &&& forall|k: int|
            0 <= k < a.finite@.len() && b.infinite.subset_of(a.finite@[k]) ==> #[trigger] self.optional@.contains(k as usize)
        &&& forall|p: int, q: int|
            0 <= p < q < self.mandatory@.len() ==> #[trigger] self.mandatory@[p] != #[trigger] self.mandatory@[q]
        &&& forall|p: int, q: int|
            0 <= p < q < self.optional@.len() ==> #[trigger] self.optional@[p] != #[trigger] self.optional@[q]
        &&& forall|p: int, q: int|
            0 <= p < q < self.other_mandatory@.len() ==> #[trigger] self.other_mandatory@[p] != #[trigger] self.other_mandatory@[q]
        &&& forall|p: int|
            0 <= p < self.other_mandatory@.len() ==> (#[trigger] self.other_mandatory@[p] as int) < b.finite@.len()
        &&& forall|j: int|
            0 <= j < b.finite@.len() && !b.finite@[j].subset_of(a.infinite) ==> #[trigger] self.other_mandatory@.contains(j as usize)
        &&& forall|p: int|
            0 <= p < self.other_mandatory@.len() ==> !b.finite@[#[trigger] self.other_mandatory@[p] as int].subset_of(a.infinite)
    }

    /// What holds before the mandatory explicit coordinates of the dominating
    /// line are paired from position `t` of `mandatory` on.
    spec fn self_ready<const C: usize>(self, a: Line<C>, b: Line<C>, t: int, m: Seq<int>, used: Seq<bool>) -> bool {
        &&& is_partial_pairing(a, b, m)
        &&& used.len() == m.len()
        &&& forall|j: int| 0 <= j < m.len() ==> (#[trigger] used[j] <==> m[j] != -1)
        &&& forall|j: int|
            0 <= j < m.len() && #[trigger] m[j] != -1 ==> exists|p: int|
                0 <= p < t && self.mandatory@[p] as int == m[j]
        &&& forall|p: int| 0 <= p < t ==> m.contains(#[trigger] self.mandatory@[p] as int)
    }

    /// Pairs the mandatory explicit coordinates of the dominating line, from
    /// position `t` of `mandatory` on, with unused explicit coordinates of the
    /// dominated line, then completes the pairing with `pair_other`.
    fn pair_self<const C: usize>(&mut self, a: &Line<C>, b: &Line<C>, t: usize, Ghost(m): Ghost<Seq<int>>) -> (r: bool)
        requires
            old(self).inv(*a, *b),
            t <= old(self).mandatory@.len(),
            old(self).self_ready(*a, *b, t as int, m, old(self).used_other@),
        ensures
            r == exists|m2: Seq<int>| is_pairing(*a, *b, m2) && extends(m2, m),
            final(self).used_other@ == old(self).used_other@,
            final(self).mandatory@ == old(self).mandatory@,
            final(self).optional@ == old(self).optional@,
            final(self).other_mandatory@ == old(self).other_mandatory@,
        decreases old(self).mandatory@.len() - t,
    {
        if t == self.mandatory.len() {
            let mut optional_used: Vec<bool> = Vec::new();
            let mut q: usize = 0;
            while q < self.optional.len()
                invariant
                    q <= self.optional@.len(),
                    optional_used@ == Seq::new(q as nat, |x: int| false),
                decreases self.optional@.len() - q,
            {
                optional_used.push(false);
                q = q + 1;
            }
            assert forall|k: int| 0 <= k < a.finite@.len() && a_mandatory(*a, *b, k) implies #[trigger] m.contains(k) by {
                assert(self.mandatory@.contains(k as usize));
                let p = choose|p: int| 0 <= p < self.mandatory@.len() && self.mandatory@[p] == k as usize;
                assert(m.contains(self.mandatory@[p] as int));
            }
            assert forall|j: int| 0 <= j < m.len() && #[trigger] m[j] != -1 implies a_mandatory(*a, *b, m[j]) by {
                let p = choose|p: int| 0 <= p < t && self.mandatory@[p] as int == m[j];
            }
            assert forall|q2: int| 0 <= q2 < self.optional@.len() implies (optional_used@[q2] <==> m.contains(
                #[trigger] self.optional@[q2] as int,
            )) by {
                if m.contains(self.optional@[q2] as int) {
                    let x = choose|x: int| 0 <= x < m.len() && m[x] == self.optional@[q2] as int;
                    assert(a_mandatory(*a, *b, m[x]));
                }
            }
            assert(self.other_ready(*a, *b, 0, m, optional_used@));
            return self.pair_other(a, b, 0, &mut optional_used, Ghost(m));
        }
        let k = self.mandatory[t];
        let mut i: usize = 0;
        while i < b.finite.len()
            invariant
                self.inv(*a, *b),
                t < self.mandatory.len(),
                k == self.mandatory@[t as int],
                self.self_ready(*a, *b, t as int, m, self.used_other@),
                self.used_other@ == old(self).used_other@,
                self.mandatory@ == old(self).mandatory@,
                self.optional@ == old(self).optional@,
                self.other_mandatory@ == old(self).other_mandatory@,
                forall|i2: int|
                    0 <= i2 < i && !#[trigger] self.used_other@[i2] && b.finite@[i2].subset_of(a.finite@[k as int])
                        ==> !exists|m2: Seq<int>| is_pairing(*a, *b, m2) && extends(m2, m.update(i2, k as int)),
            decreases b.finite@.len() - i,
        {
            if !self.used_other[i] && b.finite[i].is_subset_of(&a.finite[k]) {
                let ghost m1 = m.update(i as int, k as int);
                proof {
                    self.lemma_self_step(*a, *b, t as int, m, i as int);
                }
                self.used_other.set(i, true);
                let found = self.pair_self(a, b, t + 1, Ghost(m1));
                self.used_other.set(i, false);
                assert(self.used_other@ =~= old(self).used_other@);
                if found {
                    proof {
                        let m2 = choose|m2: Seq<int>| is_pairing(*a, *b, m2) && extends(m2, m1);
                        assert forall|x: int| 0 <= x < m.len() && #[trigger] m[x] != -1 implies m2[x] == m[x] by {
                            assert(m1[x] == m[x]);
                        }
                        assert(extends(m2, m));
                    }
                    return true;
                }
            }
            i = i + 1;
        }
        proof {
            if exists|m2: Seq<int>| is_pairing(*a, *b, m2) && extends(m2, m) {
                let m2 = choose|m2: Seq<int>| is_pairing(*a, *b, m2) && extends(m2, m);
                assert(a_mandatory(*a, *b, k as int));
                assert(m2.contains(k as int));
                let x = choose|x: int| 0 <= x < m2.len() && m2[x] == k as int;
                assert(m[x] == -1) by {
                    if m[x] != -1 {
                        let p = choose|p: int| 0 <= p < t && self.mandatory@[p] as int == m[x];
                        assert(self.mandatory@[p] != self.mandatory@[t as int]);
                    }
                }
                let m1 = m.update(x, k as int);
                assert forall|y: int| 0 <= y < m1.len() && #[trigger] m1[y] != -1 implies m2[y] == m1[y] by {
                    if y != x {
                        assert(m1[y] == m[y]);
                    }
                }
                assert(extends(m2, m1));
                assert(!self.used_other@[x]);
            }
        }
        false
    }

    proof fn lemma_self_step<const C: usize>(self, a: Line<C>, b: Line<C>, t: int, m: Seq<int>, i: int)
        requires
            self.inv(a, b),
            0 <= t < self.mandatory@.len(),
            self.self_ready(a, b, t, m, self.used_other@),
            0 <= i < b.finite@.len(),
            !self.used_other@[i],
            b.finite@[i].subset_of(a.finite@[self.mandatory@[t] as int]),
        ensures
            self.self_ready(a, b, t + 1, m.update(i, self.mandatory@[t] as int), self.used_other@.update(i, true)),
    {
        let k = self.mandatory@[t] as int;
        let m1 = m.update(i, k);
        assert forall|j: int| 0 <= j < m.len() && j != i implies #[trigger] m[j] != k by {
            if m[j] != -1 {
                let p = choose|p: int| 0 <= p < t && self.mandatory@[p] as int == m[j];
                assert(self.mandatory@[p] != self.mandatory@[t]);
            }
        }
        assert forall|j: int|
            0 <= j < m1.len() && #[trigger] m1[j] != -1 implies exists|p: int|
                0 <= p < t + 1 && self.mandatory@[p] as int == m1[j] by {
            if j == i {
                assert(self.mandatory@[t] as int == m1[j]);
            } else {
                let p = choose|p: int| 0 <= p < t && self.mandatory@[p] as int == m[j];
                assert(self.mandatory@[p] as int == m1[j]);
            }
        }
        assert forall|p: int| 0 <= p < t + 1 implies m1.contains(#[trigger] self.mandatory@[p] as int) by {
            if p < t {
                let x = choose|x: int| 0 <= x < m.len() && m[x] == self.mandatory@[p] as int;
                assert(m1[x] == m[x]);
            } else {
                assert(m1[i] == k);
            }
        }
    }

    /// Pairs the mandatory explicit coordinates of the dominated line, from
    /// position `u` of `other_mandatory` on, with unused optional coordinates.
    fn pair_other<const C: usize>(
        &self,
        a: &Line<C>,
        b: &Line<C>,
        u: usize,
        optional_used: &mut Vec<bool>,
        Ghost(m): Ghost<Seq<int>>,
    ) -> (r: bool)
        requires
            self.inv(*a, *b),
            u <= self.other_mandatory@.len(),
            self.other_ready(*a, *b, u as int, m, old(optional_used)@),
        ensures
            r == exists|m2: Seq<int>| is_pairing(*a, *b, m2) && extends(m2, m),
            final(optional_used)@ == old(optional_used)@,
        decreases self.other_mandatory@.len() - u,
    {
        if u == self.other_mandatory.len() {
            assert forall|j: int| 0 <= j < m.len() && #[trigger] m[j] == -1 implies b.finite@[j].subset_of(
                a.infinite,
            ) by {
                if !b.finite@[j].subset_of(a.infinite) {
                    assert(self.other_mandatory@.contains(j as usize));
                    let v = choose|v: int|
                        0 <= v < self.other_mandatory@.len() && self.other_mandatory@[v] == j as usize;
                    assert(v < u);
                    assert(m[self.other_mandatory@[v] as int] != -1);
                    assert(m[j] != -1);
                }
            }
            assert(is_pairing(*a, *b, m) && extends(m, m));
            return true;
        }
        let j = self.other_mandatory[u];
        if self.used_other[j] {
            assert forall|j2: int|
                0 <= j2 < m.len() && #[trigger] m[j2] != -1 && !a_mandatory(*a, *b, m[j2])
                    implies exists|v: int| 0 <= v < u + 1 && self.other_mandatory@[v] == j2 by {
                let v = choose|v: int| 0 <= v < u && self.other_mandatory@[v] == j2;
            }
            return self.pair_other(a, b, u + 1, optional_used, Ghost(m));
        }
        assert(m[j as int] == -1) by {
            if m[j as int] != -1 {
                let v = choose|v: int| 0 <= v < u && self.other_mandatory@[v] == j;
                assert(self.other_mandatory@[u as int] == j);
            }
        }
        let mut q: usize = 0;
        while q < self.optional.len()
            invariant
                self.inv(*a, *b),
                u < self.other_mandatory.len(),
                j == self.other_mandatory@[u as int],
                m[j as int] == -1,
                self.other_ready(*a, *b, u as int, m, optional_used@),
                optional_used@ == old(optional_used)@,
                forall|q2: int|
                    0 <= q2 < q && !optional_used@[q2] && b.finite@[j as int].subset_of(
                        a.finite@[#[trigger] self.optional@[q2] as int],
                    ) ==> !exists|m2: Seq<int>|
                        is_pairing(*a, *b, m2) && extends(m2, m.update(j as int, self.optional@[q2] as int)),
            decreases self.optional@.len() - q,
        {
            let k = self.optional[q];
            if !optional_used[q] && b.finite[j].is_subset_of(&a.finite[k]) {
                let ghost m1 = m.update(j as int, k as int);
                assert(!m.contains(k as int));
                assert(is_partial_pairing(*a, *b, m1)) by {
                    assert forall|j2: int| 0 <= j2 < m.len() && j2 != j implies #[trigger] m[j2] != k as int by {
                        if m[j2] == k as int {
                            assert(m.contains(k as int));
                        }
                    }
                }
                optional_used.set(q, true);
                proof {
                    self.lemma_other_step(*a, *b, u as int, m, old(optional_used)@, q as int);
                }
                let found = self.pair_other(a, b, u + 1, optional_used, Ghost(m1));
                optional_used.set(q, false);
                assert(optional_used@ =~= old(optional_used)@);
                if found {
                    proof {
                        let m2 = choose|m2: Seq<int>| is_pairing(*a, *b, m2) && extends(m2, m1);
                        assert forall|i: int| 0 <= i < m.len() && #[trigger] m[i] != -1 implies m2[i] == m[i] by {
                            assert(m1[i] == m[i]);
                        }
                        assert(extends(m2, m));
                    }
                    return true;
                }
            }
            q = q + 1;
        }
        proof {
            if exists|m2: Seq<int>| is_pairing(*a, *b, m2) && extends(m2, m) {
                let m2 = choose|m2: Seq<int>| is_pairing(*a, *b, m2) && extends(m2, m);
                let k = m2[j as int];
                assert(k != -1);
                assert(0 <= k < a.finite@.len());
                assert(!m.contains(k)) by {
                    if m.contains(k) {
                        let t = choose|t: int| 0 <= t < m.len() && m[t] == k;
                        assert(m2[t] == k);
                    }
                }
                assert(!a_mandatory(*a, *b, k));
                assert(self.optional@.contains(k as usize));
                let q2 = choose|q2: int| 0 <= q2 < self.optional@.len() && self.optional@[q2] == k as usize;
                let m1 = m.update(j as int, self.optional@[q2] as int);
                assert forall|i: int| 0 <= i < m1.len() && #[trigger] m1[i] != -1 implies m2[i] == m1[i] by {
                    if i != j {
                        assert(m1[i] == m[i]);
                    }
                }
                assert(extends(m2, m1));
                assert(!optional_used@[q2]);
            }
        }
        false
    }

    /// What holds before the mandatory explicit coordinates of the dominated
    /// line are paired from position `u` of `other_mandatory` on.
    spec fn other_ready<const C: usize>(
        self,
        a: Line<C>,
        b: Line<C>,
        u: int,
        m: Seq<int>,
        optional_used: Seq<bool>,
    ) -> bool {
        &&& is_partial_pairing(a, b, m)
        &&& forall|k: int| 0 <= k < a.finite@.len() && a_mandatory(a, b, k) ==> #[trigger] m.contains(k)
        &&& forall|j: int|
            0 <= j < m.len() ==> (#[trigger] self.used_other@[j] <==> (m[j] != -1 && a_mandatory(a, b, m[j])))
        &&& forall|j: int|
            0 <= j < m.len() && #[trigger] m[j] != -1 && !a_mandatory(a, b, m[j]) ==> exists|v: int|
                0 <= v < u && self.other_mandatory@[v] == j
        &&& forall|v: int| 0 <= v < u ==> m[#[trigger] self.other_mandatory@[v] as int] != -1
        &&& optional_used.len() == self.optional@.len()
        &&& forall|q: int|
            0 <= q < self.optional@.len() ==> (optional_used[q] <==> m.contains(
                #[trigger] self.optional@[q] as int,
            ))
    }

    proof fn lemma_other_step<const C: usize>(
        self,
        a: Line<C>,
        b: Line<C>,
        u: int,
        m: Seq<int>,
        optional_used: Seq<bool>,
        q: int,
    )
        requires
            self.inv(a, b),
            0 <= u < self.other_mandatory@.len(),
            0 <= q < self.optional@.len(),
            self.other_ready(a, b, u, m, optional_used),
            m[self.other_mandatory@[u] as int] == -1,
            !optional_used[q],
            is_partial_pairing(a, b, m.update(self.other_mandatory@[u] as int, self.optional@[q] as int)),
        ensures
            self.other_ready(
                a,
                b,
                u + 1,
                m.update(self.other_mandatory@[u] as int, self.optional@[q] as int),
                optional_used.update(q, true),
            ),
    {
        let j = self.other_mandatory@[u] as int;
        let k = self.optional@[q] as int;
        let m1 = m.update(j, k);
        let ou = optional_used.update(q, true);
        assert forall|k2: int| 0 <= k2 < a.finite@.len() && a_mandatory(a, b, k2) implies #[trigger] m1.contains(k2) by {
            assert(m.contains(k2));
            let t = choose|t: int| 0 <= t < m.len() && m[t] == k2;
            assert(t != j);
            assert(m1[t] == k2);
        }
        assert forall|j2: int| 0 <= j2 < m1.len() implies (#[trigger] self.used_other@[j2] <==> (m1[j2] != -1
            && a_mandatory(a, b, m1[j2]))) by {
            if j2 == j {
                assert(!a_mandatory(a, b, k));
                assert(!self.used_other@[j2]);
            }
        }
        assert forall|j2: int|
            0 <= j2 < m1.len() && #[trigger] m1[j2] != -1 && !a_mandatory(a, b, m1[j2]) implies exists|v: int|
                0 <= v < u + 1 && self.other_mandatory@[v] == j2 by {
            if j2 != j {
                let v = choose|v: int| 0 <= v < u && self.other_mandatory@[v] == j2;
            } else {
                assert(self.other_mandatory@[u] == j2);
            }
        }
        assert forall|v: int| 0 <= v < u + 1 implies m1[#[trigger] self.other_mandatory@[v] as int] != -1 by {
            if v < u {
                assert(m[self.other_mandatory@[v] as int] != -1);
            }
        }
        assert forall|q2: int| 0 <= q2 < self.optional@.len() implies (ou[q2] <==> m1.contains(
            #[trigger] self.optional@[q2] as int,
        )) by {
            if q2 != q {
                assert(self.optional@[q2] != self.optional@[q]);
                if m.contains(self.optional@[q2] as int) {
                    let t = choose|t: int| 0 <= t < m.len() && m[t] == self.optional@[q2] as int;
                    assert(m1[t] == m[t]);
                }
                if m1.contains(self.optional@[q2] as int) {
                    let t = choose|t: int| 0 <= t < m1.len() && m1[t] == self.optional@[q2] as int;
                    assert(m1[t] == m[t]);
                }
            } else {
                assert(m1[j] == k);
            }
        }
    }
}


/// Domination depends on the coordinates of the dominated line alone.
pub proof fn lemma_dominates_same_coordinates<const C: usize>(x: Line<C>, c1: Line<C>, c2: Line<C>)
    requires
        dominates(x, c1),
        c1.finite@ == c2.finite@,
        c1.infinite == c2.infinite,
    ensures
        dominates(x, c2),
{
    let m = choose|m: Seq<int>| is_pairing(x, c1, m);
    assert(is_pairing(x, c2, m));
}

/// Every line dominates itself.
pub proof fn lemma_dominates_reflexive<const C: usize>(l: Line<C>)
    ensures
        dominates(l, l),
{
    let n = l.finite@.len();
    let m = Seq::new(n, |j: int| j);
    assert forall|j: int| 0 <= j < m.len() && #[trigger] m[j] != -1 implies 0 <= m[j] < l.finite@.len()
        && l.finite@[j].subset_of(l.finite@[m[j]]) by {
        lemma_subset(l.finite@[j], l.finite@[j], l.finite@[j]);
    }
    assert forall|k: int| 0 <= k < l.finite@.len() implies #[trigger] m.contains(k) by {
        assert(m[k] == k);
    }
    lemma_subset(l.infinite, l.infinite, l.infinite);
    assert(is_pairing(l, l, m));
}

/// Domination is transitive: if `a` dominates `b` and `b` dominates `c`,
/// then `a` dominates `c`.
pub proof fn lemma_dominates_transitive<const C: usize>(a: Line<C>, b: Line<C>, c: Line<C>)
    requires
        dominates(a, b),
        dominates(b, c),
    ensures
        dominates(a, c),
{
    let m1 = choose|m: Seq<int>| is_pairing(a, b, m);
    let m2 = choose|m: Seq<int>| is_pairing(b, c, m);
    let m3 = Seq::new(m2.len(), |j: int| if m2[j] == -1 { -1 } else { m1[m2[j]] });
    lemma_subset(c.infinite, b.infinite, a.infinite);
    assert forall|j: int| 0 <= j < m3.len() && #[trigger] m3[j] != -1 implies 0 <= m3[j] < a.finite@.len()
        && c.finite@[j].subset_of(a.finite@[m3[j]]) by {
        let i = m2[j];
        assert(m2[j] != -1);
        assert(m1[i] != -1);
        lemma_subset(c.finite@[j], b.finite@[i], a.finite@[m1[i]]);
    }
    assert forall|j: int, l: int| 0 <= j < m3.len() && 0 <= l < m3.len() && j != l && #[trigger] m3[j] != -1 implies m3[j] != #[trigger] m3[l] by {
        assert(m2[j] != -1);
        assert(m1[m2[j]] != -1);
        if m3[l] != -1 {
            assert(m2[l] != -1);
            assert(m2[j] != m2[l]);
            assert(m1[m2[j]] != m1[m2[l]]);
        }
    }
    assert forall|j: int| 0 <= j < m3.len() && #[trigger] m3[j] == -1 implies c.finite@[j].subset_of(a.infinite) by {
        if m2[j] == -1 {
            lemma_subset(c.finite@[j], c.infinite, a.infinite);
            lemma_subset(c.finite@[j], b.infinite, a.infinite);
        } else {
            let i = m2[j];
            assert(m1[i] == -1);
            lemma_subset(c.finite@[j], b.finite@[i], a.infinite);
        }
    }
    assert forall|k: int| 0 <= k < a.finite@.len() && !#[trigger] m3.contains(k) implies c.infinite.subset_of(a.finite@[k]) by {
        if m1.contains(k) {
            let i = choose|i: int| 0 <= i < m1.len() && m1[i] == k;
            if m2.contains(i) {
                let j = choose|j: int| 0 <= j < m2.len() && m2[j] == i;
                assert(m3[j] == k);
            }
            lemma_subset(c.infinite, b.finite@[i], a.finite@[k]);
        } else {
            lemma_subset(c.infinite, b.infinite, a.finite@[k]);
        }
    }
    assert(is_pairing(a, c, m3));
}

impl<const C: usize> Line<C> {
    /// How `self` and `other` compare under domination: `Equal` for equal
    /// lines, else `Greater` when `self` dominates `other`, else `Less` when
    /// `other` dominates `self`, else `None`.
    pub fn partial_cmp(&self, other: &Line<C>) -> (r: Option<core::cmp::Ordering>)
        ensures
            r == if same_line(*self, *other) {
                Some(core::cmp::Ordering::Equal)
            } else if dominates(*self, *other) {
                Some(core::cmp::Ordering::Greater)
            } else if dominates(*other, *self) {
                Some(core::cmp::Ordering::Less)
            } else {
                None
            },
    {
        if lines_equal(self, other) {
            return Some(core::cmp::Ordering::Equal);
        }
        if self.ge(other) {
            return Some(core::cmp::Ordering::Greater);
        }
        if other.ge(self) {
            return Some(core::cmp::Ordering::Less);
        }
        None
    }

    /// Whether `self` dominates `other`.
    pub fn ge(&self, other: &Line<C>) -> (r: bool)
        ensures
            r == dominates(*self, *other),
    {
        if !other.infinite.is_subset_of(&self.infinite) {
            return false;
        }
        let na = self.finite.len();
        let nb = other.finite.len();
        let mut mandatory: Vec<usize> = Vec::new();
        let mut optional: Vec<usize> = Vec::new();
        let mut k: usize = 0;
        while k < na
            invariant
                na == self.finite@.len(),
                k <= na,
                forall|p: int|
                    0 <= p < mandatory@.len() ==> (#[trigger] mandatory@[p] as int) < k
                        && a_mandatory(*self, *other, mandatory@[p] as int),
                forall|p: int|
                    0 <= p < optional@.len() ==> (#[trigger] optional@[p] as int) < k
                        && !a_mandatory(*self, *other, optional@[p] as int),
                forall|p: int, q: int| 0 <= p < q < mandatory@.len() ==> #[trigger] mandatory@[p] < #[trigger] mandatory@[q],
                forall|p: int, q: int| 0 <= p < q < optional@.len() ==> #[trigger] optional@[p] < #[trigger] optional@[q],
                forall|x: int| 0 <= x < k && a_mandatory(*self, *other, x) ==> #[trigger] mandatory@.contains(x as usize),
                forall|x: int| 0 <= x < k && !a_mandatory(*self, *other, x) ==> #[trigger] optional@.contains(x as usize),
            decreases na - k,
        {
            let ghost pm = mandatory@;
            let ghost po = optional@;
            if other.infinite.is_subset_of(&self.finite[k]) {
                optional.push(k);
                assert(optional@[optional@.len() - 1] == k);
            } else {
                mandatory.push(k);
                assert(mandatory@[mandatory@.len() - 1] == k);
            }
            assert forall|x: int| 0 <= x < k + 1 && a_mandatory(*self, *other, x) implies #[trigger] mandatory@.contains(x as usize) by {
                if x < k {
                    assert(pm.contains(x as usize));
                    let p = choose|p: int| 0 <= p < pm.len() && pm[p] == x as usize;
                    assert(mandatory@[p] == pm[p]);
                }
            }
            assert forall|x: int| 0 <= x < k + 1 && !a_mandatory(*self, *other, x) implies #[trigger] optional@.contains(x as usize) by {
                if x < k {
                    assert(po.contains(x as usize));
                    let p = choose|p: int| 0 <= p < po.len() && po[p] == x as usize;
                    assert(optional@[p] == po[p]);
                }
            }
            k = k + 1;
        }
        let mut other_mandatory: Vec<usize> = Vec::new();
        let mut used_other: Vec<bool> = Vec::new();
        let mut j: usize = 0;
        while j < nb
            invariant
                nb == other.finite@.len(),
                j <= nb,
                used_other@ == Seq::new(j as nat, |x: int| false),
                forall|p: int|
                    0 <= p < other_mandatory@.len() ==> (#[trigger] other_mandatory@[p] as int) < j
                        && !other.finite@[other_mandatory@[p] as int].subset_of(self.infinite),
                forall|p: int, q: int|
                    0 <= p < q < other_mandatory@.len() ==> #[trigger] other_mandatory@[p] < #[trigger] other_mandatory@[q],
                forall|x: int|
                    0 <= x < j && !other.finite@[x].subset_of(self.infinite) ==> #[trigger] other_mandatory@.contains(x as usize),
            decreases nb - j,
        {
            let ghost pm = other_mandatory@;
            if !other.finite[j].is_subset_of(&self.infinite) {
                other_mandatory.push(j);
                assert(other_mandatory@[other_mandatory@.len() - 1] == j);
            }
            assert forall|x: int|
                0 <= x < j + 1 && !other.finite@[x].subset_of(self.infinite) implies #[trigger] other_mandatory@.contains(x as usize) by {
                if x < j {
                    assert(pm.contains(x as usize));
                    let p = choose|p: int| 0 <= p < pm.len() && pm[p] == x as usize;
                    assert(other_mandatory@[p] == pm[p]);
                }
            }
            used_other.push(false);
            j = j + 1;
        }
        let mut ctx = GeCtx { used_other, mandatory, optional, other_mandatory };
        let ghost m = Seq::new(nb as nat, |x: int| -1int);
        assert(ctx.inv(*self, *other));
        assert(ctx.self_ready(*self, *other, 0, m, ctx.used_other@));
        let r = ctx.pair_self(self, other, 0, Ghost(m));
        proof {
            if dominates(*self, *other) {
                let m2 = choose|m2: Seq<int>| is_pairing(*self, *other, m2);
                assert(extends(m2, m));
            }
        }
        r
    }
}


/// The explicit coordinates among the first `n` of `s` that differ from
/// `inf`, as words.
pub open spec fn nonredundant_upto<const C: usize>(s: Seq<BitArray<C>>, inf: Seq<u64>, n: int) -> Multiset<Seq<u64>>
    decreases n,
{
    if n <= 0 {
        Multiset::empty()
    } else if s[n - 1]@ == inf {
        nonredundant_upto(s, inf, n - 1)
    } else {
        nonredundant_upto(s, inf, n - 1).insert(s[n - 1]@)
    }
}

/// The explicit coordinates of `l` that differ from its infinite one.
pub open spec fn nonredundant<const C: usize>(l: Line<C>) -> Multiset<Seq<u64>> {
    nonredundant_upto(l.finite@, l.infinite@, l.finite@.len() as int)
}

/// `a` and `b` are the same line: the same infinite coordinate and, apart
/// from copies of it, the same explicit coordinates in any order.
pub open spec fn same_line<const C: usize>(a: Line<C>, b: Line<C>) -> bool {
    a.infinite@ == b.infinite@ && nonredundant(a) == nonredundant(b)
}

spec fn used_upto<const C: usize>(s: Seq<BitArray<C>>, used: Seq<bool>, n: int) -> Multiset<Seq<u64>>
    decreases n,
{
    if n <= 0 {
        Multiset::empty()
    } else if used[n - 1] {
        used_upto(s, used, n - 1).insert(s[n - 1]@)
    } else {
        used_upto(s, used, n - 1)
    }
}

spec fn unused_upto<const C: usize>(s: Seq<BitArray<C>>, inf: Seq<u64>, used: Seq<bool>, n: int) -> Multiset<Seq<u64>>
    decreases n,
{
    if n <= 0 {
        Multiset::empty()
    } else if !used[n - 1] && s[n - 1]@ != inf {
        unused_upto(s, inf, used, n - 1).insert(s[n - 1]@)
    } else {
        unused_upto(s, inf, used, n - 1)
    }
}

proof fn lemma_split<const C: usize>(s: Seq<BitArray<C>>, inf: Seq<u64>, used: Seq<bool>, n: int)
    requires
        forall|i: int| 0 <= i < n && #[trigger] used[i] ==> s[i]@ != inf,
    ensures
        nonredundant_upto(s, inf, n) == used_upto(s, used, n).add(unused_upto(s, inf, used, n)),
    decreases n,
{
    broadcast use vstd::multiset::group_multiset_axioms;
    if n > 0 {
        lemma_split(s, inf, used, n - 1);
        assert(nonredundant_upto(s, inf, n) =~= used_upto(s, used, n).add(unused_upto(s, inf, used, n)));
    }
}

proof fn lemma_used_set<const C: usize>(s: Seq<BitArray<C>>, used: Seq<bool>, i: int, n: int)
    requires
        0 <= i < used.len(),
        n <= used.len(),
        !used[i],
    ensures
        used_upto(s, used.update(i, true), n) == if i < n {
            used_upto(s, used, n).insert(s[i]@)
        } else {
            used_upto(s, used, n)
        },
    decreases n,
{
    broadcast use vstd::multiset::group_multiset_axioms;
    if n > 0 {
        lemma_used_set(s, used, i, n - 1);
        let u2 = used.update(i, true);
        if i < n - 1 {
            assert(u2[n - 1] == used[n - 1]);
            if used[n - 1] {
                assert(used_upto(s, u2, n) =~= used_upto(s, used, n).insert(s[i]@));
            }
        } else if i == n - 1 {
            assert(u2[n - 1]);
        } else {
            assert(u2[n - 1] == used[n - 1]);
        }
    }
}

proof fn lemma_unused_without<const C: usize>(s: Seq<BitArray<C>>, inf: Seq<u64>, used: Seq<bool>, n: int, v: Seq<u64>)
    requires
        forall|i: int| 0 <= i < n && !#[trigger] used[i] ==> s[i]@ != v,
    ensures
        unused_upto(s, inf, used, n).count(v) == 0,
    decreases n,
{
    broadcast use vstd::multiset::group_multiset_axioms;
    if n > 0 {
        lemma_unused_without(s, inf, used, n - 1, v);
        assert(used[n - 1] || s[n - 1]@ != v);
    }
}

proof fn lemma_unused_holds<const C: usize>(s: Seq<BitArray<C>>, inf: Seq<u64>, used: Seq<bool>, n: int, i: int)
    requires
        0 <= i < n,
        !used[i],
        s[i]@ != inf,
    ensures
        unused_upto(s, inf, used, n).len() > 0,
    decreases n,
{
    broadcast use vstd::multiset::group_multiset_axioms;
    if i < n - 1 {
        lemma_unused_holds(s, inf, used, n - 1, i);
    }
}

proof fn lemma_nonredundant_grows<const C: usize>(s: Seq<BitArray<C>>, inf: Seq<u64>, m: int, n: int, v: Seq<u64>)
    requires
        0 <= m <= n,
    ensures
        nonredundant_upto(s, inf, m).count(v) <= nonredundant_upto(s, inf, n).count(v),
    decreases n - m,
{
    broadcast use vstd::multiset::group_multiset_axioms;
    if m < n {
        lemma_nonredundant_grows(s, inf, m, n - 1, v);
    }
}

/// Whether `a` and `b` are the same line, pairing each explicit coordinate
/// of `a` that differs from the infinite one with an unused equal one of `b`.
fn lines_equal<const C: usize>(a: &Line<C>, b: &Line<C>) -> (r: bool)
    ensures
        r == same_line(*a, *b),
{
    broadcast use vstd::multiset::group_multiset_axioms;
    if a.infinite != b.infinite {
        return false;
    }
    let infinite = a.infinite;
    let ghost inf = infinite@;
    let nb = b.finite.len();
    let mut used: Vec<bool> = Vec::new();
    let mut x: usize = 0;
    while x < nb
        invariant
            x <= nb,
            used@ == Seq::new(x as nat, |i: int| false),
        decreases nb - x,
    {
        used.push(false);
        x = x + 1;
    }
    proof {
        assert(used_upto(b.finite@, used@, nb as int) =~= Multiset::empty()) by {
            lemma_used_empty(b.finite@, used@, nb as int);
        }
    }
    let mut k: usize = 0;
    while k < a.finite.len()
        invariant
            inf == a.infinite@,
            inf == b.infinite@,
            infinite == a.infinite,
            nb == b.finite@.len(),
            used@.len() == nb,
            k <= a.finite@.len(),
            used_upto(b.finite@, used@, nb as int) == nonredundant_upto(a.finite@, inf, k as int),
            forall|i: int| 0 <= i < nb && #[trigger] used@[i] ==> b.finite@[i]@ != inf,
        decreases a.finite@.len() - k,
    {
        let s = a.finite[k];
        if s != infinite {
            let mut i: usize = 0;
            let mut found = false;
            while !found && i < nb
                invariant
                    nb == b.finite@.len(),
                    used@.len() == nb,
                    i <= nb,
                    found ==> i < nb && !used@[i as int] && b.finite@[i as int]@ == s@,
                    forall|j: int| 0 <= j < i ==> #[trigger] used@[j] || b.finite@[j]@ != s@,
                decreases nb - i + if found {
                    0int
                } else {
                    1int
                },
            {
                if !used[i] && b.finite[i] == s {
                    found = true;
                } else {
                    i = i + 1;
                }
            }
            if !found {
                proof {
                    let v = s@;
                    lemma_split(b.finite@, inf, used@, nb as int);
                    lemma_unused_without(b.finite@, inf, used@, nb as int, v);
                    lemma_nonredundant_grows(a.finite@, inf, k + 1, a.finite@.len() as int, v);
                    assert(nonredundant_upto(a.finite@, inf, k + 1) == nonredundant_upto(a.finite@, inf, k as int).insert(v));
                    assert(nonredundant(*a).count(v) != nonredundant(*b).count(v));
                }
                return false;
            }
            proof {
                lemma_used_set(b.finite@, used@, i as int, nb as int);
            }
            used.set(i, true);
        }
        k = k + 1;
    }
    let mut j: usize = 0;
    while j < nb
        invariant
            nb == b.finite@.len(),
            used@.len() == nb,
            j <= nb,
            inf == infinite@,
            inf == a.infinite@,
            inf == b.infinite@,
            used_upto(b.finite@, used@, nb as int) == nonredundant_upto(a.finite@, inf, a.finite@.len() as int),
            forall|i: int| 0 <= i < nb && #[trigger] used@[i] ==> b.finite@[i]@ != inf,
            forall|i: int| 0 <= i < j && !#[trigger] used@[i] ==> b.finite@[i]@ == infinite@,
        decreases nb - j,
    {
        if !used[j] && b.finite[j] != infinite {
            proof {
                lemma_split(b.finite@, inf, used@, nb as int);
                lemma_unused_holds(b.finite@, inf, used@, nb as int, j as int);
                assert(b.finite@[j as int] != infinite);
                assert(nonredundant(*b).len() != nonredundant(*a).len());
            }
            return false;
        }
        j = j + 1;
    }
    proof {
        lemma_split(b.finite@, inf, used@, nb as int);
        lemma_unused_without_inf(b.finite@, inf, used@, nb as int);
        assert(nonredundant(*b) =~= nonredundant(*a));
    }
    true
}

proof fn lemma_used_empty<const C: usize>(s: Seq<BitArray<C>>, used: Seq<bool>, n: int)
    requires
        forall|i: int| 0 <= i < n ==> !#[trigger] used[i],
    ensures
        used_upto(s, used, n) == Multiset::<Seq<u64>>::empty(),
    decreases n,
{
    if n > 0 {
        lemma_used_empty(s, used, n - 1);
    }
}

proof fn lemma_unused_without_inf<const C: usize>(s: Seq<BitArray<C>>, inf: Seq<u64>, used: Seq<bool>, n: int)
    requires
        forall|i: int| 0 <= i < n && !#[trigger] used[i] ==> s[i]@ == inf,
    ensures
        unused_upto(s, inf, used, n) == Multiset::<Seq<u64>>::empty(),
    decreases n,
{
    if n > 0 {
        lemma_unused_without_inf(s, inf, used, n - 1);
    }
}

/// Pairs, one by one, the first `k` explicit coordinates of `a` that differ
/// from the infinite coordinate with distinct equal explicit coordinates of
/// `b`; `used` marks the coordinates of `b` taken and `p` the partner of each
/// coordinate of `a` (`-1` for a copy of the infinite one).
proof fn lemma_equal_pairing<const C: usize>(a: Line<C>, b: Line<C>, k: int) -> (res: (Seq<bool>, Seq<int>))
    requires
        same_line(a, b),
        0 <= k <= a.finite@.len(),
    ensures
        res.0.len() == b.finite@.len(),
        res.1.len() == k,
        forall|i: int| 0 <= i < b.finite@.len() && #[trigger] res.0[i] ==> b.finite@[i]@ != a.infinite@,
        used_upto(b.finite@, res.0, b.finite@.len() as int) == nonredundant_upto(a.finite@, a.infinite@, k),
        forall|t: int| 0 <= t < k && #[trigger] res.1[t] == -1 ==> a.finite@[t]@ == a.infinite@,
        forall|t: int|
            0 <= t < k && #[trigger] res.1[t] != -1 ==> 0 <= res.1[t] < b.finite@.len() && res.0[res.1[t]]
                && b.finite@[res.1[t]]@ == a.finite@[t]@,
        forall|t1: int, t2: int| 0 <= t1 < k && 0 <= t2 < k && t1 != t2 && #[trigger] res.1[t1] != -1 ==> res.1[t1] != #[trigger] res.1[t2],
        forall|i: int| 0 <= i < b.finite@.len() && #[trigger] res.0[i] ==> res.1.contains(i),
    decreases k,
{
    broadcast use vstd::multiset::group_multiset_axioms;
    let nb = b.finite@.len() as int;
    let inf = a.infinite@;
    if k == 0 {
        let used = Seq::new(nb as nat, |i: int| false);
        lemma_used_empty(b.finite@, used, nb);
        let e = Seq::<int>::empty();
        assert forall|i: int| 0 <= i < nb && #[trigger] used[i] implies e.contains(i) by {
            assert(!used[i]);
        }
        (used, e)
    } else {
        let (used, p) = lemma_equal_pairing(a, b, k - 1);
        let v = a.finite@[k - 1]@;
        if v == inf {
            let pq = p.push(-1);
            assert forall|i: int| 0 <= i < nb && #[trigger] used[i] implies pq.contains(i) by {
                let t = choose|t: int| 0 <= t < p.len() && p[t] == i;
                assert(pq[t] == i);
            }
            assert forall|t1: int, t2: int| 0 <= t1 < k && 0 <= t2 < k && t1 != t2 && #[trigger] pq[t1] != -1 implies pq[t1] != #[trigger] pq[t2] by {
                if t1 < k - 1 && t2 < k - 1 {
                    assert(pq[t1] == p[t1] && pq[t2] == p[t2]);
                }
            }
            assert forall|t: int|
                0 <= t < k && #[trigger] pq[t] != -1 implies 0 <= pq[t] < nb && used[pq[t]] && b.finite@[pq[t]]@
                    == a.finite@[t]@ by {
                assert(pq[t] == p[t]);
            }
            assert forall|t: int| 0 <= t < k && #[trigger] pq[t] == -1 implies a.finite@[t]@ == a.infinite@ by {
                if t < k - 1 {
                    assert(pq[t] == p[t]);
                }
            }
            (used, pq)
        } else {
            lemma_split(b.finite@, inf, used, nb);
            lemma_nonredundant_grows(a.finite@, inf, k, a.finite@.len() as int, v);
            assert(nonredundant_upto(a.finite@, inf, k) == nonredundant_upto(a.finite@, inf, k - 1).insert(v));
            assert(unused_upto(b.finite@, inf, used, nb).count(v) > 0);
            if forall|i: int| 0 <= i < nb && !#[trigger] used[i] ==> b.finite@[i]@ != v {
                lemma_unused_without(b.finite@, inf, used, nb, v);
            }
            let i = choose|i: int| 0 <= i < nb && !#[trigger] used[i] && b.finite@[i]@ == v;
            lemma_used_set(b.finite@, used, i, nb);
            let used2 = used.update(i, true);
            let pq = p.push(i);
            assert forall|t1: int, t2: int| 0 <= t1 < k && 0 <= t2 < k && t1 != t2 && #[trigger] pq[t1] != -1 implies pq[t1] != #[trigger] pq[t2] by {
                if t1 == k - 1 && t2 < k - 1 && p[t2] != -1 {
                    assert(used[p[t2]]);
                } else if t2 == k - 1 && t1 < k - 1 {
                    assert(used[p[t1]]);
                }
            }
            assert forall|i2: int| 0 <= i2 < nb && #[trigger] used2[i2] implies pq.contains(i2) by {
                if i2 == i {
                    assert(pq[k - 1] == i);
                } else {
                    let t = choose|t: int| 0 <= t < p.len() && p[t] == i2;
                    assert(pq[t] == i2);
                }
            }
            assert forall|t: int|
                0 <= t < k && #[trigger] pq[t] != -1 implies 0 <= pq[t] < nb && used2[pq[t]] && b.finite@[pq[t]]@
                    == a.finite@[t]@ by {
                if t < k - 1 {
                    assert(pq[t] == p[t]);
                }
            }
            assert forall|t: int| 0 <= t < k && #[trigger] pq[t] == -1 implies a.finite@[t]@ == a.infinite@ by {
                if t < k - 1 {
                    assert(pq[t] == p[t]);
                }
            }
            (used2, pq)
        }
    }
}

/// Equal lines dominate each other.
pub proof fn lemma_same_lines_dominate_each_other<const C: usize>(a: Line<C>, b: Line<C>)
    requires
        same_line(a, b),
    ensures
        dominates(a, b),
        dominates(b, a),
{
    lemma_same_line_dominated(a, b);
    lemma_same_line_dominated(b, a);
}

/// A line is dominated by every line equal to it.
proof fn lemma_same_line_dominated<const C: usize>(a: Line<C>, b: Line<C>)
    requires
        same_line(a, b),
    ensures
        dominates(b, a),
{
    broadcast use vstd::multiset::group_multiset_axioms;
    let na = a.finite@.len() as int;
    let nb = b.finite@.len() as int;
    let inf = a.infinite@;
    let (used, p) = lemma_equal_pairing(a, b, na);
    lemma_split(b.finite@, inf, used, nb);
    let um = used_upto(b.finite@, used, nb);
    let xm = unused_upto(b.finite@, inf, used, nb);
    assert(nonredundant(b) == um.add(xm));
    assert(um == nonredundant(a));
    assert(um.add(xm).len() == um.len() + xm.len());
    assert(xm.len() == 0);
    assert forall|j: int| 0 <= j < nb && !#[trigger] used[j] implies b.finite@[j]@ == inf by {
        if b.finite@[j]@ != inf {
            lemma_unused_holds(b.finite@, inf, used, nb, j);
        }
    }
    lemma_view_eq(a.infinite, b.infinite);
    assert forall|t: int| 0 <= t < p.len() && #[trigger] p[t] != -1 implies 0 <= p[t] < b.finite@.len()
        && a.finite@[t].subset_of(b.finite@[p[t]]) by {
        lemma_view_eq(a.finite@[t], b.finite@[p[t]]);
        lemma_subset(a.finite@[t], a.finite@[t], a.finite@[t]);
    }
    assert forall|t: int| 0 <= t < p.len() && #[trigger] p[t] == -1 implies a.finite@[t].subset_of(b.infinite) by {
        lemma_view_eq(a.finite@[t], b.infinite);
        lemma_subset(b.infinite, b.infinite, b.infinite);
    }
    assert forall|i: int| 0 <= i < nb && !#[trigger] p.contains(i) implies a.infinite.subset_of(b.finite@[i]) by {
        assert(!used[i]);
        lemma_view_eq(a.infinite, b.finite@[i]);
        lemma_subset(a.infinite, a.infinite, a.infinite);
    }
    lemma_subset(a.infinite, a.infinite, a.infinite);
    assert(is_pairing(b, a, p));
}

/// How much the sums of words of the first `n` sets of `s` exceed that of
/// `inf`, added up.
pub(crate) open spec fn excess_upto<const C: usize>(s: Seq<BitArray<C>>, inf: BitArray<C>, n: int) -> int
    decreases n,
{
    if n <= 0 {
        0
    } else {
        excess_upto(s, inf, n - 1) + (word_sum(s[n - 1]@, C as int) - word_sum(inf@, C as int))
    }
}

/// `m` pairs the first `nb` sets of `sb` into `sa` as a domination of two
/// lines with the same infinite coordinate `inf`.
pub(crate) open spec fn pairs_into<const C: usize>(sa: Seq<BitArray<C>>, sb: Seq<BitArray<C>>, nb: int, inf: BitArray<C>, m: Seq<int>) -> bool {
    &&& 0 <= nb <= sb.len()
    &&& m.len() == nb
    &&& forall|j: int| 0 <= j < nb && #[trigger] m[j] != -1 ==> 0 <= m[j] < sa.len() && sb[j].subset_of(sa[m[j]])
    &&& forall|j: int, l: int| 0 <= j < nb && 0 <= l < nb && j != l && #[trigger] m[j] != -1 ==> m[j] != #[trigger] m[l]
    &&& forall|j: int| 0 <= j < nb && #[trigger] m[j] == -1 ==> sb[j].subset_of(inf)
    &&& forall|k: int| 0 <= k < sa.len() && !#[trigger] m.contains(k) ==> inf.subset_of(sa[k])
}

proof fn lemma_remove_sums<const C: usize>(s: Seq<BitArray<C>>, inf: BitArray<C>, k: int, n: int)
    requires
        0 <= k < s.len(),
        0 <= n <= s.len(),
    ensures
        n <= k ==> excess_upto(s.remove(k), inf, n) == excess_upto(s, inf, n),
        n > k ==> excess_upto(s.remove(k), inf, n - 1) + (word_sum(s[k]@, C as int) - word_sum(inf@, C as int))
            == excess_upto(s, inf, n),
        n <= k ==> nonredundant_upto(s.remove(k), inf@, n) == nonredundant_upto(s, inf@, n),
        n > k ==> nonredundant_upto(s, inf@, n) == if s[k]@ == inf@ {
            nonredundant_upto(s.remove(k), inf@, n - 1)
        } else {
            nonredundant_upto(s.remove(k), inf@, n - 1).insert(s[k]@)
        },
    decreases n,
{
    broadcast use vstd::multiset::group_multiset_axioms;
    let r = s.remove(k);
    if n > 0 {
        lemma_remove_sums(s, inf, k, n - 1);
        if n - 1 > k {
            assert(r[n - 2] == s[n - 1]);
            if s[k]@ != inf@ && s[n - 1]@ != inf@ {
                assert(nonredundant_upto(s, inf@, n) =~= nonredundant_upto(r, inf@, n - 1).insert(s[k]@));
            }
        } else if n - 1 < k {
            assert(r[n - 1] == s[n - 1]);
        }
    }
}

proof fn lemma_supersets_excess<const C: usize>(sa: Seq<BitArray<C>>, inf: BitArray<C>, n: int)
    requires
        0 <= n <= sa.len(),
        forall|k: int| 0 <= k < n ==> inf.subset_of(#[trigger] sa[k]),
    ensures
        excess_upto(sa, inf, n) >= 0,
        excess_upto(sa, inf, n) == 0 ==> nonredundant_upto(sa, inf@, n) == Multiset::<Seq<u64>>::empty(),
    decreases n,
{
    if n > 0 {
        lemma_supersets_excess(sa, inf, n - 1);
        lemma_word_sum(inf, sa[n - 1]);
    }
}

/// When `m` lets `sa` dominate the first `nb` sets of `sb`, the excess of
/// `sa` is at least that of those sets, and equal only when both hold the
/// same sets apart from copies of `inf`.
pub(crate) proof fn lemma_domination_excess<const C: usize>(sa: Seq<BitArray<C>>, sb: Seq<BitArray<C>>, nb: int, inf: BitArray<C>, m: Seq<int>)
    requires
        pairs_into(sa, sb, nb, inf, m),
    ensures
        excess_upto(sa, inf, sa.len() as int) >= excess_upto(sb, inf, nb),
        excess_upto(sa, inf, sa.len() as int) == excess_upto(sb, inf, nb) ==> nonredundant_upto(sa, inf@, sa.len() as int)
            == nonredundant_upto(sb, inf@, nb),
    decreases sa.len() + nb,
{
    broadcast use vstd::multiset::group_multiset_axioms;
    if nb == 0 {
        assert forall|k: int| 0 <= k < sa.len() implies inf.subset_of(#[trigger] sa[k]) by {
            assert(!m.contains(k));
        }
        lemma_supersets_excess(sa, inf, sa.len() as int);
    } else {
        let j = nb - 1;
        let m1 = m.drop_last();
        if m[j] == -1 {
            assert forall|k: int| 0 <= k < sa.len() && !#[trigger] m1.contains(k) implies inf.subset_of(sa[k]) by {
                if m.contains(k) {
                    let t = choose|t: int| 0 <= t < m.len() && m[t] == k;
                    assert(m1[t] == k);
                }
            }
            lemma_domination_excess(sa, sb, nb - 1, inf, m1);
            lemma_word_sum(sb[j], inf);
        } else {
            let k = m[j];
            let sa2 = sa.remove(k);
            let m2 = Seq::new((nb - 1) as nat, |i: int| if m[i] > k { m[i] - 1 } else { m[i] });
            assert forall|i: int| 0 <= i < nb - 1 && #[trigger] m2[i] != -1 implies 0 <= m2[i] < sa2.len() && sb[i].subset_of(sa2[m2[i]]) by {
                assert(m[i] != k);
                if m[i] > k {
                    assert(sa2[m2[i]] == sa[m[i]]);
                } else {
                    assert(sa2[m2[i]] == sa[m[i]]);
                }
            }
            assert forall|i: int, l: int| 0 <= i < nb - 1 && 0 <= l < nb - 1 && i != l && #[trigger] m2[i] != -1 implies m2[i] != #[trigger] m2[l] by {
                assert(m[i] != k);
                assert(m[i] != m[l]);
                if m[l] != -1 {
                    assert(m[l] != k);
                }
            }
            assert forall|i: int| 0 <= i < nb - 1 && #[trigger] m2[i] == -1 implies sb[i].subset_of(inf) by {
                if m[i] != -1 {
                    assert(m[i] != k);
                }
            }
            assert forall|k2: int| 0 <= k2 < sa2.len() && !#[trigger] m2.contains(k2) implies inf.subset_of(sa2[k2]) by {
                let k3 = if k2 < k { k2 } else { k2 + 1 };
                assert(sa2[k2] == sa[k3]);
                if m.contains(k3) {
                    let t = choose|t: int| 0 <= t < m.len() && m[t] == k3;
                    assert(t != j);
                    assert(m2[t] == k2);
                }
            }
            assert(pairs_into(sa2, sb, nb - 1, inf, m2));
            lemma_domination_excess(sa2, sb, nb - 1, inf, m2);
            lemma_remove_sums(sa, inf, k, sa.len() as int);
            lemma_word_sum(sb[j], sa[k]);
            if excess_upto(sa, inf, sa.len() as int) == excess_upto(sb, inf, nb) {
                assert(sb[j]@ == sa[k]@);
            }
        }
    }
}

/// Sequences of sets that hold the same sets, counted with multiplicity,
/// have the same sets apart from copies of `inf`.
proof fn lemma_multiset_nonredundant<const C: usize>(s1: Seq<BitArray<C>>, s2: Seq<BitArray<C>>, inf: BitArray<C>)
    requires
        s1.to_multiset() == s2.to_multiset(),
    ensures
        nonredundant_upto(s1, inf@, s1.len() as int) == nonredundant_upto(s2, inf@, s2.len() as int),
    decreases s1.len(),
{
    broadcast use vstd::seq_lib::group_to_multiset_ensures;
    broadcast use vstd::multiset::group_multiset_axioms;
    if s1.len() == 0 {
        assert(s2.to_multiset().len() == 0);
        assert(s2.len() == 0);
    } else {
        let n1 = s1.len() as int;
        let x = s1[n1 - 1];
        let s1r = s1.drop_last();
        assert(s1 =~= s1r.push(x));
        assert(s1.to_multiset() == s1r.to_multiset().insert(x));
        assert(s2.to_multiset().count(x) > 0);
        assert(s2.contains(x));
        let k = choose|k: int| 0 <= k < s2.len() && s2[k] == x;
        let s2r = s2.remove(k);
        assert(s2r.to_multiset() == s2.to_multiset().remove(x));
        assert(s1r.to_multiset() =~= s2r.to_multiset());
        lemma_multiset_nonredundant(s1r, s2r, inf);
        assert(s1.remove(n1 - 1) =~= s1r);
        lemma_remove_sums(s1, inf, n1 - 1, n1);
        lemma_remove_sums(s2, inf, k, s2.len() as int);
    }
}

/// Lines with the same infinite coordinate and the same explicit
/// coordinates, counted with multiplicity, are equal.
pub proof fn lemma_multiset_same_line<const C: usize>(a: Line<C>, b: Line<C>)
    requires
        a.infinite == b.infinite,
        a.finite@.to_multiset() == b.finite@.to_multiset(),
    ensures
        same_line(a, b),
{
    lemma_multiset_nonredundant(a.finite@, b.finite@, a.infinite);
}

/// Lines that dominate each other are equal.
pub proof fn lemma_mutual_domination_same<const C: usize>(a: Line<C>, b: Line<C>)
    requires
        dominates(a, b),
        dominates(b, a),
    ensures
        same_line(a, b),
{
    lemma_subset(a.infinite, b.infinite, a.infinite);
    lemma_view_eq(a.infinite, b.infinite);
    let inf = a.infinite;
    let m1 = choose|m: Seq<int>| is_pairing(a, b, m);
    let m2 = choose|m: Seq<int>| is_pairing(b, a, m);
    assert(pairs_into(a.finite@, b.finite@, b.finite@.len() as int, inf, m1));
    assert(pairs_into(b.finite@, a.finite@, a.finite@.len() as int, inf, m2));
    lemma_domination_excess(a.finite@, b.finite@, b.finite@.len() as int, inf, m1);
    lemma_domination_excess(b.finite@, a.finite@, a.finite@.len() as int, inf, m2);
}

/// Domination is antisymmetric: two lines dominate each other exactly when
/// they are equal.
pub proof fn lemma_dominates_antisymmetric<const C: usize>(a: Line<C>, b: Line<C>)
    ensures
        (dominates(a, b) && dominates(b, a)) == same_line(a, b),
{
    if dominates(a, b) && dominates(b, a) {
        lemma_mutual_domination_same(a, b);
    }
    if same_line(a, b) {
        lemma_same_lines_dominate_each_other(a, b);
    }
}

impl<const C: usize> PartialEq for Line<C> {
    fn eq(&self, other: &Self) -> (r: bool) {
        lines_equal(self, other)
    }
}

impl<const C: usize> vstd::std_specs::cmp::PartialEqSpecImpl for Line<C> {
    open spec fn obeys_eq_spec() -> bool {
        true
    }

    open spec fn eq_spec(&self, other: &Self) -> bool {
        same_line(*self, *other)
    }
}

impl<const C: usize> Eq for Line<C> {

}

} // verus!
