//! Domination of fixed-degree lines, decided by saturating matchings in a
//! bipartite graph.
//!
//! A graph is given by `adj`: vertex `i` of side A has the B-neighbours
//! `adj[i]`, and both sides have `adj.len()` vertices.
use crate::bitarray::{lemma_subset, lemma_view_eq, BitArray};
use crate::line::{lemma_domination_excess, nonredundant_upto, pairs_into};
use vstd::multiset::Multiset;
use vstd::prelude::*;
use vstd::relations::injective_on;
use vstd::set_lib::{lemma_int_range, lemma_len_subset, lemma_map_size, set_int_range};

verus! {

/// The adjacency lists as a sequence of sequences.
pub open spec fn graph_of(adj: Seq<Vec<usize>>) -> Seq<Seq<usize>> {
    adj.map_values(|v: Vec<usize>| v@)
}

/// Every B-neighbour is a vertex of side B.
pub open spec fn well_formed(adj: Seq<Seq<usize>>) -> bool {
    forall|i: int, k: int|
        0 <= i < adj.len() && 0 <= k < adj[i].len() ==> (#[trigger] adj[i][k] as int) < adj.len()
}

/// `f` assigns to each A vertex a distinct B-neighbour.
pub open spec fn is_saturating(adj: Seq<Seq<usize>>, f: Seq<usize>) -> bool {
    &&& f.len() == adj.len()
    &&& forall|i: int| 0 <= i < f.len() ==> #[trigger] adj[i].contains(f[i])
    &&& forall|i: int, j: int| 0 <= i < j < f.len() ==> #[trigger] f[i] != #[trigger] f[j]
}

/// Side A can be matched completely into side B.
pub open spec fn has_perfect_matching(adj: Seq<Seq<usize>>) -> bool {
    exists|f: Seq<usize>| is_saturating(adj, f)
}

/// `g` gives A vertices `i..` distinct B-neighbours outside `used`.
pub open spec fn is_completion(adj: Seq<Seq<usize>>, i: int, used: Seq<bool>, g: Seq<usize>) -> bool {
    &&& g.len() == adj.len() - i
    &&& forall|k: int| 0 <= k < g.len() ==> #[trigger] adj[i + k].contains(g[k])
    &&& forall|k: int| 0 <= k < g.len() ==> !used[#[trigger] g[k] as int]
    &&& forall|k: int, l: int| 0 <= k < l < g.len() ==> #[trigger] g[k] != #[trigger] g[l]
}

/// A vertices `i..` can be given distinct B-neighbours outside `used`.
pub open spec fn completable(adj: Seq<Seq<usize>>, i: int, used: Seq<bool>) -> bool {
    exists|g: Seq<usize>| is_completion(adj, i, used, g)
}

proof fn lemma_neighbor_bound(adj: Seq<Seq<usize>>, i: int, n: usize)
    requires
        well_formed(adj),
        0 <= i < adj.len(),
        adj[i].contains(n),
    ensures
        (n as int) < adj.len(),
{
    let t = choose|t: int| 0 <= t < adj[i].len() && adj[i][t] == n;
    assert((adj[i][t] as int) < adj.len());
}

proof fn lemma_completable_step(adj: Seq<Seq<usize>>, i: int, used: Seq<bool>)
    requires
        0 <= i < adj.len(),
        well_formed(adj),
        used.len() == adj.len(),
    ensures
        completable(adj, i, used) == exists|n: usize|
            adj[i].contains(n) && !used[n as int] && completable(adj, i + 1, used.update(n as int, true)),
{
    if completable(adj, i, used) {
        let g = choose|g: Seq<usize>| is_completion(adj, i, used, g);
        let n = g[0];
        let h = g.subrange(1, g.len() as int);
        let u2 = used.update(n as int, true);
        assert(adj[i + 0].contains(g[0]));
        lemma_neighbor_bound(adj, i, n);
        assert forall|k: int| 0 <= k < h.len() implies #[trigger] adj[i + 1 + k].contains(h[k]) by {
            assert(adj[i + (k + 1)].contains(g[k + 1]));
        }
        assert forall|k: int| 0 <= k < h.len() implies !u2[#[trigger] h[k] as int] by {
            assert(h[k] == g[k + 1]);
            assert(!used[g[k + 1] as int]);
            assert(g[0] != g[k + 1]);
            assert(adj[i + (k + 1)].contains(g[k + 1]));
            lemma_neighbor_bound(adj, i + (k + 1), g[k + 1]);
            assert(u2[h[k] as int] == used[h[k] as int]);
            assert(!used[g[k + 1] as int]);
        }
        assert forall|k: int, l: int| 0 <= k < l < h.len() implies #[trigger] h[k] != #[trigger] h[l] by {
            assert(g[k + 1] != g[l + 1]);
        }
        assert(adj[i + 0].contains(g[0]));
        assert(is_completion(adj, i + 1, u2, h));
        assert(!used[g[0] as int]);
        assert(adj[i].contains(n) && !used[n as int] && completable(adj, i + 1, u2));
    }
    if exists|n: usize|
        adj[i].contains(n) && !used[n as int] && completable(adj, i + 1, used.update(n as int, true)) {
        let n = choose|n: usize|
            adj[i].contains(n) && !used[n as int] && completable(adj, i + 1, used.update(n as int, true));
        let u2 = used.update(n as int, true);
        lemma_neighbor_bound(adj, i, n);
        let h = choose|g: Seq<usize>| #[trigger] is_completion(adj, i + 1, u2, g);
        let g = seq![n].add(h);
        assert forall|k: int| 0 <= k < g.len() implies #[trigger] adj[i + k].contains(g[k]) by {
            if k > 0 {
                assert(adj[i + 1 + (k - 1)].contains(h[k - 1]));
            }
        }
        assert forall|k: int| 0 <= k < g.len() implies !used[#[trigger] g[k] as int] by {
            if k > 0 {
                assert(!u2[h[k - 1] as int]);
                assert(adj[i + 1 + (k - 1)].contains(h[k - 1]));
                lemma_neighbor_bound(adj, i + 1 + (k - 1), h[k - 1]);
            }
        }
        assert forall|k: int, l: int| 0 <= k < l < g.len() implies #[trigger] g[k] != #[trigger] g[l] by {
            if k > 0 {
                assert(h[k - 1] != h[l - 1]);
            } else {
                assert(!u2[h[l - 1] as int]);
                assert(adj[i + 1 + (l - 1)].contains(h[l - 1]));
                lemma_neighbor_bound(adj, i + 1 + (l - 1), h[l - 1]);
            }
        }
        assert(is_completion(adj, i, used, g));
    }
}

proof fn lemma_completable_start(adj: Seq<Seq<usize>>, used: Seq<bool>)
    requires
        used == Seq::new(adj.len(), |b: int| false),
        well_formed(adj),
    ensures
        completable(adj, 0, used) == has_perfect_matching(adj),
{
    if has_perfect_matching(adj) {
        let f = choose|f: Seq<usize>| is_saturating(adj, f);
        assert forall|k: int| 0 <= k < f.len() implies #[trigger] adj[0 + k].contains(f[k]) by {
            assert(adj[k].contains(f[k]));
        }
        assert forall|k: int| 0 <= k < f.len() implies !used[#[trigger] f[k] as int] by {
            assert(adj[k].contains(f[k]));
        }
        assert(is_completion(adj, 0, used, f));
    }
    if completable(adj, 0, used) {
        let g = choose|g: Seq<usize>| is_completion(adj, 0, used, g);
        assert forall|k: int| 0 <= k < g.len() implies #[trigger] adj[k].contains(g[k]) by {
            assert(adj[0 + k].contains(g[k]));
        }
        assert(is_saturating(adj, g));
    }
}

/// Depth-first assignment of A vertices `i..` to unused B-neighbours.
fn extend_matching(neighbors_a: &[Vec<usize>], i: usize, used: &mut Vec<bool>) -> (r: bool)
    requires
        i <= neighbors_a@.len(),
        well_formed(graph_of(neighbors_a@)),
        old(used)@.len() == neighbors_a@.len(),
    ensures
        r == completable(graph_of(neighbors_a@), i as int, old(used)@),
        final(used)@ == old(used)@,
    decreases neighbors_a@.len() - i,
{
    let ghost adj = graph_of(neighbors_a@);
    if i == neighbors_a.len() {
        assert(is_completion(adj, i as int, used@, Seq::<usize>::empty()));
        return true;
    }
    proof {
        lemma_completable_step(adj, i as int, used@);
    }
    let row = &neighbors_a[i];
    assert(row@ == adj[i as int]);
    let mut k: usize = 0;
    while k < row.len()
        invariant
            i < neighbors_a.len(),
            row@ == adj[i as int],
            adj == graph_of(neighbors_a@),
            well_formed(adj),
            used@ == old(used)@,
            used@.len() == adj.len(),
            forall|t: int|
                0 <= t < k ==> used@[#[trigger] row@[t] as int] || !completable(
                    adj,
                    i + 1,
                    used@.update(row@[t] as int, true),
                ),
        decreases row.len() - k,
    {
        let n = row[k];
        assert(adj[i as int][k as int] == n);
        if !used[n] {
            used.set(n, true);
            let ghost at_call = used@;
            let found = extend_matching(neighbors_a, i + 1, used);
            used.set(n, false);
            assert(used@ =~= old(used)@);
            if found {
                assert(adj[i as int].contains(n));
                assert(at_call == old(used)@.update(n as int, true));
                assert(!old(used)@[n as int]);
                assert(completable(adj, i + 1, old(used)@.update(n as int, true)));
                proof {
                    lemma_completable_step(adj, i as int, old(used)@);
                }
                return true;
            }
        }
        k = k + 1;
    }
    assert forall|n: usize| adj[i as int].contains(n) implies used@[n as int] || !completable(
        adj,
        i + 1,
        used@.update(n as int, true),
    ) by {
        let t = choose|t: int| 0 <= t < row@.len() && row@[t] == n;
    }
    proof {
        lemma_completable_step(adj, i as int, old(used)@);
    }
    false
}

/// Whether side A can be matched completely, by exhaustive backtracking.
pub fn maximum_matching_simple(neighbors_a: &[Vec<usize>]) -> (r: bool)
    requires
        well_formed(graph_of(neighbors_a@)),
    ensures
        r == has_perfect_matching(graph_of(neighbors_a@)),
{
    let mut used: Vec<bool> = Vec::new();
    let mut b: usize = 0;
    while b < neighbors_a.len()
        invariant
            b <= neighbors_a@.len(),
            used@ == Seq::new(b as nat, |x: int| false),
        decreases neighbors_a@.len() - b,
    {
        used.push(false);
        b = b + 1;
    }
    proof {
        lemma_completable_start(graph_of(neighbors_a@), used@);
    }
    extend_matching(neighbors_a, 0, &mut used)
}


/// `f` sends each coordinate of `small` to a distinct coordinate of `big`
/// that contains it.
pub open spec fn assigns_into<const C: usize>(
    small: Seq<BitArray<C>>,
    big: Seq<BitArray<C>>,
    f: Seq<usize>,
) -> bool {
    &&& f.len() == small.len()
    &&& forall|i: int|
        0 <= i < f.len() ==> (#[trigger] f[i] as int) < big.len() && small[i].subset_of(big[f[i] as int])
    &&& forall|i: int, j: int| 0 <= i < j < f.len() ==> #[trigger] f[i] != #[trigger] f[j]
}

/// `big` dominates `small`: both have the same degree and every coordinate of
/// `small` lies inside its own coordinate of `big`.
pub open spec fn fixed_dominates<const C: usize>(big: Seq<BitArray<C>>, small: Seq<BitArray<C>>) -> bool {
    big.len() == small.len() && exists|f: Seq<usize>| assigns_into(small, big, f)
}

/// Every fixed-degree line dominates itself.
pub proof fn lemma_fixed_dominates_reflexive<const C: usize>(l: Seq<BitArray<C>>)
    requires
        l.len() <= usize::MAX,
    ensures
        fixed_dominates(l, l),
{
    let f = Seq::new(l.len(), |i: int| i as usize);
    assert forall|i: int| 0 <= i < f.len() implies (#[trigger] f[i] as int) < l.len() && l[i].subset_of(l[f[i] as int]) by {
        lemma_subset(l[i], l[i], l[i]);
    }
    assert(assigns_into(l, l, f));
}

/// Domination of fixed-degree lines is transitive.
pub proof fn lemma_fixed_dominates_transitive<const C: usize>(a: Seq<BitArray<C>>, b: Seq<BitArray<C>>, c: Seq<BitArray<C>>)
    requires
        fixed_dominates(a, b),
        fixed_dominates(b, c),
    ensures
        fixed_dominates(a, c),
{
    let g = choose|f: Seq<usize>| assigns_into(b, a, f);
    let h = choose|f: Seq<usize>| assigns_into(c, b, f);
    let f = Seq::new(h.len(), |i: int| g[h[i] as int]);
    assert forall|i: int| 0 <= i < f.len() implies (#[trigger] f[i] as int) < a.len() && c[i].subset_of(a[f[i] as int]) by {
        lemma_subset(c[i], b[h[i] as int], a[g[h[i] as int] as int]);
    }
    assert forall|i: int, j: int| 0 <= i < j < f.len() implies #[trigger] f[i] != #[trigger] f[j] by {
        assert(h[i] != h[j]);
        if (h[i] as int) < (h[j] as int) {
            assert(g[h[i] as int] != g[h[j] as int]);
        } else {
            assert(g[h[j] as int] != g[h[i] as int]);
        }
    }
    assert(assigns_into(c, a, f));
}

/// The coordinates among the first `n` of `s`, as a multiset of words.
pub open spec fn coordinates_upto<const C: usize>(s: Seq<BitArray<C>>, n: int) -> Multiset<Seq<u64>>
    decreases n,
{
    if n <= 0 {
        Multiset::empty()
    } else {
        coordinates_upto(s, n - 1).insert(s[n - 1]@)
    }
}

/// The coordinates of a fixed-degree line, in any order.
pub open spec fn coordinates<const C: usize>(s: Seq<BitArray<C>>) -> Multiset<Seq<u64>> {
    coordinates_upto(s, s.len() as int)
}

spec fn copies_upto<const C: usize>(s: Seq<BitArray<C>>, inf: Seq<u64>, n: int) -> Multiset<Seq<u64>>
    decreases n,
{
    if n <= 0 {
        Multiset::empty()
    } else if s[n - 1]@ == inf {
        copies_upto(s, inf, n - 1).insert(inf)
    } else {
        copies_upto(s, inf, n - 1)
    }
}

proof fn lemma_coordinates_split<const C: usize>(s: Seq<BitArray<C>>, inf: Seq<u64>, n: int)
    requires
        0 <= n,
    ensures
        coordinates_upto(s, n) == nonredundant_upto(s, inf, n).add(copies_upto(s, inf, n)),
        coordinates_upto(s, n).len() == n,
        copies_upto(s, inf, n).count(inf) == copies_upto(s, inf, n).len(),
        forall|v: Seq<u64>| v != inf ==> #[trigger] copies_upto(s, inf, n).count(v) == 0,
    decreases n,
{
    broadcast use vstd::multiset::group_multiset_axioms;
    if n > 0 {
        lemma_coordinates_split(s, inf, n - 1);
        assert(coordinates_upto(s, n) =~= nonredundant_upto(s, inf, n).add(copies_upto(s, inf, n)));
    }
}

proof fn lemma_coordinates_remove<const C: usize>(s: Seq<BitArray<C>>, k: int, n: int)
    requires
        0 <= k < s.len(),
        0 <= n <= s.len(),
    ensures
        n <= k ==> coordinates_upto(s.remove(k), n) == coordinates_upto(s, n),
        n > k ==> coordinates_upto(s, n) == coordinates_upto(s.remove(k), n - 1).insert(s[k]@),
    decreases n,
{
    broadcast use vstd::multiset::group_multiset_axioms;
    let r = s.remove(k);
    if n > 0 {
        lemma_coordinates_remove(s, k, n - 1);
        if n - 1 > k {
            assert(r[n - 2] == s[n - 1]);
            assert(coordinates_upto(s, n) =~= coordinates_upto(r, n - 1).insert(s[k]@));
        } else if n - 1 < k {
            assert(r[n - 1] == s[n - 1]);
        }
    }
}

proof fn lemma_coordinates_contain<const C: usize>(s: Seq<BitArray<C>>, n: int, v: Seq<u64>)
    requires
        0 <= n <= s.len(),
        coordinates_upto(s, n).count(v) > 0,
    ensures
        exists|k: int| 0 <= k < n && (#[trigger] s[k])@ == v,
    decreases n,
{
    broadcast use vstd::multiset::group_multiset_axioms;
    if s[n - 1]@ != v {
        lemma_coordinates_contain(s, n - 1, v);
        let k = choose|k: int| 0 <= k < n - 1 && (#[trigger] s[k])@ == v;
    }
}

/// An injective assignment between two sequences of the same length leaves
/// no index of the second unused.
proof fn lemma_assignment_onto(f: Seq<usize>, n: int, k: int)
    requires
        f.len() == n,
        forall|i: int| 0 <= i < n ==> (#[trigger] f[i] as int) < n,
        forall|i: int, j: int| 0 <= i < j < n ==> #[trigger] f[i] != #[trigger] f[j],
        0 <= k < n,
    ensures
        exists|i: int| 0 <= i < n && #[trigger] f[i] as int == k,
{
    lemma_int_range(0, n);
    let x = set_int_range(0, n);
    let g = |i: int| f[i] as int;
    assert(injective_on(g, x)) by {
        assert forall|a1: int, a2: int| x.contains(a1) && x.contains(a2) && #[trigger] g(a1) == #[trigger] g(a2) implies a1 == a2 by {
            if a1 < a2 {
                assert(f[a1] != f[a2]);
            } else if a2 < a1 {
                assert(f[a2] != f[a1]);
            }
        }
    }
    lemma_map_size(x, x.map(g), g);
    assert(x.map(g).subset_of(x));
    vstd::set_lib::lemma_subset_equality(x.map(g), x);
    assert(x.map(g).contains(k));
}

proof fn lemma_mutual_fixed_same<const C: usize>(a: Seq<BitArray<C>>, b: Seq<BitArray<C>>)
    requires
        fixed_dominates(a, b),
        fixed_dominates(b, a),
    ensures
        coordinates(a) == coordinates(b),
{
    broadcast use vstd::multiset::group_multiset_axioms;
    let n = a.len() as int;
    if n == 0 {
        assert(coordinates(a) =~= coordinates(b));
        return;
    }
    let inf = a[0];
    let f = choose|f: Seq<usize>| assigns_into(b, a, f);
    let g = choose|f: Seq<usize>| assigns_into(a, b, f);
    let m1 = Seq::new(n as nat, |i: int| f[i] as int);
    let m2 = Seq::new(n as nat, |i: int| g[i] as int);
    assert forall|k: int| 0 <= k < a.len() && !#[trigger] m1.contains(k) implies inf.subset_of(a[k]) by {
        lemma_assignment_onto(f, n, k);
        let i = choose|i: int| 0 <= i < n && #[trigger] f[i] as int == k;
        assert(m1[i] == k);
    }
    assert forall|k: int| 0 <= k < b.len() && !#[trigger] m2.contains(k) implies inf.subset_of(b[k]) by {
        lemma_assignment_onto(g, n, k);
        let i = choose|i: int| 0 <= i < n && #[trigger] g[i] as int == k;
        assert(m2[i] == k);
    }
    assert(pairs_into(a, b, n, inf, m1));
    assert(pairs_into(b, a, n, inf, m2));
    lemma_domination_excess(a, b, n, inf, m1);
    lemma_domination_excess(b, a, n, inf, m2);
    lemma_coordinates_split(a, inf@, n);
    lemma_coordinates_split(b, inf@, n);
    let ca = copies_upto(a, inf@, n);
    let cb = copies_upto(b, inf@, n);
    assert(ca.len() == cb.len());
    assert(ca =~= cb);
    assert(coordinates(a) =~= coordinates(b));
}

proof fn lemma_same_fixed_dominates<const C: usize>(a: Seq<BitArray<C>>, b: Seq<BitArray<C>>)
    requires
        coordinates(a) == coordinates(b),
        a.len() <= usize::MAX,
    ensures
        a.len() == b.len(),
        exists|f: Seq<usize>| assigns_into(b, a, f),
    decreases b.len(),
{
    broadcast use vstd::multiset::group_multiset_axioms;
    lemma_coordinates_split(a, seq![], a.len() as int);
    lemma_coordinates_split(b, seq![], b.len() as int);
    if b.len() == 0 {
        assert(assigns_into(b, a, Seq::<usize>::empty()));
        return;
    }
    let n = b.len() as int;
    let x = b[n - 1]@;
    lemma_coordinates_remove(b, n - 1, n);
    assert(b.remove(n - 1) =~= b.drop_last());
    assert(coordinates(a).count(x) > 0);
    lemma_coordinates_contain(a, a.len() as int, x);
    let k = choose|k: int| 0 <= k < a.len() && (#[trigger] a[k])@ == x;
    lemma_coordinates_remove(a, k, a.len() as int);
    let a2 = a.remove(k);
    let b2 = b.drop_last();
    assert(a2.len() == a.len() - 1);
    assert(coordinates(a) == coordinates(a2).insert(x));
    assert(coordinates(b) == coordinates(b2).insert(x));
    assert forall|v: Seq<u64>| #[trigger] coordinates(a2).count(v) == coordinates(b2).count(v) by {
        assert(coordinates(a2).insert(x).count(v) == coordinates(b2).insert(x).count(v));
    }
    assert(coordinates(a2) =~= coordinates(b2));
    lemma_same_fixed_dominates(a2, b2);
    let f2 = choose|f: Seq<usize>| assigns_into(b2, a2, f);
    let f = Seq::new(n as nat, |i: int| if i < n - 1 { if (f2[i] as int) < k { f2[i] } else { (f2[i] + 1) as usize } } else { k as usize });
    assert forall|i: int| 0 <= i < f.len() implies (#[trigger] f[i] as int) < a.len() && b[i].subset_of(a[f[i] as int]) by {
        if i < n - 1 {
            assert(b2[i] == b[i]);
            assert(a2[f2[i] as int] == a[f[i] as int]);
        } else {
            lemma_view_eq(b[i], a[k]);
            lemma_subset(b[i], b[i], b[i]);
        }
    }
    assert forall|i: int, j: int| 0 <= i < j < f.len() implies #[trigger] f[i] != #[trigger] f[j] by {
        if j < n - 1 {
            assert(f2[i] != f2[j]);
        }
    }
    assert(assigns_into(b, a, f));
}

/// Fixed-degree lines dominate each other exactly when they hold the same
/// coordinates, in any order.
pub proof fn lemma_fixed_dominates_antisymmetric<const C: usize>(a: Seq<BitArray<C>>, b: Seq<BitArray<C>>)
    requires
        a.len() <= usize::MAX,
        b.len() <= usize::MAX,
    ensures
        (fixed_dominates(a, b) && fixed_dominates(b, a)) == (coordinates(a) == coordinates(b)),
{
    if fixed_dominates(a, b) && fixed_dominates(b, a) {
        lemma_mutual_fixed_same(a, b);
    }
    if coordinates(a) == coordinates(b) {
        lemma_same_fixed_dominates(a, b);
        lemma_same_fixed_dominates(b, a);
    }
}

/// Whether `side_b` dominates `side_a`, two lines of degree `D`.
pub fn is_inferior_to<const C: usize, const D: usize>(
    side_a: &[BitArray<C>; D],
    side_b: &[BitArray<C>; D],
) -> (r: bool)
    ensures
        r == fixed_dominates(side_b@, side_a@),
{
    let mut neighbors_a: Vec<Vec<usize>> = Vec::new();
    let mut i: usize = 0;
    while i < D
        invariant
            i <= D,
            neighbors_a@.len() == i,
            forall|x: int, n: usize|
                0 <= x < i ==> (#[trigger] neighbors_a@[x]@.contains(n) <==> ((n as int) < D
                    && side_a@[x].subset_of(side_b@[n as int]))),
            forall|x: int, k: int|
                0 <= x < i && 0 <= k < neighbors_a@[x]@.len() ==> (#[trigger] neighbors_a@[x]@[k] as int)
                    < D,
        decreases D - i,
    {
        let mut row: Vec<usize> = Vec::new();
        let mut j: usize = 0;
        while j < D
            invariant
                i < D,
                j <= D,
                forall|n: usize| #[trigger]
                    row@.contains(n) <==> ((n as int) < j && side_a@[i as int].subset_of(side_b@[n as int])),
            decreases D - j,
        {
            let ghost prev = row@;
            if side_a[i].is_subset_of(&side_b[j]) {
                row.push(j);
            }
            assert forall|n: usize| #[trigger]
                row@.contains(n) <==> ((n as int) < j + 1 && side_a@[i as int].subset_of(
                    side_b@[n as int],
                )) by {
                if row@.len() > prev.len() {
                    assert(row@ == prev.push(j));
                    assert(row@[prev.len() as int] == j);
                    if prev.contains(n) {
                        let t = choose|t: int| 0 <= t < prev.len() && prev[t] == n;
                        assert(row@[t] == n);
                    }
                    if row@.contains(n) && n != j {
                        let t = choose|t: int| 0 <= t < row@.len() && row@[t] == n;
                        assert(prev[t] == n);
                    }
                }
            }
            j = j + 1;
        }
        assert forall|k: int| 0 <= k < row@.len() implies (#[trigger] row@[k] as int) < D by {
            assert(row@.contains(row@[k]));
        }
        neighbors_a.push(row);
        i = i + 1;
    }
    let ghost adj = graph_of(neighbors_a@);
    assert(well_formed(adj));
    let r = maximum_matching_simple(neighbors_a.as_slice());
    proof {
        if has_perfect_matching(adj) {
            let f = choose|f: Seq<usize>| is_saturating(adj, f);
            assert forall|x: int| 0 <= x < f.len() implies (#[trigger] f[x] as int) < D
                && side_a@[x].subset_of(side_b@[f[x] as int]) by {
                assert(adj[x].contains(f[x]));
                assert(neighbors_a@[x]@.contains(f[x]));
            }
            assert(assigns_into(side_a@, side_b@, f));
        }
        if fixed_dominates(side_b@, side_a@) {
            let f = choose|f: Seq<usize>| assigns_into(side_a@, side_b@, f);
            assert forall|x: int| 0 <= x < f.len() implies #[trigger] adj[x].contains(f[x]) by {
                assert(side_a@[x].subset_of(side_b@[f[x] as int]));
                assert(neighbors_a@[x]@.contains(f[x]));
            }
            assert(is_saturating(adj, f));
        }
    }
    r
}


/// A vertex `a` of side A is matched: its partner points back to it.
pub open spec fn is_matched(pb: Seq<Option<usize>>, pa: Seq<usize>, a: int) -> bool {
    (pa[a] as int) < pb.len() && pb[pa[a] as int] == Some(a as usize)
}

/// `pb` and `pa` describe a matching of the graph, and `free` lists the
/// unmatched vertices of side A, each once.
pub open spec fn matching_inv(adj: Seq<Seq<usize>>, pb: Seq<Option<usize>>, pa: Seq<usize>, free: Seq<usize>) -> bool {
    &&& adj.len() <= usize::MAX
    &&& pb.len() == adj.len()
    &&& pa.len() == adj.len()
    &&& forall|b: int|
        0 <= b < pb.len() && (#[trigger] pb[b]).is_some() ==> (pb[b].unwrap() as int) < adj.len() && pa[pb[b].unwrap() as int]
            == b && adj[pb[b].unwrap() as int].contains(b as usize)
    &&& forall|a: int| 0 <= a < adj.len() ==> (free.contains(a as usize) <==> !#[trigger] is_matched(pb, pa, a))
    &&& forall|i: int| 0 <= i < free.len() ==> (#[trigger] free[i] as int) < adj.len()
    &&& forall|i: int, j: int| 0 <= i < j < free.len() ==> #[trigger] free[i] != #[trigger] free[j]
}

/// `q` is an augmenting path read from its end: `q[0]` is adjacent to the
/// free vertex `end_b`, each `q[t + 1]` is adjacent to the partner of `q[t]`,
/// and the last vertex is free.
pub open spec fn is_augmenting(adj: Seq<Seq<usize>>, pb: Seq<Option<usize>>, pa: Seq<usize>, q: Seq<usize>, end_b: usize) -> bool {
    &&& q.len() > 0
    &&& (end_b as int) < adj.len()
    &&& pb[end_b as int].is_none()
    &&& adj[q[0] as int].contains(end_b)
    &&& forall|t: int| 0 <= t < q.len() ==> (#[trigger] q[t] as int) < adj.len()
    &&& forall|t: int, u: int| 0 <= t < u < q.len() ==> #[trigger] q[t] != #[trigger] q[u]
    &&& forall|t: int| 0 <= t < q.len() - 1 ==> is_matched(pb, pa, #[trigger] q[t] as int)
    &&& forall|t: int| 0 <= t < q.len() - 1 ==> adj[#[trigger] q[t + 1] as int].contains(pa[q[t] as int])
    &&& !is_matched(pb, pa, q[q.len() - 1] as int)
}

/// The vertex of side B that `q[t]` is matched to after augmenting.
pub open spec fn new_partner(pa: Seq<usize>, q: Seq<usize>, end_b: usize, t: int) -> usize {
    if t == 0 {
        end_b
    } else {
        pa[q[t - 1] as int]
    }
}

/// Flips the matching along an augmenting path.
fn augment(
    Ghost(adj): Ghost<Seq<Seq<usize>>>,
    pb: &mut Vec<Option<usize>>,
    pa: &mut Vec<usize>,
    q: &Vec<usize>,
    end_b: usize,
    Ghost(free): Ghost<Seq<usize>>,
)
    requires
        matching_inv(adj, old(pb)@, old(pa)@, free),
        is_augmenting(adj, old(pb)@, old(pa)@, q@, end_b),
    ensures
        matching_inv(adj, final(pb)@, final(pa)@, free.remove(free.index_of(q@[q@.len() - 1]))),
{
    let ghost pb0 = pb@;
    let ghost pa0 = pa@;
    let ghost k = q@.len();
    let ghost root = q@[k - 1];
    let mut b = end_b;
    let mut t: usize = 0;
    while t < q.len()
        invariant
            matching_inv(adj, pb0, pa0, free),
            is_augmenting(adj, pb0, pa0, q@, end_b),
            k == q@.len(),
            pb@.len() == pb0.len(),
            pa@.len() == pa0.len(),
            t <= k,
            t < k ==> b == new_partner(pa0, q@, end_b, t as int),
            forall|s: int| 0 <= s < t ==> pa@[#[trigger] q@[s] as int] == new_partner(pa0, q@, end_b, s),
            forall|s: int| 0 <= s < t ==> pb@[new_partner(pa0, q@, end_b, s) as int] == Some(#[trigger] q@[s]),
            forall|a: int| 0 <= a < pa0.len() && (forall|s: int| 0 <= s < t ==> q@[s] != a as usize) ==> #[trigger] pa@[a] == pa0[a],
            forall|x: int|
                0 <= x < pb0.len() && (forall|s: int| 0 <= s < t ==> new_partner(pa0, q@, end_b, s) != x as usize)
                    ==> #[trigger] pb@[x] == pb0[x],
        decreases k - t,
    {
        let a = q[t];
        let old_b = pa[a];
        pb.set(b, Some(a));
        pa.set(a, b);
        b = old_b;
        t = t + 1;
    }
    proof {
        lemma_augmented(adj, pb0, pa0, pb@, pa@, q@, end_b, free);
    }
}

proof fn lemma_new_partners(adj: Seq<Seq<usize>>, pb: Seq<Option<usize>>, pa: Seq<usize>, q: Seq<usize>, end_b: usize, free: Seq<usize>)
    requires
        matching_inv(adj, pb, pa, free),
        is_augmenting(adj, pb, pa, q, end_b),
    ensures
        forall|s: int| 0 <= s < q.len() ==> (#[trigger] new_partner(pa, q, end_b, s) as int) < adj.len()
            && adj[q[s] as int].contains(new_partner(pa, q, end_b, s)),
        forall|s: int| 0 < s < q.len() ==> pb[#[trigger] new_partner(pa, q, end_b, s) as int] == Some(q[s - 1]),
        forall|s: int, s2: int|
            0 <= s < q.len() && 0 <= s2 < q.len() && s != s2 ==> #[trigger] new_partner(pa, q, end_b, s) != #[trigger] new_partner(pa, q, end_b, s2),
{
    assert forall|s: int| 0 < s < q.len() implies pb[#[trigger] new_partner(pa, q, end_b, s) as int] == Some(q[s - 1]) by {
        assert(is_matched(pb, pa, q[s - 1] as int));
    }
    assert forall|s: int| 0 <= s < q.len() implies (#[trigger] new_partner(pa, q, end_b, s) as int) < adj.len()
        && adj[q[s] as int].contains(new_partner(pa, q, end_b, s)) by {
        if s > 0 {
            assert(is_matched(pb, pa, q[s - 1] as int));
            assert(adj[q[(s - 1) + 1] as int].contains(pa[q[s - 1] as int]));
        }
    }
    assert forall|s: int, s2: int|
        0 <= s < q.len() && 0 <= s2 < q.len() && s != s2 implies #[trigger] new_partner(pa, q, end_b, s) != #[trigger] new_partner(pa, q, end_b, s2) by {
        if s > 0 && s2 > 0 {
            assert(is_matched(pb, pa, q[s - 1] as int));
            assert(is_matched(pb, pa, q[s2 - 1] as int));
            assert(q[s - 1] != q[s2 - 1]);
        } else if s > 0 {
            assert(is_matched(pb, pa, q[s - 1] as int));
        } else if s2 > 0 {
            assert(is_matched(pb, pa, q[s2 - 1] as int));
        }
    }
}

proof fn lemma_augmented(
    adj: Seq<Seq<usize>>,
    pb0: Seq<Option<usize>>,
    pa0: Seq<usize>,
    pb1: Seq<Option<usize>>,
    pa1: Seq<usize>,
    q: Seq<usize>,
    end_b: usize,
    free: Seq<usize>,
)
    requires
        matching_inv(adj, pb0, pa0, free),
        is_augmenting(adj, pb0, pa0, q, end_b),
        pb1.len() == pb0.len(),
        pa1.len() == pa0.len(),
        forall|s: int| 0 <= s < q.len() ==> pa1[#[trigger] q[s] as int] == new_partner(pa0, q, end_b, s),
        forall|s: int| 0 <= s < q.len() ==> pb1[new_partner(pa0, q, end_b, s) as int] == Some(#[trigger] q[s]),
        forall|a: int| 0 <= a < pa0.len() && (forall|s: int| 0 <= s < q.len() ==> q[s] != a as usize) ==> #[trigger] pa1[a] == pa0[a],
        forall|x: int|
            0 <= x < pb0.len() && (forall|s: int| 0 <= s < q.len() ==> new_partner(pa0, q, end_b, s) != x as usize)
                ==> #[trigger] pb1[x] == pb0[x],
    ensures
        matching_inv(adj, pb1, pa1, free.remove(free.index_of(q[q.len() - 1]))),
{
    lemma_aug_pairs(adj, pb0, pa0, pb1, pa1, q, end_b, free);
    lemma_aug_free(adj, pb0, pa0, pb1, pa1, q, end_b, free);
}

proof fn lemma_aug_pairs(
    adj: Seq<Seq<usize>>,
    pb0: Seq<Option<usize>>,
    pa0: Seq<usize>,
    pb1: Seq<Option<usize>>,
    pa1: Seq<usize>,
    q: Seq<usize>,
    end_b: usize,
    free: Seq<usize>,
)
    requires
        matching_inv(adj, pb0, pa0, free),
        is_augmenting(adj, pb0, pa0, q, end_b),
        pb1.len() == pb0.len(),
        pa1.len() == pa0.len(),
        forall|s: int| 0 <= s < q.len() ==> pa1[#[trigger] q[s] as int] == new_partner(pa0, q, end_b, s),
        forall|s: int| 0 <= s < q.len() ==> pb1[new_partner(pa0, q, end_b, s) as int] == Some(#[trigger] q[s]),
        forall|a: int| 0 <= a < pa0.len() && (forall|s: int| 0 <= s < q.len() ==> q[s] != a as usize) ==> #[trigger] pa1[a] == pa0[a],
        forall|x: int|
            0 <= x < pb0.len() && (forall|s: int| 0 <= s < q.len() ==> new_partner(pa0, q, end_b, s) != x as usize)
                ==> #[trigger] pb1[x] == pb0[x],
    ensures
        forall|b: int|
            0 <= b < pb1.len() && (#[trigger] pb1[b]).is_some() ==> (pb1[b].unwrap() as int) < adj.len() && pa1[pb1[b].unwrap() as int]
                == b && adj[pb1[b].unwrap() as int].contains(b as usize),
{
    lemma_new_partners(adj, pb0, pa0, q, end_b, free);
    let k = q.len();
    let root = q[k - 1];
    assert(free.contains(root));
    let ri = free.index_of(root);
    let free1 = free.remove(ri);
    assert forall|b: int|
        0 <= b < pb1.len() && (#[trigger] pb1[b]).is_some() implies (pb1[b].unwrap() as int) < adj.len() && pa1[pb1[b].unwrap() as int]
            == b && adj[pb1[b].unwrap() as int].contains(b as usize) by {
        if exists|s: int| 0 <= s < k && new_partner(pa0, q, end_b, s) == b as usize {
            let s = choose|s: int| 0 <= s < k && new_partner(pa0, q, end_b, s) == b as usize;
            assert(pb1[b] == Some(q[s]));
        } else {
            assert(pb1[b] == pb0[b]);
            let a = pb0[b].unwrap() as int;
            if exists|s: int| 0 <= s < k && q[s] == a as usize {
                let s = choose|s: int| 0 <= s < k && q[s] == a as usize;
                if s < k - 1 {
                    assert(new_partner(pa0, q, end_b, s + 1) == pa0[q[s] as int]);
                } else {
                    assert(is_matched(pb0, pa0, a));
                }
            }
        }
    }
}

#[verifier::rlimit(100)]
proof fn lemma_aug_free(
    adj: Seq<Seq<usize>>,
    pb0: Seq<Option<usize>>,
    pa0: Seq<usize>,
    pb1: Seq<Option<usize>>,
    pa1: Seq<usize>,
    q: Seq<usize>,
    end_b: usize,
    free: Seq<usize>,
)
    requires
        matching_inv(adj, pb0, pa0, free),
        is_augmenting(adj, pb0, pa0, q, end_b),
        pb1.len() == pb0.len(),
        pa1.len() == pa0.len(),
        forall|s: int| 0 <= s < q.len() ==> pa1[#[trigger] q[s] as int] == new_partner(pa0, q, end_b, s),
        forall|s: int| 0 <= s < q.len() ==> pb1[new_partner(pa0, q, end_b, s) as int] == Some(#[trigger] q[s]),
        forall|a: int| 0 <= a < pa0.len() && (forall|s: int| 0 <= s < q.len() ==> q[s] != a as usize) ==> #[trigger] pa1[a] == pa0[a],
        forall|x: int|
            0 <= x < pb0.len() && (forall|s: int| 0 <= s < q.len() ==> new_partner(pa0, q, end_b, s) != x as usize)
                ==> #[trigger] pb1[x] == pb0[x],
    ensures
        ({
            let free1 = free.remove(free.index_of(q[q.len() - 1]));
            &&& forall|a: int| 0 <= a < adj.len() ==> (free1.contains(a as usize) <==> !#[trigger] is_matched(pb1, pa1, a))
            &&& forall|i: int| 0 <= i < free1.len() ==> (#[trigger] free1[i] as int) < adj.len()
            &&& forall|i: int, j: int| 0 <= i < j < free1.len() ==> #[trigger] free1[i] != #[trigger] free1[j]
        }),
{
    lemma_new_partners(adj, pb0, pa0, q, end_b, free);
    let k = q.len();
    let root = q[k - 1];
    assert(free.contains(root));
    let ri = free.index_of(root);
    let free1 = free.remove(ri);
    assert forall|a: int| 0 <= a < adj.len() implies (free1.contains(a as usize) <==> !#[trigger] is_matched(pb1, pa1, a)) by {
        if exists|s: int| 0 <= s < k && q[s] == a as usize {
            let s = choose|s: int| 0 <= s < k && q[s] == a as usize;
            assert(pb1[new_partner(pa0, q, end_b, s) as int] == Some(q[s]));
            assert(is_matched(pb1, pa1, a));
            if free1.contains(a as usize) {
                let i = choose|i: int| 0 <= i < free1.len() && free1[i] == a as usize;
                let i0 = if i < ri { i } else { i + 1 };
                assert(free[i0] == a as usize);
                if s < k - 1 {
                    assert(is_matched(pb0, pa0, q[s] as int));
                } else {
                    assert(free[ri] == root);
                }
            }
        } else {
            assert(pa1[a] == pa0[a]);
            if exists|s: int| 0 <= s < k && new_partner(pa0, q, end_b, s) == pa0[a] {
                let s = choose|s: int| 0 <= s < k && new_partner(pa0, q, end_b, s) == pa0[a];
                assert(pb1[pa0[a] as int] == Some(q[s]));
                assert(!is_matched(pb1, pa1, a));
                assert(!is_matched(pb0, pa0, a));
            } else {
                if (pa0[a] as int) < pb0.len() {
                    assert(pb1[pa0[a] as int] == pb0[pa0[a] as int]);
                }
                assert(is_matched(pb1, pa1, a) == is_matched(pb0, pa0, a));
            }
            if free.contains(a as usize) {
                let i = choose|i: int| 0 <= i < free.len() && free[i] == a as usize;
                assert(i != ri);
                let i1 = if i < ri { i } else { i - 1 };
                assert(free1[i1] == a as usize);
            }
            if free1.contains(a as usize) {
                let i = choose|i: int| 0 <= i < free1.len() && free1[i] == a as usize;
                let i0 = if i < ri { i } else { i + 1 };
                assert(free[i0] == a as usize);
            }
        }
    }
    assert forall|i: int, j: int| 0 <= i < j < free1.len() implies #[trigger] free1[i] != #[trigger] free1[j] by {
        let i0 = if i < ri { i } else { i + 1 };
        let j0 = if j < ri { j } else { j + 1 };
        assert(free1[i] == free[i0] && free1[j] == free[j0]);
    }
    assert forall|i: int| 0 <= i < free1.len() implies (#[trigger] free1[i] as int) < adj.len() by {
        let i0 = if i < ri { i } else { i + 1 };
        assert(free1[i] == free[i0]);
    }
}


/// An injection from a finite set into a finite set cannot shrink it.
proof fn lemma_injection_size(x: Set<int>, y: Set<int>, f: spec_fn(int) -> int)
    requires
        x.finite(),
        y.finite(),
        forall|a: int| x.contains(a) ==> y.contains(#[trigger] f(a)),
        forall|a1: int, a2: int| x.contains(a1) && x.contains(a2) && #[trigger] f(a1) == #[trigger] f(a2) ==> a1 == a2,
    ensures
        x.len() <= y.len(),
{
    assert(injective_on(f, x));
    lemma_map_size(x, x.map(f), f);
    assert(x.map(f).subset_of(y));
    lemma_len_subset(x.map(f), y);
}

/// A sequence of distinct values below `n` has at most `n` entries.
proof fn lemma_distinct_bound(s: Seq<usize>, n: int)
    requires
        0 <= n,
        forall|i: int| 0 <= i < s.len() ==> (#[trigger] s[i] as int) < n,
        forall|i: int, j: int| 0 <= i < j < s.len() ==> #[trigger] s[i] != #[trigger] s[j],
    ensures
        s.len() <= n,
{
    lemma_int_range(0, s.len() as int);
    lemma_int_range(0, n);
    assert forall|a1: int, a2: int|
        set_int_range(0, s.len() as int).contains(a1) && set_int_range(0, s.len() as int).contains(a2)
            && #[trigger] (s[a1] as int) == #[trigger] (s[a2] as int) implies a1 == a2 by {
        if a1 < a2 {
            assert(s[a1] != s[a2]);
        } else if a2 < a1 {
            assert(s[a2] != s[a1]);
        }
    }
    lemma_injection_size(set_int_range(0, s.len() as int), set_int_range(0, n), |i: int| s[i] as int);
}

/// When every neighbour of a set of A vertices that holds a free vertex is
/// matched back into the set, the set has fewer neighbours than members, so
/// side A cannot be matched completely.
proof fn lemma_hall_violation(
    adj: Seq<Seq<usize>>,
    pb: Seq<Option<usize>>,
    pa: Seq<usize>,
    free: Seq<usize>,
    reached: Seq<usize>,
)
    requires
        well_formed(adj),
        matching_inv(adj, pb, pa, free),
        free.len() > 0,
        forall|i: int| 0 <= i < free.len() ==> reached.contains(#[trigger] free[i]),
        forall|i: int| 0 <= i < reached.len() ==> (#[trigger] reached[i] as int) < adj.len(),
        forall|i: int, b: usize|
            0 <= i < reached.len() && #[trigger] adj[reached[i] as int].contains(b) ==> pb[b as int].is_some()
                && reached.contains(pb[b as int].unwrap()),
    ensures
        !has_perfect_matching(adj),
{
    let n = adj.len() as int;
    let s = Set::new(|a: int| 0 <= a < n && reached.contains(a as usize));
    let nb = Set::new(|b: int| 0 <= b < n && exists|a: int| s.contains(a) && #[trigger] adj[a].contains(b as usize));
    lemma_int_range(0, n);
    assert(s.subset_of(set_int_range(0, n)));
    assert(nb.subset_of(set_int_range(0, n)));
    lemma_len_subset(s, set_int_range(0, n));
    lemma_len_subset(nb, set_int_range(0, n));
    let f0 = free[0] as int;
    assert(s.contains(f0));
    assert forall|b: int| nb.contains(b) implies s.remove(f0).contains(#[trigger] (pb[b].unwrap() as int)) by {
        let a = choose|a: int| s.contains(a) && #[trigger] adj[a].contains(b as usize);
        let i = choose|i: int| 0 <= i < reached.len() && reached[i] == a as usize;
        assert(adj[reached[i] as int].contains(b as usize));
        let a2 = pb[b].unwrap();
        let j = choose|j: int| 0 <= j < reached.len() && reached[j] == a2;
        assert(is_matched(pb, pa, a2 as int));
        assert(free.contains(free[0]));
    }
    assert forall|b1: int, b2: int|
        nb.contains(b1) && nb.contains(b2) && #[trigger] (pb[b1].unwrap() as int) == #[trigger] (pb[b2].unwrap() as int) implies b1 == b2 by {
        let a = choose|a: int| s.contains(a) && #[trigger] adj[a].contains(b1 as usize);
        let i = choose|i: int| 0 <= i < reached.len() && reached[i] == a as usize;
        assert(adj[reached[i] as int].contains(b1 as usize));
        let a2 = choose|a: int| s.contains(a) && #[trigger] adj[a].contains(b2 as usize);
        let i2 = choose|i: int| 0 <= i < reached.len() && reached[i] == a2 as usize;
        assert(adj[reached[i2] as int].contains(b2 as usize));
    }
    lemma_injection_size(nb, s.remove(f0), |b: int| pb[b].unwrap() as int);
    if has_perfect_matching(adj) {
        let f = choose|f: Seq<usize>| is_saturating(adj, f);
        assert forall|a: int| s.contains(a) implies nb.contains(#[trigger] (f[a] as int)) by {
            assert(adj[a].contains(f[a]));
            lemma_neighbor_bound(adj, a, f[a]);
        }
        assert forall|a1: int, a2: int|
            s.contains(a1) && s.contains(a2) && #[trigger] (f[a1] as int) == #[trigger] (f[a2] as int) implies a1 == a2 by {
            if a1 < a2 {
                assert(f[a1] != f[a2]);
            } else if a2 < a1 {
                assert(f[a2] != f[a1]);
            }
        }
        lemma_injection_size(s, nb, |a: int| f[a] as int);
    }
}

/// Whether `a` is matched.
fn matched_exec(pb: &Vec<Option<usize>>, pa: &Vec<usize>, a: usize) -> (r: bool)
    requires
        (a as int) < pa@.len(),
    ensures
        r == is_matched(pb@, pa@, a as int),
{
    let b = pa[a];
    if b < pb.len() {
        match pb[b] {
            Some(x) => x == a,
            None => false,
        }
    } else {
        false
    }
}

/// Builds, breadth first from every free vertex of side A, the forest of
/// alternating paths, in layers; returns one augmenting path, read from its
/// end, for each free vertex of side B that the forest reaches, shortest
/// first. None is returned exactly when no augmenting path exists.
fn augmenting_paths(
    neighbors_a: &[Vec<usize>],
    pb: &Vec<Option<usize>>,
    pa: &Vec<usize>,
    free: &Vec<usize>,
) -> (r: Vec<(Vec<usize>, usize)>)
    requires
        well_formed(graph_of(neighbors_a@)),
        matching_inv(graph_of(neighbors_a@), pb@, pa@, free@),
        free@.len() > 0,
    ensures
        forall|i: int| 0 <= i < r@.len() ==> is_augmenting(graph_of(neighbors_a@), pb@, pa@, (#[trigger] r@[i]).0@, r@[i].1),
        r@.len() == 0 ==> !has_perfect_matching(graph_of(neighbors_a@)),
{
    let ghost adj = graph_of(neighbors_a@);
    let n = neighbors_a.len();
    let mut layered: Vec<bool> = Vec::new();
    let mut parent: Vec<usize> = Vec::new();
    let ghost mut dist: Seq<int> = Seq::new(n as nat, |a: int| 0int);
    let mut x: usize = 0;
    while x < n
        invariant
            x <= n,
            layered@ == Seq::new(x as nat, |a: int| false),
            parent@.len() == x,
        decreases n - x,
    {
        layered.push(false);
        parent.push(0);
        x = x + 1;
    }
    let mut claimed: Vec<bool> = Vec::new();
    let mut x: usize = 0;
    while x < n
        invariant
            x <= n,
            claimed@ == Seq::new(x as nat, |i: int| false),
        decreases n - x,
    {
        claimed.push(false);
        x = x + 1;
    }
    let mut ends: Vec<(usize, usize)> = Vec::new();
    let mut queue: Vec<usize> = Vec::new();
    let mut i: usize = 0;
    while i < free.len()
        invariant
            n == adj.len(),
            matching_inv(adj, pb@, pa@, free@),
            i <= free@.len(),
            queue@ == free@.subrange(0, i as int),
            claimed@ == Seq::new(n as nat, |i: int| false),
            ends@.len() == 0,
            layered@.len() == n,
            parent@.len() == n,
            dist.len() == n,
            forall|a: int| 0 <= a < n ==> (#[trigger] layered@[a] <==> queue@.contains(a as usize)),
            forall|a: int| 0 <= a < n ==> #[trigger] dist[a] == 0,
        decreases free@.len() - i,
    {
        let a = free[i];
        let ghost before = queue@;
        queue.push(a);
        layered.set(a, true);
        assert forall|a2: int| 0 <= a2 < n implies (#[trigger] layered@[a2] <==> queue@.contains(a2 as usize)) by {
            if before.contains(a2 as usize) {
                let t = choose|t: int| 0 <= t < before.len() && before[t] == a2 as usize;
                assert(queue@[t] == a2 as usize);
            }
            if queue@.contains(a2 as usize) && a2 != a {
                let t = choose|t: int| 0 <= t < queue@.len() && queue@[t] == a2 as usize;
                assert(before[t] == a2 as usize);
            }
            if a2 == a {
                assert(queue@[i as int] == a);
            }
        }
        i = i + 1;
    }
    assert(queue@ =~= free@);
    assert forall|a: int| 0 <= a < n && layered@[a] && dist[a] == 0 implies !#[trigger] is_matched(pb@, pa@, a) by {
        assert(free@.contains(a as usize));
    }
    let mut head: usize = 0;
    while head < queue.len()
        invariant
            n == adj.len(),
            n == neighbors_a@.len(),
            well_formed(adj),
            adj == graph_of(neighbors_a@),
            matching_inv(adj, pb@, pa@, free@),
            free@.len() > 0,
            head <= queue@.len(),
            layered@.len() == n,
            dist.len() == n,
            parent@.len() == n,
            forall|t: int| 0 <= t < free@.len() ==> queue@.contains(#[trigger] free@[t]),
            forall|t: int| 0 <= t < queue@.len() ==> (#[trigger] queue@[t] as int) < n,
            forall|t: int, u: int| 0 <= t < u < queue@.len() ==> #[trigger] queue@[t] != #[trigger] queue@[u],
            forall|a: int| 0 <= a < n ==> (#[trigger] layered@[a] <==> queue@.contains(a as usize)),
            forall|a: int| 0 <= a < n && layered@[a] && dist[a] == 0 ==> !#[trigger] is_matched(pb@, pa@, a),
            forall|a: int|
                0 <= a < n && layered@[a] && #[trigger] dist[a] != 0 ==> dist[a] > 0 && is_matched(pb@, pa@, a) && (parent@[a] as int) < n
                    && layered@[parent@[a] as int] && dist[parent@[a] as int] + 1 == dist[a] && adj[parent@[a] as int].contains(
                    pa@[a],
                ),
            claimed@.len() == n,
            forall|x: int| 0 <= x < n && #[trigger] claimed@[x] ==> ends@.len() > 0,
            forall|e: int|
                0 <= e < ends@.len() ==> (#[trigger] ends@[e]).0 < n && ends@[e].1 < n && layered@[ends@[e].0 as int]
                    && adj[ends@[e].0 as int].contains(ends@[e].1) && pb@[ends@[e].1 as int].is_none(),
            ends@.len() == 0 ==> forall|t: int, b: usize|
                0 <= t < head && #[trigger] adj[queue@[t] as int].contains(b) ==> pb@[b as int].is_some()
                    && queue@.contains(pb@[b as int].unwrap()),
        decreases 2 * n - head - queue@.len(),
    {
        proof {
            lemma_distinct_bound(queue@, n as int);
        }
        let a = queue[head];
        let row = &neighbors_a[a];
        assert(row@ == adj[a as int]);
        let mut k: usize = 0;
        let ghost queue0 = queue@;
        while k < row.len()
            invariant
                n == adj.len(),
                adj == graph_of(neighbors_a@),
                well_formed(adj),
                matching_inv(adj, pb@, pa@, free@),
                head < queue0.len(),
                queue@.len() >= queue0.len(),
                a == queue0[head as int],
                (a as int) < n,
                row@ == adj[a as int],
                layered@.len() == n,
                dist.len() == n,
                parent@.len() == n,
                layered@[a as int],
                forall|t: int| 0 <= t < queue0.len() ==> #[trigger] queue@[t] == queue0[t],
                forall|t: int| 0 <= t < free@.len() ==> queue@.contains(#[trigger] free@[t]),
                forall|t: int| 0 <= t < queue@.len() ==> (#[trigger] queue@[t] as int) < n,
                forall|t: int, u: int| 0 <= t < u < queue@.len() ==> #[trigger] queue@[t] != #[trigger] queue@[u],
                forall|a2: int| 0 <= a2 < n ==> (#[trigger] layered@[a2] <==> queue@.contains(a2 as usize)),
                forall|a2: int| 0 <= a2 < n && layered@[a2] && dist[a2] == 0 ==> !#[trigger] is_matched(pb@, pa@, a2),
                forall|a2: int|
                    0 <= a2 < n && layered@[a2] && #[trigger] dist[a2] != 0 ==> dist[a2] > 0 && is_matched(pb@, pa@, a2)
                        && (parent@[a2] as int) < n && layered@[parent@[a2] as int] && dist[parent@[a2] as int] + 1 == dist[a2]
                        && adj[parent@[a2] as int].contains(pa@[a2]),
                claimed@.len() == n,
                forall|x: int| 0 <= x < n && #[trigger] claimed@[x] ==> ends@.len() > 0,
                forall|e: int|
                    0 <= e < ends@.len() ==> (#[trigger] ends@[e]).0 < n && ends@[e].1 < n && layered@[ends@[e].0 as int]
                        && adj[ends@[e].0 as int].contains(ends@[e].1) && pb@[ends@[e].1 as int].is_none(),
                ends@.len() == 0 ==> forall|t: int, b: usize|
                    0 <= t < head && #[trigger] adj[queue0[t] as int].contains(b) ==> pb@[b as int].is_some()
                        && queue@.contains(pb@[b as int].unwrap()),
                ends@.len() == 0 ==> forall|j: int| 0 <= j < k ==> pb@[#[trigger] row@[j] as int].is_some() && queue@.contains(pb@[row@[j] as int].unwrap()),
            decreases row@.len() - k,
        {
            let b = row[k];
            assert(adj[a as int][k as int] == b);
            assert(adj[a as int].contains(b));
            proof {
                lemma_neighbor_bound(adj, a as int, b);
            }
            match pb[b] {
                None => {
                    if !claimed[b] {
                        claimed.set(b, true);
                        ends.push((a, b));
                        assert(ends@[ends@.len() - 1] == (a, b));
                    }
                },
                Some(a2) => {
                    if !layered[a2] {
                        let ghost before = queue@;
                        queue.push(a2);
                        layered.set(a2, true);
                        parent.set(a2, a);
                        proof {
                            dist = dist.update(a2 as int, dist[a as int] + 1);
                            assert(queue@[before.len() as int] == a2);
                            assert(is_matched(pb@, pa@, a2 as int));
                            assert forall|a3: int| 0 <= a3 < n implies (#[trigger] layered@[a3] <==> queue@.contains(a3 as usize)) by {
                                if before.contains(a3 as usize) {
                                    let t = choose|t: int| 0 <= t < before.len() && before[t] == a3 as usize;
                                    assert(queue@[t] == a3 as usize);
                                }
                                if queue@.contains(a3 as usize) && a3 != a2 {
                                    let t = choose|t: int| 0 <= t < queue@.len() && queue@[t] == a3 as usize;
                                    assert(before[t] == a3 as usize);
                                }
                            }
                            assert forall|t: int| 0 <= t < free@.len() implies queue@.contains(#[trigger] free@[t]) by {
                                assert(before.contains(free@[t]));
                                let u = choose|u: int| 0 <= u < before.len() && before[u] == free@[t];
                                assert(queue@[u] == free@[t]);
                            }
                            assert forall|t: int, u: int| 0 <= t < u < queue@.len() implies #[trigger] queue@[t] != #[trigger] queue@[u] by {
                                if u == before.len() {
                                    assert(before.contains(queue@[t]));
                                }
                            }
                            assert forall|t: int, b2: usize|
                                ends@.len() == 0 && 0 <= t < head && #[trigger] adj[queue0[t] as int].contains(b2) implies pb@[b2 as int].is_some()
                                    && queue@.contains(pb@[b2 as int].unwrap()) by {
                                let y = pb@[b2 as int].unwrap();
                                assert(before.contains(y));
                                let u = choose|u: int| 0 <= u < before.len() && before[u] == y;
                                assert(queue@[u] == y);
                            }
                            assert forall|j: int| ends@.len() == 0 && 0 <= j < k + 1 implies pb@[#[trigger] row@[j] as int].is_some()
                                && queue@.contains(pb@[row@[j] as int].unwrap()) by {
                                if j < k {
                                    let y = pb@[row@[j] as int].unwrap();
                                    assert(before.contains(y));
                                    let u = choose|u: int| 0 <= u < before.len() && before[u] == y;
                                    assert(queue@[u] == y);
                                }
                            }
                        }
                    } else {
                        assert(queue@.contains(a2));
                    }
                },
            }
            k = k + 1;
        }
        assert forall|t: int, b: usize|
            ends@.len() == 0 && 0 <= t < head + 1 && #[trigger] adj[queue@[t] as int].contains(b) implies pb@[b as int].is_some()
                && queue@.contains(pb@[b as int].unwrap()) by {
            assert(queue@[t] == queue0[t]);
            if t == head {
                let j = choose|j: int| 0 <= j < row@.len() && row@[j] == b;
            }
        }
        head = head + 1;
        proof {
            lemma_distinct_bound(queue@, n as int);
        }
    }
    let mut paths: Vec<(Vec<usize>, usize)> = Vec::new();
    let mut e: usize = 0;
    while e < ends.len()
        invariant
            n == adj.len(),
            matching_inv(adj, pb@, pa@, free@),
            layered@.len() == n,
            dist.len() == n,
            parent@.len() == n,
            e <= ends@.len(),
            paths@.len() == e,
            forall|e2: int|
                0 <= e2 < ends@.len() ==> (#[trigger] ends@[e2]).0 < n && ends@[e2].1 < n && layered@[ends@[e2].0 as int]
                    && adj[ends@[e2].0 as int].contains(ends@[e2].1) && pb@[ends@[e2].1 as int].is_none(),
            forall|a2: int| 0 <= a2 < n && layered@[a2] && dist[a2] == 0 ==> !#[trigger] is_matched(pb@, pa@, a2),
            forall|a2: int|
                0 <= a2 < n && layered@[a2] && #[trigger] dist[a2] != 0 ==> dist[a2] > 0 && is_matched(pb@, pa@, a2)
                    && (parent@[a2] as int) < n && layered@[parent@[a2] as int] && dist[parent@[a2] as int] + 1 == dist[a2]
                    && adj[parent@[a2] as int].contains(pa@[a2]),
            forall|i2: int| 0 <= i2 < e ==> is_augmenting(adj, pb@, pa@, (#[trigger] paths@[i2]).0@, paths@[i2].1),
        decreases ends@.len() - e,
    {
        let (a, b) = ends[e];
        let q = trace_path(Ghost(adj), Ghost(dist), pb, pa, &layered, &parent, Ghost(free@), a, b);
        paths.push((q, b));
        assert(paths@[e as int].0@ == q@);
        e = e + 1;
    }
    proof {
        if ends@.len() == 0 {
            lemma_hall_violation(adj, pb@, pa@, free@, queue@);
        }
    }
    paths
}

/// Follows the forest from `a` back to a free vertex of side A.
fn trace_path(
    Ghost(adj): Ghost<Seq<Seq<usize>>>,
    Ghost(dist): Ghost<Seq<int>>,
    pb: &Vec<Option<usize>>,
    pa: &Vec<usize>,
    layered: &Vec<bool>,
    parent: &Vec<usize>,
    Ghost(free): Ghost<Seq<usize>>,
    a: usize,
    b: usize,
) -> (q: Vec<usize>)
    requires
        matching_inv(adj, pb@, pa@, free),
        layered@.len() == adj.len(),
        dist.len() == adj.len(),
        parent@.len() == adj.len(),
        (a as int) < adj.len(),
        layered@[a as int],
        (b as int) < adj.len(),
        adj[a as int].contains(b),
        pb@[b as int].is_none(),
        forall|a2: int| 0 <= a2 < adj.len() && layered@[a2] && dist[a2] == 0 ==> !#[trigger] is_matched(pb@, pa@, a2),
        forall|a2: int|
            0 <= a2 < adj.len() && layered@[a2] && #[trigger] dist[a2] != 0 ==> dist[a2] > 0 && is_matched(pb@, pa@, a2)
                && (parent@[a2] as int) < adj.len() && layered@[parent@[a2] as int] && dist[parent@[a2] as int] + 1 == dist[a2]
                && adj[parent@[a2] as int].contains(pa@[a2]),
    ensures
        is_augmenting(adj, pb@, pa@, q@, b),
{
    let ghost n = adj.len();
    let mut q: Vec<usize> = Vec::new();
    q.push(a);
    let mut cur = a;
    while matched_exec(pb, pa, cur)
        invariant
            n == adj.len(),
            matching_inv(adj, pb@, pa@, free),
            layered@.len() == n,
            dist.len() == n,
            parent@.len() == n,
            pa@.len() == n,
            (cur as int) < n,
            layered@[cur as int],
            q@.len() > 0,
            q@[0] == a,
            q@[q@.len() - 1] == cur,
            forall|t: int| 0 <= t < q@.len() ==> (#[trigger] q@[t] as int) < n && layered@[q@[t] as int],
            forall|t: int| 0 <= t < q@.len() ==> dist[#[trigger] q@[t] as int] + t == dist[a as int],
            forall|t: int| 0 <= t < q@.len() - 1 ==> is_matched(pb@, pa@, #[trigger] q@[t] as int),
            forall|t: int| 0 <= t < q@.len() - 1 ==> adj[#[trigger] q@[t + 1] as int].contains(pa@[q@[t] as int]),
            forall|a2: int| 0 <= a2 < n && layered@[a2] && dist[a2] == 0 ==> !#[trigger] is_matched(pb@, pa@, a2),
            forall|a2: int|
                0 <= a2 < n && layered@[a2] && #[trigger] dist[a2] != 0 ==> dist[a2] > 0 && is_matched(pb@, pa@, a2)
                    && (parent@[a2] as int) < n && layered@[parent@[a2] as int] && dist[parent@[a2] as int] + 1
                    == dist[a2] && adj[parent@[a2] as int].contains(pa@[a2]),
        decreases dist[cur as int],
    {
        let p = parent[cur];
        let ghost before = q@;
        q.push(p);
        assert(q@[before.len() - 1] == cur);
        cur = p;
    }
    proof {
        assert forall|t: int, u: int| 0 <= t < u < q@.len() implies #[trigger] q@[t] != #[trigger] q@[u] by {
            assert(dist[q@[t] as int] + t == dist[a as int]);
            assert(dist[q@[u] as int] + u == dist[a as int]);
        }
    }
    q
}




/// Whether `q` is an augmenting path to `end_b` for the current matching.
fn is_augmenting_exec(
    neighbors_a: &[Vec<usize>],
    pb: &Vec<Option<usize>>,
    pa: &Vec<usize>,
    q: &Vec<usize>,
    end_b: usize,
) -> (r: bool)
    requires
        pb@.len() == neighbors_a@.len(),
        pa@.len() == neighbors_a@.len(),
    ensures
        r == is_augmenting(graph_of(neighbors_a@), pb@, pa@, q@, end_b),
{
    let ghost adj = graph_of(neighbors_a@);
    let n = neighbors_a.len();
    if q.len() == 0 || end_b >= n {
        return false;
    }
    if pb[end_b].is_some() {
        return false;
    }
    let mut t: usize = 0;
    while t < q.len()
        invariant
            t <= q@.len(),
            n == adj.len(),
            adj == graph_of(neighbors_a@),
            forall|u: int| 0 <= u < t ==> (#[trigger] q@[u] as int) < n,
            forall|u: int, w: int| 0 <= u < w < t ==> #[trigger] q@[u] != #[trigger] q@[w],
        decreases q@.len() - t,
    {
        if q[t] >= n {
            assert((q@[t as int] as int) >= adj.len());
            return false;
        }
        let mut u: usize = 0;
        while u < t
            invariant
                t < q@.len(),
                u <= t,
                forall|w: int| 0 <= w < u ==> #[trigger] q@[w] != q@[t as int],
            decreases t - u,
        {
            if q[u] == q[t] {
                assert(q@[u as int] == q@[t as int]);
                return false;
            }
            u = u + 1;
        }
        t = t + 1;
    }
    assert(neighbors_a@[q@[0] as int]@ == adj[q@[0] as int]);
    if !row_contains(&neighbors_a[q[0]], end_b) {
        return false;
    }
    let mut t: usize = 0;
    while t < q.len() - 1
        invariant
            q@.len() > 0,
            t < q@.len(),
            n == adj.len(),
            adj == graph_of(neighbors_a@),
            pa@.len() == n,
            forall|u: int| 0 <= u < q@.len() ==> (#[trigger] q@[u] as int) < n,
            forall|u: int| 0 <= u < t ==> is_matched(pb@, pa@, #[trigger] q@[u] as int),
            forall|u: int| 0 <= u < t ==> adj[#[trigger] q@[u + 1] as int].contains(pa@[q@[u] as int]),
        decreases q@.len() - t,
    {
        if !matched_exec(pb, pa, q[t]) {
            return false;
        }
        assert(neighbors_a@[q@[t + 1] as int]@ == adj[q@[t + 1] as int]);
        if !row_contains(&neighbors_a[q[t + 1]], pa[q[t]]) {
            return false;
        }
        t = t + 1;
    }
    !matched_exec(pb, pa, q[q.len() - 1])
}

/// Flips the matching along an augmenting path and takes its free end off
/// the list of free vertices.
fn augment_and_release(
    Ghost(adj): Ghost<Seq<Seq<usize>>>,
    pb: &mut Vec<Option<usize>>,
    pa: &mut Vec<usize>,
    starts: &mut Vec<usize>,
    q: &Vec<usize>,
    end_b: usize,
)
    requires
        matching_inv(adj, old(pb)@, old(pa)@, old(starts)@),
        is_augmenting(adj, old(pb)@, old(pa)@, q@, end_b),
    ensures
        matching_inv(adj, final(pb)@, final(pa)@, final(starts)@),
        final(starts)@.len() + 1 == old(starts)@.len(),
{
    let root = q[q.len() - 1];
    assert(starts@.contains(root));
    augment(Ghost(adj), pb, pa, q, end_b, Ghost(starts@));
    let mut idx: usize = 0;
    while starts[idx] != root
        invariant
            starts@.contains(root),
            idx < starts.len(),
            forall|j: int| 0 <= j < idx ==> #[trigger] starts@[j] != root,
        decreases starts@.len() - idx,
    {
        proof {
            let j = choose|j: int| 0 <= j < starts@.len() && starts@[j] == root;
            assert(j > idx);
        }
        idx = idx + 1;
    }
    assert(starts@.index_of(root) == idx as int);
    starts.remove(idx);
}

/// Grows the matching `pair_for_b`, `pair_for_a` in phases until side A is
/// matched completely or no augmenting path is left. Each phase augments
/// along the paths of one breadth-first forest, shortest first, skipping
/// any path that an earlier augmentation of the phase has broken.
fn complete_matching(
    neighbors_a: &[Vec<usize>],
    pair_for_b: &mut Vec<Option<usize>>,
    pair_for_a: &mut Vec<usize>,
    starts: &mut Vec<usize>,
) -> (r: bool)
    requires
        well_formed(graph_of(neighbors_a@)),
        matching_inv(graph_of(neighbors_a@), old(pair_for_b)@, old(pair_for_a)@, old(starts)@),
    ensures
        r == has_perfect_matching(graph_of(neighbors_a@)),
{
    let ghost adj = graph_of(neighbors_a@);
    let n = neighbors_a.len();
    while starts.len() > 0
        invariant
            adj == graph_of(neighbors_a@),
            well_formed(adj),
            matching_inv(adj, pair_for_b@, pair_for_a@, starts@),
        decreases starts@.len(),
    {
        let paths = augmenting_paths(neighbors_a, pair_for_b, pair_for_a, starts);
        if paths.len() == 0 {
            return false;
        }
        let ghost phase_start = starts@.len();
        augment_and_release(Ghost(adj), pair_for_b, pair_for_a, starts, &paths[0].0, paths[0].1);
        let mut i: usize = 1;
        while i < paths.len()
            invariant
                adj == graph_of(neighbors_a@),
                well_formed(adj),
                matching_inv(adj, pair_for_b@, pair_for_a@, starts@),
                starts@.len() < phase_start,
            decreases paths@.len() - i,
        {
            if is_augmenting_exec(neighbors_a, pair_for_b, pair_for_a, &paths[i].0, paths[i].1) {
                augment_and_release(Ghost(adj), pair_for_b, pair_for_a, starts, &paths[i].0, paths[i].1);
            }
            i = i + 1;
        }
    }
    assert forall|a: int| 0 <= a < n implies #[trigger] is_matched(pair_for_b@, pair_for_a@, a) by {
        assert(!starts@.contains(a as usize));
    }
    proof {
        let f = pair_for_a@;
        assert forall|a: int| 0 <= a < f.len() implies #[trigger] adj[a].contains(f[a]) by {
            assert(is_matched(pair_for_b@, pair_for_a@, a));
        }
        assert forall|a1: int, a2: int| 0 <= a1 < a2 < f.len() implies #[trigger] f[a1] != #[trigger] f[a2] by {
            assert(is_matched(pair_for_b@, pair_for_a@, a1));
            assert(is_matched(pair_for_b@, pair_for_a@, a2));
        }
        assert(is_saturating(adj, f));
    }
    true
}

/// Whether side A can be matched completely, in the manner of Hopcroft and
/// Karp: each phase lays out breadth first, in layers, the alternating paths
/// from every free vertex of side A, then augments the matching along one
/// path to each free vertex of side B that it reaches, shortest first,
/// skipping those that an earlier augmentation of the phase has broken,
/// until a phase finds none.
pub fn maximum_matching_hopcroft_karp(neighbors_a: &[Vec<usize>]) -> (r: bool)
    requires
        well_formed(graph_of(neighbors_a@)),
    ensures
        r == has_perfect_matching(graph_of(neighbors_a@)),
{
    let ghost adj = graph_of(neighbors_a@);
    let n = neighbors_a.len();
    let mut pair_for_b: Vec<Option<usize>> = Vec::new();
    let mut pair_for_a: Vec<usize> = Vec::new();
    let mut starts: Vec<usize> = Vec::new();
    let mut x: usize = 0;
    while x < n
        invariant
            x <= n,
            pair_for_b@ == Seq::new(x as nat, |b: int| None::<usize>),
            pair_for_a@ == Seq::new(x as nat, |a: int| 0usize),
            starts@ == Seq::new(x as nat, |a: int| a as usize),
        decreases n - x,
    {
        pair_for_b.push(None);
        pair_for_a.push(0);
        starts.push(x);
        x = x + 1;
    }
    assert forall|a: int| 0 <= a < n implies (starts@.contains(a as usize) <==> !#[trigger] is_matched(
        pair_for_b@,
        pair_for_a@,
        a,
    )) by {
        assert(starts@[a] == a as usize);
    }
    complete_matching(neighbors_a, &mut pair_for_b, &mut pair_for_a, &mut starts)
}


/// Whether `row` holds `x`.
fn row_contains(row: &Vec<usize>, x: usize) -> (r: bool)
    ensures
        r == row@.contains(x),
{
    let mut i: usize = 0;
    while i < row.len()
        invariant
            i <= row@.len(),
            forall|j: int| 0 <= j < i ==> #[trigger] row@[j] != x,
        decreases row@.len() - i,
    {
        if row[i] == x {
            return true;
        }
        i = i + 1;
    }
    false
}

/// The flow network of the graph: vertices `0..n` are side A, `n..2n` side
/// B, and each A vertex has an edge to every B-neighbour.
spec fn network_ok(nb: Seq<Vec<usize>>, n: int) -> bool {
    &&& nb.len() == 2 * n
    &&& forall|u: int, k: int| 0 <= u < 2 * n && 0 <= k < nb[u]@.len() ==> (#[trigger] nb[u]@[k] as int) < 2 * n
}

/// Whether side A can be matched completely, by a preflow push-relabel
/// maximum flow through the network source, A, B, sink with unit
/// capacities. The flow it ends with gives each B vertex at most one A
/// vertex; those pairs that are edges and form a matching are kept, and the
/// matching is then completed along augmenting paths, which also settles the
/// answer when the flow is short.
pub fn maximum_matching_push_relabel(neighbors_a: &[Vec<usize>]) -> (r: bool)
    requires
        well_formed(graph_of(neighbors_a@)),
    ensures
        r == has_perfect_matching(graph_of(neighbors_a@)),
{
    let ghost adj = graph_of(neighbors_a@);
    let n = neighbors_a.len();
    let mut pair_for_b: Vec<Option<usize>> = Vec::new();
    let mut pair_for_a: Vec<usize> = Vec::new();
    let mut taken: Vec<bool> = Vec::new();
    let mut x: usize = 0;
    while x < n
        invariant
            x <= n,
            pair_for_b@ == Seq::new(x as nat, |b: int| None::<usize>),
            pair_for_a@ == Seq::new(x as nat, |a: int| 0usize),
            taken@ == Seq::new(x as nat, |a: int| false),
        decreases n - x,
    {
        pair_for_b.push(None);
        pair_for_a.push(0);
        taken.push(false);
        x = x + 1;
    }
    if n <= usize::MAX / 4 {
        let n2 = 2 * n;
        let big = 4 * (n as u128);
        let mut height: Vec<u128> = Vec::new();
        let mut excess: Vec<i128> = Vec::new();
        let mut neighbors: Vec<Vec<usize>> = Vec::new();
        let mut todo: std::collections::VecDeque<usize> = std::collections::VecDeque::new();
        let mut v: usize = 0;
        while v < n2
            invariant
                n2 == 2 * n,
                n == neighbors_a@.len(),
                n <= usize::MAX / 4,
                well_formed(graph_of(neighbors_a@)),
                v <= n2,
                height@.len() == v,
                excess@.len() == v,
                neighbors@.len() == v,
                forall|u: int| 0 <= u < v ==> #[trigger] height@[u] <= big + 1,
                forall|u: int| 0 <= u < v ==> -1 <= #[trigger] excess@[u] <= 1,
                forall|u: int, k: int| 0 <= u < v && 0 <= k < neighbors@[u]@.len() ==> (#[trigger] neighbors@[u]@[k] as int) < n2,
                forall|k: int| 0 <= k < todo@.len() ==> (#[trigger] todo@[k] as int) < n2,
            decreases n2 - v,
        {
            height.push(0);
            if v < n {
                excess.push(1);
                todo.push_back(v);
                let mut row: Vec<usize> = Vec::new();
                let src = &neighbors_a[v];
                let mut k: usize = 0;
                while k < src.len()
                    invariant
                        v < n,
                        n2 == 2 * n,
                        n == neighbors_a@.len(),
                        n <= usize::MAX / 4,
                        well_formed(graph_of(neighbors_a@)),
                        src@ == neighbors_a@[v as int]@,
                        k <= src@.len(),
                        forall|j: int| 0 <= j < row@.len() ==> (#[trigger] row@[j] as int) < n2,
                    decreases src@.len() - k,
                {
                    assert(graph_of(neighbors_a@)[v as int][k as int] == src@[k as int]);
                    row.push(src[k] + n);
                    k = k + 1;
                }
                neighbors.push(row);
            } else {
                excess.push(-1);
                neighbors.push(Vec::new());
            }
            v = v + 1;
        }
        let mut steps: usize = 0;
        while steps < usize::MAX && todo.len() > 0
            invariant
                n2 == 2 * n,
                n <= usize::MAX / 4,
                big == 4 * n,
                height@.len() == n2,
                excess@.len() == n2,
                network_ok(neighbors@, n as int),
                forall|u: int| 0 <= u < n2 ==> #[trigger] height@[u] <= big + 1,
                forall|u: int| 0 <= u < n2 ==> -1 - steps <= #[trigger] excess@[u] <= 1 + steps,
                forall|k: int| 0 <= k < todo@.len() ==> (#[trigger] todo@[k] as int) < n2,
            decreases usize::MAX - steps,
        {
            let v = match todo.pop_front() {
                Some(v) => v,
                None => {
                    break;
                },
            };
            steps = steps + 1;
            let ghost s0 = steps;
            while excess[v] > 0 && steps < usize::MAX
                invariant
                    steps >= s0,
                    (v as int) < n2,
                    n2 == 2 * n,
                    n <= usize::MAX / 4,
                    big == 4 * n,
                    height@.len() == n2,
                    excess@.len() == n2,
                    network_ok(neighbors@, n as int),
                    forall|u: int| 0 <= u < n2 ==> #[trigger] height@[u] <= big + 1,
                    forall|u: int| 0 <= u < n2 ==> -1 - steps <= #[trigger] excess@[u] <= 1 + steps,
                    forall|k: int| 0 <= k < todo@.len() ==> (#[trigger] todo@[k] as int) < n2,
                decreases usize::MAX - steps,
            {
                steps = steps + 1;
                let mut min_height = big;
                let mut index: usize = 0;
                let mut v2: usize = 0;
                let mut i: usize = 0;
                let row_len = neighbors[v].len();
                while i < row_len
                    invariant
                        (v as int) < n2,
                        n2 == 2 * n,
                        height@.len() == n2,
                        network_ok(neighbors@, n as int),
                        row_len == neighbors@[v as int]@.len(),
                        i <= row_len,
                        min_height <= big,
                        min_height < big ==> index < row_len && v2 == neighbors@[v as int]@[index as int],
                        (v2 as int) < n2,
                    decreases row_len - i,
                {
                    let w = neighbors[v][i];
                    if height[w] < min_height {
                        min_height = height[w];
                        v2 = w;
                        index = i;
                    }
                    i = i + 1;
                }
                if v < n && min_height > 2 * (n as u128) {
                    excess.set(v, 0);
                    height.set(v, 2 * (n as u128) + 1);
                    break;
                }
                if min_height == big {
                    excess.set(v, 0);
                    break;
                }
                if height[v] <= min_height {
                    height.set(v, min_height + 1);
                }
                let mut row = copy_row(&neighbors[v]);
                row.swap_remove(index);
                proof {
                    assert forall|k: int| 0 <= k < row@.len() implies (#[trigger] row@[k] as int) < n2 by {
                        let old_row = neighbors@[v as int]@;
                        if k == index as int {
                            assert(row@[k] == old_row[old_row.len() - 1]);
                        } else {
                            assert(row@[k] == old_row[k]);
                        }
                    }
                }
                neighbors.set(v, row);
                let mut row2 = copy_row(&neighbors[v2]);
                row2.push(v);
                neighbors.set(v2, row2);
                proof {
                    assert forall|u: int, k: int|
                        0 <= u < 2 * n && 0 <= k < neighbors@[u]@.len() implies (#[trigger] neighbors@[u]@[k] as int) < 2 * n by {
                    }
                }
                excess.set(v, excess[v] - 1);
                excess.set(v2, excess[v2] + 1);
                if excess[v2] == 1 {
                    todo.push_back(v2);
                }
            }
        }
        let mut b: usize = 0;
        while b < n
            invariant
                n2 == 2 * n,
                n == neighbors_a@.len(),
                adj == graph_of(neighbors_a@),
                excess@.len() == n2,
                network_ok(neighbors@, n as int),
                b <= n,
                matching_inv_taken(adj, pair_for_b@, pair_for_a@, taken@),
            decreases n - b,
        {
            if excess[n + b] == 0 && neighbors[n + b].len() > 0 {
                let a = neighbors[n + b][0];
                if a < n && !taken[a] && pair_for_b[b].is_none() && row_contains(&neighbors_a[a], b) {
                    assert(neighbors_a@[a as int]@ == adj[a as int]);
                    pair_for_b.set(b, Some(a));
                    pair_for_a.set(a, b);
                    taken.set(a, true);
                }
            }
            b = b + 1;
        }
    }
    let mut starts: Vec<usize> = Vec::new();
    let mut a: usize = 0;
    while a < n
        invariant
            a <= n,
            n == adj.len(),
            matching_inv_taken(adj, pair_for_b@, pair_for_a@, taken@),
            forall|i: int| 0 <= i < starts@.len() ==> (#[trigger] starts@[i] as int) < a,
            forall|i: int, j: int| 0 <= i < j < starts@.len() ==> #[trigger] starts@[i] < #[trigger] starts@[j],
            forall|x: int| 0 <= x < a ==> (starts@.contains(x as usize) <==> !#[trigger] taken@[x]),
        decreases n - a,
    {
        let ghost before = starts@;
        if !taken[a] {
            starts.push(a);
        }
        assert forall|x: int| 0 <= x < a + 1 implies (starts@.contains(x as usize) <==> !#[trigger] taken@[x]) by {
            if before.contains(x as usize) {
                let t = choose|t: int| 0 <= t < before.len() && before[t] == x as usize;
                assert(starts@[t] == x as usize);
            }
            if starts@.contains(x as usize) && x < a {
                let t = choose|t: int| 0 <= t < starts@.len() && starts@[t] == x as usize;
                assert(before[t] == x as usize);
            }
            if x == a && !taken@[x] {
                assert(starts@[starts@.len() - 1] == a);
            }
        }
        a = a + 1;
    }
    assert forall|x: int| 0 <= x < n implies (starts@.contains(x as usize) <==> !#[trigger] is_matched(
        pair_for_b@,
        pair_for_a@,
        x,
    )) by {
        assert(taken@[x] == is_matched(pair_for_b@, pair_for_a@, x));
    }
    complete_matching(neighbors_a, &mut pair_for_b, &mut pair_for_a, &mut starts)
}

/// A matching where `taken` marks the matched vertices of side A.
spec fn matching_inv_taken(adj: Seq<Seq<usize>>, pb: Seq<Option<usize>>, pa: Seq<usize>, taken: Seq<bool>) -> bool {
    &&& adj.len() <= usize::MAX
    &&& pb.len() == adj.len()
    &&& pa.len() == adj.len()
    &&& taken.len() == adj.len()
    &&& forall|b: int|
        0 <= b < pb.len() && (#[trigger] pb[b]).is_some() ==> (pb[b].unwrap() as int) < adj.len() && pa[pb[b].unwrap() as int]
            == b && adj[pb[b].unwrap() as int].contains(b as usize)
    &&& forall|a: int| 0 <= a < adj.len() ==> (#[trigger] taken[a] <==> is_matched(pb, pa, a))
}

/// A copy of an adjacency row.
fn copy_row(row: &Vec<usize>) -> (r: Vec<usize>)
    ensures
        r@ == row@,
{
    let mut r: Vec<usize> = Vec::new();
    let mut i: usize = 0;
    while i < row.len()
        invariant
            i <= row@.len(),
            r@ == row@.subrange(0, i as int),
        decreases row@.len() - i,
    {
        r.push(row[i]);
        i = i + 1;
    }
    assert(r@ =~= row@);
    r
}

} // verus!
