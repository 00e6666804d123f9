//! New candidate lines formed from two known lines.
use crate::bitarray::{lemma_view_eq, lemma_word_le, BitArray};
use crate::line::Line;
use vstd::prelude::*;

verus! {

broadcast use {crate::bitarray::lemma_view_len, vstd::seq_lib::lemma_seq_contains_after_push};

/// `mt` pairs each explicit coordinate `i` of a line with `alen` of them with
/// coordinate `mt[i]` of a line with `blen`, where `blen` stands for the
/// infinite coordinate and every other value is used at most once.
pub open spec fn is_matching(mt: Seq<usize>, alen: int, blen: int) -> bool {
    &&& mt.len() == alen
    &&& forall|i: int| 0 <= i < mt.len() ==> #[trigger] mt[i] <= blen
    &&& forall|i: int, j: int|
        0 <= i < mt.len() && 0 <= j < mt.len() && i != j && #[trigger] mt[i] != blen ==> mt[i] != #[trigger] mt[j]
}

/// `mt` is a matching whose first `cur.len()` entries are `cur`.
pub open spec fn extends_prefix(mt: Seq<usize>, cur: Seq<usize>) -> bool {
    cur.len() <= mt.len() && forall|i: int| 0 <= i < cur.len() ==> #[trigger] mt[i] == cur[i]
}

/// `a` comes before `b` in the order of entries, first entry first.
pub open spec fn lex_before(a: Seq<usize>, b: Seq<usize>) -> bool {
    exists|k: int|
        0 <= k < a.len() && k < b.len() && a[k] < b[k] && forall|j: int| 0 <= j < k ==> #[trigger] a[j] == b[j]
}

/// Appends to `out` every matching that starts with `cur`, each once, in
/// increasing order of its entries.
fn push_matchings(
    alen: usize,
    blen: usize,
    cur: &mut Vec<usize>,
    used: &mut Vec<bool>,
    out: &mut Vec<Vec<usize>>,
)
    requires
        old(cur)@.len() <= alen,
        old(used)@.len() == blen,
        forall|x: int|
            0 <= x < blen ==> (#[trigger] old(used)@[x] <==> old(cur)@.contains(x as usize)),
        forall|i: int| 0 <= i < old(cur)@.len() ==> #[trigger] old(cur)@[i] <= blen,
        forall|i: int, j: int|
            0 <= i < old(cur)@.len() && 0 <= j < old(cur)@.len() && i != j && #[trigger] old(cur)@[i] != blen
                ==> old(cur)@[i] != #[trigger] old(cur)@[j],
    ensures
        final(cur)@ == old(cur)@,
        final(used)@ == old(used)@,
        final(out)@.len() >= old(out)@.len(),
        forall|i: int| 0 <= i < old(out)@.len() ==> #[trigger] final(out)@[i]@ == old(out)@[i]@,
        forall|i: int|
            old(out)@.len() <= i < final(out)@.len() ==> is_matching(#[trigger] final(out)@[i]@, alen as int, blen as int)
                && extends_prefix(final(out)@[i]@, old(cur)@),
        forall|mt: Seq<usize>|
            is_matching(mt, alen as int, blen as int) && extends_prefix(mt, old(cur)@) ==> exists|i: int|
                old(out)@.len() <= i < final(out)@.len() && #[trigger] final(out)@[i]@ == mt,
        forall|i: int, j: int|
            old(out)@.len() <= i < j < final(out)@.len() ==> lex_before(#[trigger] final(out)@[i]@, #[trigger] final(out)@[j]@),
    decreases alen - old(cur)@.len(),
{
    if cur.len() == alen {
        let mut copy: Vec<usize> = Vec::new();
        let mut i: usize = 0;
        while i < cur.len()
            invariant
                i <= cur@.len(),
                copy@ == cur@.subrange(0, i as int),
            decreases cur@.len() - i,
        {
            copy.push(cur[i]);
            i = i + 1;
        }
        assert(copy@ =~= cur@);
        out.push(copy);
        assert forall|mt: Seq<usize>|
            is_matching(mt, alen as int, blen as int) && extends_prefix(mt, old(cur)@) implies exists|i: int|
                old(out)@.len() <= i < out@.len() && #[trigger] out@[i]@ == mt by {
            assert(mt =~= cur@);
            assert(out@[old(out)@.len() as int]@ == mt);
        }
        return;
    }
    let mut v: usize = 0;
    let mut more = true;
    while more
        invariant
            v <= blen,
            !more ==> v == blen,
            cur@ == old(cur)@,
            used@ == old(used)@,
            cur@.len() < alen,
            used@.len() == blen,
            forall|x: int|
                0 <= x < blen ==> (#[trigger] old(used)@[x] <==> old(cur)@.contains(x as usize)),
            forall|i: int| 0 <= i < old(cur)@.len() ==> #[trigger] old(cur)@[i] <= blen,
            forall|i: int, j: int|
                0 <= i < old(cur)@.len() && 0 <= j < old(cur)@.len() && i != j && #[trigger] old(cur)@[i] != blen
                    ==> old(cur)@[i] != #[trigger] old(cur)@[j],
            out@.len() >= old(out)@.len(),
            forall|i: int| 0 <= i < old(out)@.len() ==> #[trigger] out@[i]@ == old(out)@[i]@,
            forall|i: int|
                old(out)@.len() <= i < out@.len() ==> is_matching(#[trigger] out@[i]@, alen as int, blen as int)
                    && extends_prefix(out@[i]@, old(cur)@),
            forall|mt: Seq<usize>|
                is_matching(mt, alen as int, blen as int) && extends_prefix(mt, old(cur)@) && (mt[cur@.len() as int] < v
                    || (!more && mt[cur@.len() as int] <= v)) ==> exists|i: int|
                    old(out)@.len() <= i < out@.len() && #[trigger] out@[i]@ == mt,
            forall|i: int|
                old(out)@.len() <= i < out@.len() ==> (#[trigger] out@[i]@)[cur@.len() as int] < v || (!more
                    && out@[i]@[cur@.len() as int] <= v),
            forall|i: int, j: int|
                old(out)@.len() <= i < j < out@.len() ==> lex_before(#[trigger] out@[i]@, #[trigger] out@[j]@),
        decreases blen - v + if more {
            1int
        } else {
            0int
        },
    {
        if v == blen || !used[v] {
            let ghost out_before = out@;
            cur.push(v);
            if v < blen {
                used.set(v, true);
            }
            proof {
                assert forall|x: int| 0 <= x < blen implies (#[trigger] used@[x] <==> cur@.contains(x as usize)) by {
                    if old(cur)@.contains(x as usize) {
                        let t = choose|t: int| 0 <= t < old(cur)@.len() && old(cur)@[t] == x as usize;
                        assert(cur@[t] == x as usize);
                    }
                    if cur@.contains(x as usize) && x != v {
                        let t = choose|t: int| 0 <= t < cur@.len() && cur@[t] == x as usize;
                        assert(old(cur)@[t] == x as usize);
                    }
                    if x == v {
                        assert(cur@[old(cur)@.len() as int] == v);
                    }
                }
                assert forall|i: int, j: int|
                    0 <= i < cur@.len() && 0 <= j < cur@.len() && i != j && #[trigger] cur@[i] != blen
                        implies cur@[i] != #[trigger] cur@[j] by {
                    let n = old(cur)@.len() as int;
                    if i == n {
                        assert(cur@[j] == old(cur)@[j]);
                        assert(old(cur)@.contains(cur@[j]));
                    } else if j == n {
                        assert(cur@[i] == old(cur)@[i]);
                        assert(old(cur)@.contains(cur@[i]));
                    }
                }
            }
            let ghost pushed = cur@;
            push_matchings(alen, blen, cur, used, out);
            cur.pop();
            if v < blen {
                used.set(v, false);
            }
            assert(cur@ =~= old(cur)@);
            assert(used@ =~= old(used)@);
            proof {
                assert forall|i: int|
                    old(out)@.len() <= i < out@.len() implies is_matching(#[trigger] out@[i]@, alen as int, blen as int)
                        && extends_prefix(out@[i]@, old(cur)@) by {
                    if i >= out_before.len() {
                        assert(extends_prefix(out@[i]@, pushed));
                    } else {
                        assert(out@[i]@ == out_before[i]@);
                    }
                }
                assert forall|mt: Seq<usize>|
                    is_matching(mt, alen as int, blen as int) && extends_prefix(mt, old(cur)@) && mt[cur@.len() as int] < v + 1
                        implies exists|i: int| old(out)@.len() <= i < out@.len() && #[trigger] out@[i]@ == mt by {
                    if mt[cur@.len() as int] == v {
                        assert(extends_prefix(mt, pushed));
                    } else {
                        let i = choose|i: int| old(out)@.len() <= i < out_before.len() && #[trigger] out_before[i]@ == mt;
                        assert(out@[i]@ == out_before[i]@);
                    }
                }
            }
        } else {
            proof {
                assert forall|mt: Seq<usize>|
                    is_matching(mt, alen as int, blen as int) && extends_prefix(mt, old(cur)@) && mt[cur@.len() as int] < v + 1
                        implies exists|i: int| old(out)@.len() <= i < out@.len() && #[trigger] out@[i]@ == mt by {
                    if mt[cur@.len() as int] == v {
                        assert(old(cur)@.contains(v));
                        let t = choose|t: int| 0 <= t < old(cur)@.len() && old(cur)@[t] == v;
                        assert(mt[t] == v);
                        assert(false);
                    }
                }
            }
        }
        if v == blen {
            more = false;
        } else {
            v = v + 1;
        }
    }
    assert forall|mt: Seq<usize>|
        is_matching(mt, alen as int, blen as int) && extends_prefix(mt, old(cur)@) implies exists|i: int|
            old(out)@.len() <= i < out@.len() && #[trigger] out@[i]@ == mt by {
        assert(mt[cur@.len() as int] <= blen);
    }
}


/// The explicit coordinates below `n` of the second line that `mt` leaves
/// unpaired, in increasing order.
pub open spec fn unmatched(mt: Seq<usize>, n: int) -> Seq<usize>
    decreases n,
{
    if n <= 0 {
        seq![]
    } else if mt.contains((n - 1) as usize) {
        unmatched(mt, n - 1)
    } else {
        unmatched(mt, n - 1).push((n - 1) as usize)
    }
}

/// Number of coordinate pairs that `mt` forms between `a` and `b`: one per
/// explicit coordinate of `a`, and one per unpaired explicit coordinate of
/// `b`, which meets `a`'s infinite coordinate.
pub open spec fn npairs<const C: usize>(a: Line<C>, b: Line<C>, mt: Seq<usize>) -> int {
    (a.finite@.len() + unmatched(mt, b.finite@.len() as int).len()) as int
}

/// The coordinate of `a` in pair `x`.
pub open spec fn left<const C: usize>(a: Line<C>, b: Line<C>, mt: Seq<usize>, x: int) -> BitArray<C> {
    if x < a.finite@.len() {
        a.finite@[x]
    } else {
        a.infinite
    }
}

/// The coordinate of `b` in pair `x`.
pub open spec fn right<const C: usize>(a: Line<C>, b: Line<C>, mt: Seq<usize>, x: int) -> BitArray<C> {
    if x < a.finite@.len() {
        if (mt[x] as int) < b.finite@.len() {
            b.finite@[mt[x] as int]
        } else {
            b.infinite
        }
    } else {
        b.finite@[unmatched(mt, b.finite@.len() as int)[x - a.finite@.len()] as int]
    }
}

/// `c` is the intersection of `x` and `y`.
pub open spec fn is_and<const C: usize>(c: BitArray<C>, x: BitArray<C>, y: BitArray<C>) -> bool {
    forall|k: int| 0 <= k < C ==> #[trigger] c@[k] == x@[k] & y@[k]
}

/// `c` is the union of `x` and `y`.
pub open spec fn is_or<const C: usize>(c: BitArray<C>, x: BitArray<C>, y: BitArray<C>) -> bool {
    forall|k: int| 0 <= k < C ==> #[trigger] c@[k] == x@[k] | y@[k]
}

/// `x` and `y` share a symbol.
pub open spec fn meets<const C: usize>(x: BitArray<C>, y: BitArray<C>) -> bool {
    exists|k: int| 0 <= k < C && #[trigger] (x@[k] & y@[k]) != 0
}

/// Neither of `x` and `y` contains the other, so their union is strictly
/// larger than both.
pub open spec fn incomparable<const C: usize>(x: BitArray<C>, y: BitArray<C>) -> bool {
    !x.subset_of(y) && !y.subset_of(x)
}

/// `c` is the candidate that matching `mt` gives with the union in pair `p`,
/// or, for `p == npairs`, with the union of the two infinite coordinates
/// added as one more explicit coordinate; every other pair is intersected.
pub open spec fn is_candidate<const C: usize>(a: Line<C>, b: Line<C>, mt: Seq<usize>, p: int, c: Line<C>) -> bool {
    let n = npairs(a, b, mt);
    &&& is_and(c.infinite, a.infinite, b.infinite)
    &&& c.finite@.len() == if p < n { n } else { n + 1 }
    &&& forall|x: int|
        0 <= x < n && x != p ==> is_and(#[trigger] c.finite@[x], left(a, b, mt, x), right(a, b, mt, x))
    &&& p < n ==> is_or(c.finite@[p], left(a, b, mt, p), right(a, b, mt, p))
    &&& p == n ==> is_or(c.finite@[n], a.infinite, b.infinite)
}

/// The candidate of `mt` and `p` has no empty coordinate and its union is
/// strictly larger than both of its parts.
pub open spec fn admissible<const C: usize>(a: Line<C>, b: Line<C>, mt: Seq<usize>, p: int) -> bool {
    let n = npairs(a, b, mt);
    &&& 0 <= p <= n
    &&& meets(a.infinite, b.infinite)
    &&& forall|x: int| 0 <= x < n && x != p ==> meets(#[trigger] left(a, b, mt, x), right(a, b, mt, x))
    &&& p < n ==> incomparable(left(a, b, mt, p), right(a, b, mt, p))
    &&& p == n ==> incomparable(a.infinite, b.infinite)
}

/// `c` is an admissible candidate of some matching of `a` and `b`.
pub open spec fn is_combination<const C: usize>(a: Line<C>, b: Line<C>, c: Line<C>) -> bool {
    exists|mt: Seq<usize>, p: int|
        is_matching(mt, a.finite@.len() as int, b.finite@.len() as int) && admissible(a, b, mt, p)
            && #[trigger] is_candidate(a, b, mt, p, c)
}

/// The pairs that `mt` forms, as the coordinates of `a` and of `b`.
fn pairs_of<const C: usize>(a: &Line<C>, b: &Line<C>, mt: &Vec<usize>) -> (r: (Vec<BitArray<C>>, Vec<BitArray<C>>))
    requires
        is_matching(mt@, a.finite@.len() as int, b.finite@.len() as int),
    ensures
        r.0@.len() == npairs(*a, *b, mt@),
        r.1@.len() == npairs(*a, *b, mt@),
        forall|x: int| 0 <= x < r.0@.len() ==> #[trigger] r.0@[x] == left(*a, *b, mt@, x),
        forall|x: int| 0 <= x < r.1@.len() ==> #[trigger] r.1@[x] == right(*a, *b, mt@, x),
{
    let alen = a.finite.len();
    let blen = b.finite.len();
    let mut lefts: Vec<BitArray<C>> = Vec::new();
    let mut rights: Vec<BitArray<C>> = Vec::new();
    let mut matched: Vec<bool> = Vec::new();
    let mut o: usize = 0;
    while o < blen
        invariant
            blen == b.finite@.len(),
            o <= blen,
            matched@ == Seq::new(o as nat, |v: int| false),
        decreases blen - o,
    {
        matched.push(false);
        o = o + 1;
    }
    let mut i: usize = 0;
    while i < alen
        invariant
            alen == a.finite@.len(),
            blen == b.finite@.len(),
            is_matching(mt@, alen as int, blen as int),
            i <= alen,
            matched@.len() == blen,
            forall|v: int|
                0 <= v < blen ==> (#[trigger] matched@[v] <==> exists|t: int| 0 <= t < i && mt@[t] == v as usize),
            lefts@.len() == i,
            rights@.len() == i,
            forall|x: int| 0 <= x < i ==> #[trigger] lefts@[x] == left(*a, *b, mt@, x),
            forall|x: int| 0 <= x < i ==> #[trigger] rights@[x] == right(*a, *b, mt@, x),
        decreases alen - i,
    {
        let v = mt[i];
        lefts.push(a.finite[i]);
        if v < blen {
            rights.push(b.finite[v]);
            matched.set(v, true);
        } else {
            rights.push(b.infinite);
        }
        assert forall|w: int| 0 <= w < blen implies (#[trigger] matched@[w] <==> exists|t: int|
            0 <= t < i + 1 && mt@[t] == w as usize) by {
            if exists|t: int| 0 <= t < i + 1 && mt@[t] == w as usize {
                let t = choose|t: int| 0 <= t < i + 1 && mt@[t] == w as usize;
                if t < i {
                    assert(exists|t: int| 0 <= t < i && mt@[t] == w as usize);
                }
            }
        }
        i = i + 1;
    }
    assert forall|v: int| 0 <= v < blen implies (#[trigger] matched@[v] <==> mt@.contains(v as usize)) by {
        if mt@.contains(v as usize) {
            let t = choose|t: int| 0 <= t < mt@.len() && mt@[t] == v as usize;
        }
    }
    let mut o: usize = 0;
    while o < blen
        invariant
            alen == a.finite@.len(),
            blen == b.finite@.len(),
            o <= blen,
            matched@.len() == blen,
            forall|v: int| 0 <= v < blen ==> (#[trigger] matched@[v] <==> mt@.contains(v as usize)),
            lefts@.len() == alen + unmatched(mt@, o as int).len(),
            rights@.len() == alen + unmatched(mt@, o as int).len(),
            forall|x: int| 0 <= x < lefts@.len() ==> #[trigger] lefts@[x] == left(*a, *b, mt@, x),
            forall|x: int| 0 <= x < alen ==> #[trigger] rights@[x] == right(*a, *b, mt@, x),
            forall|x: int|
                alen <= x < rights@.len() ==> #[trigger] rights@[x] == b.finite@[unmatched(mt@, o as int)[x - alen] as int],
        decreases blen - o,
    {
        if !matched[o] {
            lefts.push(a.infinite);
            rights.push(b.finite[o]);
        }
        assert(unmatched(mt@, o + 1) == if mt@.contains(o) {
            unmatched(mt@, o as int)
        } else {
            unmatched(mt@, o as int).push(o)
        });
        o = o + 1;
    }
    (lefts, rights)
}

/// Whether every entry of `inter` but the one at `p` is non-empty.
fn all_nonempty_but<const C: usize>(inter: &Vec<BitArray<C>>, p: usize) -> (r: bool)
    ensures
        r == forall|x: int| 0 <= x < inter@.len() && x != p ==> !(#[trigger] inter@[x]).is_empty(),
{
    let mut x: usize = 0;
    while x < inter.len()
        invariant
            x <= inter@.len(),
            forall|y: int| 0 <= y < x && y != p ==> !(#[trigger] inter@[y]).is_empty(),
        decreases inter@.len() - x,
    {
        if x != p && inter[x].is_zero() {
            return false;
        }
        x = x + 1;
    }
    true
}


proof fn lemma_union_strict<const C: usize>(c: BitArray<C>, x: BitArray<C>, y: BitArray<C>)
    requires
        is_or(c, x, y),
        incomparable(x, y),
    ensures
        c.strictly_contains(x),
        c.strictly_contains(y),
{
    assert forall|k: int| 0 <= k < C implies crate::bitarray::word_le(#[trigger] x@[k], c@[k])
        && crate::bitarray::word_le(y@[k], c@[k]) by {
        lemma_word_le(x@[k], y@[k], 0);
    }
    if c@ == x@ {
        assert forall|k: int| 0 <= k < C implies crate::bitarray::word_le(#[trigger] y@[k], x@[k]) by {
            lemma_word_le(x@[k], y@[k], 0);
            assert(c@[k] == x@[k]);
        }
    }
    if c@ == y@ {
        assert forall|k: int| 0 <= k < C implies crate::bitarray::word_le(#[trigger] x@[k], y@[k]) by {
            lemma_word_le(x@[k], y@[k], 0);
            assert(c@[k] == y@[k]);
        }
    }
}

/// A combination is strictly larger than both of its sources in the
/// coordinate it unions: that coordinate strictly contains the coordinate of
/// each line it was formed from.
pub proof fn lemma_combination_grows<const C: usize>(a: Line<C>, b: Line<C>, c: Line<C>)
    requires
        is_combination(a, b, c),
    ensures
        exists|mt: Seq<usize>, p: int|
            {
                let n = npairs(a, b, mt);
                &&& is_matching(mt, a.finite@.len() as int, b.finite@.len() as int)
                &&& #[trigger] is_candidate(a, b, mt, p, c)
                &&& 0 <= p <= n
                &&& p < n ==> c.finite@[p].strictly_contains(left(a, b, mt, p))
                    && c.finite@[p].strictly_contains(right(a, b, mt, p))
                &&& p == n ==> c.finite@[n].strictly_contains(a.infinite) && c.finite@[n].strictly_contains(
                    b.infinite,
                )
            },
{
    let (mt, p) = choose|mt: Seq<usize>, p: int|
        is_matching(mt, a.finite@.len() as int, b.finite@.len() as int) && admissible(a, b, mt, p)
            && #[trigger] is_candidate(a, b, mt, p, c);
    let n = npairs(a, b, mt);
    if p < n {
        lemma_union_strict(c.finite@[p], left(a, b, mt, p), right(a, b, mt, p));
    } else {
        lemma_union_strict(c.finite@[n], a.infinite, b.infinite);
    }
}

/// A matching and a choice of union give one candidate: two lines that are
/// both that candidate have the same coordinates.
pub proof fn lemma_candidate_unique<const C: usize>(
    a: Line<C>,
    b: Line<C>,
    mt: Seq<usize>,
    p: int,
    c1: Line<C>,
    c2: Line<C>,
)
    requires
        0 <= p <= npairs(a, b, mt),
        is_candidate(a, b, mt, p, c1),
        is_candidate(a, b, mt, p, c2),
    ensures
        c1.finite@ == c2.finite@,
        c1.infinite == c2.infinite,
{
    let n = npairs(a, b, mt);
    assert(c1.infinite@ =~= c2.infinite@);
    lemma_view_eq(c1.infinite, c2.infinite);
    assert forall|x: int| 0 <= x < c1.finite@.len() implies #[trigger] c1.finite@[x] == c2.finite@[x] by {
        assert(c1.finite@[x]@ =~= c2.finite@[x]@);
        lemma_view_eq(c1.finite@[x], c2.finite@[x]);
    }
    assert(c1.finite@ =~= c2.finite@);
}

proof fn lemma_meets<const C: usize>(c: BitArray<C>, x: BitArray<C>, y: BitArray<C>)
    requires
        is_and(c, x, y),
    ensures
        meets(x, y) == !c.is_empty(),
{
    if meets(x, y) {
        let k = choose|k: int| 0 <= k < C && #[trigger] (x@[k] & y@[k]) != 0;
        assert(c@[k] != 0);
    }
    if !c.is_empty() {
        let k = choose|k: int| 0 <= k < C && #[trigger] c@[k] != 0;
        assert((x@[k] & y@[k]) != 0);
    }
}

/// A copy of a list of sets.
fn copy_coords<const C: usize>(v: &Vec<BitArray<C>>) -> (r: Vec<BitArray<C>>)
    ensures
        r@ == v@,
{
    let mut r: Vec<BitArray<C>> = Vec::new();
    let mut i: usize = 0;
    while i < v.len()
        invariant
            i <= v@.len(),
            r@ == v@.subrange(0, i as int),
        decreases v@.len() - i,
    {
        r.push(v[i]);
        i = i + 1;
    }
    assert(r@ =~= v@);
    r
}

impl<const C: usize> Line<C> {
    /// Every admissible candidate formed from `self` and `other`: for each
    /// matching of their coordinates, the line that unions one pair and
    /// intersects the others, and the line that intersects every pair and adds
    /// the union of the two infinite coordinates.
    pub fn combinations(&self, other: &Line<C>) -> (r: Vec<Line<C>>)
        ensures
            forall|idx: int| 0 <= idx < r@.len() ==> is_combination(*self, *other, #[trigger] r@[idx]),
            forall|mt: Seq<usize>, p: int|
                is_matching(mt, self.finite@.len() as int, other.finite@.len() as int) && #[trigger] admissible(
                    *self,
                    *other,
                    mt,
                    p,
                ) ==> exists|idx: int| 0 <= idx < r@.len() && is_candidate(*self, *other, mt, p, #[trigger] r@[idx]),
            exists|labels: Seq<(Seq<usize>, int)>|
                {
                    &&& labels.len() == r@.len()
                    &&& forall|idx: int|
                        0 <= idx < r@.len() ==> is_matching(
                            (#[trigger] labels[idx]).0,
                            self.finite@.len() as int,
                            other.finite@.len() as int,
                        ) && admissible(*self, *other, labels[idx].0, labels[idx].1) && is_candidate(
                            *self,
                            *other,
                            labels[idx].0,
                            labels[idx].1,
                            r@[idx],
                        )
                    &&& forall|i: int, j: int| 0 <= i < j < labels.len() ==> #[trigger] labels[i] != #[trigger] labels[j]
                    &&& forall|mt: Seq<usize>, p: int|
                        is_matching(mt, self.finite@.len() as int, other.finite@.len() as int) && #[trigger] admissible(
                            *self,
                            *other,
                            mt,
                            p,
                        ) ==> labels.contains((mt, p))
                },
    {
        let alen = self.finite.len();
        let blen = other.finite.len();
        let infinite = self.infinite.bitand(other.infinite);
        let inf_meets = !infinite.is_zero();
        proof {
            lemma_meets(infinite, self.infinite, other.infinite);
        }
        let tail_strict = !self.infinite.is_subset_of(&other.infinite) && !other.infinite.is_subset_of(
            &self.infinite,
        );
        let mut matchings: Vec<Vec<usize>> = Vec::new();
        let mut cur: Vec<usize> = Vec::new();
        let mut used: Vec<bool> = Vec::new();
        let mut o: usize = 0;
        while o < blen
            invariant
                o <= blen,
                used@ == Seq::new(o as nat, |v: int| false),
            decreases blen - o,
        {
            used.push(false);
            o = o + 1;
        }
        push_matchings(alen, blen, &mut cur, &mut used, &mut matchings);
        let mut out: Vec<Line<C>> = Vec::new();
        let ghost mut labels: Seq<(Seq<usize>, int)> = Seq::empty();
        let mut t: usize = 0;
        while t < matchings.len()
            invariant
                alen == self.finite@.len(),
                blen == other.finite@.len(),
                is_and(infinite, self.infinite, other.infinite),
                inf_meets == meets(self.infinite, other.infinite),
                tail_strict == incomparable(self.infinite, other.infinite),
                t <= matchings@.len(),
                forall|i: int| 0 <= i < matchings@.len() ==> is_matching(#[trigger] matchings@[i]@, alen as int, blen as int),
                forall|idx: int| 0 <= idx < out@.len() ==> is_combination(*self, *other, #[trigger] out@[idx]),
                forall|i: int, p: int|
                    0 <= i < t && #[trigger] admissible(*self, *other, matchings@[i]@, p) ==> labels.contains((matchings@[i]@, p)),
                labels.len() == out@.len(),
                forall|idx: int|
                    0 <= idx < out@.len() ==> is_matching((#[trigger] labels[idx]).0, alen as int, blen as int) && admissible(
                        *self,
                        *other,
                        labels[idx].0,
                        labels[idx].1,
                    ) && is_candidate(*self, *other, labels[idx].0, labels[idx].1, out@[idx]),
                forall|i: int, j: int| 0 <= i < j < labels.len() ==> #[trigger] labels[i] != #[trigger] labels[j],
                forall|idx: int| 0 <= idx < labels.len() ==> exists|i: int| 0 <= i < t && (#[trigger] labels[idx]).0 == matchings@[i]@,
                forall|i: int, j: int| 0 <= i < j < matchings@.len() ==> lex_before(#[trigger] matchings@[i]@, #[trigger] matchings@[j]@),
            decreases matchings@.len() - t,
        {
            let mt = &matchings[t];
            let ghost m = mt@;
            let (lefts, rights) = pairs_of(self, other, mt);
            let n = lefts.len();
            let mut inter: Vec<BitArray<C>> = Vec::new();
            let mut x: usize = 0;
            while x < n
                invariant
                    n == lefts@.len(),
                    n == rights@.len(),
                    x <= n,
                    inter@.len() == x,
                    forall|y: int| 0 <= y < x ==> is_and(#[trigger] inter@[y], lefts@[y], rights@[y]),
                decreases n - x,
            {
                inter.push(lefts[x].bitand(rights[x]));
                x = x + 1;
            }
            let ghost out_start = out@;
            let ghost labels_start = labels;
            assert forall|i: int| 0 <= i < t implies #[trigger] matchings@[i]@ != m by {
                assert(lex_before(matchings@[i]@, matchings@[t as int]@));
            }
            assert forall|y: int| 0 <= y < n implies meets(#[trigger] left(*self, *other, m, y), right(*self, *other, m, y))
                == !inter@[y].is_empty() by {
                lemma_meets(inter@[y], lefts@[y], rights@[y]);
            }
            if inf_meets {
                if tail_strict && all_nonempty_but(&inter, n) {
                    let mut fin = copy_coords(&inter);
                    fin.push(self.infinite.bitor(other.infinite));
                    let line = Line { finite: fin, infinite };
                    assert(is_candidate(*self, *other, m, n as int, line));
                    assert(admissible(*self, *other, m, n as int));
                    proof {
                        assert forall|idx: int| 0 <= idx < labels.len() implies #[trigger] labels[idx] != (m, n as int) by {
                            assert(labels[idx] == labels_start[idx]);
                            assert(labels_start[idx].0 != m);
                        }
                        labels = labels.push((m, n as int));
                    }
                    out.push(line);
                    assert(is_candidate(*self, *other, m, n as int, out@[out@.len() - 1]));
                }
                let mut p: usize = 0;
                while p < n
                    invariant
                        alen == self.finite@.len(),
                        blen == other.finite@.len(),
                        is_matching(m, alen as int, blen as int),
                        is_and(infinite, self.infinite, other.infinite),
                        inf_meets,
                        inf_meets == meets(self.infinite, other.infinite),
                        n == npairs(*self, *other, m),
                        n == lefts@.len(),
                        n == rights@.len(),
                        n == inter@.len(),
                        forall|y: int| 0 <= y < n ==> #[trigger] lefts@[y] == left(*self, *other, m, y),
                        forall|y: int| 0 <= y < n ==> #[trigger] rights@[y] == right(*self, *other, m, y),
                        forall|y: int| 0 <= y < n ==> is_and(#[trigger] inter@[y], lefts@[y], rights@[y]),
                        forall|y: int| 0 <= y < n ==> meets(#[trigger] left(*self, *other, m, y), right(*self, *other, m, y))
                            == !inter@[y].is_empty(),
                        out@.len() >= out_start.len(),
                        forall|idx: int| 0 <= idx < out_start.len() ==> out@[idx] == #[trigger] out_start[idx],
                        forall|idx: int| 0 <= idx < out@.len() ==> is_combination(*self, *other, #[trigger] out@[idx]),
                        forall|pq: int|
                            (0 <= pq < p || pq == n) && #[trigger] admissible(*self, *other, m, pq) ==> labels.contains((m, pq)),
                        labels.len() == out@.len(),
                        forall|idx: int|
                            0 <= idx < out@.len() ==> is_matching((#[trigger] labels[idx]).0, alen as int, blen as int) && admissible(
                                *self,
                                *other,
                                labels[idx].0,
                                labels[idx].1,
                            ) && is_candidate(*self, *other, labels[idx].0, labels[idx].1, out@[idx]),
                        forall|i: int, j: int| 0 <= i < j < labels.len() ==> #[trigger] labels[i] != #[trigger] labels[j],
                        labels.len() >= labels_start.len(),
                        forall|idx: int| 0 <= idx < labels_start.len() ==> #[trigger] labels[idx] == labels_start[idx],
                        forall|idx: int|
                            labels_start.len() <= idx < labels.len() ==> (#[trigger] labels[idx]).0 == m && (labels[idx].1 < p
                                || labels[idx].1 == n),
                        forall|idx: int| 0 <= idx < labels_start.len() ==> (#[trigger] labels_start[idx]).0 != m,
                    decreases n - p,
                {
                    let ghost before = out@;
                    let ghost before_labels = labels;
                    if !lefts[p].is_subset_of(&rights[p]) && !rights[p].is_subset_of(&lefts[p])
                        && all_nonempty_but(&inter, p) {
                        let mut fin = copy_coords(&inter);
                        fin.set(p, lefts[p].bitor(rights[p]));
                        let line = Line { finite: fin, infinite };
                        assert(is_candidate(*self, *other, m, p as int, line));
                        assert(admissible(*self, *other, m, p as int));
                        proof {
                            assert forall|idx: int| 0 <= idx < labels.len() implies #[trigger] labels[idx] != (m, p as int) by {
                                if idx < labels_start.len() {
                                    assert(labels[idx] == labels_start[idx]);
                                    assert(labels_start[idx].0 != m);
                                }
                            }
                            labels = labels.push((m, p as int));
                        }
                        out.push(line);
                        assert(is_candidate(*self, *other, m, p as int, out@[out@.len() - 1]));
                    }
                    assert forall|pq: int|
                        (0 <= pq < p + 1 || pq == n) && #[trigger] admissible(*self, *other, m, pq) implies labels.contains((m, pq)) by {
                        if pq == p {
                            assert(labels[labels.len() - 1] == (m, pq));
                        } else {
                            let idx = choose|idx: int| 0 <= idx < before_labels.len() && before_labels[idx] == (m, pq);
                            assert(labels[idx] == (m, pq));
                        }
                    }
                    p = p + 1;
                }
            }
            proof {
                assert forall|i: int, pq: int|
                    0 <= i < t + 1 && #[trigger] admissible(*self, *other, matchings@[i]@, pq) implies labels.contains(
                    (matchings@[i]@, pq),
                ) by {
                    if i < t {
                        let idx = choose|idx: int| 0 <= idx < labels_start.len() && labels_start[idx] == (matchings@[i]@, pq);
                        assert(labels[idx] == labels_start[idx]);
                    } else {
                        assert(inf_meets);
                    }
                }
            }
            t = t + 1;
        }
        proof {
            assert forall|mt: Seq<usize>, p: int|
                is_matching(mt, alen as int, blen as int) && #[trigger] admissible(*self, *other, mt, p) implies exists|idx: int|
                    0 <= idx < out@.len() && is_candidate(*self, *other, mt, p, #[trigger] out@[idx]) by {
                assert(extends_prefix(mt, Seq::<usize>::empty()));
                let i = choose|i: int| 0 <= i < matchings@.len() && #[trigger] matchings@[i]@ == mt;
                assert(admissible(*self, *other, matchings@[i]@, p));
            }
        }
        out
    }
}

} // verus!
