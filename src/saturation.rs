//! The saturation search: combine known lines into new candidates until the
//! accepted lines form a closed antichain under domination.
use crate::bitarray::{lemma_lex_order, lemma_view_eq, lex_less, BitArray};
use crate::combination::{admissible, is_candidate, is_combination, is_matching, lemma_candidate_unique};
use crate::line::{
    dominates, lemma_dominates_reflexive, lemma_dominates_same_coordinates, lemma_dominates_transitive,
    lemma_multiset_same_line,
    lemma_same_lines_dominate_each_other, Line,
};
use vstd::prelude::*;

verus! {

broadcast use {
    vstd::seq_lib::group_to_multiset_ensures,
    vstd::seq_lib::lemma_seq_concat_contains_all_elements,
    vstd::seq_lib::lemma_seq_contains_after_push,
};

/// No line of `s` dominates another one of `s`.
pub open spec fn is_antichain<const C: usize>(s: Seq<Line<C>>) -> bool {
    forall|i: int, j: int| 0 <= i < s.len() && 0 <= j < s.len() && i != j ==> !dominates(#[trigger] s[i], #[trigger] s[j])
}

/// `s` is in non-decreasing order of words.
pub open spec fn is_sorted<const C: usize>(s: Seq<BitArray<C>>) -> bool {
    forall|i: int, j: int| 0 <= i < j < s.len() ==> !lex_less(#[trigger] s[j]@, #[trigger] s[i]@)
}

/// The key under which a line is remembered: its explicit coordinates in
/// order, then its infinite coordinate. Lines that differ only in the order of
/// their explicit coordinates get the same key.
pub fn canonical_key<const C: usize>(line: &Line<C>) -> (r: Vec<BitArray<C>>)
    ensures
        r@.len() == line.finite@.len() + 1,
        r@.last() == line.infinite,
        is_sorted(r@.drop_last()),
        r@.drop_last().to_multiset() == line.finite@.to_multiset(),
{
    let mut sorted: Vec<BitArray<C>> = Vec::new();
    let mut i: usize = 0;
    while i < line.finite.len()
        invariant
            i <= line.finite@.len(),
            sorted@.len() == i,
            is_sorted(sorted@),
            sorted@.to_multiset() == line.finite@.subrange(0, i as int).to_multiset(),
        decreases line.finite@.len() - i,
    {
        let x = line.finite[i];
        let mut pos: usize = 0;
        let mut stop = false;
        while !stop && pos < sorted.len()
            invariant
                pos <= sorted@.len(),
                forall|j: int| 0 <= j < pos ==> !lex_less(x@, #[trigger] sorted@[j]@),
                stop ==> pos < sorted@.len() && lex_less(x@, sorted@[pos as int]@),
            decreases sorted@.len() - pos + if stop {
                0int
            } else {
                1int
            },
        {
            if let core::cmp::Ordering::Less = x.cmp(&sorted[pos]) {
                stop = true;
            } else {
                pos = pos + 1;
            }
        }
        let ghost before = sorted@;
        sorted.insert(pos, x);
        proof {
            assert forall|a: int, b: int| 0 <= a < b < sorted@.len() implies !lex_less(
                #[trigger] sorted@[b]@,
                #[trigger] sorted@[a]@,
            ) by {
                if b < pos {
                    assert(sorted@[a] == before[a] && sorted@[b] == before[b]);
                } else if b == pos {
                    assert(sorted@[a] == before[a]);
                } else if a == pos {
                    assert(sorted@[b] == before[b - 1]);
                    assert(stop);
                    assert(lex_less(x@, before[pos as int]@));
                    if b - 1 > pos {
                        assert(!lex_less(before[b - 1]@, before[pos as int]@));
                    }
                    lemma_lex_order(x, before[pos as int], before[b - 1]);
                    lemma_lex_order(before[b - 1], x, before[pos as int]);
                    lemma_lex_order(before[pos as int], before[b - 1], x);
                } else if a < pos {
                    assert(sorted@[a] == before[a] && sorted@[b] == before[b - 1]);
                } else {
                    assert(sorted@[a] == before[a - 1] && sorted@[b] == before[b - 1]);
                }
            }
            assert(line.finite@.subrange(0, i + 1) =~= line.finite@.subrange(0, i as int).push(x));
        }
        i = i + 1;
    }
    assert(line.finite@.subrange(0, i as int) =~= line.finite@);
    let ghost body = sorted@;
    sorted.push(line.infinite);
    assert(sorted@.drop_last() =~= body);
    sorted
}


/// Whether some line of `lines` dominates `c`.
fn any_dominates<const C: usize>(lines: &Vec<Line<C>>, c: &Line<C>) -> (r: bool)
    ensures
        r == exists|i: int| 0 <= i < lines@.len() && dominates(#[trigger] lines@[i], *c),
{
    let mut i: usize = 0;
    while i < lines.len()
        invariant
            i <= lines@.len(),
            forall|j: int| 0 <= j < i ==> !dominates(#[trigger] lines@[j], *c),
        decreases lines@.len() - i,
    {
        if lines[i].ge(c) {
            return true;
        }
        i = i + 1;
    }
    false
}

/// Removing a line keeps an antichain an antichain.
proof fn lemma_antichain_remove<const C: usize>(s: Seq<Line<C>>, i: int)
    requires
        is_antichain(s),
        0 <= i < s.len(),
    ensures
        is_antichain(s.remove(i)),
{
    let t = s.remove(i);
    assert forall|a: int, b: int| 0 <= a < t.len() && 0 <= b < t.len() && a != b implies !dominates(
        #[trigger] t[a],
        #[trigger] t[b],
    ) by {
        let a2 = if a < i { a } else { a + 1 };
        let b2 = if b < i { b } else { b + 1 };
        assert(t[a] == s[a2] && t[b] == s[b2]);
    }
}

/// Removes from `lines` every line that `by` dominates, keeping the others.
fn remove_dominated<const C: usize>(lines: &mut Vec<Line<C>>, by: &Line<C>)
    ensures
        forall|k: int| 0 <= k < final(lines)@.len() ==> !dominates(*by, #[trigger] final(lines)@[k]),
        forall|k: int| 0 <= k < final(lines)@.len() ==> #[trigger] old(lines)@.contains(final(lines)@[k]),
        forall|k: int|
            0 <= k < old(lines)@.len() && !dominates(*by, #[trigger] old(lines)@[k]) ==> final(lines)@.contains(
                old(lines)@[k],
            ),
        is_antichain(old(lines)@) ==> is_antichain(final(lines)@),
        (forall|k: int| 0 <= k < old(lines)@.len() ==> !dominates(*by, #[trigger] old(lines)@[k])) ==> final(lines)@
            == old(lines)@,
        exists|f: Seq<int>|
            {
                &&& f.len() == final(lines)@.len()
                &&& forall|k: int| 0 <= k < f.len() ==> 0 <= #[trigger] f[k] < old(lines)@.len() && final(lines)@[k] == old(lines)@[f[k]]
                &&& forall|k1: int, k2: int| 0 <= k1 < k2 < f.len() ==> #[trigger] f[k1] < #[trigger] f[k2]
            },
{
    let ghost mut f: Seq<int> = Seq::new(lines@.len(), |k: int| k);
    let mut i: usize = 0;
    while i < lines.len()
        invariant
            i <= lines@.len(),
            forall|k: int| 0 <= k < i ==> !dominates(*by, #[trigger] lines@[k]),
            forall|k: int| 0 <= k < lines@.len() ==> #[trigger] old(lines)@.contains(lines@[k]),
            forall|k: int|
                0 <= k < old(lines)@.len() && !dominates(*by, #[trigger] old(lines)@[k]) ==> lines@.contains(
                    old(lines)@[k],
                ),
            is_antichain(old(lines)@) ==> is_antichain(lines@),
            (forall|k: int| 0 <= k < old(lines)@.len() ==> !dominates(*by, #[trigger] old(lines)@[k])) ==> lines@
                == old(lines)@,
            f.len() == lines@.len(),
            forall|k: int| 0 <= k < f.len() ==> 0 <= #[trigger] f[k] < old(lines)@.len() && lines@[k] == old(lines)@[f[k]],
            forall|k1: int, k2: int| 0 <= k1 < k2 < f.len() ==> #[trigger] f[k1] < #[trigger] f[k2],
        decreases lines@.len() - i,
    {
        if by.ge(&lines[i]) {
            let ghost before = lines@;
            assert(!forall|k: int| 0 <= k < old(lines)@.len() ==> !dominates(*by, #[trigger] old(lines)@[k])) by {
                if forall|k: int| 0 <= k < old(lines)@.len() ==> !dominates(*by, #[trigger] old(lines)@[k]) {
                    assert(lines@ == old(lines)@);
                    assert(!dominates(*by, old(lines)@[i as int]));
                }
            }
            proof {
                if is_antichain(before) {
                    lemma_antichain_remove(before, i as int);
                }
            }
            lines.remove(i);
            proof {
                let f0 = f;
                f = f.remove(i as int);
                assert forall|k: int| 0 <= k < f.len() implies 0 <= #[trigger] f[k] < old(lines)@.len() && lines@[k] == old(lines)@[f[k]] by {
                    let k2 = if k < i { k } else { k + 1 };
                    assert(f[k] == f0[k2]);
                    assert(lines@[k] == before[k2]);
                }
                assert forall|k1: int, k2: int| 0 <= k1 < k2 < f.len() implies #[trigger] f[k1] < #[trigger] f[k2] by {
                    let a1 = if k1 < i { k1 } else { k1 + 1 };
                    let a2 = if k2 < i { k2 } else { k2 + 1 };
                    assert(f[k1] == f0[a1] && f[k2] == f0[a2]);
                }
            }
            assert forall|k: int| 0 <= k < lines@.len() implies #[trigger] old(lines)@.contains(lines@[k]) by {
                let k2 = if k < i { k } else { k + 1 };
                assert(lines@[k] == before[k2]);
                assert(old(lines)@.contains(before[k2]));
            }
            assert forall|k: int|
                0 <= k < old(lines)@.len() && !dominates(*by, #[trigger] old(lines)@[k]) implies lines@.contains(
                    old(lines)@[k],
                ) by {
                let y = old(lines)@[k];
                assert(before.contains(y));
                let t = choose|t: int| 0 <= t < before.len() && before[t] == y;
                assert(t != i);
                let t2 = if t < i { t } else { t - 1 };
                assert(lines@[t2] == y);
            }
        } else {
            i = i + 1;
        }
    }
}

/// Whether two keys hold the same sets in the same order.
fn keys_equal<const C: usize>(a: &Vec<BitArray<C>>, b: &Vec<BitArray<C>>) -> (r: bool)
    ensures
        r == (a@ == b@),
{
    if a.len() != b.len() {
        return false;
    }
    let mut i: usize = 0;
    while i < a.len()
        invariant
            a@.len() == b@.len(),
            i <= a@.len(),
            forall|j: int| 0 <= j < i ==> #[trigger] a@[j] == b@[j],
        decreases a@.len() - i,
    {
        if a[i] != b[i] {
            return false;
        }
        proof {
            lemma_view_eq(a@[i as int], b@[i as int]);
        }
        i = i + 1;
    }
    assert(a@ =~= b@);
    true
}

/// Whether `key` is among `keys`.
fn contains_key<const C: usize>(keys: &Vec<Vec<BitArray<C>>>, key: &Vec<BitArray<C>>) -> (r: bool)
    ensures
        r == exists|i: int| 0 <= i < keys@.len() && (#[trigger] keys@[i])@ == key@,
{
    let mut i: usize = 0;
    while i < keys.len()
        invariant
            i <= keys@.len(),
            forall|j: int| 0 <= j < i ==> (#[trigger] keys@[j])@ != key@,
        decreases keys@.len() - i,
    {
        if keys_equal(&keys[i], key) {
            return true;
        }
        i = i + 1;
    }
    false
}


/// What one step of the search did.
#[derive(Clone, Copy, Debug, PartialEq, Eq)]
pub enum Step {
    /// No line was pending.
    Finished,
    /// The next pending line was dominated by a known line and dropped.
    Discarded,
    /// The next pending line was accepted and combined with the accepted ones.
    Accepted,
}

/// The state of the search.
pub struct Saturation<const C: usize> {
    /// Lines waiting to be examined, first in first out.
    pub todo: Vec<Line<C>>,
    /// The accepted lines.
    pub done: Vec<Line<C>>,
    /// Keys of lines already known to be dominated.
    pub useless: Vec<Vec<BitArray<C>>>,
}

/// Some line of `todo` after the first, or of `done`, dominates `l`.
pub open spec fn is_superseded<const C: usize>(todo: Seq<Line<C>>, done: Seq<Line<C>>, l: Line<C>) -> bool {
    exists|x: Line<C>| (todo.drop_first().contains(x) || done.contains(x)) && #[trigger] dominates(x, l)
}

/// Line `k` of `todo` is a new candidate: a combination of a line of `done`
/// with `l` that no line of `done` and no earlier line of `todo` dominates.
pub open spec fn is_new_candidate<const C: usize>(
    todo: Seq<Line<C>>,
    done: Seq<Line<C>>,
    l: Line<C>,
    k: int,
) -> bool {
    &&& exists|i: int| 0 <= i < done.len() && is_combination(#[trigger] done[i], l, todo[k])
    &&& forall|j: int| 0 <= j < done.len() ==> !dominates(#[trigger] done[j], todo[k])
    &&& forall|j: int| 0 <= j < k ==> !dominates(#[trigger] todo[j], todo[k])
}

/// `done` and `todo` are what accepting the first line `l` of `old_todo`
/// makes of `old_todo` and `old_done`: `l` comes last in `done` after the
/// lines of `old_done` that it does not dominate, and `todo` holds the lines
/// of `old_todo` after `l` that it does not dominate, followed by new
/// candidates.
pub open spec fn is_acceptance<const C: usize>(
    old_todo: Seq<Line<C>>,
    old_done: Seq<Line<C>>,
    todo: Seq<Line<C>>,
    done: Seq<Line<C>>,
) -> bool {
    let l = old_todo[0];
    &&& done.len() > 0
    &&& done.last() == l
    &&& forall|y: Line<C>| #[trigger] done.drop_last().contains(y) == (old_done.contains(y) && !dominates(l, y))
    &&& (forall|y: Line<C>| #[trigger] old_done.contains(y) ==> !dominates(l, y)) ==> done.drop_last() == old_done
    &&& forall|y: Line<C>| #[trigger] old_todo.drop_first().contains(y) && !dominates(l, y) ==> todo.contains(y)
    &&& exists|n0: int|
        {
            &&& 0 <= n0 <= todo.len()
            &&& forall|k: int|
                0 <= k < n0 ==> old_todo.drop_first().contains(#[trigger] todo[k]) && !dominates(l, todo[k])
            &&& forall|k: int| n0 <= k < todo.len() ==> #[trigger] is_new_candidate(todo, done, l, k)
            &&& (forall|y: Line<C>| #[trigger] old_todo.drop_first().contains(y) ==> !dominates(l, y))
                ==> todo.subrange(0, n0) == old_todo.drop_first()
        }
}

/// Every combination of two lines of `s`, the earlier one first, is
/// dominated by a line of `s`.
pub open spec fn is_closed<const C: usize>(s: Seq<Line<C>>) -> bool {
    forall|i: int, j: int, c: Line<C>|
        0 <= i <= j < s.len() && #[trigger] is_combination(s[i], s[j], c) ==> exists|x: Line<C>|
            s.contains(x) && #[trigger] dominates(x, c)
}

/// A finished search, with no line pending, has accepted a closed antichain.
pub proof fn lemma_finished_is_closed<const C: usize>(s: Saturation<C>)
    requires
        s.wf(),
        s.todo@.len() == 0,
    ensures
        is_antichain(s.done@),
        is_closed(s.done@),
{
    assert(s.todo@ + s.done@ =~= s.done@);
}

/// A search whose accepted lines followed by its pending lines form a closed
/// antichain `s` accepts its next pending line and still holds `s` in the
/// same order: re-running the search on what a completed run accepted gives
/// the same lines back, one step at a time.
pub proof fn lemma_closed_antichain_is_fixed<const C: usize>(
    s0: Saturation<C>,
    s1: Saturation<C>,
    r: Step,
    s: Seq<Line<C>>,
)
    requires
        s0.done@ + s0.todo@ == s,
        is_antichain(s),
        is_closed(s),
        s0.todo@.len() > 0,
        step_outcome(s0, s1, r),
    ensures
        r == Step::Accepted,
        s1.done@ + s1.todo@ == s,
        s1.todo@.len() + 1 == s0.todo@.len(),
{
    let nd = s0.done@.len() as int;
    let l = s0.todo@[0];
    assert(s[nd] == l);
    if is_superseded(s0.todo@, s0.done@, l) {
        let x = choose|x: Line<C>| (s0.todo@.drop_first().contains(x) || s0.done@.contains(x)) && #[trigger] dominates(x, l);
        if s0.todo@.drop_first().contains(x) {
            let t = choose|t: int| 0 <= t < s0.todo@.drop_first().len() && s0.todo@.drop_first()[t] == x;
            assert(s[nd + 1 + t] == x);
        } else {
            let t = choose|t: int| 0 <= t < nd && s0.done@[t] == x;
            assert(s[t] == x);
        }
    }
    assert(r == Step::Accepted);
    let done = s1.done@;
    let todo = s1.todo@;
    assert forall|y: Line<C>| #[trigger] s0.done@.contains(y) implies !dominates(l, y) by {
        let t = choose|t: int| 0 <= t < nd && s0.done@[t] == y;
        assert(s[t] == y);
    }
    assert(done.drop_last() == s0.done@);
    assert forall|y: Line<C>| #[trigger] s0.todo@.drop_first().contains(y) implies !dominates(l, y) by {
        let t = choose|t: int| 0 <= t < s0.todo@.drop_first().len() && s0.todo@.drop_first()[t] == y;
        assert(s[nd + 1 + t] == y);
    }
    let n0 = choose|n0: int|
        {
            &&& 0 <= n0 <= todo.len()
            &&& forall|k: int|
                0 <= k < n0 ==> s0.todo@.drop_first().contains(#[trigger] todo[k]) && !dominates(l, todo[k])
            &&& forall|k: int| n0 <= k < todo.len() ==> #[trigger] is_new_candidate(todo, done, l, k)
            &&& (forall|y: Line<C>| #[trigger] s0.todo@.drop_first().contains(y) ==> !dominates(l, y))
                ==> todo.subrange(0, n0) == s0.todo@.drop_first()
        };
    assert(done =~= s0.done@.push(l));
    if n0 < todo.len() {
        let c = todo[n0];
        assert(is_new_candidate(todo, done, l, n0));
        let i = choose|i: int| 0 <= i < done.len() && is_combination(#[trigger] done[i], l, todo[n0]);
        assert(done[i] == s[i]);
        assert(is_combination(s[i], s[nd], c));
        let x = choose|x: Line<C>| s.contains(x) && #[trigger] dominates(x, c);
        let t = choose|t: int| 0 <= t < s.len() && s[t] == x;
        if t <= nd {
            assert(done[t] == x);
        } else {
            assert(todo.subrange(0, n0) == s0.todo@.drop_first());
            assert(todo.subrange(0, n0).len() == n0);
            assert(t - nd - 1 < n0);
            assert(s0.todo@.drop_first()[t - nd - 1] == x);
            assert(todo.subrange(0, n0)[t - nd - 1] == todo[t - nd - 1]);
            assert(todo[t - nd - 1] == x);
        }
    }
    assert(todo =~= todo.subrange(0, n0));
    assert(s1.done@ + s1.todo@ =~= s);
}

/// Some line of `pool` dominates `c`.
pub open spec fn covered_by<const C: usize>(pool: Seq<Line<C>>, c: Line<C>) -> bool {
    exists|x: Line<C>| pool.contains(x) && #[trigger] dominates(x, c)
}

/// Every line of `old` is dominated by a line of `new`.
pub open spec fn covers<const C: usize>(new: Seq<Line<C>>, old: Seq<Line<C>>) -> bool {
    forall|y: Line<C>| #[trigger] old.contains(y) ==> covered_by(new, y)
}

/// `u` is a key of `c`: the explicit coordinates of `c` in some order, then
/// its infinite one.
pub open spec fn has_key<const C: usize>(c: Line<C>, u: Seq<BitArray<C>>) -> bool {
    &&& u.len() > 0
    &&& c.infinite == u.last()
    &&& c.finite@.to_multiset() == u.drop_last().to_multiset()
}

/// Every combination of accepted lines `i2 <= j2`, where `j2 < li` or
/// `i2 < upto`, is dominated by a line of `pool`.
pub open spec fn pairs_covered<const C: usize>(done: Seq<Line<C>>, li: int, upto: int, pool: Seq<Line<C>>) -> bool {
    forall|i2: int, j2: int, c: Line<C>|
        0 <= i2 <= j2 < done.len() && (j2 < li || i2 < upto) && #[trigger] is_combination(done[i2], done[j2], c)
            ==> covered_by(pool, c)
}

/// Every line with one of the keys `from..to` of `keys` is dominated by a
/// line of `pool`.
pub open spec fn keys_covered<const C: usize>(keys: Seq<Vec<BitArray<C>>>, from: int, to: int, pool: Seq<Line<C>>) -> bool {
    forall|t: int, c: Line<C>| from <= t < to && #[trigger] has_key(c, keys[t]@) ==> covered_by(pool, c)
}

/// Every combination of two accepted lines, the earlier one first, and
/// every line with a remembered key is dominated by an accepted or pending
/// line.
pub open spec fn is_covered_state<const C: usize>(
    todo: Seq<Line<C>>,
    done: Seq<Line<C>>,
    keys: Seq<Vec<BitArray<C>>>,
) -> bool {
    &&& pairs_covered(done, done.len() as int, 0, todo + done)
    &&& keys_covered(keys, 0, keys.len() as int, todo + done)
}

proof fn lemma_covered_moves<const C: usize>(old: Seq<Line<C>>, new: Seq<Line<C>>, c: Line<C>)
    requires
        covered_by(old, c),
        covers(new, old),
    ensures
        covered_by(new, c),
{
    let x = choose|x: Line<C>| old.contains(x) && #[trigger] dominates(x, c);
    assert(covered_by(new, x));
    let z = choose|z: Line<C>| new.contains(z) && #[trigger] dominates(z, x);
    lemma_dominates_transitive(z, x, c);
}

proof fn lemma_covers_members<const C: usize>(new: Seq<Line<C>>, old: Seq<Line<C>>)
    requires
        forall|y: Line<C>| #[trigger] old.contains(y) ==> new.contains(y),
    ensures
        covers(new, old),
{
    assert forall|y: Line<C>| #[trigger] old.contains(y) implies covered_by(new, y) by {
        lemma_dominates_reflexive(y);
    }
}

proof fn lemma_pairs_move<const C: usize>(done: Seq<Line<C>>, li: int, upto: int, old: Seq<Line<C>>, new: Seq<Line<C>>)
    requires
        pairs_covered(done, li, upto, old),
        covers(new, old),
    ensures
        pairs_covered(done, li, upto, new),
{
    assert forall|i2: int, j2: int, c: Line<C>|
        0 <= i2 <= j2 < done.len() && (j2 < li || i2 < upto) && #[trigger] is_combination(done[i2], done[j2], c)
            implies covered_by(new, c) by {
        lemma_covered_moves(old, new, c);
    }
}

proof fn lemma_keys_move<const C: usize>(keys: Seq<Vec<BitArray<C>>>, from: int, to: int, old: Seq<Line<C>>, new: Seq<Line<C>>)
    requires
        keys_covered(keys, from, to, old),
        covers(new, old),
    ensures
        keys_covered(keys, from, to, new),
{
    assert forall|t: int, c: Line<C>| from <= t < to && #[trigger] has_key(c, keys[t]@) implies covered_by(new, c) by {
        lemma_covered_moves(old, new, c);
    }
}

/// A line dominated by `w` and every line with a key of `w` is dominated by
/// what dominates `w`.
proof fn lemma_key_covered<const C: usize>(pool: Seq<Line<C>>, w: Line<C>, u: Seq<BitArray<C>>, c: Line<C>)
    requires
        covered_by(pool, w),
        has_key(w, u),
        has_key(c, u),
    ensures
        covered_by(pool, c),
{
    lemma_multiset_same_line(w, c);
    lemma_same_lines_dominate_each_other(w, c);
    let x = choose|x: Line<C>| pool.contains(x) && #[trigger] dominates(x, w);
    lemma_dominates_transitive(x, w, c);
}

/// The end of a round: with the round's antichain empty, the remembered
/// keys and the combinations of accepted line `i` with the last one are
/// dominated by accepted or pending lines.
proof fn lemma_round_done<const C: usize>(
    done: Seq<Line<C>>,
    li: int,
    i: int,
    all_cands: Seq<Line<C>>,
    todo: Seq<Line<C>>,
    keys: Seq<Vec<BitArray<C>>>,
    keys0: Seq<Vec<BitArray<C>>>,
)
    requires
        li == done.len() - 1,
        0 <= i < done.len(),
        keys.len() >= keys0.len(),
        forall|t: int| 0 <= t < keys0.len() ==> #[trigger] keys[t] == keys0[t],
        keys_covered(keys0, 0, keys0.len() as int, todo + done),
        keys_covered(keys, keys0.len() as int, keys.len() as int, todo + done),
        pairs_covered(done, li, i, todo + done),
        forall|k: int| 0 <= k < all_cands.len() ==> covered_by(todo + done, #[trigger] all_cands[k]),
        forall|mt: Seq<usize>, p: int|
            is_matching(mt, done[i].finite@.len() as int, done[li].finite@.len() as int) && #[trigger] admissible(
                done[i],
                done[li],
                mt,
                p,
            ) ==> exists|idx: int| 0 <= idx < all_cands.len() && is_candidate(done[i], done[li], mt, p, #[trigger] all_cands[idx]),
    ensures
        keys_covered(keys, 0, keys.len() as int, todo + done),
        pairs_covered(done, li, i + 1, todo + done),
{
    let pool = todo + done;
    assert forall|t: int, w: Line<C>| 0 <= t < keys.len() && #[trigger] has_key(w, keys[t]@) implies covered_by(pool, w) by {
        if t < keys0.len() {
            assert(has_key(w, keys0[t]@));
        }
    }
    assert forall|i2: int, j2: int, c: Line<C>|
        0 <= i2 <= j2 < done.len() && (j2 < li || i2 < i + 1) && #[trigger] is_combination(done[i2], done[j2], c)
            implies covered_by(pool, c) by {
        if !(j2 < li || i2 < i) {
            assert(i2 == i && j2 == li);
            let (mt, p) = choose|mt: Seq<usize>, p: int|
                is_matching(mt, done[i2].finite@.len() as int, done[j2].finite@.len() as int) && admissible(done[i2], done[j2], mt, p)
                    && #[trigger] is_candidate(done[i2], done[j2], mt, p, c);
            assert(admissible(done[i2], done[j2], mt, p));
            let idx = choose|idx: int| 0 <= idx < all_cands.len() && is_candidate(done[i2], done[j2], mt, p, #[trigger] all_cands[idx]);
            lemma_candidate_unique(done[i2], done[j2], mt, p, c, all_cands[idx]);
            assert(covered_by(pool, all_cands[idx]));
            let x = choose|x: Line<C>| pool.contains(x) && #[trigger] dominates(x, all_cands[idx]);
            lemma_dominates_same_coordinates(x, all_cands[idx], c);
        }
    }
}

/// What one step does to the search, from `s0` to `s1`, reporting `r`.
pub open spec fn step_outcome<const C: usize>(s0: Saturation<C>, s1: Saturation<C>, r: Step) -> bool {
    &&& (r == Step::Finished) == (s0.todo@.len() == 0)
    &&& r == Step::Finished ==> s1.todo@ == s0.todo@ && s1.done@ == s0.done@
    &&& s0.todo@.len() > 0 ==> ((r == Step::Discarded) == is_superseded(s0.todo@, s0.done@, s0.todo@[0]))
    &&& r == Step::Discarded ==> s1.todo@ == s0.todo@.drop_first() && s1.done@ == s0.done@
    &&& r == Step::Accepted ==> is_acceptance(s0.todo@, s0.done@, s1.todo@, s1.done@)
}

impl<const C: usize> Saturation<C> {
    /// The accepted lines form an antichain, and every combination of two of
    /// them and every line with a remembered key is dominated by an accepted
    /// or pending line.
    pub open spec fn wf(&self) -> bool {
        &&& is_antichain(self.done@)
        &&& is_covered_state(self.todo@, self.done@, self.useless@)
    }

    /// A search that starts from `seeds`.
    pub fn new(seeds: Vec<Line<C>>) -> (r: Self)
        requires
            seeds@.len() > 0,
        ensures
            r.todo@ == seeds@,
            r.done@.len() == 0,
            r.useless@.len() == 0,
            r.wf(),
    {
        Saturation { todo: seeds, done: Vec::new(), useless: Vec::new() }
    }

    /// Remembers that `line` is dominated.
    fn mark_useless(&mut self, line: &Line<C>)
        ensures
            final(self).todo@ == old(self).todo@,
            final(self).done@ == old(self).done@,
            final(self).useless@.len() >= old(self).useless@.len(),
            forall|t: int| 0 <= t < old(self).useless@.len() ==> #[trigger] final(self).useless@[t] == old(self).useless@[t],
            forall|t: int|
                old(self).useless@.len() <= t < final(self).useless@.len() ==> has_key(*line, #[trigger] final(self).useless@[t]@),
    {
        let key = canonical_key(line);
        if !contains_key(&self.useless, &key) {
            self.useless.push(key);
        }
    }

    /// Takes candidate `c` into the round's antichain `kept`, unless one of
    /// the remembered keys or a line of `kept` already covers it; lines of
    /// `kept` that `c` dominates leave it.
    fn prune_into(
        &mut self,
        kept: &mut Vec<Line<C>>,
        c: Line<C>,
        Ghost(rest): Ghost<Seq<Line<C>>>,
        Ghost(u0): Ghost<int>,
        Ghost(x): Ghost<Line<C>>,
        Ghost(y): Ghost<Line<C>>,
    )
        requires
            0 <= u0 <= old(self).useless@.len(),
            keys_covered(old(self).useless@, 0, u0, rest),
            keys_covered(old(self).useless@, u0, old(self).useless@.len() as int, old(kept)@ + rest),
            is_combination(x, y, c),
            forall|k: int| 0 <= k < old(kept)@.len() ==> is_combination(x, y, #[trigger] old(kept)@[k]),
        ensures
            final(self).todo@ == old(self).todo@,
            final(self).done@ == old(self).done@,
            final(self).useless@.len() >= old(self).useless@.len(),
            forall|t: int| 0 <= t < old(self).useless@.len() ==> #[trigger] final(self).useless@[t] == old(self).useless@[t],
            keys_covered(final(self).useless@, u0, final(self).useless@.len() as int, final(kept)@ + rest),
            covers(final(kept)@ + rest, old(kept)@ + rest),
            covered_by(final(kept)@ + rest, c),
            forall|k: int| 0 <= k < final(kept)@.len() ==> is_combination(x, y, #[trigger] final(kept)@[k]),
    {
        let ghost pool = kept@ + rest;
        let ghost keys_before = self.useless@;
        proof {
            lemma_covers_members(pool, pool);
        }
        let key = canonical_key(&c);
        assert(has_key(c, key@));
        if contains_key(&self.useless, &key) {
            proof {
                let t = choose|t: int| 0 <= t < self.useless@.len() && (#[trigger] self.useless@[t])@ == key@;
                assert(has_key(c, self.useless@[t]@));
                if t < u0 {
                    lemma_covers_members(pool, rest);
                    lemma_covered_moves(rest, pool, c);
                }
            }
            return;
        }
        if any_dominates(kept, &c) {
            self.useless.push(key);
            proof {
                let k = choose|k: int| 0 <= k < kept@.len() && dominates(#[trigger] kept@[k], c);
                assert(pool.contains(kept@[k]));
                assert(covered_by(pool, c));
                assert forall|t: int, w: Line<C>|
                    u0 <= t < self.useless@.len() && #[trigger] has_key(w, self.useless@[t]@) implies covered_by(pool, w) by {
                    if t == keys_before.len() {
                        lemma_key_covered(pool, c, key@, w);
                    } else {
                        assert(self.useless@[t] == keys_before[t]);
                        assert(has_key(w, keys_before[t]@));
                    }
                }
            }
            return;
        }
        let ghost before = kept@;
        remove_dominated(kept, &c);
        assert forall|k: int| 0 <= k < kept@.len() implies is_combination(x, y, #[trigger] kept@[k]) by {
            assert(before.contains(kept@[k]));
        }
        let ghost middle = kept@;
        kept.push(c);
        proof {
            let pool2 = kept@ + rest;
            assert(kept@ == middle.push(c));
            assert(pool2.contains(c));
            lemma_dominates_reflexive(c);
            assert forall|w: Line<C>| #[trigger] pool.contains(w) implies covered_by(pool2, w) by {
                if before.contains(w) && !dominates(c, w) {
                    let t = choose|t: int| 0 <= t < before.len() && before[t] == w;
                    assert(middle.contains(w));
                    assert(kept@.contains(w));
                    lemma_dominates_reflexive(w);
                } else if !before.contains(w) {
                    assert(rest.contains(w));
                    lemma_dominates_reflexive(w);
                }
            }
            lemma_keys_move(self.useless@, u0, self.useless@.len() as int, pool, pool2);
        }
    }

    /// Queues candidate `c` unless an accepted or pending line dominates it,
    /// in which case its key is remembered.
    fn settle(
        &mut self,
        c: Line<C>,
        Ghost(kept): Ghost<Seq<Line<C>>>,
        Ghost(u0): Ghost<int>,
        Ghost(kept_todo): Ghost<Seq<Line<C>>>,
        Ghost(i): Ghost<int>,
    )
        requires
            0 <= i < old(self).done@.len(),
            is_combination(old(self).done@[i], old(self).done@.last(), c),
            old(self).todo@.len() >= kept_todo.len(),
            forall|k: int| 0 <= k < kept_todo.len() ==> #[trigger] old(self).todo@[k] == kept_todo[k],
            forall|k: int|
                kept_todo.len() <= k < old(self).todo@.len() ==> is_new_candidate(
                    old(self).todo@,
                    old(self).done@,
                    old(self).done@.last(),
                    k,
                ),
            0 <= u0 <= old(self).useless@.len(),
            keys_covered(
                old(self).useless@,
                u0,
                old(self).useless@.len() as int,
                seq![c] + kept + old(self).todo@ + old(self).done@,
            ),
        ensures
            final(self).done@ == old(self).done@,
            final(self).todo@.len() >= kept_todo.len(),
            forall|k: int| 0 <= k < kept_todo.len() ==> #[trigger] final(self).todo@[k] == kept_todo[k],
            forall|k: int|
                kept_todo.len() <= k < final(self).todo@.len() ==> is_new_candidate(
                    final(self).todo@,
                    old(self).done@,
                    old(self).done@.last(),
                    k,
                ),
            final(self).useless@.len() >= old(self).useless@.len(),
            forall|t: int| 0 <= t < old(self).useless@.len() ==> #[trigger] final(self).useless@[t] == old(self).useless@[t],
            keys_covered(final(self).useless@, u0, final(self).useless@.len() as int, kept + final(self).todo@ + old(self).done@),
            covers(kept + final(self).todo@ + old(self).done@, seq![c] + kept + old(self).todo@ + old(self).done@),
            covers(final(self).todo@ + old(self).done@, old(self).todo@ + old(self).done@),
    {
        let ghost done = self.done@;
        let ghost l = done.last();
        let ghost todo_before = self.todo@;
        let ghost keys_before = self.useless@;
        let ghost pool = seq![c] + kept + todo_before + done;
        if any_dominates(&self.todo, &c) || any_dominates(&self.done, &c) {
            self.mark_useless(&c);
            proof {
                let pool2 = kept + todo_before + done;
                assert(covered_by(pool2, c)) by {
                    if exists|x: int| 0 <= x < todo_before.len() && dominates(#[trigger] todo_before[x], c) {
                        let x = choose|x: int| 0 <= x < todo_before.len() && dominates(#[trigger] todo_before[x], c);
                        assert(todo_before.contains(todo_before[x]));
                        assert(pool2.contains(todo_before[x]));
                    } else {
                        let x = choose|x: int| 0 <= x < done.len() && dominates(#[trigger] done[x], c);
                        assert(done.contains(done[x]));
                        assert(pool2.contains(done[x]));
                    }
                }
                assert forall|w: Line<C>| #[trigger] pool.contains(w) implies covered_by(pool2, w) by {
                    if w != c {
                        assert((seq![c] + kept).contains(w) ==> kept.contains(w)) by {
                            if (seq![c] + kept).contains(w) {
                                let t = choose|t: int| 0 <= t < (seq![c] + kept).len() && (seq![c] + kept)[t] == w;
                                assert(kept[t - 1] == w);
                            }
                        }
                        lemma_dominates_reflexive(w);
                    }
                }
                lemma_keys_move(keys_before, u0, keys_before.len() as int, pool, pool2);
                assert forall|t: int, w: Line<C>|
                    u0 <= t < self.useless@.len() && #[trigger] has_key(w, self.useless@[t]@) implies covered_by(pool2, w) by {
                    if t >= keys_before.len() {
                        lemma_key_covered(pool2, c, self.useless@[t]@, w);
                    } else {
                        assert(self.useless@[t] == keys_before[t]);
                        assert(has_key(w, keys_before[t]@));
                    }
                }
                lemma_covers_members(todo_before + done, todo_before + done);
            }
        } else {
            self.todo.push(c);
            proof {
                let n = todo_before.len() as int;
                assert(self.todo@[n] == c);
                assert(is_combination(done[i], l, self.todo@[n]));
                assert forall|k: int| kept_todo.len() <= k < self.todo@.len() implies is_new_candidate(
                    self.todo@,
                    done,
                    l,
                    k,
                ) by {
                    if k < n {
                        assert(is_new_candidate(todo_before, done, l, k));
                        assert forall|j2: int| 0 <= j2 < k implies !dominates(#[trigger] self.todo@[j2], self.todo@[k]) by {
                            assert(self.todo@[j2] == todo_before[j2]);
                        }
                        let i2 = choose|i2: int| 0 <= i2 < done.len() && is_combination(#[trigger] done[i2], l, todo_before[k]);
                        assert(is_combination(done[i2], l, self.todo@[k]));
                    } else {
                        assert forall|j2: int| 0 <= j2 < k implies !dominates(#[trigger] self.todo@[j2], self.todo@[k]) by {
                            assert(self.todo@[j2] == todo_before[j2]);
                        }
                        assert(is_combination(done[i], l, self.todo@[k]));
                    }
                }
                let pool2 = kept + self.todo@ + done;
                assert(self.todo@ == todo_before.push(c));
                assert forall|w: Line<C>| #[trigger] pool.contains(w) implies pool2.contains(w) by {
                    if (seq![c] + kept).contains(w) && w != c {
                        let t = choose|t: int| 0 <= t < (seq![c] + kept).len() && (seq![c] + kept)[t] == w;
                        assert(kept[t - 1] == w);
                    }
                }
                lemma_covers_members(pool2, pool);
                lemma_covers_members(self.todo@ + done, todo_before + done);
                lemma_keys_move(self.useless@, u0, self.useless@.len() as int, pool, pool2);
            }
        }
    }

    /// Combines accepted line `i` with the last accepted line, prunes the
    /// candidates to an antichain, skipping remembered keys, and queues the
    /// ones that no accepted or pending line dominates.
    fn combine_round(&mut self, i: usize, Ghost(kept_todo): Ghost<Seq<Line<C>>>)
        requires
            i < old(self).done@.len(),
            old(self).todo@.len() >= kept_todo.len(),
            forall|k: int| 0 <= k < kept_todo.len() ==> #[trigger] old(self).todo@[k] == kept_todo[k],
            forall|k: int|
                kept_todo.len() <= k < old(self).todo@.len() ==> is_new_candidate(
                    old(self).todo@,
                    old(self).done@,
                    old(self).done@.last(),
                    k,
                ),
            pairs_covered(old(self).done@, old(self).done@.len() - 1, i as int, old(self).todo@ + old(self).done@),
            keys_covered(old(self).useless@, 0, old(self).useless@.len() as int, old(self).todo@ + old(self).done@),
        ensures
            final(self).done@ == old(self).done@,
            final(self).todo@.len() >= kept_todo.len(),
            forall|k: int| 0 <= k < kept_todo.len() ==> #[trigger] final(self).todo@[k] == kept_todo[k],
            forall|k: int|
                kept_todo.len() <= k < final(self).todo@.len() ==> is_new_candidate(
                    final(self).todo@,
                    old(self).done@,
                    old(self).done@.last(),
                    k,
                ),
            pairs_covered(old(self).done@, old(self).done@.len() - 1, i + 1, final(self).todo@ + old(self).done@),
            keys_covered(final(self).useless@, 0, final(self).useless@.len() as int, final(self).todo@ + old(self).done@),
    {
        let li = self.done.len() - 1;
        let ghost done = self.done@;
        let ghost l = done[li as int];
        let ghost todo0 = self.todo@;
        let ghost keys0 = self.useless@;
        let ghost u0 = keys0.len() as int;
        assert(l == done.last());
        let mut cands = self.done[i].combinations(&self.done[li]);
        let ghost all_cands = cands@;
        let mut kept: Vec<Line<C>> = Vec::new();
        let ghost mut j: int = 0;
        while cands.len() > 0
            invariant
                self.done@ == done,
                self.todo@ == todo0,
                li == done.len() - 1,
                l == done[li as int],
                i < done.len(),
                0 <= j <= all_cands.len(),
                cands@ == all_cands.subrange(j, all_cands.len() as int),
                forall|k: int| 0 <= k < all_cands.len() ==> is_combination(done[i as int], l, #[trigger] all_cands[k]),
                forall|k: int| 0 <= k < kept@.len() ==> is_combination(done[i as int], l, #[trigger] kept@[k]),
                self.useless@.len() >= u0,
                forall|t: int| 0 <= t < u0 ==> #[trigger] self.useless@[t] == keys0[t],
                keys_covered(keys0, 0, u0, todo0 + done),
                u0 == keys0.len(),
                keys_covered(self.useless@, u0, self.useless@.len() as int, kept@ + (todo0 + done)),
                forall|k: int| 0 <= k < j ==> covered_by(kept@ + (todo0 + done), #[trigger] all_cands[k]),
            decreases cands@.len(),
        {
            let c = cands.remove(0);
            assert(c == all_cands[j]);
            let ghost kept_before = kept@;
            let ghost keys_before = self.useless@;
            assert(keys_covered(self.useless@, 0, u0, todo0 + done)) by {
                assert forall|t: int, w: Line<C>| 0 <= t < u0 && #[trigger] has_key(w, self.useless@[t]@) implies covered_by(todo0 + done, w) by {
                    assert(self.useless@[t] == keys0[t]);
                    assert(has_key(w, keys0[t]@));
                }
            }
            self.prune_into(&mut kept, c, Ghost(todo0 + done), Ghost(u0), Ghost(done[i as int]), Ghost(l));
            proof {
                assert forall|t: int| 0 <= t < u0 implies #[trigger] self.useless@[t] == keys0[t] by {
                    assert(self.useless@[t] == keys_before[t]);
                }
                assert forall|k: int| 0 <= k < j + 1 implies covered_by(kept@ + (todo0 + done), #[trigger] all_cands[k]) by {
                    if k < j {
                        lemma_covered_moves(kept_before + (todo0 + done), kept@ + (todo0 + done), all_cands[k]);
                    }
                }
                j = j + 1;
            }
            assert(cands@ =~= all_cands.subrange(j, all_cands.len() as int));
        }
        assert(kept@ + (todo0 + done) =~= kept@ + todo0 + done);
        while kept.len() > 0
            invariant
                u0 == keys0.len(),
                self.done@ == done,
                li == done.len() - 1,
                l == done[li as int],
                l == done.last(),
                i < done.len(),
                forall|k: int| 0 <= k < kept@.len() ==> is_combination(done[i as int], l, #[trigger] kept@[k]),
                self.todo@.len() >= kept_todo.len(),
                forall|k: int| 0 <= k < kept_todo.len() ==> #[trigger] self.todo@[k] == kept_todo[k],
                forall|k: int| kept_todo.len() <= k < self.todo@.len() ==> is_new_candidate(self.todo@, done, l, k),
                self.useless@.len() >= u0,
                forall|t: int| 0 <= t < u0 ==> #[trigger] self.useless@[t] == keys0[t],
                pairs_covered(done, li as int, i as int, self.todo@ + done),
                keys_covered(keys0, 0, u0, self.todo@ + done),
                keys_covered(self.useless@, u0, self.useless@.len() as int, kept@ + self.todo@ + done),
                forall|k: int| 0 <= k < all_cands.len() ==> covered_by(kept@ + self.todo@ + done, #[trigger] all_cands[k]),
            decreases kept@.len(),
        {
            let ghost kept_before = kept@;
            let ghost todo_before = self.todo@;
            let ghost keys_before = self.useless@;
            let c = kept.remove(0);
            assert(kept_before =~= seq![c] + kept@);
            assert(kept_before + todo_before + done =~= seq![c] + kept@ + todo_before + done);
            self.settle(c, Ghost(kept@), Ghost(u0), Ghost(kept_todo), Ghost(i as int));
            proof {
                assert forall|t: int| 0 <= t < u0 implies #[trigger] self.useless@[t] == keys0[t] by {
                    assert(self.useless@[t] == keys_before[t]);
                }
                lemma_pairs_move(done, li as int, i as int, todo_before + done, self.todo@ + done);
                lemma_keys_move(keys0, 0, u0, todo_before + done, self.todo@ + done);
                assert forall|k: int| 0 <= k < all_cands.len() implies covered_by(kept@ + self.todo@ + done, #[trigger] all_cands[k]) by {
                    lemma_covered_moves(kept_before + todo_before + done, kept@ + self.todo@ + done, all_cands[k]);
                }
            }
        }
        assert(kept@ + self.todo@ + done =~= self.todo@ + done);
        proof {
            lemma_round_done(done, li as int, i as int, all_cands, self.todo@, self.useless@, keys0);
        }
    }

    /// Examines the first pending line: drops it if a known line dominates
    /// it; otherwise accepts it, retracts every line it dominates, and queues
    /// the combinations of the accepted lines with it that survive pruning.
    pub fn step(&mut self) -> (r: Step)
        requires
            old(self).wf(),
        ensures
            final(self).wf(),
            step_outcome(*old(self), *final(self), r),
    {
        if self.todo.len() == 0 {
            return Step::Finished;
        }
        let ghost old_todo = self.todo@;
        let line = self.todo.remove(0);
        assert(self.todo@ =~= old_todo.drop_first());
        let in_todo = any_dominates(&self.todo, &line);
        let in_done = any_dominates(&self.done, &line);
        proof {
            if is_superseded(old_todo, self.done@, line) {
                let x = choose|x: Line<C>| (old_todo.drop_first().contains(x) || self.done@.contains(x)) && #[trigger] dominates(x, line);
                if old_todo.drop_first().contains(x) {
                    let t = choose|t: int| 0 <= t < self.todo@.len() && self.todo@[t] == x;
                } else {
                    let t = choose|t: int| 0 <= t < self.done@.len() && self.done@[t] == x;
                }
            }
            if in_todo {
                let t = choose|t: int| 0 <= t < self.todo@.len() && dominates(#[trigger] self.todo@[t], line);
                assert(old_todo.drop_first().contains(self.todo@[t]));
            }
            if in_done {
                let t = choose|t: int| 0 <= t < self.done@.len() && dominates(#[trigger] self.done@[t], line);
                assert(self.done@.contains(self.done@[t]));
            }
        }
        if in_todo || in_done {
            let ghost keys_before = self.useless@;
            let ghost pool0 = old_todo + self.done@;
            let ghost pool1 = self.todo@ + self.done@;
            proof {
                assert(covered_by(pool1, line)) by {
                    if in_todo {
                        let t = choose|t: int| 0 <= t < self.todo@.len() && dominates(#[trigger] self.todo@[t], line);
                        assert(pool1.contains(self.todo@[t]));
                    } else {
                        let t = choose|t: int| 0 <= t < self.done@.len() && dominates(#[trigger] self.done@[t], line);
                        assert(pool1.contains(self.done@[t]));
                    }
                }
                assert forall|y: Line<C>| #[trigger] pool0.contains(y) implies covered_by(pool1, y) by {
                    if y != line {
                        if old_todo.contains(y) {
                            let t = choose|t: int| 0 <= t < old_todo.len() && old_todo[t] == y;
                            assert(t > 0);
                            assert(self.todo@[t - 1] == y);
                        }
                        lemma_dominates_reflexive(y);
                    }
                }
                lemma_pairs_move(self.done@, self.done@.len() as int, 0, pool0, pool1);
                lemma_keys_move(keys_before, 0, keys_before.len() as int, pool0, pool1);
            }
            self.mark_useless(&line);
            proof {
                assert forall|t: int, w: Line<C>|
                    0 <= t < self.useless@.len() && #[trigger] has_key(w, self.useless@[t]@) implies covered_by(pool1, w) by {
                    if t >= keys_before.len() {
                        lemma_key_covered(pool1, line, self.useless@[t]@, w);
                    } else {
                        assert(self.useless@[t] == keys_before[t]);
                    }
                }
            }
            return Step::Discarded;
        }
        let ghost old_done = self.done@;
        remove_dominated(&mut self.todo, &line);
        remove_dominated(&mut self.done, &line);
        let ghost kept_todo = self.todo@;
        let ghost kept_done = self.done@;
        proof {
            assert forall|a: int, b: int|
                0 <= a < kept_done.push(line).len() && 0 <= b < kept_done.push(line).len() && a != b implies !dominates(
                #[trigger] kept_done.push(line)[a],
                #[trigger] kept_done.push(line)[b],
            ) by {
                let s = kept_done.push(line);
                if a == kept_done.len() {
                    assert(!dominates(line, kept_done[b]));
                } else if b == kept_done.len() {
                    assert(old_done.contains(kept_done[a]));
                    let t = choose|t: int| 0 <= t < old_done.len() && old_done[t] == kept_done[a];
                    assert(!dominates(old_done[t], line));
                } else {
                    assert(s[a] == kept_done[a] && s[b] == kept_done[b]);
                }
            }
        }
        self.done.push(line);
        let li = self.done.len() - 1;
        let ghost done = self.done@;
        let ghost l = done[li as int];
        assert(done.drop_last() =~= kept_done);
        let mut i: usize = 0;
        proof {
            let pool0 = old_todo + old_done;
            let pool1 = kept_todo + done;
            assert forall|y: Line<C>| #[trigger] pool0.contains(y) implies covered_by(pool1, y) by {
                if y == line {
                    assert(done.contains(done[li as int]));
                    lemma_dominates_reflexive(y);
                } else if old_todo.drop_first().contains(y) {
                    if !dominates(line, y) {
                        let t = choose|t: int| 0 <= t < old_todo.drop_first().len() && old_todo.drop_first()[t] == y;
                        assert(kept_todo.contains(y));
                        lemma_dominates_reflexive(y);
                    } else {
                        assert(done.contains(done[li as int]));
                    }
                } else {
                    assert(old_todo.contains(y) || old_done.contains(y));
                    if old_todo.contains(y) {
                        let t = choose|t: int| 0 <= t < old_todo.len() && old_todo[t] == y;
                        if t > 0 {
                            assert(old_todo.drop_first()[t - 1] == y);
                        }
                    }
                    if !dominates(line, y) {
                        let t = choose|t: int| 0 <= t < old_done.len() && old_done[t] == y;
                        assert(kept_done.contains(y));
                        let u = choose|u: int| 0 <= u < kept_done.len() && kept_done[u] == y;
                        assert(done[u] == y);
                        lemma_dominates_reflexive(y);
                    } else {
                        assert(done.contains(done[li as int]));
                    }
                }
            }
            lemma_keys_move(self.useless@, 0, self.useless@.len() as int, pool0, pool1);
            let f = choose|f: Seq<int>|
                {
                    &&& f.len() == kept_done.len()
                    &&& forall|k: int| 0 <= k < f.len() ==> 0 <= #[trigger] f[k] < old_done.len() && kept_done[k] == old_done[f[k]]
                    &&& forall|k1: int, k2: int| 0 <= k1 < k2 < f.len() ==> #[trigger] f[k1] < #[trigger] f[k2]
                };
            assert forall|i2: int, j2: int, c: Line<C>|
                0 <= i2 <= j2 < done.len() && (j2 < li || i2 < 0) && #[trigger] is_combination(done[i2], done[j2], c)
                    implies covered_by(pool1, c) by {
                assert(done[i2] == old_done[f[i2]]);
                assert(done[j2] == old_done[f[j2]]);
                if i2 < j2 {
                    assert(f[i2] < f[j2]);
                }
                assert(is_combination(old_done[f[i2]], old_done[f[j2]], c));
                lemma_covered_moves(pool0, pool1, c);
            }
        }
        while i < self.done.len()
            invariant
                self.done@ == done,
                li == done.len() - 1,
                l == done[li as int],
                l == done.last(),
                is_antichain(done),
                i <= done.len(),
                self.todo@.len() >= kept_todo.len(),
                forall|k: int| 0 <= k < kept_todo.len() ==> #[trigger] self.todo@[k] == kept_todo[k],
                forall|k: int| kept_todo.len() <= k < self.todo@.len() ==> is_new_candidate(self.todo@, done, l, k),
                pairs_covered(done, li as int, i as int, self.todo@ + done),
                keys_covered(self.useless@, 0, self.useless@.len() as int, self.todo@ + done),
            decreases done.len() - i,
        {
            self.combine_round(i, Ghost(kept_todo));
            i = i + 1;
        }
        proof {
            let todo = self.todo@;
            assert forall|y: Line<C>| #[trigger] done.drop_last().contains(y) == (old_done.contains(y) && !dominates(l, y)) by {
                if done.drop_last().contains(y) {
                    let t = choose|t: int| 0 <= t < kept_done.len() && kept_done[t] == y;
                    assert(old_done.contains(kept_done[t]));
                }
                if old_done.contains(y) && !dominates(l, y) {
                    let t = choose|t: int| 0 <= t < old_done.len() && old_done[t] == y;
                    assert(kept_done.contains(old_done[t]));
                }
            }
            assert forall|y: Line<C>| #[trigger] old_todo.drop_first().contains(y) && !dominates(l, y) implies todo.contains(y) by {
                let t = choose|t: int| 0 <= t < old_todo.drop_first().len() && old_todo.drop_first()[t] == y;
                assert(kept_todo.contains(y));
                let u = choose|u: int| 0 <= u < kept_todo.len() && kept_todo[u] == y;
                assert(todo[u] == y);
            }
            let n0 = kept_todo.len() as int;
            assert forall|k: int|
                0 <= k < n0 implies old_todo.drop_first().contains(#[trigger] todo[k]) && !dominates(l, todo[k]) by {
                assert(todo[k] == kept_todo[k]);
            }
            assert(todo.subrange(0, n0) =~= kept_todo);
            assert forall|k: int| n0 <= k < todo.len() implies #[trigger] is_new_candidate(todo, done, l, k) by {
            }
            if forall|y: Line<C>| #[trigger] old_done.contains(y) ==> !dominates(l, y) {
                assert forall|k: int| 0 <= k < old_done.len() implies !dominates(l, #[trigger] old_done[k]) by {
                    assert(old_done.contains(old_done[k]));
                }
            }
            if forall|y: Line<C>| #[trigger] old_todo.drop_first().contains(y) ==> !dominates(l, y) {
                assert forall|k: int| 0 <= k < old_todo.drop_first().len() implies !dominates(l, #[trigger] old_todo.drop_first()[k]) by {
                    assert(old_todo.drop_first().contains(old_todo.drop_first()[k]));
                }
            }
            assert(is_acceptance(old_todo, old_done, todo, done));
            assert forall|i2: int, j2: int, c: Line<C>|
                0 <= i2 <= j2 < done.len() && (j2 < done.len() || i2 < 0) && #[trigger] is_combination(done[i2], done[j2], c)
                    implies covered_by(todo + done, c) by {
            }
        }
        Step::Accepted
    }

    /// Takes steps, at most `max_steps` of them, until no line is pending;
    /// tells whether no line is left pending. The run passes through states
    /// `tr[0]`, the state before, up to the final one, each step from one
    /// to the next, and stops early only when no line is pending.
    pub fn run(&mut self, max_steps: usize) -> (finished: bool)
        requires
            old(self).wf(),
        ensures
            final(self).wf(),
            finished == (final(self).todo@.len() == 0),
            exists|tr: Seq<Saturation<C>>, rs: Seq<Step>|
                {
                    &&& 1 <= tr.len() <= max_steps + 1
                    &&& rs.len() + 1 == tr.len()
                    &&& tr[0] == *old(self)
                    &&& tr.last() == *final(self)
                    &&& forall|i: int| 0 <= i < rs.len() ==> step_outcome(tr[i], tr[i + 1], #[trigger] rs[i])
                    &&& tr.len() <= max_steps ==> final(self).todo@.len() == 0
                },
    {
        let ghost mut tr: Seq<Saturation<C>> = seq![*self];
        let ghost mut rs: Seq<Step> = Seq::empty();
        let mut n: usize = 0;
        while n < max_steps
            invariant
                self.wf(),
                n <= max_steps,
                tr.len() == n + 1,
                rs.len() == n,
                tr[0] == *old(self),
                tr.last() == *self,
                forall|i: int| 0 <= i < rs.len() ==> step_outcome(tr[i], tr[i + 1], #[trigger] rs[i]),
            decreases max_steps - n,
        {
            let ghost before = *self;
            let r = self.step();
            proof {
                let tr0 = tr;
                let rs0 = rs;
                tr = tr.push(*self);
                rs = rs.push(r);
                assert forall|i: int| 0 <= i < rs.len() implies step_outcome(tr[i], tr[i + 1], #[trigger] rs[i]) by {
                    if i < rs0.len() {
                        assert(tr[i] == tr0[i] && tr[i + 1] == tr0[i + 1] && rs[i] == rs0[i]);
                    } else {
                        assert(tr[i] == before);
                    }
                }
            }
            if let Step::Finished = r {
                assert(self.todo@.len() == 0);
                assert(tr.len() <= max_steps + 1 && rs.len() + 1 == tr.len() && tr[0] == *old(self) && tr.last() == *self);
                return true;
            }
            n = n + 1;
        }
        self.todo.len() == 0
    }
}

/// The lines that seed a search: in each list of sets the last one is the
/// infinite coordinate and the others are the explicit ones.
pub fn seed_lines<const C: usize>(passive: Vec<Vec<BitArray<C>>>) -> (r: Vec<Line<C>>)
    requires
        passive@.len() > 0,
        forall|i: int| 0 <= i < passive@.len() ==> (#[trigger] passive@[i])@.len() > 0,
    ensures
        r@.len() == passive@.len(),
        forall|i: int|
            0 <= i < r@.len() ==> (#[trigger] r@[i]).finite@ == passive@[i]@.drop_last() && r@[i].infinite
                == passive@[i]@.last(),
{
    let mut passive = passive;
    let ghost all = passive@;
    let mut out: Vec<Line<C>> = Vec::new();
    while passive.len() > 0
        invariant
            out@.len() + passive@.len() == all.len(),
            passive@ == all.subrange(out@.len() as int, all.len() as int),
            forall|i: int| 0 <= i < all.len() ==> (#[trigger] all[i])@.len() > 0,
            forall|i: int|
                0 <= i < out@.len() ==> (#[trigger] out@[i]).finite@ == all[i]@.drop_last() && out@[i].infinite
                    == all[i]@.last(),
        decreases passive@.len(),
    {
        let ghost k = out@.len() as int;
        let mut coords = passive.remove(0);
        assert(coords == all[k]);
        assert(passive@ =~= all.subrange(k + 1, all.len() as int));
        let last = coords.pop();
        match last {
            Some(infinite) => {
                out.push(Line { finite: coords, infinite });
            },
            None => {
                assert(false);
            },
        }
    }
    out
}

} // verus!
