//! Fixed-capacity sets of alphabet indices, packed into 64-bit words.
use vstd::prelude::*;

verus! {

broadcast use vstd::array::group_array_axioms;

/// Number of symbols held by one word.
pub const WORD_BITS: usize = 64;

/// Whether bit `k` of word `w` is set.
pub open spec fn bit(w: u64, k: u64) -> bool {
    (w >> k) & 1u64 == 1u64
}

/// `x` is a subset of `y`, bit by bit.
pub open spec fn word_le(x: u64, y: u64) -> bool {
    x & y == x
}

/// Number of set bits among the lowest `n` bits of `w`.
pub open spec fn popcount_low(w: u64, n: nat) -> nat
    decreases n,
{
    if n == 0 {
        0
    } else {
        popcount_low(w, (n - 1) as nat) + if bit(w, (n - 1) as u64) {
            1nat
        } else {
            0nat
        }
    }
}

/// Number of set bits in a word.
pub open spec fn popcount(w: u64) -> nat {
    popcount_low(w, 64)
}

/// Number of set bits in the first `n` words.
pub open spec fn popcount_words(s: Seq<u64>, n: int) -> nat
    decreases n,
{
    if n <= 0 {
        0
    } else {
        popcount_words(s, n - 1) + popcount(s[n - 1])
    }
}

/// The number of words needed for `bits` symbols.
pub fn cells_needed(bits: usize) -> (r: usize)
    ensures
        r == (bits as int + 63) / 64,
{
    bits / WORD_BITS + if bits % WORD_BITS == 0 {
        0
    } else {
        1
    }
}

/// A set of symbol indices below `64 * CELLS`, one bit per symbol.
#[derive(Clone, Copy, Debug, Hash)]
pub struct BitArray<const CELLS: usize>([u64; CELLS]);

/// The empty set.
pub fn zero<const C: usize>() -> (r: BitArray<C>)
    ensures
        r.is_empty(),
        forall|k: int| 0 <= k < C ==> r@[k] == 0,
{
    BitArray([0u64; C])
}

impl<const C: usize> View for BitArray<C> {
    type V = Seq<u64>;

    closed spec fn view(&self) -> Seq<u64> {
        self.0@
    }
}

impl<const C: usize> BitArray<C> {
    /// `self` holds every symbol of `other` and at least one more.
    pub open spec fn strictly_contains(self, other: Self) -> bool {
        other.subset_of(self) && self@ != other@
    }

    /// Whether symbol `i` is in the set.
    pub open spec fn has(self, i: int) -> bool {
        0 <= i < 64 * C && bit(self@[i / 64], (i % 64) as u64)
    }

    /// Every word is zero.
    pub open spec fn is_empty(self) -> bool {
        forall|k: int| 0 <= k < C ==> #[trigger] self@[k] == 0
    }

    /// Every symbol of `self` is in `other`.
    pub open spec fn subset_of(self, other: Self) -> bool {
        forall|k: int| 0 <= k < C ==> word_le(#[trigger] self@[k], other@[k])
    }

    /// Number of symbols in the set.
    pub open spec fn card(self) -> nat {
        popcount_words(self@, C as int)
    }
}


/// `a` comes strictly before `b` in the order of their words, first word first.
pub open spec fn lex_less(a: Seq<u64>, b: Seq<u64>) -> bool {
    exists|k: int|
        0 <= k < a.len() && k < b.len() && a[k] < b[k] && forall|j: int|
            0 <= j < k ==> a[j] == b[j]
}

/// The view of a set holds one word per cell.
pub broadcast proof fn lemma_view_len<const C: usize>(a: BitArray<C>)
    ensures
        #[trigger] a@.len() == C,
{
}

/// Two sets with the same words are the same value.
pub proof fn lemma_view_eq<const C: usize>(a: BitArray<C>, b: BitArray<C>)
    requires
        a@ == b@,
    ensures
        a == b,
{
    assert(a.0 =~= b.0);
}

/// Inclusion of sets is reflexive, transitive and antisymmetric.
pub proof fn lemma_subset<const C: usize>(a: BitArray<C>, b: BitArray<C>, c: BitArray<C>)
    ensures
        a.subset_of(a),
        a.subset_of(b) && b.subset_of(c) ==> a.subset_of(c),
        a.subset_of(b) && b.subset_of(a) ==> a@ == b@,
{
    assert forall|k: int| 0 <= k < C implies word_le(#[trigger] a@[k], a@[k]) && (word_le(a@[k], b@[k]) && word_le(b@[k], c@[k]) ==> word_le(a@[k], c@[k])) && (word_le(a@[k], b@[k]) && word_le(b@[k], a@[k]) ==> a@[k] == b@[k]) by {
        lemma_word_le(a@[k], b@[k], c@[k]);
    }
    if a.subset_of(b) && b.subset_of(a) {
        assert(a@ =~= b@);
    }
}

/// Sum of the first `n` words, as integers.
pub open spec fn word_sum(w: Seq<u64>, n: int) -> int
    decreases n,
{
    if n <= 0 {
        0
    } else {
        word_sum(w, n - 1) + w[n - 1] as int
    }
}

/// A subset has no larger sum of words, and the same sum only when it is the
/// same set.
pub proof fn lemma_word_sum<const C: usize>(a: BitArray<C>, b: BitArray<C>)
    requires
        a.subset_of(b),
    ensures
        word_sum(a@, C as int) <= word_sum(b@, C as int),
        word_sum(a@, C as int) == word_sum(b@, C as int) ==> a@ == b@,
{
    lemma_word_sum_upto(a, b, C as int);
    if word_sum(a@, C as int) == word_sum(b@, C as int) {
        assert(a@ =~= b@);
    }
}

proof fn lemma_word_sum_upto<const C: usize>(a: BitArray<C>, b: BitArray<C>, n: int)
    requires
        a.subset_of(b),
        0 <= n <= C,
    ensures
        word_sum(a@, n) <= word_sum(b@, n),
        word_sum(a@, n) == word_sum(b@, n) ==> forall|k: int| 0 <= k < n ==> #[trigger] a@[k] == b@[k],
    decreases n,
{
    if n > 0 {
        lemma_word_sum_upto(a, b, n - 1);
        let x = a@[n - 1];
        let y = b@[n - 1];
        assert(word_le(x, y));
        assert(word_le(x, y) ==> x <= y) by (bit_vector);
        if word_sum(a@, n) == word_sum(b@, n) {
            assert(word_sum(a@, n - 1) == word_sum(b@, n - 1));
        }
    }
}

/// The order of words, first word first, is a strict total order on sets.
pub proof fn lemma_lex_order<const C: usize>(a: BitArray<C>, b: BitArray<C>, c: BitArray<C>)
    ensures
        !lex_less(a@, a@),
        lex_less(a@, b@) && lex_less(b@, c@) ==> lex_less(a@, c@),
        lex_less(a@, b@) ==> !lex_less(b@, a@),
        a@ != b@ ==> lex_less(a@, b@) || lex_less(b@, a@),
{
    if lex_less(a@, b@) && lex_less(b@, c@) {
        let k1 = choose|k: int|
            0 <= k < a@.len() && k < b@.len() && a@[k] < b@[k] && forall|j: int| 0 <= j < k ==> a@[j] == b@[j];
        let k2 = choose|k: int|
            0 <= k < b@.len() && k < c@.len() && b@[k] < c@[k] && forall|j: int| 0 <= j < k ==> b@[j] == c@[j];
        let k = if k1 < k2 { k1 } else { k2 };
        assert(a@[k] < c@[k] && forall|j: int| 0 <= j < k ==> a@[j] == c@[j]);
    }
    if lex_less(a@, b@) && lex_less(b@, a@) {
        let k1 = choose|k: int|
            0 <= k < a@.len() && k < b@.len() && a@[k] < b@[k] && forall|j: int| 0 <= j < k ==> a@[j] == b@[j];
        let k2 = choose|k: int|
            0 <= k < b@.len() && k < a@.len() && b@[k] < a@[k] && forall|j: int| 0 <= j < k ==> b@[j] == a@[j];
        if k1 < k2 {
            assert(b@[k1] == a@[k1]);
        } else if k2 < k1 {
            assert(a@[k2] == b@[k2]);
        }
    }
    if a@ != b@ {
        lemma_first_difference(a@, b@, 0);
    }
}

proof fn lemma_first_difference(a: Seq<u64>, b: Seq<u64>, i: int)
    requires
        a.len() == b.len(),
        a != b,
        0 <= i <= a.len(),
        forall|j: int| 0 <= j < i ==> a[j] == b[j],
    ensures
        lex_less(a, b) || lex_less(b, a),
    decreases a.len() - i,
{
    if i == a.len() {
        assert(a =~= b);
    } else if a[i] == b[i] {
        lemma_first_difference(a, b, i + 1);
    } else if a[i] < b[i] {
        assert(lex_less(a, b));
    } else {
        assert(lex_less(b, a));
    }
}

/// Setting bit `j` of a word changes bit `j` alone.
pub proof fn lemma_set_bit(x: u64, j: u64, k: u64)
    requires
        j < 64,
        k < 64,
    ensures
        bit(x | (1u64 << j), k) == (bit(x, k) || k == j),
{
    assert(j < 64 && k < 64 ==> bit(x | (1u64 << j), k) == (bit(x, k) || k == j)) by (bit_vector);
}

/// The bit order on words is a partial order with `|` as join and `&` as meet.
pub proof fn lemma_word_le(x: u64, y: u64, z: u64)
    ensures
        word_le(x, x),
        word_le(x, y) && word_le(y, z) ==> word_le(x, z),
        word_le(x, y) && word_le(y, x) ==> x == y,
        word_le(x, x | y),
        word_le(y, x | y),
        word_le(x & y, x),
        word_le(x & y, y),
        word_le(0u64, x),
        word_le(z, x) && word_le(z, y) ==> word_le(z, x & y),
        word_le(x, z) && word_le(y, z) ==> word_le(x | y, z),
        (x | y) == x ==> word_le(y, x),
        (x | y) == y ==> word_le(x, y),
{
    assert((x | y) == x ==> word_le(y, x)) by (bit_vector);
    assert((x | y) == y ==> word_le(x, y)) by (bit_vector);
    assert(word_le(x, x)) by (bit_vector);
    assert(word_le(x, y) && word_le(y, z) ==> word_le(x, z)) by (bit_vector);
    assert(word_le(x, y) && word_le(y, x) ==> x == y) by (bit_vector);
    assert(word_le(x, x | y)) by (bit_vector);
    assert(word_le(y, x | y)) by (bit_vector);
    assert(word_le(x & y, x)) by (bit_vector);
    assert(word_le(x & y, y)) by (bit_vector);
    assert(word_le(0u64, x)) by (bit_vector);
    assert(word_le(z, x) && word_le(z, y) ==> word_le(z, x & y)) by (bit_vector);
    assert(word_le(x, z) && word_le(y, z) ==> word_le(x | y, z)) by (bit_vector);
}

impl<const C: usize> BitArray<C> {
    /// Number of symbols in the set.
    pub fn size(&self) -> (r: usize)
        requires
            C <= usize::MAX / 64,
        ensures
            r == self.card(),
    {
        let mut total: usize = 0;
        let mut i: usize = 0;
        while i < C
            invariant
                i <= C,
                C <= usize::MAX / 64,
                total == popcount_words(self@, i as int),
                total <= 64 * i,
            decreases C - i,
        {
            let w = self.0[i];
            let mut k: u64 = 0;
            let mut n: usize = 0;
            while k < 64
                invariant
                    k <= 64,
                    n == popcount_low(w, k as nat),
                    n <= k,
                decreases 64 - k,
            {
                if (w >> k) & 1u64 == 1u64 {
                    n = n + 1;
                }
                k = k + 1;
            }
            total = total + n;
            i = i + 1;
        }
        total
    }

    /// The complement within the capacity.
    pub fn not(self) -> (r: Self)
        ensures
            forall|k: int| 0 <= k < C ==> #[trigger] r@[k] == !self@[k],
    {
        let mut out = self.0;
        let mut i: usize = 0;
        while i < C
            invariant
                i <= C,
                forall|k: int| 0 <= k < i ==> #[trigger] out[k] == !self@[k],
                forall|k: int| i <= k < C ==> #[trigger] out[k] == self@[k],
            decreases C - i,
        {
            out[i] = !out[i];
            i = i + 1;
        }
        BitArray(out)
    }

    /// The union of two sets.
    pub fn bitor(self, rhs: Self) -> (r: Self)
        ensures
            forall|k: int| 0 <= k < C ==> #[trigger] r@[k] == self@[k] | rhs@[k],
    {
        let mut out = self.0;
        let mut i: usize = 0;
        while i < C
            invariant
                i <= C,
                forall|k: int| 0 <= k < i ==> #[trigger] out[k] == self@[k] | rhs@[k],
                forall|k: int| i <= k < C ==> #[trigger] out[k] == self@[k],
            decreases C - i,
        {
            out[i] = out[i] | rhs.0[i];
            i = i + 1;
        }
        BitArray(out)
    }

    /// Adds every symbol of `rhs` to `self`.
    pub fn bitor_assign(&mut self, rhs: Self)
        ensures
            forall|k: int| 0 <= k < C ==> #[trigger] final(self)@[k] == old(self)@[k] | rhs@[k],
    {
        *self = self.bitor(rhs);
    }

    /// The intersection of two sets.
    pub fn bitand(self, rhs: Self) -> (r: Self)
        ensures
            forall|k: int| 0 <= k < C ==> #[trigger] r@[k] == self@[k] & rhs@[k],
    {
        let mut out = self.0;
        let mut i: usize = 0;
        while i < C
            invariant
                i <= C,
                forall|k: int| 0 <= k < i ==> #[trigger] out[k] == self@[k] & rhs@[k],
                forall|k: int| i <= k < C ==> #[trigger] out[k] == self@[k],
            decreases C - i,
        {
            out[i] = out[i] & rhs.0[i];
            i = i + 1;
        }
        BitArray(out)
    }

    /// The symmetric difference of two sets.
    pub fn bitxor(self, rhs: Self) -> (r: Self)
        ensures
            forall|k: int| 0 <= k < C ==> #[trigger] r@[k] == self@[k] ^ rhs@[k],
    {
        let mut out = self.0;
        let mut i: usize = 0;
        while i < C
            invariant
                i <= C,
                forall|k: int| 0 <= k < i ==> #[trigger] out[k] == self@[k] ^ rhs@[k],
                forall|k: int| i <= k < C ==> #[trigger] out[k] == self@[k],
            decreases C - i,
        {
            out[i] = out[i] ^ rhs.0[i];
            i = i + 1;
        }
        BitArray(out)
    }

    /// Whether symbol `index` is in the set.
    pub fn get(&self, index: usize) -> (r: bool)
        requires
            index < 64 * C,
        ensures
            r == self.has(index as int),
    {
        (self.0[index / WORD_BITS] >> ((index % WORD_BITS) as u64)) & 1u64 == 1u64
    }

    /// Adds symbol `index` to the set.
    pub fn set(&mut self, index: usize)
        requires
            index < 64 * C,
        ensures
            forall|i: int| #[trigger] final(self).has(i) == (old(self).has(i) || i == index),
    {
        let w = index / WORD_BITS;
        let b = (index % WORD_BITS) as u64;
        let ghost before = *self;
        let mut a = self.0;
        a[w] = a[w] | (1u64 << b);
        *self = BitArray(a);
        assert forall|i: int| #[trigger] self.has(i) == (before.has(i) || i == index) by {
            if 0 <= i < 64 * C {
                lemma_set_bit(before@[w as int], b, (i % 64) as u64);
            }
        }
    }

    /// Every symbol of `self` is in `other`.
    pub fn is_subset_of(&self, other: &Self) -> (r: bool)
        ensures
            r == self.subset_of(*other),
    {
        let mut i: usize = 0;
        while i < C
            invariant
                i <= C,
                forall|k: int| 0 <= k < i ==> word_le(#[trigger] self@[k], other@[k]),
            decreases C - i,
        {
            if self.0[i] & other.0[i] != self.0[i] {
                assert(!word_le(self@[i as int], other@[i as int]));
                return false;
            }
            i = i + 1;
        }
        true
    }

    /// Whether the set has no symbol.
    pub fn is_zero(&self) -> (r: bool)
        ensures
            r == self.is_empty(),
    {
        let mut i: usize = 0;
        while i < C
            invariant
                i <= C,
                forall|k: int| 0 <= k < i ==> #[trigger] self@[k] == 0,
            decreases C - i,
        {
            if self.0[i] != 0 {
                assert(self@[i as int] != 0);
                return false;
            }
            i = i + 1;
        }
        true
    }

    /// Compares the words in order, first word first.
    pub fn cmp(&self, other: &Self) -> (r: core::cmp::Ordering)
        ensures
            (r == core::cmp::Ordering::Equal) == (self@ == other@),
            (r == core::cmp::Ordering::Less) == lex_less(self@, other@),
            (r == core::cmp::Ordering::Greater) == lex_less(other@, self@),
    {
        let mut i: usize = 0;
        while i < C
            invariant
                i <= C,
                forall|j: int| 0 <= j < i ==> #[trigger] self@[j] == other@[j],
            decreases C - i,
        {
            if self.0[i] > other.0[i] {
                return core::cmp::Ordering::Greater;
            }
            if self.0[i] < other.0[i] {
                return core::cmp::Ordering::Less;
            }
            i = i + 1;
        }
        assert(self@ =~= other@);
        core::cmp::Ordering::Equal
    }
}

impl<const C: usize> PartialEq for BitArray<C> {
    fn eq(&self, other: &Self) -> (r: bool) {
        let mut i: usize = 0;
        while i < C
            invariant
                i <= C,
                forall|j: int| 0 <= j < i ==> #[trigger] self@[j] == other@[j],
            decreases C - i,
        {
            if self.0[i] != other.0[i] {
                return false;
            }
            i = i + 1;
        }
        assert(self@ =~= other@);
        true
    }
}

impl<const C: usize> vstd::std_specs::cmp::PartialEqSpecImpl for BitArray<C> {
    open spec fn obeys_eq_spec() -> bool {
        true
    }

    open spec fn eq_spec(&self, other: &Self) -> bool {
        self@ == other@
    }
}

impl<const C: usize> Eq for BitArray<C> {

}

} // verus!
