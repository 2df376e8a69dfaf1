use vstd::prelude::*;
use bitvec::order::Lsb0;
use bitvec::vec::BitVec;

verus! {

/// A growable sequence of bits, kept in a `bitvec::vec::BitVec<usize, Lsb0>`.
///
/// Verus sees the bits only through `bits_of`; every method below is a thin
/// call into `bitvec`, and its contract restates what `bitvec` documents and
/// implements for that method.
#[verifier::external_body]
pub struct BitSet {
    bits: BitVec,
}

/// The bits held by a `BitSet`, in index order.
pub uninterp spec fn bits_of(b: BitSet) -> Seq<bool>;

/// Largest length `bitvec` can encode: `BitSlice::MAX_BITS`, that is `usize::MAX >> 3`.
pub const MAX_BITS: usize = usize::MAX / 8;

/// `MAX_BITS` as an integer.
pub open spec fn max_bits() -> int {
    MAX_BITS as int
}

/// Number of `true` bits at the front of `s` before the first `false` one.
pub open spec fn leading_ones_of(s: Seq<bool>) -> int
    decreases s.len(),
{
    if s.len() == 0 || !s[0] {
        0
    } else {
        1 + leading_ones_of(s.drop_first())
    }
}

/// Number of `false` bits at the back of `s` after the last `true` one.
pub open spec fn trailing_zeros_of(s: Seq<bool>) -> int
    decreases s.len(),
{
    if s.len() == 0 || s.last() {
        0
    } else {
        1 + trailing_zeros_of(s.drop_last())
    }
}

impl BitSet {
    /// `BitVec::new`: an empty bit-vector.
    #[verifier::external_body]
    pub(crate) fn new() -> (r: BitSet)
        ensures
            bits_of(r) == Seq::<bool>::empty(),
    {
        BitSet { bits: BitVec::new() }
    }

    /// `BitVec::len`: the number of bits.
    #[verifier::external_body]
    pub(crate) fn len(&self) -> (r: usize)
        ensures
            r == bits_of(*self).len(),
    {
        self.bits.len()
    }

    /// `BitVec::insert`: puts `value` at `index`, shifting the bits from `index`
    /// on one place towards the end. `bitvec` panics when `index` is past the
    /// end or when the new length cannot be encoded.
    #[verifier::external_body]
    pub(crate) fn insert(&mut self, index: usize, value: bool)
        requires
            index <= bits_of(*old(self)).len(),
            bits_of(*old(self)).len() < max_bits(),
        ensures
            bits_of(*final(self)) == bits_of(*old(self)).insert(index as int, value),
    {
        self.bits.insert(index, value)
    }

    /// `BitSlice::leading_ones`: the index of the first `false` bit, or the
    /// length when there is none.
    #[verifier::external_body]
    pub(crate) fn leading_ones(&self) -> (r: usize)
        ensures
            r == leading_ones_of(bits_of(*self)),
    {
        self.bits.leading_ones()
    }

    /// `BitSlice::trailing_zeros`: the number of `false` bits after the last
    /// `true` bit, or the length when there is no `true` bit.
    #[verifier::external_body]
    pub(crate) fn trailing_zeros(&self) -> (r: usize)
        ensures
            r == trailing_zeros_of(bits_of(*self)),
    {
        self.bits.trailing_zeros()
    }

    /// `BitSlice` indexing, `bits[index]`: the bit at `index`. `bitvec` panics
    /// when `index` is out of bounds.
    #[verifier::external_body]
    pub(crate) fn get(&self, index: usize) -> (r: bool)
        requires
            index < bits_of(*self).len(),
        ensures
            r == bits_of(*self)[index as int],
    {
        self.bits[index]
    }

    /// `BitSlice::set`: writes `value` at `index`, leaving the other bits.
    /// `bitvec` panics when `index` is out of bounds.
    #[verifier::external_body]
    pub(crate) fn set(&mut self, index: usize, value: bool)
        requires
            index < bits_of(*old(self)).len(),
        ensures
            bits_of(*final(self)) == bits_of(*old(self)).update(index as int, value),
    {
        self.bits.set(index, value)
    }

    /// `BitSlice::not_any`: whether no bit is `true`.
    #[verifier::external_body]
    pub(crate) fn not_any(&self) -> (r: bool)
        ensures
            r == (forall|i: int| 0 <= i < bits_of(*self).len() ==> !#[trigger] bits_of(*self)[i]),
    {
        self.bits.not_any()
    }
}

} // verus!

verus! {

/// The count of leading `true` bits never exceeds the length.
pub proof fn lemma_leading_ones_bounded(s: Seq<bool>)
    ensures
        0 <= leading_ones_of(s) <= s.len(),
        forall|i: int| 0 <= i < leading_ones_of(s) ==> #[trigger] s[i],
        leading_ones_of(s) < s.len() ==> !s[leading_ones_of(s)],
    decreases s.len(),
{
    if s.len() != 0 && s[0] {
        lemma_leading_ones_bounded(s.drop_first());
        assert forall|i: int| 0 <= i < leading_ones_of(s) implies #[trigger] s[i] by {
            if i > 0 {
                assert(s.drop_first()[i - 1] == s[i]);
            }
        }
    }
}

/// `leading_ones_of` is the first `false` index, or the length.
pub proof fn lemma_leading_ones_unique(s: Seq<bool>, n: int)
    requires
        0 <= n <= s.len(),
        forall|i: int| 0 <= i < n ==> #[trigger] s[i],
        n < s.len() ==> !s[n],
    ensures
        leading_ones_of(s) == n,
    decreases s.len(),
{
    if s.len() != 0 && s[0] {
        let t = s.drop_first();
        assert forall|i: int| 0 <= i < n - 1 implies #[trigger] t[i] by {
            assert(t[i] == s[i + 1]);
        }
        if n - 1 < t.len() {
            assert(t[n - 1] == s[n]);
        }
        lemma_leading_ones_unique(t, n - 1);
    }
}

/// Clearing bit `i` moves the first `false` bit to `i` when `i` comes first.
pub proof fn lemma_leading_ones_clear(s: Seq<bool>, i: int)
    requires
        0 <= i < s.len(),
    ensures
        leading_ones_of(s.update(i, false)) == if leading_ones_of(s) <= i {
            leading_ones_of(s)
        } else {
            i
        },
{
    lemma_leading_ones_bounded(s);
    let l = leading_ones_of(s);
    let t = s.update(i, false);
    let m = if l <= i {
        l
    } else {
        i
    };
    assert forall|j: int| 0 <= j < m implies #[trigger] t[j] by {
        assert(t[j] == s[j]);
    }
    lemma_leading_ones_unique(t, m);
}

/// The greatest index of a `true` bit, or 0 when there is none.
pub open spec fn last_set_or_zero(s: Seq<bool>) -> int
    decreases s.len(),
{
    if s.len() == 0 {
        0
    } else if s.last() {
        s.len() - 1
    } else {
        last_set_or_zero(s.drop_last())
    }
}

/// `last_set_or_zero` picks a set bit with no set bit after it, or 0 when
/// no bit is set.
pub proof fn lemma_last_set(s: Seq<bool>)
    ensures
        0 <= last_set_or_zero(s),
        s.len() > 0 ==> last_set_or_zero(s) < s.len(),
        forall|j: int| last_set_or_zero(s) < j < s.len() ==> !#[trigger] s[j],
        (exists|j: int| 0 <= j < s.len() && #[trigger] s[j]) ==> s[last_set_or_zero(s)],
        !(exists|j: int| 0 <= j < s.len() && #[trigger] s[j]) ==> last_set_or_zero(s) == 0,
    decreases s.len(),
{
    if s.len() > 0 && !s.last() {
        let t = s.drop_last();
        lemma_last_set(t);
        assert forall|j: int| last_set_or_zero(s) < j < s.len() implies !#[trigger] s[j] by {
            if j < t.len() {
                assert(t[j] == s[j]);
            }
        }
        if exists|j: int| 0 <= j < s.len() && #[trigger] s[j] {
            let j = choose|j: int| 0 <= j < s.len() && #[trigger] s[j];
            assert(t[j] == s[j]);
            assert(t[last_set_or_zero(t)] == s[last_set_or_zero(t)]);
        } else {
            assert forall|j: int| 0 <= j < t.len() implies !#[trigger] t[j] by {
                assert(t[j] == s[j]);
            }
        }
    }
}

/// A set bit with no set bit after it is `last_set_or_zero`.
pub proof fn lemma_last_set_unique(s: Seq<bool>, g: int)
    requires
        0 <= g < s.len(),
        s[g],
        forall|j: int| g < j < s.len() ==> !#[trigger] s[j],
    ensures
        last_set_or_zero(s) == g,
{
    lemma_last_set(s);
    let l = last_set_or_zero(s);
    assert(s[l]);
    if l < g {
        assert(!s[g]);
    }
    if g < l {
        assert(!s[l]);
    }
}

/// Setting bit `n` makes the greatest set bit at least `n`.
pub proof fn lemma_last_set_after_set(s: Seq<bool>, n: int)
    requires
        0 <= n < s.len(),
    ensures
        last_set_or_zero(s.update(n, true)) == if last_set_or_zero(s) >= n {
            last_set_or_zero(s)
        } else {
            n
        },
{
    lemma_last_set(s);
    let t = s.update(n, true);
    let l = last_set_or_zero(s);
    let g = if l >= n {
        l
    } else {
        n
    };
    if g == l && l != n {
        if exists|j: int| 0 <= j < s.len() && #[trigger] s[j] {
            assert(t[l] == s[l]);
        } else {
            assert(l == 0 && n < l);
        }
    }
    assert forall|j: int| g < j < t.len() implies !#[trigger] t[j] by {
        assert(t[j] == s[j]);
    }
    lemma_last_set_unique(t, g);
}

/// Appending a set bit makes it the greatest set bit.
pub proof fn lemma_last_set_after_push(s: Seq<bool>)
    ensures
        last_set_or_zero(s.push(true)) == s.len(),
{
    assert(s.push(true).last());
}

/// `last_set_or_zero` read off the count of trailing `false` bits.
pub proof fn lemma_last_set_from_trailing_zeros(s: Seq<bool>)
    ensures
        last_set_or_zero(s) == if trailing_zeros_of(s) == s.len() {
            0
        } else {
            s.len() - 1 - trailing_zeros_of(s)
        },
    decreases s.len(),
{
    if s.len() > 0 && !s.last() {
        lemma_last_set_from_trailing_zeros(s.drop_last());
    }
}

/// The count of trailing `false` bits never exceeds the length.
pub proof fn lemma_trailing_zeros_bounded(s: Seq<bool>)
    ensures
        0 <= trailing_zeros_of(s) <= s.len(),
    decreases s.len(),
{
    if s.len() != 0 && !s.last() {
        lemma_trailing_zeros_bounded(s.drop_last());
    }
}

/// A sequence of `true` bits is all leading ones.
pub proof fn lemma_leading_ones_all_true(s: Seq<bool>)
    requires
        forall|i: int| 0 <= i < s.len() ==> #[trigger] s[i],
    ensures
        leading_ones_of(s) == s.len(),
    decreases s.len(),
{
    if s.len() != 0 {
        assert(s[0]);
        let t = s.drop_first();
        assert forall|i: int| 0 <= i < t.len() implies #[trigger] t[i] by {
            assert(t[i] == s[i + 1]);
        }
        lemma_leading_ones_all_true(t);
    }
}

} // verus!

verus! {

/// A fixed-length bit-vector stored in 32-bit words with the least
/// significant bit first, kept in a `bitvec::vec::BitVec<u32, Lsb0>`.
///
/// Verus sees it through `word_bits_words` (the backing words, as
/// `as_raw_slice` shows them) and `word_bits_len` (its length in bits). It is
/// only ever created by `zeroed`, so its bits start at bit 0 of word 0.
#[verifier::external_body]
pub struct WordBits {
    bits: BitVec<u32, Lsb0>,
}

/// The backing words of a `WordBits`.
pub uninterp spec fn word_bits_words(b: WordBits) -> Seq<u32>;

/// The length in bits of a `WordBits`.
pub uninterp spec fn word_bits_len(b: WordBits) -> nat;

impl WordBits {
    /// `BitVec::repeat(false, len)`: `len` cleared bits, stored in
    /// `ceil(len / 32)` zeroed words. `bitvec` panics when `len` exceeds
    /// `BitSlice::MAX_BITS`.
    #[verifier::external_body]
    pub(crate) fn zeroed(len: usize) -> (r: WordBits)
        requires
            len <= max_bits(),
        ensures
            word_bits_len(r) == len,
            word_bits_words(r) == Seq::new(((len + 31) / 32) as nat, |i: int| 0u32),
    {
        WordBits { bits: BitVec::repeat(false, len) }
    }

    /// `BitSlice::set`: with `Lsb0` ordering, bit `index` is the bit
    /// `1 << (index % 32)` of word `index / 32`. `bitvec` panics when `index`
    /// is out of bounds.
    #[verifier::external_body]
    pub(crate) fn set(&mut self, index: usize, value: bool)
        requires
            index < word_bits_len(*old(self)),
        ensures
            word_bits_len(*final(self)) == word_bits_len(*old(self)),
            word_bits_words(*final(self)) == word_bits_words(*old(self)).update(
                index as int / 32,
                if value {
                    word_bits_words(*old(self))[index as int / 32] | (1u32 << ((index % 32) as u32))
                } else {
                    word_bits_words(*old(self))[index as int / 32] & !(1u32 << ((index % 32) as u32))
                },
            ),
    {
        self.bits.set(index, value)
    }

    /// `BitVec::as_raw_slice`, copied out: the backing words.
    #[verifier::external_body]
    pub(crate) fn raw_words(&self) -> (r: Vec<u32>)
        ensures
            r@ == word_bits_words(*self),
    {
        self.bits.as_raw_slice().to_vec()
    }
}

} // verus!
