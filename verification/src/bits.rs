use vstd::prelude::*;

verus! {

/// A growable sequence of bits stored in machine words, least-significant bit first.
///
/// The bits live in a `bitvec::vec::BitVec` (words of `usize`, `Lsb0` order). That vector
/// is only ever created here by `repeat`, `with_capacity` or `from_vec`, each of which starts
/// the live region at bit 0 of the first word, and no operation used here moves that start;
/// so bit `i` is always bit `i % usize::BITS` of word `i / usize::BITS`.
#[verifier::external_body]
#[derive(Debug, PartialEq, Eq)]
pub struct BitVec {
    inner: bitvec::vec::BitVec,
}

/// The live bits of a bit-vector, in index order.
pub uninterp spec fn bits_of(b: BitVec) -> Seq<bool>;

/// The storage words of a bit-vector, as `as_raw_slice` shows them.
pub uninterp spec fn words_of(b: BitVec) -> Seq<usize>;

/// The most bits a `bitvec` bit-vector can hold (`BitSlice::MAX_BITS`, that is `usize::MAX >> 3`).
pub open spec fn max_bits() -> nat {
    (usize::MAX / 8) as nat
}

/// The bits of each bit-vector of a list.
pub open spec fn bit_seqs(v: Seq<BitVec>) -> Seq<Seq<bool>> {
    v.map_values(|b: BitVec| bits_of(b))
}

/// Some bit is set.
pub open spec fn any_set(b: Seq<bool>) -> bool {
    exists|i: int| 0 <= i < b.len() && b[i]
}

/// Bit `i` of a run of words, least-significant bit of each word first.
pub open spec fn word_bit(words: Seq<usize>, i: int) -> bool {
    (words[i / (usize::BITS as int)] >> ((i % (usize::BITS as int)) as usize)) & 1usize == 1usize
}

/// Calls `bitvec::vec::BitVec::repeat`.
/// Contract: `len` copies of `bit`; `len` must not exceed `max_bits()`, where the call panics.
#[verifier::external_body]
pub(crate) fn ext_repeat(bit: bool, len: usize) -> (r: BitVec)
    requires
        len <= max_bits(),
    ensures
        bits_of(r) == Seq::new(len as nat, |_i: int| bit),
{
    BitVec { inner: bitvec::vec::BitVec::repeat(bit, len) }
}

/// Calls `bitvec::vec::BitVec::with_capacity`.
/// Contract: an empty bit-vector; a capacity above `max_bits()` panics and is excluded.
#[verifier::external_body]
pub(crate) fn ext_with_capacity(capacity: usize) -> (r: BitVec)
    requires
        capacity <= max_bits(),
    ensures
        bits_of(r) == Seq::<bool>::empty(),
{
    BitVec { inner: bitvec::vec::BitVec::with_capacity(capacity) }
}

/// Calls `bitvec::vec::BitVec::len`.
/// Contract: the number of live bits, which a bit-vector keeps within `max_bits()`.
#[verifier::external_body]
pub(crate) fn ext_len(b: &BitVec) -> (r: usize)
    ensures
        r == bits_of(*b).len(),
        r <= max_bits(),
{
    b.inner.len()
}

/// Reads a bit through `bitvec`'s `Index<usize>` (which panics out of range).
/// Contract: the bit at `index`.
#[verifier::external_body]
pub(crate) fn ext_index(b: &BitVec, index: usize) -> (r: bool)
    requires
        index < bits_of(*b).len(),
    ensures
        r == bits_of(*b)[index as int],
{
    b.inner[index]
}

/// Calls `BitSlice::set` (which panics only out of range).
/// Contract: only the bit at `index` changes, to `value`; within range it does not unwind.
#[verifier::external_body]
pub(crate) fn ext_set(b: &mut BitVec, index: usize, value: bool)
    requires
        index < bits_of(*old(b)).len(),
    ensures
        bits_of(*final(b)) == bits_of(*old(b)).update(index as int, value),
    no_unwind
{
    b.inner.set(index, value)
}

/// Calls `BitSlice::not_any`.
/// Contract: true exactly when no live bit is set.
#[verifier::external_body]
pub(crate) fn ext_not_any(b: &BitVec) -> (r: bool)
    ensures
        r == forall|i: int| 0 <= i < bits_of(*b).len() ==> !#[trigger] bits_of(*b)[i],
{
    b.inner.not_any()
}

/// Calls `bitvec::vec::BitVec::truncate`.
/// Contract: keeps the first `new_len` bits; a longer `new_len` leaves the vector as it was.
/// Only the length changes, so the storage words are the old ones, as many as the kept bits
/// need.
#[verifier::external_body]
pub(crate) fn ext_truncate(b: &mut BitVec, new_len: usize)
    ensures
        bits_of(*final(b)) == if new_len < bits_of(*old(b)).len() {
            bits_of(*old(b)).take(new_len as int)
        } else {
            bits_of(*old(b))
        },
        new_len < bits_of(*old(b)).len() ==> words_of(*final(b)) == words_of(*old(b)).take(
            (new_len + usize::BITS - 1) / (usize::BITS as int),
        ),
        new_len >= bits_of(*old(b)).len() ==> words_of(*final(b)) == words_of(*old(b)),
{
    b.inner.truncate(new_len)
}

/// Calls `bitvec::vec::BitVec::resize`.
/// Contract: the first `new_len` bits of the old contents followed by copies of `value`;
/// a length above `max_bits()` panics and is excluded.
#[verifier::external_body]
pub(crate) fn ext_resize(b: &mut BitVec, new_len: usize, value: bool)
    requires
        new_len <= max_bits(),
    ensures
        bits_of(*final(b)).len() == new_len,
        forall|i: int|
            0 <= i < new_len ==> #[trigger] bits_of(*final(b))[i] == if i < bits_of(*old(b)).len() {
                bits_of(*old(b))[i]
            } else {
                value
            },
{
    b.inner.resize(new_len, value)
}

/// Calls `bitvec::vec::BitVec::from_vec`.
/// Contract: every bit of every word, in order, stored in those very words; more bits than
/// `max_bits()` panics and is excluded.
#[verifier::external_body]
pub(crate) fn ext_from_vec(words: Vec<usize>) -> (r: BitVec)
    requires
        words@.len() * (usize::BITS as nat) <= max_bits(),
    ensures
        words_of(r) == words@,
        bits_of(r).len() == words@.len() * (usize::BITS as nat),
        forall|i: int| 0 <= i < bits_of(r).len() ==> #[trigger] bits_of(r)[i] == word_bit(words@, i),
{
    BitVec { inner: bitvec::vec::BitVec::from_vec(words) }
}

/// Calls `bitvec::vec::BitVec::as_raw_slice`.
/// Contract: the words that hold the live bits (named `words_of`), bit `i` at bit
/// `i % usize::BITS` of word `i / usize::BITS`. The bits of the last word beyond the live
/// ones are left unsaid.
#[verifier::external_body]
pub(crate) fn ext_as_raw_slice(b: &BitVec) -> (r: &[usize])
    ensures
        r@ == words_of(*b),
        r@.len() == (bits_of(*b).len() + usize::BITS - 1) / (usize::BITS as int),
        forall|i: int| 0 <= i < bits_of(*b).len() ==> #[trigger] word_bit(r@, i) == bits_of(*b)[i],
{
    b.inner.as_raw_slice()
}

impl Clone for BitVec {
    /// Clones through `bitvec`'s `Clone`. Contract: the same live bits.
    #[verifier::external_body]
    fn clone(&self) -> (r: Self)
        ensures
            bits_of(r) == bits_of(*self),
    {
        BitVec { inner: self.inner.clone() }
    }
}

impl BitVec {
    /// `len` copies of `bit`.
    pub fn repeat(bit: bool, len: usize) -> (r: Self)
        requires
            len <= max_bits(),
        ensures
            bits_of(r) == Seq::new(len as nat, |_i: int| bit),
    {
        ext_repeat(bit, len)
    }

    pub fn len(&self) -> (r: usize)
        ensures
            r == bits_of(*self).len(),
    {
        ext_len(self)
    }

    /// The bit at `index`.
    pub fn at(&self, index: usize) -> (r: bool)
        requires
            index < bits_of(*self).len(),
        ensures
            r == bits_of(*self)[index as int],
    {
        ext_index(self, index)
    }

    pub fn set(&mut self, index: usize, value: bool)
        requires
            index < bits_of(*old(self)).len(),
        ensures
            bits_of(*final(self)) == bits_of(*old(self)).update(index as int, value),
    {
        ext_set(self, index, value)
    }

    /// No bit is set.
    pub fn not_any(&self) -> (r: bool)
        ensures
            r == forall|i: int| 0 <= i < bits_of(*self).len() ==> !#[trigger] bits_of(*self)[i],
    {
        ext_not_any(self)
    }
}

} // verus!
