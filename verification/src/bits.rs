//! The bit container that carries Golomb-Rice codewords.
//!
//! A `BitStream` is a `bitvec` bit-vector of bytes in most-significant-bit-first
//! order, held behind a small trusted surface: `bit_seq` names the bits a stream
//! holds, and each method the codec calls is wrapped with a contract over that
//! name. Verus refuses a direct declaration of the vector's generics, so the
//! vector sits in a hidden field instead.

use crate::model::bytes_to_bits;
use vstd::prelude::*;

verus! {

/// An ordered sequence of bits, append-only, indexable, and serialisable to
/// bytes. Built by the encoder and handed back by [`crate::gcs::Gcs::as_bits`];
/// externally obtained streams are rebuilt with [`BitStream::new`] and
/// [`BitStream::push`].
#[verifier::external_body]
pub struct BitStream {
    inner: bitvec::vec::BitVec<u8, bitvec::order::Msb0>,
}

/// The ordered bits held by a stream, oldest first.
pub uninterp spec fn bit_seq(bv: BitStream) -> Seq<bool>;

/// The longest stream the container can hold: `bitvec`'s `BitSlice::MAX_BITS`
/// is the bit length of the address space less the three intra-byte index bits.
pub open spec fn max_bits() -> nat {
    usize::MAX as nat / 8
}

impl BitStream {
    /// Relies on `BitVec::new`: an empty bit-vector.
    #[verifier::external_body]
    pub fn new() -> (r: BitStream)
        ensures
            bit_seq(r) == Seq::<bool>::empty(),
    {
        BitStream { inner: bitvec::vec::BitVec::new() }
    }

    /// Relies on `BitVec::push`: appends one bit; it panics only when the new
    /// length would pass `BitSlice::MAX_BITS`, which the precondition rules out.
    #[verifier::external_body]
    pub fn push(&mut self, bit: bool)
        requires
            bit_seq(*old(self)).len() < max_bits(),
        ensures
            bit_seq(*final(self)) == bit_seq(*old(self)).push(bit),
    {
        self.inner.push(bit)
    }

    /// Relies on `BitVec::len`: the number of live bits.
    #[verifier::external_body]
    pub fn len(&self) -> (r: usize)
        ensures
            r == bit_seq(*self).len(),
    {
        self.inner.len()
    }

    /// Relies on the `Index` view of a bit-vector: the bit at a live position;
    /// it panics only out of range, which the precondition rules out.
    #[verifier::external_body]
    pub fn get(&self, i: usize) -> (r: bool)
        requires
            i < bit_seq(*self).len(),
        ensures
            r == bit_seq(*self)[i as int],
    {
        self.inner[i]
    }

    /// Relies on bitvec's byte serialisation (`force_align`,
    /// `set_uninitialized`, `into_vec`): the stream's bits packed into bytes
    /// most significant bit first, the dead bits of the last byte set to zero.
    #[verifier::external_body]
    pub fn to_bytes(&self) -> (r: Vec<u8>)
        ensures
            r@.len() == (bit_seq(*self).len() + 7) / 8,
            bytes_to_bits(r@) == bit_seq(*self) + Seq::new(
                (r@.len() * 8 - bit_seq(*self).len()) as nat,
                |i: int| false,
            ),
    {
        let mut bv = self.inner.clone();
        bv.force_align();
        bv.set_uninitialized(false);
        bv.into_vec()
    }

    /// Relies on `BitVec::extend_from_bitslice`: appends every bit of `src`;
    /// its inner `resize` panics only past `BitSlice::MAX_BITS`, which the
    /// precondition rules out.
    #[verifier::external_body]
    pub fn extend_from(&mut self, src: &BitStream)
        requires
            bit_seq(*old(self)).len() + bit_seq(*src).len() <= max_bits(),
        ensures
            bit_seq(*final(self)) == bit_seq(*old(self)) + bit_seq(*src),
    {
        self.inner.extend_from_bitslice(src.inner.as_bitslice())
    }
}

} // verus!
