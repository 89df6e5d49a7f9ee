//! The capability every packable type has: its size, its bytes, and how it
//! is read back from bytes.

use vstd::prelude::*;
use crate::error::PackableError;
use crate::error::PackableErrorView;

verus! {

/// A value with a fixed-size byte encoding under a byte order chosen per call.
pub trait Packable: Sized {
    /// The number of bytes the encoding occupies.
    spec fn byte_len(&self) -> nat;

    /// The encoding under the requested order.
    spec fn packed(&self, little_endian: bool) -> Seq<u8>;

    /// The value that `bytes` decode to under the requested order, for a
    /// target that currently holds `self`.
    spec fn unpacked(&self, bytes: Seq<u8>, little_endian: bool) -> Self;

    /// Whether the byte order plays a part in how this type is encoded:
    /// big-endian is then the little-endian encoding reversed. Where it plays
    /// none (a single byte, a block of raw bytes) both orders give the same bytes.
    spec fn order_dependent(&self) -> bool;

    /// The failure of decoding from `available` bytes when they are too few.
    spec fn truncated(&self, available: nat) -> PackableErrorView;

    /// An encoding is as long as the size says.
    proof fn lemma_packed_len(&self, little_endian: bool)
        ensures
            self.packed(little_endian).len() == self.byte_len(),
    ;

    /// The size belongs to the type: any two values of it have the same.
    proof fn lemma_size_fixed(&self, other: &Self)
        ensures
            self.byte_len() == other.byte_len(),
    ;

    /// The two byte orders are mirror images, or the same where order plays no part.
    proof fn lemma_orders(&self)
        ensures
            self.packed(false) == if self.order_dependent() {
                self.packed(true).reverse()
            } else {
                self.packed(true)
            },
    ;

    /// Decoding an encoding under the same order gives the value back.
    proof fn lemma_round_trip(&self, target: &Self, little_endian: bool)
        requires
            target.byte_len() == self.byte_len(),
        ensures
            target.unpacked(self.packed(little_endian), little_endian) == *self,
    ;

    /// Encoding a decoded value under the same order gives the bytes back.
    proof fn lemma_repack(&self, bytes: Seq<u8>, little_endian: bool)
        requires
            bytes.len() == self.byte_len(),
        ensures
            self.unpacked(bytes, little_endian).packed(little_endian) == bytes,
    ;

    /// Encodes the value under the requested order.
    fn pack(&self, little_endian: bool) -> (bytes: Vec<u8>)
        ensures
            bytes@ == self.packed(little_endian),
    ;

    /// The number of bytes `pack` returns and `unpack` reads.
    fn size(&self) -> (n: usize)
        ensures
            n == self.byte_len(),
    ;

    /// Overwrites the value with what the first `size()` bytes of `data`
    /// decode to. With fewer bytes than that it fails and changes nothing.
    fn unpack(&mut self, data: &mut Vec<u8>, little_endian: bool) -> (r: Result<
        (),
        PackableError,
    >)
        ensures
            final(data)@ == old(data)@,
            r is Ok <==> old(self).byte_len() <= old(data)@.len(),
            r is Ok ==> *final(self) == old(self).unpacked(
                old(data)@.take(old(self).byte_len() as int),
                little_endian,
            ),
            r is Err ==> *final(self) == *old(self) && r->Err_0@ == old(self).truncated(
                old(data)@.len(),
            ),
    ;
}

/// Where the byte order plays a part and the encoding does not read the same
/// in both directions, the two orders give different bytes, and decoding
/// under the order that was not used for encoding gives a different value.
pub proof fn lemma_order_sensitivity<T: Packable>(value: &T, target: &T)
    requires
        value.order_dependent(),
        value.packed(true) != value.packed(true).reverse(),
    ensures
        value.packed(true) != value.packed(false),
        target.unpacked(value.packed(true), false) != *value,
        target.unpacked(value.packed(false), true) != *value,
{
    value.lemma_orders();
    value.lemma_size_fixed(target);
    value.lemma_packed_len(true);
    value.lemma_packed_len(false);
    target.lemma_repack(value.packed(true), false);
    target.lemma_repack(value.packed(false), true);
}

} // verus!
