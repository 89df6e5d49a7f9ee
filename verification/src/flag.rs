//! Eight independent boolean flags held in one byte.

use vstd::prelude::*;
use crate::codec::Packable;
use crate::error::PackableError;
use crate::error::PackableErrorView;

verus! {

/// A byte read as eight flags, numbered 0 (least significant bit) to 7.
#[derive(Debug)]
pub struct Flag {
    base: u8,
}

/// Whether bit `id` of `byte` is set.
pub open spec fn bit_of(byte: u8, id: u8) -> bool {
    byte & (1u8 << id) != 0
}

/// `byte` with bit `id` set or cleared, the other bits as they were.
pub open spec fn with_bit(byte: u8, id: u8, value: bool) -> u8 {
    if value {
        byte | (1u8 << id)
    } else {
        byte & !(1u8 << id)
    }
}

/// Writing a bit makes it read as written and leaves every other bit alone.
pub proof fn lemma_with_bit(byte: u8, id: u8, value: bool)
    requires
        id < 8,
    ensures
        bit_of(with_bit(byte, id, value), id) == value,
        forall|other: u8|
            other < 8 && other != id ==> #[trigger] bit_of(with_bit(byte, id, value), other)
                == bit_of(byte, other),
{
    assert(bit_of(with_bit(byte, id, true), id)) by (bit_vector)
        requires
            id < 8,
    ;
    assert(!bit_of(with_bit(byte, id, false), id)) by (bit_vector)
        requires
            id < 8,
    ;
    assert forall|other: u8| other < 8 && other != id implies #[trigger] bit_of(
        with_bit(byte, id, value),
        other,
    ) == bit_of(byte, other) by {
        assert(bit_of(with_bit(byte, id, true), other) == bit_of(byte, other)) by (bit_vector)
            requires
                id < 8,
                other < 8,
                other != id,
        ;
        assert(bit_of(with_bit(byte, id, false), other) == bit_of(byte, other)) by (bit_vector)
            requires
                id < 8,
                other < 8,
                other != id,
        ;
    }
}

impl Flag {
    /// The byte that holds the flags.
    pub closed spec fn byte(&self) -> u8 {
        self.base
    }

    /// Whether flag `id` is set.
    pub open spec fn bit(&self, id: u8) -> bool {
        bit_of(self.byte(), id)
    }

    /// Decoding a flag container decodes its byte.
    pub proof fn lemma_unpacked_byte(&self, bytes: Seq<u8>, little_endian: bool)
        ensures
            self.unpacked(bytes, little_endian).byte() == self.byte().unpacked(
                bytes,
                little_endian,
            ),
    {
    }

    /// The flags held in `byte`.
    pub fn from_byte(byte: u8) -> (flag: Flag)
        ensures
            flag.byte() == byte,
    {
        Flag { base: byte }
    }

    /// Sets flag `id` when `value` holds, clears it otherwise. The other
    /// flags keep their state. `id` is one of 0 to 7.
    pub fn set(&mut self, id: u8, value: bool)
        requires
            id < 8,
        ensures
            final(self).byte() == with_bit(old(self).byte(), id, value),
            final(self).bit(id) == value,
            forall|other: u8|
                other < 8 && other != id ==> #[trigger] final(self).bit(other) == old(self).bit(
                    other,
                ),
    {
        proof {
            lemma_with_bit(self.base, id, value);
        }
        if value {
            self.base = self.base | (0x1u8 << id)
        } else {
            self.base = self.base & !(0x1u8 << id)
        }
    }

    /// Whether flag `id` is set. `id` is one of 0 to 7.
    pub fn get(&self, id: u8) -> (on: bool)
        requires
            id < 8,
        ensures
            on == self.bit(id),
    {
        (self.base & (0x1u8 << id)) > 0
    }
}

impl Default for Flag {
    /// All flags clear.
    fn default() -> (flag: Flag)
        ensures
            flag.byte() == 0,
    {
        Flag { base: 0 }
    }
}

impl Packable for Flag {
    open spec fn byte_len(&self) -> nat {
        1
    }

    open spec fn packed(&self, little_endian: bool) -> Seq<u8> {
        self.byte().packed(little_endian)
    }

    closed spec fn unpacked(&self, bytes: Seq<u8>, little_endian: bool) -> Flag {
        Flag { base: self.base.unpacked(bytes, little_endian) }
    }

    open spec fn order_dependent(&self) -> bool {
        self.byte().order_dependent()
    }

    open spec fn truncated(&self, available: nat) -> PackableErrorView {
        self.byte().truncated(available)
    }

    proof fn lemma_packed_len(&self, little_endian: bool) {
        self.base.lemma_packed_len(little_endian);
    }

    proof fn lemma_size_fixed(&self, other: &Self) {
    }

    proof fn lemma_orders(&self) {
        self.base.lemma_orders();
    }

    proof fn lemma_round_trip(&self, target: &Self, little_endian: bool) {
        self.base.lemma_round_trip(&target.base, little_endian);
    }

    proof fn lemma_repack(&self, bytes: Seq<u8>, little_endian: bool) {
        self.base.lemma_repack(bytes, little_endian);
    }

    fn pack(&self, little_endian: bool) -> (bytes: Vec<u8>) {
        self.base.pack(little_endian)
    }

    fn size(&self) -> (n: usize) {
        self.base.size()
    }

    fn unpack(&mut self, data: &mut Vec<u8>, little_endian: bool) -> (r: Result<
        (),
        PackableError,
    >)
        ensures
            r is Ok ==> final(self).byte() == old(self).byte().unpacked(
                old(data)@.take(1),
                little_endian,
            ),
    {
        let r = self.base.unpack(data, little_endian);
        r
    }
}

} // verus!
