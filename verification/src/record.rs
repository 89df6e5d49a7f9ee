//! Records of fields of different types, packed and unpacked in one call.
//!
//! A record is written as nested pairs that end in `()`: the fields `a`, `b`
//! and `c` in that order are `(a, (b, (c, ())))`.

use vstd::prelude::*;
use crate::codec::Packable;
use crate::error::shortfall_error;
use crate::error::ErrorKind;
use crate::error::PackableError;
use crate::error::PackableErrorView;
use crate::sequence::pack_field;
use crate::sequence::unpack_field;

verus! {

/// How an unpack of a record ends: the record as it then is, the part of the
/// buffer that was not consumed, and the failure, if there was one.
pub ghost struct Outcome<F> {
    pub fields: F,
    pub rest: Seq<u8>,
    pub failure: Option<PackableErrorView>,
}

/// An ordered list of packable fields.
pub trait Fields: Sized {
    /// The number of bytes that all fields occupy together.
    spec fn total_len(&self) -> nat;

    /// The encodings of the fields, one after another.
    spec fn packed_fields(&self, little_endian: bool) -> Seq<u8>;

    /// How unpacking this record from `input` ends. Fields are taken from the
    /// front in order; the first one that the rest of the buffer is too short
    /// for ends the unpack, and it and the fields after it stay as they are.
    spec fn unpacked_fields(&self, input: Seq<u8>, little_endian: bool) -> Outcome<Self>;

    /// The number of fields.
    spec fn count(&self) -> nat;

    /// The number of bytes that the first `index` fields occupy together:
    /// the place in the buffer where field `index` starts.
    spec fn offset_at(&self, index: nat) -> nat;

    /// Whether field `index` of this record is equal to that field of `before`.
    spec fn field_kept(&self, before: &Self, index: nat) -> bool;

    /// Whether field `index` of this record is what that field of `before`
    /// decodes to from `bytes`.
    spec fn field_decoded(
        &self,
        before: &Self,
        index: nat,
        bytes: Seq<u8>,
        little_endian: bool,
    ) -> bool;

    /// Offsets start at 0 and never decrease from one field to the next.
    proof fn lemma_offsets_grow(&self, a: nat, b: nat)
        requires
            a <= b,
        ensures
            self.offset_at(0) == 0,
            self.offset_at(a) <= self.offset_at(b),
    ;

    /// The first field that `available` bytes are too short for, or the
    /// number of fields when all fit.
    proof fn lemma_stop(&self, available: nat) -> (stop: nat)
        ensures
            stop <= self.count(),
            self.offset_at(stop) <= available,
            stop < self.count() ==> available < self.offset_at(stop + 1),
    ;

    /// Where an unpack stops and what it leaves. With `stop` the first field
    /// that the buffer is too short for (the number of fields when all fit):
    /// the fields before it are decoded, each from its own place in the
    /// buffer; that field and all after it keep their values; the buffer is
    /// left at the place where that field would start; and the failure, when
    /// there is a field that does not fit, names that field's size and the
    /// number of bytes that were left for it.
    proof fn lemma_unpack_stops(&self, input: Seq<u8>, little_endian: bool, stop: nat)
        requires
            stop <= self.count(),
            self.offset_at(stop) <= input.len(),
            stop < self.count() ==> input.len() < self.offset_at(stop + 1),
        ensures
            self.unpacked_fields(input, little_endian).rest == input.skip(
                self.offset_at(stop) as int,
            ),
            self.unpacked_fields(input, little_endian).failure == if stop == self.count() {
                None
            } else {
                Some(
                    shortfall_error(
                        (self.offset_at(stop + 1) - self.offset_at(stop)) as nat,
                        (input.len() - self.offset_at(stop)) as nat,
                    ),
                )
            },
            forall|j: nat|
                j < stop ==> #[trigger] self.unpacked_fields(
                    input,
                    little_endian,
                ).fields.field_decoded(
                    self,
                    j,
                    input.subrange(self.offset_at(j) as int, self.offset_at(j + 1) as int),
                    little_endian,
                ),
            forall|j: nat|
                stop <= j < self.count() ==> #[trigger] self.unpacked_fields(
                    input,
                    little_endian,
                ).fields.field_kept(self, j),
    ;

    /// Every field of a record is equal to itself.
    proof fn lemma_field_kept_same(&self, index: nat)
        ensures
            self.field_kept(self, index),
    ;

    /// A packed record is as long as its fields' sizes together.
    proof fn lemma_packed_fields_len(&self, little_endian: bool)
        ensures
            self.packed_fields(little_endian).len() == self.total_len(),
    ;

    /// An unpack succeeds exactly when the buffer holds all fields, and then
    /// leaves what follows them. When it fails, the failure is a shortfall
    /// and the buffer is left at the field that did not fit.
    proof fn lemma_unpacked_fields(&self, input: Seq<u8>, little_endian: bool)
        ensures
            self.unpacked_fields(input, little_endian).failure is None <==> self.total_len()
                <= input.len(),
            self.total_len() <= input.len() ==> self.unpacked_fields(input, little_endian).rest
                == input.skip(self.total_len() as int),
            self.unpacked_fields(input, little_endian).fields.total_len() == self.total_len(),
            self.unpacked_fields(input, little_endian).failure is Some ==> self.unpacked_fields(
                input,
                little_endian,
            ).failure->0.error_kind == ErrorKind::BufferLengthError,
            self.unpacked_fields(input, little_endian).rest.len() <= input.len(),
            self.unpacked_fields(input, little_endian).rest == input.skip(
                input.len() - self.unpacked_fields(input, little_endian).rest.len(),
            ),
    ;

    /// Unpacking a packed record into a record of the same type, under the
    /// same order, gives every field back and consumes the encoding, with
    /// whatever followed it left in the buffer.
    proof fn lemma_fields_round_trip(&self, target: &Self, tail: Seq<u8>, little_endian: bool)
        ensures
            target.unpacked_fields(self.packed_fields(little_endian) + tail, little_endian) == (
            Outcome { fields: *self, rest: tail, failure: None }),
    ;

    /// Appends the encodings of the fields, in order, to `out`.
    fn pack_into(&self, out: &mut Vec<u8>, little_endian: bool)
        ensures
            final(out)@ == old(out)@ + self.packed_fields(little_endian),
    ;

    /// Takes the fields, in order, from the front of `buffer`.
    fn unpack_from(&mut self, buffer: &mut Vec<u8>, little_endian: bool) -> (r: Result<
        (),
        PackableError,
    >)
        ensures
            *final(self) == old(self).unpacked_fields(old(buffer)@, little_endian).fields,
            final(buffer)@ == old(self).unpacked_fields(old(buffer)@, little_endian).rest,
            match r {
                Ok(_) => old(self).unpacked_fields(old(buffer)@, little_endian).failure is None,
                Err(e) => old(self).unpacked_fields(old(buffer)@, little_endian).failure == Some(
                    e@,
                ),
            },
    ;
}

/// `stop` is the first field of `fields` that `available` bytes are too short
/// for, counting from 0, or the number of fields when all of them fit.
pub open spec fn stops_at<F: Fields>(fields: &F, available: nat, stop: nat) -> bool {
    &&& stop <= fields.count()
    &&& fields.offset_at(stop) <= available
    &&& stop < fields.count() ==> available < fields.offset_at(stop + 1)
}

impl Fields for () {
    open spec fn total_len(&self) -> nat {
        0
    }

    open spec fn packed_fields(&self, little_endian: bool) -> Seq<u8> {
        Seq::empty()
    }

    open spec fn unpacked_fields(&self, input: Seq<u8>, little_endian: bool) -> Outcome<()> {
        Outcome { fields: (), rest: input, failure: None }
    }

    open spec fn count(&self) -> nat {
        0
    }

    open spec fn offset_at(&self, index: nat) -> nat {
        0
    }

    open spec fn field_kept(&self, before: &Self, index: nat) -> bool {
        true
    }

    open spec fn field_decoded(
        &self,
        before: &Self,
        index: nat,
        bytes: Seq<u8>,
        little_endian: bool,
    ) -> bool {
        true
    }

    proof fn lemma_offsets_grow(&self, a: nat, b: nat) {
    }

    proof fn lemma_stop(&self, available: nat) -> (stop: nat) {
        0
    }

    proof fn lemma_unpack_stops(&self, input: Seq<u8>, little_endian: bool, stop: nat) {
        assert(input.skip(0) =~= input);
    }

    proof fn lemma_field_kept_same(&self, index: nat) {
    }

    proof fn lemma_packed_fields_len(&self, little_endian: bool) {
    }

    proof fn lemma_unpacked_fields(&self, input: Seq<u8>, little_endian: bool) {
        assert(input.skip(0) =~= input);
    }

    proof fn lemma_fields_round_trip(&self, target: &Self, tail: Seq<u8>, little_endian: bool) {
        assert(Seq::<u8>::empty() + tail =~= tail);
    }

    fn pack_into(&self, out: &mut Vec<u8>, little_endian: bool) {
        assert(out@ + Seq::<u8>::empty() =~= out@);
    }

    fn unpack_from(&mut self, buffer: &mut Vec<u8>, little_endian: bool) -> (r: Result<
        (),
        PackableError,
    >) {
        Ok(())
    }
}

impl<A: Packable, B: Fields> Fields for (A, B) {
    open spec fn total_len(&self) -> nat {
        self.0.byte_len() + self.1.total_len()
    }

    open spec fn packed_fields(&self, little_endian: bool) -> Seq<u8> {
        self.0.packed(little_endian) + self.1.packed_fields(little_endian)
    }

    open spec fn unpacked_fields(&self, input: Seq<u8>, little_endian: bool) -> Outcome<(A, B)> {
        let width = self.0.byte_len();
        if input.len() < width {
            Outcome {
                fields: *self,
                rest: input,
                failure: Some(shortfall_error(width, input.len())),
            }
        } else {
            let first = self.0.unpacked(input.take(width as int), little_endian);
            let after = self.1.unpacked_fields(input.skip(width as int), little_endian);
            Outcome { fields: (first, after.fields), rest: after.rest, failure: after.failure }
        }
    }

    open spec fn count(&self) -> nat {
        1 + self.1.count()
    }

    open spec fn offset_at(&self, index: nat) -> nat {
        if index == 0 {
            0
        } else {
            self.0.byte_len() + self.1.offset_at((index - 1) as nat)
        }
    }

    open spec fn field_kept(&self, before: &Self, index: nat) -> bool {
        if index == 0 {
            self.0 == before.0
        } else {
            self.1.field_kept(&before.1, (index - 1) as nat)
        }
    }

    open spec fn field_decoded(
        &self,
        before: &Self,
        index: nat,
        bytes: Seq<u8>,
        little_endian: bool,
    ) -> bool {
        if index == 0 {
            self.0 == before.0.unpacked(bytes, little_endian)
        } else {
            self.1.field_decoded(&before.1, (index - 1) as nat, bytes, little_endian)
        }
    }

    proof fn lemma_offsets_grow(&self, a: nat, b: nat) {
        if a > 0 {
            self.1.lemma_offsets_grow((a - 1) as nat, (b - 1) as nat);
        }
    }

    proof fn lemma_stop(&self, available: nat) -> (stop: nat) {
        self.1.lemma_offsets_grow(0, 0);
        let width = self.0.byte_len();
        if available < width {
            0
        } else {
            let later = self.1.lemma_stop((available - width) as nat);
            later + 1
        }
    }

    proof fn lemma_unpack_stops(&self, input: Seq<u8>, little_endian: bool, stop: nat) {
        let width = self.0.byte_len();
        let outcome = self.unpacked_fields(input, little_endian);
        if stop == 0 {
            assert(input.skip(0) =~= input);
            self.1.lemma_offsets_grow(0, 0);
            assert forall|j: nat| stop <= j < self.count() implies #[trigger] outcome.fields.field_kept(
                self,
                j,
            ) by {
                self.lemma_field_kept_same(j);
            }
        } else {
            let middle = input.skip(width as int);
            let after = self.1.unpacked_fields(middle, little_endian);
            let later = (stop - 1) as nat;
            self.1.lemma_unpack_stops(middle, little_endian, later);
            assert(middle.skip(self.1.offset_at(later) as int) =~= input.skip(
                self.offset_at(stop) as int,
            ));
            assert forall|j: nat| j < stop implies #[trigger] outcome.fields.field_decoded(
                self,
                j,
                input.subrange(self.offset_at(j) as int, self.offset_at(j + 1) as int),
                little_endian,
            ) by {
                if j == 0 {
                    self.1.lemma_offsets_grow(0, 0);
                    assert(input.subrange(0, width as int) =~= input.take(width as int));
                } else {
                    let i = (j - 1) as nat;
                    self.1.lemma_offsets_grow(i, i + 1);
                    self.1.lemma_offsets_grow(i + 1, later);
                    assert(after.fields.field_decoded(
                        &self.1,
                        i,
                        middle.subrange(
                            self.1.offset_at(i) as int,
                            self.1.offset_at(i + 1) as int,
                        ),
                        little_endian,
                    ));
                    assert(middle.subrange(
                        self.1.offset_at(i) as int,
                        self.1.offset_at(i + 1) as int,
                    ) =~= input.subrange(
                        self.offset_at(j) as int,
                        self.offset_at(j + 1) as int,
                    ));
                }
            }
            assert forall|j: nat| stop <= j < self.count() implies #[trigger] outcome.fields.field_kept(
                self,
                j,
            ) by {
                assert(after.fields.field_kept(&self.1, (j - 1) as nat));
            }
        }
    }

    proof fn lemma_field_kept_same(&self, index: nat) {
        if index > 0 {
            self.1.lemma_field_kept_same((index - 1) as nat);
        }
    }

    proof fn lemma_packed_fields_len(&self, little_endian: bool) {
        self.0.lemma_packed_len(little_endian);
        self.1.lemma_packed_fields_len(little_endian);
    }

    proof fn lemma_unpacked_fields(&self, input: Seq<u8>, little_endian: bool) {
        let width = self.0.byte_len();
        if input.len() < width {
            assert(input.skip(0) =~= input);
        } else {
            let first = self.0.unpacked(input.take(width as int), little_endian);
            let middle = input.skip(width as int);
            self.0.lemma_size_fixed(&first);
            self.1.lemma_unpacked_fields(middle, little_endian);
            let after = self.1.unpacked_fields(middle, little_endian);
            assert(middle.skip(middle.len() - after.rest.len()) =~= input.skip(
                input.len() - after.rest.len(),
            ));
            if self.total_len() <= input.len() {
                assert(middle.skip(self.1.total_len() as int) =~= input.skip(
                    self.total_len() as int,
                ));
            }
        }
    }

    proof fn lemma_fields_round_trip(&self, target: &Self, tail: Seq<u8>, little_endian: bool) {
        let first = self.0.packed(little_endian);
        let others = self.1.packed_fields(little_endian);
        let input = self.packed_fields(little_endian) + tail;
        self.0.lemma_packed_len(little_endian);
        self.0.lemma_size_fixed(&target.0);
        self.0.lemma_round_trip(&target.0, little_endian);
        self.1.lemma_fields_round_trip(&target.1, tail, little_endian);
        assert(input.take(first.len() as int) =~= first);
        assert(input.skip(first.len() as int) =~= others + tail);
    }

    fn pack_into(&self, out: &mut Vec<u8>, little_endian: bool) {
        pack_field(out, &self.0, little_endian);
        self.1.pack_into(out, little_endian);
        assert(old(out)@ + self.0.packed(little_endian) + self.1.packed_fields(little_endian)
            =~= old(out)@ + self.packed_fields(little_endian));
    }

    fn unpack_from(&mut self, buffer: &mut Vec<u8>, little_endian: bool) -> (r: Result<
        (),
        PackableError,
    >) {
        match unpack_field(&mut self.0, buffer, little_endian) {
            Ok(()) => self.1.unpack_from(buffer, little_endian),
            Err(e) => Err(e),
        }
    }
}

/// Encodes the fields of `fields` in order into one byte sequence, with
/// nothing before, between or after them.
pub fn pack<F: Fields>(little_endian: bool, fields: &F) -> (out: Vec<u8>)
    ensures
        out@ == fields.packed_fields(little_endian),
{
    let mut out: Vec<u8> = Vec::new();
    fields.pack_into(&mut out, little_endian);
    assert(Seq::<u8>::empty() + fields.packed_fields(little_endian) =~= fields.packed_fields(
        little_endian,
    ));
    out
}

/// Decodes the fields of `fields` in order from the front of `buffer`, which
/// is left holding what was not consumed. It succeeds exactly when the buffer
/// holds all fields. Otherwise it stops at the first field that the rest of
/// the buffer is too short for: the fields before it have been decoded, each
/// from its own place in the buffer; that field and those after it are as
/// they were; and the error names that field's size and the number of bytes
/// that were left for it.
pub fn unpack<F: Fields>(little_endian: bool, buffer: &mut Vec<u8>, fields: &mut F) -> (r: Result<
    (),
    PackableError,
>)
    ensures
        r is Ok <==> old(fields).total_len() <= old(buffer)@.len(),
        r is Ok ==> final(buffer)@ == old(buffer)@.skip(old(fields).total_len() as int),
        *final(fields) == old(fields).unpacked_fields(old(buffer)@, little_endian).fields,
        final(buffer)@ == old(fields).unpacked_fields(old(buffer)@, little_endian).rest,
        r is Err ==> old(fields).unpacked_fields(old(buffer)@, little_endian).failure == Some(
            r->Err_0@,
        ),
        exists|stop: nat| stops_at(old(fields), old(buffer)@.len(), stop),
        forall|stop: nat| #[trigger]
            stops_at(old(fields), old(buffer)@.len(), stop) ==> {
                &&& r is Ok <==> stop == old(fields).count()
                &&& r is Err ==> r->Err_0@ == shortfall_error(
                    (old(fields).offset_at(stop + 1) - old(fields).offset_at(stop)) as nat,
                    (old(buffer)@.len() - old(fields).offset_at(stop)) as nat,
                )
                &&& final(buffer)@ == old(buffer)@.skip(old(fields).offset_at(stop) as int)
                &&& forall|j: nat|
                    j < stop ==> #[trigger] final(fields).field_decoded(
                        old(fields),
                        j,
                        old(buffer)@.subrange(
                            old(fields).offset_at(j) as int,
                            old(fields).offset_at(j + 1) as int,
                        ),
                        little_endian,
                    )
                &&& forall|j: nat|
                    stop <= j < old(fields).count() ==> #[trigger] final(fields).field_kept(
                        old(fields),
                        j,
                    )
            },
{
    let ghost input = buffer@;
    proof {
        fields.lemma_unpacked_fields(input, little_endian);
        let first = fields.lemma_stop(input.len());
        assert(stops_at(fields, input.len(), first));
        assert forall|stop: nat| #[trigger] stops_at(fields, input.len(), stop) implies {
            &&& fields.unpacked_fields(input, little_endian).rest == input.skip(
                fields.offset_at(stop) as int,
            )
            &&& fields.unpacked_fields(input, little_endian).failure == if stop == fields.count() {
                None
            } else {
                Some(
                    shortfall_error(
                        (fields.offset_at(stop + 1) - fields.offset_at(stop)) as nat,
                        (input.len() - fields.offset_at(stop)) as nat,
                    ),
                )
            }
            &&& forall|j: nat|
                j < stop ==> #[trigger] fields.unpacked_fields(
                    input,
                    little_endian,
                ).fields.field_decoded(
                    fields,
                    j,
                    input.subrange(fields.offset_at(j) as int, fields.offset_at(j + 1) as int),
                    little_endian,
                )
            &&& forall|j: nat|
                stop <= j < fields.count() ==> #[trigger] fields.unpacked_fields(
                    input,
                    little_endian,
                ).fields.field_kept(fields, j)
        } by {
            fields.lemma_unpack_stops(input, little_endian, stop);
        }
    }
    fields.unpack_from(buffer, little_endian)
}

} // verus!
