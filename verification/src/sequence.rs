//! Packing values one after another into one buffer, and taking them back
//! from the front of a buffer field by field.

use vstd::prelude::*;
use crate::codec::Packable;
use crate::error::shortfall_error;
use crate::error::PackableError;

verus! {

/// The encodings of `values`, one after another, with nothing between them.
pub open spec fn packed_all<T: Packable>(values: Seq<T>, little_endian: bool) -> Seq<u8>
    decreases values.len(),
{
    if values.len() == 0 {
        Seq::empty()
    } else {
        packed_all(values.drop_last(), little_endian) + values.last().packed(little_endian)
    }
}

/// The number of bytes that the first `count` of `fields` occupy together:
/// the place in the buffer where field `count` starts.
pub open spec fn offset_of<T: Packable>(fields: Seq<T>, count: nat) -> nat
    decreases count,
{
    if count == 0 || count > fields.len() {
        0
    } else {
        offset_of(fields, (count - 1) as nat) + fields[count - 1].byte_len()
    }
}

/// How many of `fields`, taken in order, fit into `available` bytes: the
/// index of the first field that the buffer is too short for, or the number
/// of fields when all fit.
pub open spec fn fitting<T: Packable>(fields: Seq<T>, available: nat) -> nat {
    choose|count: nat| is_fitting(fields, available, count)
}

/// `count` fields fit into `available` bytes and the next one, if any, does not.
pub open spec fn is_fitting<T: Packable>(fields: Seq<T>, available: nat, count: nat) -> bool {
    &&& count <= fields.len()
    &&& offset_of(fields, count) <= available
    &&& count < fields.len() ==> offset_of(fields, count + 1) > available
}

/// The bytes of the buffer `input` that field `index` is decoded from.
pub open spec fn field_bytes<T: Packable>(fields: Seq<T>, input: Seq<u8>, index: int) -> Seq<u8> {
    input.subrange(
        offset_of(fields, index as nat) as int,
        offset_of(fields, (index + 1) as nat) as int,
    )
}

/// Offsets never decrease from one field to the next.
pub proof fn lemma_offset_monotone<T: Packable>(fields: Seq<T>, a: nat, b: nat)
    requires
        a <= b <= fields.len(),
    ensures
        offset_of(fields, a) <= offset_of(fields, b),
    decreases b,
{
    if a < b {
        lemma_offset_monotone(fields, a, (b - 1) as nat);
    }
}

/// Only one count of fields fits exactly, so `fitting` is that count.
pub proof fn lemma_fitting_unique<T: Packable>(fields: Seq<T>, available: nat, count: nat)
    requires
        is_fitting(fields, available, count),
    ensures
        fitting(fields, available) == count,
{
    let other = fitting(fields, available);
    assert(is_fitting(fields, available, other));
    if other < count {
        lemma_offset_monotone(fields, other + 1, count);
    } else if count < other {
        lemma_offset_monotone(fields, count + 1, other);
    }
}

/// Where a field starts depends only on the fields before it.
pub proof fn lemma_offset_of_prefix<T: Packable>(fields: Seq<T>, prefix: Seq<T>, count: nat)
    requires
        count <= prefix.len() <= fields.len(),
        prefix == fields.take(prefix.len() as int),
    ensures
        offset_of(prefix, count) == offset_of(fields, count),
    decreases count,
{
    if count > 0 {
        lemma_offset_of_prefix(fields, prefix, (count - 1) as nat);
    }
}

/// A packed sequence is as long as its fields' sizes together.
pub proof fn lemma_packed_all_len<T: Packable>(values: Seq<T>, little_endian: bool)
    ensures
        packed_all(values, little_endian).len() == offset_of(values, values.len()),
    decreases values.len(),
{
    if values.len() > 0 {
        let front = values.drop_last();
        lemma_packed_all_len(front, little_endian);
        lemma_offset_of_prefix(values, front, front.len());
        values.last().lemma_packed_len(little_endian);
    }
}

/// Each field of a packed sequence lies where the sizes of the fields before
/// it put it.
pub proof fn lemma_packed_all_field<T: Packable>(values: Seq<T>, little_endian: bool, index: int)
    requires
        0 <= index < values.len(),
    ensures
        field_bytes(values, packed_all(values, little_endian), index) == values[index].packed(
            little_endian,
        ),
    decreases values.len(),
{
    let front = values.drop_last();
    let all = packed_all(values, little_endian);
    lemma_packed_all_len(front, little_endian);
    lemma_packed_all_len(values, little_endian);
    lemma_offset_of_prefix(values, front, front.len());
    values.last().lemma_packed_len(little_endian);
    if index == values.len() - 1 {
        assert(field_bytes(values, all, index) =~= values.last().packed(little_endian));
    } else {
        lemma_packed_all_field(front, little_endian, index);
        lemma_offset_of_prefix(values, front, index as nat);
        lemma_offset_of_prefix(values, front, (index + 1) as nat);
        lemma_offset_monotone(front, (index + 1) as nat, front.len());
        assert(field_bytes(values, all, index) =~= field_bytes(
            front,
            packed_all(front, little_endian),
            index,
        ));
    }
}

/// Where a field starts is the same for any two sequences of one type, since
/// the size belongs to the type.
pub proof fn lemma_offset_of_any<T: Packable>(a: Seq<T>, b: Seq<T>, count: nat)
    requires
        count <= a.len() == b.len(),
    ensures
        offset_of(a, count) == offset_of(b, count),
    decreases count,
{
    if count > 0 {
        lemma_offset_of_any(a, b, (count - 1) as nat);
        a[count - 1].lemma_size_fixed(&b[count - 1]);
    }
}

/// Unpacking what was packed, under the same order and into as many targets,
/// finds every field in place: all targets fit, each decodes to the value
/// packed at its position, and nothing of the buffer is left over.
pub proof fn lemma_sequence_round_trip<T: Packable>(
    values: Seq<T>,
    targets: Seq<T>,
    little_endian: bool,
)
    requires
        values.len() == targets.len(),
    ensures
        fitting(targets, packed_all(values, little_endian).len()) == targets.len(),
        offset_of(targets, targets.len()) == packed_all(values, little_endian).len(),
        forall|i: int|
            0 <= i < targets.len() ==> #[trigger] targets[i].unpacked(
                field_bytes(targets, packed_all(values, little_endian), i),
                little_endian,
            ) == values[i],
{
    let all = packed_all(values, little_endian);
    lemma_packed_all_len(values, little_endian);
    lemma_offset_of_any(values, targets, values.len());
    lemma_fitting_unique(targets, all.len(), targets.len());
    assert forall|i: int| 0 <= i < targets.len() implies #[trigger] targets[i].unpacked(
        field_bytes(targets, all, i),
        little_endian,
    ) == values[i] by {
        lemma_offset_of_any(values, targets, i as nat);
        lemma_offset_of_any(values, targets, (i + 1) as nat);
        lemma_packed_all_field(values, little_endian, i);
        values[i].lemma_size_fixed(&targets[i]);
        values[i].lemma_round_trip(&targets[i], little_endian);
    }
}

/// Appends the encoding of `value` to `out`.
pub fn pack_field<T: Packable>(out: &mut Vec<u8>, value: &T, little_endian: bool)
    ensures
        final(out)@ == old(out)@ + value.packed(little_endian),
{
    let mut bytes: Vec<u8> = value.pack(little_endian);
    out.append(&mut bytes);
}

/// Encodes `values` in order into one byte sequence.
pub fn pack_fields<T: Packable>(values: &Vec<T>, little_endian: bool) -> (out: Vec<u8>)
    ensures
        out@ == packed_all(values@, little_endian),
{
    let mut out: Vec<u8> = Vec::new();
    let mut i: usize = 0;
    while i < values.len()
        invariant
            i <= values@.len(),
            out@ == packed_all(values@.take(i as int), little_endian),
        decreases values@.len() - i,
    {
        pack_field(&mut out, &values[i], little_endian);
        proof {
            let next = values@.take(i + 1);
            assert(next.drop_last() =~= values@.take(i as int));
            assert(next.last() == values@[i as int]);
        }
        i += 1;
    }
    assert(values@.take(values@.len() as int) =~= values@);
    out
}

/// Takes one field from the front of `buffer`: decodes `target` from the
/// first `size()` bytes and leaves the rest in `buffer`. When the buffer is
/// too short it fails and changes neither.
pub fn unpack_field<T: Packable>(target: &mut T, buffer: &mut Vec<u8>, little_endian: bool) -> (r:
    Result<(), PackableError>)
    ensures
        r is Ok <==> old(target).byte_len() <= old(buffer)@.len(),
        r is Ok ==> {
            &&& *final(target) == old(target).unpacked(
                old(buffer)@.take(old(target).byte_len() as int),
                little_endian,
            )
            &&& final(buffer)@ == old(buffer)@.skip(old(target).byte_len() as int)
        },
        r is Err ==> {
            &&& *final(target) == *old(target)
            &&& final(buffer)@ == old(buffer)@
            &&& r->Err_0@ == shortfall_error(old(target).byte_len(), old(buffer)@.len())
        },
{
    let size: usize = target.size();
    if buffer.len() >= size {
        let split_buf: Vec<u8> = buffer.split_off(size);
        let ghost front = buffer@;
        let r = target.unpack(buffer, little_endian);
        *buffer = split_buf;
        proof {
            assert(front.take(size as int) =~= old(buffer)@.take(size as int));
        }
        r
    } else {
        Err(PackableError::shortfall(size, buffer.len()))
    }
}

/// Takes `targets` in order from the front of `buffer`, and succeeds exactly
/// when the buffer holds them all. Otherwise it stops at the first
/// field that the remaining buffer is too short for: the fields before it
/// have been decoded, that field and those after it are as they were, and
/// `buffer` holds what was not consumed.
pub fn unpack_fields<T: Packable>(
    targets: &mut Vec<T>,
    buffer: &mut Vec<u8>,
    little_endian: bool,
) -> (r: Result<(), PackableError>)
    ensures
        final(targets)@.len() == old(targets)@.len(),
        r is Ok <==> offset_of(old(targets)@, old(targets)@.len()) <= old(buffer)@.len(),
        r is Ok <==> fitting(old(targets)@, old(buffer)@.len()) == old(targets)@.len(),
        is_fitting(old(targets)@, old(buffer)@.len(), fitting(old(targets)@, old(buffer)@.len())),
        forall|i: int|
            0 <= i < fitting(old(targets)@, old(buffer)@.len()) ==> #[trigger] final(targets)@[i]
                == old(targets)@[i].unpacked(
                field_bytes(old(targets)@, old(buffer)@, i),
                little_endian,
            ),
        forall|i: int|
            fitting(old(targets)@, old(buffer)@.len()) <= i < old(targets)@.len()
                ==> #[trigger] final(targets)@[i] == old(targets)@[i],
        final(buffer)@ == old(buffer)@.skip(
            offset_of(old(targets)@, fitting(old(targets)@, old(buffer)@.len())) as int,
        ),
        r is Err ==> r->Err_0@ == shortfall_error(
            old(targets)@[fitting(old(targets)@, old(buffer)@.len()) as int].byte_len(),
            (old(buffer)@.len() - offset_of(
                old(targets)@,
                fitting(old(targets)@, old(buffer)@.len()),
            )) as nat,
        ),
{
    let ghost fields = targets@;
    let ghost input = buffer@;
    let n: usize = targets.len();
    let mut i: usize = 0;
    while i < n
        invariant
            fields == old(targets)@,
            input == old(buffer)@,
            n == fields.len(),
            targets@.len() == n,
            i <= n,
            offset_of(fields, i as nat) <= input.len(),
            buffer@ == input.skip(offset_of(fields, i as nat) as int),
            forall|j: int|
                0 <= j < i ==> #[trigger] targets@[j] == fields[j].unpacked(
                    field_bytes(fields, input, j),
                    little_endian,
                ),
            forall|j: int| i <= j < n ==> #[trigger] targets@[j] == fields[j],
        decreases n - i,
    {
        let ghost rest = buffer@;
        let ghost before = targets@;
        let r = unpack_field(&mut targets[i], buffer, little_endian);
        match r {
            Ok(()) => {
                proof {
                    let start = offset_of(fields, i as nat) as int;
                    let width = fields[i as int].byte_len() as int;
                    assert(offset_of(fields, (i + 1) as nat) == start + width);
                    assert(rest.take(width) =~= field_bytes(fields, input, i as int));
                    assert(rest.skip(width) =~= input.skip(start + width));
                }
            },
            Err(e) => {
                proof {
                    assert(targets@ =~= before);
                    lemma_fitting_unique(fields, input.len(), i as nat);
                    lemma_offset_monotone(fields, (i + 1) as nat, n as nat);
                }
                return Err(e);
            },
        }
        i += 1;
    }
    proof {
        lemma_fitting_unique(fields, input.len(), n as nat);
    }
    Ok(())
}

} // verus!
