//! The codecs of the fixed-width integers. Every width goes through the same
//! two routines, so the byte order means the same for each of them.

use vstd::prelude::*;
use crate::bytes::bits_of;
use crate::bytes::decode_bits;
use crate::bytes::encode_bits;
use crate::bytes::le_bytes;
use crate::bytes::lemma_bits_of_signed;
use crate::bytes::lemma_le_bytes_len;
use crate::bytes::lemma_ordered_bytes_of_value;
use crate::bytes::lemma_ordered_round_trip;
use crate::bytes::lemma_radix_pow_values;
use crate::bytes::lemma_signed_round_trip;
use crate::bytes::ordered_bytes;
use crate::bytes::ordered_value;
use crate::bytes::signed_bits;
use crate::bytes::signed_of;
use crate::bytes::signed_value;
use crate::codec::Packable;
use crate::error::conversion_error;
use crate::error::PackableError;
use crate::error::PackableErrorView;

verus! {

impl Packable for u8 {
    open spec fn byte_len(&self) -> nat {
        1
    }

    open spec fn packed(&self, little_endian: bool) -> Seq<u8> {
        ordered_bytes(*self as nat, 1, little_endian)
    }

    open spec fn unpacked(&self, bytes: Seq<u8>, little_endian: bool) -> u8 {
        ordered_value(bytes, little_endian) as u8
    }

    open spec fn order_dependent(&self) -> bool {
        false
    }

    open spec fn truncated(&self, available: nat) -> PackableErrorView {
        conversion_error()
    }

    proof fn lemma_packed_len(&self, little_endian: bool) {
        lemma_le_bytes_len(*self as nat, 1);
    }

    proof fn lemma_size_fixed(&self, other: &Self) {
    }

    proof fn lemma_orders(&self) {
        let bytes = le_bytes(*self as nat, 1);
        lemma_le_bytes_len(*self as nat, 1);
        assert(bytes.reverse() =~= bytes);
    }

    proof fn lemma_round_trip(&self, target: &Self, little_endian: bool) {
        lemma_radix_pow_values();
        lemma_ordered_round_trip(*self as nat, 1, little_endian);
    }

    proof fn lemma_repack(&self, bytes: Seq<u8>, little_endian: bool) {
        lemma_radix_pow_values();
        lemma_ordered_bytes_of_value(bytes, little_endian);
    }

    fn pack(&self, little_endian: bool) -> (bytes: Vec<u8>) {
        encode_bits(*self as u128, 1, little_endian)
    }

    fn size(&self) -> (n: usize)
        ensures
            n == 1,
    {
        1
    }

    fn unpack(&mut self, data: &mut Vec<u8>, little_endian: bool) -> (r: Result<
        (),
        PackableError,
    >) {
        if data.len() < 1 {
            return Err(PackableError::conversion());
        }
        proof {
            lemma_radix_pow_values();
        }
        let bits: u128 = decode_bits(data, 1, little_endian);
        *self = bits as u8;
        Ok(())
    }
}

impl Packable for u16 {
    open spec fn byte_len(&self) -> nat {
        2
    }

    open spec fn packed(&self, little_endian: bool) -> Seq<u8> {
        ordered_bytes(*self as nat, 2, little_endian)
    }

    open spec fn unpacked(&self, bytes: Seq<u8>, little_endian: bool) -> u16 {
        ordered_value(bytes, little_endian) as u16
    }

    open spec fn order_dependent(&self) -> bool {
        true
    }

    open spec fn truncated(&self, available: nat) -> PackableErrorView {
        conversion_error()
    }

    proof fn lemma_packed_len(&self, little_endian: bool) {
        lemma_le_bytes_len(*self as nat, 2);
    }

    proof fn lemma_size_fixed(&self, other: &Self) {
    }

    proof fn lemma_orders(&self) {
    }

    proof fn lemma_round_trip(&self, target: &Self, little_endian: bool) {
        lemma_radix_pow_values();
        lemma_ordered_round_trip(*self as nat, 2, little_endian);
    }

    proof fn lemma_repack(&self, bytes: Seq<u8>, little_endian: bool) {
        lemma_radix_pow_values();
        lemma_ordered_bytes_of_value(bytes, little_endian);
    }

    fn pack(&self, little_endian: bool) -> (bytes: Vec<u8>) {
        encode_bits(*self as u128, 2, little_endian)
    }

    fn size(&self) -> (n: usize)
        ensures
            n == 2,
    {
        2
    }

    fn unpack(&mut self, data: &mut Vec<u8>, little_endian: bool) -> (r: Result<
        (),
        PackableError,
    >) {
        if data.len() < 2 {
            return Err(PackableError::conversion());
        }
        proof {
            lemma_radix_pow_values();
        }
        let bits: u128 = decode_bits(data, 2, little_endian);
        *self = bits as u16;
        Ok(())
    }
}

impl Packable for u32 {
    open spec fn byte_len(&self) -> nat {
        4
    }

    open spec fn packed(&self, little_endian: bool) -> Seq<u8> {
        ordered_bytes(*self as nat, 4, little_endian)
    }

    open spec fn unpacked(&self, bytes: Seq<u8>, little_endian: bool) -> u32 {
        ordered_value(bytes, little_endian) as u32
    }

    open spec fn order_dependent(&self) -> bool {
        true
    }

    open spec fn truncated(&self, available: nat) -> PackableErrorView {
        conversion_error()
    }

    proof fn lemma_packed_len(&self, little_endian: bool) {
        lemma_le_bytes_len(*self as nat, 4);
    }

    proof fn lemma_size_fixed(&self, other: &Self) {
    }

    proof fn lemma_orders(&self) {
    }

    proof fn lemma_round_trip(&self, target: &Self, little_endian: bool) {
        lemma_radix_pow_values();
        lemma_ordered_round_trip(*self as nat, 4, little_endian);
    }

    proof fn lemma_repack(&self, bytes: Seq<u8>, little_endian: bool) {
        lemma_radix_pow_values();
        lemma_ordered_bytes_of_value(bytes, little_endian);
    }

    fn pack(&self, little_endian: bool) -> (bytes: Vec<u8>) {
        encode_bits(*self as u128, 4, little_endian)
    }

    fn size(&self) -> (n: usize)
        ensures
            n == 4,
    {
        4
    }

    fn unpack(&mut self, data: &mut Vec<u8>, little_endian: bool) -> (r: Result<
        (),
        PackableError,
    >) {
        if data.len() < 4 {
            return Err(PackableError::conversion());
        }
        proof {
            lemma_radix_pow_values();
        }
        let bits: u128 = decode_bits(data, 4, little_endian);
        *self = bits as u32;
        Ok(())
    }
}

impl Packable for u64 {
    open spec fn byte_len(&self) -> nat {
        8
    }

    open spec fn packed(&self, little_endian: bool) -> Seq<u8> {
        ordered_bytes(*self as nat, 8, little_endian)
    }

    open spec fn unpacked(&self, bytes: Seq<u8>, little_endian: bool) -> u64 {
        ordered_value(bytes, little_endian) as u64
    }

    open spec fn order_dependent(&self) -> bool {
        true
    }

    open spec fn truncated(&self, available: nat) -> PackableErrorView {
        conversion_error()
    }

    proof fn lemma_packed_len(&self, little_endian: bool) {
        lemma_le_bytes_len(*self as nat, 8);
    }

    proof fn lemma_size_fixed(&self, other: &Self) {
    }

    proof fn lemma_orders(&self) {
    }

    proof fn lemma_round_trip(&self, target: &Self, little_endian: bool) {
        lemma_radix_pow_values();
        lemma_ordered_round_trip(*self as nat, 8, little_endian);
    }

    proof fn lemma_repack(&self, bytes: Seq<u8>, little_endian: bool) {
        lemma_radix_pow_values();
        lemma_ordered_bytes_of_value(bytes, little_endian);
    }

    fn pack(&self, little_endian: bool) -> (bytes: Vec<u8>) {
        encode_bits(*self as u128, 8, little_endian)
    }

    fn size(&self) -> (n: usize)
        ensures
            n == 8,
    {
        8
    }

    fn unpack(&mut self, data: &mut Vec<u8>, little_endian: bool) -> (r: Result<
        (),
        PackableError,
    >) {
        if data.len() < 8 {
            return Err(PackableError::conversion());
        }
        proof {
            lemma_radix_pow_values();
        }
        let bits: u128 = decode_bits(data, 8, little_endian);
        *self = bits as u64;
        Ok(())
    }
}

impl Packable for u128 {
    open spec fn byte_len(&self) -> nat {
        16
    }

    open spec fn packed(&self, little_endian: bool) -> Seq<u8> {
        ordered_bytes(*self as nat, 16, little_endian)
    }

    open spec fn unpacked(&self, bytes: Seq<u8>, little_endian: bool) -> u128 {
        ordered_value(bytes, little_endian) as u128
    }

    open spec fn order_dependent(&self) -> bool {
        true
    }

    open spec fn truncated(&self, available: nat) -> PackableErrorView {
        conversion_error()
    }

    proof fn lemma_packed_len(&self, little_endian: bool) {
        lemma_le_bytes_len(*self as nat, 16);
    }

    proof fn lemma_size_fixed(&self, other: &Self) {
    }

    proof fn lemma_orders(&self) {
    }

    proof fn lemma_round_trip(&self, target: &Self, little_endian: bool) {
        lemma_radix_pow_values();
        lemma_ordered_round_trip(*self as nat, 16, little_endian);
    }

    proof fn lemma_repack(&self, bytes: Seq<u8>, little_endian: bool) {
        lemma_radix_pow_values();
        lemma_ordered_bytes_of_value(bytes, little_endian);
    }

    fn pack(&self, little_endian: bool) -> (bytes: Vec<u8>) {
        encode_bits(*self as u128, 16, little_endian)
    }

    fn size(&self) -> (n: usize)
        ensures
            n == 16,
    {
        16
    }

    fn unpack(&mut self, data: &mut Vec<u8>, little_endian: bool) -> (r: Result<
        (),
        PackableError,
    >) {
        if data.len() < 16 {
            return Err(PackableError::conversion());
        }
        proof {
            lemma_radix_pow_values();
        }
        let bits: u128 = decode_bits(data, 16, little_endian);
        *self = bits as u128;
        Ok(())
    }
}

impl Packable for i8 {
    open spec fn byte_len(&self) -> nat {
        1
    }

    open spec fn packed(&self, little_endian: bool) -> Seq<u8> {
        ordered_bytes(bits_of(*self as int, 1), 1, little_endian)
    }

    open spec fn unpacked(&self, bytes: Seq<u8>, little_endian: bool) -> i8 {
        signed_of(ordered_value(bytes, little_endian), 1) as i8
    }

    open spec fn order_dependent(&self) -> bool {
        false
    }

    open spec fn truncated(&self, available: nat) -> PackableErrorView {
        conversion_error()
    }

    proof fn lemma_packed_len(&self, little_endian: bool) {
        lemma_le_bytes_len(bits_of(*self as int, 1), 1);
    }

    proof fn lemma_size_fixed(&self, other: &Self) {
    }

    proof fn lemma_orders(&self) {
        let bytes = le_bytes(bits_of(*self as int, 1), 1);
        lemma_le_bytes_len(bits_of(*self as int, 1), 1);
        assert(bytes.reverse() =~= bytes);
    }

    proof fn lemma_round_trip(&self, target: &Self, little_endian: bool) {
        lemma_radix_pow_values();
        lemma_signed_round_trip(*self as int, 1);
        lemma_ordered_round_trip(bits_of(*self as int, 1), 1, little_endian);
    }

    proof fn lemma_repack(&self, bytes: Seq<u8>, little_endian: bool) {
        lemma_radix_pow_values();
        lemma_ordered_bytes_of_value(bytes, little_endian);
        lemma_bits_of_signed(ordered_value(bytes, little_endian), 1);
    }

    fn pack(&self, little_endian: bool) -> (bytes: Vec<u8>) {
        proof {
            lemma_radix_pow_values();
        }
        encode_bits(signed_bits(*self as i128, 1), 1, little_endian)
    }

    fn size(&self) -> (n: usize)
        ensures
            n == 1,
    {
        1
    }

    fn unpack(&mut self, data: &mut Vec<u8>, little_endian: bool) -> (r: Result<
        (),
        PackableError,
    >) {
        if data.len() < 1 {
            return Err(PackableError::conversion());
        }
        proof {
            lemma_radix_pow_values();
        }
        let bits: u128 = decode_bits(data, 1, little_endian);
        *self = signed_value(bits, 1) as i8;
        Ok(())
    }
}

impl Packable for i16 {
    open spec fn byte_len(&self) -> nat {
        2
    }

    open spec fn packed(&self, little_endian: bool) -> Seq<u8> {
        ordered_bytes(bits_of(*self as int, 2), 2, little_endian)
    }

    open spec fn unpacked(&self, bytes: Seq<u8>, little_endian: bool) -> i16 {
        signed_of(ordered_value(bytes, little_endian), 2) as i16
    }

    open spec fn order_dependent(&self) -> bool {
        true
    }

    open spec fn truncated(&self, available: nat) -> PackableErrorView {
        conversion_error()
    }

    proof fn lemma_packed_len(&self, little_endian: bool) {
        lemma_le_bytes_len(bits_of(*self as int, 2), 2);
    }

    proof fn lemma_size_fixed(&self, other: &Self) {
    }

    proof fn lemma_orders(&self) {
    }

    proof fn lemma_round_trip(&self, target: &Self, little_endian: bool) {
        lemma_radix_pow_values();
        lemma_signed_round_trip(*self as int, 2);
        lemma_ordered_round_trip(bits_of(*self as int, 2), 2, little_endian);
    }

    proof fn lemma_repack(&self, bytes: Seq<u8>, little_endian: bool) {
        lemma_radix_pow_values();
        lemma_ordered_bytes_of_value(bytes, little_endian);
        lemma_bits_of_signed(ordered_value(bytes, little_endian), 2);
    }

    fn pack(&self, little_endian: bool) -> (bytes: Vec<u8>) {
        proof {
            lemma_radix_pow_values();
        }
        encode_bits(signed_bits(*self as i128, 2), 2, little_endian)
    }

    fn size(&self) -> (n: usize)
        ensures
            n == 2,
    {
        2
    }

    fn unpack(&mut self, data: &mut Vec<u8>, little_endian: bool) -> (r: Result<
        (),
        PackableError,
    >) {
        if data.len() < 2 {
            return Err(PackableError::conversion());
        }
        proof {
            lemma_radix_pow_values();
        }
        let bits: u128 = decode_bits(data, 2, little_endian);
        *self = signed_value(bits, 2) as i16;
        Ok(())
    }
}

impl Packable for i32 {
    open spec fn byte_len(&self) -> nat {
        4
    }

    open spec fn packed(&self, little_endian: bool) -> Seq<u8> {
        ordered_bytes(bits_of(*self as int, 4), 4, little_endian)
    }

    open spec fn unpacked(&self, bytes: Seq<u8>, little_endian: bool) -> i32 {
        signed_of(ordered_value(bytes, little_endian), 4) as i32
    }

    open spec fn order_dependent(&self) -> bool {
        true
    }

    open spec fn truncated(&self, available: nat) -> PackableErrorView {
        conversion_error()
    }

    proof fn lemma_packed_len(&self, little_endian: bool) {
        lemma_le_bytes_len(bits_of(*self as int, 4), 4);
    }

    proof fn lemma_size_fixed(&self, other: &Self) {
    }

    proof fn lemma_orders(&self) {
    }

    proof fn lemma_round_trip(&self, target: &Self, little_endian: bool) {
        lemma_radix_pow_values();
        lemma_signed_round_trip(*self as int, 4);
        lemma_ordered_round_trip(bits_of(*self as int, 4), 4, little_endian);
    }

    proof fn lemma_repack(&self, bytes: Seq<u8>, little_endian: bool) {
        lemma_radix_pow_values();
        lemma_ordered_bytes_of_value(bytes, little_endian);
        lemma_bits_of_signed(ordered_value(bytes, little_endian), 4);
    }

    fn pack(&self, little_endian: bool) -> (bytes: Vec<u8>) {
        proof {
            lemma_radix_pow_values();
        }
        encode_bits(signed_bits(*self as i128, 4), 4, little_endian)
    }

    fn size(&self) -> (n: usize)
        ensures
            n == 4,
    {
        4
    }

    fn unpack(&mut self, data: &mut Vec<u8>, little_endian: bool) -> (r: Result<
        (),
        PackableError,
    >) {
        if data.len() < 4 {
            return Err(PackableError::conversion());
        }
        proof {
            lemma_radix_pow_values();
        }
        let bits: u128 = decode_bits(data, 4, little_endian);
        *self = signed_value(bits, 4) as i32;
        Ok(())
    }
}

impl Packable for i64 {
    open spec fn byte_len(&self) -> nat {
        8
    }

    open spec fn packed(&self, little_endian: bool) -> Seq<u8> {
        ordered_bytes(bits_of(*self as int, 8), 8, little_endian)
    }

    open spec fn unpacked(&self, bytes: Seq<u8>, little_endian: bool) -> i64 {
        signed_of(ordered_value(bytes, little_endian), 8) as i64
    }

    open spec fn order_dependent(&self) -> bool {
        true
    }

    open spec fn truncated(&self, available: nat) -> PackableErrorView {
        conversion_error()
    }

    proof fn lemma_packed_len(&self, little_endian: bool) {
        lemma_le_bytes_len(bits_of(*self as int, 8), 8);
    }

    proof fn lemma_size_fixed(&self, other: &Self) {
    }

    proof fn lemma_orders(&self) {
    }

    proof fn lemma_round_trip(&self, target: &Self, little_endian: bool) {
        lemma_radix_pow_values();
        lemma_signed_round_trip(*self as int, 8);
        lemma_ordered_round_trip(bits_of(*self as int, 8), 8, little_endian);
    }

    proof fn lemma_repack(&self, bytes: Seq<u8>, little_endian: bool) {
        lemma_radix_pow_values();
        lemma_ordered_bytes_of_value(bytes, little_endian);
        lemma_bits_of_signed(ordered_value(bytes, little_endian), 8);
    }

    fn pack(&self, little_endian: bool) -> (bytes: Vec<u8>) {
        proof {
            lemma_radix_pow_values();
        }
        encode_bits(signed_bits(*self as i128, 8), 8, little_endian)
    }

    fn size(&self) -> (n: usize)
        ensures
            n == 8,
    {
        8
    }

    fn unpack(&mut self, data: &mut Vec<u8>, little_endian: bool) -> (r: Result<
        (),
        PackableError,
    >) {
        if data.len() < 8 {
            return Err(PackableError::conversion());
        }
        proof {
            lemma_radix_pow_values();
        }
        let bits: u128 = decode_bits(data, 8, little_endian);
        *self = signed_value(bits, 8) as i64;
        Ok(())
    }
}

impl Packable for i128 {
    open spec fn byte_len(&self) -> nat {
        16
    }

    open spec fn packed(&self, little_endian: bool) -> Seq<u8> {
        ordered_bytes(bits_of(*self as int, 16), 16, little_endian)
    }

    open spec fn unpacked(&self, bytes: Seq<u8>, little_endian: bool) -> i128 {
        signed_of(ordered_value(bytes, little_endian), 16) as i128
    }

    open spec fn order_dependent(&self) -> bool {
        true
    }

    open spec fn truncated(&self, available: nat) -> PackableErrorView {
        conversion_error()
    }

    proof fn lemma_packed_len(&self, little_endian: bool) {
        lemma_le_bytes_len(bits_of(*self as int, 16), 16);
    }

    proof fn lemma_size_fixed(&self, other: &Self) {
    }

    proof fn lemma_orders(&self) {
    }

    proof fn lemma_round_trip(&self, target: &Self, little_endian: bool) {
        lemma_radix_pow_values();
        lemma_signed_round_trip(*self as int, 16);
        lemma_ordered_round_trip(bits_of(*self as int, 16), 16, little_endian);
    }

    proof fn lemma_repack(&self, bytes: Seq<u8>, little_endian: bool) {
        lemma_radix_pow_values();
        lemma_ordered_bytes_of_value(bytes, little_endian);
        lemma_bits_of_signed(ordered_value(bytes, little_endian), 16);
    }

    fn pack(&self, little_endian: bool) -> (bytes: Vec<u8>) {
        proof {
            lemma_radix_pow_values();
        }
        encode_bits(signed_bits(*self as i128, 16), 16, little_endian)
    }

    fn size(&self) -> (n: usize)
        ensures
            n == 16,
    {
        16
    }

    fn unpack(&mut self, data: &mut Vec<u8>, little_endian: bool) -> (r: Result<
        (),
        PackableError,
    >) {
        if data.len() < 16 {
            return Err(PackableError::conversion());
        }
        proof {
            lemma_radix_pow_values();
        }
        let bits: u128 = decode_bits(data, 16, little_endian);
        *self = signed_value(bits, 16) as i128;
        Ok(())
    }
}

} // verus!
