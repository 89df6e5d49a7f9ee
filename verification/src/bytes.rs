//! Base-256 digits of a natural number: the model behind every numeric codec,
//! and the two executable routines all widths share.

use vstd::prelude::*;

verus! {

/// 256 raised to `width`: the number of distinct values `width` bytes can hold.
pub open spec fn radix_pow(width: nat) -> nat
    decreases width,
{
    if width == 0 {
        1
    } else {
        256 * radix_pow((width - 1) as nat)
    }
}

/// The `width` low base-256 digits of `x`, least significant first.
pub open spec fn le_bytes(x: nat, width: nat) -> Seq<u8>
    decreases width,
{
    if width == 0 {
        Seq::empty()
    } else {
        seq![(x % 256) as u8] + le_bytes(x / 256, (width - 1) as nat)
    }
}

/// The number whose base-256 digits, least significant first, are `bytes`.
pub open spec fn le_value(bytes: Seq<u8>) -> nat
    decreases bytes.len(),
{
    if bytes.len() == 0 {
        0
    } else {
        bytes[0] as nat + 256 * le_value(bytes.skip(1))
    }
}

/// The `width` low digits of `x` in the requested order: least significant
/// first when `little_endian`, most significant first otherwise.
pub open spec fn ordered_bytes(x: nat, width: nat, little_endian: bool) -> Seq<u8> {
    if little_endian {
        le_bytes(x, width)
    } else {
        le_bytes(x, width).reverse()
    }
}

/// The number that `bytes` spell in the requested order.
pub open spec fn ordered_value(bytes: Seq<u8>, little_endian: bool) -> nat {
    if little_endian {
        le_value(bytes)
    } else {
        le_value(bytes.reverse())
    }
}

/// The bit pattern, as a natural number, of the two's-complement integer `x`
/// stored in `width` bytes.
pub open spec fn bits_of(x: int, width: nat) -> nat {
    if x >= 0 {
        x as nat
    } else {
        (x + radix_pow(width)) as nat
    }
}

/// The two's-complement integer that the `width`-byte bit pattern `bits` stands for.
pub open spec fn signed_of(bits: nat, width: nat) -> int {
    if 2 * bits < radix_pow(width) {
        bits as int
    } else {
        bits - radix_pow(width)
    }
}

/// The powers of 256 at the widths of the integer types.
pub proof fn lemma_radix_pow_values()
    ensures
        radix_pow(0) == 1,
        radix_pow(1) == 0x100,
        radix_pow(2) == 0x1_0000,
        radix_pow(4) == 0x1_0000_0000,
        radix_pow(8) == 0x1_0000_0000_0000_0000,
        radix_pow(16) == 0x1_0000_0000_0000_0000_0000_0000_0000_0000,
{
    assert(radix_pow(1) == 0x100) by {
        reveal_with_fuel(radix_pow, 2);
    }
    assert(radix_pow(2) == 0x1_0000) by {
        reveal_with_fuel(radix_pow, 2);
    }
    lemma_radix_pow_sum(2, 2);
    assert(radix_pow(4) == 0x1_0000 * 0x1_0000);
    lemma_radix_pow_sum(4, 4);
    assert(radix_pow(8) == 0x1_0000_0000 * 0x1_0000_0000);
    lemma_radix_pow_sum(8, 8);
    assert(radix_pow(16) == 0x1_0000_0000_0000_0000 * 0x1_0000_0000_0000_0000);
}

/// Powers of 256 multiply as their exponents add.
pub proof fn lemma_radix_pow_sum(a: nat, b: nat)
    ensures
        radix_pow(a + b) == radix_pow(a) * radix_pow(b),
    decreases a,
{
    if a == 0 {
        assert(radix_pow(0) == 1);
        assert(1 * radix_pow(b) == radix_pow(b));
    } else {
        lemma_radix_pow_sum((a - 1) as nat, b);
        assert(radix_pow(a + b) == 256 * radix_pow((a + b - 1) as nat));
        assert(256 * (radix_pow((a - 1) as nat) * radix_pow(b)) == (256 * radix_pow(
            (a - 1) as nat,
        )) * radix_pow(b)) by (nonlinear_arith);
    }
}

/// Powers of 256 grow with the exponent.
pub proof fn lemma_radix_pow_monotone(a: nat, b: nat)
    requires
        a <= b,
    ensures
        0 < radix_pow(a) <= radix_pow(b),
    decreases b,
{
    if b == 0 {
    } else if a == b {
        lemma_radix_pow_monotone((a - 1) as nat, (b - 1) as nat);
    } else {
        lemma_radix_pow_monotone(a, (b - 1) as nat);
    }
}

/// `width` digits are `width` bytes.
pub proof fn lemma_le_bytes_len(x: nat, width: nat)
    ensures
        le_bytes(x, width).len() == width,
    decreases width,
{
    if width > 0 {
        lemma_le_bytes_len(x / 256, (width - 1) as nat);
    }
}

/// The number that `bytes` spell fits in as many bytes.
pub proof fn lemma_le_value_bound(bytes: Seq<u8>)
    ensures
        le_value(bytes) < radix_pow(bytes.len()),
    decreases bytes.len(),
{
    if bytes.len() > 0 {
        lemma_le_value_bound(bytes.skip(1));
    }
}

/// Reading back the digits of a number that fits in `width` bytes gives the number.
pub proof fn lemma_value_of_bytes(x: nat, width: nat)
    requires
        x < radix_pow(width),
    ensures
        le_value(le_bytes(x, width)) == x,
    decreases width,
{
    if width > 0 {
        let rest = le_bytes(x / 256, (width - 1) as nat);
        let all = le_bytes(x, width);
        lemma_value_of_bytes(x / 256, (width - 1) as nat);
        lemma_le_bytes_len(x / 256, (width - 1) as nat);
        assert(all.skip(1) =~= rest);
        assert(all[0] == (x % 256) as u8);
    }
}

/// Writing out the digits of the number that `bytes` spell gives `bytes` again.
pub proof fn lemma_bytes_of_value(bytes: Seq<u8>)
    ensures
        le_bytes(le_value(bytes), bytes.len()) == bytes,
    decreases bytes.len(),
{
    if bytes.len() > 0 {
        let x = le_value(bytes);
        lemma_bytes_of_value(bytes.skip(1));
        assert(x / 256 == le_value(bytes.skip(1)));
        assert((x % 256) as u8 == bytes[0]);
        assert(le_bytes(x, bytes.len()) =~= bytes);
    } else {
        assert(le_bytes(le_value(bytes), bytes.len()) =~= bytes);
    }
}

/// Decoding what was encoded, in the same order, returns the number.
pub proof fn lemma_ordered_round_trip(x: nat, width: nat, little_endian: bool)
    requires
        x < radix_pow(width),
    ensures
        ordered_bytes(x, width, little_endian).len() == width,
        ordered_value(ordered_bytes(x, width, little_endian), little_endian) == x,
{
    lemma_le_bytes_len(x, width);
    lemma_value_of_bytes(x, width);
    assert(le_bytes(x, width).reverse().reverse() =~= le_bytes(x, width));
}

/// Encoding what was decoded, in the same order, returns the bytes.
pub proof fn lemma_ordered_bytes_of_value(bytes: Seq<u8>, little_endian: bool)
    ensures
        ordered_value(bytes, little_endian) < radix_pow(bytes.len()),
        ordered_bytes(ordered_value(bytes, little_endian), bytes.len(), little_endian) == bytes,
{
    lemma_bytes_of_value(bytes);
    lemma_bytes_of_value(bytes.reverse());
    lemma_le_value_bound(bytes);
    lemma_le_value_bound(bytes.reverse());
    assert(bytes.reverse().reverse() =~= bytes);
}

/// A number that fits in `width` bytes is the value of its bit pattern, and back.
pub proof fn lemma_signed_round_trip(x: int, width: nat)
    requires
        width > 0,
        -(radix_pow(width) as int) <= 2 * x < radix_pow(width),
    ensures
        bits_of(x, width) < radix_pow(width),
        signed_of(bits_of(x, width), width) == x,
{
}

/// A bit pattern of `width` bytes is the pattern of the integer it stands for.
pub proof fn lemma_bits_of_signed(bits: nat, width: nat)
    requires
        width > 0,
        bits < radix_pow(width),
    ensures
        -(radix_pow(width) as int) <= 2 * signed_of(bits, width) < radix_pow(width),
        bits_of(signed_of(bits, width), width) == bits,
{
}

/// The bytes of `source` in the opposite order.
pub fn reversed(source: &Vec<u8>) -> (out: Vec<u8>)
    ensures
        out@ == source@.reverse(),
{
    let n: usize = source.len();
    let mut out: Vec<u8> = Vec::new();
    let mut i: usize = 0;
    while i < n
        invariant
            n == source@.len(),
            i <= n,
            out@.len() == i,
            forall|k: int| 0 <= k < i ==> out@[k] == source@[n - 1 - k],
        decreases n - i,
    {
        out.push(source[n - 1 - i]);
        i += 1;
    }
    assert(out@ =~= source@.reverse());
    out
}

/// Writes the `width` low bytes of `bits` in the requested order.
pub fn encode_bits(bits: u128, width: usize, little_endian: bool) -> (out: Vec<u8>)
    ensures
        out@ == ordered_bytes(bits as nat, width as nat, little_endian),
        out@.len() == width,
{
    let mut out: Vec<u8> = Vec::new();
    let mut rest: u128 = bits;
    let mut i: usize = 0;
    while i < width
        invariant
            i <= width,
            out@ + le_bytes(rest as nat, (width - i) as nat) == le_bytes(
                bits as nat,
                width as nat,
            ),
        decreases width - i,
    {
        let ghost before = out@;
        let digit: u8 = (rest % 256) as u8;
        out.push(digit);
        proof {
            let tail = le_bytes((rest / 256) as nat, (width - i - 1) as nat);
            assert(le_bytes(rest as nat, (width - i) as nat) == seq![digit] + tail);
            assert(before.push(digit) + tail =~= before + (seq![digit] + tail));
        }
        rest = rest / 256;
        i += 1;
    }
    proof {
        assert(out@ + Seq::<u8>::empty() =~= out@);
        lemma_le_bytes_len(bits as nat, width as nat);
    }
    if little_endian {
        out
    } else {
        reversed(&out)
    }
}

/// Reads the first `width` bytes of `data` as a number in the requested order.
pub fn decode_bits(data: &Vec<u8>, width: usize, little_endian: bool) -> (bits: u128)
    requires
        width <= 16,
        width <= data@.len(),
    ensures
        bits == ordered_value(data@.take(width as int), little_endian),
        bits < radix_pow(width as nat),
{
    let ghost front = data@.take(width as int);
    let mut bits: u128 = 0;
    let mut k: usize = 0;
    while k < width
        invariant
            width <= 16,
            width <= data@.len(),
            front == data@.take(width as int),
            k <= width,
            bits < radix_pow(k as nat),
            little_endian ==> bits == le_value(front.subrange(width - k, width as int)),
            !little_endian ==> bits == le_value(front.take(k as int).reverse()),
        decreases width - k,
    {
        let at: usize = if little_endian {
            width - 1 - k
        } else {
            k
        };
        let digit: u8 = data[at];
        proof {
            lemma_radix_pow_monotone((k + 1) as nat, 16);
            lemma_radix_pow_values();
            if little_endian {
                let next = front.subrange(width - k - 1, width as int);
                assert(next[0] == digit);
                assert(next.skip(1) =~= front.subrange(width - k, width as int));
            } else {
                let next = front.take(k + 1).reverse();
                assert(next[0] == digit);
                assert(next.skip(1) =~= front.take(k as int).reverse());
            }
        }
        bits = bits * 256 + digit as u128;
        k += 1;
    }
    proof {
        assert(front.subrange(0, width as int) =~= front);
        assert(front.take(width as int) =~= front);
    }
    bits
}

/// Half of 256 raised to `width`: the count of non-negative values of a
/// signed integer of that width.
pub fn radix_half(width: usize) -> (half: u128)
    requires
        1 <= width <= 16,
    ensures
        2 * half == radix_pow(width as nat),
{
    let mut half: u128 = 128;
    let mut i: usize = 1;
    proof {
        lemma_radix_pow_values();
    }
    while i < width
        invariant
            1 <= i <= width <= 16,
            2 * half == radix_pow(i as nat),
        decreases width - i,
    {
        proof {
            lemma_radix_pow_monotone((i + 1) as nat, 16);
            lemma_radix_pow_values();
        }
        half = half * 256;
        i += 1;
    }
    half
}

/// The `width`-byte two's-complement bit pattern of `x`.
pub fn signed_bits(x: i128, width: usize) -> (bits: u128)
    requires
        1 <= width <= 16,
        -(radix_pow(width as nat) as int) <= 2 * x < radix_pow(width as nat),
    ensures
        bits == bits_of(x as int, width as nat),
        bits < radix_pow(width as nat),
{
    proof {
        lemma_radix_pow_monotone(width as nat, 16);
        lemma_radix_pow_values();
    }
    if x >= 0 {
        x as u128
    } else {
        let half: u128 = radix_half(width);
        let below: u128 = (-(x + 1)) as u128;
        (half - 1 - below) + half
    }
}

/// The signed integer that the `width`-byte bit pattern `bits` stands for.
pub fn signed_value(bits: u128, width: usize) -> (x: i128)
    requires
        1 <= width <= 16,
        bits < radix_pow(width as nat),
    ensures
        x == signed_of(bits as nat, width as nat),
        -(radix_pow(width as nat) as int) <= 2 * x < radix_pow(width as nat),
{
    proof {
        lemma_radix_pow_monotone(width as nat, 16);
        lemma_radix_pow_values();
    }
    let half: u128 = radix_half(width);
    if bits < half {
        bits as i128
    } else {
        let above: u128 = bits - half;
        -((half - 1 - above) as i128) - 1
    }
}

} // verus!
