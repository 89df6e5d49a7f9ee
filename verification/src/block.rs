//! The codec of a byte block of fixed length: its bytes as they stand,
//! whatever the byte order.

use vstd::prelude::*;
use vstd::array::spec_array_update;
use crate::codec::Packable;
use crate::error::shortfall_error;
use crate::error::PackableError;
use crate::error::PackableErrorView;

verus! {

/// `block` with its first `count` bytes replaced by those of `bytes`.
pub open spec fn overwritten<const N: usize>(block: [u8; N], bytes: Seq<u8>, count: nat) -> [u8; N]
    decreases count,
{
    if count == 0 {
        block
    } else {
        spec_array_update(
            overwritten(block, bytes, (count - 1) as nat),
            count - 1,
            bytes[count - 1],
        )
    }
}

/// What `overwritten` holds at each position.
pub proof fn lemma_overwritten<const N: usize>(block: [u8; N], bytes: Seq<u8>, count: nat)
    requires
        count <= N,
    ensures
        overwritten(block, bytes, count)@.len() == N,
        forall|i: int|
            0 <= i < N ==> #[trigger] overwritten(block, bytes, count)@[i] == if i < count {
                bytes[i]
            } else {
                block@[i]
            },
    decreases count,
{
    if count > 0 {
        lemma_overwritten(block, bytes, (count - 1) as nat);
    }
}

impl<const N: usize> Packable for [u8; N] {
    open spec fn byte_len(&self) -> nat {
        N as nat
    }

    open spec fn packed(&self, little_endian: bool) -> Seq<u8> {
        self@
    }

    open spec fn unpacked(&self, bytes: Seq<u8>, little_endian: bool) -> [u8; N] {
        overwritten(*self, bytes, N as nat)
    }

    open spec fn order_dependent(&self) -> bool {
        false
    }

    open spec fn truncated(&self, available: nat) -> PackableErrorView {
        shortfall_error(N as nat, available)
    }

    proof fn lemma_packed_len(&self, little_endian: bool) {
    }

    proof fn lemma_size_fixed(&self, other: &Self) {
    }

    proof fn lemma_orders(&self) {
    }

    proof fn lemma_round_trip(&self, target: &Self, little_endian: bool) {
        lemma_overwritten(*target, self@, N as nat);
        assert(overwritten(*target, self@, N as nat) =~= *self);
    }

    proof fn lemma_repack(&self, bytes: Seq<u8>, little_endian: bool) {
        lemma_overwritten(*self, bytes, N as nat);
        assert(overwritten(*self, bytes, N as nat)@ =~= bytes);
    }

    fn pack(&self, _little_endian: bool) -> (bytes: Vec<u8>) {
        let mut bytes: Vec<u8> = Vec::new();
        let mut i: usize = 0;
        while i < N
            invariant
                i <= N,
                bytes@ == self@.take(i as int),
            decreases N - i,
        {
            bytes.push(self[i]);
            assert(bytes@ =~= self@.take(i + 1));
            i += 1;
        }
        assert(self@.take(N as int) =~= self@);
        bytes
    }

    fn size(&self) -> (n: usize) {
        N
    }

    fn unpack(&mut self, data: &mut Vec<u8>, _little_endian: bool) -> (r: Result<
        (),
        PackableError,
    >)
        ensures
            r is Ok ==> final(self)@ == old(data)@.take(N as int),
    {
        if data.len() < N {
            return Err(PackableError::shortfall(N, data.len()));
        }
        let ghost front = data@.take(N as int);
        let mut i: usize = 0;
        while i < N
            invariant
                i <= N <= data@.len(),
                front == data@.take(N as int),
                *self == overwritten(*old(self), front, i as nat),
            decreases N - i,
        {
            self[i] = data[i];
            i += 1;
        }
        proof {
            lemma_overwritten(*old(self), front, N as nat);
            assert(self@ =~= front);
        }
        Ok(())
    }
}

} // verus!
