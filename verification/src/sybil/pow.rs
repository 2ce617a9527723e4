use vstd::prelude::*;

use crate::crypto::{sha256_digest, spec_sha256};
use vstd::string::StringSliceAdditionalSpecFns;

verus! {

/// The number of leading zero bits of a byte.
pub open spec fn byte_leading_zeros(b: u8) -> nat {
    if b >= 128 {
        0
    } else if b >= 64 {
        1
    } else if b >= 32 {
        2
    } else if b >= 16 {
        3
    } else if b >= 8 {
        4
    } else if b >= 4 {
        5
    } else if b >= 2 {
        6
    } else if b >= 1 {
        7
    } else {
        8
    }
}

/// The number of leading zero bits of a byte string, most significant bit of
/// the first byte first.
pub open spec fn leading_zero_bits(h: Seq<u8>) -> nat
    decreases h.len(),
{
    if h.len() == 0 {
        0
    } else if h[0] == 0 {
        8 + leading_zero_bits(h.drop_first())
    } else {
        byte_leading_zeros(h[0])
    }
}

fn count_byte_leading_zeros(b: u8) -> (res: usize)
    ensures
        res == byte_leading_zeros(b),
{
    if b >= 128 {
        0
    } else if b >= 64 {
        1
    } else if b >= 32 {
        2
    } else if b >= 16 {
        3
    } else if b >= 8 {
        4
    } else if b >= 4 {
        5
    } else if b >= 2 {
        6
    } else if b >= 1 {
        7
    } else {
        8
    }
}

/// Proof of work on a node identifier: whether the SHA-256 digest of its
/// bytes starts with at least `difficulty` zero bits.
pub fn validate_pow(node_id: &str, difficulty: usize) -> (res: bool)
    ensures
        res == (leading_zero_bits(spec_sha256(node_id.spec_bytes())) >= difficulty),
{
    let result = sha256_digest(node_id.as_bytes());
    let ghost h = result@;
    let mut count: usize = 0;
    let mut i: usize = 0;
    assert(h.skip(0) =~= h);
    while i < 32
        invariant
            h == result@,
            h == spec_sha256(node_id.spec_bytes()),
            h.len() == 32,
            i <= 32,
            count == 8 * i,
            forall|j: int| 0 <= j < i ==> h[j] == 0,
            leading_zero_bits(h) == count + leading_zero_bits(h.skip(i as int)),
        decreases 32 - i,
    {
        assert(h.skip(i as int).drop_first() =~= h.skip(i + 1));
        if result[i] == 0 {
            count = count + 8;
        } else {
            count = count + count_byte_leading_zeros(result[i]);
            assert(count == leading_zero_bits(h));
            return count >= difficulty;
        }
        i = i + 1;
    }
    assert(h.skip(32) =~= Seq::<u8>::empty());
    count >= difficulty
}


/// Difficulty is monotone: every digest meets difficulty 0, and a digest
/// that meets a difficulty meets every lower one.
pub proof fn lemma_pow_difficulty_monotone(digest: Seq<u8>, lower: nat, higher: nat)
    requires
        lower <= higher,
    ensures
        leading_zero_bits(digest) >= 0,
        leading_zero_bits(digest) >= higher ==> leading_zero_bits(digest) >= lower,
{
}

} // verus!
