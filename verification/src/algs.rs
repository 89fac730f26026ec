//! Small measures on machine integers, and digests of text.

use crate::hash::{hex_lower, sha1_digest};
use vstd::prelude::*;
use vstd::string::StringSliceAdditionalSpecFns;

verus! {

/// The number of one bits in `z`.
pub open spec fn count_ones(z: u32) -> nat
    decreases z,
    via count_ones_decreases
{
    if z == 0 {
        0
    } else {
        (z & 1) as nat + count_ones(z >> 1)
    }
}

#[via_fn]
proof fn count_ones_decreases(z: u32) {
    assert(z != 0 ==> z >> 1 < z) by (bit_vector);
}

/// The number of bit positions, out of 32, in which `x` and `y` differ.
pub open spec fn differing_bits(x: i32, y: i32) -> nat {
    count_ones((x ^ y) as u32)
}

/// A number that is zero from bit `n` on has at most `n` one bits.
pub proof fn lemma_count_ones_bound(z: u32, n: u32)
    requires
        n <= 32,
        n < 32 ==> z >> n == 0,
    ensures
        count_ones(z) <= n,
    decreases n,
{
    if z != 0 {
        assert(n > 0) by {
            assert(z >> 0u32 == z) by (bit_vector);
        }
        let h = z >> 1;
        let m = (n - 1) as u32;
        assert(m < 32 ==> h >> m == 0) by (bit_vector)
            requires
                h == z >> 1,
                1 <= n <= 32,
                m == n - 1,
                n < 32 ==> z >> n == 0,
        ;
        lemma_count_ones_bound(h, m);
        assert(z & 1 <= 1) by (bit_vector);
    }
}

/// The number of bit positions in which `x` and `y` differ.
pub fn humming_distance(x: i32, y: i32) -> (d: i32)
    ensures
        d == differing_bits(x, y),
        0 <= d <= 32,
{
    let start: u32 = #[verifier::truncate]
    ((x ^ y) as u32);
    let mut z: u32 = start;
    let mut count: i32 = 0;
    proof {
        lemma_count_ones_bound(start, 32);
    }
    while z != 0
        invariant
            0 <= count,
            count + count_ones(z) == count_ones(start),
            count_ones(start) <= 32,
        decreases z,
    {
        proof {
            assert(z & 1 <= 1) by (bit_vector);
            assert(z != 0 ==> z >> 1 < z) by (bit_vector);
        }
        count += (z & 1) as i32;
        z >>= 1;
    }
    count
}

/// The number of bit positions in which `x` and `y` differ.
pub fn xor_distance(x: i32, y: i32) -> (d: i32)
    ensures
        d == differing_bits(x, y),
        0 <= d <= 32,
{
    humming_distance(x, y)
}

/// The sum of two numbers that have one.
pub fn add(left: usize, right: usize) -> (sum: usize)
    requires
        left + right <= usize::MAX,
    ensures
        sum == left + right,
{
    left + right
}

/// The SHA-1 digest of `text` as forty hexadecimal digits.
pub fn calculate_sha1(text: &str) -> (digest: String)
    ensures
        digest@ == hex_lower(sha1_digest(text.spec_bytes())),
{
    crate::hash::calculate_sha1(text.as_bytes())
}

} // verus!
