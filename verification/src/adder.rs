use vstd::prelude::*;
use vstd::arithmetic::div_mod::{lemma_mod_sub_multiples_vanish, lemma_small_mod};
use vstd::arithmetic::power2::{lemma2_to64, pow2};

verus! {

/// Number of trailing zero bits of `b`, read as a 32-bit word; 32 for
/// zero.
pub open spec fn trailing_zeros(b: nat) -> nat
    decreases b,
{
    if b == 0 {
        32
    } else if b % 2 == 1 {
        0
    } else {
        trailing_zeros(b / 2) + 1
    }
}

/// Masking keeps every zero bit, so the conjunction of two words has
/// at least as many trailing zeros as either word.
proof fn lemma_trailing_zeros_and(a: u32, b: u32)
    requires
        a & b != 0,
    ensures
        trailing_zeros((a & b) as nat) >= trailing_zeros(b as nat),
    decreases b,
{
    assert(b != 0) by (bit_vector)
        requires
            a & b != 0,
    ;
    if b % 2 == 0 {
        assert((a & b) % 2 == 0 && (a & b) / 2 == (a / 2) & (b / 2) && b / 2 == b as int / 2)
            by (bit_vector)
            requires
                b % 2 == 0,
        ;
        assert((a / 2) & (b / 2) != 0) by (bit_vector)
            requires
                a & b != 0 && (a & b) % 2 == 0 && (a & b) / 2 == (a / 2) & (b / 2),
        ;
        lemma_trailing_zeros_and(a / 2, b / 2);
    }
}

/// A word below `pow2(k)`, other than zero, has fewer than `k`
/// trailing zeros.
proof fn lemma_trailing_zeros_bound(b: nat, k: nat)
    requires
        1 <= b,
        b < pow2(k),
    ensures
        trailing_zeros(b) < k,
    decreases b,
{
    lemma2_to64();
    if b % 2 == 1 {
        assert(k >= 1);
    } else {
        assert(pow2(k) == 2 * pow2((k - 1) as nat)) by {
            vstd::arithmetic::power2::lemma_pow2_unfold(k);
        }
        lemma_trailing_zeros_bound(b / 2, (k - 1) as nat);
    }
}

/// Sum of two words, modulo `2^32`, by carry propagation alone: the
/// exclusive-or adds without carrying, the carries are shifted one
/// place up, and the two are added the same way until no carry is
/// left. Each round either loses a carry off the top, making the pair
/// strictly smaller, or pushes the lowest carry at least one bit
/// higher.
pub fn adder(a: u32, b: u32) -> (r: u32)
    ensures
        r as int == (a + b) % 0x1_0000_0000,
    decreases a as int + b as int, 32 - trailing_zeros(b as nat),
{
    if b == 0 {
        proof {
            lemma_small_mod(a as nat, 0x1_0000_0000);
        }
        return a;
    }
    let sum = a ^ b;
    let carries = (a & b) << 1u32;
    proof {
        lemma2_to64();
        lemma_trailing_zeros_bound(b as nat, 32);
        if (a & b) < 0x8000_0000u32 {
            assert((sum as u64) + (carries as u64) == (a as u64) + (b as u64) && carries as u64
                == 2 * ((a & b) as u64)) by (bit_vector)
                requires
                    sum == a ^ b && carries == (a & b) << 1u32 && (a & b) < 0x8000_0000u32,
            ;
            if a & b == 0 {
                assert(carries == 0);
                assert(trailing_zeros(0nat) == 32);
            } else {
                assert(carries as nat / 2 == (a & b) as nat && carries as nat % 2 == 0
                    && carries != 0);
                assert(trailing_zeros(carries as nat) == trailing_zeros((a & b) as nat) + 1);
                lemma_trailing_zeros_and(a, b);
            }
        } else {
            assert((sum as u64) + (carries as u64) + 0x1_0000_0000u64 == (a as u64) + (b as u64)
                && carries as u64 == 2 * ((a & b) as u64) - 0x1_0000_0000u64) by (bit_vector)
                requires
                    sum == a ^ b && carries == (a & b) << 1u32 && (a & b) >= 0x8000_0000u32,
            ;
            lemma_mod_sub_multiples_vanish((sum + carries) as int, 0x1_0000_0000);
        }
        if carries == 0 {
            assert(trailing_zeros(0nat) == 32);
        } else {
            lemma_trailing_zeros_bound(carries as nat, 32);
        }
    }
    adder(sum, carries)
}

} // verus!
