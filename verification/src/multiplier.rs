use vstd::prelude::*;
use vstd::arithmetic::div_mod::{
    lemma_add_mod_noop, lemma_mod_twice, lemma_mul_mod_noop_left, lemma_small_mod,
};

use crate::adder::adder;

verus! {

/// Shift-and-add accumulation: adds `a * b`, modulo `2^32`, onto the
/// running sum `reg`, one bit of `b` per round, each partial sum
/// carried out by `adder`.
fn multiply_acc(a: u32, b: u32, reg: u32) -> (r: u32)
    ensures
        r as int == (reg + a * b) % 0x1_0000_0000,
    decreases b,
{
    proof {
        lemma_small_mod(reg as nat, 0x1_0000_0000);
    }
    if b == 0 {
        return reg;
    }
    let ghost reg0 = reg as int;
    let reg = if b & 1 != 0 {
        adder(reg, a)
    } else {
        reg
    };
    proof {
        assert((b & 1) == b % 2 && (b >> 1u32) == b / 2) by (bit_vector);
        assert(((a << 1u32) as u64) == ((2 * (a as u64)) % 0x1_0000_0000) as u64) by (bit_vector);
    }
    let next = multiply_acc(a << 1u32, b >> 1u32, reg);
    proof {
        let m = 0x1_0000_0000int;
        let low = (b & 1) as int;
        let half = (b >> 1u32) as int;
        let a2 = (a << 1u32) as int;
        let x = reg0 + low * (a as int);
        assert(reg as int == x % m) by {
            if b & 1 != 0 {
                assert(low == 1);
                assert(low * (a as int) == a as int) by (nonlinear_arith)
                    requires
                        low == 1,
                ;
            } else {
                assert(low == 0);
                assert(low * (a as int) == 0) by (nonlinear_arith)
                    requires
                        low == 0,
                ;
            }
        }
        let y = a2 * half;
        let y2 = 2 * (a as int) * half;
        assert(next as int == ((x % m) + y) % m);
        lemma_add_mod_noop(x % m, y, m);
        lemma_mod_twice(x, m);
        lemma_add_mod_noop(x, y, m);
        assert(next as int == (x + y) % m);
        lemma_mul_mod_noop_left(2 * (a as int), half, m);
        assert(y % m == y2 % m);
        lemma_add_mod_noop(x, y2, m);
        assert(next as int == (x + y2) % m);
        assert(x + y2 == reg0 + a * b) by (nonlinear_arith)
            requires
                x == reg0 + low * (a as int),
                y2 == 2 * (a as int) * half,
                low == b as int % 2,
                half == b as int / 2,
        ;
    }
    next
}

/// Product of two words, modulo `2^32`, by shift-and-add over the
/// bits of `b`.
pub fn multiplier(a: u32, b: u32) -> (r: u32)
    ensures
        r as int == (a * b) % 0x1_0000_0000,
{
    multiply_acc(a, b, 0)
}

} // verus!
