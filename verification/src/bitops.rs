//! Bitwise arithmetic utilities: addition, multiplication and Gray code,
//! written with bitwise operators only and proved equal to ordinary
//! (wrapping) arithmetic.

use vstd::arithmetic::div_mod::lemma_add_mod_noop;
use vstd::arithmetic::div_mod::lemma_mod_twice;
use vstd::arithmetic::div_mod::lemma_small_mod;
use vstd::prelude::*;

verus! {

/// The ripple-carry invariant of [`adder`]: `res` holds the sum of the low
/// `i` bits of `a` and `b`, and `carry` completes it with weight `2^i`.
pub open spec fn adder_inv(a: u32, b: u32, i: u32, res: u32, carry: bool) -> bool {
    let m = ((1u64 << i) - 1) as u64;
    &&& (res as u64) & m == res as u64
    &&& (res as u64) + (if carry {
        1u64 << i
    } else {
        0u64
    }) == ((a as u64) & m) + ((b as u64) & m)
}

/// Add two integers using only bitwise operators; the result wraps around
/// on overflow exactly as `u32` addition modulo `2^32` does.
pub fn adder(a: u32, b: u32) -> (res: u32)
    ensures
        res == (a + b) % 0x1_0000_0000,
{
    let mut res: u32 = 0;
    let mut carry: bool = false;
    let mut i: u32 = 0;

    proof {
        assert(adder_inv(a, b, 0, 0, false)) by (bit_vector);
    }
    while i < 32
        invariant
            i <= 32,
            adder_inv(a, b, i, res, carry),
        decreases 32 - i,
    {
        let a_bit = a & (1u32 << i) != 0;
        let b_bit = b & (1u32 << i) != 0;
        if a_bit != b_bit {
            if !carry {
                proof {
                    assert(adder_inv(a, b, (i + 1) as u32, res | (1u32 << i), false))
                        by (bit_vector)
                        requires
                            adder_inv(a, b, i, res, false),
                            i < 32,
                            (a & (1u32 << i) != 0) != (b & (1u32 << i) != 0),
                    ;
                }
                res = res | (1u32 << i);
            } else {
                proof {
                    assert(adder_inv(a, b, (i + 1) as u32, res, true)) by (bit_vector)
                        requires
                            adder_inv(a, b, i, res, true),
                            i < 32,
                            (a & (1u32 << i) != 0) != (b & (1u32 << i) != 0),
                    ;
                }
            }
        } else {
            if carry {
                proof {
                    assert(adder_inv(
                        a,
                        b,
                        (i + 1) as u32,
                        res | (1u32 << i),
                        a & (1u32 << i) != 0,
                    )) by (bit_vector)
                        requires
                            adder_inv(a, b, i, res, true),
                            i < 32,
                            (a & (1u32 << i) != 0) == (b & (1u32 << i) != 0),
                    ;
                }
                res = res | (1u32 << i);
            } else {
                proof {
                    assert(adder_inv(a, b, (i + 1) as u32, res, a & (1u32 << i) != 0))
                        by (bit_vector)
                        requires
                            adder_inv(a, b, i, res, false),
                            i < 32,
                            (a & (1u32 << i) != 0) == (b & (1u32 << i) != 0),
                    ;
                }
            }
            carry = a_bit;
        }
        i = i + 1;
    }
    proof {
        assert(adder_inv(a, b, 32, res, carry) ==> res as u64 == ((a as u64) + (b as u64))
            % 0x1_0000_0000) by (bit_vector);
    }
    res
}

/// Multiply two integers by repeated [`adder`] calls; the result wraps
/// around modulo `2^32` as `u32` multiplication does.
pub fn multiplier(a: u32, b: u32) -> (res: u32)
    ensures
        res == (a * b) % 0x1_0000_0000,
{
    let small = if a < b {
        a
    } else {
        b
    };
    let max = if a < b {
        b
    } else {
        a
    };
    let mut res = max;

    proof {
        vstd::arithmetic::mul::lemma_mul_is_commutative(a as int, b as int);
    }
    if small == 0 {
        proof {
            vstd::arithmetic::mul::lemma_mul_basics(max as int);
            lemma_small_mod(0nat, 0x1_0000_0000nat);
        }
        return 0;
    }
    let mut min = small - 1;
    proof {
        vstd::arithmetic::mul::lemma_mul_basics(max as int);
        lemma_small_mod(max as nat, 0x1_0000_0000nat);
    }
    while min != 0
        invariant
            min < small,
            res == (max * (small - min)) % 0x1_0000_0000,
        decreases min,
    {
        res = adder(res, max);
        proof {
            lemma_mul_step(max as int, (small - min) as int);
        }
        min = min - 1;
    }
    res
}

/// One more addition of `m` advances the product by one factor, modulo `2^32`.
proof fn lemma_mul_step(m: int, k: int)
    requires
        m >= 0,
        k >= 0,
    ensures
        ((m * k) % 0x1_0000_0000 + m) % 0x1_0000_0000 == (m * (k + 1)) % 0x1_0000_0000,
{
    let w = 0x1_0000_0000int;
    assert(m * (k + 1) == m * k + m) by (nonlinear_arith);
    lemma_add_mod_noop(m * k, m, w);
    lemma_mod_twice(m, w);
    lemma_mod_twice(m * k + m, w);
}

/// The Gray code of `n`: adjacent numbers differ in exactly one bit.
pub fn gray_code(n: u32) -> (res: u32)
    ensures
        res == n ^ (n / 2),
{
    proof {
        assert(n >> 1u32 == n / 2) by (bit_vector);
    }
    n ^ (n >> 1)
}

} // verus!
