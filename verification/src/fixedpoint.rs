//! Fixed-point arithmetic for the scoring formulas.
//!
//! Scores and thresholds are integers in millionths (micro units), so
//! a threshold of 0.48 is written 480_000. The natural logarithm is
//! computed over integers: the argument is normalized to `m / 2^e`
//! with `m` in `[1, 2)` held in billionths, and `ln m` comes from the
//! inverse-hyperbolic-tangent series, accurate to a few millionths.

use vstd::prelude::*;
use vstd::arithmetic::power2::{pow2, lemma_pow2_pos, lemma2_to64};
use vstd::arithmetic::div_mod::{
    lemma_div_denominator,
    lemma_div_is_ordered,
    lemma_div_multiples_vanish,
    lemma_multiply_divide_lt,
    lemma_fundamental_div_mod,
};

verus! {

/// One unit in micro fixed point.
pub const MICRO: u64 = 1_000_000;

/// One unit in nano fixed point.
pub const NANO: u64 = 1_000_000_000;

/// ln 2 in nano fixed point, rounded down.
pub const LN2_NANO: u64 = 693_147_180;

/// The floor of the base-2 logarithm.
pub open spec fn log2f(x: int) -> int
    decreases x,
{
    if x < 2 {
        0
    } else {
        1 + log2f(x / 2)
    }
}

/// The natural logarithm of `x` in nano fixed point: `x` is normalized
/// to `m * 2^e` with `m` in `[1, 2)`, and `ln m` is approximated by
/// `2 (z + z^3/3 + z^5/5 + z^7/7 + z^9/9)` for `z = (m - 1) / (m + 1)`.
pub open spec fn ln_nano_spec(x: int) -> int {
    let e = log2f(x);
    let m = x * 1_000_000_000 / (pow2(e as nat) as int);
    let z = (m - 1_000_000_000) * 1_000_000_000 / (m + 1_000_000_000);
    let z2 = z * z / 1_000_000_000;
    let p3 = z * z2 / 1_000_000_000;
    let p5 = p3 * z2 / 1_000_000_000;
    let p7 = p5 * z2 / 1_000_000_000;
    let p9 = p7 * z2 / 1_000_000_000;
    2 * (z + p3 / 3 + p5 / 5 + p7 / 7 + p9 / 9) + e * 693_147_180
}

/// The natural logarithm of `x` in micro fixed point.
pub open spec fn ln_micro_spec(x: int) -> int {
    ln_nano_spec(x) / 1000
}

/// Computes the natural logarithm of `x` in micro fixed point.
pub fn ln_micro(x: u64) -> (r: u64)
    requires
        x >= 1,
    ensures
        r == ln_micro_spec(x as int),
{
    let mut t: u64 = x;
    let mut e: u64 = 0;
    let mut pw: u64 = 1;
    proof {
        lemma2_to64();
    }
    while t >= 2
        invariant
            x >= 1,
            e <= 63,
            pw == pow2(e as nat),
            pow2(e as nat) <= x,
            t == x as int / pow2(e as nat) as int,
            log2f(x as int) == e + log2f(t as int),
        decreases t,
    {
        proof {
            lemma_pow2_pos(e as nat);
            lemma_fundamental_div_mod(x as int, pow2(e as nat) as int);
            assert(x as int >= 2 * pow2(e as nat)) by {
                assert(x as int == pow2(e as nat) * (x as int / pow2(e as nat) as int) + x as int
                    % pow2(e as nat) as int);
                vstd::arithmetic::mul::lemma_mul_inequality(
                    2,
                    x as int / pow2(e as nat) as int,
                    pow2(e as nat) as int,
                );
            }
            lemma_div_denominator(x as int, pow2(e as nat) as int, 2);
            assert(pow2((e + 1) as nat) == pow2(e as nat) * 2) by {
                vstd::arithmetic::power2::lemma_pow2_adds(e as nat, 1);
                lemma2_to64();
            }
            assert(e + 1 <= 63) by {
                if e + 1 > 63 {
                    lemma2_to64();
                    vstd::arithmetic::power2::lemma_pow2_strictly_increases(63, (e + 1) as nat);
                    assert(pow2((e + 1) as nat) > pow2(63));
                }
            }
        }
        t = t / 2;
        e = e + 1;
        pw = pw * 2;
    }
    proof {
        lemma_pow2_pos(e as nat);
        assert(t == 1) by {
            lemma_div_is_ordered(pow2(e as nat) as int, x as int, pow2(e as nat) as int);
            lemma_div_multiples_vanish(1, pow2(e as nat) as int);
        }
        assert(x < 2 * pow2(e as nat)) by {
            lemma_fundamental_div_mod(x as int, pow2(e as nat) as int);
        }
        assert(e <= 63) by {
            if e >= 64 {
                lemma2_to64();
                assert(pow2(e as nat) >= pow2(64)) by {
                    if e > 64 {
                        vstd::arithmetic::power2::lemma_pow2_strictly_increases(64, e as nat);
                    }
                }
            }
        }
    }
    let m128: u128 = (x as u128) * 1_000_000_000 / (pw as u128);
    proof {
        assert(m128 == (x as int) * 1_000_000_000 / pow2(e as nat) as int);
        assert(m128 < 2_000_000_000) by {
            lemma_multiply_divide_lt(
                (x as int) * 1_000_000_000,
                pow2(e as nat) as int,
                2_000_000_000,
            );
            assert((x as int) * 1_000_000_000 < pow2(e as nat) as int * 2_000_000_000) by {
                vstd::arithmetic::mul::lemma_mul_inequality(
                    x as int,
                    2 * pow2(e as nat) - 1,
                    1_000_000_000,
                );
            }
        }
        assert(m128 >= 1_000_000_000) by {
            lemma_div_is_ordered(
                pow2(e as nat) as int * 1_000_000_000,
                (x as int) * 1_000_000_000,
                pow2(e as nat) as int,
            );
            assert(pow2(e as nat) as int * 1_000_000_000 <= (x as int) * 1_000_000_000) by {
                vstd::arithmetic::mul::lemma_mul_inequality(
                    pow2(e as nat) as int,
                    x as int,
                    1_000_000_000,
                );
            }
            assert(pow2(e as nat) as int * 1_000_000_000 / pow2(e as nat) as int
                == 1_000_000_000) by {
                lemma_div_multiples_vanish(1_000_000_000, pow2(e as nat) as int);
                vstd::arithmetic::mul::lemma_mul_is_commutative(
                    pow2(e as nat) as int,
                    1_000_000_000,
                );
            }
        }
    }
    let m: u64 = m128 as u64;
    let zq: u128 = ((m - 1_000_000_000) as u128) * 1_000_000_000 / ((m + 1_000_000_000) as u128);
    proof {
        assert(zq < 1_000_000_000) by {
            lemma_multiply_divide_lt(
                ((m - 1_000_000_000) as int) * 1_000_000_000,
                (m + 1_000_000_000) as int,
                1_000_000_000,
            );
            assert(((m - 1_000_000_000) as int) * 1_000_000_000 < ((m + 1_000_000_000) as int)
                * 1_000_000_000) by {
                vstd::arithmetic::mul::lemma_mul_strict_inequality(
                    (m - 1_000_000_000) as int,
                    (m + 1_000_000_000) as int,
                    1_000_000_000,
                );
            }
        }
    }
    let z: u64 = zq as u64;
    proof {
        assert(z < 1_000_000_000);
        assert((z as int) * (z as int) < 1_000_000_000_000_000_000) by (nonlinear_arith)
            requires
                z < 1_000_000_000,
        ;
    }
    let z2q: u128 = (z as u128) * (z as u128) / 1_000_000_000;
    let z2: u64 = z2q as u64;
    proof {
        assert(z2 < 1_000_000_000);
        assert((z as int) * (z2 as int) < 1_000_000_000_000_000_000) by (nonlinear_arith)
            requires
                z < 1_000_000_000,
                z2 < 1_000_000_000,
        ;
    }
    let p3q: u128 = (z as u128) * (z2 as u128) / 1_000_000_000;
    let p3: u64 = p3q as u64;
    proof {
        assert(p3 < 1_000_000_000);
        assert((p3 as int) * (z2 as int) < 1_000_000_000_000_000_000) by (nonlinear_arith)
            requires
                p3 < 1_000_000_000,
                z2 < 1_000_000_000,
        ;
    }
    let p5q: u128 = (p3 as u128) * (z2 as u128) / 1_000_000_000;
    let p5: u64 = p5q as u64;
    proof {
        assert(p5 < 1_000_000_000);
        assert((p5 as int) * (z2 as int) < 1_000_000_000_000_000_000) by (nonlinear_arith)
            requires
                p5 < 1_000_000_000,
                z2 < 1_000_000_000,
        ;
    }
    let p7q: u128 = (p5 as u128) * (z2 as u128) / 1_000_000_000;
    let p7: u64 = p7q as u64;
    proof {
        assert(p7 < 1_000_000_000);
        assert((p7 as int) * (z2 as int) < 1_000_000_000_000_000_000) by (nonlinear_arith)
            requires
                p7 < 1_000_000_000,
                z2 < 1_000_000_000,
        ;
    }
    let p9q: u128 = (p7 as u128) * (z2 as u128) / 1_000_000_000;
    let p9: u64 = p9q as u64;
    let series: u64 = 2 * (z + p3 / 3 + p5 / 5 + p7 / 7 + p9 / 9);
    let nano: u64 = series + e * LN2_NANO;
    nano / 1000
}

/// Saturating addition on micro-unit values.
pub open spec fn sat_add_spec(a: u64, b: u64) -> u64 {
    if a + b > u64::MAX {
        u64::MAX
    } else {
        (a + b) as u64
    }
}

pub fn sat_add(a: u64, b: u64) -> (r: u64)
    ensures
        r == sat_add_spec(a, b),
{
    if a <= u64::MAX - b {
        a + b
    } else {
        u64::MAX
    }
}

} // verus!
