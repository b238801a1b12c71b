//! Conversions between the formats and to whole numbers.
use crate::float::grid::{lemma_pow2_mono, lemma_unit_pos, lemma_unit_shift, power_of_two, unit};
use crate::float::rounding::{
    lemma_nearest_even_split, lemma_round_exact, magnitude, round, round_off, Format, Parts,
};
use vstd::arithmetic::power2::{lemma2_to64, lemma2_to64_rest, lemma_pow2_pos, pow2};
use vstd::prelude::*;

verus! {

/// A number in another format.
pub open spec fn converted(f: Format, a: Parts) -> Parts {
    match a {
        Parts::Finite { neg, mant, exp } => round(f, neg, magnitude(mant as nat, exp as int), 1),
        _ => a,
    }
}

/// A whole number in the format.
pub open spec fn whole(f: Format, value: nat) -> Parts {
    round(f, false, magnitude(value, 0), 1)
}

/// What a number is as an unsigned integer: without its fraction, and moved to the nearest end of
/// the range where it lies outside. What is not a number becomes zero.
pub open spec fn truncated(a: Parts) -> u64 {
    match a {
        Parts::Nan => 0,
        Parts::Infinite { neg } => if neg {
            0
        } else {
            u64::MAX
        },
        Parts::Finite { neg, mant, exp } => {
            let n = magnitude(mant as nat, exp as int) / unit(0);
            if neg {
                0
            } else if n > u64::MAX {
                u64::MAX
            } else {
                n as u64
            }
        },
    }
}

/// The nearest whole number; of two that are equally near, the one farther from zero.
pub open spec fn nearest_whole(f: Format, a: Parts) -> Parts {
    match a {
        Parts::Finite { neg, mant, exp } => {
            let n = (2 * magnitude(mant as nat, exp as int) + unit(0)) / (2 * unit(0));
            round(f, neg, magnitude(n, 0), 1)
        },
        _ => a,
    }
}

/// The least whole number that is not below.
pub open spec fn ceiling(f: Format, a: Parts) -> Parts {
    match a {
        Parts::Finite { neg, mant, exp } => {
            let m = magnitude(mant as nat, exp as int);
            let n = if neg || m % unit(0) == 0 {
                m / unit(0)
            } else {
                m / unit(0) + 1
            };
            round(f, neg, magnitude(n, 0), 1)
        },
        _ => a,
    }
}

/// A number in another format. The formats differ, so the source only has to fit the wider one.
pub fn convert_parts(f: Format, a: Parts) -> (r: Parts)
    requires
        f.valid(),
        a.canonical(Format::single()) || a.canonical(Format::double()),
    ensures
        r == converted(f, a),
        r.canonical(f),
{
    match a {
        Parts::Finite { neg, mant, exp } => {
            proof {
                lemma2_to64();
                lemma2_to64_rest();
                lemma_pow2_mono(64, 127);
            }
            round_off(
                f,
                neg,
                mant as u128,
                exp,
                false,
                Ghost(magnitude(mant as nat, exp as int)),
                Ghost(1),
            )
        },
        _ => a,
    }
}

/// A whole number in the format.
pub fn whole_parts(f: Format, value: u64) -> (r: Parts)
    requires
        f.valid(),
    ensures
        r == whole(f, value as nat),
        r.canonical(f),
{
    proof {
        lemma2_to64();
        lemma_pow2_mono(64, 127);
    }
    round_off(f, false, value as u128, 0, false, Ghost(magnitude(value as nat, 0)), Ghost(1))
}

/// A magnitude with an exponent below zero, counted in units of that exponent.
proof fn lemma_below_one(mant: nat, exp: int)
    requires
        -1074 <= exp < 0,
    ensures
        ({
            let p = pow2((-exp) as nat);
            &&& p > 0
            &&& unit(0) == p * unit(exp)
            &&& unit(exp) > 0
            &&& magnitude(mant, exp) / unit(0) == mant / p
            &&& magnitude(mant, exp) % unit(0) == 0 <==> mant % p == 0
            &&& (2 * magnitude(mant, exp) + unit(0)) / (2 * unit(0)) == (2 * mant + p) / (2 * p)
        }),
{
    let p = pow2((-exp) as nat);
    let u = unit(exp);
    lemma_pow2_pos((-exp) as nat);
    lemma_unit_pos(exp);
    lemma_unit_shift(exp, (-exp) as nat);
    let low = mant / p;
    let rem = mant % p;
    vstd::arithmetic::div_mod::lemma_fundamental_div_mod(mant as int, p as int);
    assert(mant * u == (p * u) * low + rem * u) by (nonlinear_arith)
        requires
            mant == p * low + rem,
    ;
    assert(rem * u < p * u) by (nonlinear_arith)
        requires
            rem < p,
            u > 0,
    ;
    lemma_nearest_even_split(mant * u, p * u, low, rem * u);
    assert(rem * u == 0 <==> rem == 0) by (nonlinear_arith)
        requires
            u > 0,
    ;
    let twice = 2 * mant + p;
    let lo = twice / (2 * p);
    let re = twice % (2 * p);
    vstd::arithmetic::div_mod::lemma_fundamental_div_mod(twice as int, 2 * p as int);
    assert(2 * (mant * u) + p * u == (2 * (p * u)) * lo + re * u) by (nonlinear_arith)
        requires
            2 * mant + p == (2 * p) * lo + re,
    ;
    assert(re * u < 2 * (p * u)) by (nonlinear_arith)
        requires
            re < 2 * p,
            u > 0,
    ;
    lemma_nearest_even_split(2 * (mant * u) + p * u, 2 * (p * u), lo, re * u);
}

/// A magnitude with an exponent from zero on is a whole number.
proof fn lemma_from_one_on(mant: nat, exp: int)
    requires
        0 <= exp,
    ensures
        ({
            let n = mant * pow2(exp as nat);
            let m = magnitude(mant, exp);
            &&& m == magnitude(n, 0)
            &&& m / unit(0) == n
            &&& m % unit(0) == 0
            &&& (2 * m + unit(0)) / (2 * unit(0)) == n
        }),
{
    let n = mant * pow2(exp as nat);
    let u = unit(0);
    lemma_unit_pos(0);
    lemma_unit_shift(0, exp as nat);
    assert(mant * unit(exp) == n * u) by (nonlinear_arith)
        requires
            unit(exp) == pow2(exp as nat) * u,
            n == mant * pow2(exp as nat),
    ;
    assert(n * u == u * n) by (nonlinear_arith);
    assert(2 * (n * u) + u == (2 * u) * n + u) by (nonlinear_arith);
    lemma_nearest_even_split(n * u, u, n, 0);
    lemma_nearest_even_split(2 * (n * u) + u, 2 * u, n, u);
}

/// A number of the format with an exponent from zero on is already whole.
proof fn lemma_already_whole(f: Format, neg: bool, mant: u64, exp: i32)
    requires
        f.valid(),
        (Parts::Finite { neg, mant, exp }).canonical(f),
        exp >= 0,
    ensures
        nearest_whole(f, Parts::Finite { neg, mant, exp }) == (Parts::Finite { neg, mant, exp }),
        ceiling(f, Parts::Finite { neg, mant, exp }) == (Parts::Finite { neg, mant, exp }),
{
    lemma_from_one_on(mant as nat, exp as int);
    lemma_round_exact(f, neg, mant, exp, 1);
    assert(1 * magnitude(mant as nat, exp as int) == magnitude(mant as nat, exp as int));
}

/// What a number is as an unsigned integer.
pub fn truncate_parts(f: Format, a: Parts) -> (r: u64)
    requires
        f.valid(),
        a.canonical(f),
    ensures
        r == truncated(a),
{
    proof {
        lemma2_to64();
        lemma2_to64_rest();
        lemma_pow2_mono(f.prec as nat, 53);
    }
    match a {
        Parts::Nan => 0,
        Parts::Infinite { neg } => if neg {
            0
        } else {
            u64::MAX
        },
        Parts::Finite { neg, mant, exp } => {
            if neg {
                return 0;
            }
            if exp < 0 {
                proof {
                    lemma_below_one(mant as nat, exp as int);
                }
                let k: u32 = (-exp) as u32;
                if k >= 64 {
                    proof {
                        lemma_pow2_mono(64, k as nat);
                        vstd::arithmetic::div_mod::lemma_basic_div(mant as int, pow2(k as nat) as int);
                    }
                    0
                } else {
                    let p: u128 = power_of_two(k);
                    proof {
                        vstd::arithmetic::div_mod::lemma_div_is_ordered_by_denominator(
                            mant as int,
                            1,
                            p as int,
                        );
                    }
                    (mant as u128 / p) as u64
                }
            } else {
                proof {
                    lemma_from_one_on(mant as nat, exp as int);
                }
                if mant == 0 {
                    return 0;
                }
                if exp >= 64 {
                    proof {
                        lemma_pow2_mono(64, exp as nat);
                        assert(mant as nat * pow2(exp as nat) >= pow2(exp as nat)) by (nonlinear_arith)
                            requires
                                mant >= 1,
                        ;
                    }
                    return u64::MAX;
                }
                let p: u128 = power_of_two(exp as u32);
                proof {
                    lemma_pow2_mono(exp as nat, 64);
                    assert(mant * p <= 0x20_0000_0000_0000 * 0x1_0000_0000_0000_0000)
                        by (nonlinear_arith)
                        requires
                            mant <= 0x20_0000_0000_0000,
                            p <= 0x1_0000_0000_0000_0000,
                    ;
                }
                let n: u128 = mant as u128 * p;
                if n > u64::MAX as u128 {
                    u64::MAX
                } else {
                    n as u64
                }
            }
        },
    }
}

/// The nearest whole number, ties away from zero.
pub fn nearest_whole_parts(f: Format, a: Parts) -> (r: Parts)
    requires
        f.valid(),
        a.canonical(f),
    ensures
        r == nearest_whole(f, a),
        r.canonical(f),
{
    proof {
        lemma2_to64();
        lemma2_to64_rest();
        lemma_pow2_mono(f.prec as nat, 53);
        lemma_pow2_mono(64, 127);
    }
    match a {
        Parts::Finite { neg, mant, exp } => {
            if exp >= 0 {
                proof {
                    lemma_already_whole(f, neg, mant, exp);
                }
                return a;
            }
            let k: u32 = (-exp) as u32;
            proof {
                lemma_below_one(mant as nat, exp as int);
            }
            let n: u64;
            if k >= 64 {
                n = 0;
                proof {
                    lemma_pow2_mono(64, k as nat);
                    vstd::arithmetic::div_mod::lemma_basic_div(
                        2 * mant + pow2(k as nat),
                        2 * pow2(k as nat) as int,
                    );
                }
            } else {
                let p: u128 = power_of_two(k);
                proof {
                    lemma_pow2_mono(k as nat, 64);
                    vstd::arithmetic::div_mod::lemma_div_is_ordered_by_denominator(
                        2 * mant + p,
                        2,
                        2 * p as int,
                    );
                    assert((2 * mant + p) as int / (2 * p as int) <= mant + 1) by (nonlinear_arith)
                        requires
                            p >= 1,
                            mant >= 0,
                    ;
                }
                n = ((2 * mant as u128 + p) / (2 * p)) as u64;
            }
            round_off(f, neg, n as u128, 0, false, Ghost(magnitude(n as nat, 0)), Ghost(1))
        },
        _ => a,
    }
}

/// The least whole number that is not below.
pub fn ceiling_parts(f: Format, a: Parts) -> (r: Parts)
    requires
        f.valid(),
        a.canonical(f),
    ensures
        r == ceiling(f, a),
        r.canonical(f),
{
    proof {
        lemma2_to64();
        lemma2_to64_rest();
        lemma_pow2_mono(f.prec as nat, 53);
        lemma_pow2_mono(64, 127);
    }
    match a {
        Parts::Finite { neg, mant, exp } => {
            if exp >= 0 {
                proof {
                    lemma_already_whole(f, neg, mant, exp);
                }
                return a;
            }
            let k: u32 = (-exp) as u32;
            proof {
                lemma_below_one(mant as nat, exp as int);
            }
            let mut n: u64;
            let exact: bool;
            if k >= 64 {
                n = 0;
                exact = mant == 0;
                proof {
                    lemma_pow2_mono(64, k as nat);
                    vstd::arithmetic::div_mod::lemma_basic_div(mant as int, pow2(k as nat) as int);
                    vstd::arithmetic::div_mod::lemma_small_mod(mant as nat, pow2(k as nat));
                }
            } else {
                let p: u128 = power_of_two(k);
                proof {
                    vstd::arithmetic::div_mod::lemma_div_is_ordered_by_denominator(
                        mant as int,
                        1,
                        p as int,
                    );
                }
                n = (mant as u128 / p) as u64;
                exact = mant as u128 % p == 0;
            }
            if !neg && !exact {
                n = n + 1;
            }
            round_off(f, neg, n as u128, 0, false, Ghost(magnitude(n as nat, 0)), Ghost(1))
        },
        _ => a,
    }
}

} // verus!
