//! How long a price is when it is written out.
use crate::float::grid::{lemma_pow2_mono, lemma_unit_pos, lemma_unit_shift, power_of_two, unit};
use crate::float::rounding::{
    lemma_nearest_even_split, magnitude, nearest_even, Format, Parts,
};
use crate::float::single::Single;
use vstd::arithmetic::power::{lemma_pow_increases, lemma_pow_positive, pow};
use vstd::arithmetic::power2::{lemma2_to64, lemma_pow2_adds, lemma_pow2_pos, pow2};
use vstd::prelude::*;

verus! {

/// How many decimals can be asked for.
pub const MAX_DECIMALS: usize = 65535;

/// The number of decimal digits of a whole number.
pub open spec fn digits(n: nat) -> nat
    decreases n,
{
    if n < 10 {
        1
    } else {
        1 + digits(n / 10)
    }
}

/// What stands before the decimal point of a number of `steps` steps of the grid, rounded to so many
/// decimals: to the nearest one, and halfway between two to the one whose last digit is even.
pub open spec fn whole_part(steps: nat, decimals: nat) -> nat {
    let ten = pow(10, decimals) as nat;
    nearest_even(steps * ten, unit(0)) / ten
}

/// The number of characters of a number written with so many decimals: its sign where it is negative,
/// the digits of its whole part, and a point before the decimals where there are any.
pub open spec fn label_len(value: Single, decimals: nat) -> nat {
    match value.parts() {
        Parts::Nan => 3,
        Parts::Infinite { neg } => if neg {
            4
        } else {
            3
        },
        Parts::Finite { neg, mant, exp } => {
            let sign: nat = if neg {
                1
            } else {
                0
            };
            let tail: nat = if decimals > 0 {
                decimals + 1
            } else {
                0
            };
            sign + digits(whole_part(magnitude(mant as nat, exp as int), decimals)) + tail
        },
    }
}

/// Counts the decimal digits of a whole number.
fn count_digits(n: u128) -> (r: u32)
    ensures
        r == digits(n as nat),
        1 <= r <= 39,
{
    let mut rest: u128 = n;
    let mut r: u32 = 1;
    proof {
        lemma_ten_powers();
    }
    while rest >= 10
        invariant
            r + digits(rest as nat) == digits(n as nat) + 1,
            1 <= r <= 39,
            rest * pow(10, (r - 1) as nat) <= n,
            pow(10, 39) > u128::MAX,
        decreases rest,
    {
        let next: u128 = rest / 10;
        proof {
            let p = pow(10, (r - 1) as nat);
            vstd::arithmetic::power::lemma_pow1(10);
            vstd::arithmetic::power::lemma_pow_adds(10, (r - 1) as nat, 1);
            assert(p * 10 == pow(10, r as nat));
            lemma_pow_positive(10, (r - 1) as nat);
            assert(next * (p * 10) <= rest * p) by (nonlinear_arith)
                requires
                    next * 10 <= rest,
                    p > 0,
            ;
            assert(pow(10, r as nat) <= next * (p * 10)) by (nonlinear_arith)
                requires
                    next >= 1,
                    pow(10, r as nat) == p * 10,
                    p > 0,
            ;
            if r >= 39 {
                lemma_pow_increases(10, 39, r as nat);
            }
        }
        rest = next;
        r = r + 1;
    }
    r
}

proof fn lemma_ten_powers()
    ensures
        pow(10, 0) == 1,
        pow(10, 9) == 1_000_000_000,
        pow(10, 39) > u128::MAX,
{
    reveal_with_fuel(pow, 10);
    assert(pow(10, 3) == 1_000);
    assert(pow(10, 9) == 1_000_000_000);
    vstd::arithmetic::power::lemma_pow_adds(10, 9, 9);
    assert(pow(10, 18) == 1_000_000_000_000_000_000);
    vstd::arithmetic::power::lemma_pow_adds(10, 18, 18);
    assert(pow(10, 36) == 1_000_000_000_000_000_000_000_000_000_000_000_000int);
    vstd::arithmetic::power::lemma_pow_adds(10, 36, 3);
}

/// Ten to the power of `d`.
fn power_of_ten(d: usize) -> (r: u64)
    requires
        d <= 9,
    ensures
        r == pow(10, d as nat),
        1 <= r <= 1_000_000_000,
{
    let mut r: u64 = 1;
    let mut i: usize = 0;
    proof {
        lemma_ten_powers();
    }
    while i < d
        invariant
            i <= d <= 9,
            r == pow(10, i as nat),
            1 <= r,
            pow(10, 9) == 1_000_000_000,
        decreases d - i,
    {
        proof {
            vstd::arithmetic::power::lemma_pow1(10);
            vstd::arithmetic::power::lemma_pow_adds(10, i as nat, 1);
            lemma_pow_increases(10, (i + 1) as nat, 9);
        }
        r = r * 10;
        i = i + 1;
    }
    proof {
        lemma_pow_increases(10, d as nat, 9);
    }
    r
}

/// From the first one on, powers of ten are even.
proof fn lemma_ten_even(decimals: nat)
    ensures
        decimals > 0 ==> pow(10, decimals) % 2 == 0,
        decimals == 0 ==> pow(10, decimals) == 1,
{
    reveal(pow);
    if decimals > 0 {
        let half = 5 * pow(10, (decimals - 1) as nat);
        assert(pow(10, decimals) == 2 * half) by (nonlinear_arith)
            requires
                half == 5 * pow(10, (decimals - 1) as nat),
                pow(10, decimals) == 10 * pow(10, (decimals - 1) as nat),
        ;
    }
}

/// The whole part of a number below the point: the digits before the point, and one more where all
/// decimals are nines and the rest rounds up.
proof fn lemma_whole_part(mant: nat, k: nat, decimals: nat, low: nat, rest: nat)
    requires
        1 <= k <= 1074,
        mant == pow2(k) * low + rest,
        rest < pow2(k),
    ensures
        ({
            let twice = 2 * (pow(10, decimals) as nat * (pow2(k) - rest));
            whole_part(magnitude(mant, -k), decimals) == if twice < pow2(k) || (twice == pow2(k) && (
            decimals > 0 || low % 2 == 1)) {
                low + 1
            } else {
                low
            }
        }),
{
    let p = pow2(k);
    let u = unit(-(k as int));
    let ten = pow(10, decimals) as nat;
    lemma_unit_pos(-(k as int));
    lemma_unit_shift(-(k as int), k);
    lemma_pow_positive(10, decimals);
    lemma_ten_even(decimals);
    let w = unit(0);
    assert(w == p * u);
    let j = (rest * ten) / p;
    let rem = (rest * ten) % p;
    vstd::arithmetic::div_mod::lemma_fundamental_div_mod((rest * ten) as int, p as int);
    let q = low * ten + j;
    let num = (mant * u) * ten;
    assert(num == w * q + rem * u) by (nonlinear_arith)
        requires
            num == (mant * u) * ten,
            mant == p * low + rest,
            rest * ten == p * j + rem,
            w == p * u,
            q == low * ten + j,
    ;
    assert(rem * u < w) by (nonlinear_arith)
        requires
            rem < p,
            w == p * u,
            u > 0,
    ;
    lemma_nearest_even_split(num, w, q, rem * u);
    assert((2 * (rem * u) < w <==> 2 * rem < p) && (2 * (rem * u) == w <==> 2 * rem == p))
        by (nonlinear_arith)
        requires
            w == p * u,
            u > 0,
    ;
    assert(rest * ten < p * ten) by (nonlinear_arith)
        requires
            rest < p,
            ten > 0,
    ;
    assert(j < ten) by (nonlinear_arith)
        requires
            p * j <= rest * ten,
            rest * ten < p * ten,
    ;
    assert(ten * (p - rest) == p * ten - rest * ten) by (nonlinear_arith);
    assert(ten * low == low * ten) by (nonlinear_arith);
    assert(ten * (low + 1) == low * ten + ten) by (nonlinear_arith);
    if j == ten - 1 {
        assert(p * j == p * ten - p) by (nonlinear_arith)
            requires
                j == ten - 1,
        ;
        if decimals > 0 {
            lemma_even_product(low, ten);
        } else {
            assert(low * 1 == low);
        }
        lemma_nearest_even_split(q, ten, low, j);
        lemma_nearest_even_split(q + 1, ten, low + 1, 0);
    } else {
        assert(p * j <= p * ten - 2 * p) by (nonlinear_arith)
            requires
                j <= ten - 2,
        ;
        lemma_nearest_even_split(q, ten, low, j);
        lemma_nearest_even_split(q + 1, ten, low, j + 1);
    }
}

proof fn lemma_even_product(n: nat, even: nat)
    requires
        even % 2 == 0,
    ensures
        (n * even) % 2 == 0,
{
    let half = even / 2;
    assert(n * even == 2 * (n * half)) by (nonlinear_arith)
        requires
            even == 2 * half,
    ;
}

/// A whole number is its own whole part.
proof fn lemma_whole_part_exact(mant: nat, exp: nat, decimals: nat)
    ensures
        whole_part(magnitude(mant, exp as int), decimals) == mant * pow2(exp),
{
    let n = mant * pow2(exp);
    let w = unit(0);
    let ten = pow(10, decimals) as nat;
    lemma_unit_pos(0);
    lemma_unit_shift(0, exp);
    lemma_pow_positive(10, decimals);
    assert((mant * unit(exp as int)) * ten == w * (n * ten)) by (nonlinear_arith)
        requires
            unit(exp as int) == pow2(exp) * w,
            n == mant * pow2(exp),
    ;
    lemma_nearest_even_split(w * (n * ten), w, n * ten, 0);
    assert(n * ten == ten * n) by (nonlinear_arith);
    lemma_nearest_even_split(n * ten, ten, n, 0);
}

/// What stands before the decimal point of a finite number.
fn whole_digits(mant: u64, exp: i32, decimals: usize) -> (r: u128)
    requires
        (Parts::Finite { neg: false, mant, exp }).canonical(Format::single()),
    ensures
        r == whole_part(magnitude(mant as nat, exp as int), decimals as nat),
{
    proof {
        lemma2_to64();
        lemma_pow2_adds(64, 64);
        lemma_pow_positive(10, decimals as nat);
    }
    let ghost ten = pow(10, decimals as nat) as nat;
    if exp >= 0 {
        let p: u128 = power_of_two(exp as u32);
        proof {
            lemma_whole_part_exact(mant as nat, exp as nat, decimals as nat);
            lemma_pow2_mono(exp as nat, 104);
            lemma_pow2_pos(exp as nat);
            lemma_pow2_adds(24, 104);
            assert(mant * p < pow2(24) * pow2(104)) by (nonlinear_arith)
                requires
                    mant < pow2(24),
                    0 < p <= pow2(104),
            ;
        }
        return mant as u128 * p;
    }
    let k: u32 = (-exp) as u32;
    proof {
        lemma_pow2_pos(k as nat);
    }
    if k >= 26 {
        proof {
            lemma_pow2_mono(26, k as nat);
            let p = pow2(k as nat);
            assert(ten * (p - mant) >= p - mant) by (nonlinear_arith)
                requires
                    ten >= 1,
                    p >= mant,
            ;
            lemma_whole_part(mant as nat, k as nat, decimals as nat, 0, mant as nat);
        }
        return 0;
    }
    let p: u128 = power_of_two(k);
    let low: u128 = mant as u128 / p;
    let rest: u128 = mant as u128 % p;
    proof {
        lemma_pow2_mono(k as nat, 26);
        vstd::arithmetic::div_mod::lemma_fundamental_div_mod(mant as int, p as int);
        lemma_whole_part(mant as nat, k as nat, decimals as nat, low as nat, rest as nat);
        vstd::arithmetic::div_mod::lemma_div_is_ordered_by_denominator(mant as int, 1, p as int);
    }
    if decimals > 9 {
        proof {
            lemma_ten_powers();
            lemma_pow_increases(10, 9, decimals as nat);
            assert(ten * (p - rest) >= ten) by (nonlinear_arith)
                requires
                    p - rest >= 1,
                    ten >= 1,
            ;
        }
        return low;
    }
    let t: u64 = power_of_ten(decimals);
    proof {
        assert(t * (p - rest) <= 1_000_000_000 * 0x400_0000) by (nonlinear_arith)
            requires
                t <= 1_000_000_000,
                0 <= p - rest <= 0x400_0000,
        ;
    }
    let twice: u128 = 2 * (t as u128 * (p - rest));
    if twice < p || (twice == p && (decimals > 0 || low % 2 == 1)) {
        low + 1
    } else {
        low
    }
}

/// The number of characters of a number written with so many decimals.
pub fn label_length(value: Single, decimals: usize) -> (r: usize)
    requires
        decimals <= MAX_DECIMALS,
    ensures
        r == label_len(value, decimals as nat),
{
    match value.unpack() {
        Parts::Nan => 3,
        Parts::Infinite { neg } => if neg {
            4
        } else {
            3
        },
        Parts::Finite { neg, mant, exp } => {
            let sign: usize = if neg {
                1
            } else {
                0
            };
            let tail: usize = if decimals > 0 {
                decimals + 1
            } else {
                0
            };
            sign + count_digits(whole_digits(mant, exp, decimals)) as usize + tail
        },
    }
}

} // verus!
