//! The four operations on numbers taken apart, each the exact result rounded once.
use crate::float::grid::{
    bit_length, lemma_pow2_mono, lemma_unit_pos, lemma_unit_shift, power_of_two, unit, GRID,
};
use crate::float::rounding::{magnitude, round, round_off, Format, Parts};
use vstd::arithmetic::power2::{
    lemma2_to64, lemma2_to64_rest, lemma_pow2_adds, lemma_pow2_pos, lemma_pow2_unfold, pow2,
};
use vstd::prelude::*;

verus! {

pub open spec fn abs(x: int) -> nat {
    if x < 0 {
        (-x) as nat
    } else {
        x as nat
    }
}

/// The number with its sign changed.
pub open spec fn spec_negated(a: Parts) -> Parts {
    match a {
        Parts::Nan => Parts::Nan,
        Parts::Infinite { neg } => Parts::Infinite { neg: !neg },
        Parts::Finite { neg, mant, exp } => Parts::Finite { neg: !neg, mant, exp },
    }
}

#[verifier::when_used_as_spec(spec_negated)]
pub fn negated(a: Parts) -> (r: Parts)
    ensures
        r == negated(a),
{
    match a {
        Parts::Nan => Parts::Nan,
        Parts::Infinite { neg } => Parts::Infinite { neg: !neg },
        Parts::Finite { neg, mant, exp } => Parts::Finite { neg: !neg, mant, exp },
    }
}

/// The rounded sum. A sum of zero is negative only where both terms are.
pub open spec fn sum(f: Format, a: Parts, b: Parts) -> Parts {
    match (a, b) {
        (Parts::Nan, _) => Parts::Nan,
        (_, Parts::Nan) => Parts::Nan,
        (Parts::Infinite { neg: x }, Parts::Infinite { neg: y }) => {
            if x == y {
                a
            } else {
                Parts::Nan
            }
        },
        (Parts::Infinite { .. }, _) => a,
        (_, Parts::Infinite { .. }) => b,
        (Parts::Finite { neg: x, .. }, Parts::Finite { neg: y, .. }) => {
            let s = a.steps() + b.steps();
            let neg = if s == 0 {
                x && y
            } else {
                s < 0
            };
            round(f, neg, abs(s), 1)
        },
    }
}

/// The rounded product.
pub open spec fn product(f: Format, a: Parts, b: Parts) -> Parts {
    match (a, b) {
        (Parts::Nan, _) => Parts::Nan,
        (_, Parts::Nan) => Parts::Nan,
        (Parts::Infinite { neg: x }, Parts::Infinite { neg: y }) => Parts::Infinite { neg: x != y },
        (Parts::Infinite { neg: x }, Parts::Finite { neg: y, mant, .. }) => {
            if mant == 0 {
                Parts::Nan
            } else {
                Parts::Infinite { neg: x != y }
            }
        },
        (Parts::Finite { neg: x, mant, .. }, Parts::Infinite { neg: y }) => {
            if mant == 0 {
                Parts::Nan
            } else {
                Parts::Infinite { neg: x != y }
            }
        },
        (Parts::Finite { neg: x, mant: m, exp: d }, Parts::Finite { neg: y, mant: n, exp: e }) => {
            round(f, x != y, magnitude((m * n) as nat, d + e), 1)
        },
    }
}

/// The rounded quotient.
pub open spec fn quotient(f: Format, a: Parts, b: Parts) -> Parts {
    match (a, b) {
        (Parts::Nan, _) => Parts::Nan,
        (_, Parts::Nan) => Parts::Nan,
        (Parts::Infinite { .. }, Parts::Infinite { .. }) => Parts::Nan,
        (Parts::Infinite { neg: x }, Parts::Finite { neg: y, .. }) => Parts::Infinite {
            neg: x != y,
        },
        (Parts::Finite { neg: x, .. }, Parts::Infinite { neg: y }) => Parts::Finite {
            neg: x != y,
            mant: 0,
            exp: f.emin,
        },
        (Parts::Finite { neg: x, mant: m, exp: d }, Parts::Finite { neg: y, mant: n, exp: e }) => {
            if n == 0 {
                if m == 0 {
                    Parts::Nan
                } else {
                    Parts::Infinite { neg: x != y }
                }
            } else {
                round(
                    f,
                    x != y,
                    magnitude(m as nat, d as int) * unit(0),
                    magnitude(n as nat, e as int),
                )
            }
        },
    }
}

/// Powers of two at the limits of the machine integers used here.
proof fn lemma_limits()
    ensures
        pow2(53) == 0x20_0000_0000_0000,
        pow2(64) == 0x1_0000_0000_0000_0000,
        pow2(127) == 0x8000_0000_0000_0000_0000_0000_0000_0000,
{
    lemma2_to64();
    lemma2_to64_rest();
    lemma_pow2_adds(64, 63);
}

/// Multiples of `u` add, subtract and compare as their factors do.
proof fn lemma_scaled(big: nat, small: nat, u: nat)
    requires
        u > 0,
    ensures
        (big + small) * u == big * u + small * u,
        big >= small ==> ((big - small) as nat) * u == big * u - small * u,
        small >= big ==> ((small - big) as nat) * u == small * u - big * u,
        big > small ==> big * u > small * u,
        big < small ==> big * u < small * u,
        big + small == 0 <==> (big + small) * u == 0,
{
    assert((big + small) * u == big * u + small * u) by (nonlinear_arith);
    assert((big - small) * u == big * u - small * u) by (nonlinear_arith);
    assert((small - big) * u == small * u - big * u) by (nonlinear_arith);
    assert(big > small ==> big * u > small * u) by (nonlinear_arith)
        requires
            u > 0,
    ;
    assert(big < small ==> big * u < small * u) by (nonlinear_arith)
        requires
            u > 0,
    ;
    assert(big + small == 0 <==> (big + small) * u == 0) by (nonlinear_arith)
        requires
            u > 0,
    ;
}

/// Adds two finite numbers, the first with the larger exponent.
fn add_ordered(f: Format, a: Parts, b: Parts) -> (r: Parts)
    requires
        f.valid(),
        a.canonical(f),
        b.canonical(f),
        a matches Parts::Finite { exp: d, .. } && b matches Parts::Finite { exp: e, .. } && d >= e,
    ensures
        r == sum(f, a, b),
        r.canonical(f),
{
    match (a, b) {
        (Parts::Finite { neg: x, mant: m, exp: d }, Parts::Finite { neg: y, mant: n, exp: e }) => {
            let gap: u32 = (d - e) as u32;
            let ghost s = a.steps() + b.steps();
            proof {
                lemma_limits();
                lemma_pow2_mono(f.prec as nat, 53);
                lemma_unit_pos(e as int);
                lemma_unit_pos(d as int);
                lemma_unit_shift(e as int, gap as nat);
            }
            if gap <= 64 {
                let step: u128 = power_of_two(gap);
                proof {
                    lemma_pow2_mono(gap as nat, 64);
                }
                assert(m * step <= 0x20_0000_0000_0000 * 0x1_0000_0000_0000_0000)
                    by (nonlinear_arith)
                    requires
                        m <= 0x20_0000_0000_0000,
                        step <= 0x1_0000_0000_0000_0000,
                ;
                let big: u128 = m as u128 * step;
                let small: u128 = n as u128;
                let neg: bool;
                let total: u128;
                if x == y {
                    neg = x;
                    total = big + small;
                } else if big > small {
                    neg = x;
                    total = big - small;
                } else if big < small {
                    neg = y;
                    total = small - big;
                } else {
                    neg = false;
                    total = 0;
                }
                proof {
                    let u = unit(e as int);
                    assert(magnitude(m as nat, d as int) == big as nat * u) by (nonlinear_arith)
                        requires
                            magnitude(m as nat, d as int) == m as nat * (step as nat * u),
                            big == m * step,
                    ;
                    lemma_scaled(big as nat, small as nat, u);
                    assert(abs(s) == magnitude(total as nat, e as int));
                }
                round_off(f, neg, total, e, false, Ghost(abs(s)), Ghost(1))
            } else {
                proof {
                    // the first term has all its digits, since its exponent is not the least
                    lemma_pow2_unfold(f.prec as nat);
                    lemma_pow2_pos((f.prec - 1) as nat);
                    lemma_unit_shift(e as int, (gap - 2) as nat);
                    lemma_unit_shift(d - 2, 2);
                    lemma2_to64();
                    lemma_pow2_mono(53, (gap - 2) as nat);
                }
                if n == 0 {
                    proof {
                        assert(b.steps() == 0) by (nonlinear_arith)
                            requires
                                b.steps() == n as nat * unit(e as int) || b.steps() == -(n as nat
                                    * unit(e as int)),
                                n == 0,
                        ;
                        assert(magnitude(m as nat, d as int) > 0) by (nonlinear_arith)
                            requires
                                magnitude(m as nat, d as int) == m as nat * unit(d as int),
                                m > 0,
                                unit(d as int) > 0,
                        ;
                    }
                    round_off(f, x, m as u128, d, false, Ghost(abs(s)), Ghost(1))
                } else {
                    let four: u128 = m as u128 * 4;
                    let whole: u128 = if x == y {
                        four
                    } else {
                        four - 1
                    };
                    proof {
                        let t = unit(d - 2);
                        let bmag = n as nat * unit(e as int);
                        lemma_unit_pos(d - 2);
                        assert(0 < bmag < t) by (nonlinear_arith)
                            requires
                                bmag == n as nat * unit(e as int),
                                0 < n < pow2((gap - 2) as nat),
                                unit(e as int) > 0,
                                t == pow2((gap - 2) as nat) * unit(e as int),
                        ;
                        assert(magnitude(m as nat, d as int) == four as nat * t) by (nonlinear_arith)
                            requires
                                magnitude(m as nat, d as int) == m as nat * unit(d as int),
                                unit(d as int) == 4 * t,
                                four == m * 4,
                        ;
                        assert((four - 1) as nat * t == four as nat * t - t) by (nonlinear_arith)
                            requires
                                four >= 1,
                        ;
                        assert((four + 1) as nat * t == four as nat * t + t) by (nonlinear_arith);
                        assert(t <= (four - 1) as nat * t) by (nonlinear_arith)
                            requires
                                four >= 2,
                        ;
                    }
                    round_off(f, x, whole, d - 2, true, Ghost(abs(s)), Ghost(1))
                }
            }
        },
        _ => Parts::Nan,
    }
}

/// The rounded sum of two numbers of the format.
pub fn add_parts(f: Format, a: Parts, b: Parts) -> (r: Parts)
    requires
        f.valid(),
        a.canonical(f),
        b.canonical(f),
    ensures
        r == sum(f, a, b),
        r.canonical(f),
{
    match (a, b) {
        (Parts::Nan, _) => Parts::Nan,
        (_, Parts::Nan) => Parts::Nan,
        (Parts::Infinite { neg: x }, Parts::Infinite { neg: y }) => {
            if x == y {
                a
            } else {
                Parts::Nan
            }
        },
        (Parts::Infinite { .. }, _) => a,
        (_, Parts::Infinite { .. }) => b,
        (Parts::Finite { exp: d, .. }, Parts::Finite { exp: e, .. }) => {
            if d >= e {
                add_ordered(f, a, b)
            } else {
                add_ordered(f, b, a)
            }
        },
    }
}

/// The rounded product of two numbers of the format.
pub fn mul_parts(f: Format, a: Parts, b: Parts) -> (r: Parts)
    requires
        f.valid(),
        a.canonical(f),
        b.canonical(f),
    ensures
        r == product(f, a, b),
        r.canonical(f),
{
    match (a, b) {
        (Parts::Nan, _) => Parts::Nan,
        (_, Parts::Nan) => Parts::Nan,
        (Parts::Infinite { neg: x }, Parts::Infinite { neg: y }) => Parts::Infinite { neg: x != y },
        (Parts::Infinite { neg: x }, Parts::Finite { neg: y, mant, .. }) => {
            if mant == 0 {
                Parts::Nan
            } else {
                Parts::Infinite { neg: x != y }
            }
        },
        (Parts::Finite { neg: x, mant, .. }, Parts::Infinite { neg: y }) => {
            if mant == 0 {
                Parts::Nan
            } else {
                Parts::Infinite { neg: x != y }
            }
        },
        (Parts::Finite { neg: x, mant: m, exp: d }, Parts::Finite { neg: y, mant: n, exp: e }) => {
            proof {
                lemma_limits();
                lemma_pow2_mono(f.prec as nat, 53);
            }
            assert(m * n <= 0x20_0000_0000_0000 * 0x20_0000_0000_0000) by (nonlinear_arith)
                requires
                    m <= 0x20_0000_0000_0000,
                    n <= 0x20_0000_0000_0000,
            ;
            assert(0 <= m * n) by (nonlinear_arith);
            let whole: u128 = m as u128 * n as u128;
            round_off(f, x != y, whole, d + e, false, Ghost(magnitude((m * n) as nat, d + e)), Ghost(1))
        },
    }
}

/// The rounded quotient of two numbers of the format.
pub fn div_parts(f: Format, a: Parts, b: Parts) -> (r: Parts)
    requires
        f.valid(),
        a.canonical(f),
        b.canonical(f),
    ensures
        r == quotient(f, a, b),
        r.canonical(f),
{
    proof {
        lemma_limits();
        lemma_pow2_mono(f.prec as nat, 53);
        lemma_pow2_pos(f.prec as nat);
    }
    match (a, b) {
        (Parts::Nan, _) => Parts::Nan,
        (_, Parts::Nan) => Parts::Nan,
        (Parts::Infinite { .. }, Parts::Infinite { .. }) => Parts::Nan,
        (Parts::Infinite { neg: x }, Parts::Finite { neg: y, .. }) => Parts::Infinite {
            neg: x != y,
        },
        (Parts::Finite { neg: x, .. }, Parts::Infinite { neg: y }) => Parts::Finite {
            neg: x != y,
            mant: 0,
            exp: f.emin,
        },
        (Parts::Finite { neg: x, mant: m, exp: d }, Parts::Finite { neg: y, mant: n, exp: e }) => {
            if n == 0 {
                if m == 0 {
                    Parts::Nan
                } else {
                    Parts::Infinite { neg: x != y }
                }
            } else {
                let ghost num = magnitude(m as nat, d as int) * unit(0);
                let ghost den = magnitude(n as nat, e as int);
                proof {
                    lemma_unit_pos(e as int);
                    assert(den > 0) by (nonlinear_arith)
                        requires
                            den == n as nat * unit(e as int),
                            n > 0,
                            unit(e as int) > 0,
                    ;
                }
                if m == 0 {
                    proof {
                        assert(num == 0 && 0 == den * magnitude(0, 0)) by (nonlinear_arith)
                            requires
                                num == (m as nat * unit(d as int)) * unit(0),
                                m == 0,
                                magnitude(0, 0) == 0 * unit(0),
                        ;
                    }
                    return round_off(f, x != y, 0, 0, false, Ghost(num), Ghost(den));
                }
                let len: u32 = bit_length(m as u128);
                assert(len <= 53) by {
                    if len > 53 {
                        lemma_pow2_mono(53, (len - 1) as nat);
                    }
                }
                // the dividend, moved up until it has 126 digits
                let up: u32 = 126 - len;
                let step: u128 = power_of_two(up);
                proof {
                    lemma_pow2_adds(len as nat, up as nat);
                    lemma_pow2_adds((len - 1) as nat, up as nat);
                    lemma_pow2_unfold(127);
                    lemma_pow2_unfold(126);
                    lemma_pow2_adds(72, 53);
                    lemma_pow2_mono(f.prec as nat, 72);
                    lemma_pow2_pos(up as nat);
                }
                assert(pow2(125) <= m * step < pow2(126)) by (nonlinear_arith)
                    requires
                        pow2((len - 1) as nat) <= m < pow2(len as nat),
                        step == pow2(up as nat),
                        step > 0,
                        pow2(125) == pow2((len - 1) as nat) * pow2(up as nat),
                        pow2(126) == pow2(len as nat) * pow2(up as nat),
                ;
                let top: u128 = m as u128 * step;
                let whole: u128 = top / n as u128;
                let rest: u128 = top % n as u128;
                proof {
                    vstd::arithmetic::div_mod::lemma_fundamental_div_mod(top as int, n as int);
                    assert(pow2(72) <= whole <= top) by (nonlinear_arith)
                        requires
                            top as int == n as int * whole as int + rest as int,
                            0 <= rest < n,
                            0 < n <= pow2(53),
                            top >= pow2(125),
                            pow2(125) == pow2(72) * pow2(53),
                    ;
                    lemma_quotient_window(
                        m as nat,
                        d as int,
                        n as nat,
                        e as int,
                        up as nat,
                        whole as nat,
                        rest as nat,
                    );
                }
                round_off(f, x != y, whole, d - e - up as i32, rest > 0, Ghost(num), Ghost(den))
            }
        },
    }
}

/// Where the quotient of two magnitudes lies, given the whole quotient of the significands.
proof fn lemma_quotient_window(m: nat, d: int, n: nat, e: int, up: nat, whole: nat, rest: nat)
    requires
        -1074 <= d <= 971,
        -1074 <= e <= 971,
        up <= 126,
        m * pow2(up) == n * whole + rest,
        rest < n,
    ensures
        ({
            let num = magnitude(m, d) * unit(0);
            let den = magnitude(n, e);
            let t = d - e - up;
            &&& rest == 0 ==> num == den * magnitude(whole, t)
            &&& rest > 0 ==> den * magnitude(whole, t) < num < den * magnitude(whole + 1, t)
        }),
{
    let num = magnitude(m, d) * unit(0);
    let den = magnitude(n, e);
    let t = d - e - up;
    // the weight of one unit of the dividend, in squared steps
    let w = pow2((d - up + 2 * GRID) as nat);
    lemma_pow2_pos((d - up + 2 * GRID) as nat);
    lemma_pow2_adds((e + GRID) as nat, (t + GRID) as nat);
    assert(((e + GRID) as nat + (t + GRID) as nat) as nat == (d - up + 2 * GRID) as nat);
    assert(unit(e) * unit(t) == w);
    lemma_pow2_adds((d + GRID) as nat, GRID as nat);
    lemma_pow2_adds(up, (d - up + 2 * GRID) as nat);
    assert(((d + GRID) as nat + GRID as nat) as nat == (up + (d - up + 2 * GRID) as nat) as nat);
    assert(unit(d) * unit(0) == pow2(up) * w);
    assert(num == (n * whole + rest) * w) by (nonlinear_arith)
        requires
            num == (m * unit(d)) * unit(0),
            unit(d) * unit(0) == pow2(up) * w,
            m * pow2(up) == n * whole + rest,
    ;
    assert(den * magnitude(whole, t) == (n * whole) * w) by (nonlinear_arith)
        requires
            den == n * unit(e),
            magnitude(whole, t) == whole * unit(t),
            unit(e) * unit(t) == w,
    ;
    assert(den * magnitude(whole + 1, t) == (n * whole + n) * w) by (nonlinear_arith)
        requires
            den == n * unit(e),
            magnitude(whole + 1, t) == (whole + 1) * unit(t),
            unit(e) * unit(t) == w,
    ;
    assert(rest > 0 ==> (n * whole) * w < (n * whole + rest) * w) by (nonlinear_arith)
        requires
            w > 0,
    ;
    assert((n * whole + rest) * w < (n * whole + n) * w) by (nonlinear_arith)
        requires
            w > 0,
            rest < n,
    ;
}

} // verus!
