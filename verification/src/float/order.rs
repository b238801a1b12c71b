//! The order of numbers: nothing compares with what is not a number, and the two zeros are equal.
use crate::float::grid::{lemma_unit_mono, lemma_unit_pos, lemma_unit_shift, unit};
use crate::float::rounding::{magnitude, Format, Parts};
use vstd::arithmetic::power2::{lemma2_to64, lemma_pow2_unfold, pow2};
use vstd::prelude::*;

verus! {

pub open spec fn less(a: Parts, b: Parts) -> bool {
    match (a, b) {
        (Parts::Nan, _) => false,
        (_, Parts::Nan) => false,
        (Parts::Infinite { neg: x }, Parts::Infinite { neg: y }) => x && !y,
        (Parts::Infinite { neg: x }, Parts::Finite { .. }) => x,
        (Parts::Finite { .. }, Parts::Infinite { neg: y }) => !y,
        (Parts::Finite { .. }, Parts::Finite { .. }) => a.steps() < b.steps(),
    }
}

pub open spec fn equal(a: Parts, b: Parts) -> bool {
    match (a, b) {
        (Parts::Infinite { neg: x }, Parts::Infinite { neg: y }) => x == y,
        (Parts::Finite { .. }, Parts::Finite { .. }) => a.steps() == b.steps(),
        _ => false,
    }
}

/// The number with the larger exponent is the larger one: it has all its digits.
pub proof fn lemma_exponent_decides(f: Format, m: u64, d: i32, n: u64, e: i32)
    requires
        f.valid(),
        (Parts::Finite { neg: false, mant: m, exp: d }).canonical(f),
        (Parts::Finite { neg: false, mant: n, exp: e }).canonical(f),
        d > e,
    ensures
        magnitude(m as nat, d as int) > magnitude(n as nat, e as int),
{
    let u = unit(e as int);
    let h = pow2((f.prec - 1) as nat);
    lemma_pow2_unfold(f.prec as nat);
    lemma_unit_pos(e as int);
    lemma_unit_shift(e as int, 1);
    lemma_unit_mono(e + 1, d as int);
    lemma2_to64();
    assert(m as nat * unit(d as int) >= h * (2 * u)) by (nonlinear_arith)
        requires
            m >= h,
            unit(d as int) >= 2 * u,
    ;
    assert(n as nat * u < (2 * h) * u) by (nonlinear_arith)
        requires
            n < 2 * h,
            u > 0,
    ;
    assert(h * (2 * u) == (2 * h) * u) by (nonlinear_arith);
}

/// At one exponent the significands decide.
pub proof fn lemma_significand_decides(m: u64, n: u64, e: int)
    ensures
        m < n ==> magnitude(m as nat, e) < magnitude(n as nat, e),
        magnitude(0, e) == 0,
        m > 0 ==> magnitude(m as nat, e) > 0,
{
    let u = unit(e);
    lemma_unit_pos(e);
    assert(m < n ==> m as nat * u < n as nat * u) by (nonlinear_arith)
        requires
            u > 0,
    ;
    assert(m > 0 ==> m as nat * u > 0) by (nonlinear_arith)
        requires
            u > 0,
    ;
    assert(0 * u == 0) by (nonlinear_arith);
}

/// Whether the first number is less than the second.
pub fn less_parts(f: Format, a: Parts, b: Parts) -> (r: bool)
    requires
        f.valid(),
        a.canonical(f),
        b.canonical(f),
    ensures
        r == less(a, b),
{
    match (a, b) {
        (Parts::Nan, _) => false,
        (_, Parts::Nan) => false,
        (Parts::Infinite { neg: x }, Parts::Infinite { neg: y }) => x && !y,
        (Parts::Infinite { neg: x }, Parts::Finite { .. }) => x,
        (Parts::Finite { .. }, Parts::Infinite { neg: y }) => !y,
        (Parts::Finite { neg: x, mant: m, exp: d }, Parts::Finite { neg: y, mant: n, exp: e }) => {
            proof {
                lemma_significand_decides(m, n, d as int);
                lemma_significand_decides(n, m, d as int);
                lemma_significand_decides(n, m, e as int);
                if d > e {
                    lemma_exponent_decides(f, m, d, n, e);
                } else if d < e {
                    lemma_exponent_decides(f, n, e, m, d);
                }
            }
            if x != y {
                x && (m > 0 || n > 0)
            } else if x {
                d > e || (d == e && m > n)
            } else {
                d < e || (d == e && m < n)
            }
        },
    }
}

/// Whether two numbers are equal.
pub fn equal_parts(f: Format, a: Parts, b: Parts) -> (r: bool)
    requires
        f.valid(),
        a.canonical(f),
        b.canonical(f),
    ensures
        r == equal(a, b),
{
    match (a, b) {
        (Parts::Infinite { neg: x }, Parts::Infinite { neg: y }) => x == y,
        (Parts::Finite { neg: x, mant: m, exp: d }, Parts::Finite { neg: y, mant: n, exp: e }) => {
            proof {
                lemma_significand_decides(m, n, d as int);
                lemma_significand_decides(n, m, d as int);
                lemma_significand_decides(n, m, e as int);
                if d > e {
                    lemma_exponent_decides(f, m, d, n, e);
                } else if d < e {
                    lemma_exponent_decides(f, n, e, m, d);
                }
            }
            if x != y {
                m == 0 && n == 0
            } else {
                d == e && m == n
            }
        },
        _ => false,
    }
}

} // verus!
