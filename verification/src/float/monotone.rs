//! Rounding keeps the order of what it rounds, and with it the four operations do.
use crate::float::arith::{abs, negated, product, quotient, sum};
use crate::float::convert::{ceiling, converted, nearest_whole, truncated, whole};
use crate::float::grid::{lemma_pow2_mono, lemma_unit_mono, lemma_unit_pos, lemma_unit_shift, unit, GRID};
use crate::float::order::{equal, less};
use crate::float::rounding::{
    Format, Parts, is_quantum, lemma_nearest_even_exact, lemma_quantum_unique, lemma_round_exact,
    magnitude, nearest_even, quantum, round,
};
use vstd::arithmetic::power2::{
    lemma2_to64, lemma2_to64_rest, lemma_pow2_adds, lemma_pow2_pos, lemma_pow2_unfold, pow2,
};
use vstd::prelude::*;

verus! {

/// More steps than any finite number has.
pub open spec fn beyond() -> int {
    unit(1100) as int
}

/// The place of a number in the order: its value, or a place beyond all values.
pub open spec fn key(p: Parts) -> int {
    match p {
        Parts::Nan => 0,
        Parts::Infinite { neg } => if neg {
            -beyond()
        } else {
            beyond()
        },
        Parts::Finite { .. } => p.steps(),
    }
}

/// Every quantity has a quantum.
pub proof fn lemma_quantum_exists(f: Format, num: nat, den: nat) -> (q: int)
    requires
        f.valid(),
        den > 0,
    ensures
        is_quantum(f, num, den, q),
        quantum(f, num, den) == q,
{
    let q = lemma_quantum_from(f, num, den, f.emin as int);
    lemma_quantum_unique(f, num, den, q);
    q
}

/// Looks for the quantum from `at` on.
proof fn lemma_quantum_from(f: Format, num: nat, den: nat, at: int) -> (q: int)
    requires
        f.valid(),
        den > 0,
        f.emin <= at,
        at == f.emin || den * unit(at + f.prec - 1) <= num,
    ensures
        is_quantum(f, num, den, q),
    decreases
            (if num < den * unit(at + f.prec) {
                0
            } else {
                num - den * unit(at + f.prec) + 1
            }),
{
    if num < den * unit(at + f.prec) {
        at
    } else {
        lemma_unit_shift(at + f.prec, 1);
        lemma_unit_pos(at + f.prec);
        lemma2_to64();
        assert(den * unit(at + 1 + f.prec) > den * unit(at + f.prec)) by (nonlinear_arith)
            requires
                unit(at + 1 + f.prec) == 2 * unit(at + f.prec),
                unit(at + f.prec) > 0,
                den > 0,
        ;
        lemma_quantum_from(f, num, den, at + 1)
    }
}

/// The nearest whole numbers of two quantities lie in the order of the quantities.
pub proof fn lemma_nearest_even_mono(a: nat, b: nat, c: nat, d: nat)
    requires
        b > 0,
        d > 0,
        a * d <= c * b,
    ensures
        nearest_even(a, b) <= nearest_even(c, d),
{
    let l1 = a / b;
    let r1 = a % b;
    let l2 = c / d;
    let r2 = c % d;
    vstd::arithmetic::div_mod::lemma_fundamental_div_mod(a as int, b as int);
    vstd::arithmetic::div_mod::lemma_fundamental_div_mod(c as int, d as int);
    // a = b l1 + r1 and c = d l2 + r2
    assert((b * l1 + r1) * d <= (d * l2 + r2) * b);
    assert((b * l1 + r1) * d == (b * d) * l1 + r1 * d) by (nonlinear_arith);
    assert((d * l2 + r2) * b == (b * d) * l2 + r2 * b) by (nonlinear_arith);
    assert(r2 * b < b * d) by (nonlinear_arith)
        requires
            r2 < d,
            b > 0,
    ;
    assert(r1 * d >= 0) by (nonlinear_arith);
    if l1 > l2 {
        assert((b * d) * l1 >= (b * d) * l2 + b * d) by (nonlinear_arith)
            requires
                l1 >= l2 + 1,
        ;
    } else if l1 == l2 {
        assert(r1 * d <= r2 * b);
        if 2 * r1 >= b {
            assert(2 * (r1 * d) >= b * d) by (nonlinear_arith)
                requires
                    2 * r1 >= b,
            ;
            assert(2 * r2 >= d) by (nonlinear_arith)
                requires
                    2 * (r2 * b) >= b * d,
                    b > 0,
            ;
        }
        if 2 * r1 > b {
            assert(2 * (r1 * d) > b * d) by (nonlinear_arith)
                requires
                    2 * r1 > b,
                    d > 0,
            ;
            assert(2 * r2 > d) by (nonlinear_arith)
                requires
                    2 * (r2 * b) > b * d,
                    b > 0,
            ;
        }
    }
}

/// What the rounded significand can be, and where it leads.
pub proof fn lemma_round_parts(f: Format, neg: bool, num: nat, den: nat) -> (v: nat)
    requires
        f.valid(),
        den > 0,
    ensures
        ({
            let q = quantum(f, num, den);
            let m = nearest_even(num, den * unit(q));
            let r = round(f, neg, num, den);
            let limit = unit(f.emax + f.prec);
            &&& is_quantum(f, num, den, q)
            &&& m <= pow2(f.prec as nat)
            &&& q > f.emin ==> m >= pow2((f.prec - 1) as nat)
            &&& v == m * unit(q)
            &&& limit <= unit(1100)
            &&& r.canonical(f)
            &&& v >= limit ==> r == (Parts::Infinite { neg })
            &&& v < limit ==> r is Finite && r.steps() == if neg {
                -(v as int)
            } else {
                v as int
            }
        }),
{
    let q = lemma_quantum_exists(f, num, den);
    let u = unit(q);
    let p = pow2(f.prec as nat);
    let h = pow2((f.prec - 1) as nat);
    lemma_unit_pos(q);
    lemma_pow2_unfold(f.prec as nat);
    lemma_pow2_pos((f.prec - 1) as nat);
    lemma_unit_shift(q, f.prec as nat);
    lemma_unit_shift(q, (f.prec - 1) as nat);
    let d = den * u;
    assert(d > 0) by (nonlinear_arith)
        requires
            den > 0,
            u > 0,
            d == den * u,
    ;
    let m = nearest_even(num, d);
    lemma_nearest_even_exact(p, d);
    assert(num * d <= (d * p) * d) by (nonlinear_arith)
        requires
            num <= den * (p * u),
            d == den * u,
            d > 0,
    ;
    lemma_nearest_even_mono(num, d, d * p, d);
    if q > f.emin {
        lemma_nearest_even_exact(h, d);
        assert((d * h) * d <= num * d) by (nonlinear_arith)
            requires
                den * (h * u) <= num,
                d == den * u,
                d > 0,
        ;
        lemma_nearest_even_mono(d * h, d, num, d);
    }
    let v = m * u;
    let limit = unit(f.emax + f.prec);
    lemma_unit_mono(f.emax + f.prec, 1100);
    lemma2_to64();
    lemma2_to64_rest();
    lemma_pow2_mono(f.prec as nat, 53);
    assert(m == p ==> v == unit(q + f.prec));
    if q > f.emin {
        assert(v >= h * u) by (nonlinear_arith)
            requires
                v == m * u,
                m >= h,
        ;
    }
    if m < p {
        assert(v < p * u) by (nonlinear_arith)
            requires
                v == m * u,
                m < p,
                u > 0,
        ;
    }
    if q > f.emax {
        lemma_unit_mono(f.emax + f.prec, q + f.prec - 1);
    } else if q == f.emax {
    } else {
        lemma_unit_mono(q + f.prec, f.emax + f.prec - 1);
        lemma_unit_shift(f.emax + f.prec - 1, 1);
        lemma_unit_pos(f.emax + f.prec - 1);
        if m == p {
            lemma_unit_shift(q, 1);
            assert(h * unit(q + 1) == p * u) by (nonlinear_arith)
                requires
                    unit(q + 1) == 2 * u,
                    p == 2 * h,
            ;
        }
    }
    v
}

/// The rounded quantities of two quantities lie in their order.
pub proof fn lemma_round_mono(f: Format, n1: nat, d1: nat, n2: nat, d2: nat)
    requires
        f.valid(),
        d1 > 0,
        d2 > 0,
        n1 * d2 <= n2 * d1,
    ensures
        0 <= key(round(f, false, n1, d1)) <= key(round(f, false, n2, d2)),
{
    let v1 = lemma_round_parts(f, false, n1, d1);
    let v2 = lemma_round_parts(f, false, n2, d2);
    let q1 = quantum(f, n1, d1);
    let q2 = quantum(f, n2, d2);
    let u1 = unit(q1);
    let u2 = unit(q2);
    lemma_unit_pos(q1);
    lemma_unit_pos(q2);
    let m1 = nearest_even(n1, d1 * u1);
    let m2 = nearest_even(n2, d2 * u2);
    if q1 > q2 {
        let w = unit(q2 + f.prec);
        lemma_unit_mono(q2 + f.prec, q1 + f.prec - 1);
        assert(n2 * d1 < n1 * d2) by (nonlinear_arith)
            requires
                n2 < d2 * w,
                d1 * unit(q1 + f.prec - 1) <= n1,
                w <= unit(q1 + f.prec - 1),
                d1 > 0,
                d2 > 0,
        ;
    } else if q1 == q2 {
        assert(d1 * u1 > 0 && d2 * u1 > 0) by (nonlinear_arith)
            requires
                d1 > 0,
                d2 > 0,
                u1 > 0,
        ;
        assert(n1 * (d2 * u1) <= n2 * (d1 * u1)) by (nonlinear_arith)
            requires
                n1 * d2 <= n2 * d1,
        ;
        lemma_nearest_even_mono(n1, d1 * u1, n2, d2 * u1);
        assert(m1 * u1 <= m2 * u1) by (nonlinear_arith)
            requires
                m1 <= m2,
        ;
    } else {
        lemma_unit_shift(q1, f.prec as nat);
        lemma_unit_shift(q2, (f.prec - 1) as nat);
        lemma_unit_mono(q1 + f.prec, q2 + f.prec - 1);
        assert(m1 * u1 <= pow2(f.prec as nat) * u1) by (nonlinear_arith)
            requires
                m1 <= pow2(f.prec as nat),
        ;
        assert(pow2((f.prec - 1) as nat) * u2 <= m2 * u2) by (nonlinear_arith)
            requires
                m2 >= pow2((f.prec - 1) as nat),
        ;
    }
    assert(v1 <= v2);
}

/// The sign only changes the side.
pub proof fn lemma_round_sign(f: Format, num: nat, den: nat)
    requires
        f.valid(),
        den > 0,
    ensures
        key(round(f, true, num, den)) == -key(round(f, false, num, den)),
        0 <= key(round(f, false, num, den)) <= beyond(),
        round(f, true, num, den).canonical(f),
        round(f, false, num, den).canonical(f),
        round(f, true, num, den) !is Nan,
        round(f, false, num, den) !is Nan,
{
    let v1 = lemma_round_parts(f, true, num, den);
    let v2 = lemma_round_parts(f, false, num, den);
}

/// A finite number lies within the places of the infinities.
pub proof fn lemma_key_bound(f: Format, p: Parts)
    requires
        f.valid(),
        p.canonical(f),
    ensures
        -beyond() <= key(p) <= beyond(),
        p is Finite ==> -beyond() < key(p) < beyond(),
        beyond() > 0,
{
    lemma_unit_pos(1100);
    if let Parts::Finite { neg, mant, exp } = p {
        let u = unit(exp as int);
        lemma_unit_pos(exp as int);
        lemma_unit_shift(exp as int, f.prec as nat);
        lemma_unit_mono(exp + f.prec, 1099);
        lemma_unit_shift(1099, 1);
        lemma_unit_pos(1099);
        lemma2_to64();
        assert(mant as nat * u < pow2(f.prec as nat) * u) by (nonlinear_arith)
            requires
                mant < pow2(f.prec as nat),
                u > 0,
        ;
        assert(mant as nat * u >= 0) by (nonlinear_arith);
    }
}

/// The order of numbers is that of their places.
pub proof fn lemma_order_is_key(f: Format, a: Parts, b: Parts)
    requires
        f.valid(),
        a.canonical(f),
        b.canonical(f),
        a !is Nan,
        b !is Nan,
    ensures
        less(a, b) == (key(a) < key(b)),
        equal(a, b) == (key(a) == key(b)),
{
    lemma_key_bound(f, a);
    lemma_key_bound(f, b);
}

pub proof fn lemma_key_negated(a: Parts)
    ensures
        key(negated(a)) == -key(a),
{
}

pub proof fn lemma_negated_canonical(f: Format, a: Parts)
    requires
        a.canonical(f),
    ensures
        negated(a).canonical(f),
{
}

/// Rounding a value with its sign.
pub open spec fn signed_round(f: Format, s: int) -> int {
    if s < 0 {
        -key(round(f, false, abs(s), 1))
    } else {
        key(round(f, false, abs(s), 1))
    }
}

proof fn lemma_signed_round_mono(f: Format, s: int, t: int)
    requires
        f.valid(),
        s <= t,
    ensures
        signed_round(f, s) <= signed_round(f, t),
        -beyond() <= signed_round(f, s) <= beyond(),
{
    lemma_round_sign(f, abs(s), 1);
    lemma_round_sign(f, abs(t), 1);
    if s >= 0 {
        lemma_round_mono(f, abs(s), 1, abs(t), 1);
    } else if t < 0 {
        lemma_round_mono(f, abs(t), 1, abs(s), 1);
    }
}

/// The place of a sum.
pub proof fn lemma_sum_key(f: Format, a: Parts, b: Parts)
    requires
        f.valid(),
        a.canonical(f),
        b.canonical(f),
    ensures
        sum(f, a, b).canonical(f),
        a is Finite && b is Finite ==> sum(f, a, b) !is Nan && key(sum(f, a, b)) == signed_round(
            f,
            key(a) + key(b),
        ),
{
    if a is Finite && b is Finite {
        lemma_round_sign(f, abs(a.steps() + b.steps()), 1);
        if a.steps() + b.steps() == 0 {
            lemma_zero_rounds(f);
        }
    }
}

/// Nothing rounds to nothing.
pub proof fn lemma_zero_rounds(f: Format)
    requires
        f.valid(),
    ensures
        key(round(f, false, 0, 1)) == 0,
        key(round(f, true, 0, 1)) == 0,
{
    let v = lemma_round_parts(f, false, 0, 1);
    let q = quantum(f, 0, 1);
    lemma_unit_pos(q);
    lemma_unit_pos(f.emax + f.prec);
    lemma_nearest_even_exact(0, 1 * unit(q));
    assert((1 * unit(q)) * 0 == 0) by (nonlinear_arith);
    assert(0 * unit(q) == 0) by (nonlinear_arith);
    assert(v == 0);
    lemma_round_sign(f, 0, 1);
}

/// A sum grows with its terms.
pub proof fn lemma_sum_mono(f: Format, a: Parts, b: Parts, c: Parts, d: Parts)
    requires
        f.valid(),
        a.canonical(f),
        b.canonical(f),
        c.canonical(f),
        d.canonical(f),
        a !is Nan,
        b !is Nan,
        c !is Nan,
        d !is Nan,
        key(a) <= key(c),
        key(b) <= key(d),
        sum(f, a, b) !is Nan,
        sum(f, c, d) !is Nan,
    ensures
        key(sum(f, a, b)) <= key(sum(f, c, d)),
{
    lemma_key_bound(f, a);
    lemma_key_bound(f, b);
    lemma_key_bound(f, c);
    lemma_key_bound(f, d);
    lemma_sum_key(f, a, b);
    lemma_sum_key(f, c, d);
    lemma_key_bound(f, sum(f, a, b));
    lemma_key_bound(f, sum(f, c, d));
    if a is Finite && b is Finite && c is Finite && d is Finite {
        lemma_signed_round_mono(f, key(a) + key(b), key(c) + key(d));
    }
}

/// The place of a product.
pub proof fn lemma_product_key(f: Format, a: Parts, c: Parts) -> (num: nat)
    requires
        f.valid(),
        a.canonical(f),
        c.canonical(f),
        a is Finite,
        c is Finite,
    ensures
        product(f, a, c) !is Nan,
        product(f, a, c).canonical(f),
        num * unit(0) == abs(key(a)) * abs(key(c)),
        key(product(f, a, c)) == if (key(a) < 0) != (key(c) < 0) {
            -key(round(f, false, num, 1))
        } else {
            key(round(f, false, num, 1))
        },
{
    match (a, c) {
        (Parts::Finite { neg: x, mant: m, exp: d }, Parts::Finite { neg: y, mant: n, exp: e }) => {
            let num = magnitude((m * n) as nat, d + e);
            lemma_round_sign(f, num, 1);
            lemma_zero_rounds(f);
            lemma_unit_pos(d as int);
            lemma_unit_pos(e as int);
            lemma_unit_pos(0);
            lemma_pow2_adds((d + GRID) as nat, (e + GRID) as nat);
            lemma_pow2_adds((d + e + GRID) as nat, GRID as nat);
            assert((d + GRID) as nat + (e + GRID) as nat == (d + e + GRID) as nat + GRID as nat);
            assert(unit(d as int) * unit(e as int) == unit(d + e) * unit(0));
            assert(0 <= m * n) by (nonlinear_arith);
            assert(num * unit(0) == magnitude(m as nat, d as int) * magnitude(n as nat, e as int))
                by (nonlinear_arith)
                requires
                    num == (m * n) * unit(d + e),
                    unit(d as int) * unit(e as int) == unit(d + e) * unit(0),
                    magnitude(m as nat, d as int) == m as nat * unit(d as int),
                    magnitude(n as nat, e as int) == n as nat * unit(e as int),
            ;
            lemma_magnitude_sign(m as nat, d as int);
            lemma_magnitude_sign(n as nat, e as int);
            if m == 0 || n == 0 {
                assert(num == 0) by (nonlinear_arith)
                    requires
                        num == (m * n) * unit(d + e),
                        m == 0 || n == 0,
                ;
            }
            num
        },
        _ => 0,
    }
}

pub proof fn lemma_magnitude_sign(m: nat, e: int)
    ensures
        magnitude(m, e) == 0 <==> m == 0,
{
    lemma_unit_pos(e);
    assert(m * unit(e) == 0 <==> m == 0) by (nonlinear_arith)
        requires
            unit(e) > 0,
    ;
}

/// A product with a positive factor grows with the other one.
pub proof fn lemma_product_mono(f: Format, a: Parts, b: Parts, c: Parts)
    requires
        f.valid(),
        a.canonical(f),
        b.canonical(f),
        c.canonical(f),
        a !is Nan,
        b !is Nan,
        c is Finite,
        key(a) <= key(b),
        key(c) > 0,
    ensures
        product(f, a, c) !is Nan,
        product(f, b, c) !is Nan,
        product(f, a, c).canonical(f),
        product(f, b, c).canonical(f),
        key(product(f, a, c)) <= key(product(f, b, c)),
        key(a) == 0 ==> key(product(f, a, c)) == 0,
{
    lemma_key_bound(f, a);
    lemma_key_bound(f, b);
    if let Parts::Finite { neg: y, mant: n, exp: e } = c {
        lemma_magnitude_sign(n as nat, e as int);
    }
    lemma_zero_rounds(f);
    lemma_unit_pos(0);
    if a is Finite {
        let n = lemma_product_key(f, a, c);
        lemma_round_sign(f, n, 1);
        if key(a) == 0 {
            assert(n == 0) by (nonlinear_arith)
                requires
                    n * unit(0) == abs(key(a)) * abs(key(c)),
                    abs(key(a)) == 0,
                    unit(0) > 0,
            ;
        }
        lemma_key_bound(f, product(f, a, c));
    }
    if b is Finite {
        let n = lemma_product_key(f, b, c);
        lemma_round_sign(f, n, 1);
        lemma_key_bound(f, product(f, b, c));
    }
    if a is Finite && b is Finite {
        let n1 = lemma_product_key(f, a, c);
        let n2 = lemma_product_key(f, b, c);
        lemma_round_sign(f, n1, 1);
        lemma_round_sign(f, n2, 1);
        let k = abs(key(c));
        if key(a) >= 0 {
            assert(n1 <= n2) by (nonlinear_arith)
                requires
                    n1 * unit(0) == abs(key(a)) * k,
                    n2 * unit(0) == abs(key(b)) * k,
                    abs(key(a)) <= abs(key(b)),
                    unit(0) > 0,
            ;
            lemma_round_mono(f, n1, 1, n2, 1);
        } else if key(b) < 0 {
            assert(n2 <= n1) by (nonlinear_arith)
                requires
                    n1 * unit(0) == abs(key(a)) * k,
                    n2 * unit(0) == abs(key(b)) * k,
                    abs(key(b)) <= abs(key(a)),
                    unit(0) > 0,
            ;
            lemma_round_mono(f, n2, 1, n1, 1);
        }
    }
}

/// The place of a quotient by a positive number.
pub proof fn lemma_quotient_key(f: Format, a: Parts, c: Parts)
    requires
        f.valid(),
        a.canonical(f),
        c.canonical(f),
        a is Finite,
        c is Finite,
        key(c) > 0,
    ensures
        quotient(f, a, c) !is Nan,
        quotient(f, a, c).canonical(f),
        key(quotient(f, a, c)) == if key(a) < 0 {
            -key(round(f, false, abs(key(a)) * unit(0), abs(key(c))))
        } else {
            key(round(f, false, abs(key(a)) * unit(0), abs(key(c))))
        },
        key(a) == 0 ==> key(quotient(f, a, c)) == 0,
{
    match (a, c) {
        (Parts::Finite { neg: x, mant: m, exp: d }, Parts::Finite { neg: y, mant: n, exp: e }) => {
            lemma_magnitude_sign(m as nat, d as int);
            lemma_magnitude_sign(n as nat, e as int);
            let num = magnitude(m as nat, d as int) * unit(0);
            let den = magnitude(n as nat, e as int);
            lemma_round_sign(f, num, den);
            if m == 0 {
                assert(num == 0) by (nonlinear_arith)
                    requires
                        num == magnitude(m as nat, d as int) * unit(0),
                        magnitude(m as nat, d as int) == 0,
                ;
                lemma_zero_rounds(f);
                lemma_round_mono(f, 0, den, 0, 1);
                assert(0 * 1 <= 0 * den && 0 * den <= 0 * 1) by (nonlinear_arith);
            }
        },
        _ => {},
    }
}

/// A quotient by a positive number grows with the dividend.
pub proof fn lemma_quotient_mono(f: Format, a: Parts, b: Parts, c: Parts)
    requires
        f.valid(),
        a.canonical(f),
        b.canonical(f),
        c.canonical(f),
        a !is Nan,
        b !is Nan,
        c is Finite,
        key(a) <= key(b),
        key(c) > 0,
    ensures
        quotient(f, a, c) !is Nan,
        quotient(f, b, c) !is Nan,
        quotient(f, a, c).canonical(f),
        quotient(f, b, c).canonical(f),
        key(quotient(f, a, c)) <= key(quotient(f, b, c)),
        key(a) == 0 ==> key(quotient(f, a, c)) == 0,
{
    lemma_key_bound(f, a);
    lemma_key_bound(f, b);
    let den = abs(key(c));
    if a is Finite {
        lemma_quotient_key(f, a, c);
        lemma_key_bound(f, quotient(f, a, c));
        lemma_round_sign(f, abs(key(a)) * unit(0), den);
    }
    if b is Finite {
        lemma_quotient_key(f, b, c);
        lemma_key_bound(f, quotient(f, b, c));
        lemma_round_sign(f, abs(key(b)) * unit(0), den);
    }
    if a is Finite && b is Finite {
        let x = abs(key(a)) * unit(0);
        let y = abs(key(b)) * unit(0);
        if key(a) >= 0 {
            assert(x * den <= y * den) by (nonlinear_arith)
                requires
                    x == abs(key(a)) * unit(0),
                    y == abs(key(b)) * unit(0),
                    abs(key(a)) <= abs(key(b)),
            ;
            lemma_round_mono(f, x, den, y, den);
        } else if key(b) < 0 {
            assert(y * den <= x * den) by (nonlinear_arith)
                requires
                    x == abs(key(a)) * unit(0),
                    y == abs(key(b)) * unit(0),
                    abs(key(b)) <= abs(key(a)),
            ;
            lemma_round_mono(f, y, den, x, den);
        }
    }
}

/// Whole numbers keep their order.
pub proof fn lemma_whole_mono(f: Format, a: nat, b: nat)
    requires
        f.valid(),
        a <= b,
    ensures
        whole(f, a).canonical(f),
        whole(f, b).canonical(f),
        whole(f, a) !is Nan,
        whole(f, b) !is Nan,
        0 <= key(whole(f, a)) <= key(whole(f, b)),
{
    assert(a * unit(0) <= b * unit(0)) by (nonlinear_arith)
        requires
            a <= b,
    ;
    lemma_round_sign(f, magnitude(a, 0), 1);
    lemma_round_sign(f, magnitude(b, 0), 1);
    lemma_round_mono(f, magnitude(a, 0), 1, magnitude(b, 0), 1);
}

/// Another format keeps the order.
pub proof fn lemma_converted_mono(f: Format, g: Format, a: Parts, b: Parts)
    requires
        f.valid(),
        g.valid(),
        a.canonical(f),
        b.canonical(f),
        a !is Nan,
        b !is Nan,
        key(a) <= key(b),
    ensures
        converted(g, a).canonical(g),
        converted(g, b).canonical(g),
        converted(g, a) !is Nan,
        converted(g, b) !is Nan,
        key(converted(g, a)) <= key(converted(g, b)),
        key(a) == 0 ==> key(converted(g, a)) == 0,
{
    lemma_key_bound(f, a);
    lemma_key_bound(f, b);
    lemma_zero_rounds(g);
    lemma_converted_key(g, a);
    lemma_converted_key(g, b);
    lemma_key_bound(g, converted(g, a));
    lemma_key_bound(g, converted(g, b));
    if a is Finite && b is Finite {
        lemma_signed_round_mono(g, key(a), key(b));
    }
}

pub proof fn lemma_converted_key(g: Format, a: Parts)
    requires
        g.valid(),
    ensures
        converted(g, a).canonical(g),
        a !is Nan ==> converted(g, a) !is Nan,
        a is Finite ==> key(converted(g, a)) == signed_round(g, key(a)),
{
    if let Parts::Finite { neg, mant, exp } = a {
        lemma_round_sign(g, magnitude(mant as nat, exp as int), 1);
        lemma_zero_rounds(g);
    }
}

/// The integers that numbers become keep their order.
pub proof fn lemma_truncated_mono(f: Format, a: Parts, b: Parts)
    requires
        f.valid(),
        a.canonical(f),
        b.canonical(f),
        a !is Nan,
        b !is Nan,
        key(a) <= key(b),
    ensures
        truncated(a) <= truncated(b),
        key(a) <= 0 ==> truncated(a) == 0,
{
    lemma_key_bound(f, a);
    lemma_key_bound(f, b);
    lemma_unit_pos(0);
    let u = unit(0) as int;
    if let Parts::Finite { neg, mant, exp } = a {
        let x = magnitude(mant as nat, exp as int) as int;
        vstd::arithmetic::div_mod::lemma_div_pos_is_pos(x, u);
        if let Parts::Finite { neg: n2, mant: m2, exp: e2 } = b {
            let y = magnitude(m2 as nat, e2 as int) as int;
            vstd::arithmetic::div_mod::lemma_div_pos_is_pos(y, u);
            if x <= y {
                vstd::arithmetic::div_mod::lemma_div_is_ordered(x, y, u);
            }
        }
        if x == 0 {
            vstd::arithmetic::div_mod::lemma_basic_div(0, u);
        }
    }
}

/// The nearest whole numbers keep their order.
pub proof fn lemma_nearest_whole_mono(f: Format, a: Parts, b: Parts)
    requires
        f.valid(),
        a.canonical(f),
        b.canonical(f),
        a !is Nan,
        b !is Nan,
        key(a) <= key(b),
    ensures
        nearest_whole(f, a).canonical(f),
        nearest_whole(f, b).canonical(f),
        nearest_whole(f, a) !is Nan,
        nearest_whole(f, b) !is Nan,
        key(nearest_whole(f, a)) <= key(nearest_whole(f, b)),
{
    lemma_key_bound(f, a);
    lemma_key_bound(f, b);
    lemma_nearest_whole_key(f, a);
    lemma_nearest_whole_key(f, b);
    lemma_key_bound(f, nearest_whole(f, a));
    lemma_key_bound(f, nearest_whole(f, b));
    if a is Finite && b is Finite {
        let n1 = whole_of(abs(key(a)));
        let n2 = whole_of(abs(key(b)));
        lemma_round_sign(f, magnitude(n1, 0), 1);
        lemma_round_sign(f, magnitude(n2, 0), 1);
        lemma_unit_pos(0);
        if key(a) >= 0 {
            lemma_whole_of_mono(abs(key(a)), abs(key(b)));
            lemma_whole_mono(f, n1, n2);
        } else if key(b) < 0 {
            lemma_whole_of_mono(abs(key(b)), abs(key(a)));
            lemma_whole_mono(f, n2, n1);
        }
    }
}

/// The whole number nearest to so many steps.
pub open spec fn whole_of(steps: nat) -> nat {
    (2 * steps + unit(0)) / (2 * unit(0))
}

proof fn lemma_whole_of_mono(a: nat, b: nat)
    requires
        a <= b,
    ensures
        whole_of(a) <= whole_of(b),
{
    lemma_unit_pos(0);
    vstd::arithmetic::div_mod::lemma_div_is_ordered(
        (2 * a + unit(0)) as int,
        (2 * b + unit(0)) as int,
        2 * unit(0) as int,
    );
}

pub proof fn lemma_nearest_whole_key(f: Format, a: Parts)
    requires
        f.valid(),
        a.canonical(f),
    ensures
        nearest_whole(f, a).canonical(f),
        a !is Nan ==> nearest_whole(f, a) !is Nan,
        a is Finite ==> key(nearest_whole(f, a)) == if key(a) < 0 {
            -key(round(f, false, magnitude(whole_of(abs(key(a))), 0), 1))
        } else {
            key(round(f, false, magnitude(whole_of(abs(key(a))), 0), 1))
        },
{
    if let Parts::Finite { neg, mant, exp } = a {
        let n = whole_of(abs(key(a)));
        lemma_round_sign(f, magnitude(n, 0), 1);
        lemma_magnitude_sign(mant as nat, exp as int);
        if key(a) == 0 {
            lemma_unit_pos(0);
            vstd::arithmetic::div_mod::lemma_basic_div(unit(0) as int, 2 * unit(0) as int);
            assert(magnitude(0, 0) == 0) by (nonlinear_arith)
                requires
                    magnitude(0, 0) == 0 * unit(0),
            ;
            lemma_zero_rounds(f);
        }
    }
}

/// A number of the format rounds to itself.
pub proof fn lemma_signed_round_exact(f: Format, a: Parts)
    requires
        f.valid(),
        a.canonical(f),
        a is Finite,
    ensures
        signed_round(f, key(a)) == key(a),
{
    if let Parts::Finite { neg, mant, exp } = a {
        let m = magnitude(mant as nat, exp as int);
        lemma_round_exact(f, false, mant, exp, 1);
        assert(1 * m == m);
        lemma_magnitude_sign(mant as nat, exp as int);
    }
}

/// Integers from one on are positive and finite in both formats.
pub proof fn lemma_whole_bounds(f: Format, n: nat)
    requires
        f.valid(),
        n <= u64::MAX,
    ensures
        whole(f, n) is Finite,
        n >= 1 ==> key(whole(f, n)) >= unit(0),
{
    lemma_unit_pos(0);
    lemma_pow2_unfold(f.prec as nat);
    lemma_pow2_pos((f.prec - 1) as nat);
    lemma2_to64();
    lemma2_to64_rest();
    lemma_pow2_mono(f.prec as nat, 53);
    let h = pow2((f.prec - 1) as nat) as u64;
    // two to the power of 64, and one, are numbers of the format
    let top = Parts::Finite { neg: false, mant: h, exp: (65 - f.prec) as i32 };
    let one = Parts::Finite { neg: false, mant: h, exp: (1 - f.prec) as i32 };
    assert(top.canonical(f));
    assert(one.canonical(f));
    lemma_unit_shift(65 - f.prec, (f.prec - 1) as nat);
    lemma_unit_shift(1 - f.prec, (f.prec - 1) as nat);
    lemma_unit_shift(0, 64);
    assert(magnitude(pow2(64), 0) == key(top));
    assert(magnitude(1, 0) == unit(0)) by (nonlinear_arith)
        requires
            magnitude(1, 0) == 1 * unit(0),
    ;
    lemma_round_exact(f, false, h, (65 - f.prec) as i32, 1);
    lemma_round_exact(f, false, h, (1 - f.prec) as i32, 1);
    assert(1 * magnitude(h as nat, 65 - f.prec) == magnitude(h as nat, 65 - f.prec));
    assert(1 * magnitude(h as nat, 1 - f.prec) == magnitude(h as nat, 1 - f.prec));
    assert(whole(f, pow2(64)) == top);
    assert(whole(f, 1) == one);
    lemma_whole_mono(f, n, pow2(64));
    lemma_key_bound(f, top);
    if n >= 1 {
        lemma_whole_mono(f, 1, n);
    }
}

/// Multiplying a number that is not negative by one or more does not make it smaller, and by one or
/// less not larger.
pub proof fn lemma_product_scale(f: Format, a: Parts, c: Parts)
    requires
        f.valid(),
        a.canonical(f),
        c.canonical(f),
        a is Finite,
        c is Finite,
        key(a) >= 0,
        key(c) >= 0,
    ensures
        key(c) >= unit(0) ==> key(product(f, a, c)) >= key(a),
        key(c) <= unit(0) ==> 0 <= key(product(f, a, c)) <= key(a),
{
    let num = lemma_product_key(f, a, c);
    lemma_signed_round_exact(f, a);
    lemma_unit_pos(0);
    let k = abs(key(a));
    let l = abs(key(c));
    lemma_round_sign(f, num, 1);
    if key(c) >= unit(0) {
        assert(k <= num) by (nonlinear_arith)
            requires
                num * unit(0) == k * l,
                l >= unit(0),
                unit(0) > 0,
        ;
        lemma_round_mono(f, k, 1, num, 1);
    }
    if key(c) <= unit(0) {
        assert(num <= k) by (nonlinear_arith)
            requires
                num * unit(0) == k * l,
                l <= unit(0),
                unit(0) > 0,
        ;
        lemma_round_mono(f, num, 1, k, 1);
    }
}

/// The whole number nearest to zero is zero.
pub proof fn lemma_nearest_whole_zero(f: Format, a: Parts)
    requires
        f.valid(),
        a.canonical(f),
        a is Finite,
        key(a) == 0,
    ensures
        key(nearest_whole(f, a)) == 0,
{
    lemma_nearest_whole_key(f, a);
    lemma_unit_pos(0);
    vstd::arithmetic::div_mod::lemma_basic_div(unit(0) as int, 2 * unit(0) as int);
    assert(magnitude(0, 0) == 0) by (nonlinear_arith)
        requires
            magnitude(0, 0) == 0 * unit(0),
    ;
    lemma_zero_rounds(f);
}

/// The 64-bit format holds every number of the 32-bit one.
pub proof fn lemma_widened_exact(a: Parts)
    requires
        a.canonical(Format::single()),
        a is Finite,
    ensures
        converted(Format::double(), a) is Finite,
        converted(Format::double(), a).canonical(Format::double()),
        key(converted(Format::double(), a)) == key(a),
{
    let g = Format::double();
    lemma_converted_key(g, a);
    if let Parts::Finite { neg, mant, exp } = a {
        let mag = magnitude(mant as nat, exp as int);
        lemma2_to64();
        lemma2_to64_rest();
        if mant == 0 {
            lemma_magnitude_sign(0, exp as int);
            lemma_zero_rounds(g);
            lemma_key_bound(g, converted(g, a));
        } else {
            // the same value with all 53 digits
            let len = lemma_digit_count(mant as nat);
            if len > 24 {
                lemma_pow2_mono(24, (len - 1) as nat);
            }
            let s = (53 - len) as nat;
            lemma_pow2_adds(len, s);
            lemma_pow2_adds((len - 1) as nat, s);
            lemma_pow2_pos(s);
            let p = pow2(s);
            assert(pow2(52) <= mant as nat * p < pow2(53)) by (nonlinear_arith)
                requires
                    pow2((len - 1) as nat) <= mant < pow2(len),
                    pow2((len - 1) as nat) * p == pow2(52),
                    pow2(len) * p == pow2(53),
                    p > 0,
            ;
            let m = (mant as nat * p) as u64;
            let e = (exp - s) as i32;
            let b = Parts::Finite { neg: false, mant: m, exp: e };
            assert(b.canonical(g));
            lemma_unit_shift(exp - s, s);
            assert(magnitude(m as nat, e as int) == mag) by (nonlinear_arith)
                requires
                    m as nat == mant as nat * p,
                    magnitude(m as nat, e as int) == m as nat * unit(exp - s),
                    mag == mant as nat * unit(exp as int),
                    unit(exp as int) == p * unit(exp - s),
            ;
            lemma_signed_round_exact(g, b);
            lemma_key_bound(g, b);
            lemma_key_bound(g, converted(g, a));
            lemma_magnitude_sign(mant as nat, exp as int);
        }
    }
}

/// How many binary digits a number has.
pub proof fn lemma_digit_count(m: nat) -> (len: nat)
    requires
        m > 0,
    ensures
        len >= 1,
        pow2((len - 1) as nat) <= m < pow2(len),
    decreases m,
{
    lemma2_to64();
    if m == 1 {
        1
    } else {
        let len = lemma_digit_count(m / 2);
        lemma_pow2_unfold(len + 1);
        lemma_pow2_unfold(len);
        len + 1
    }
}

/// Rounding up does not make a number smaller.
pub proof fn lemma_ceiling_not_below(f: Format, a: Parts)
    requires
        f.valid(),
        a.canonical(f),
        a !is Nan,
        key(a) >= 0,
    ensures
        ceiling(f, a).canonical(f),
        ceiling(f, a) !is Nan,
        key(ceiling(f, a)) >= key(a),
{
    if let Parts::Finite { neg, mant, exp } = a {
        let m = magnitude(mant as nat, exp as int);
        let u = unit(0);
        lemma_unit_pos(0);
        let n = if neg || m % u == 0 {
            m / u
        } else {
            m / u + 1
        };
        lemma_round_sign(f, magnitude(n, 0), 1);
        vstd::arithmetic::div_mod::lemma_fundamental_div_mod(m as int, u as int);
        lemma_magnitude_sign(mant as nat, exp as int);
        if mant == 0 {
            vstd::arithmetic::div_mod::lemma_basic_div(0, u as int);
            lemma_magnitude_sign(0, 0);
            lemma_zero_rounds(f);
            vstd::arithmetic::div_mod::lemma_small_mod(0, u);
        } else {
            assert(magnitude(n, 0) >= m) by (nonlinear_arith)
                requires
                    magnitude(n, 0) == n * u,
                    m == u * (m / u) + m % u,
                    0 <= m % u < u,
                    n == if m % u == 0 {
                        m / u
                    } else {
                        m / u + 1
                    },
            ;
            lemma_signed_round_exact(f, a);
            lemma_round_mono(f, m, 1, magnitude(n, 0), 1);
        }
    }
}

} // verus!
