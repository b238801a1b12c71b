//! Each operation gives the number of its format that is nearest to the exact result.
use crate::float::accuracy::lemma_abs_product;
use crate::float::arith::{abs, negated, product, quotient, sum};
use crate::float::convert::{converted, whole};
use crate::float::double::Double;
use crate::float::grid::{lemma_unit_mono, lemma_unit_pos, lemma_unit_shift, unit};
use crate::float::monotone::{
    key, lemma_converted_key, lemma_key_bound, lemma_key_negated, lemma_magnitude_sign,
    lemma_negated_canonical, lemma_product_key, lemma_quotient_key, lemma_round_parts,
    lemma_round_sign, lemma_sum_key, lemma_zero_rounds,
};
use crate::float::rounding::{magnitude, nearest_even, quantum, round, Format, Parts};
use crate::float::single::Single;
use vstd::arithmetic::power2::{lemma2_to64, lemma_pow2_pos, pow2};
use vstd::prelude::*;

verus! {

/// A result is the best that a format can give of `exact / den`, next to any other number of it: where it is
/// finite no other is nearer, and where it is not the exact result is beyond all of them, on its side.
pub open spec fn is_best(result: int, finite: bool, other: int, exact: int, den: int) -> bool {
    if finite {
        abs(result * den - exact) <= abs(other * den - exact)
    } else {
        abs(other * den) < abs(exact) && (result > 0) == (exact > 0)
    }
}

/// No multiple is nearer than the nearest.
proof fn lemma_nearest_multiple(num: nat, d: nat, k: int)
    requires
        d > 0,
    ensures
        abs(nearest_even(num, d) * d - num) <= abs(k * d - num),
{
    let m = nearest_even(num, d) as int;
    let low = num / d;
    vstd::arithmetic::div_mod::lemma_fundamental_div_mod(num as int, d as int);
    assert(d * low == low * d) by (nonlinear_arith);
    assert((low + 1) * d == low * d + d) by (nonlinear_arith);
    let e = m * d - num;
    assert(-(d as int) <= 2 * e <= d);
    if k > m {
        assert(k * d >= m * d + d) by (nonlinear_arith)
            requires
                k >= m + 1,
                d > 0,
        ;
    } else if k < m {
        assert(k * d <= m * d - d) by (nonlinear_arith)
            requires
                k <= m - 1,
                d > 0,
        ;
    }
}

/// No number of the format is nearer to a quantity than the one that it is rounded to.
proof fn lemma_round_nearest(f: Format, num: nat, den: nat, mant: nat, exp: int)
    requires
        f.valid(),
        den > 0,
        mant < pow2(f.prec as nat),
        f.emin <= exp,
        round(f, false, num, den) is Finite,
    ensures
        abs(key(round(f, false, num, den)) * den - num) <= abs(magnitude(mant, exp) * den - num),
{
    let v = lemma_round_parts(f, false, num, den);
    let q = quantum(f, num, den);
    let u = unit(q);
    let d = den * u;
    let c = magnitude(mant, exp);
    lemma_unit_pos(q);
    lemma_unit_pos(exp);
    assert(d > 0) by (nonlinear_arith)
        requires
            d == den * u,
            den > 0,
            u > 0,
    ;
    let m = nearest_even(num, d);
    assert(v * den == m * d) by (nonlinear_arith)
        requires
            v == m * u,
            d == den * u,
    ;
    if exp >= q {
        let s = (exp - q) as nat;
        lemma_unit_shift(q, s);
        let k = mant * pow2(s);
        assert(c * den == k * d) by (nonlinear_arith)
            requires
                c == mant * (pow2(s) * u),
                k == mant * pow2(s),
                d == den * u,
        ;
        lemma_nearest_multiple(num, d, k as int);
    } else {
        let h = pow2((f.prec - 1) as nat);
        lemma_unit_shift(q, (f.prec - 1) as nat);
        lemma_unit_shift(exp, f.prec as nat);
        lemma_unit_mono(exp + f.prec, q + f.prec - 1);
        assert(c * den <= h * d) by (nonlinear_arith)
            requires
                c == mant * unit(exp),
                mant < pow2(f.prec as nat),
                pow2(f.prec as nat) * unit(exp) <= h * u,
                d == den * u,
                unit(exp) > 0,
        ;
        assert(den * (h * u) == h * d) by (nonlinear_arith)
            requires
                d == den * u,
        ;
        lemma_nearest_multiple(num, d, h as int);
    }
}

/// A quantity that is rounded to an infinity is beyond all numbers of the format.
proof fn lemma_round_beyond(f: Format, num: nat, den: nat, mant: nat, exp: int)
    requires
        f.valid(),
        den > 0,
        mant < pow2(f.prec as nat),
        f.emin <= exp <= f.emax,
        round(f, false, num, den) !is Finite,
    ensures
        magnitude(mant, exp) * den < num,
{
    let v = lemma_round_parts(f, false, num, den);
    let q = quantum(f, num, den);
    let (u, t, p) = (unit(q), unit(f.emax as int), pow2(f.prec as nat));
    let d = den * u;
    let c = magnitude(mant, exp);
    lemma_unit_pos(q);
    lemma_unit_pos(exp);
    lemma_unit_pos(f.emax as int);
    lemma_unit_mono(exp, f.emax as int);
    lemma_unit_shift(f.emax as int, f.prec as nat);
    lemma_unit_shift(q, f.prec as nat);
    assert(d > 0) by (nonlinear_arith)
        requires
            d == den * u,
            den > 0,
            u > 0,
    ;
    assert(c <= (p - 1) * t) by (nonlinear_arith)
        requires
            c == mant * unit(exp),
            0 <= mant <= p - 1,
            0 < unit(exp) <= t,
    ;
    if q > f.emax {
        lemma_unit_mono(f.emax + f.prec, q + f.prec - 1);
        assert(c * den < num) by (nonlinear_arith)
            requires
                c <= (p - 1) * t,
                p * t <= unit(q + f.prec - 1),
                den * unit(q + f.prec - 1) <= num,
                t > 0,
                den > 0,
        ;
    } else if q == f.emax {
        let m = nearest_even(num, d);
        let low = num / d;
        assert(m >= p) by (nonlinear_arith)
            requires
                m * u >= p * u,
                u > 0,
        ;
        vstd::arithmetic::div_mod::lemma_fundamental_div_mod(num as int, d as int);
        assert(2 * num > 2 * ((p - 1) * d)) by (nonlinear_arith)
            requires
                num == d * low + num % d,
                low >= p || (low + 1 >= p && 2 * (num % d) >= d),
                num % d >= 0,
                d > 0,
        ;
        assert(c * den <= (p - 1) * d) by (nonlinear_arith)
            requires
                c <= (p - 1) * t,
                t == u,
                d == den * u,
                den > 0,
        ;
    } else {
        lemma_unit_mono(q + f.prec, f.emax + f.prec - 1);
        lemma_unit_shift(f.emax + f.prec - 1, 1);
        lemma_unit_pos(f.emax + f.prec - 1);
        lemma2_to64();
        let m = nearest_even(num, d);
        assert(m * u <= p * u) by (nonlinear_arith)
            requires
                m <= p,
        ;
    }
}

/// The number with the sign of an exact result that its size is rounded to is the best.
proof fn lemma_signed_best(f: Format, exact: int, den: int, r: Parts, c: Parts)
    requires
        f.valid(),
        den > 0,
        c.canonical(f),
        c is Finite,
        r.canonical(f),
        r !is Nan,
        key(r) == if exact < 0 {
            -key(round(f, false, abs(exact), den as nat))
        } else {
            key(round(f, false, abs(exact), den as nat))
        },
    ensures
        is_best(key(r), r is Finite, key(c), exact, den),
{
    let t = round(f, false, abs(exact), den as nat);
    lemma_round_sign(f, abs(exact), den as nat);
    lemma_key_bound(f, r);
    lemma_key_bound(f, t);
    if let Parts::Finite { neg, mant, exp } = c {
        let v = key(t);
        let m = magnitude(mant as nat, exp as int) as int;
        assert((-v) * den == -(v * den) && (-m) * den == -(m * den)) by (nonlinear_arith);
        assert(m * den >= 0) by (nonlinear_arith)
            requires
                m >= 0,
                den > 0,
        ;
        if t is Finite {
            lemma_round_nearest(f, abs(exact), den as nat, mant as nat, exp as int);
        } else {
            lemma_round_beyond(f, abs(exact), den as nat, mant as nat, exp as int);
        }
    }
}

proof fn lemma_sum_best(f: Format, a: Parts, b: Parts, c: Parts)
    requires
        f.valid(),
        a.canonical(f),
        b.canonical(f),
        c.canonical(f),
        a is Finite,
        b is Finite,
        c is Finite,
    ensures
        sum(f, a, b).canonical(f),
        sum(f, a, b) !is Nan,
        is_best(key(sum(f, a, b)), sum(f, a, b) is Finite, key(c), key(a) + key(b), 1),
{
    lemma_sum_key(f, a, b);
    lemma_signed_best(f, key(a) + key(b), 1, sum(f, a, b), c);
}

proof fn lemma_product_best(f: Format, a: Parts, b: Parts, c: Parts)
    requires
        f.valid(),
        a.canonical(f),
        b.canonical(f),
        c.canonical(f),
        a is Finite,
        b is Finite,
        c is Finite,
    ensures
        product(f, a, b).canonical(f),
        product(f, a, b) !is Nan,
        is_best(
            key(product(f, a, b)) * unit(0),
            product(f, a, b) is Finite,
            key(c) * unit(0),
            key(a) * key(b),
            1,
        ),
{
    let u = unit(0) as int;
    let (x, y) = (key(a), key(b));
    lemma_unit_pos(0);
    let num = lemma_product_key(f, a, b);
    let exact = if (x < 0) != (y < 0) {
        -(num as int)
    } else {
        num as int
    };
    let r = key(product(f, a, b));
    lemma_abs_product(x, y);
    assert(x * y == exact * u) by {
        assert((-(num as int)) * u == -(num * u)) by (nonlinear_arith);
        assert((x < 0) == (y < 0) ==> x * y >= 0) by (nonlinear_arith);
        assert((x < 0) != (y < 0) ==> x * y <= 0) by (nonlinear_arith);
    }
    if num == 0 {
        lemma_zero_rounds(f);
    }
    lemma_signed_best(f, exact, 1, product(f, a, b), c);
    let (p, q) = (r - exact, key(c) - exact);
    assert(r * u - exact * u == p * u && key(c) * u - exact * u == q * u) by (nonlinear_arith)
        requires
            p == r - exact,
            q == key(c) - exact,
    ;
    lemma_abs_product(p, u);
    lemma_abs_product(q, u);
    lemma_abs_product(exact, u);
    lemma_abs_product(key(c), u);
    lemma_scaled_order(abs(p) as int, abs(q) as int, u);
    lemma_scaled_order(abs(key(c)) as int, abs(exact) as int, u);
    lemma_scaled_order(0, r, u);
    lemma_scaled_order(0, exact, u);
}

/// Multiples by a positive number lie in the order of their factors.
proof fn lemma_scaled_order(a: int, b: int, u: int)
    requires
        u > 0,
    ensures
        a <= b <==> a * u <= b * u,
        a < b <==> a * u < b * u,
{
    assert(a <= b <==> a * u <= b * u) by (nonlinear_arith)
        requires
            u > 0,
    ;
    assert(a < b <==> a * u < b * u) by (nonlinear_arith)
        requires
            u > 0,
    ;
}

proof fn lemma_quotient_best(f: Format, a: Parts, b: Parts, c: Parts)
    requires
        f.valid(),
        a.canonical(f),
        b.canonical(f),
        c.canonical(f),
        a is Finite,
        b is Finite,
        c is Finite,
        key(b) > 0,
    ensures
        quotient(f, a, b).canonical(f),
        quotient(f, a, b) !is Nan,
        is_best(
            key(quotient(f, a, b)),
            quotient(f, a, b) is Finite,
            key(c),
            key(a) * unit(0),
            key(b),
        ),
{
    let u = unit(0) as int;
    let exact = key(a) * u;
    lemma_unit_pos(0);
    lemma_quotient_key(f, a, b);
    lemma_abs_product(key(a), u);
    lemma_scaled_order(key(a), 0, u);
    lemma_signed_best(f, exact, key(b), quotient(f, a, b), c);
}

/// Products and quotients stay in the format, and those of finite numbers are numbers but for a quotient of
/// zeros. A number is zero where its significand is.
proof fn lemma_any_canonical(f: Format, a: Parts, b: Parts)
    requires
        f.valid(),
        a.canonical(f),
        b.canonical(f),
    ensures
        product(f, a, b).canonical(f),
        quotient(f, a, b).canonical(f),
        a is Finite && b is Finite ==> product(f, a, b) !is Nan,
        a is Finite && b is Finite && key(b) != 0 ==> quotient(f, a, b) !is Nan,
        a matches Parts::Finite { mant, .. } ==> (mant == 0) == (key(a) == 0),
        b matches Parts::Finite { mant, .. } ==> (mant == 0) == (key(b) == 0),
        key((Parts::Finite { neg: false, mant: 0, exp: f.emin })) == 0,
        key((Parts::Finite { neg: true, mant: 0, exp: f.emin })) == 0,
{
    lemma_magnitude_sign(0, f.emin as int);
    lemma_pow2_pos(f.prec as nat);
    if let Parts::Finite { neg, mant, exp } = a {
        lemma_magnitude_sign(mant as nat, exp as int);
    }
    if let Parts::Finite { neg, mant, exp } = b {
        lemma_magnitude_sign(mant as nat, exp as int);
    }
    if let (Parts::Finite { neg: x, mant: m, exp: d }, Parts::Finite { neg: y, mant: n, exp: e }) = (
        a,
        b,
    ) {
        lemma_round_sign(f, magnitude((m * n) as nat, d + e), 1);
        if n != 0 {
            lemma_round_sign(
                f,
                magnitude(m as nat, d as int) * unit(0),
                magnitude(n as nat, e as int),
            );
        }
    }
}

impl Single {
    /// A sum is the best that the format can give of the exact one.
    pub proof fn law_sum_is_best(a: Single, b: Single, c: Single)
        requires
            a.is_finite(),
            b.is_finite(),
            c.is_finite(),
        ensures
            a.plus(b).is_number(),
            is_best(a.plus(b).key(), a.plus(b).is_finite(), c.key(), a.key() + b.key(), 1),
    {
        let f = Format::single();
        reveal(Single::spec_plus);
        a.lemma_parts_canonical();
        b.lemma_parts_canonical();
        c.lemma_parts_canonical();
        lemma_sum_best(f, a.parts(), b.parts(), c.parts());
        Single::lemma_parts_of_pack(sum(f, a.parts(), b.parts()));
    }

    /// A difference is the best that the format can give of the exact one.
    pub proof fn law_difference_is_best(a: Single, b: Single, c: Single)
        requires
            a.is_finite(),
            b.is_finite(),
            c.is_finite(),
        ensures
            a.minus(b).is_number(),
            is_best(a.minus(b).key(), a.minus(b).is_finite(), c.key(), a.key() - b.key(), 1),
    {
        let f = Format::single();
        let d = negated(b.parts());
        reveal(Single::spec_minus);
        a.lemma_parts_canonical();
        b.lemma_parts_canonical();
        c.lemma_parts_canonical();
        lemma_negated_canonical(f, b.parts());
        lemma_key_negated(b.parts());
        lemma_sum_best(f, a.parts(), d, c.parts());
        Single::lemma_parts_of_pack(sum(f, a.parts(), d));
    }

    /// A product is the best that the format can give of the exact one.
    pub proof fn law_product_is_best(a: Single, b: Single, c: Single)
        requires
            a.is_finite(),
            b.is_finite(),
            c.is_finite(),
        ensures
            a.times(b).is_number(),
            is_best(
                a.times(b).key() * unit(0),
                a.times(b).is_finite(),
                c.key() * unit(0),
                a.key() * b.key(),
                1,
            ),
    {
        let f = Format::single();
        reveal(Single::spec_times);
        a.lemma_parts_canonical();
        b.lemma_parts_canonical();
        c.lemma_parts_canonical();
        lemma_product_best(f, a.parts(), b.parts(), c.parts());
        Single::lemma_parts_of_pack(product(f, a.parts(), b.parts()));
    }

    /// A quotient by a positive number is the best that the format can give of the exact one.
    pub proof fn law_quotient_is_best(a: Single, b: Single, c: Single)
        requires
            a.is_finite(),
            b.is_finite(),
            b.key() > 0,
            c.is_finite(),
        ensures
            a.over(b).is_number(),
            is_best(a.over(b).key(), a.over(b).is_finite(), c.key(), a.key() * unit(0), b.key()),
    {
        let f = Format::single();
        reveal(Single::spec_over);
        a.lemma_parts_canonical();
        b.lemma_parts_canonical();
        c.lemma_parts_canonical();
        lemma_quotient_best(f, a.parts(), b.parts(), c.parts());
        Single::lemma_parts_of_pack(quotient(f, a.parts(), b.parts()));
    }

    /// An integer becomes the best that the format can give of it.
    pub proof fn law_integer_is_best(n: u64, c: Single)
        requires
            c.is_finite(),
        ensures
            Single::from_u64(n).is_finite(),
            is_best(Single::from_u64(n).key(), true, c.key(), n * unit(0), 1),
    {
        let f = Format::single();
        reveal(Single::spec_from_u64);
        lemma_unit_pos(0);
        Single::lemma_from_u64_bounds(n);
        c.lemma_parts_canonical();
        assert(n * unit(0) >= 0) by (nonlinear_arith);
        lemma_round_sign(f, magnitude(n as nat, 0), 1);
        Single::lemma_parts_of_pack(whole(f, n as nat));
        lemma_signed_best(f, n * unit(0), 1, whole(f, n as nat), c.parts());
    }

    /// What is not a number stays so. Sums of opposite infinities, products of an infinity and zero, and
    /// quotients of two infinities or of two zeros are not numbers; all else that is infinite is, and
    /// what is divided by zero is infinite.
    pub proof fn law_infinities_are_kept(a: Single, b: Single)
        ensures
            !a.is_number() || !b.is_number() ==> !a.plus(b).is_number() && !a.minus(b).is_number()
                && !a.times(b).is_number() && !a.over(b).is_number(),
            a.is_number() && b.is_number() ==> {
                let (p, q) = (!a.is_finite(), !b.is_finite());
                let (x, y) = (a.key(), b.key());
                &&& a.plus(b).is_number() == !(p && q && x != y)
                &&& a.minus(b).is_number() == !(p && q && x == y)
                &&& a.times(b).is_number() == !((p && y == 0) || (x == 0 && q))
                &&& a.over(b).is_number() == !((p && q) || (x == 0 && y == 0))
                &&& p && !q ==> a.plus(b) == a && a.minus(b) == a
                &&& q && !p ==> a.plus(b) == b && a.minus(b).key() == -y
                &&& (p || q) && a.times(b).is_number() ==> !a.times(b).is_finite() && (a.times(
                    b,
                ).key() > 0) == ((x > 0) == (y > 0))
                &&& q && !p ==> a.over(b).key() == 0 && a.over(b).is_finite()
                &&& p && !q && y != 0 ==> !a.over(b).is_finite() && (a.over(b).key() > 0) == ((x > 0)
                    == (y > 0))
                &&& y == 0 && x != 0 ==> !a.over(b).is_finite()
            },
    {
        let f = Format::single();
        reveal(Single::spec_plus);
        reveal(Single::spec_minus);
        reveal(Single::spec_times);
        reveal(Single::spec_over);
        a.lemma_parts_canonical();
        b.lemma_parts_canonical();
        if a.is_number() {
            a.lemma_pack_of_parts();
        }
        if b.is_number() {
            b.lemma_pack_of_parts();
        }
        let (p, q) = (a.parts(), b.parts());
        let d = negated(q);
        lemma_key_bound(f, p);
        lemma_key_bound(f, q);
        lemma_negated_canonical(f, q);
        lemma_key_negated(q);
        lemma_sum_key(f, p, q);
        lemma_sum_key(f, p, d);
        lemma_any_canonical(f, p, q);
        Single::lemma_parts_of_pack(sum(f, p, q));
        Single::lemma_parts_of_pack(sum(f, p, d));
        Single::lemma_parts_of_pack(product(f, p, q));
        Single::lemma_parts_of_pack(quotient(f, p, q));
    }
}

impl Double {
    /// A sum is the best that the format can give of the exact one.
    pub proof fn law_sum_is_best(a: Double, b: Double, c: Double)
        requires
            a.is_finite(),
            b.is_finite(),
            c.is_finite(),
        ensures
            a.plus(b).is_number(),
            is_best(a.plus(b).key(), a.plus(b).is_finite(), c.key(), a.key() + b.key(), 1),
    {
        let f = Format::double();
        reveal(Double::spec_plus);
        a.lemma_parts_canonical();
        b.lemma_parts_canonical();
        c.lemma_parts_canonical();
        lemma_sum_best(f, a.parts(), b.parts(), c.parts());
        Double::lemma_parts_of_pack(sum(f, a.parts(), b.parts()));
    }

    /// A difference is the best that the format can give of the exact one.
    pub proof fn law_difference_is_best(a: Double, b: Double, c: Double)
        requires
            a.is_finite(),
            b.is_finite(),
            c.is_finite(),
        ensures
            a.minus(b).is_number(),
            is_best(a.minus(b).key(), a.minus(b).is_finite(), c.key(), a.key() - b.key(), 1),
    {
        let f = Format::double();
        let d = negated(b.parts());
        reveal(Double::spec_minus);
        a.lemma_parts_canonical();
        b.lemma_parts_canonical();
        c.lemma_parts_canonical();
        lemma_negated_canonical(f, b.parts());
        lemma_key_negated(b.parts());
        lemma_sum_best(f, a.parts(), d, c.parts());
        Double::lemma_parts_of_pack(sum(f, a.parts(), d));
    }

    /// A product is the best that the format can give of the exact one.
    pub proof fn law_product_is_best(a: Double, b: Double, c: Double)
        requires
            a.is_finite(),
            b.is_finite(),
            c.is_finite(),
        ensures
            a.times(b).is_number(),
            is_best(
                a.times(b).key() * unit(0),
                a.times(b).is_finite(),
                c.key() * unit(0),
                a.key() * b.key(),
                1,
            ),
    {
        let f = Format::double();
        reveal(Double::spec_times);
        a.lemma_parts_canonical();
        b.lemma_parts_canonical();
        c.lemma_parts_canonical();
        lemma_product_best(f, a.parts(), b.parts(), c.parts());
        Double::lemma_parts_of_pack(product(f, a.parts(), b.parts()));
    }

    /// A quotient by a positive number is the best that the format can give of the exact one.
    pub proof fn law_quotient_is_best(a: Double, b: Double, c: Double)
        requires
            a.is_finite(),
            b.is_finite(),
            b.key() > 0,
            c.is_finite(),
        ensures
            a.over(b).is_number(),
            is_best(a.over(b).key(), a.over(b).is_finite(), c.key(), a.key() * unit(0), b.key()),
    {
        let f = Format::double();
        reveal(Double::spec_over);
        a.lemma_parts_canonical();
        b.lemma_parts_canonical();
        c.lemma_parts_canonical();
        lemma_quotient_best(f, a.parts(), b.parts(), c.parts());
        Double::lemma_parts_of_pack(quotient(f, a.parts(), b.parts()));
    }

    /// An integer becomes the best that the format can give of it.
    pub proof fn law_integer_is_best(n: u64, c: Double)
        requires
            c.is_finite(),
        ensures
            Double::from_u64(n).is_finite(),
            is_best(Double::from_u64(n).key(), true, c.key(), n * unit(0), 1),
    {
        let f = Format::double();
        reveal(Double::spec_from_u64);
        lemma_unit_pos(0);
        Double::lemma_from_u64_bounds(n);
        c.lemma_parts_canonical();
        assert(n * unit(0) >= 0) by (nonlinear_arith);
        lemma_round_sign(f, magnitude(n as nat, 0), 1);
        Double::lemma_parts_of_pack(whole(f, n as nat));
        lemma_signed_best(f, n * unit(0), 1, whole(f, n as nat), c.parts());
    }

    /// What is not a number stays so. Sums of opposite infinities, products of an infinity and zero, and
    /// quotients of two infinities or of two zeros are not numbers; all else that is infinite is, and
    /// what is divided by zero is infinite.
    pub proof fn law_infinities_are_kept(a: Double, b: Double)
        ensures
            !a.is_number() || !b.is_number() ==> !a.plus(b).is_number() && !a.minus(b).is_number()
                && !a.times(b).is_number() && !a.over(b).is_number(),
            a.is_number() && b.is_number() ==> {
                let (p, q) = (!a.is_finite(), !b.is_finite());
                let (x, y) = (a.key(), b.key());
                &&& a.plus(b).is_number() == !(p && q && x != y)
                &&& a.minus(b).is_number() == !(p && q && x == y)
                &&& a.times(b).is_number() == !((p && y == 0) || (x == 0 && q))
                &&& a.over(b).is_number() == !((p && q) || (x == 0 && y == 0))
                &&& p && !q ==> a.plus(b) == a && a.minus(b) == a
                &&& q && !p ==> a.plus(b) == b && a.minus(b).key() == -y
                &&& (p || q) && a.times(b).is_number() ==> !a.times(b).is_finite() && (a.times(
                    b,
                ).key() > 0) == ((x > 0) == (y > 0))
                &&& q && !p ==> a.over(b).key() == 0 && a.over(b).is_finite()
                &&& p && !q && y != 0 ==> !a.over(b).is_finite() && (a.over(b).key() > 0) == ((x > 0)
                    == (y > 0))
                &&& y == 0 && x != 0 ==> !a.over(b).is_finite()
            },
    {
        let f = Format::double();
        reveal(Double::spec_plus);
        reveal(Double::spec_minus);
        reveal(Double::spec_times);
        reveal(Double::spec_over);
        a.lemma_parts_canonical();
        b.lemma_parts_canonical();
        if a.is_number() {
            a.lemma_pack_of_parts();
        }
        if b.is_number() {
            b.lemma_pack_of_parts();
        }
        let (p, q) = (a.parts(), b.parts());
        let d = negated(q);
        lemma_key_bound(f, p);
        lemma_key_bound(f, q);
        lemma_negated_canonical(f, q);
        lemma_key_negated(q);
        lemma_sum_key(f, p, q);
        lemma_sum_key(f, p, d);
        lemma_any_canonical(f, p, q);
        Double::lemma_parts_of_pack(sum(f, p, q));
        Double::lemma_parts_of_pack(sum(f, p, d));
        Double::lemma_parts_of_pack(product(f, p, q));
        Double::lemma_parts_of_pack(quotient(f, p, q));
    }
}

/// A number is written with a sign.
spec fn is_signed(a: Parts) -> bool {
    match a {
        Parts::Nan => false,
        Parts::Infinite { neg } => neg,
        Parts::Finite { neg, .. } => neg,
    }
}

proof fn lemma_written_signs(f: Format, a: Parts, b: Parts)
    requires
        f.valid(),
        a.canonical(f),
        b.canonical(f),
    ensures
        product(f, a, b) !is Nan ==> is_signed(product(f, a, b)) == (is_signed(a) != is_signed(b)),
        quotient(f, a, b) !is Nan ==> is_signed(quotient(f, a, b)) == (is_signed(a) != is_signed(b)),
{
    if let (Parts::Finite { neg: x, mant: m, exp: d }, Parts::Finite { neg: y, mant: n, exp: e }) = (
        a,
        b,
    ) {
        lemma_round_sign(f, magnitude((m * n) as nat, d + e), 1);
        lemma_magnitude_sign(n as nat, e as int);
    }
}

impl Single {
    /// The sign that a number is written with, of a zero too: products and quotients have one where exactly
    /// one of their operands has, and a sum of zero where both have.
    pub proof fn law_signs_are_kept(a: Single, b: Single)
        ensures
            ({
                let (x, y) = (a.bits >= 0x8000_0000, b.bits >= 0x8000_0000);
                &&& a.times(b).is_number() ==> (a.times(b).bits >= 0x8000_0000) == (x != y)
                &&& a.over(b).is_number() ==> (a.over(b).bits >= 0x8000_0000) == (x != y)
                &&& a.is_finite() && b.is_finite() && a.key() + b.key() == 0 ==> (a.plus(b).bits
                    >= 0x8000_0000) == (x && y)
                &&& a.is_finite() && b.is_finite() && a.key() == b.key() ==> (a.minus(b).bits
                    >= 0x8000_0000) == (x && !y)
                &&& a.is_number() ==> (a.neg().bits >= 0x8000_0000) == !x
            }),
    {
        let f = Format::single();
        reveal(Single::spec_plus);
        reveal(Single::spec_minus);
        reveal(Single::spec_times);
        reveal(Single::spec_over);
        a.lemma_parts_canonical();
        b.lemma_parts_canonical();
        let (p, q) = (a.parts(), b.parts());
        let d = negated(q);
        lemma_negated_canonical(f, q);
        lemma_key_negated(q);
        lemma_sum_key(f, p, q);
        lemma_sum_key(f, p, d);
        lemma_any_canonical(f, p, q);
        lemma_written_signs(f, p, q);
        Single::lemma_parts_of_pack(sum(f, p, q));
        Single::lemma_parts_of_pack(sum(f, p, d));
        Single::lemma_parts_of_pack(product(f, p, q));
        Single::lemma_parts_of_pack(quotient(f, p, q));
    }
}

impl Double {
    /// The sign that a number is written with, of a zero too: products and quotients have one where exactly
    /// one of their operands has, and a sum of zero where both have.
    pub proof fn law_signs_are_kept(a: Double, b: Double)
        ensures
            ({
                let (x, y) = (a.bits >= 0x8000_0000_0000_0000, b.bits >= 0x8000_0000_0000_0000);
                &&& a.times(b).is_number() ==> (a.times(b).bits >= 0x8000_0000_0000_0000) == (x != y)
                &&& a.over(b).is_number() ==> (a.over(b).bits >= 0x8000_0000_0000_0000) == (x != y)
                &&& a.is_finite() && b.is_finite() && a.key() + b.key() == 0 ==> (a.plus(b).bits
                    >= 0x8000_0000_0000_0000) == (x && y)
                &&& a.is_finite() && b.is_finite() && a.key() == b.key() ==> (a.minus(b).bits
                    >= 0x8000_0000_0000_0000) == (x && !y)
            }),
    {
        let f = Format::double();
        reveal(Double::spec_plus);
        reveal(Double::spec_minus);
        reveal(Double::spec_times);
        reveal(Double::spec_over);
        a.lemma_parts_canonical();
        b.lemma_parts_canonical();
        let (p, q) = (a.parts(), b.parts());
        let d = negated(q);
        lemma_negated_canonical(f, q);
        lemma_key_negated(q);
        lemma_sum_key(f, p, q);
        lemma_sum_key(f, p, d);
        lemma_any_canonical(f, p, q);
        lemma_written_signs(f, p, q);
        Double::lemma_parts_of_pack(sum(f, p, q));
        Double::lemma_parts_of_pack(sum(f, p, d));
        Double::lemma_parts_of_pack(product(f, p, q));
        Double::lemma_parts_of_pack(quotient(f, p, q));
    }
}

impl Double {
    /// A number of the 64-bit format becomes the best that the 32-bit format can give of it.
    pub proof fn law_shortened_is_best(self, c: Single)
        requires
            self.is_finite(),
            c.is_finite(),
        ensures
            self.to_single().is_number(),
            is_best(self.to_single().key(), self.to_single().is_finite(), c.key(), self.key(), 1),
    {
        let f = Format::single();
        reveal(Double::spec_to_single);
        c.lemma_parts_canonical();
        lemma_converted_key(f, self.parts());
        Single::lemma_parts_of_pack(converted(f, self.parts()));
        lemma_signed_best(f, self.key(), 1, converted(f, self.parts()), c.parts());
    }
}

} // verus!
