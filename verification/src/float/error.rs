//! How far rounding moves a quantity.
use crate::float::arith::{abs, sum};
use crate::float::grid::{
    lemma_pow2_mono, lemma_unit_mono, lemma_unit_pos, lemma_unit_shift, unit,
};
use crate::float::monotone::{
    beyond, key, lemma_digit_count, lemma_key_bound, lemma_magnitude_sign, lemma_round_mono,
    lemma_round_parts, lemma_round_sign, lemma_signed_round_exact, lemma_sum_key, lemma_zero_rounds,
    whole_of,
};
use crate::float::rounding::{
    Format, Parts, lemma_nearest_even_split, magnitude, nearest_even, quantum, round,
};
use vstd::arithmetic::power2::{
    lemma2_to64, lemma2_to64_rest, lemma_pow2_adds, lemma_pow2_pos, lemma_pow2_unfold, pow2,
};
use vstd::prelude::*;

verus! {

/// A whole number of units that fits the significand is held exactly.
pub proof fn lemma_short_exact(f: Format, m: nat, e: int)
    requires
        f.valid(),
        0 < m < pow2(f.prec as nat),
        f.emin <= e <= f.emax,
    ensures
        round(f, false, magnitude(m, e), 1) is Finite,
        key(round(f, false, magnitude(m, e), 1)) == magnitude(m, e),
{
    let len = lemma_digit_count(m);
    lemma2_to64();
    lemma2_to64_rest();
    lemma_pow2_mono(f.prec as nat, 53);
    if len > f.prec {
        lemma_pow2_mono(f.prec as nat, (len - 1) as nat);
    }
    let room = (f.prec - len) as nat;
    let s: nat = if e - room >= f.emin {
        room
    } else {
        (e - f.emin) as nat
    };
    let p = pow2(s);
    lemma_pow2_pos(s);
    lemma_pow2_adds(len, s);
    lemma_pow2_adds((len - 1) as nat, s);
    lemma_pow2_mono(len + s, f.prec as nat);
    assert(pow2((len - 1) as nat) * p <= m * p < pow2(len) * p) by (nonlinear_arith)
        requires
            pow2((len - 1) as nat) <= m < pow2(len),
            p > 0,
    ;
    let b = Parts::Finite { neg: false, mant: (m * p) as u64, exp: (e - s) as i32 };
    assert(b.canonical(f));
    lemma_unit_shift(e - s, s);
    assert(magnitude((m * p) as nat, e - s) == magnitude(m, e)) by (nonlinear_arith)
        requires
            magnitude((m * p) as nat, e - s) == (m * p) * unit(e - s),
            magnitude(m, e) == m * unit(e),
            unit(e) == p * unit(e - s),
    ;
    lemma_signed_round_exact(f, b);
    lemma_key_bound(f, b);
    lemma_round_sign(f, magnitude(m, e), 1);
}

/// The nearest whole number is at most one half away.
proof fn lemma_nearest_even_error(num: nat, den: nat)
    requires
        den > 0,
    ensures
        2 * abs(nearest_even(num, den) * den - num) <= den,
{
    let low = num / den;
    let rem = num % den;
    vstd::arithmetic::div_mod::lemma_fundamental_div_mod(num as int, den as int);
    assert(low * den == den * low) by (nonlinear_arith);
    assert((low + 1) * den == den * low + den) by (nonlinear_arith);
}

/// A quantity with all its digits moves by at most one part in two to the power of `prec`.
pub proof fn lemma_round_error(f: Format, num: nat, den: nat)
    requires
        f.valid(),
        den > 0,
        den * unit(f.emin + f.prec - 1) <= num,
        round(f, false, num, den) is Finite,
    ensures
        pow2(f.prec as nat) * abs(key(round(f, false, num, den)) * den - num) <= num,
{
    let v = lemma_round_parts(f, false, num, den);
    let q = quantum(f, num, den);
    let u = unit(q);
    lemma_unit_pos(q);
    lemma_unit_shift(q, (f.prec - 1) as nat);
    lemma_pow2_unfold(f.prec as nat);
    let h = pow2((f.prec - 1) as nat);
    let d = den * u;
    assert(d > 0) by (nonlinear_arith)
        requires
            d == den * u,
            den > 0,
            u > 0,
    ;
    let m = nearest_even(num, d);
    lemma_nearest_even_error(num, d);
    let err = abs(m * d - num);
    assert(m * d == v * den) by (nonlinear_arith)
        requires
            d == den * u,
            v == m * u,
    ;
    assert(h * d <= num) by (nonlinear_arith)
        requires
            den * (h * u) <= num,
            d == den * u,
    ;
    assert((2 * h) * err <= num) by (nonlinear_arith)
        requires
            2 * err <= d,
            h * d <= num,
    ;
}

/// A product of a whole number and a number moves by at most one part in two to the power of
/// `prec`, however small it is.
pub proof fn lemma_multiple_error(f: Format, n: nat, c: Parts)
    requires
        f.valid(),
        n >= 1,
        c.canonical(f),
        c is Finite,
        key(c) > 0,
        round(f, false, n * abs(key(c)), 1) is Finite,
    ensures
        pow2(f.prec as nat) * abs(key(round(f, false, n * abs(key(c)), 1)) - n * key(c)) <= n * key(
            c,
        ),
{
    let w = abs(key(c));
    let num = n * w;
    let least = unit(f.emin + f.prec - 1);
    if num >= least {
        lemma_round_error(f, num, 1);
        assert(1 * least == least);
    } else if let Parts::Finite { neg, mant, exp } = c {
        // a multiple of the smallest unit with few digits
        lemma_magnitude_sign(mant as nat, exp as int);
        lemma_unit_shift(f.emin as int, (exp - f.emin) as nat);
        lemma_unit_shift(f.emin as int, (f.prec - 1) as nat);
        lemma_unit_pos(f.emin as int);
        lemma_pow2_unfold(f.prec as nat);
        lemma_pow2_pos((exp - f.emin) as nat);
        let p = pow2((exp - f.emin) as nat);
        let m = n * (mant as nat * p);
        let u = unit(f.emin as int);
        assert(num == m * u) by (nonlinear_arith)
            requires
                num == n * (mant as nat * unit(exp as int)),
                unit(exp as int) == p * u,
                m == n * (mant as nat * p),
        ;
        assert(m < pow2((f.prec - 1) as nat)) by (nonlinear_arith)
            requires
                m * u < pow2((f.prec - 1) as nat) * u,
                u > 0,
        ;
        assert(m > 0) by (nonlinear_arith)
            requires
                m == n * (mant as nat * p),
                n > 0,
                mant > 0,
                p > 0,
        ;
        lemma_short_exact(f, m, f.emin as int);
        assert(num >= 0);
        assert(pow2(f.prec as nat) * 0 == 0) by (nonlinear_arith);
    }
}

/// A whole number of up to 22 digits, multiplied by a positive number and divided by it again, is
/// nearest to itself.
pub proof fn lemma_multiple_restored(n: nat, c: Parts)
    requires
        1 <= n < 0x40_0000,
        c.canonical(Format::single()),
        c is Finite,
        key(c) > 0,
        round(Format::single(), false, n * abs(key(c)), 1) is Finite,
    ensures
        ({
            let f = Format::single();
            let v = key(round(f, false, n * abs(key(c)), 1));
            let t = key(round(f, false, abs(v) * unit(0), abs(key(c))));
            &&& v > 0
            &&& 0 < t < beyond()
            &&& whole_of(abs(t)) == n
        }),
{
    let f = Format::single();
    let w = abs(key(c));
    let u = unit(0);
    lemma2_to64();
    lemma_unit_pos(0);
    lemma_multiple_error(f, n, c);
    let v = key(round(f, false, n * w, 1));
    lemma_round_sign(f, n * w, 1);
    let nw = n * w;
    assert(nw >= w) by (nonlinear_arith)
        requires
            nw == n * w,
            n >= 1,
    ;
    let d1 = abs(v - nw);
    assert(0x100_0000 * d1 <= nw);
    assert(v > 0 && 2 * v >= nw);
    // the quotient has all its digits
    lemma_unit_shift(-126, 1);
    lemma_unit_mono(-125, 0);
    let num = abs(v) * u;
    assert(w * unit(-126) <= num) by (nonlinear_arith)
        requires
            num == v * u,
            2 * v >= w,
            u >= 2 * unit(-126),
    ;
    // and is not too large
    assert(num * 1 <= (0x80_0000 * u) * w) by (nonlinear_arith)
        requires
            num == v * u,
            v <= 2 * nw,
            nw == n * w,
            n < 0x40_0000,
    ;
    lemma_round_mono(f, num, w, 0x80_0000 * u, 1);
    lemma_short_exact(f, 0x80_0000, 0);
    assert(magnitude(0x80_0000, 0) == 0x80_0000 * u);
    lemma_round_sign(f, num, w);
    lemma_round_sign(f, 0x80_0000 * u, 1);
    lemma_key_bound(f, round(f, false, 0x80_0000 * u, 1));
    lemma_key_bound(f, round(f, false, num, w));
    lemma_round_error(f, num, w);
    let t = key(round(f, false, num, w));
    let d2 = abs(t * w - num);
    assert(0x100_0000 * d2 <= num);
    let off = abs(t - n * u);
    lemma_close(n, w, u, v, t);
    // t lies less than half a unit from n
    let top = 2 * abs(t) + u;
    let rest = (top - (2 * u) * n) as nat;
    assert((2 * u) * n == 2 * (n * u)) by (nonlinear_arith);
    assert(n * u >= u) by (nonlinear_arith)
        requires
            n >= 1,
    ;
    lemma_nearest_even_split(top, 2 * u, n, rest);
}

/// Two roundings of one part in two to the power of 24 each move a whole number of up to 22 digits by
/// less than one half.
proof fn lemma_close(n: nat, w: nat, u: nat, v: int, t: int)
    requires
        1 <= n < 0x40_0000,
        w > 0,
        u > 0,
        v > 0,
        0x100_0000 * abs(v - n * w) <= n * w,
        0x100_0000 * abs(t * w - v * u) <= v * u,
    ensures
        2 * abs(t - n * u) < u,
{
    let nw = n * w;
    let nu = n * u;
    let a = v - nw;
    let b = t * w - v * u;
    // (t - n u) w = b + a u
    let x = t - nu;
    assert(x * w == b + a * u) by (nonlinear_arith)
        requires
            x == t - nu,
            nu == n * u,
            nw == n * w,
            a == v - nw,
            b == t * w - v * u,
    ;
    assert(v * u == nw * u + a * u) by (nonlinear_arith)
        requires
            v == nw + a,
    ;
    let au = a * u;
    let k = nw * u;
    assert(-k <= 0x100_0000 * au <= k) by (nonlinear_arith)
        requires
            au == a * u,
            k == nw * u,
            -nw <= 0x100_0000 * a <= nw,
            u > 0,
    ;
    // 2^48 |x| w <= (2^25 + 1) n u w
    assert(-(0x200_0001 * k) <= 0x1_0000_0000_0000 * (x * w) <= 0x200_0001 * k);
    assert(k == nu * w) by (nonlinear_arith)
        requires
            k == nw * u,
            nw == n * w,
            nu == n * u,
    ;
    assert(-(0x200_0001 * nu) <= 0x1_0000_0000_0000 * x <= 0x200_0001 * nu) by (nonlinear_arith)
        requires
            -(0x200_0001 * (nu * w)) <= 0x1_0000_0000_0000 * (x * w) <= 0x200_0001 * (nu * w),
            w > 0,
    ;
    assert(0x200_0001 * nu < 0x8000_0000_0000 * u) by (nonlinear_arith)
        requires
            nu == n * u,
            n <= 0x3f_ffff,
            u > 0,
    ;
}

/// A finite number is a whole number of the smallest units.
proof fn lemma_key_multiple(f: Format, a: Parts) -> (m: int)
    requires
        f.valid(),
        a.canonical(f),
        a is Finite,
    ensures
        key(a) == m * unit(f.emin as int),
{
    match a {
        Parts::Finite { neg, mant, exp } => {
            let p = pow2((exp - f.emin) as nat);
            let u = unit(f.emin as int);
            lemma_unit_shift(f.emin as int, (exp - f.emin) as nat);
            let m = mant * p;
            assert(magnitude(mant as nat, exp as int) == m * u) by (nonlinear_arith)
                requires
                    magnitude(mant as nat, exp as int) == mant as nat * (p * u),
                    m == mant * p,
            ;
            assert((-m) * u == -(m * u)) by (nonlinear_arith);
            if neg {
                -m
            } else {
                m as int
            }
        },
        _ => 0,
    }
}

/// A sum moves by at most one part in two to the power of `prec`, however small it is.
pub proof fn lemma_sum_error(f: Format, a: Parts, b: Parts)
    requires
        f.valid(),
        a.canonical(f),
        b.canonical(f),
        a is Finite,
        b is Finite,
        sum(f, a, b) is Finite,
    ensures
        pow2(f.prec as nat) * abs(key(sum(f, a, b)) - (key(a) + key(b))) <= abs(key(a) + key(b)),
{
    let s = key(a) + key(b);
    lemma_sum_key(f, a, b);
    lemma_key_bound(f, sum(f, a, b));
    lemma_round_sign(f, abs(s), 1);
    let least = unit(f.emin + f.prec - 1);
    lemma_unit_pos(f.emin as int);
    if abs(s) >= least {
        assert(1 * least == least);
        lemma_key_bound(f, round(f, false, abs(s), 1));
        lemma_round_error(f, abs(s), 1);
        let k = key(round(f, false, abs(s), 1));
        assert(abs(k * 1 - abs(s)) == abs(key(sum(f, a, b)) - s));
    } else {
        let m = lemma_key_multiple(f, a);
        let n = lemma_key_multiple(f, b);
        let u = unit(f.emin as int);
        let t = abs(m + n);
        assert(abs(s) == t * u) by (nonlinear_arith)
            requires
                s == m * u + n * u,
                t == if m + n < 0 {
                    -(m + n)
                } else {
                    m + n
                },
                abs(s) == if s < 0 {
                    -s
                } else {
                    s
                },
                u > 0,
        ;
        lemma_unit_shift(f.emin as int, (f.prec - 1) as nat);
        lemma_pow2_unfold(f.prec as nat);
        assert(t < pow2((f.prec - 1) as nat)) by (nonlinear_arith)
            requires
                t * u < pow2((f.prec - 1) as nat) * u,
                u > 0,
        ;
        if t == 0 {
            assert(t * u == 0) by (nonlinear_arith)
                requires
                    t == 0,
            ;
            lemma_zero_rounds(f);
        } else {
            lemma_short_exact(f, t, f.emin as int);
        }
        assert(pow2(f.prec as nat) * 0 == 0) by (nonlinear_arith);
    }
}

} // verus!
