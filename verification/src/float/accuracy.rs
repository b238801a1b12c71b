//! How far the results of the operations are from what they stand for.
use crate::float::arith::{abs, negated, product, quotient, sum};
use crate::float::convert::{ceiling, converted, nearest_whole, truncated, whole};
use crate::float::double::Double;
use crate::float::error::{lemma_round_error, lemma_short_exact, lemma_sum_error};
use crate::float::grid::{lemma_unit_mono, lemma_unit_pos, lemma_unit_shift, unit};
use crate::float::monotone::{
    key, lemma_ceiling_not_below, lemma_converted_key, lemma_key_bound, lemma_key_negated,
    lemma_magnitude_sign,
    lemma_negated_canonical, lemma_nearest_whole_key, lemma_product_key, lemma_quotient_key,
    lemma_round_mono, lemma_round_sign, lemma_signed_round_exact, lemma_sum_key, lemma_whole_bounds,
    lemma_whole_mono, lemma_zero_rounds, whole_of,
};
use crate::float::rounding::{magnitude, round, Format, Parts};
use crate::float::single::Single;
use vstd::arithmetic::power2::{lemma2_to64, lemma2_to64_rest, pow2};
use vstd::prelude::*;

verus! {

/// A quantity is off from another by at most so many parts in two to the power of 28.
pub open spec fn near(x: int, y: int, parts: nat) -> bool {
    0x1000_0000 * abs(x - y) <= parts * abs(y)
}

pub proof fn lemma_near_chain(x: int, y: int, z: int, i: nat, j: nat)
    requires
        near(x, y, i),
        near(y, z, j),
        i <= 4096,
        j <= 4096,
    ensures
        near(x, z, i + j + 1),
{
    let d = abs(y - z) as int;
    let w = abs(z) as int;
    let v = abs(y) as int;
    assert(v <= w + d);
    assert(i * v <= i * w + i * d) by (nonlinear_arith)
        requires
            v <= w + d,
            i >= 0,
    ;
    assert(j * w <= 4096 * w) by (nonlinear_arith)
        requires
            j <= 4096,
            w >= 0,
    ;
    assert(i * d <= 4096 * d) by (nonlinear_arith)
        requires
            i <= 4096,
            d >= 0,
    ;
    assert(i * d <= w);
    assert((i + j + 1) * w == i * w + j * w + w) by (nonlinear_arith);
}

pub proof fn lemma_near_scaled(x: int, y: int, c: int, i: nat)
    requires
        near(x, y, i),
    ensures
        near(x * c, y * c, i),
{
    lemma_abs_product(x - y, c);
    lemma_abs_product(y, c);
    assert(x * c - y * c == (x - y) * c) by (nonlinear_arith);
    let d = abs(x - y);
    let w = abs(y);
    let k = abs(c);
    assert(0x1000_0000 * (d * k) <= i * (w * k)) by (nonlinear_arith)
        requires
            0x1000_0000 * d <= i * w,
    ;
}

pub proof fn lemma_near_unscaled(x: int, y: int, c: int, i: nat)
    requires
        near(x * c, y * c, i),
        c != 0,
    ensures
        near(x, y, i),
{
    lemma_abs_product(x - y, c);
    lemma_abs_product(y, c);
    assert(x * c - y * c == (x - y) * c) by (nonlinear_arith);
    let d = abs(x - y);
    let w = abs(y);
    let k = abs(c);
    assert(0x1000_0000 * d <= i * w) by (nonlinear_arith)
        requires
            0x1000_0000 * (d * k) <= i * (w * k),
            k > 0,
    ;
}

pub proof fn lemma_near_back(x: int, y: int, i: nat)
    requires
        near(x, y, i),
        i <= 4096,
    ensures
        near(y, x, i + 1),
{
    let d = abs(x - y) as int;
    let v = abs(x) as int;
    let w = abs(y) as int;
    assert(w <= v + d);
    assert(i * w <= 4096 * w) by (nonlinear_arith)
        requires
            i <= 4096,
            w >= 0,
    ;
    assert(i * w <= i * v + i * d) by (nonlinear_arith)
        requires
            w <= v + d,
            i >= 0,
    ;
    assert(i * d <= 4096 * d) by (nonlinear_arith)
        requires
            i <= 4096,
            d >= 0,
    ;
    assert((i + 1) * v == i * v + v) by (nonlinear_arith);
}

pub proof fn lemma_abs_product(x: int, y: int)
    ensures
        abs(x * y) == abs(x) * abs(y),
{
    assert(abs(x * y) == abs(x) * abs(y)) by (nonlinear_arith)
        requires
            abs(x) == if x < 0 {
                -x
            } else {
                x
            },
            abs(y) == if y < 0 {
                -y
            } else {
                y
            },
            abs(x * y) == if x * y < 0 {
                -(x * y)
            } else {
                x * y
            },
    ;
}

/// What is larger after rounding than the least number with all its digits had all its digits before.
proof fn lemma_not_small(f: Format, num: nat, den: nat)
    requires
        f.valid(),
        den > 0,
        key(round(f, false, num, den)) > unit(f.emin + f.prec - 1),
        f.emin + f.prec - 1 <= f.emax,
    ensures
        den * unit(f.emin + f.prec - 1) <= num,
{
    let e = f.emin + f.prec - 1;
    let least = unit(e);
    lemma2_to64();
    assert(pow2(f.prec as nat) > 1) by {
        vstd::arithmetic::power2::lemma_pow2_strictly_increases(0, f.prec as nat);
    }
    lemma_short_exact(f, 1, e);
    assert(magnitude(1, e) == least);
    if num < den * least {
        assert(least * den == den * least) by (nonlinear_arith);
        lemma_round_mono(f, num, den, least, 1);
    }
}

/// What is off by one part in two to the power of `prec` is off by so many parts.
proof fn lemma_near_of_error(f: Format, x: int, y: int, parts: nat)
    requires
        pow2(f.prec as nat) * abs(x - y) <= abs(y),
        0x1000_0000 <= parts * pow2(f.prec as nat),
    ensures
        near(x, y, parts),
{
    let p = pow2(f.prec as nat);
    let e = abs(x - y);
    let w = abs(y);
    assert(0x1000_0000 * e <= parts * w) by (nonlinear_arith)
        requires
            p * e <= w,
            0x1000_0000 <= parts * p,
    ;
}

/// A number is so large that it has all its digits.
pub open spec fn keeps_digits(f: Format, a: Parts) -> bool {
    abs(key(a)) > unit(f.emin + f.prec - 1)
}

proof fn lemma_sum_near(f: Format, a: Parts, b: Parts, parts: nat)
    requires
        f.valid(),
        a.canonical(f),
        b.canonical(f),
        a is Finite,
        b is Finite,
        sum(f, a, b) is Finite,
        0x1000_0000 <= parts * pow2(f.prec as nat),
    ensures
        near(key(sum(f, a, b)), key(a) + key(b), parts),
{
    lemma_sum_error(f, a, b);
    lemma_near_of_error(f, key(sum(f, a, b)), key(a) + key(b), parts);
}

proof fn lemma_product_near(f: Format, a: Parts, b: Parts, parts: nat)
    requires
        f.valid(),
        a.canonical(f),
        b.canonical(f),
        a is Finite,
        b is Finite,
        product(f, a, b) is Finite,
        key(a) == 0 || key(b) == 0 || keeps_digits(f, product(f, a, b)),
        0x1000_0000 <= parts * pow2(f.prec as nat),
    ensures
        near(key(product(f, a, b)) * unit(0), key(a) * key(b), parts),
{
    let u = unit(0);
    let x = key(a);
    let y = key(b);
    lemma_unit_pos(0);
    let num = lemma_product_key(f, a, b);
    let p = product(f, a, b);
    lemma_abs_product(x, y);
    lemma_round_sign(f, num, 1);
    lemma_key_bound(f, round(f, false, num, 1));
    lemma_key_bound(f, p);
    let k = key(round(f, false, num, 1));
    if x == 0 || y == 0 {
        assert(x * y == 0) by (nonlinear_arith)
            requires
                x == 0 || y == 0,
        ;
        assert(num == 0) by (nonlinear_arith)
            requires
                num * u == 0,
                u > 0,
        ;
        lemma_zero_rounds(f);
        assert(0 * u == 0);
        assert(parts * 0 == 0) by (nonlinear_arith);
    } else {
        lemma_not_small(f, num, 1);
        lemma_round_error(f, num, 1);
        lemma_near_of_error(f, k, num as int, parts);
        let sign: int = if (x < 0) != (y < 0) {
            -1
        } else {
            1
        };
        assert(x * y == sign * (num * u)) by (nonlinear_arith)
            requires
                num * u == abs(x) * abs(y),
                abs(x) == if x < 0 {
                    -x
                } else {
                    x
                },
                abs(y) == if y < 0 {
                    -y
                } else {
                    y
                },
                sign == if (x < 0) != (y < 0) {
                    -1int
                } else {
                    1int
                },
        ;
        lemma_near_scaled(k, num as int, sign * u, parts);
        assert(k * (sign * u) == key(p) * u) by (nonlinear_arith)
            requires
                key(p) == sign * k,
        ;
        assert(num * (sign * u) == sign * (num * u)) by (nonlinear_arith);
    }
}

proof fn lemma_quotient_near(f: Format, a: Parts, b: Parts, parts: nat)
    requires
        f.valid(),
        a.canonical(f),
        b.canonical(f),
        a is Finite,
        b is Finite,
        key(b) > 0,
        quotient(f, a, b) is Finite,
        key(a) == 0 || keeps_digits(f, quotient(f, a, b)),
        0x1000_0000 <= parts * pow2(f.prec as nat),
    ensures
        near(key(quotient(f, a, b)) * key(b), key(a) * unit(0), parts),
{
    let u = unit(0);
    let x = key(a);
    let y = key(b);
    lemma_unit_pos(0);
    lemma_quotient_key(f, a, b);
    let p = quotient(f, a, b);
    let num = abs(x) * u;
    let den = abs(y);
    lemma_round_sign(f, num, den);
    lemma_key_bound(f, round(f, false, num, den));
    lemma_key_bound(f, p);
    let k = key(round(f, false, num, den));
    if x == 0 {
        assert(0 * u == 0);
        assert(0 * y == 0);
        assert(parts * 0 == 0) by (nonlinear_arith);
    } else {
        lemma_not_small(f, num, den);
        lemma_round_error(f, num, den);
        lemma_near_of_error(f, k * den, num as int, parts);
        let sign: int = if x < 0 {
            -1
        } else {
            1
        };
        lemma_near_scaled(k * den, num as int, sign, parts);
        assert((k * den) * sign == key(p) * y) by (nonlinear_arith)
            requires
                key(p) == sign * k,
                den == y,
        ;
        assert(num * sign == x * u) by (nonlinear_arith)
            requires
                num == abs(x) * u,
                abs(x) * sign == x,
        ;
    }
}

proof fn lemma_whole_near(f: Format, n: nat, parts: nat)
    requires
        f.valid(),
        n <= u64::MAX,
        0x1000_0000 <= parts * pow2(f.prec as nat),
    ensures
        near(key(whole(f, n)), (n * unit(0)) as int, parts),
{
    let u = unit(0);
    if n == 0 {
        lemma_zero_rounds(f);
        assert(0 * u == 0);
        assert(parts * 0 == 0) by (nonlinear_arith);
    } else {
        lemma_whole_bounds(f, n);
        lemma_unit_mono(f.emin + f.prec - 1, 0);
        assert(n * u >= u) by (nonlinear_arith)
            requires
                n >= 1,
        ;
        assert(1 * unit(f.emin + f.prec - 1) == unit(f.emin + f.prec - 1));
        lemma_round_error(f, n * u, 1);
        lemma_near_of_error(f, key(whole(f, n)), (n * u) as int, parts);
    }
}

/// What a positive number becomes as an integer differs from it by less than one.
proof fn lemma_truncated_near(f: Format, a: Parts)
    requires
        f.valid(),
        a.canonical(f),
        a is Finite,
        0 <= key(a) < 0x1_0000_0000_0000_0000 * unit(0),
    ensures
        truncated(a) * unit(0) <= key(a) < (truncated(a) + 1) * unit(0),
{
    let u = unit(0) as int;
    lemma_unit_pos(0);
    if let Parts::Finite { neg, mant, exp } = a {
        lemma_magnitude_sign(mant as nat, exp as int);
        let m = magnitude(mant as nat, exp as int) as int;
        let n = m / u;
        vstd::arithmetic::div_mod::lemma_fundamental_div_mod(m, u);
        vstd::arithmetic::div_mod::lemma_div_pos_is_pos(m, u);
        if m == 0 {
            vstd::arithmetic::div_mod::lemma_basic_div(0, u);
            assert(0 * u == 0);
        } else {
            assert(n < 0x1_0000_0000_0000_0000) by (nonlinear_arith)
                requires
                    u * n <= m,
                    m < 0x1_0000_0000_0000_0000 * u,
                    u > 0,
            ;
        }
        assert(n * u == u * n) by (nonlinear_arith);
        assert((n + 1) * u == u * n + u) by (nonlinear_arith);
    }
}

/// The nearest whole number is at most one half away, and whole.
proof fn lemma_nearest_whole_near(f: Format, a: Parts) -> (n: nat)
    requires
        f.valid(),
        a.canonical(f),
        a is Finite,
    ensures
        nearest_whole(f, a) is Finite,
        nearest_whole(f, a).canonical(f),
        key(nearest_whole(f, a)) == if key(a) < 0 {
            -(n * unit(0))
        } else {
            (n * unit(0)) as int
        },
        2 * abs(key(nearest_whole(f, a)) - key(a)) <= unit(0),
        2 * abs(key(nearest_whole(f, a)) - key(a)) == unit(0) ==> abs(key(nearest_whole(f, a))) > abs(
            key(a),
        ),
{
    let u = unit(0);
    let k = abs(key(a));
    let n = whole_of(k);
    lemma_unit_pos(0);
    lemma_nearest_whole_key(f, a);
    lemma_key_bound(f, a);
    let num = 2 * k + u;
    vstd::arithmetic::div_mod::lemma_fundamental_div_mod(num as int, (2 * u) as int);
    let rest = num % (2 * u);
    assert((2 * u) * n == 2 * (n * u)) by (nonlinear_arith);
    assert(num == 2 * (n * u) + rest);
    // the whole number is held exactly
    if let Parts::Finite { neg, mant, exp } = a {
        lemma_magnitude_sign(mant as nat, exp as int);
        if exp >= 0 {
            lemma_unit_shift(0, exp as nat);
            let m = mant as nat * pow2(exp as nat);
            assert(k == m * u) by (nonlinear_arith)
                requires
                    k == mant as nat * (pow2(exp as nat) * u),
                    m == mant as nat * pow2(exp as nat),
            ;
            assert(n == m) by (nonlinear_arith)
                requires
                    2 * (m * u) + u == 2 * (n * u) + rest,
                    0 <= rest < 2 * u,
                    u > 0,
            ;
            lemma_signed_round_exact(f, a);
        } else {
            lemma_unit_mono(exp as int, -1);
            lemma_unit_shift(-1, 1);
            lemma2_to64();
            assert(k <= mant * unit(-1)) by (nonlinear_arith)
                requires
                    k == mant as nat * unit(exp as int),
                    unit(exp as int) <= unit(-1),
            ;
            assert(2 * n <= mant + 1) by (nonlinear_arith)
                requires
                    2 * (n * u) <= 2 * k + u,
                    k <= mant * unit(-1),
                    u == 2 * unit(-1),
                    u > 0,
            ;
            if n > 0 {
                vstd::arithmetic::power2::lemma_pow2_strictly_increases(1, f.prec as nat);
                lemma_short_exact(f, n, 0);
            } else {
                lemma_zero_rounds(f);
                assert(0 * u == 0);
            }
        }
    }
    lemma_round_sign(f, magnitude(n, 0), 1);
    lemma_key_bound(f, round(f, false, magnitude(n, 0), 1));
    lemma_key_bound(f, nearest_whole(f, a));
    n
}

impl Single {
    /// The product is a number, and zero or so large that it has all its digits.
    pub open spec fn multiplies(self, other: Single) -> bool {
        &&& self.times(other).is_finite()
        &&& self.key() == 0 || other.key() == 0 || keeps_digits(
            Format::single(),
            self.times(other).parts(),
        )
    }

    /// The quotient is a number, and zero or so large that it has all its digits.
    pub open spec fn divides(self, other: Single) -> bool {
        &&& self.over(other).is_finite()
        &&& self.key() == 0 || keeps_digits(Format::single(), self.over(other).parts())
    }

    pub proof fn lemma_plus_near(a: Single, b: Single)
        requires
            a.is_finite(),
            b.is_finite(),
            a.plus(b).is_finite(),
        ensures
            near(a.plus(b).key(), a.key() + b.key(), 16),
    {
        let f = Format::single();
        reveal(Single::spec_plus);
        lemma2_to64();
        a.lemma_parts_canonical();
        b.lemma_parts_canonical();
        lemma_sum_key(f, a.parts(), b.parts());
        Single::lemma_parts_of_pack(sum(f, a.parts(), b.parts()));
        lemma_sum_near(f, a.parts(), b.parts(), 16);
    }

    pub proof fn lemma_minus_near(a: Single, b: Single)
        requires
            a.is_finite(),
            b.is_finite(),
            a.minus(b).is_finite(),
        ensures
            near(a.minus(b).key(), a.key() - b.key(), 16),
    {
        let f = Format::single();
        reveal(Single::spec_minus);
        lemma2_to64();
        a.lemma_parts_canonical();
        b.lemma_parts_canonical();
        lemma_negated_canonical(f, b.parts());
        lemma_key_negated(b.parts());
        lemma_sum_key(f, a.parts(), negated(b.parts()));
        Single::lemma_parts_of_pack(sum(f, a.parts(), negated(b.parts())));
        lemma_sum_near(f, a.parts(), negated(b.parts()), 16);
    }

    pub proof fn lemma_times_near(a: Single, b: Single)
        requires
            a.is_finite(),
            b.is_finite(),
            a.multiplies(b),
        ensures
            near(a.times(b).key() * unit(0), a.key() * b.key(), 16),
    {
        let f = Format::single();
        reveal(Single::spec_times);
        lemma2_to64();
        a.lemma_parts_canonical();
        b.lemma_parts_canonical();
        lemma_product_key(f, a.parts(), b.parts());
        Single::lemma_parts_of_pack(product(f, a.parts(), b.parts()));
        lemma_product_near(f, a.parts(), b.parts(), 16);
    }

    pub proof fn lemma_over_near(a: Single, b: Single)
        requires
            a.is_finite(),
            b.is_finite(),
            b.key() != 0,
            a.divides(b),
        ensures
            near(a.over(b).key() * b.key(), a.key() * unit(0), 16),
    {
        if b.key() > 0 {
            Single::lemma_over_positive_near(a, b);
        } else {
            let c = b.neg();
            b.lemma_neg_key();
            Single::lemma_over_negated(a, b);
            Single::lemma_over_positive_near(a, c);
            assert(a.over(c).key() * c.key() == a.over(b).key() * b.key()) by (nonlinear_arith)
                requires
                    a.over(c).key() == -a.over(b).key(),
                    c.key() == -b.key(),
            ;
        }
    }

    proof fn lemma_over_positive_near(a: Single, b: Single)
        requires
            a.is_finite(),
            b.is_finite(),
            b.key() > 0,
            a.divides(b),
        ensures
            near(a.over(b).key() * b.key(), a.key() * unit(0), 16),
    {
        let f = Format::single();
        reveal(Single::spec_over);
        lemma2_to64();
        a.lemma_parts_canonical();
        b.lemma_parts_canonical();
        lemma_quotient_key(f, a.parts(), b.parts());
        Single::lemma_parts_of_pack(quotient(f, a.parts(), b.parts()));
        lemma_quotient_near(f, a.parts(), b.parts(), 16);
    }

    pub proof fn lemma_from_u64_near(n: u64)
        ensures
            near(Single::from_u64(n).key(), n * unit(0), 16),
    {
        let f = Format::single();
        reveal(Single::spec_from_u64);
        lemma2_to64();
        lemma_whole_mono(f, n as nat, n as nat);
        Single::lemma_parts_of_pack(whole(f, n as nat));
        lemma_whole_near(f, n as nat, 16);
    }

    pub proof fn lemma_to_u64_near(self)
        requires
            self.is_finite(),
            0 <= self.key() < 0x1_0000_0000_0000_0000 * unit(0),
        ensures
            self.to_u64() * unit(0) <= self.key() < (self.to_u64() + 1) * unit(0),
    {
        reveal(Single::spec_to_u64);
        self.lemma_parts_canonical();
        lemma_truncated_near(Format::single(), self.parts());
    }

    /// The least whole number that is not below lies less than one above.
    pub proof fn lemma_ceil_near(self) -> (n: nat)
        requires
            self.is_finite(),
            0 <= self.key() <= 0xff_fffe * unit(0),
        ensures
            self.ceil().is_finite(),
            self.ceil().key() == n * unit(0),
            self.key() <= n * unit(0) < self.key() + unit(0),
    {
        let f = Format::single();
        let u = unit(0);
        reveal(Single::spec_ceil);
        lemma_unit_pos(0);
        lemma2_to64();
        self.lemma_parts_canonical();
        lemma_ceiling_not_below(f, self.parts());
        Single::lemma_parts_of_pack(ceiling(f, self.parts()));
        let mut r: nat = 0;
        if let Parts::Finite { neg, mant, exp } = self.parts() {
            let m = magnitude(mant as nat, exp as int);
            lemma_magnitude_sign(mant as nat, exp as int);
            vstd::arithmetic::div_mod::lemma_fundamental_div_mod(m as int, u as int);
            let n = if neg || m % u == 0 {
                m / u
            } else {
                m / u + 1
            };
            r = n;
            if mant == 0 {
                vstd::arithmetic::div_mod::lemma_basic_div(0, u as int);
                vstd::arithmetic::div_mod::lemma_small_mod(0, u);
                assert(n == 0);
            }
            let low = m / u;
            assert(low <= 0xff_fffe) by (nonlinear_arith)
                requires
                    u * low <= 0xff_fffe * u,
                    u > 0,
            ;
            assert(u * low == low * u) by (nonlinear_arith);
            assert((low + 1) * u == low * u + u) by (nonlinear_arith);
            if n > 0 {
                lemma_short_exact(f, n, 0);
            } else {
                lemma_zero_rounds(f);
                assert(0 * u == 0);
            }
            lemma_round_sign(f, magnitude(n, 0), 1);
            lemma_key_bound(f, round(f, false, magnitude(n, 0), 1));
            lemma_key_bound(f, ceiling(f, self.parts()));
        }
        r
    }

    /// The nearest whole number is whole, and at most one half away: where it is one half, further from
    /// zero.
    pub proof fn lemma_round_near(self) -> (n: int)
        requires
            self.is_finite(),
        ensures
            self.round().is_finite(),
            self.round().key() == n * unit(0),
            2 * abs(self.round().key() - self.key()) <= unit(0),
            2 * abs(self.round().key() - self.key()) == unit(0) ==> abs(self.round().key()) > abs(
                self.key(),
            ),
    {
        let f = Format::single();
        reveal(Single::spec_round);
        self.lemma_parts_canonical();
        let n = lemma_nearest_whole_near(f, self.parts());
        Single::lemma_parts_of_pack(nearest_whole(f, self.parts()));
        assert((-n) * unit(0) == -(n * unit(0))) by (nonlinear_arith);
        if self.key() < 0 {
            -n
        } else {
            n as int
        }
    }
}

impl Double {
    /// The product is a number, and zero or so large that it has all its digits.
    pub open spec fn multiplies(self, other: Double) -> bool {
        &&& self.times(other).is_finite()
        &&& self.key() == 0 || other.key() == 0 || keeps_digits(
            Format::double(),
            self.times(other).parts(),
        )
    }

    /// The quotient is a number, and zero or so large that it has all its digits.
    pub open spec fn divides(self, other: Double) -> bool {
        &&& self.over(other).is_finite()
        &&& self.key() == 0 || keeps_digits(Format::double(), self.over(other).parts())
    }

    pub proof fn lemma_minus_near(a: Double, b: Double)
        requires
            a.is_finite(),
            b.is_finite(),
            a.minus(b).is_finite(),
        ensures
            near(a.minus(b).key(), a.key() - b.key(), 1),
    {
        let f = Format::double();
        reveal(Double::spec_minus);
        lemma2_to64_rest();
        a.lemma_parts_canonical();
        b.lemma_parts_canonical();
        lemma_negated_canonical(f, b.parts());
        lemma_key_negated(b.parts());
        lemma_sum_key(f, a.parts(), negated(b.parts()));
        Double::lemma_parts_of_pack(sum(f, a.parts(), negated(b.parts())));
        lemma_sum_near(f, a.parts(), negated(b.parts()), 1);
    }

    pub proof fn lemma_times_near(a: Double, b: Double)
        requires
            a.is_finite(),
            b.is_finite(),
            a.multiplies(b),
        ensures
            near(a.times(b).key() * unit(0), a.key() * b.key(), 1),
    {
        let f = Format::double();
        reveal(Double::spec_times);
        lemma2_to64_rest();
        a.lemma_parts_canonical();
        b.lemma_parts_canonical();
        lemma_product_key(f, a.parts(), b.parts());
        Double::lemma_parts_of_pack(product(f, a.parts(), b.parts()));
        lemma_product_near(f, a.parts(), b.parts(), 1);
    }

    pub proof fn lemma_over_near(a: Double, b: Double)
        requires
            a.is_finite(),
            b.is_finite(),
            b.key() > 0,
            a.divides(b),
        ensures
            near(a.over(b).key() * b.key(), a.key() * unit(0), 1),
    {
        let f = Format::double();
        reveal(Double::spec_over);
        lemma2_to64_rest();
        a.lemma_parts_canonical();
        b.lemma_parts_canonical();
        lemma_quotient_key(f, a.parts(), b.parts());
        Double::lemma_parts_of_pack(quotient(f, a.parts(), b.parts()));
        lemma_quotient_near(f, a.parts(), b.parts(), 1);
    }

    /// A sum is off by at most one part in two to the power of 53.
    pub proof fn lemma_plus_fine(a: Double, b: Double)
        requires
            a.is_finite(),
            b.is_finite(),
            a.plus(b).is_finite(),
        ensures
            0x20_0000_0000_0000 * abs(a.plus(b).key() - (a.key() + b.key())) <= abs(
                a.key() + b.key(),
            ),
    {
        let f = Format::double();
        reveal(Double::spec_plus);
        lemma2_to64_rest();
        a.lemma_parts_canonical();
        b.lemma_parts_canonical();
        lemma_sum_key(f, a.parts(), b.parts());
        Double::lemma_parts_of_pack(sum(f, a.parts(), b.parts()));
        lemma_sum_error(f, a.parts(), b.parts());
    }

    /// A quotient that is not negative is off by at most one part in two to the power of 53.
    pub proof fn lemma_over_fine(a: Double, b: Double)
        requires
            a.is_finite(),
            a.key() >= 0,
            b.is_finite(),
            b.key() > 0,
            a.divides(b),
        ensures
            0x20_0000_0000_0000 * abs(a.over(b).key() * b.key() - a.key() * unit(0)) <= a.key() * unit(
                0,
            ),
    {
        let f = Format::double();
        let u = unit(0);
        reveal(Double::spec_over);
        lemma2_to64_rest();
        lemma_unit_pos(0);
        a.lemma_parts_canonical();
        b.lemma_parts_canonical();
        lemma_quotient_key(f, a.parts(), b.parts());
        let p = quotient(f, a.parts(), b.parts());
        Double::lemma_parts_of_pack(p);
        let num = abs(a.key()) * u;
        let den = abs(b.key());
        lemma_round_sign(f, num, den);
        lemma_key_bound(f, round(f, false, num, den));
        lemma_key_bound(f, p);
        if a.key() == 0 {
            assert(0 * u == 0);
            assert(0 * b.key() == 0);
        } else {
            lemma_not_small(f, num, den);
            lemma_round_error(f, num, den);
        }
    }

    pub proof fn lemma_from_u64_near(n: u64)
        ensures
            near(Double::from_u64(n).key(), n * unit(0), 1),
    {
        let f = Format::double();
        reveal(Double::spec_from_u64);
        lemma2_to64_rest();
        lemma_whole_mono(f, n as nat, n as nat);
        Double::lemma_parts_of_pack(whole(f, n as nat));
        lemma_whole_near(f, n as nat, 1);
    }

    /// Integers of up to 53 digits are held exactly.
    pub proof fn lemma_from_u64_exact(n: u64)
        requires
            n < 0x20_0000_0000_0000,
        ensures
            Double::from_u64(n).key() == n * unit(0),
    {
        let f = Format::double();
        reveal(Double::spec_from_u64);
        lemma2_to64_rest();
        lemma_whole_mono(f, n as nat, n as nat);
        Double::lemma_parts_of_pack(whole(f, n as nat));
        if n == 0 {
            lemma_zero_rounds(f);
            assert(0 * unit(0) == 0);
        } else {
            lemma_short_exact(f, n as nat, 0);
        }
    }

    /// The integer nearest to a number is at most one half away.
    pub proof fn lemma_rounded_to_u64_near(self)
        requires
            self.is_finite(),
            0 <= self.key(),
            self.round().key() < 0x1_0000_0000_0000_0000 * unit(0),
        ensures
            2 * abs(self.round().to_u64() * unit(0) - self.key()) <= unit(0),
    {
        let f = Format::double();
        let u = unit(0);
        reveal(Double::spec_round);
        reveal(Double::spec_to_u64);
        lemma_unit_pos(0);
        self.lemma_parts_canonical();
        let n = lemma_nearest_whole_near(f, self.parts());
        let r = nearest_whole(f, self.parts());
        Double::lemma_parts_of_pack(r);
        lemma_truncated_near(f, r);
        let t = truncated(r) as int;
        assert(t == n) by (nonlinear_arith)
            requires
                t * u <= n * u < (t + 1) * u,
                u > 0,
        ;
    }

    /// In the 32-bit format a number is off by at most one part in two to the power of 24.
    pub proof fn lemma_to_single_near(self)
        requires
            self.is_finite(),
            self.to_single().is_finite(),
            self.key() == 0 || keeps_digits(Format::single(), self.to_single().parts()),
        ensures
            near(self.to_single().key(), self.key(), 16),
    {
        let f = Format::single();
        reveal(Double::spec_to_single);
        lemma2_to64();
        let k = self.key();
        lemma_converted_key(f, self.parts());
        Single::lemma_parts_of_pack(converted(f, self.parts()));
        let r = round(f, false, abs(k), 1);
        lemma_round_sign(f, abs(k), 1);
        lemma_key_bound(f, r);
        lemma_key_bound(f, converted(f, self.parts()));
        if k == 0 {
            lemma_zero_rounds(f);
        } else {
            lemma_unit_pos(-126);
            lemma_not_small(f, abs(k), 1);
            lemma_round_error(f, abs(k), 1);
            lemma_near_of_error(f, key(r), abs(k) as int, 16);
            let sign: int = if k < 0 {
                -1
            } else {
                1
            };
            lemma_near_scaled(key(r), abs(k) as int, sign, 16);
            assert(key(r) * sign == self.to_single().key() && abs(k) * sign == k)
                by (nonlinear_arith)
                requires
                    sign == 1 || sign == -1,
                    sign == 1 ==> self.to_single().key() == key(r) && abs(k) == k,
                    sign == -1 ==> self.to_single().key() == -key(r) && abs(k) == -k,
            ;
        }
    }
}

} // verus!
