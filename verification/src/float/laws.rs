//! What the operations on numbers keep: their order, zero, and numbers that can be held exactly.
use crate::float::arith::{abs, negated, product, quotient, sum};
use crate::float::convert::{ceiling, converted, nearest_whole, whole};
use crate::float::double::Double;
use crate::float::grid::{lemma_unit_mono, lemma_unit_pos, lemma_unit_shift, unit};
use crate::float::monotone::{
    key, lemma_ceiling_not_below, lemma_converted_mono, lemma_key_bound, lemma_key_negated,
    lemma_magnitude_sign, lemma_nearest_whole_mono, lemma_nearest_whole_zero,
    lemma_negated_canonical, lemma_order_is_key, lemma_product_key, lemma_product_mono,
    lemma_product_scale, lemma_quotient_key, lemma_quotient_mono, lemma_round_mono,
    lemma_round_sign, lemma_signed_round_exact, lemma_sum_key, lemma_sum_mono, lemma_truncated_mono,
    lemma_whole_bounds, lemma_whole_mono, lemma_widened_exact, lemma_zero_rounds,
};
use crate::float::rounding::{lemma_round_exact, magnitude, round, Format, Parts};
use crate::float::single::Single;
use vstd::arithmetic::power2::lemma2_to64;
use vstd::prelude::*;

verus! {

impl Single {
    /// The place of the number in the order: how many steps of the grid it is, and for an infinite one a
    /// place beyond all the others.
    pub open spec fn key(self) -> int {
        key(self.parts())
    }

    pub open spec fn is_finite(self) -> bool {
        self.parts() is Finite
    }

    /// The number is finite or infinite.
    pub open spec fn is_number(self) -> bool {
        self.parts() !is Nan
    }

    /// Subtracting from a finite number turns the order round.
    pub proof fn lemma_minus_reverses(a: Single, b: Single, c: Single)
        requires
            a.is_number(),
            b.is_number(),
            c.is_finite(),
            a.key() <= b.key(),
        ensures
            c.minus(a).is_number(),
            c.minus(b).is_number(),
            c.minus(b).key() <= c.minus(a).key(),
    {
        reveal(Single::spec_minus);
        let f = Format::single();
        a.lemma_parts_canonical();
        b.lemma_parts_canonical();
        c.lemma_parts_canonical();
        let x = negated(a.parts());
        let y = negated(b.parts());
        lemma_negated_canonical(f, a.parts());
        lemma_negated_canonical(f, b.parts());
        lemma_key_negated(a.parts());
        lemma_key_negated(b.parts());
        lemma_sum_key(f, c.parts(), x);
        lemma_sum_key(f, c.parts(), y);
        Single::lemma_parts_of_pack(sum(f, c.parts(), x));
        Single::lemma_parts_of_pack(sum(f, c.parts(), y));
        lemma_sum_mono(f, c.parts(), y, c.parts(), x);
    }

    /// Adding to a finite number keeps the order.
    pub proof fn lemma_plus_order(a: Single, b: Single, c: Single)
        requires
            a.is_number(),
            b.is_number(),
            c.is_finite(),
            a.key() <= b.key(),
        ensures
            c.plus(a).is_number(),
            c.plus(b).is_number(),
            c.plus(a).key() <= c.plus(b).key(),
    {
        reveal(Single::spec_plus);
        let f = Format::single();
        a.lemma_parts_canonical();
        b.lemma_parts_canonical();
        c.lemma_parts_canonical();
        lemma_sum_key(f, c.parts(), a.parts());
        lemma_sum_key(f, c.parts(), b.parts());
        Single::lemma_parts_of_pack(sum(f, c.parts(), a.parts()));
        Single::lemma_parts_of_pack(sum(f, c.parts(), b.parts()));
        lemma_sum_mono(f, c.parts(), a.parts(), c.parts(), b.parts());
    }

    /// Multiplying by a number that is not positive turns the order round.
    pub proof fn lemma_times_reverses(a: Single, b: Single, c: Single)
        requires
            a.is_finite(),
            b.is_finite(),
            c.is_finite(),
            c.key() <= 0,
            a.key() <= b.key(),
        ensures
            a.times(c).is_number(),
            b.times(c).is_number(),
            b.times(c).key() <= a.times(c).key(),
    {
        Single::lemma_times_negated(a, c);
        Single::lemma_times_negated(b, c);
        c.lemma_neg_key();
        if c.key() < 0 {
            Single::lemma_times_order(a, b, c.neg());
        }
    }

    /// The product with a number whose sign is changed has its sign changed; the product with zero is
    /// zero.
    proof fn lemma_times_negated(a: Single, c: Single)
        requires
            a.is_finite(),
            c.is_finite(),
        ensures
            a.times(c).is_number(),
            a.times(c.neg()).key() == -a.times(c).key(),
            c.key() == 0 ==> a.times(c).key() == 0,
    {
        reveal(Single::spec_times);
        let f = Format::single();
        let u = unit(0);
        let d = c.neg();
        lemma_unit_pos(0);
        c.lemma_neg_key();
        a.lemma_parts_canonical();
        c.lemma_parts_canonical();
        d.lemma_parts_canonical();
        let n = lemma_product_key(f, a.parts(), c.parts());
        let m = lemma_product_key(f, a.parts(), d.parts());
        assert(n == m) by (nonlinear_arith)
            requires
                n * u == abs(a.key()) * abs(c.key()),
                m * u == abs(a.key()) * abs(c.key()),
                u > 0,
        ;
        if a.key() == 0 || c.key() == 0 {
            assert(n == 0) by (nonlinear_arith)
                requires
                    n * u == abs(a.key()) * abs(c.key()),
                    abs(a.key()) == 0 || abs(c.key()) == 0,
                    u > 0,
            ;
            lemma_zero_rounds(f);
        }
        Single::lemma_parts_of_pack(product(f, a.parts(), c.parts()));
        Single::lemma_parts_of_pack(product(f, a.parts(), d.parts()));
    }

    /// Multiplying by a positive number keeps the order, and zero.
    pub proof fn lemma_times_order(a: Single, b: Single, c: Single)
        requires
            a.is_number(),
            b.is_number(),
            c.is_finite(),
            c.key() > 0,
            a.key() <= b.key(),
        ensures
            a.times(c).is_number(),
            b.times(c).is_number(),
            a.times(c).key() <= b.times(c).key(),
            a.key() == 0 ==> a.times(c).key() == 0,
    {
        reveal(Single::spec_times);
        let f = Format::single();
        a.lemma_parts_canonical();
        b.lemma_parts_canonical();
        c.lemma_parts_canonical();
        lemma_product_mono(f, a.parts(), b.parts(), c.parts());
        Single::lemma_parts_of_pack(product(f, a.parts(), c.parts()));
        Single::lemma_parts_of_pack(product(f, b.parts(), c.parts()));
    }

    /// Dividing by a positive number keeps the order, and zero.
    pub proof fn lemma_over_order(a: Single, b: Single, c: Single)
        requires
            a.is_number(),
            b.is_number(),
            c.is_finite(),
            c.key() > 0,
            a.key() <= b.key(),
        ensures
            a.over(c).is_number(),
            b.over(c).is_number(),
            a.over(c).key() <= b.over(c).key(),
            a.key() == 0 ==> a.over(c).key() == 0,
    {
        reveal(Single::spec_over);
        let f = Format::single();
        a.lemma_parts_canonical();
        b.lemma_parts_canonical();
        c.lemma_parts_canonical();
        lemma_quotient_mono(f, a.parts(), b.parts(), c.parts());
        Single::lemma_parts_of_pack(quotient(f, a.parts(), c.parts()));
        Single::lemma_parts_of_pack(quotient(f, b.parts(), c.parts()));
    }

    /// Integers keep their order.
    pub proof fn lemma_from_u64_order(a: u64, b: u64)
        requires
            a <= b,
        ensures
            Single::from_u64(a).is_number(),
            Single::from_u64(b).is_number(),
            0 <= Single::from_u64(a).key() <= Single::from_u64(b).key(),
    {
        reveal(Single::spec_from_u64);
        let f = Format::single();
        lemma_whole_mono(f, a as nat, b as nat);
        Single::lemma_parts_of_pack(whole(f, a as nat));
        Single::lemma_parts_of_pack(whole(f, b as nat));
    }

    /// The integers that numbers become keep their order; they start at zero.
    pub proof fn lemma_to_u64_order(a: Single, b: Single)
        requires
            a.is_number(),
            b.is_number(),
            a.key() <= b.key(),
        ensures
            a.to_u64() <= b.to_u64(),
            a.key() <= 0 ==> a.to_u64() == 0,
    {
        reveal(Single::spec_to_u64);
        a.lemma_parts_canonical();
        b.lemma_parts_canonical();
        lemma_truncated_mono(Format::single(), a.parts(), b.parts());
    }

    /// The nearest whole numbers keep the order.
    pub proof fn lemma_round_order(a: Single, b: Single)
        requires
            a.is_number(),
            b.is_number(),
            a.key() <= b.key(),
        ensures
            a.round().is_number(),
            b.round().is_number(),
            a.round().key() <= b.round().key(),
    {
        reveal(Single::spec_round);
        let f = Format::single();
        a.lemma_parts_canonical();
        b.lemma_parts_canonical();
        lemma_nearest_whole_mono(f, a.parts(), b.parts());
        Single::lemma_parts_of_pack(nearest_whole(f, a.parts()));
        Single::lemma_parts_of_pack(nearest_whole(f, b.parts()));
    }

    /// A number less itself is zero.
    pub proof fn lemma_minus_self(a: Single)
        requires
            a.is_finite(),
        ensures
            a.minus(a).is_finite(),
            a.minus(a).key() == 0,
    {
        reveal(Single::spec_minus);
        let f = Format::single();
        a.lemma_parts_canonical();
        lemma_negated_canonical(f, a.parts());
        lemma_key_negated(a.parts());
        let r = sum(f, a.parts(), negated(a.parts()));
        lemma_sum_key(f, a.parts(), negated(a.parts()));
        lemma_zero_rounds(f);
        Single::lemma_parts_of_pack(r);
        lemma_key_bound(f, r);
    }

    /// Zero added or subtracted changes nothing.
    pub proof fn lemma_plus_zero(a: Single, z: Single)
        requires
            a.is_finite(),
            z.is_finite(),
            z.key() == 0,
        ensures
            a.plus(z).is_finite(),
            a.plus(z).key() == a.key(),
            a.minus(z).is_finite(),
            a.minus(z).key() == a.key(),
            z.plus(a).is_finite(),
            z.plus(a).key() == a.key(),
    {
        reveal(Single::spec_minus);
        reveal(Single::spec_plus);
        let f = Format::single();
        a.lemma_parts_canonical();
        z.lemma_parts_canonical();
        lemma_negated_canonical(f, z.parts());
        lemma_key_negated(z.parts());
        let r = sum(f, a.parts(), z.parts());
        let t = sum(f, a.parts(), negated(z.parts()));
        let w = sum(f, z.parts(), a.parts());
        lemma_sum_key(f, a.parts(), z.parts());
        lemma_sum_key(f, a.parts(), negated(z.parts()));
        lemma_sum_key(f, z.parts(), a.parts());
        lemma_signed_round_exact(f, a.parts());
        lemma_key_bound(f, a.parts());
        lemma_key_bound(f, r);
        lemma_key_bound(f, t);
        lemma_key_bound(f, w);
        Single::lemma_parts_of_pack(r);
        Single::lemma_parts_of_pack(t);
        Single::lemma_parts_of_pack(w);
    }

    /// Integers are finite, and from one on positive.
    pub proof fn lemma_from_u64_bounds(n: u64)
        ensures
            Single::from_u64(n).is_finite(),
            Single::from_u64(n).key() >= 0,
            n >= 1 ==> Single::from_u64(n).key() > 0,
    {
        reveal(Single::spec_from_u64);
        let f = Format::single();
        lemma_whole_bounds(f, n as nat);
        lemma_whole_mono(f, 0, n as nat);
        Single::lemma_parts_of_pack(whole(f, n as nat));
        lemma_unit_pos(0);
    }

    /// What is not negative does not make a sum smaller than the other term.
    pub proof fn lemma_plus_nonneg(a: Single, b: Single)
        requires
            a.is_finite(),
            b.is_number(),
            b.key() >= 0,
        ensures
            a.plus(b).is_number(),
            a.plus(b).key() >= a.key(),
    {
        reveal(Single::spec_plus);
        let f = Format::single();
        a.lemma_parts_canonical();
        b.lemma_parts_canonical();
        lemma_sum_key(f, a.parts(), b.parts());
        Single::lemma_parts_of_pack(sum(f, a.parts(), b.parts()));
        let z = Single { bits: 0 };
        Single::lemma_zero_key();
        Single::lemma_plus_zero(a, z);
        z.lemma_parts_canonical();
        lemma_sum_key(f, a.parts(), z.parts());
        Single::lemma_parts_of_pack(sum(f, a.parts(), z.parts()));
        lemma_sum_mono(f, a.parts(), z.parts(), a.parts(), b.parts());
    }

    /// The comparisons of numbers are those of their places.
    pub proof fn lemma_order(a: Single, b: Single)
        requires
            a.is_number(),
            b.is_number(),
        ensures
            a.lt(b) == (a.key() < b.key()),
            a.le(b) == (a.key() <= b.key()),
            a.gt(b) == (a.key() > b.key()),
            a.ge(b) == (a.key() >= b.key()),
            a.equals(b) == (a.key() == b.key()),
    {
        reveal(Single::spec_equals);
        reveal(Single::spec_gt);
        reveal(Single::spec_lt);
        a.lemma_parts_canonical();
        b.lemma_parts_canonical();
        lemma_order_is_key(Format::single(), a.parts(), b.parts());
        lemma_order_is_key(Format::single(), b.parts(), a.parts());
    }

    /// Only numbers compare.
    pub proof fn lemma_ordered_are_numbers(a: Single, b: Single)
        requires
            a.le(b) || a.ge(b) || a.lt(b) || a.gt(b) || a.equals(b),
        ensures
            a.is_number(),
            b.is_number(),
    {
        reveal(Single::spec_equals);
        reveal(Single::spec_gt);
        reveal(Single::spec_lt);
    }

    /// Changing the sign turns the order round.
    pub proof fn lemma_neg_key(self)
        ensures
            self.neg().parts() == negated(self.parts()),
            self.neg().key() == -self.key(),
            self.is_number() == self.neg().is_number(),
            self.is_finite() == self.neg().is_finite(),
    {
    }

    pub proof fn lemma_abs_key(self)
        ensures
            self.abs().key() == abs(self.key()),
            self.is_number() == self.abs().is_number(),
            self.is_finite() == self.abs().is_finite(),
    {
        self.lemma_parts_canonical();
        lemma_key_bound(Format::single(), self.parts());
    }

    pub proof fn lemma_zero_key()
        ensures
            (Single { bits: 0 }).is_finite(),
            (Single { bits: 0 }).key() == 0,
    {
        assert(magnitude(0, -149) == 0) by (nonlinear_arith)
            requires
                magnitude(0, -149) == 0 * unit(-149),
        ;
    }

    /// A number at the place of zero is zero.
    pub proof fn lemma_number_of_key(v: Single)
        requires
            v.is_number(),
            v.key() == 0,
        ensures
            v.is_finite(),
    {
        v.lemma_parts_canonical();
        lemma_key_bound(Format::single(), v.parts());
    }

    pub proof fn lemma_from_zero()
        ensures
            Single::from_u64(0).is_finite(),
            Single::from_u64(0).key() == 0,
    {
        reveal(Single::spec_from_u64);
        let f = Format::single();
        Single::lemma_from_u64_bounds(0);
        assert(magnitude(0, 0) == 0) by (nonlinear_arith)
            requires
                magnitude(0, 0) == 0 * unit(0),
        ;
        lemma_zero_rounds(f);
        lemma_whole_mono(f, 0, 0);
        Single::lemma_parts_of_pack(whole(f, 0));
    }

    /// The whole number nearest to zero is zero.
    pub proof fn lemma_round_zero(v: Single)
        requires
            v.is_number(),
            v.key() == 0,
        ensures
            v.round().is_finite(),
            v.round().key() == 0,
    {
        reveal(Single::spec_round);
        let f = Format::single();
        v.lemma_parts_canonical();
        lemma_key_bound(f, v.parts());
        lemma_nearest_whole_zero(f, v.parts());
        lemma_nearest_whole_mono(f, v.parts(), v.parts());
        Single::lemma_parts_of_pack(nearest_whole(f, v.parts()));
        lemma_key_bound(f, nearest_whole(f, v.parts()));
    }

    /// The 64-bit format holds every number of the 32-bit one.
    pub proof fn lemma_to_double_exact(self)
        requires
            self.is_finite(),
        ensures
            self.to_double().is_finite(),
            self.to_double().key() == self.key(),
    {
        reveal(Single::spec_to_double);
        self.lemma_parts_canonical();
        lemma_widened_exact(self.parts());
        Double::lemma_parts_of_pack(converted(Format::double(), self.parts()));
    }

    pub proof fn lemma_one_key()
        ensures
            (Single { bits: 0x3f80_0000 }).is_finite(),
            (Single { bits: 0x3f80_0000 }).key() == unit(0),
    {
        lemma2_to64();
        lemma_unit_shift(-23, 23);
    }

    pub proof fn lemma_two_key()
        ensures
            (Single { bits: 0x4000_0000 }).is_finite(),
            (Single { bits: 0x4000_0000 }).key() == 2 * unit(0),
    {
        lemma2_to64();
        lemma_unit_shift(-22, 23);
        lemma_unit_shift(0, 1);
    }

    pub proof fn lemma_four_key()
        ensures
            (Single { bits: 0x4080_0000 }).is_finite(),
            (Single { bits: 0x4080_0000 }).key() == 4 * unit(0),
    {
        lemma2_to64();
        lemma_unit_shift(-21, 23);
        lemma_unit_shift(0, 2);
    }

    /// A pattern of a normal number without sign is a positive number.
    pub proof fn lemma_positive(self)
        requires
            0x80_0000 <= self.bits < 0x7f80_0000,
        ensures
            self.is_finite(),
            self.key() > 0,
    {
        if let Parts::Finite { neg, mant, exp } = self.parts() {
            lemma_magnitude_sign(mant as nat, exp as int);
        }
    }

    /// The sign of a number that is not zero is that of its pattern.
    pub proof fn lemma_sign(self)
        ensures
            self.key() > 0 ==> self.bits < 0x8000_0000,
            self.key() < 0 ==> self.bits >= 0x8000_0000,
    {
        self.lemma_parts_canonical();
        lemma_key_bound(Format::single(), self.parts());
        if let Parts::Finite { neg, mant, exp } = self.parts() {
            lemma_magnitude_sign(mant as nat, exp as int);
        }
    }

    /// A positive number times any number is a number. Times one or more it does not become smaller,
    /// times one or less not larger.
    pub proof fn lemma_times_scale(a: Single, c: Single)
        requires
            a.is_finite(),
            a.key() > 0,
            c.is_number(),
        ensures
            a.times(c).is_number(),
            c.key() >= unit(0) ==> a.times(c).key() >= a.key(),
            c.key() <= unit(0) ==> a.times(c).key() <= a.key(),
    {
        reveal(Single::spec_times);
        let f = Format::single();
        a.lemma_parts_canonical();
        c.lemma_parts_canonical();
        lemma_key_bound(f, a.parts());
        lemma_key_bound(f, c.parts());
        lemma_unit_pos(0);
        if let Parts::Finite { neg, mant, exp } = a.parts() {
            lemma_magnitude_sign(mant as nat, exp as int);
        }
        if c.is_finite() {
            let n = lemma_product_key(f, a.parts(), c.parts());
            lemma_round_sign(f, n, 1);
            if c.key() >= 0 {
                lemma_product_scale(f, a.parts(), c.parts());
            }
        } else {
            lemma2_to64();
            lemma_unit_shift(0, 1);
            lemma_unit_mono(1, 1100);
            assert(product(f, a.parts(), c.parts()) == c.parts());
        }
        Single::lemma_parts_of_pack(product(f, a.parts(), c.parts()));
    }

    /// A number moved into a range of numbers lies in it.
    pub proof fn lemma_clamp_within(v: Single, min: Single, max: Single)
        requires
            v.is_number(),
            min.le(max),
        ensures
            v.clamp(min, max).is_number(),
            min.le(v.clamp(min, max)),
            v.clamp(min, max).le(max),
    {
        Single::lemma_ordered_are_numbers(min, max);
        Single::lemma_order(min, max);
        Single::lemma_order(v, min);
        Single::lemma_order(v, max);
        Single::lemma_order(min, v);
        Single::lemma_order(min, min);
        Single::lemma_order(max, max);
    }

    /// Rounding up does not make a number smaller.
    pub proof fn lemma_ceil_not_below(v: Single)
        requires
            v.is_number(),
            v.key() >= 0,
        ensures
            v.ceil().is_number(),
            v.ceil().key() >= v.key(),
    {
        reveal(Single::spec_ceil);
        let f = Format::single();
        v.lemma_parts_canonical();
        lemma_ceiling_not_below(f, v.parts());
        Single::lemma_parts_of_pack(ceiling(f, v.parts()));
    }

    /// A finite number and a number add up to a number.
    pub proof fn lemma_sum_with_finite(a: Single, b: Single)
        requires
            a.is_finite(),
            b.is_number(),
        ensures
            a.plus(b).is_number(),
    {
        reveal(Single::spec_plus);
        let f = Format::single();
        a.lemma_parts_canonical();
        b.lemma_parts_canonical();
        lemma_sum_key(f, a.parts(), b.parts());
        Single::lemma_parts_of_pack(sum(f, a.parts(), b.parts()));
    }

    /// What is not positive does not make a sum larger than the other term.
    pub proof fn lemma_plus_nonpos(a: Single, b: Single)
        requires
            a.is_finite(),
            b.is_number(),
            b.key() <= 0,
        ensures
            a.plus(b).is_number(),
            a.plus(b).key() <= a.key(),
    {
        reveal(Single::spec_plus);
        let f = Format::single();
        a.lemma_parts_canonical();
        b.lemma_parts_canonical();
        lemma_sum_key(f, a.parts(), b.parts());
        Single::lemma_parts_of_pack(sum(f, a.parts(), b.parts()));
        let z = Single { bits: 0 };
        Single::lemma_zero_key();
        Single::lemma_plus_zero(a, z);
        z.lemma_parts_canonical();
        lemma_sum_key(f, a.parts(), z.parts());
        Single::lemma_parts_of_pack(sum(f, a.parts(), z.parts()));
        lemma_sum_mono(f, a.parts(), b.parts(), a.parts(), z.parts());
    }

    /// Zero times a finite number is zero.
    pub proof fn lemma_zero_times(z: Single, c: Single)
        requires
            z.is_finite(),
            z.key() == 0,
            c.is_finite(),
        ensures
            z.times(c).is_finite(),
            z.times(c).key() == 0,
    {
        reveal(Single::spec_times);
        let f = Format::single();
        z.lemma_parts_canonical();
        c.lemma_parts_canonical();
        let n = lemma_product_key(f, z.parts(), c.parts());
        lemma_unit_pos(0);
        assert(n == 0) by (nonlinear_arith)
            requires
                n * unit(0) == abs(z.key()) * abs(c.key()),
                abs(z.key()) == 0,
                unit(0) > 0,
        ;
        lemma_zero_rounds(f);
        let r = product(f, z.parts(), c.parts());
        lemma_key_bound(f, r);
        Single::lemma_parts_of_pack(r);
    }

    /// A share of a number that is not negative is finite, and neither negative nor larger.
    pub proof fn lemma_share_within(part: Single, whole: Single, width: Single)
        requires
            part.is_finite(),
            whole.is_finite(),
            width.is_finite(),
            0 < part.key() <= whole.key(),
            width.key() >= 0,
        ensures
            part.over(whole).times(width).is_finite(),
            0 <= part.over(whole).times(width).key() <= width.key(),
    {
        reveal(Single::spec_over);
        reveal(Single::spec_times);
        let f = Format::single();
        let u = unit(0);
        let share = part.over(whole);
        part.lemma_parts_canonical();
        whole.lemma_parts_canonical();
        width.lemma_parts_canonical();
        lemma_unit_pos(0);
        lemma_quotient_key(f, part.parts(), whole.parts());
        let q = quotient(f, part.parts(), whole.parts());
        Single::lemma_parts_of_pack(q);
        let (k, l) = (abs(part.key()), abs(whole.key()));
        assert((k * u) * 1 <= u * l) by (nonlinear_arith)
            requires
                k <= l,
        ;
        lemma_round_mono(f, k * u, l, u, 1);
        let one = Single { bits: 0x3f80_0000 };
        Single::lemma_one_key();
        one.lemma_parts_canonical();
        lemma_signed_round_exact(f, one.parts());
        lemma_key_bound(f, one.parts());
        lemma_key_bound(f, q);
        share.lemma_parts_canonical();
        let n = lemma_product_key(f, share.parts(), width.parts());
        let m = lemma_product_key(f, width.parts(), share.parts());
        assert(n == m) by (nonlinear_arith)
            requires
                n * u == abs(share.key()) * abs(width.key()),
                m * u == abs(width.key()) * abs(share.key()),
                u > 0,
        ;
        lemma_product_scale(f, width.parts(), share.parts());
        let p = product(f, share.parts(), width.parts());
        lemma_key_bound(f, p);
        lemma_key_bound(f, width.parts());
        Single::lemma_parts_of_pack(p);
    }

    /// A number whose product with a finite one is finite is finite.
    pub proof fn lemma_factor_finite(a: Single, c: Single)
        requires
            a.is_finite(),
            c.is_number(),
            a.times(c).is_finite(),
        ensures
            c.is_finite(),
    {
        reveal(Single::spec_times);
        let f = Format::single();
        if !c.is_finite() {
            Single::lemma_parts_of_pack(product(f, a.parts(), c.parts()));
        }
    }

    /// A finite number times a number is a number, unless zero is multiplied by an infinite one.
    pub proof fn lemma_product_is_number(a: Single, c: Single)
        requires
            a.is_finite(),
            c.is_number(),
            a.key() != 0 || c.is_finite(),
        ensures
            a.times(c).is_number(),
    {
        reveal(Single::spec_times);
        let f = Format::single();
        a.lemma_parts_canonical();
        c.lemma_parts_canonical();
        if c.is_finite() {
            lemma_product_key(f, a.parts(), c.parts());
        } else if let Parts::Finite { neg, mant, exp } = a.parts() {
            lemma_magnitude_sign(mant as nat, exp as int);
        }
        Single::lemma_parts_of_pack(product(f, a.parts(), c.parts()));
    }

    /// The quotient by a number whose sign is changed has its sign changed.
    pub proof fn lemma_over_negated(a: Single, c: Single)
        requires
            a.is_finite(),
            c.is_finite(),
            c.key() != 0,
        ensures
            a.over(c.neg()).is_finite() == a.over(c).is_finite(),
            a.over(c.neg()).key() == -a.over(c).key(),
    {
        reveal(Single::spec_over);
        let f = Format::single();
        let d = c.neg();
        c.lemma_neg_key();
        a.lemma_parts_canonical();
        c.lemma_parts_canonical();
        d.lemma_parts_canonical();
        match (a.parts(), c.parts()) {
            (
                Parts::Finite { neg: x, mant: m, exp: k },
                Parts::Finite { neg: y, mant: n, exp: l },
            ) => {
                lemma_magnitude_sign(n as nat, l as int);
                let num = magnitude(m as nat, k as int) * unit(0);
                let den = magnitude(n as nat, l as int);
                lemma_round_sign(f, num, den);
                lemma_key_bound(f, round(f, true, num, den));
                lemma_key_bound(f, round(f, false, num, den));
            },
            _ => {},
        }
        Single::lemma_parts_of_pack(quotient(f, a.parts(), c.parts()));
        Single::lemma_parts_of_pack(quotient(f, a.parts(), d.parts()));
    }

    /// Half of a finite number is finite.
    pub proof fn lemma_half_finite(a: Single)
        requires
            a.is_finite(),
        ensures
            a.over(Single { bits: 0x4000_0000 }).is_finite(),
    {
        reveal(Single::spec_over);
        let f = Format::single();
        let two = Single { bits: 0x4000_0000 };
        a.lemma_parts_canonical();
        two.lemma_parts_canonical();
        two.lemma_positive();
        Single::lemma_two_key();
        lemma_quotient_key(f, a.parts(), two.parts());
        let k = abs(a.key());
        let u = unit(0);
        lemma_unit_pos(0);
        assert((k * u) * 1 <= k * (2 * u)) by (nonlinear_arith);
        lemma_round_mono(f, k * u, 2 * u, k, 1);
        lemma_signed_round_exact(f, a.parts());
        lemma_key_bound(f, a.parts());
        let r = quotient(f, a.parts(), two.parts());
        lemma_key_bound(f, r);
        lemma_round_sign(f, k, 1);
        lemma_round_sign(f, k * u, 2 * u);
        Single::lemma_parts_of_pack(r);
    }

    /// Thirty times three is ninety.
    pub proof fn lemma_thirty_times_three()
        ensures
            (Single { bits: 0x41f0_0000 }).times((Single { bits: 0x4040_0000 })) == (Single {
                bits: 0x42b4_0000,
            }),
            (Single { bits: 0x42b4_0000 }).is_finite(),
            (Single { bits: 0x42b4_0000 }).key() > 0,
    {
        reveal(Single::spec_times);
        let f = Format::single();
        let ninety = Single { bits: 0x42b4_0000 };
        assert((Single { bits: 0x41f0_0000 }).parts() == (Parts::Finite {
            neg: false,
            mant: 15_728_640,
            exp: -19i32,
        }));
        assert((Single { bits: 0x4040_0000 }).parts() == (Parts::Finite {
            neg: false,
            mant: 12_582_912,
            exp: -22i32,
        }));
        assert(ninety.parts() == (Parts::Finite { neg: false, mant: 11_796_480, exp: -17i32 }));
        ninety.lemma_pack_of_parts();
        ninety.lemma_positive();
        lemma2_to64();
        lemma_unit_shift(-41, 24);
        assert(magnitude(197_912_092_999_680, -41) == magnitude(11_796_480, -17)) by (nonlinear_arith)
            requires
                magnitude(197_912_092_999_680, -41) == 197_912_092_999_680 * unit(-41),
                magnitude(11_796_480, -17) == 11_796_480 * unit(-17),
                unit(-17) == 16_777_216 * unit(-41),
        ;
        lemma_round_exact(f, false, 11_796_480, -17i32, 1);
        let (a, b) = ((Single { bits: 0x41f0_0000 }), (Single { bits: 0x4040_0000 }));
        assert(15_728_640 * 12_582_912 == 197_912_092_999_680);
        assert(1 * magnitude(11_796_480, -17) == magnitude(11_796_480, -17));
        assert(product(f, a.parts(), b.parts()) == round(
            f,
            false,
            magnitude(197_912_092_999_680, -41),
            1,
        ));
        assert(product(f, a.parts(), b.parts()) == ninety.parts());
        assert(a.times(b) == Single::pack(ninety.parts()));
    }

}

impl Double {
    /// The place of the number in the order: how many steps of the grid it is, and for an infinite one a
    /// place beyond all the others.
    pub open spec fn key(self) -> int {
        key(self.parts())
    }

    pub open spec fn is_finite(self) -> bool {
        self.parts() is Finite
    }

    /// The number is finite or infinite.
    pub open spec fn is_number(self) -> bool {
        self.parts() !is Nan
    }

    /// Subtracting a finite number keeps the order.
    pub proof fn lemma_minus_order(a: Double, b: Double, c: Double)
        requires
            a.is_number(),
            b.is_number(),
            c.is_finite(),
            a.key() <= b.key(),
        ensures
            a.minus(c).is_number(),
            b.minus(c).is_number(),
            a.minus(c).key() <= b.minus(c).key(),
    {
        reveal(Double::spec_minus);
        let f = Format::double();
        a.lemma_parts_canonical();
        b.lemma_parts_canonical();
        c.lemma_parts_canonical();
        let d = negated(c.parts());
        lemma_negated_canonical(f, c.parts());
        lemma_sum_key(f, a.parts(), d);
        lemma_sum_key(f, b.parts(), d);
        Double::lemma_parts_of_pack(sum(f, a.parts(), d));
        Double::lemma_parts_of_pack(sum(f, b.parts(), d));
        lemma_sum_mono(f, a.parts(), d, b.parts(), d);
    }

    /// Multiplying by a positive number keeps the order, and zero.
    pub proof fn lemma_times_order(a: Double, b: Double, c: Double)
        requires
            a.is_number(),
            b.is_number(),
            c.is_finite(),
            c.key() > 0,
            a.key() <= b.key(),
        ensures
            a.times(c).is_number(),
            b.times(c).is_number(),
            a.times(c).key() <= b.times(c).key(),
            a.key() == 0 ==> a.times(c).key() == 0,
    {
        reveal(Double::spec_times);
        let f = Format::double();
        a.lemma_parts_canonical();
        b.lemma_parts_canonical();
        c.lemma_parts_canonical();
        lemma_product_mono(f, a.parts(), b.parts(), c.parts());
        Double::lemma_parts_of_pack(product(f, a.parts(), c.parts()));
        Double::lemma_parts_of_pack(product(f, b.parts(), c.parts()));
    }

    /// Dividing by a positive number keeps the order, and zero.
    pub proof fn lemma_over_order(a: Double, b: Double, c: Double)
        requires
            a.is_number(),
            b.is_number(),
            c.is_finite(),
            c.key() > 0,
            a.key() <= b.key(),
        ensures
            a.over(c).is_number(),
            b.over(c).is_number(),
            a.over(c).key() <= b.over(c).key(),
            a.key() == 0 ==> a.over(c).key() == 0,
    {
        reveal(Double::spec_over);
        let f = Format::double();
        a.lemma_parts_canonical();
        b.lemma_parts_canonical();
        c.lemma_parts_canonical();
        lemma_quotient_mono(f, a.parts(), b.parts(), c.parts());
        Double::lemma_parts_of_pack(quotient(f, a.parts(), c.parts()));
        Double::lemma_parts_of_pack(quotient(f, b.parts(), c.parts()));
    }

    /// Integers keep their order.
    pub proof fn lemma_from_u64_order(a: u64, b: u64)
        requires
            a <= b,
        ensures
            Double::from_u64(a).is_number(),
            Double::from_u64(b).is_number(),
            0 <= Double::from_u64(a).key() <= Double::from_u64(b).key(),
    {
        reveal(Double::spec_from_u64);
        let f = Format::double();
        lemma_whole_mono(f, a as nat, b as nat);
        Double::lemma_parts_of_pack(whole(f, a as nat));
        Double::lemma_parts_of_pack(whole(f, b as nat));
    }

    /// A number less itself is zero.
    pub proof fn lemma_minus_self(a: Double)
        requires
            a.is_finite(),
        ensures
            a.minus(a).is_finite(),
            a.minus(a).key() == 0,
    {
        reveal(Double::spec_minus);
        let f = Format::double();
        a.lemma_parts_canonical();
        lemma_negated_canonical(f, a.parts());
        lemma_key_negated(a.parts());
        let r = sum(f, a.parts(), negated(a.parts()));
        lemma_sum_key(f, a.parts(), negated(a.parts()));
        lemma_zero_rounds(f);
        Double::lemma_parts_of_pack(r);
        lemma_key_bound(f, r);
    }

    /// Integers are finite, and from one on positive.
    pub proof fn lemma_from_u64_bounds(n: u64)
        ensures
            Double::from_u64(n).is_finite(),
            Double::from_u64(n).key() >= 0,
            n >= 1 ==> Double::from_u64(n).key() > 0,
    {
        reveal(Double::spec_from_u64);
        let f = Format::double();
        lemma_whole_bounds(f, n as nat);
        lemma_whole_mono(f, 0, n as nat);
        Double::lemma_parts_of_pack(whole(f, n as nat));
        lemma_unit_pos(0);
    }

    /// The 32-bit format keeps the order, and zero.
    pub proof fn lemma_to_single_order(a: Double, b: Double)
        requires
            a.is_number(),
            b.is_number(),
            a.key() <= b.key(),
        ensures
            a.to_single().is_number(),
            b.to_single().is_number(),
            a.to_single().key() <= b.to_single().key(),
            a.key() == 0 ==> a.to_single().key() == 0,
    {
        reveal(Double::spec_to_single);
        a.lemma_parts_canonical();
        b.lemma_parts_canonical();
        lemma_converted_mono(Format::double(), Format::single(), a.parts(), b.parts());
        Single::lemma_parts_of_pack(converted(Format::single(), a.parts()));
        Single::lemma_parts_of_pack(converted(Format::single(), b.parts()));
    }
}

impl Single {
    /// What is chosen among numbers follows their order. A number is kept within a range where it lies there
    /// and becomes its nearer end where it does not; what is not a number is no end. The larger of two is
    /// the one that is not below the other, and the one that is a number where only one is.
    pub proof fn law_choices_follow_the_order(self, a: Single, b: Single)
        requires
            a.is_number(),
            b.is_number(),
        ensures
            a.key() <= b.key() && self.is_number() && self.key() < a.key() ==> self.clamp(a, b) == a,
            a.key() <= b.key() && self.is_number() && self.key() > b.key() ==> self.clamp(a, b) == b,
            self.is_number() && a.key() <= self.key() <= b.key() ==> self.clamp(a, b) == self,
            !self.is_number() ==> self.clamp(a, b) == self && self.max(a) == a && a.max(self) == a,
            a.max(b) == if a.key() < b.key() {
                b
            } else {
                a
            },
    {
        reveal(Single::spec_lt);
        reveal(Single::spec_gt);
        Single::lemma_order(a, b);
        if self.is_number() {
            Single::lemma_order(self, a);
            Single::lemma_order(self, b);
        }
    }

    /// The sign of a number is one or minus one, by the sign that it is written with.
    pub proof fn law_signs_are_ones(self)
        ensures
            self.is_number() && self.bits < 0x8000_0000 ==> self.signum().key() == unit(0),
            self.is_number() && self.bits >= 0x8000_0000 ==> self.signum().key() == -unit(0),
            !self.is_number() ==> !self.signum().is_number(),
            self.is_nan() == !self.is_number(),
    {
        let one = Single { bits: 0x3f80_0000 };
        Single::lemma_one_key();
        one.lemma_neg_key();
        assert(one.neg() == (Single { bits: 0xbf80_0000 }));
    }
}

impl Single {
    /// As an integer, what is not a number and what is negative is zero, and what is beyond the largest
    /// integer is that one.
    pub proof fn law_integers_stay_in_range(self)
        ensures
            !self.is_number() ==> self.to_u64() == 0,
            self.is_number() && self.key() <= 0 ==> self.to_u64() == 0,
            self.is_number() && self.key() >= 0x1_0000_0000_0000_0000 * unit(0) ==> self.to_u64()
                == u64::MAX,
    {
        let f = Format::single();
        reveal(Single::spec_to_u64);
        self.lemma_parts_canonical();
        lemma_unit_pos(0);
        lemma_key_bound(f, self.parts());
        if let Parts::Finite { neg, mant, exp } = self.parts() {
            let m = magnitude(mant as nat, exp as int);
            let u = unit(0);
            lemma_magnitude_sign(mant as nat, exp as int);
            vstd::arithmetic::div_mod::lemma_fundamental_div_mod(m as int, u as int);
            let n = m / u;
            if self.key() >= 0x1_0000_0000_0000_0000 * u {
                assert(n > u64::MAX) by (nonlinear_arith)
                    requires
                        m == u * n + m % u,
                        m % u < u,
                        m >= 0x1_0000_0000_0000_0000 * u,
                        u > 0,
                ;
            }
            if m == 0 {
                vstd::arithmetic::div_mod::lemma_basic_div(0, u as int);
            }
        }
    }
}

impl Double {
    /// As an integer, what is not a number and what is negative is zero, and what is beyond the largest
    /// integer is that one.
    pub proof fn law_integers_stay_in_range(self)
        ensures
            !self.is_number() ==> self.to_u64() == 0,
            self.is_number() && self.key() <= 0 ==> self.to_u64() == 0,
            self.is_number() && self.key() >= 0x1_0000_0000_0000_0000 * unit(0) ==> self.to_u64()
                == u64::MAX,
    {
        let f = Format::double();
        reveal(Double::spec_to_u64);
        self.lemma_parts_canonical();
        lemma_unit_pos(0);
        lemma_key_bound(f, self.parts());
        if let Parts::Finite { neg, mant, exp } = self.parts() {
            let m = magnitude(mant as nat, exp as int);
            let u = unit(0);
            lemma_magnitude_sign(mant as nat, exp as int);
            vstd::arithmetic::div_mod::lemma_fundamental_div_mod(m as int, u as int);
            let n = m / u;
            if self.key() >= 0x1_0000_0000_0000_0000 * u {
                assert(n > u64::MAX) by (nonlinear_arith)
                    requires
                        m == u * n + m % u,
                        m % u < u,
                        m >= 0x1_0000_0000_0000_0000 * u,
                        u > 0,
                ;
            }
            if m == 0 {
                vstd::arithmetic::div_mod::lemma_basic_div(0, u as int);
            }
        }
    }
}

} // verus!
