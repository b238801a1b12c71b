//! Prices, times and coordinates lie in the same order, and the origin is the base price at the
//! latest time.
use crate::constants::ZERO;
use crate::float::double::Double;
use crate::float::single::Single;
use crate::geometry::Rectangle;
use crate::state::{Basis, ChartState};
use vstd::prelude::*;

verus! {

impl ChartState {
    /// Prices can be placed: the sizes that they are scaled by are positive numbers.
    pub open spec fn has_price_scale(self) -> bool {
        &&& self.base_price_y.is_finite()
        &&& self.tick_size.is_finite()
        &&& self.tick_size.gt(Single { bits: ZERO })
        &&& self.cell_height.is_finite()
        &&& self.cell_height.gt(Single { bits: ZERO })
    }

    /// Times can be placed: cells have a width, and stand for something.
    pub open spec fn has_interval_scale(self) -> bool {
        &&& self.cell_width.is_finite()
        &&& self.cell_width.gt(Single { bits: ZERO })
        &&& self.basis matches Basis::Time(interval) ==> interval > 0
    }
}

proof fn lemma_price_scale(s: ChartState)
    requires
        s.has_price_scale(),
    ensures
        s.tick_size.key() > 0,
        s.cell_height.key() > 0,
{
    Single::lemma_zero_key();
    Single::lemma_order(s.tick_size, Single { bits: ZERO });
    Single::lemma_order(s.cell_height, Single { bits: ZERO });
}

proof fn lemma_interval_scale(s: ChartState)
    requires
        s.has_interval_scale(),
    ensures
        s.cell_width.key() > 0,
{
    Single::lemma_zero_key();
    Single::lemma_order(s.cell_width, Single { bits: ZERO });
}

/// A higher price does not lie lower on the chart.
pub proof fn law_higher_prices_lie_higher(s: ChartState, low: Single, high: Single)
    requires
        s.has_price_scale(),
        low.le(high),
    ensures
        s.price_to_y(high).le(s.price_to_y(low)),
{
    lemma_price_scale(s);
    Single::lemma_ordered_are_numbers(low, high);
    Single::lemma_order(low, high);
    Single::lemma_minus_reverses(low, high, s.base_price_y);
    let a = s.base_price_y.minus(high);
    let b = s.base_price_y.minus(low);
    Single::lemma_over_order(a, b, s.tick_size);
    Single::lemma_times_order(a.over(s.tick_size), b.over(s.tick_size), s.cell_height);
    Single::lemma_order(s.price_to_y(high), s.price_to_y(low));
}

/// A lower place on the chart does not have a higher price.
pub proof fn law_lower_places_have_lower_prices(s: ChartState, upper: Single, lower: Single)
    requires
        s.has_price_scale(),
        upper.le(lower),
    ensures
        s.y_to_price(lower).le(s.y_to_price(upper)),
{
    lemma_price_scale(s);
    Single::lemma_ordered_are_numbers(upper, lower);
    Single::lemma_order(upper, lower);
    Single::lemma_over_order(upper, lower, s.cell_height);
    let a = upper.over(s.cell_height);
    let b = lower.over(s.cell_height);
    Single::lemma_times_order(a, b, s.tick_size);
    Single::lemma_minus_reverses(a.times(s.tick_size), b.times(s.tick_size), s.base_price_y);
    Single::lemma_order(s.y_to_price(lower), s.y_to_price(upper));
}

/// The base price lies at the vertical origin, and the price there is the base price.
pub proof fn law_base_price_at_origin(s: ChartState)
    requires
        s.has_price_scale(),
    ensures
        s.price_to_y(s.base_price_y).equals(Single { bits: ZERO }),
        s.y_to_price(Single { bits: ZERO }).equals(s.base_price_y),
{
    let zero = Single { bits: ZERO };
    lemma_price_scale(s);
    Single::lemma_zero_key();
    let d = s.base_price_y.minus(s.base_price_y);
    Single::lemma_minus_self(s.base_price_y);
    Single::lemma_over_order(d, d, s.tick_size);
    let t = d.over(s.tick_size);
    Single::lemma_times_order(t, t, s.cell_height);
    Single::lemma_order(s.price_to_y(s.base_price_y), zero);
    Single::lemma_over_order(zero, zero, s.cell_height);
    let c = zero.over(s.cell_height);
    Single::lemma_times_order(c, c, s.tick_size);
    let v = c.times(s.tick_size);
    Single::lemma_number_of_key(v);
    Single::lemma_plus_zero(s.base_price_y, v);
    Single::lemma_order(s.y_to_price(zero), s.base_price_y);
}

/// What is at the top of a region is not cheaper than what is at its bottom.
pub proof fn law_price_range_is_ordered(s: ChartState, region: Rectangle)
    requires
        s.has_price_scale(),
        region.y.is_finite(),
        region.height.ge(Single { bits: ZERO }),
    ensures
        s.price_range(region).1.le(s.price_range(region).0),
{
    Single::lemma_zero_key();
    Single::lemma_ordered_are_numbers(region.height, Single { bits: ZERO });
    Single::lemma_order(region.height, Single { bits: ZERO });
    Single::lemma_plus_nonneg(region.y, region.height);
    Single::lemma_order(region.y, region.y.plus(region.height));
    law_lower_places_have_lower_prices(s, region.y, region.y.plus(region.height));
}

/// On a chart by time, a later time does not lie further left; on one by trades, a trade that is
/// further back does not lie further right.
pub proof fn law_intervals_lie_in_order(s: ChartState, a: u64, b: u64)
    requires
        s.has_interval_scale(),
        a <= b,
    ensures
        s.basis is Time ==> s.interval_to_x(a).le(s.interval_to_x(b)),
        s.basis is Tick ==> s.interval_to_x(b).le(s.interval_to_x(a)),
{
    lemma_interval_scale(s);
    match s.basis {
        Basis::Time(interval) => {
            let latest = Double::from_u64(s.latest_x);
            let span = Double::from_u64(interval);
            let width = s.cell_width.to_double();
            Double::lemma_from_u64_order(a, b);
            Double::lemma_from_u64_bounds(s.latest_x);
            Double::lemma_from_u64_bounds(interval);
            s.cell_width.lemma_to_double_exact();
            Double::lemma_minus_order(Double::from_u64(a), Double::from_u64(b), latest);
            let x = Double::from_u64(a).minus(latest);
            let y = Double::from_u64(b).minus(latest);
            Double::lemma_over_order(x, y, span);
            Double::lemma_times_order(x.over(span), y.over(span), width);
            Double::lemma_to_single_order(x.over(span).times(width), y.over(span).times(width));
        },
        Basis::Tick(_) => {
            Single::lemma_from_u64_order(a, b);
            Single::lemma_times_order(Single::from_u64(a), Single::from_u64(b), s.cell_width);
            Single::from_u64(a).times(s.cell_width).lemma_neg_key();
            Single::from_u64(b).times(s.cell_width).lemma_neg_key();
        },
    }
    Single::lemma_order(s.interval_to_x(a), s.interval_to_x(b));
    Single::lemma_order(s.interval_to_x(b), s.interval_to_x(a));
}

/// The latest time, and the latest trade, lie at the horizontal origin.
pub proof fn law_latest_at_origin(s: ChartState)
    requires
        s.has_interval_scale(),
    ensures
        s.basis is Time ==> s.interval_to_x(s.latest_x).equals(Single { bits: ZERO }),
        s.basis is Tick ==> s.interval_to_x(0).equals(Single { bits: ZERO }),
        s.basis is Time ==> s.x_to_interval(Single { bits: ZERO }) == s.latest_x,
        s.basis is Tick ==> s.x_to_interval(Single { bits: ZERO }) == 0,
{
    let zero = Single { bits: ZERO };
    lemma_interval_scale(s);
    Single::lemma_zero_key();
    zero.lemma_neg_key();
    Single::lemma_order(zero, zero);
    Single::lemma_over_order(zero.neg(), zero.neg(), s.cell_width);
    Single::lemma_over_order(zero, zero, s.cell_width);
    match s.basis {
        Basis::Time(interval) => {
            let latest = Double::from_u64(s.latest_x);
            let span = Double::from_u64(interval);
            let width = s.cell_width.to_double();
            Double::lemma_from_u64_bounds(s.latest_x);
            Double::lemma_from_u64_bounds(interval);
            s.cell_width.lemma_to_double_exact();
            let d = latest.minus(latest);
            Double::lemma_minus_self(latest);
            Double::lemma_over_order(d, d, span);
            Double::lemma_times_order(d.over(span), d.over(span), width);
            let t = d.over(span).times(width);
            Double::lemma_to_single_order(t, t);
            Single::lemma_order(s.interval_to_x(s.latest_x), zero);
            Single::lemma_from_u64_bounds(interval);
            let q = zero.neg().over(s.cell_width);
            Single::lemma_times_order(q, q, Single::from_u64(interval));
            let r = q.times(Single::from_u64(interval));
            Single::lemma_to_u64_order(r, r);
        },
        Basis::Tick(_) => {
            Single::lemma_from_zero();
            let n = Single::from_u64(0);
            Single::lemma_times_order(n, n, s.cell_width);
            n.times(s.cell_width).lemma_neg_key();
            Single::lemma_order(s.interval_to_x(0), zero);
            let q = zero.over(s.cell_width);
            q.lemma_neg_key();
            Single::lemma_round_zero(q.neg());
            Single::lemma_to_u64_order(q.neg().round(), q.neg().round());
        },
    }
}

/// On a chart by time, a place further right does not belong to an earlier time; on one by trades,
/// it does not belong to a trade that is further back.
pub proof fn law_places_belong_in_order(s: ChartState, left: Single, right: Single)
    requires
        s.has_interval_scale(),
        left.le(right),
    ensures
        s.basis is Time ==> s.x_to_interval(left) <= s.x_to_interval(right),
        s.basis is Tick ==> s.x_to_interval(right) <= s.x_to_interval(left),
{
    let zero = Single { bits: ZERO };
    lemma_interval_scale(s);
    Single::lemma_zero_key();
    Single::lemma_ordered_are_numbers(left, right);
    Single::lemma_order(left, right);
    Single::lemma_order(left, zero);
    Single::lemma_order(right, zero);
    left.lemma_neg_key();
    right.lemma_neg_key();
    match s.basis {
        Basis::Time(interval) => {
            let span = Single::from_u64(interval);
            Single::lemma_from_u64_bounds(interval);
            if right.le(zero) {
                let a = right.neg();
                let b = left.neg();
                Single::lemma_over_order(a, b, s.cell_width);
                Single::lemma_times_order(a.over(s.cell_width), b.over(s.cell_width), span);
                Single::lemma_to_u64_order(
                    a.over(s.cell_width).times(span),
                    b.over(s.cell_width).times(span),
                );
            } else if left.gt(zero) {
                Single::lemma_over_order(left, right, s.cell_width);
                Single::lemma_times_order(left.over(s.cell_width), right.over(s.cell_width), span);
                Single::lemma_to_u64_order(
                    left.over(s.cell_width).times(span),
                    right.over(s.cell_width).times(span),
                );
            }
        },
        Basis::Tick(_) => {
            Single::lemma_over_order(left, right, s.cell_width);
            let a = left.over(s.cell_width);
            let b = right.over(s.cell_width);
            a.lemma_neg_key();
            b.lemma_neg_key();
            Single::lemma_round_order(b.neg(), a.neg());
            Single::lemma_to_u64_order(b.neg().round(), a.neg().round());
        },
    }
}

/// The range of a region starts no later than it ends.
pub proof fn law_interval_range_is_ordered(s: ChartState, region: Rectangle)
    requires
        s.has_interval_scale(),
        region.x.is_finite(),
        region.width.ge(Single { bits: ZERO }),
    ensures
        s.interval_range(region).0 <= s.interval_range(region).1,
{
    Single::lemma_zero_key();
    Single::lemma_ordered_are_numbers(region.width, Single { bits: ZERO });
    Single::lemma_order(region.width, Single { bits: ZERO });
    Single::lemma_plus_nonneg(region.x, region.width);
    Single::lemma_order(region.x, region.x.plus(region.width));
    law_places_belong_in_order(s, region.x, region.x.plus(region.width));
}

} // verus!
