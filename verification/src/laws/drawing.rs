//! What is drawn comes into sight and keeps its proportions.
use crate::constants::{EPSILON, TWO, ZERO};
use crate::float::accuracy::{
    lemma_near_back, lemma_near_chain, lemma_near_scaled, lemma_near_unscaled, near,
};
use crate::float::arith::abs;
use crate::float::grid::{lemma_unit_pos, unit};
use crate::float::single::Single;
use crate::geometry::Rectangle;
use crate::laws::placement::law_prices_lie_at_their_distance;
use crate::laws::round_trip::law_prices_are_found_where_they_lie;
use crate::series::Kline;
use crate::state::ChartState;
use crate::volume::{bar_width, volume_bars};
use vstd::prelude::*;

verus! {

impl ChartState {
    /// Half the height that is visible.
    pub open spec fn visible_half_height(self) -> Single {
        self.bounds.height.over(self.scaling).over(Single { bits: TWO })
    }

    /// The chart has a height that can be seen.
    pub open spec fn has_visible_height(self) -> bool {
        &&& self.bounds.height.gt(Single { bits: EPSILON })
        &&& self.scaling.gt(Single { bits: EPSILON })
    }

    /// The height at which the middle of a cell lies.
    pub open spec fn middle_of(self, kline: Kline) -> Single {
        self.price_to_y(kline.low).plus(self.price_to_y(kline.high)).neg().over(
            Single { bits: TWO },
        ).neg()
    }
}

/// A close that lies above what is visible around the middle of its cell is brought in sight: the
/// upper edge, half the visible height above the new middle, comes to lie one cell above it, up to
/// the rounding of the two steps.
pub proof fn law_high_close_comes_in_sight(s: ChartState, kline: Kline)
    requires
        s.has_visible_height(),
        s.price_to_y(kline.close).lt(s.middle_of(kline).minus(s.visible_half_height())),
        ({
            let inside = s.price_to_y(kline.close).minus(s.cell_height);
            &&& s.price_to_y(kline.close).is_finite()
            &&& s.cell_height.is_finite()
            &&& s.visible_half_height().is_finite()
            &&& inside.is_finite()
            &&& inside.plus(s.visible_half_height()).is_finite()
        }),
    ensures
        ({
            let close = s.price_to_y(kline.close);
            let inside = close.minus(s.cell_height);
            let half = s.visible_half_height();
            let upper_edge = -s.target_y(kline).key() - half.key();
            0x100_0000 * abs(upper_edge - (close.key() - s.cell_height.key())) <= abs(
                close.key() - s.cell_height.key(),
            ) + abs(inside.key() + half.key())
        }),
{
    let close = s.price_to_y(kline.close);
    let inside = close.minus(s.cell_height);
    let half = s.visible_half_height();
    Single::lemma_minus_near(close, s.cell_height);
    Single::lemma_plus_near(inside, half);
    inside.plus(half).lemma_neg_key();
}

/// A close that lies below what is visible around the middle of its cell is brought in sight: the
/// lower edge, half the visible height below the new middle, comes to lie one cell below it, up to
/// the rounding of the two steps.
pub proof fn law_low_close_comes_in_sight(s: ChartState, kline: Kline)
    requires
        s.has_visible_height(),
        s.price_to_y(kline.close).gt(s.middle_of(kline).plus(s.visible_half_height())),
        !s.price_to_y(kline.close).lt(s.middle_of(kline).minus(s.visible_half_height())),
        ({
            let inside = s.price_to_y(kline.close).plus(s.cell_height);
            &&& s.price_to_y(kline.close).is_finite()
            &&& s.cell_height.is_finite()
            &&& s.visible_half_height().is_finite()
            &&& inside.is_finite()
            &&& inside.minus(s.visible_half_height()).is_finite()
        }),
    ensures
        ({
            let close = s.price_to_y(kline.close);
            let inside = close.plus(s.cell_height);
            let half = s.visible_half_height();
            let lower_edge = -s.target_y(kline).key() + half.key();
            0x100_0000 * abs(lower_edge - (close.key() + s.cell_height.key())) <= abs(
                close.key() + s.cell_height.key(),
            ) + abs(inside.key() - half.key())
        }),
{
    let close = s.price_to_y(kline.close);
    let inside = close.plus(s.cell_height);
    let half = s.visible_half_height();
    Single::lemma_plus_near(close, s.cell_height);
    Single::lemma_minus_near(inside, half);
    inside.minus(half).lemma_neg_key();
}

/// A cell whose close is in sight around its middle is shown in the middle, and so is any cell where
/// nothing can be seen: the chart is moved by as much as the middle of low and high lies from the origin,
/// the other way and up to rounding.
pub proof fn law_cell_is_shown_in_the_middle(s: ChartState, kline: Kline)
    requires
        ({
            let (low, high) = (s.price_to_y(kline.low), s.price_to_y(kline.high));
            &&& low.is_finite()
            &&& high.is_finite()
            &&& low.plus(high).is_finite()
            &&& low.plus(high).neg().divides(Single { bits: TWO })
        }),
        !s.has_visible_height() || !(s.price_to_y(kline.close).lt(
            s.middle_of(kline).minus(s.visible_half_height()),
        ) || s.price_to_y(kline.close).gt(s.middle_of(kline).plus(s.visible_half_height()))),
    ensures
        ({
            let sum = s.price_to_y(kline.low).key() + s.price_to_y(kline.high).key();
            0x100_0000 * abs(2 * s.target_y(kline).key() + sum) <= 3 * abs(sum)
        }),
{
    let (low, high) = (s.price_to_y(kline.low), s.price_to_y(kline.high));
    let two = Single { bits: TWO };
    let sum = low.plus(high);
    let target = sum.neg().over(two);
    let u = unit(0) as int;
    lemma_unit_pos(0);
    Single::lemma_two_key();
    sum.lemma_neg_key();
    Single::lemma_plus_near(low, high);
    Single::lemma_over_near(sum.neg(), two);
    let t = target.key();
    assert(t * (2 * u) == (2 * t) * u) by (nonlinear_arith);
    lemma_near_unscaled(2 * t, -sum.key(), u, 16);
    assert(s.target_y(kline) == target);
}

/// A height lies within half the visible height of a middle, up to three parts in two to the power of 24.
pub open spec fn lies_in_sight(close: int, middle: int, half: int, padding: int) -> bool {
    let slack = 3 * (abs(close) + abs(middle) + padding + half);
    &&& 0x100_0000 * ((middle - half) - close) <= slack
    &&& 0x100_0000 * (close - (middle + half)) <= slack
}

proof fn lemma_high_in_sight(close: int, middle: int, half: int, padding: int, inside: int)
    requires
        0 <= padding <= 2 * half,
        0x100_0000 * abs(inside - (close - padding)) <= abs(close - padding),
        0x100_0000 * abs((middle - half) - (close - padding)) <= abs(close - padding) + abs(
            inside + half,
        ),
    ensures
        lies_in_sight(close, middle, half, padding),
{
}

proof fn lemma_low_in_sight(close: int, middle: int, half: int, padding: int, inside: int)
    requires
        0 <= padding <= 2 * half,
        0x100_0000 * abs(inside - (close + padding)) <= abs(close + padding),
        0x100_0000 * abs((middle + half) - (close + padding)) <= abs(close + padding) + abs(
            inside - half,
        ),
    ensures
        lies_in_sight(close, middle, half, padding),
{
}

/// The close of a cell is always in sight: it lies within half the visible height of the middle that
/// the chart is brought to, up to three parts in two to the power of 24 of what that is computed
/// from, for cells that are not higher than what is visible.
pub proof fn law_close_is_in_sight(s: ChartState, kline: Kline)
    requires
        s.has_visible_height(),
        s.cell_height.is_finite(),
        s.visible_half_height().is_finite(),
        0 <= s.cell_height.key() <= 2 * s.visible_half_height().key(),
        ({
            let close = s.price_to_y(kline.close);
            let half = s.visible_half_height();
            let middle = s.middle_of(kline);
            &&& close.is_finite()
            &&& middle.is_finite()
            &&& middle.minus(half).is_finite()
            &&& middle.plus(half).is_finite()
            &&& close.minus(s.cell_height).is_finite()
            &&& close.minus(s.cell_height).plus(half).is_finite()
            &&& close.plus(s.cell_height).is_finite()
            &&& close.plus(s.cell_height).minus(half).is_finite()
        }),
    ensures
        ({
            let close = s.price_to_y(kline.close).key();
            let half = s.visible_half_height().key();
            let middle = -s.target_y(kline).key();
            lies_in_sight(close, middle, half, s.cell_height.key())
        }),
{
    let close = s.price_to_y(kline.close);
    let half = s.visible_half_height();
    let middle = s.middle_of(kline);
    let target = s.target_y(kline);
    let centered = s.price_to_y(kline.low).plus(s.price_to_y(kline.high)).neg().over(
        Single { bits: TWO },
    );
    centered.lemma_neg_key();
    Single::lemma_minus_near(middle, half);
    Single::lemma_plus_near(middle, half);
    Single::lemma_order(close, middle.minus(half));
    Single::lemma_order(close, middle.plus(half));
    if close.lt(middle.minus(half)) {
        law_high_close_comes_in_sight(s, kline);
        let inside = close.minus(s.cell_height);
        Single::lemma_minus_near(close, s.cell_height);
        lemma_high_in_sight(
            close.key(),
            -target.key(),
            half.key(),
            s.cell_height.key(),
            inside.key(),
        );
    } else if close.gt(middle.plus(half)) {
        law_low_close_comes_in_sight(s, kline);
        let inside = close.plus(s.cell_height);
        Single::lemma_plus_near(close, s.cell_height);
        lemma_low_in_sight(
            close.key(),
            -target.key(),
            half.key(),
            s.cell_height.key(),
            inside.key(),
        );
    } else {
        assert(target == centered);
    }
}

/// The line of the last price goes level from the origin to the right end of the region, in the color of
/// the price's label, and there is one exactly where there is a last price.
pub proof fn law_last_price_line_crosses_the_region(s: ChartState, region: Rectangle)
    requires
        region.x.is_finite(),
        region.width.is_finite(),
        region.x.plus(region.width).is_finite(),
    ensures
        (s.last_price_line(region) is Some) == (s.last_price is Some),
        s.last_price matches Some(label) ==> s.last_price_line(region) matches Some(marker) && {
            &&& marker.kind == label.kind
            &&& marker.line.start.y == marker.line.end.y
            &&& marker.line.start.x.is_finite()
            &&& marker.line.start.x.key() == 0
            &&& 0x100_0000 * abs(
                marker.line.end.x.key() - (region.x.key() + region.width.key()),
            ) <= abs(region.x.key() + region.width.key())
        },
{
    Single::lemma_zero_key();
    Single::lemma_plus_near(region.x, region.width);
}

/// The line of the last price lies where that price does: above the base price for a higher price, as many
/// cells as there are ticks between them, and below for a lower one. The price that is read at its
/// height is the last price, up to rounding.
pub proof fn law_last_price_line_lies_at_its_price(s: ChartState, region: Rectangle)
    requires
        s.has_price_scale(),
        s.last_price is Some,
        s.can_place_price(s.last_price->0.price),
        s.can_read_price(s.price_to_y(s.last_price->0.price)),
    ensures
        s.last_price_line(region) is Some,
        ({
            let price = s.last_price->0.price;
            let y = s.last_price_line(region)->0.line.start.y;
            let (k, h, b) = (s.tick_size.key(), s.cell_height.key(), s.base_price_y.key());
            &&& 0x100_0000 * abs(k * y.key() - h * (b - price.key())) <= s.placing_slack(price)
            &&& 0x100_0000 * (h * abs(s.y_to_price(y).key() - price.key())) <= s.placing_slack(price)
                + s.reading_slack(y)
        }),
{
    let price = s.last_price->0.price;
    law_prices_lie_at_their_distance(s, price);
    law_prices_are_found_where_they_lie(s, price);
}

/// The bar of a quantity has the share of the whole width that the quantity has of the total.
proof fn lemma_bar_share(quantity: Single, total: Single, width: Single)
    requires
        quantity.is_finite(),
        total.is_finite(),
        total.key() > 0,
        width.is_finite(),
        quantity.divides(total),
        quantity.over(total).multiplies(width),
    ensures
        near(
            quantity.over(total).times(width).key() * total.key(),
            quantity.key() * width.key(),
            33,
        ),
{
    let u = unit(0) as int;
    let share = quantity.over(total);
    let bar = share.times(width);
    lemma_unit_pos(0);
    Single::lemma_over_near(quantity, total);
    Single::lemma_times_near(share, width);
    let (q, t, w, r, b) = (quantity.key(), total.key(), width.key(), share.key(), bar.key());
    lemma_near_scaled(b * u, r * w, t, 16);
    lemma_near_scaled(r * t, q * u, w, 16);
    assert((r * w) * t == (r * t) * w) by (nonlinear_arith);
    lemma_near_chain((b * u) * t, (r * t) * w, (q * u) * w, 16, 16);
    assert((b * u) * t == (b * t) * u) by (nonlinear_arith);
    assert((q * u) * w == (q * w) * u) by (nonlinear_arith);
    lemma_near_unscaled(b * t, q * w, u, 33);
}

/// The bars of what was bought and sold fill the width of the total between them, up to four parts in
/// two to the power of 24.
pub proof fn law_bars_share_the_width(
    buy_qty: Single,
    sell_qty: Single,
    max_qty: Single,
    width_factor: Single,
)
    requires
        buy_qty.is_finite(),
        sell_qty.is_finite(),
        buy_qty.ge(Single { bits: ZERO }),
        sell_qty.ge(Single { bits: ZERO }),
        ({
            let total = buy_qty.plus(sell_qty);
            let width = total.over(max_qty).times(width_factor);
            &&& total.is_finite()
            &&& total.gt(Single { bits: ZERO })
            &&& width.is_finite()
            &&& width.ge(Single { bits: ZERO })
            &&& buy_qty.divides(total)
            &&& buy_qty.over(total).multiplies(width)
            &&& sell_qty.divides(total)
            &&& sell_qty.over(total).multiplies(width)
        }),
    ensures
        ({
            let total = buy_qty.plus(sell_qty);
            let width = total.over(max_qty).times(width_factor);
            0x100_0000 * abs(
                bar_width(buy_qty, total, max_qty, width_factor).key() + bar_width(
                    sell_qty,
                    total,
                    max_qty,
                    width_factor,
                ).key() - width.key(),
            ) <= 4 * abs(width.key())
        }),
{
    let zero = Single { bits: ZERO };
    let total = buy_qty.plus(sell_qty);
    let width = total.over(max_qty).times(width_factor);
    let buy = bar_width(buy_qty, total, max_qty, width_factor);
    let sell = bar_width(sell_qty, total, max_qty, width_factor);
    Single::lemma_zero_key();
    Single::lemma_order(buy_qty, zero);
    Single::lemma_order(sell_qty, zero);
    Single::lemma_order(total, zero);
    Single::lemma_order(width, zero);
    lemma_bar_share(buy_qty, total, width);
    lemma_bar_share(sell_qty, total, width);
    Single::lemma_plus_near(buy_qty, sell_qty);
    let (b, s, t, w) = (buy_qty.key(), sell_qty.key(), total.key(), width.key());
    let x = buy.key() + sell.key();
    assert(b * w >= 0 && s * w >= 0) by (nonlinear_arith)
        requires
            b >= 0,
            s >= 0,
            w >= 0,
    ;
    assert((b + s) * w == b * w + s * w) by (nonlinear_arith);
    assert(x * t == buy.key() * t + sell.key() * t) by (nonlinear_arith)
        requires
            x == buy.key() + sell.key(),
    ;
    assert(near(x * t, (b + s) * w, 33));
    lemma_near_back(t, b + s, 16);
    lemma_near_scaled(b + s, t, w, 17);
    lemma_near_chain(x * t, (b + s) * w, t * w, 33, 17);
    assert(t * w == w * t) by (nonlinear_arith);
    lemma_near_unscaled(x, w, t, 51);
}

/// The bar of a quantity has the share of the width factor that the quantity has of the largest one, up
/// to five parts in two to the power of 24.
pub proof fn law_bars_show_their_quantities(
    quantity: Single,
    total: Single,
    max_qty: Single,
    width_factor: Single,
)
    requires
        quantity.is_finite(),
        total.is_finite(),
        total.gt(Single { bits: ZERO }),
        max_qty.is_finite(),
        max_qty.gt(Single { bits: ZERO }),
        width_factor.is_finite(),
        total.divides(max_qty),
        total.over(max_qty).multiplies(width_factor),
        quantity.divides(total),
        quantity.over(total).multiplies(total.over(max_qty).times(width_factor)),
    ensures
        ({
            let bar = bar_width(quantity, total, max_qty, width_factor);
            0x100_0000 * abs(bar.key() * max_qty.key() - quantity.key() * width_factor.key()) <= 5
                * abs(quantity.key() * width_factor.key())
        }),
{
    let zero = Single { bits: ZERO };
    let width = total.over(max_qty).times(width_factor);
    let bar = bar_width(quantity, total, max_qty, width_factor);
    Single::lemma_zero_key();
    Single::lemma_order(total, zero);
    Single::lemma_order(max_qty, zero);
    lemma_bar_share(quantity, total, width);
    lemma_bar_share(total, max_qty, width_factor);
    let (q, t, m, f) = (quantity.key(), total.key(), max_qty.key(), width_factor.key());
    let (w, b) = (width.key(), bar.key());
    lemma_near_scaled(b * t, q * w, m, 33);
    lemma_near_scaled(w * m, t * f, q, 33);
    assert((q * w) * m == (w * m) * q) by (nonlinear_arith);
    lemma_near_chain((b * t) * m, (w * m) * q, (t * f) * q, 33, 33);
    assert((b * t) * m == (b * m) * t) by (nonlinear_arith);
    assert((t * f) * q == (q * f) * t) by (nonlinear_arith);
    lemma_near_unscaled(b * m, q * f, t, 67);
}

/// The bars lie side by side, as high as asked for and around the same height: the sell bar from the
/// start on, the buy bar where the sell bar ends, or at the start where nothing was sold.
pub proof fn law_bars_lie_side_by_side(
    start_x: Single,
    y_position: Single,
    buy_qty: Single,
    sell_qty: Single,
    max_qty: Single,
    bar_height: Single,
    width_factor: Single,
)
    requires
        start_x.is_finite(),
        buy_qty.plus(sell_qty).is_finite(),
        buy_qty.plus(sell_qty).gt(Single { bits: ZERO }),
        buy_qty.plus(sell_qty).over(max_qty).times(width_factor).is_finite(),
    ensures
        ({
            let bars = volume_bars(
                start_x,
                y_position,
                buy_qty,
                sell_qty,
                max_qty,
                bar_height,
                width_factor,
            );
            let y = y_position.minus(bar_height.over(Single { bits: TWO }));
            &&& bars.sell is Some == sell_qty.gt(Single { bits: ZERO })
            &&& bars.buy is Some == buy_qty.gt(Single { bits: ZERO })
            &&& bars.sell matches Some(sell) ==> sell.x == start_x && sell.y == y && sell.height
                == bar_height
            &&& bars.buy matches Some(buy) ==> buy.y == y && buy.height == bar_height
            &&& bars.buy matches Some(buy) ==> (bars.sell matches Some(sell) ==> buy.x
                == sell.x.plus(sell.width))
            &&& sell_qty.equals(Single { bits: ZERO }) ==> (bars.buy matches Some(buy) ==> buy.x.equals(
                start_x,
            ))
        }),
{
    let zero = Single { bits: ZERO };
    let total = buy_qty.plus(sell_qty);
    let width = total.over(max_qty).times(width_factor);
    Single::lemma_zero_key();
    Single::lemma_ordered_are_numbers(total, zero);
    Single::lemma_order(total, zero);
    if sell_qty.equals(zero) {
        Single::lemma_ordered_are_numbers(sell_qty, zero);
        Single::lemma_order(sell_qty, zero);
        Single::lemma_over_order(sell_qty, sell_qty, total);
        let share = sell_qty.over(total);
        Single::lemma_number_of_key(share);
        Single::lemma_zero_times(share, width);
        Single::lemma_plus_zero(start_x, share.times(width));
        Single::lemma_order(start_x.plus(share.times(width)), start_x);
    }
}

/// The steps by which the bar of a quantity is found stay numbers, and none of them is so small that it
/// loses digits.
pub open spec fn can_draw_bar(
    quantity: Single,
    total: Single,
    max_qty: Single,
    width_factor: Single,
) -> bool {
    let width = total.over(max_qty).times(width_factor);
    &&& quantity.is_finite()
    &&& total.divides(max_qty)
    &&& total.over(max_qty).multiplies(width_factor)
    &&& quantity.divides(total)
    &&& quantity.over(total).multiplies(width)
}

/// A bar is `height` high around the height `y`, and as wide a part of the width factor as its quantity is
/// of the largest, up to five parts in two to the power of 24.
pub open spec fn is_to_scale(
    bar: Rectangle,
    quantity: Single,
    max_qty: Single,
    width_factor: Single,
    y: Single,
    height: Single,
) -> bool {
    let exact = quantity.key() * width_factor.key();
    &&& 0x100_0000 * abs(bar.width.key() * max_qty.key() - exact) <= 5 * abs(exact)
    &&& bar.height == height
    &&& 0x100_0000 * abs(2 * bar.y.key() - (2 * y.key() - height.key())) <= 4 * abs(bar.y.key()) + abs(
        height.key(),
    )
}

/// Bars are drawn exactly for the quantities above zero, and none where their sum is not. Each is drawn to
/// scale: a quantity has the same width whatever the other one is. The sell bar starts at the start, and
/// the buy bar where the sell bar ends, up to rounding.
pub proof fn law_bars_are_drawn_to_scale(
    start_x: Single,
    y_position: Single,
    buy_qty: Single,
    sell_qty: Single,
    max_qty: Single,
    bar_height: Single,
    width_factor: Single,
)
    requires
        start_x.is_finite(),
        y_position.is_finite(),
        bar_height.is_finite(),
        bar_height.divides(Single { bits: TWO }),
        y_position.minus(bar_height.over(Single { bits: TWO })).is_finite(),
        max_qty.is_finite(),
        max_qty.gt(Single { bits: ZERO }),
        width_factor.is_finite(),
        buy_qty.plus(sell_qty).is_finite(),
        ({
            let total = buy_qty.plus(sell_qty);
            total.gt(Single { bits: ZERO }) ==> can_draw_bar(buy_qty, total, max_qty, width_factor)
                && can_draw_bar(sell_qty, total, max_qty, width_factor)
        }),
    ensures
        ({
            let (zero, total) = (Single { bits: ZERO }, buy_qty.plus(sell_qty));
            let bars = volume_bars(
                start_x,
                y_position,
                buy_qty,
                sell_qty,
                max_qty,
                bar_height,
                width_factor,
            );
            &&& bars.sell is Some == (total.key() > 0 && sell_qty.gt(zero))
            &&& bars.buy is Some == (total.key() > 0 && buy_qty.gt(zero))
            &&& bars.sell matches Some(bar) ==> bar.x == start_x && is_to_scale(
                bar,
                sell_qty,
                max_qty,
                width_factor,
                y_position,
                bar_height,
            )
            &&& bars.buy matches Some(bar) ==> is_to_scale(
                bar,
                buy_qty,
                max_qty,
                width_factor,
                y_position,
                bar_height,
            )
            &&& bars.buy matches Some(buy) ==> (bars.sell matches Some(sell) ==> (buy.x.is_finite()
                ==> 0x100_0000 * abs(buy.x.key() - (sell.x.key() + sell.width.key())) <= abs(
                sell.x.key() + sell.width.key(),
            )))
            &&& bars.buy matches Some(buy) ==> (sell_qty.key() == 0 ==> buy.x.equals(start_x))
        }),
{
    let (zero, two, total) = (Single { bits: ZERO }, Single { bits: TWO }, buy_qty.plus(sell_qty));
    let u = unit(0) as int;
    lemma_unit_pos(0);
    Single::lemma_zero_key();
    Single::lemma_two_key();
    Single::lemma_order(total, zero);
    Single::lemma_over_near(bar_height, two);
    let half = bar_height.over(two);
    let h = half.key();
    assert(h * (2 * u) == (2 * h) * u) by (nonlinear_arith);
    lemma_near_unscaled(2 * h, bar_height.key(), u, 16);
    Single::lemma_minus_near(y_position, half);
    if total.gt(zero) {
        law_bars_show_their_quantities(buy_qty, total, max_qty, width_factor);
        law_bars_show_their_quantities(sell_qty, total, max_qty, width_factor);
        law_bars_lie_side_by_side(
            start_x,
            y_position,
            buy_qty,
            sell_qty,
            max_qty,
            bar_height,
            width_factor,
        );
        let width = bar_width(sell_qty, total, max_qty, width_factor);
        if start_x.plus(width).is_finite() {
            Single::lemma_plus_near(start_x, width);
        }
        Single::lemma_order(sell_qty, zero);
    }
}

/// Where the total is not above the largest quantity, the bars fit the width factor between them, up
/// to four parts in two to the power of 24.
pub proof fn law_bars_fit_the_width_factor(
    buy_qty: Single,
    sell_qty: Single,
    max_qty: Single,
    width_factor: Single,
)
    requires
        buy_qty.is_finite(),
        sell_qty.is_finite(),
        buy_qty.ge(Single { bits: ZERO }),
        sell_qty.ge(Single { bits: ZERO }),
        max_qty.is_finite(),
        width_factor.is_finite(),
        width_factor.ge(Single { bits: ZERO }),
        ({
            let total = buy_qty.plus(sell_qty);
            let width = total.over(max_qty).times(width_factor);
            &&& total.is_finite()
            &&& total.gt(Single { bits: ZERO })
            &&& total.le(max_qty)
            &&& buy_qty.divides(total)
            &&& buy_qty.over(total).multiplies(width)
            &&& sell_qty.divides(total)
            &&& sell_qty.over(total).multiplies(width)
        }),
    ensures
        ({
            let total = buy_qty.plus(sell_qty);
            0x100_0000 * (bar_width(buy_qty, total, max_qty, width_factor).key() + bar_width(
                sell_qty,
                total,
                max_qty,
                width_factor,
            ).key()) <= 0x100_0004 * width_factor.key()
        }),
{
    let zero = Single { bits: ZERO };
    let total = buy_qty.plus(sell_qty);
    let width = total.over(max_qty).times(width_factor);
    Single::lemma_zero_key();
    Single::lemma_order(total, zero);
    Single::lemma_order(total, max_qty);
    Single::lemma_order(width_factor, zero);
    Single::lemma_share_within(total, max_qty, width_factor);
    Single::lemma_order(width, zero);
    law_bars_share_the_width(buy_qty, sell_qty, max_qty, width_factor);
}

} // verus!
