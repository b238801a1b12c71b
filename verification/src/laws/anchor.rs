//! Zooming keeps what is under the pointer in its place, up to rounding.
use crate::chart::ChartLimits;
use crate::constants::{MIN_DENOMINATOR, ONE, TWO, ZERO, ZOOM_SENSITIVITY};
use crate::float::accuracy::{
    lemma_near_back, lemma_near_chain, lemma_near_scaled, lemma_near_unscaled, near,
};
use crate::float::arith::abs;
use crate::float::grid::{lemma_unit_mono, lemma_unit_pos, unit};
use crate::float::single::Single;
use crate::geometry::{Point, Rectangle};
use crate::interaction::{rescaled, wheel_response};
use crate::laws::coordinates::law_latest_at_origin;
use crate::laws::placement::{
    can_read_time, law_places_have_their_prices, law_places_have_their_times,
    law_prices_lie_at_their_distance, law_times_lie_at_their_distance, lemma_scaled_abs,
    lemma_scaled_bound,
};
use crate::laws::zoom::{is_size, law_wheel_scales_within_limits, lies_within};
use crate::message::Message;
use crate::state::{Basis, ChartState};
use crate::update::can_zoom;
use vstd::prelude::*;

verus! {

/// Moving the chart by the way of a place brings that place back to where it was, up to the rounding
/// of the two differences.
proof fn lemma_shift_restores(translation: Single, cursor: Single, moved: Single)
    requires
        translation.is_finite(),
        cursor.is_finite(),
        moved.is_finite(),
        moved.minus(cursor).is_finite(),
        translation.minus(moved.minus(cursor)).is_finite(),
    ensures
        ({
            let way = moved.minus(cursor);
            let after = translation.minus(way);
            0x100_0000 * abs(
                (moved.key() + after.key()) - (cursor.key() + translation.key()),
            ) <= abs(moved.key() - cursor.key()) + abs(translation.key() - way.key())
        }),
{
    let way = moved.minus(cursor);
    Single::lemma_minus_near(moved, cursor);
    Single::lemma_minus_near(translation, way);
}

/// When the height of the cells changes, the price under the pointer keeps its place: its coordinate
/// and the translation add up to what they did before, up to the rounding of the two differences
/// that the chart is moved by.
pub proof fn law_price_under_pointer_stays(
    s: ChartState,
    limits: ChartLimits,
    delta: Single,
    cursor_to_center_y: Single,
    is_wheel_scroll: bool,
)
    requires
        can_zoom(s.cell_height, delta, limits.min_cell_height, limits.max_cell_height),
        ({
            let t = s.updated(limits, Message::YScaling(delta, cursor_to_center_y, is_wheel_scroll));
            let cursor = cursor_to_center_y.over(s.scaling).minus(s.translation.y);
            let moved = t.price_to_y(s.y_to_price(cursor));
            &&& s.translation.y.is_finite()
            &&& cursor.is_finite()
            &&& moved.is_finite()
            &&& moved.minus(cursor).is_finite()
            &&& t.translation.y.is_finite()
        }),
    ensures
        ({
            let t = s.updated(limits, Message::YScaling(delta, cursor_to_center_y, is_wheel_scroll));
            let cursor = cursor_to_center_y.over(s.scaling).minus(s.translation.y);
            let moved = t.price_to_y(s.y_to_price(cursor));
            0x100_0000 * abs(
                (moved.key() + t.translation.y.key()) - (cursor.key() + s.translation.y.key()),
            ) <= abs(moved.key() - cursor.key()) + abs(
                s.translation.y.key() - moved.minus(cursor).key(),
            )
        }),
{
    let t = s.updated(limits, Message::YScaling(delta, cursor_to_center_y, is_wheel_scroll));
    let cursor = cursor_to_center_y.over(s.scaling).minus(s.translation.y);
    let moved = t.price_to_y(s.y_to_price(cursor));
    assert(t.translation.y == s.translation.y.minus(moved.minus(cursor)));
    lemma_shift_restores(s.translation.y, cursor, moved);
}

impl ChartState {
    /// The vertical place under a pointer that is so far below the middle of the chart.
    pub open spec fn place_below(self, cursor_to_center_y: Single) -> Single {
        cursor_to_center_y.over(self.scaling).minus(self.translation.y)
    }

    /// The horizontal place under a pointer that is so far right of the middle of the chart.
    pub open spec fn place_right(self, cursor_to_center_x: Single) -> Single {
        cursor_to_center_x.over(self.scaling).minus(self.translation.x)
    }

    /// How far the right edge of what is visible lies from the origin.
    pub open spec fn right_edge(self) -> int {
        let region = self.visible_region(self.bounds.size());
        region.x.key() + region.width.key()
    }
}

/// How far a place that was moved to under the pointer is off there, in parts in two to the power of
/// 24: the rounding of the place before, of the way between both, of the translation, and of the
/// place after.
pub open spec fn found_again_slack(pointer: Single, translation: Single, moved: Single) -> nat {
    let before = pointer.minus(translation);
    let way = moved.minus(before);
    abs(pointer.key() - translation.key()) + abs(moved.key() - before.key()) + abs(
        translation.key() - way.key(),
    ) + abs(pointer.key() - translation.minus(way).key())
}

/// A place that the chart is moved by comes to lie under the pointer.
proof fn lemma_place_found_again(pointer: Single, translation: Single, moved: Single)
    requires
        ({
            let before = pointer.minus(translation);
            let way = moved.minus(before);
            &&& pointer.is_finite()
            &&& translation.is_finite()
            &&& moved.is_finite()
            &&& before.is_finite()
            &&& way.is_finite()
            &&& translation.minus(way).is_finite()
            &&& pointer.minus(translation.minus(way)).is_finite()
        }),
    ensures
        ({
            let after = pointer.minus(translation.minus(moved.minus(pointer.minus(translation))));
            0x100_0000 * abs(moved.key() - after.key()) <= found_again_slack(
                pointer,
                translation,
                moved,
            )
        }),
{
    let before = pointer.minus(translation);
    let way = moved.minus(before);
    Single::lemma_minus_near(pointer, translation);
    Single::lemma_minus_near(moved, before);
    Single::lemma_minus_near(translation, way);
    Single::lemma_minus_near(pointer, translation.minus(way));
}

/// A price that is read again near its place is near that price.
proof fn lemma_price_read_again(t: ChartState, price: Single, after: Single, slack: nat)
    requires
        t.has_price_scale(),
        t.can_place_price(price),
        t.can_read_price(after),
        0x100_0000 * abs(t.price_to_y(price).key() - after.key()) <= slack,
    ensures
        0x100_0000 * (t.cell_height.key() * abs(t.y_to_price(after).key() - price.key()))
            <= t.tick_size.key() * slack + t.placing_slack(price) + t.reading_slack(after),
{
    law_prices_lie_at_their_distance(t, price);
    law_places_have_their_prices(t, after);
    let (k, h, b) = (t.tick_size.key(), t.cell_height.key(), t.base_price_y.key());
    let (p, r, m, a) = (
        price.key(),
        t.y_to_price(after).key(),
        t.price_to_y(price).key(),
        after.key(),
    );
    let e = m - a;
    assert(-(k * slack) <= 0x100_0000 * (k * e) <= k * slack) by (nonlinear_arith)
        requires
            -slack <= 0x100_0000 * e <= slack,
            k > 0,
    ;
    let d = r - p;
    assert(h * d == (h * r - (h * b - k * a)) - (k * m - h * (b - p)) + k * e) by (nonlinear_arith)
        requires
            d == r - p,
            e == m - a,
    ;
    lemma_scaled_abs(h, d);
}

/// When the height of the cells changes, the price that is read under the pointer stays the same, up to
/// rounding: that of the differences by which the chart is moved and the pointer's place found, and
/// that of placing the price and reading it again.
pub proof fn law_price_read_under_pointer_stays(
    s: ChartState,
    limits: ChartLimits,
    delta: Single,
    cursor_to_center_y: Single,
    is_wheel_scroll: bool,
)
    requires
        can_zoom(s.cell_height, delta, limits.min_cell_height, limits.max_cell_height),
        ({
            let t = s.updated(limits, Message::YScaling(delta, cursor_to_center_y, is_wheel_scroll));
            let before = s.place_below(cursor_to_center_y);
            let after = t.place_below(cursor_to_center_y);
            let price = s.y_to_price(before);
            let moved = t.price_to_y(price);
            &&& s.translation.y.is_finite()
            &&& cursor_to_center_y.over(s.scaling).is_finite()
            &&& before.is_finite()
            &&& moved.minus(before).is_finite()
            &&& t.translation.y.is_finite()
            &&& t.has_price_scale()
            &&& t.can_place_price(price)
            &&& t.can_read_price(after)
        }),
    ensures
        ({
            let t = s.updated(limits, Message::YScaling(delta, cursor_to_center_y, is_wheel_scroll));
            let after = t.place_below(cursor_to_center_y);
            let price = s.y_to_price(s.place_below(cursor_to_center_y));
            let slack = found_again_slack(
                cursor_to_center_y.over(s.scaling),
                s.translation.y,
                t.price_to_y(price),
            );
            0x100_0000 * (t.cell_height.key() * abs(t.y_to_price(after).key() - price.key()))
                <= t.tick_size.key() * slack + t.placing_slack(price) + t.reading_slack(after)
        }),
{
    let t = s.updated(limits, Message::YScaling(delta, cursor_to_center_y, is_wheel_scroll));
    let pointer = cursor_to_center_y.over(s.scaling);
    let price = s.y_to_price(s.place_below(cursor_to_center_y));
    assert(t.scaling == s.scaling);
    lemma_place_found_again(pointer, s.translation.y, t.price_to_y(price));
    lemma_price_read_again(
        t,
        price,
        t.place_below(cursor_to_center_y),
        found_again_slack(pointer, s.translation.y, t.price_to_y(price)),
    );
}

/// When the width of the cells changes by the wheel, or by a drag while the latest data are out of
/// sight, what is under the pointer keeps its place, up to the rounding of the two differences that
/// the chart is moved by.
pub proof fn law_interval_under_pointer_stays(
    s: ChartState,
    limits: ChartLimits,
    delta: Single,
    cursor_to_center_x: Single,
    is_wheel_scroll: bool,
)
    requires
        is_wheel_scroll || !s.is_interval_x_visible(s.interval_to_x(s.latest_x)),
        can_zoom(s.cell_width, delta, limits.min_cell_width, limits.max_cell_width),
        ({
            let t = s.updated(limits, Message::XScaling(delta, cursor_to_center_x, is_wheel_scroll));
            let cursor = cursor_to_center_x.over(s.scaling).minus(s.translation.x);
            let moved = s.relocated_x(cursor, t.cell_width);
            &&& s.translation.x.is_finite()
            &&& cursor.is_finite()
            &&& moved.is_finite()
            &&& moved.minus(cursor).is_finite()
            &&& t.translation.x.is_finite()
        }),
    ensures
        ({
            let t = s.updated(limits, Message::XScaling(delta, cursor_to_center_x, is_wheel_scroll));
            let cursor = cursor_to_center_x.over(s.scaling).minus(s.translation.x);
            let moved = s.relocated_x(cursor, t.cell_width);
            0x100_0000 * abs(
                (moved.key() + t.translation.x.key()) - (cursor.key() + s.translation.x.key()),
            ) <= abs(moved.key() - cursor.key()) + abs(
                s.translation.x.key() - moved.minus(cursor).key(),
            )
        }),
{
    let t = s.updated(limits, Message::XScaling(delta, cursor_to_center_x, is_wheel_scroll));
    let cursor = cursor_to_center_x.over(s.scaling).minus(s.translation.x);
    let moved = s.relocated_x(cursor, t.cell_width);
    assert(t.translation.x == s.translation.x.minus(moved.minus(cursor)));
    lemma_shift_restores(s.translation.x, cursor, moved);
}

/// The place under the pointer is as many cells from the origin after the width of the cells has changed
/// as it was before, to the same side. It is off by at most eight parts in two to the power of 24 of its
/// distance from the origin, four of the places and the chart's own, and on a chart by time by one
/// millisecond.
pub open spec fn keeps_cells_under_pointer(
    s: ChartState,
    t: ChartState,
    cursor_to_center_x: Single,
) -> bool {
    let before = s.place_right(cursor_to_center_x).key();
    let after = t.place_right(cursor_to_center_x).key();
    let (w, v) = (s.cell_width.key(), t.cell_width.key());
    let off = abs(after * w - before * v);
    let slack = 8 * (v * abs(before)) + 4 * (w * (abs(before) + abs(after) + abs(
        t.translation.x.key(),
    )));
    match s.basis {
        Basis::Time(interval) => 0x100_0000 * (interval * off) <= interval * slack + 0x100_0002 * (w
            * v),
        Basis::Tick(_) => 0x100_0000 * off <= slack,
    }
}

/// The steps by which a chart is moved when the width of its cells changes stay numbers, none of them is
/// so small that it loses digits, and the time under the pointer can be counted.
pub open spec fn can_zoom_around(
    s: ChartState,
    t: ChartState,
    cursor_to_center_x: Single,
) -> bool {
    let before = s.place_right(cursor_to_center_x);
    &&& s.has_interval_scale()
    &&& t.has_interval_scale()
    &&& cursor_to_center_x.over(s.scaling).is_finite()
    &&& s.translation.x.is_finite()
    &&& before.is_finite()
    &&& t.translation.x.is_finite()
    &&& t.place_right(cursor_to_center_x).is_finite()
    &&& match s.basis {
        Basis::Time(interval) => {
            let time = s.x_to_interval(before);
            &&& s.latest_x < 0x20_0000_0000_0000
            &&& 0 < time < 0x20_0000_0000_0000
            &&& can_read_time(s, interval, before)
            &&& interval * abs(before.key()) < 0x20_0000_0000_0000 * s.cell_width.key()
            &&& t.can_place_time(interval, time)
            &&& t.interval_to_x(time).minus(before).is_finite()
        },
        Basis::Tick(_) => {
            let cells = before.over(s.cell_width);
            &&& before.divides(s.cell_width)
            &&& cells.multiplies(t.cell_width)
            &&& cells.times(t.cell_width).minus(before).is_finite()
        },
    }
}

proof fn lemma_slack_of_places(pointer: Single, translation: Single, moved: Single)
    requires
        ({
            let before = pointer.minus(translation);
            let way = moved.minus(before);
            &&& pointer.is_finite()
            &&& translation.is_finite()
            &&& moved.is_finite()
            &&& before.is_finite()
            &&& way.is_finite()
            &&& translation.minus(way).is_finite()
            &&& pointer.minus(translation.minus(way)).is_finite()
        }),
    ensures
        ({
            let before = pointer.minus(translation);
            let place = translation.minus(moved.minus(before));
            let after = pointer.minus(place);
            0x100_0000 * abs(moved.key() - after.key()) <= 4 * (abs(before.key()) + abs(after.key())
                + abs(place.key()))
        }),
{
    let before = pointer.minus(translation);
    let way = moved.minus(before);
    let place = translation.minus(way);
    lemma_place_found_again(pointer, translation, moved);
    Single::lemma_minus_near(pointer, translation);
    Single::lemma_minus_near(translation, way);
    Single::lemma_minus_near(pointer, place);
    lemma_slack_bound(
        before.key(),
        pointer.minus(place).key(),
        place.key(),
        moved.key(),
        pointer.key() - translation.key(),
        translation.key() - way.key(),
        pointer.key() - place.key(),
        found_again_slack(pointer, translation, moved),
    );
}

proof fn lemma_slack_bound(
    before: int,
    after: int,
    place: int,
    moved: int,
    x: int,
    y: int,
    z: int,
    slack: nat,
)
    requires
        0x1000_0000 * abs(before - x) <= 16 * abs(x),
        0x1000_0000 * abs(place - y) <= 16 * abs(y),
        0x1000_0000 * abs(after - z) <= 16 * abs(z),
        slack == abs(x) + abs(moved - before) + abs(y) + abs(z),
        0x100_0000 * abs(moved - after) <= slack,
    ensures
        slack <= 4 * (abs(before) + abs(after) + abs(place)),
{
    assert(abs(x) <= abs(before) + abs(before - x));
    assert(abs(y) <= abs(place) + abs(place - y));
    assert(abs(z) <= abs(after) + abs(after - z));
    assert(abs(moved - before) <= abs(moved - after) + abs(after) + abs(before));
}

/// Where a place comes to lie by trades: the same number of cells from the origin.
proof fn lemma_cells_kept_by_trades(place: Single, width: Single, new_width: Single)
    requires
        place.is_finite(),
        width.is_finite(),
        width.key() > 0,
        new_width.is_finite(),
        new_width.key() > 0,
        place.divides(width),
        place.over(width).multiplies(new_width),
    ensures
        0x100_0000 * abs(
            place.over(width).times(new_width).key() * width.key() - place.key() * new_width.key(),
        ) <= 3 * (new_width.key() * abs(place.key())),
{
    let u = unit(0) as int;
    let cells = place.over(width);
    let moved = cells.times(new_width);
    lemma_unit_pos(0);
    Single::lemma_over_near(place, width);
    Single::lemma_times_near(cells, new_width);
    let (c, w, v, r, m) = (place.key(), width.key(), new_width.key(), cells.key(), moved.key());
    lemma_near_scaled(m * u, r * v, w, 16);
    lemma_near_scaled(r * w, c * u, v, 16);
    assert((r * v) * w == (r * w) * v) by (nonlinear_arith);
    lemma_near_chain((m * u) * w, (r * w) * v, (c * u) * v, 16, 16);
    assert((m * u) * w == (m * w) * u) by (nonlinear_arith);
    assert((c * u) * v == (c * v) * u) by (nonlinear_arith);
    lemma_near_unscaled(m * w, c * v, u, 33);
    lemma_scaled_abs(v, c);
    assert(v * c == c * v) by (nonlinear_arith);
}

/// Where a place comes to lie by time: the same number of cells from the origin, but for what its time
/// is rounded by.
proof fn lemma_cells_kept_by_time(s: ChartState, t: ChartState, interval: u64, place: Single)
    requires
        s.basis == Basis::Time(interval),
        t.basis == s.basis,
        t.latest_x == s.latest_x,
        s.has_interval_scale(),
        t.has_interval_scale(),
        s.latest_x < 0x20_0000_0000_0000,
        0 < s.x_to_interval(place) < 0x20_0000_0000_0000,
        can_read_time(s, interval, place),
        interval * abs(place.key()) < 0x20_0000_0000_0000 * s.cell_width.key(),
        t.can_place_time(interval, s.x_to_interval(place)),
    ensures
        s.cell_width.key() > 0,
        t.cell_width.key() > 0,
        ({
            let moved = t.interval_to_x(s.x_to_interval(place)).key();
            let (w, v) = (s.cell_width.key(), t.cell_width.key());
            0x100_0000 * abs(interval * (moved * w - place.key() * v)) <= 8 * (interval * (v * abs(
                place.key(),
            ))) + 0x100_0002 * (w * v)
        }),
{
    let time = s.x_to_interval(place);
    let i = interval as int;
    let (w, v) = (s.cell_width.key(), t.cell_width.key());
    let (c, m, n) = (place.key(), t.interval_to_x(time).key(), time - s.latest_x);
    Single::lemma_zero_key();
    Single::lemma_order(s.cell_width, Single { bits: ZERO });
    law_places_have_their_times(s, interval, place);
    law_times_lie_at_their_distance(t, interval, time);
    let e = i * m - n * v;
    let f = n * w - i * c;
    assert(i * (m * w - c * v) == w * e + v * f) by (nonlinear_arith)
        requires
            e == i * m - n * v,
            f == n * w - i * c,
    ;
    lemma_scaled_abs(w, n);
    lemma_scaled_abs(v, n);
    assert(w * n == n * w && v * n == n * v) by (nonlinear_arith);
    let d = i * abs(c);
    assert(abs(i * c) == d) by (nonlinear_arith)
        requires
            d == i * abs(c),
            i >= 0,
            abs(c) == if c < 0 {
                -c
            } else {
                c
            },
            abs(i * c) == if i * c < 0 {
                -(i * c)
            } else {
                i * c
            },
    ;
    let k = abs(n) as int;
    assert(w * k <= 2 * d + w);
    lemma_scaled_bound(w, e, 2 * (v * k));
    lemma_scaled_bound(v, f, 0x100_0000 * w + 4 * d);
    assert(w * (2 * (v * k)) + v * (0x100_0000 * w + 4 * d) <= 8 * (v * d) + 0x100_0002 * (w * v))
        by (nonlinear_arith)
        requires
            w * k <= 2 * d + w,
            v > 0,
    ;
    assert(v * d == i * (v * abs(c))) by (nonlinear_arith)
        requires
            d == i * abs(c),
    ;
}

/// When the width of the cells changes by the wheel, or by a drag while the latest data are out of sight,
/// the chart is moved so that the place under the pointer, left or right of the middle, stays the same
/// number of cells from the origin.
pub proof fn law_cells_under_pointer_stay(
    s: ChartState,
    limits: ChartLimits,
    delta: Single,
    cursor_to_center_x: Single,
    is_wheel_scroll: bool,
)
    requires
        is_wheel_scroll || !s.is_interval_x_visible(s.interval_to_x(s.latest_x)),
        can_zoom_around(
            s,
            s.updated(limits, Message::XScaling(delta, cursor_to_center_x, is_wheel_scroll)),
            cursor_to_center_x,
        ),
    ensures
        keeps_cells_under_pointer(
            s,
            s.updated(limits, Message::XScaling(delta, cursor_to_center_x, is_wheel_scroll)),
            cursor_to_center_x,
        ),
{
    let t = s.updated(limits, Message::XScaling(delta, cursor_to_center_x, is_wheel_scroll));
    let pointer = cursor_to_center_x.over(s.scaling);
    let before = s.place_right(cursor_to_center_x);
    let after = t.place_right(cursor_to_center_x);
    let (w, v) = (s.cell_width.key(), t.cell_width.key());
    Single::lemma_zero_key();
    Single::lemma_order(s.cell_width, Single { bits: ZERO });
    Single::lemma_order(t.cell_width, Single { bits: ZERO });
    if t == s {
        lemma_nothing_slips(before.key(), w, t.translation.x.key(), s.basis);
    } else {
        let moved = match s.basis {
            Basis::Time(_) => t.interval_to_x(s.x_to_interval(before)),
            Basis::Tick(_) => before.over(s.cell_width).times(t.cell_width),
        };
        if let Basis::Time(interval) = s.basis {
            assert((ChartState { cell_width: t.cell_width, ..s }).interval_to_x(
                s.x_to_interval(before),
            ) == moved);
            lemma_cells_kept_by_time(s, t, interval, before);
        } else {
            lemma_cells_kept_by_trades(before, s.cell_width, t.cell_width);
        }
        lemma_moved_is_finite(s, t, cursor_to_center_x, moved);
        assert(t.translation.x == s.translation.x.minus(moved.minus(before)));
        lemma_slack_of_places(pointer, s.translation.x, moved);
        lemma_cells_added_up(
            before.key(),
            after.key(),
            moved.key(),
            t.translation.x.key(),
            w,
            v,
            s.basis,
        );
    }
}

proof fn lemma_moved_is_finite(
    s: ChartState,
    t: ChartState,
    cursor_to_center_x: Single,
    moved: Single,
)
    requires
        can_zoom_around(s, t, cursor_to_center_x),
        t.basis == s.basis,
        moved == match s.basis {
            Basis::Time(_) => t.interval_to_x(s.x_to_interval(s.place_right(cursor_to_center_x))),
            Basis::Tick(_) => s.place_right(cursor_to_center_x).over(s.cell_width).times(
                t.cell_width,
            ),
        },
        t.latest_x == s.latest_x,
    ensures
        moved.is_finite(),
{
}

proof fn lemma_nothing_slips(place: int, w: int, translation: int, basis: Basis)
    requires
        w > 0,
    ensures
        ({
            let off = abs(place * w - place * w);
            let slack = 8 * (w * abs(place)) + 4 * (w * (abs(place) + abs(place) + abs(
                translation,
            )));
            match basis {
                Basis::Time(interval) => 0x100_0000 * (interval * off) <= interval * slack
                    + 0x100_0002 * (w * w),
                Basis::Tick(_) => 0x100_0000 * off <= slack,
            }
        }),
{
    let slack = 8 * (w * abs(place)) + 4 * (w * (abs(place) + abs(place) + abs(translation)));
    assert(slack >= 0) by (nonlinear_arith)
        requires
            slack == 8 * (w * abs(place)) + 4 * (w * (abs(place) + abs(place) + abs(translation))),
            w > 0,
    ;
    if let Basis::Time(interval) = basis {
        assert(interval * slack >= 0 && w * w >= 0 && interval * 0 == 0) by (nonlinear_arith)
            requires
                slack >= 0,
        ;
    }
}

proof fn lemma_cells_added_up(
    before: int,
    after: int,
    moved: int,
    translation: int,
    w: int,
    v: int,
    basis: Basis,
)
    requires
        w > 0,
        v > 0,
        0x100_0000 * abs(moved - after) <= 4 * (abs(before) + abs(after) + abs(translation)),
        match basis {
            Basis::Time(interval) => 0x100_0000 * abs(interval * (moved * w - before * v)) <= 8 * (
            interval * (v * abs(before))) + 0x100_0002 * (w * v),
            Basis::Tick(_) => 0x100_0000 * abs(moved * w - before * v) <= 3 * (v * abs(before)),
        },
    ensures
        ({
            let off = abs(after * w - before * v);
            let slack = 8 * (v * abs(before)) + 4 * (w * (abs(before) + abs(after) + abs(
                translation,
            )));
            match basis {
                Basis::Time(interval) => 0x100_0000 * (interval * off) <= interval * slack
                    + 0x100_0002 * (w * v),
                Basis::Tick(_) => 0x100_0000 * off <= slack,
            }
        }),
{
    let e = moved - after;
    let p = 4 * (abs(before) + abs(after) + abs(translation));
    let x = moved * w - before * v;
    let y = after * w - before * v;
    let q = v * abs(before);
    assert(q >= 0) by (nonlinear_arith)
        requires
            q == v * abs(before),
            v > 0,
    ;
    assert(y == x - w * e) by (nonlinear_arith)
        requires
            e == moved - after,
            x == moved * w - before * v,
            y == after * w - before * v,
    ;
    lemma_scaled_bound(w, e, p as int);
    assert(w * p == 4 * (w * (abs(before) + abs(after) + abs(translation)))) by (nonlinear_arith)
        requires
            p == 4 * (abs(before) + abs(after) + abs(translation)),
    ;
    if let Basis::Time(interval) = basis {
        let i = interval as int;
        let we = w * e;
        assert(i * y == i * x - i * we) by (nonlinear_arith)
            requires
                y == x - we,
        ;
        let g = w * p;
        assert(-(i * g) <= 0x100_0000 * (i * we) <= i * g) by (nonlinear_arith)
            requires
                -g <= 0x100_0000 * we <= g,
                i >= 0,
        ;
        assert(i * abs(y) == abs(i * y)) by (nonlinear_arith)
            requires
                i >= 0,
                abs(y) == if y < 0 {
                    -y
                } else {
                    y
                },
                abs(i * y) == if i * y < 0 {
                    -(i * y)
                } else {
                    i * y
                },
        ;
        assert(i * (8 * q + g) == 8 * (i * q) + i * g) by (nonlinear_arith);
    }
}

/// Where the wheel changes the width of the cells, it does so around the pointer, left or right of the
/// middle: what it publishes, applied to the chart, leaves the place under the pointer the same number
/// of cells from the origin.
pub proof fn law_wheel_widens_around_the_pointer(
    s: ChartState,
    limits: ChartLimits,
    y: Single,
    cursor_to_center: Point,
)
    requires
        wheel_response(limits, s, y, cursor_to_center).message matches Some(Message::XScaling(..)),
        can_zoom_around(
            s,
            s.updated(limits, wheel_response(limits, s, y, cursor_to_center).message->0),
            cursor_to_center.x,
        ),
    ensures
        keeps_cells_under_pointer(
            s,
            s.updated(limits, wheel_response(limits, s, y, cursor_to_center).message->0),
            cursor_to_center.x,
        ),
{
    if let Some(Message::XScaling(delta, x, is_wheel_scroll)) = wheel_response(
        limits,
        s,
        y,
        cursor_to_center,
    ).message {
        law_cells_under_pointer_stay(s, limits, delta, x, is_wheel_scroll);
    }
}

/// How far the place under the pointer slips when the scaling changes from `before` to `after` while
/// the chart, at `translation`, is moved to `moved`; times the product of the scalings. Under the
/// pointer lies the quotient of its coordinate and the scaling, less where the chart is.
pub open spec fn slip(
    before: Single,
    after: Single,
    cursor: Single,
    translation: Single,
    moved: Single,
) -> int {
    (before.key() * after.key()) * (translation.key() - moved.key()) - (cursor.key() * (
    after.key() - before.key())) * unit(0)
}

/// The steps by which a coordinate of the chart is moved while the scaling changes stay numbers, and
/// none of them is so small that it loses digits.
pub open spec fn can_retranslate(
    before: Single,
    after: Single,
    cursor: Single,
    translation: Single,
) -> bool {
    let factor = after.minus(before);
    let denominator = before.times(after);
    let shift = cursor.times(factor).over(denominator);
    &&& cursor.is_finite()
    &&& translation.is_finite()
    &&& cursor.multiplies(factor)
    &&& cursor.times(factor).divides(denominator)
    &&& translation.minus(shift).is_finite()
}

/// The product of two scalings that is divided by is not zero, and has all its digits.
proof fn lemma_denominator(before: Single, after: Single)
    requires
        before.is_finite(),
        after.is_finite(),
        before.times(after).is_finite(),
        before.times(after).abs().gt(Single { bits: MIN_DENOMINATOR }),
    ensures
        before.times(after).key() != 0,
        before.multiplies(after),
{
    let least = Single { bits: MIN_DENOMINATOR };
    let d = before.times(after);
    least.lemma_positive();
    d.lemma_abs_key();
    Single::lemma_order(d.abs(), least);
    lemma_unit_mono(-126, -37);
    let m: int = 0xd1_b717;
    assert(least.key() == m * unit(-37));
    lemma_unit_pos(-37);
    assert(m * unit(-37) >= unit(-37)) by (nonlinear_arith)
        requires
            m >= 1,
    ;
}

proof fn lemma_coordinate_stays(
    before: Single,
    after: Single,
    cursor: Single,
    translation: Single,
)
    requires
        before.is_finite(),
        after.is_finite(),
        before.times(after).is_finite(),
        before.times(after).abs().gt(Single { bits: MIN_DENOMINATOR }),
        after.minus(before).is_finite(),
        can_retranslate(before, after, cursor, translation),
    ensures
        hardly_slips(
            before,
            after,
            cursor,
            translation,
            translation.minus(cursor.times(after.minus(before)).over(before.times(after))),
        ),
{
    lemma_denominator(before, after);
    let u = unit(0) as int;
    lemma_unit_pos(0);
    let factor = after.minus(before);
    let den = before.times(after);
    let prod = cursor.times(factor);
    let shift = prod.over(den);
    let moved = translation.minus(shift);
    let (a, b, c, f, d, p, q) = (
        before.key(),
        after.key(),
        cursor.key(),
        factor.key(),
        den.key(),
        prod.key(),
        shift.key(),
    );
    let ab = a * b;
    let x = c * (b - a);
    Single::lemma_minus_near(after, before);
    Single::lemma_times_near(before, after);
    Single::lemma_times_near(cursor, factor);
    Single::lemma_over_near(prod, den);
    Single::lemma_minus_near(translation, shift);
    // c f is near x
    lemma_near_scaled(f, b - a, c, 16);
    assert(f * c == c * f) by (nonlinear_arith);
    assert((b - a) * c == x) by (nonlinear_arith)
        requires
            x == c * (b - a),
    ;
    lemma_near_chain(p * u, c * f, x, 16, 16);
    // q d is near p u, which is near x
    lemma_near_chain(q * d, p * u, x, 16, 33);
    lemma_near_scaled(q * d, x, u, 50);
    // q a b is near q d u
    lemma_near_back(d * u, ab, 16);
    lemma_near_scaled(ab, d * u, q, 17);
    assert((d * u) * q == (q * d) * u) by (nonlinear_arith);
    lemma_near_chain(ab * q, (q * d) * u, x * u, 17, 50);
    let t = translation.key();
    let e = (t - moved.key()) - q;
    assert(slip(before, after, cursor, translation, moved) == (ab * q - x * u) + ab * e)
        by (nonlinear_arith)
        requires
            slip(before, after, cursor, translation, moved) == ab * (t - moved.key()) - x * u,
            e == (t - moved.key()) - q,
    ;
    let g = abs(t - q) as int;
    let n = abs(ab) as int;
    assert(-(n * g) <= 0x100_0000 * (ab * e) <= n * g) by (nonlinear_arith)
        requires
            -g <= 0x100_0000 * e <= g,
            n == if ab < 0 {
                -ab
            } else {
                ab
            },
    ;
}

/// What is under the pointer slips, along one axis, by at most five parts in two to the power of 24 of
/// the way that the chart is moved, and one part of the new translation.
pub open spec fn hardly_slips(
    before: Single,
    after: Single,
    cursor: Single,
    translation: Single,
    moved: Single,
) -> bool {
    let shift = cursor.times(after.minus(before)).over(before.times(after));
    0x100_0000 * abs(slip(before, after, cursor, translation, moved)) <= 5 * abs(
        (cursor.key() * (after.key() - before.key())) * unit(0),
    ) + abs(before.key() * after.key()) * abs(translation.key() - shift.key())
}

/// When the wheel changes the scaling, of whatever sign it was, the new scaling is within its limits,
/// and what is under the pointer stays there, up to rounding. Where the product of the scalings is
/// too small to divide by, the chart is not moved.
pub proof fn law_point_under_pointer_stays(
    s: ChartState,
    limits: ChartLimits,
    y: Single,
    cursor_to_center: Point,
)
    requires
        s.scaling.is_finite(),
        s.scaling.key() != 0 || (Single { bits: ONE }).plus(
            y.over(Single { bits: ZOOM_SENSITIVITY }),
        ).is_finite(),
        limits.min_scaling.le(limits.max_scaling),
        wheel_response(limits, s, y, cursor_to_center).message matches Some(Message::Scaled(..)),
        s.translation.x.is_finite(),
        s.translation.y.is_finite(),
        ({
            let after = rescaled(limits, s.scaling, y);
            s.scaling.times(after).abs().gt(Single { bits: MIN_DENOMINATOR }) ==> {
                &&& s.scaling.times(after).is_finite()
                &&& after.minus(s.scaling).is_finite()
                &&& can_retranslate(s.scaling, after, cursor_to_center.x, s.translation.x)
                &&& can_retranslate(s.scaling, after, cursor_to_center.y, s.translation.y)
            }
        }),
    ensures
        wheel_response(limits, s, y, cursor_to_center).captured,
        ({
            let message = wheel_response(limits, s, y, cursor_to_center).message->0;
            let t = s.updated(limits, message);
            let c = cursor_to_center;
            &&& t.scaling == rescaled(limits, s.scaling, y)
            &&& lies_within(t.scaling, limits.min_scaling, limits.max_scaling)
            &&& if s.scaling.times(t.scaling).abs().gt(Single { bits: MIN_DENOMINATOR }) {
                &&& hardly_slips(s.scaling, t.scaling, c.x, s.translation.x, t.translation.x)
                &&& hardly_slips(s.scaling, t.scaling, c.y, s.translation.y, t.translation.y)
            } else {
                &&& t.translation.x.equals(s.translation.x)
                &&& t.translation.y.equals(s.translation.y)
            }
        }),
{
    let zero = Single { bits: ZERO };
    let after = rescaled(limits, s.scaling, y);
    law_wheel_scales_within_limits(s, limits, y);
    Single::lemma_zero_key();
    if s.scaling.times(after).abs().gt(Single { bits: MIN_DENOMINATOR }) {
        Single::lemma_ordered_are_numbers(limits.min_scaling, after);
        Single::lemma_factor_finite(s.scaling, after);
        lemma_coordinate_stays(s.scaling, after, cursor_to_center.x, s.translation.x);
        lemma_coordinate_stays(s.scaling, after, cursor_to_center.y, s.translation.y);
    } else {
        Single::lemma_plus_zero(s.translation.x, zero);
        Single::lemma_plus_zero(s.translation.y, zero);
        Single::lemma_order(s.translation.x.minus(zero), s.translation.x);
        Single::lemma_order(s.translation.y.minus(zero), s.translation.y);
    }
}

/// A chart that does not follow its data is moved by as much as its middle when it gets other bounds,
/// up to rounding.
proof fn lemma_middle_shift(s: ChartState, bounds: Rectangle)
    requires
        !s.autoscale,
        is_size(s.scaling),
        s.translation.x.is_finite(),
        s.bounds.width.is_finite(),
        bounds.width.is_finite(),
        ({
            let way = bounds.width.over(Single { bits: TWO }).minus(
                s.bounds.width.over(Single { bits: TWO }),
            );
            &&& way.is_finite()
            &&& way.divides(s.scaling)
            &&& s.rebounded(bounds).translation.x.is_finite()
        }),
    ensures
        ({
            let old_half = s.bounds.width.over(Single { bits: TWO });
            let new_half = bounds.width.over(Single { bits: TWO });
            let shift = new_half.minus(old_half).over(s.scaling);
            let way = (new_half.key() - old_half.key()) * unit(0);
            let moved = s.rebounded(bounds).translation.x.key() - s.translation.x.key();
            0x100_0000 * abs(s.scaling.key() * moved - way) <= 3 * abs(way) + s.scaling.key() * abs(
                s.translation.x.key() + shift.key(),
            )
        }),
{
    let two = Single { bits: TWO };
    let old_half = s.bounds.width.over(two);
    let new_half = bounds.width.over(two);
    let d = new_half.minus(old_half);
    let shift = d.over(s.scaling);
    let t = s.translation.x;
    let u = unit(0) as int;
    Single::lemma_zero_key();
    Single::lemma_order(s.scaling, Single { bits: ZERO });
    Single::lemma_half_finite(s.bounds.width);
    Single::lemma_half_finite(bounds.width);
    Single::lemma_minus_near(new_half, old_half);
    Single::lemma_over_near(d, s.scaling);
    Single::lemma_plus_near(t, shift);
    let h = new_half.key() - old_half.key();
    let (a, q) = (s.scaling.key(), shift.key());
    lemma_near_scaled(d.key(), h, u, 16);
    lemma_near_chain(q * a, d.key() * u, h * u, 16, 16);
    let moved = t.plus(shift).key() - t.key();
    let e = moved - q;
    let g = abs(t.key() + q) as int;
    assert(a * moved == q * a + a * e) by (nonlinear_arith)
        requires
            e == moved - q,
    ;
    assert(0x100_0000 * (a * e) <= a * g && -(a * g) <= 0x100_0000 * (a * e)) by (nonlinear_arith)
        requires
            -g <= 0x100_0000 * e <= g,
            a > 0,
    ;
}

/// Half of what an area shows, up to rounding: the quotient of its width and the scaling, and its half.
proof fn lemma_shown_width(width: Single, scaling: Single)
    requires
        is_size(scaling),
        width.is_finite(),
        width.divides(scaling),
        width.divides(Single { bits: TWO }),
        width.over(scaling).divides(Single { bits: TWO }),
    ensures
        scaling.key() > 0,
        near(width.over(scaling).key() * scaling.key(), width.key() * unit(0), 16),
        near(
            2 * width.over(scaling).over(Single { bits: TWO }).key(),
            width.over(scaling).key(),
            16,
        ),
        near(2 * width.over(Single { bits: TWO }).key(), width.key(), 16),
{
    let two = Single { bits: TWO };
    let u = unit(0) as int;
    lemma_unit_pos(0);
    Single::lemma_zero_key();
    Single::lemma_order(scaling, Single { bits: ZERO });
    two.lemma_positive();
    Single::lemma_two_key();
    let shown = width.over(scaling);
    Single::lemma_over_near(width, scaling);
    Single::lemma_over_near(shown, two);
    Single::lemma_over_near(width, two);
    let (a, b) = (shown.over(two).key(), width.over(two).key());
    assert(a * (2 * u) == (2 * a) * u) by (nonlinear_arith);
    assert(b * (2 * u) == (2 * b) * u) by (nonlinear_arith);
    lemma_near_unscaled(2 * a, shown.key(), u, 16);
    lemma_near_unscaled(2 * b, width.key(), u, 16);
}

/// What the right edge of a chart is made of stays numbers, and none of it is so small that it loses
/// digits.
pub open spec fn has_right_edge(s: ChartState) -> bool {
    let width = s.bounds.width;
    &&& width.is_finite()
    &&& s.translation.x.is_finite()
    &&& width.divides(s.scaling)
    &&& width.divides(Single { bits: TWO })
    &&& width.over(s.scaling).divides(Single { bits: TWO })
    &&& s.visible_region(s.bounds.size()).x.is_finite()
}

/// How far the right edge of what is visible can be off, in parts in two to the power of 24, times
/// twice the scaling.
pub open spec fn edge_slack(s: ChartState) -> int {
    let shown = s.bounds.width.over(s.scaling);
    let half = shown.over(Single { bits: TWO });
    abs(s.bounds.width.key()) * unit(0) + s.scaling.key() * (abs(shown.key()) + 2 * abs(
        s.translation.x.key() + half.key(),
    ))
}

/// Where the right edge lies: half the width of the chart, divided by the scaling, from the middle.
proof fn lemma_right_edge(s: ChartState)
    requires
        is_size(s.scaling),
        has_right_edge(s),
    ensures
        s.scaling.key() > 0,
        0x100_0000 * abs(
            (2 * s.scaling.key()) * (s.right_edge() + s.translation.x.key()) - s.bounds.width.key()
                * unit(0),
        ) <= edge_slack(s),
{
    let u = unit(0) as int;
    let width = s.bounds.width;
    let shown = width.over(s.scaling);
    let half = shown.over(Single { bits: TWO });
    let region = s.visible_region(s.bounds.size());
    lemma_shown_width(width, s.scaling);
    Single::lemma_two_key();
    s.translation.x.lemma_neg_key();
    Single::lemma_minus_near(s.translation.x.neg(), half);
    let (a, t, w, h) = (s.scaling.key(), s.translation.x.key(), shown.key(), half.key());
    let x = region.x.key();
    let e = x + t + h;
    let f = w - 2 * h;
    let g = w * a - width.key() * u;
    assert((2 * a) * (x + w + t) - width.key() * u == g + a * (2 * e + f)) by (nonlinear_arith)
        requires
            e == x + t + h,
            f == w - 2 * h,
            g == w * a - width.key() * u,
    ;
    let m = abs(w) + 2 * abs(t + h);
    let c = 2 * e + f;
    assert(-m <= 0x100_0000 * c <= m);
    assert(-(a * m) <= 0x100_0000 * (a * c) <= a * m) by (nonlinear_arith)
        requires
            -m <= 0x100_0000 * c <= m,
            a > 0,
    ;
    lemma_unit_pos(0);
    lemma_scaled_abs(u, width.key());
    assert(abs(width.key()) * u == u * abs(width.key()) && width.key() * u == u * width.key())
        by (nonlinear_arith);
}

/// When a chart that does not follow its data gets other bounds, the right edge of what is visible
/// stays where it is, up to rounding.
pub proof fn law_right_edge_stays(s: ChartState, limits: ChartLimits, bounds: Rectangle)
    requires
        !s.autoscale,
        is_size(s.scaling),
        has_right_edge(s),
        has_right_edge(s.updated(limits, Message::BoundsChanged(bounds))),
        ({
            let way = bounds.width.over(Single { bits: TWO }).minus(
                s.bounds.width.over(Single { bits: TWO }),
            );
            way.is_finite() && way.divides(s.scaling)
        }),
    ensures
        ({
            let t = s.updated(limits, Message::BoundsChanged(bounds));
            let old_half = s.bounds.width.over(Single { bits: TWO });
            let new_half = bounds.width.over(Single { bits: TWO });
            let shift = new_half.minus(old_half).over(s.scaling);
            let way = (new_half.key() - old_half.key()) * unit(0);
            0x100_0000 * ((2 * s.scaling.key()) * abs(t.right_edge() - s.right_edge()))
                <= edge_slack(s) + edge_slack(t) + 6 * abs(way) + 2 * (s.scaling.key() * abs(
                s.translation.x.key() + shift.key(),
            )) + (abs(s.bounds.width.key()) + abs(bounds.width.key())) * unit(0)
        }),
{
    let t = s.updated(limits, Message::BoundsChanged(bounds));
    let two = Single { bits: TWO };
    let u = unit(0) as int;
    lemma_unit_pos(0);
    lemma_right_edge(s);
    lemma_right_edge(t);
    lemma_middle_shift(s, bounds);
    lemma_shown_width(s.bounds.width, s.scaling);
    lemma_shown_width(bounds.width, s.scaling);
    let a = s.scaling.key();
    let (r, q) = (s.right_edge(), t.right_edge());
    let (w, v) = (s.bounds.width.key(), bounds.width.key());
    let (h, g) = (s.bounds.width.over(two).key(), bounds.width.over(two).key());
    let moved = t.translation.x.key() - s.translation.x.key();
    let way = (g - h) * u;
    let d = q - r;
    let f = (2 * g - v) - (2 * h - w);
    assert((2 * a) * d == ((2 * a) * (q + t.translation.x.key()) - v * u) - ((2 * a) * (r
        + s.translation.x.key()) - w * u) - 2 * (a * moved - way) - f * u) by (nonlinear_arith)
        requires
            d == q - r,
            moved == t.translation.x.key() - s.translation.x.key(),
            way == (g - h) * u,
            f == (2 * g - v) - (2 * h - w),
    ;
    let m = abs(w) + abs(v);
    assert(-(m * u) <= 0x100_0000 * (f * u) <= m * u) by (nonlinear_arith)
        requires
            -m <= 0x100_0000 * f <= m,
            u > 0,
    ;
    lemma_scaled_abs(2 * a, d);
}

/// When the width of the cells is dragged while the latest time is in sight, the chart stays where it
/// is, and with it the latest time.
pub proof fn law_latest_stays_while_dragging(
    s: ChartState,
    limits: ChartLimits,
    delta: Single,
    cursor_to_center_x: Single,
)
    requires
        s.basis is Time,
        s.is_interval_x_visible(s.interval_to_x(s.latest_x)),
        s.has_interval_scale(),
        s.updated(limits, Message::XScaling(delta, cursor_to_center_x, false)).has_interval_scale(),
    ensures
        ({
            let t = s.updated(limits, Message::XScaling(delta, cursor_to_center_x, false));
            &&& t.translation == s.translation
            &&& t.autoscale == s.autoscale
            &&& s.interval_to_x(s.latest_x).equals(Single { bits: ZERO })
            &&& t.interval_to_x(t.latest_x).equals(Single { bits: ZERO })
        }),
{
    law_latest_at_origin(s);
    law_latest_at_origin(
        s.updated(limits, Message::XScaling(delta, cursor_to_center_x, false)),
    );
}

} // verus!
