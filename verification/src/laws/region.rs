//! What an area shows of the chart, and where the pointer is in it.
use crate::constants::{TWO, ZERO};
use crate::float::accuracy::lemma_near_unscaled;
use crate::float::arith::abs;
use crate::float::grid::{lemma_unit_pos, unit};
use crate::float::single::Single;
use crate::geometry::{Point, Rectangle, Size};
use crate::interaction::pointer_area;
use crate::laws::coordinates::{law_lower_places_have_lower_prices, law_places_belong_in_order};
use crate::laws::zoom::is_size;
use crate::message::Cursor;
use crate::state::{Basis, ChartState};
use vstd::prelude::*;

verus! {

/// What an area shows along one axis can be found: every step is a number, and none is so small that it
/// loses digits.
pub open spec fn can_show(scaling: Single, translation: Single, length: Single) -> bool {
    let shown = length.over(scaling);
    let half = shown.over(Single { bits: TWO });
    &&& length.is_finite()
    &&& translation.is_finite()
    &&& length.divides(scaling)
    &&& shown.divides(Single { bits: TWO })
    &&& translation.neg().minus(half).is_finite()
}

/// Along one axis, an area shows as much as it is long, divided by the scaling, and the middle of what it
/// shows lies opposite to where the chart is moved.
pub open spec fn shows_around_the_middle(
    scaling: Single,
    translation: Single,
    length: Single,
    start: Single,
    shown: Single,
) -> bool {
    &&& 0x100_0000 * abs(scaling.key() * shown.key() - length.key() * unit(0)) <= abs(
        length.key() * unit(0),
    )
    &&& 0x100_0000 * abs(2 * start.key() + shown.key() + 2 * translation.key()) <= 4 * abs(
        start.key(),
    ) + abs(shown.key())
}

proof fn lemma_shows(scaling: Single, translation: Single, length: Single)
    requires
        is_size(scaling),
        can_show(scaling, translation, length),
    ensures
        ({
            let shown = length.over(scaling);
            let start = translation.neg().minus(shown.over(Single { bits: TWO }));
            shows_around_the_middle(scaling, translation, length, start, shown)
        }),
{
    let two = Single { bits: TWO };
    let u = unit(0) as int;
    let shown = length.over(scaling);
    let half = shown.over(two);
    let start = translation.neg().minus(half);
    lemma_unit_pos(0);
    Single::lemma_zero_key();
    Single::lemma_two_key();
    Single::lemma_order(scaling, Single { bits: ZERO });
    translation.lemma_neg_key();
    Single::lemma_over_near(length, scaling);
    Single::lemma_over_near(shown, two);
    Single::lemma_minus_near(translation.neg(), half);
    let h = half.key();
    assert(h * (2 * u) == (2 * h) * u) by (nonlinear_arith);
    lemma_near_unscaled(2 * h, shown.key(), u, 16);
    assert(shown.key() * scaling.key() == scaling.key() * shown.key()) by (nonlinear_arith);
}

/// What an area shows of a chart: its size, divided by the scaling, around the place opposite to where the
/// chart is moved, on both axes and up to rounding.
pub proof fn law_region_lies_around_the_middle(s: ChartState, size: Size)
    requires
        is_size(s.scaling),
        can_show(s.scaling, s.translation.x, size.width),
        can_show(s.scaling, s.translation.y, size.height),
    ensures
        ({
            let region = s.visible_region(size);
            &&& shows_around_the_middle(
                s.scaling,
                s.translation.x,
                size.width,
                region.x,
                region.width,
            )
            &&& shows_around_the_middle(
                s.scaling,
                s.translation.y,
                size.height,
                region.y,
                region.height,
            )
        }),
{
    lemma_shows(s.scaling, s.translation.x, size.width);
    lemma_shows(s.scaling, s.translation.y, size.height);
}

/// A place is visible where it lies in what the bounds of the chart show, from its left to its right edge,
/// and invisible where it does not. Only where it misses the right edge by less than its rounding can it
/// be either.
pub proof fn law_visible_places_lie_in_the_region(s: ChartState, x: Single)
    requires
        x.is_finite(),
        ({
            let region = s.visible_region(s.bounds.size());
            &&& region.x.is_finite()
            &&& region.width.is_finite()
            &&& region.x.plus(region.width).is_finite()
        }),
    ensures
        ({
            let region = s.visible_region(s.bounds.size());
            let edge = region.x.key() + region.width.key();
            &&& s.is_interval_x_visible(x) ==> region.x.key() <= x.key() && 0x100_0000 * (x.key()
                - edge) <= abs(edge)
            &&& region.x.key() <= x.key() && 0x100_0000 * (x.key() - edge) < -abs(edge)
                ==> s.is_interval_x_visible(x)
        }),
{
    let region = s.visible_region(s.bounds.size());
    Single::lemma_plus_near(region.x, region.width);
    Single::lemma_order(x, region.x);
    Single::lemma_order(x, region.x.plus(region.width));
}

/// The range of a region by time holds the times of all its places, and half a cell more at both ends,
/// and no more than that. By trades it holds the trades of its places and no more.
pub proof fn law_interval_range_holds_the_region(s: ChartState, region: Rectangle, x: Single)
    requires
        s.has_interval_scale(),
        region.x.le(x),
        x.le(region.x.plus(region.width)),
    ensures
        ({
            let (first, last) = s.interval_range(region);
            let left = s.x_to_interval(region.x);
            let right = s.x_to_interval(region.x.plus(region.width));
            let here = s.x_to_interval(x);
            match s.basis {
                Basis::Time(interval) => {
                    let half = interval / 2;
                    &&& first == 0 || first + half <= here
                    &&& last == u64::MAX || here + half <= last
                    &&& first == 0 || first + half == left
                    &&& last == u64::MAX || right + half == last
                    &&& left > half ==> first > 0
                    &&& right + half < u64::MAX ==> last < u64::MAX
                },
                Basis::Tick(_) => {
                    &&& first <= here <= last
                    &&& first == right
                    &&& last == left
                },
            }
        }),
{
    law_places_belong_in_order(s, region.x, x);
    law_places_belong_in_order(s, x, region.x.plus(region.width));
}

/// The prices of a region are those from its top to its bottom: no place in it has a price outside, and
/// its edges have the outermost ones.
pub proof fn law_price_range_holds_the_region(s: ChartState, region: Rectangle, y: Single)
    requires
        s.has_price_scale(),
        region.y.le(y),
        y.le(region.y.plus(region.height)),
    ensures
        ({
            let (highest, lowest) = s.price_range(region);
            &&& s.y_to_price(y).le(highest)
            &&& lowest.le(s.y_to_price(y))
            &&& highest == s.y_to_price(region.y)
            &&& lowest == s.y_to_price(region.y.plus(region.height))
        }),
{
    law_lower_places_have_lower_prices(s, region.y, y);
    law_lower_places_have_lower_prices(s, y, region.y.plus(region.height));
}

/// The middle of a rectangle lies half its width and half its height from its corner, up to rounding.
pub proof fn law_center_lies_in_the_middle(r: Rectangle)
    requires
        r.x.is_finite(),
        r.y.is_finite(),
        r.width.is_finite(),
        r.height.is_finite(),
        r.width.divides(Single { bits: TWO }),
        r.height.divides(Single { bits: TWO }),
        r.center().x.is_finite(),
        r.center().y.is_finite(),
    ensures
        0x100_0000 * abs(2 * r.center().x.key() - (2 * r.x.key() + r.width.key())) <= 4 * abs(
            r.center().x.key(),
        ) + abs(r.width.key()),
        0x100_0000 * abs(2 * r.center().y.key() - (2 * r.y.key() + r.height.key())) <= 4 * abs(
            r.center().y.key(),
        ) + abs(r.height.key()),
{
    lemma_middle(r.x, r.width);
    lemma_middle(r.y, r.height);
}

proof fn lemma_middle(start: Single, length: Single)
    requires
        start.is_finite(),
        length.is_finite(),
        length.divides(Single { bits: TWO }),
        start.plus(length.over(Single { bits: TWO })).is_finite(),
    ensures
        ({
            let middle = start.plus(length.over(Single { bits: TWO })).key();
            0x100_0000 * abs(2 * middle - (2 * start.key() + length.key())) <= 4 * abs(middle) + abs(
                length.key(),
            )
        }),
{
    let two = Single { bits: TWO };
    let u = unit(0) as int;
    let half = length.over(two);
    lemma_unit_pos(0);
    Single::lemma_two_key();
    Single::lemma_over_near(length, two);
    Single::lemma_plus_near(start, half);
    let h = half.key();
    assert(h * (2 * u) == (2 * h) * u) by (nonlinear_arith);
    lemma_near_unscaled(2 * h, length.key(), u, 16);
}

/// A rectangle holds the points from its left and upper edge on, to its right and lower edge and without
/// them, up to the rounding of those edges.
pub proof fn law_rectangle_holds_its_points(r: Rectangle, p: Point)
    requires
        p.x.is_finite(),
        p.y.is_finite(),
        r.x.is_finite(),
        r.y.is_finite(),
        r.width.is_finite(),
        r.height.is_finite(),
        r.x.plus(r.width).is_finite(),
        r.y.plus(r.height).is_finite(),
    ensures
        ({
            let right = r.x.key() + r.width.key();
            let bottom = r.y.key() + r.height.key();
            &&& r.contains(p) ==> {
                &&& r.x.key() <= p.x.key()
                &&& r.y.key() <= p.y.key()
                &&& 0x100_0000 * (p.x.key() - right) < abs(right) + 0x100_0000
                &&& 0x100_0000 * (p.y.key() - bottom) < abs(bottom) + 0x100_0000
            }
            &&& r.x.key() <= p.x.key() && r.y.key() <= p.y.key() && 0x100_0000 * (p.x.key() - right)
                < -abs(right) && 0x100_0000 * (p.y.key() - bottom) < -abs(bottom) ==> r.contains(p)
        }),
{
    Single::lemma_plus_near(r.x, r.width);
    Single::lemma_plus_near(r.y, r.height);
    Single::lemma_order(r.x, p.x);
    Single::lemma_order(r.y, p.y);
    Single::lemma_order(p.x, r.x.plus(r.width));
    Single::lemma_order(p.y, r.y.plus(r.height));
}

/// The left and the upper edge of a rectangle belong to it, the right and the lower edge do not, as the
/// format holds them; and a place on either edge of what is visible is visible.
pub proof fn law_edges_belong(r: Rectangle, p: Point, s: ChartState, x: Single)
    requires
        r.ordered(),
        !p.x.is_nan(),
        !p.y.is_nan(),
        !x.is_nan(),
    ensures
        ({
            let (right, lower) = (r.x.plus(r.width), r.y.plus(r.height));
            !right.is_nan() && !lower.is_nan() ==> r.contains(p) == (r.x.key() <= p.x.key() < right.key()
                && r.y.key() <= p.y.key() < lower.key())
        }),
        ({
            let region = s.visible_region(s.bounds.size());
            let right = region.x.plus(region.width);
            !region.x.is_nan() && !right.is_nan() ==> s.is_interval_x_visible(x) == (region.x.key()
                <= x.key() <= right.key())
        }),
{
    let (right, lower) = (r.x.plus(r.width), r.y.plus(r.height));
    let region = s.visible_region(s.bounds.size());
    let end = region.x.plus(region.width);
    Single::lemma_order(r.x, p.x);
    Single::lemma_order(r.y, p.y);
    if !right.is_nan() {
        Single::lemma_order(p.x, right);
    }
    if !lower.is_nan() {
        Single::lemma_order(p.y, lower);
    }
    if !region.x.is_nan() {
        Single::lemma_order(x, region.x);
    }
    if !end.is_nan() {
        Single::lemma_order(x, end);
    }
}

/// Two rectangles are equal where their corners and sizes are, whatever zeros are written like, and one that
/// holds what is not a number equals none, not even itself.
pub proof fn law_equal_rectangles_have_equal_sides(a: Rectangle, b: Rectangle)
    ensures
        a.ordered() && b.ordered() ==> a.equals(b) == (a.x.key() == b.x.key() && a.y.key() == b.y.key()
            && a.width.key() == b.width.key() && a.height.key() == b.height.key()),
        a.x.is_nan() || a.y.is_nan() || a.width.is_nan() || a.height.is_nan() ==> !a.equals(b)
            && !b.equals(a),
        a.size().width == a.width && a.size().height == a.height,
{
    reveal(Single::spec_equals);
    if a.ordered() && b.ordered() {
        Single::lemma_order(a.x, b.x);
        Single::lemma_order(a.y, b.y);
        Single::lemma_order(a.width, b.width);
        Single::lemma_order(a.height, b.height);
    }
}

/// Only a pointer that is available has a position. In an area it has one exactly where the area holds it,
/// measured from the area's corner; from a point it has one everywhere, measured from that point.
pub proof fn law_pointers_are_measured(position: Point, bounds: Rectangle, origin: Point)
    ensures
        ({
            let cursor = Cursor::Available(position);
            &&& (cursor.position_in(bounds) is Some) == bounds.contains(position)
            &&& cursor.position_in(bounds) matches Some(p) ==> is_way(bounds.x, position.x, p.x)
                && is_way(bounds.y, position.y, p.y)
            &&& cursor.position_from(origin) matches Some(p) && is_way(origin.x, position.x, p.x)
                && is_way(origin.y, position.y, p.y)
            &&& Cursor::Levitating(position).position_in(bounds) is None
            &&& Cursor::Levitating(position).position_from(origin) is None
            &&& Cursor::Unavailable.position_in(bounds) is None
            &&& Cursor::Unavailable.position_from(origin) is None
        }),
{
    lemma_way(bounds.x, position.x);
    lemma_way(bounds.y, position.y);
    lemma_way(origin.x, position.x);
    lemma_way(origin.y, position.y);
}

/// A number is the way from one coordinate to another, up to rounding, where all of them are finite.
pub open spec fn is_way(from: Single, to: Single, way: Single) -> bool {
    from.is_finite() && to.is_finite() && way.is_finite() ==> 0x100_0000 * abs(
        way.key() - (to.key() - from.key()),
    ) <= abs(to.key() - from.key())
}

proof fn lemma_way(from: Single, to: Single)
    ensures
        is_way(from, to, to.minus(from)),
{
    if from.is_finite() && to.is_finite() && to.minus(from).is_finite() {
        Single::lemma_minus_near(to, from);
    }
}

/// The pointer counts inside a frame that is four times as wide as the splits between panels: the area
/// starts that far inside and is twice that much smaller, on both axes and up to rounding.
pub proof fn law_pointer_counts_inside_a_frame(bounds: Rectangle, drag_size: Single)
    requires
        drag_size.is_finite(),
        drag_size.multiplies(Single { bits: 0x4080_0000 }),
        bounds.x.is_finite(),
        bounds.y.is_finite(),
        bounds.width.is_finite(),
        bounds.height.is_finite(),
        ({
            let frame = drag_size.times(Single { bits: 0x4080_0000 });
            let area = pointer_area(bounds, drag_size);
            &&& frame.plus(frame).is_finite()
            &&& area.x.is_finite()
            &&& area.y.is_finite()
            &&& area.width.is_finite()
            &&& area.height.is_finite()
        }),
    ensures
        ({
            let area = pointer_area(bounds, drag_size);
            &&& lies_inside(bounds.x, bounds.width, drag_size, area.x, area.width)
            &&& lies_inside(bounds.y, bounds.height, drag_size, area.y, area.height)
        }),
{
    lemma_inside(bounds.x, bounds.width, drag_size);
    lemma_inside(bounds.y, bounds.height, drag_size);
}

/// Along one axis, an area lies four split widths inside of another.
pub open spec fn lies_inside(
    start: Single,
    length: Single,
    drag_size: Single,
    inner_start: Single,
    inner_length: Single,
) -> bool {
    let d = drag_size.key();
    &&& 0x100_0000 * abs(inner_start.key() - (start.key() + 4 * d)) <= 2 * abs(inner_start.key())
        + 4 * abs(d)
    &&& 0x100_0000 * abs(inner_length.key() - (length.key() - 8 * d)) <= 2 * abs(
        inner_length.key(),
    ) + 32 * abs(d)
}

proof fn lemma_inside(start: Single, length: Single, drag_size: Single)
    requires
        drag_size.is_finite(),
        drag_size.multiplies(Single { bits: 0x4080_0000 }),
        start.is_finite(),
        length.is_finite(),
        ({
            let frame = drag_size.times(Single { bits: 0x4080_0000 });
            &&& frame.plus(frame).is_finite()
            &&& start.plus(frame).is_finite()
            &&& length.minus(frame.plus(frame)).is_finite()
        }),
    ensures
        ({
            let frame = drag_size.times(Single { bits: 0x4080_0000 });
            lies_inside(
                start,
                length,
                drag_size,
                start.plus(frame),
                length.minus(frame.plus(frame)),
            )
        }),
{
    let four = Single { bits: 0x4080_0000 };
    let u = unit(0) as int;
    let frame = drag_size.times(four);
    lemma_unit_pos(0);
    Single::lemma_four_key();
    Single::lemma_times_near(drag_size, four);
    let d = drag_size.key();
    assert(d * (4 * u) == (4 * d) * u) by (nonlinear_arith);
    lemma_near_unscaled(frame.key(), 4 * d, u, 16);
    Single::lemma_plus_near(frame, frame);
    Single::lemma_plus_near(start, frame);
    Single::lemma_minus_near(length, frame.plus(frame));
}

} // verus!
