//! Zooming stays within its limits and goes the way it is asked to.
use crate::chart::ChartLimits;
use crate::constants::{MINUS_ONE, ONE, ZERO, ZOOM_SENSITIVITY};
use crate::float::grid::lemma_unit_pos;
use crate::float::single::Single;
use crate::geometry::{Point, Rectangle};
use crate::interaction::{can_rescale, rescaled, response, wheel_response};
use crate::message::{AxisScaleClicked, CanvasAction, Event, Interaction, Message, MouseEvent};
use crate::state::ChartState;
use crate::update::{can_zoom, zoom_factor};
use vstd::prelude::*;

verus! {

/// A size is a positive number.
pub open spec fn is_size(size: Single) -> bool {
    size.is_finite() && size.gt(Single { bits: ZERO })
}

/// A size lies in a range.
pub open spec fn lies_within(size: Single, min: Single, max: Single) -> bool {
    min.le(size) && size.le(max)
}

/// What the two ways of zooming divide by is positive.
proof fn lemma_zoom_factor(is_wheel_scroll: bool)
    ensures
        zoom_factor(is_wheel_scroll).is_finite(),
        zoom_factor(is_wheel_scroll).key() > 0,
{
    Single { bits: ZOOM_SENSITIVITY }.lemma_positive();
    if !is_wheel_scroll {
        Single::lemma_thirty_times_three();
    }
}

proof fn lemma_size_key(size: Single)
    requires
        is_size(size),
    ensures
        size.key() > 0,
{
    Single::lemma_zero_key();
    Single::lemma_order(size, Single { bits: ZERO });
}

/// A size that is scaled by one more than a number, and then moved into a range.
proof fn lemma_scaled_within(size: Single, change: Single, min: Single, max: Single)
    requires
        size.is_finite(),
        size.key() != 0 || (Single { bits: ONE }).plus(change).is_finite(),
        min.le(max),
        change.is_number(),
    ensures
        ({
            let r = size.times(Single { bits: ONE }.plus(change)).clamp(min, max);
            let starts_within = is_size(size) && lies_within(size, min, max);
            &&& lies_within(r, min, max)
            &&& starts_within && change.key() >= 0 ==> r.ge(size)
            &&& starts_within && change.key() <= 0 ==> r.le(size)
        }),
{
    let one = Single { bits: ONE };
    let zero = Single { bits: ZERO };
    Single::lemma_one_key();
    Single::lemma_zero_key();
    Single::lemma_order(size, zero);
    Single::lemma_sum_with_finite(one, change);
    let factor = one.plus(change);
    if change.key() >= 0 {
        Single::lemma_plus_nonneg(one, change);
    }
    if change.key() <= 0 {
        Single::lemma_plus_nonpos(one, change);
    }
    Single::lemma_product_is_number(size, factor);
    if size.key() > 0 {
        Single::lemma_times_scale(size, factor);
    }
    let v = size.times(factor);
    Single::lemma_clamp_within(v, min, max);
    Single::lemma_ordered_are_numbers(min, max);
    let r = v.clamp(min, max);
    Single::lemma_order(v, min);
    Single::lemma_order(v, max);
    Single::lemma_order(min, size);
    Single::lemma_order(size, max);
    Single::lemma_order(r, size);
}

/// Whatever happens, the cells stay as wide as the limits of their width allow.
pub proof fn law_cell_width_stays_within_limits(
    s: ChartState,
    limits: ChartLimits,
    message: Message,
)
    requires
        is_size(s.cell_width),
        lies_within(s.cell_width, limits.min_cell_width, limits.max_cell_width),
        limits.min_cell_width.le(limits.max_cell_width),
        message == Message::DoubleClick(AxisScaleClicked::X) ==> lies_within(
            limits.default_cell_width,
            limits.min_cell_width,
            limits.max_cell_width,
        ),
    ensures
        lies_within(
            s.updated(limits, message).cell_width,
            limits.min_cell_width,
            limits.max_cell_width,
        ),
{
    if let Message::XScaling(delta, x, is_wheel_scroll) = message {
        if can_zoom(s.cell_width, delta, limits.min_cell_width, limits.max_cell_width) {
            lemma_zoom_change(delta, is_wheel_scroll);
            lemma_size_key(s.cell_width);
            lemma_scaled_within(
                s.cell_width,
                delta.over(zoom_factor(is_wheel_scroll)),
                limits.min_cell_width,
                limits.max_cell_width,
            );
        }
    }
}

/// Whatever happens, the cells stay as high as the limits of their height allow.
pub proof fn law_cell_height_stays_within_limits(
    s: ChartState,
    limits: ChartLimits,
    message: Message,
)
    requires
        is_size(s.cell_height),
        lies_within(s.cell_height, limits.min_cell_height, limits.max_cell_height),
        limits.min_cell_height.le(limits.max_cell_height),
    ensures
        lies_within(
            s.updated(limits, message).cell_height,
            limits.min_cell_height,
            limits.max_cell_height,
        ),
{
    if let Message::YScaling(delta, y, is_wheel_scroll) = message {
        if can_zoom(s.cell_height, delta, limits.min_cell_height, limits.max_cell_height) {
            lemma_zoom_change(delta, is_wheel_scroll);
            lemma_size_key(s.cell_height);
            lemma_scaled_within(
                s.cell_height,
                delta.over(zoom_factor(is_wheel_scroll)),
                limits.min_cell_height,
                limits.max_cell_height,
            );
        }
    }
}

/// The change of a size has the direction of what was scrolled or dragged.
proof fn lemma_zoom_change(delta: Single, is_wheel_scroll: bool)
    requires
        delta.lt(Single { bits: ZERO }) || delta.gt(Single { bits: ZERO }),
    ensures
        ({
            let change = delta.over(zoom_factor(is_wheel_scroll));
            &&& change.is_number()
            &&& delta.gt(Single { bits: ZERO }) ==> change.key() >= 0
            &&& delta.lt(Single { bits: ZERO }) ==> change.key() <= 0
        }),
{
    let zero = Single { bits: ZERO };
    let z = zoom_factor(is_wheel_scroll);
    lemma_zoom_factor(is_wheel_scroll);
    Single::lemma_zero_key();
    Single::lemma_ordered_are_numbers(delta, zero);
    Single::lemma_order(delta, zero);
    if delta.key() > 0 {
        Single::lemma_over_order(zero, delta, z);
    } else {
        Single::lemma_over_order(delta, zero, z);
        Single::lemma_over_order(zero, zero, z);
    }
}

/// Zooming in does not make cells narrower, and zooming out does not make them wider.
pub proof fn law_zooming_width_has_a_direction(
    s: ChartState,
    limits: ChartLimits,
    delta: Single,
    cursor: Single,
    is_wheel_scroll: bool,
)
    requires
        is_size(s.cell_width),
        lies_within(s.cell_width, limits.min_cell_width, limits.max_cell_width),
        limits.min_cell_width.le(limits.max_cell_width),
    ensures
        ({
            let zero = Single { bits: ZERO };
            let t = s.updated(limits, Message::XScaling(delta, cursor, is_wheel_scroll));
            &&& delta.gt(zero) ==> t.cell_width.ge(s.cell_width)
            &&& delta.lt(zero) ==> t.cell_width.le(s.cell_width)
        }),
{
    let zero = Single { bits: ZERO };
    Single::lemma_order(s.cell_width, s.cell_width);
    if delta.gt(zero) || delta.lt(zero) {
        let change = delta.over(zoom_factor(is_wheel_scroll));
        lemma_zoom_change(delta, is_wheel_scroll);
        lemma_size_key(s.cell_width);
        lemma_scaled_within(s.cell_width, change, limits.min_cell_width, limits.max_cell_width);
    }
}

/// Zooming in does not make cells lower, and zooming out does not make them higher.
pub proof fn law_zooming_height_has_a_direction(
    s: ChartState,
    limits: ChartLimits,
    delta: Single,
    cursor: Single,
    is_wheel_scroll: bool,
)
    requires
        is_size(s.cell_height),
        lies_within(s.cell_height, limits.min_cell_height, limits.max_cell_height),
        limits.min_cell_height.le(limits.max_cell_height),
    ensures
        ({
            let zero = Single { bits: ZERO };
            let t = s.updated(limits, Message::YScaling(delta, cursor, is_wheel_scroll));
            &&& delta.gt(zero) ==> t.cell_height.ge(s.cell_height)
            &&& delta.lt(zero) ==> t.cell_height.le(s.cell_height)
        }),
{
    let zero = Single { bits: ZERO };
    Single::lemma_order(s.cell_height, s.cell_height);
    if delta.gt(zero) || delta.lt(zero) {
        let change = delta.over(zoom_factor(is_wheel_scroll));
        lemma_zoom_change(delta, is_wheel_scroll);
        lemma_size_key(s.cell_height);
        lemma_scaled_within(s.cell_height, change, limits.min_cell_height, limits.max_cell_height);
    }
}

/// The wheel brings the scaling within its limits, and where it is there already, scales in the
/// direction in which it is turned. Only a scaling of zero and an endless turn have no product.
pub proof fn law_wheel_scales_within_limits(s: ChartState, limits: ChartLimits, y: Single)
    requires
        s.scaling.is_finite(),
        s.scaling.key() != 0 || (Single { bits: ONE }).plus(
            y.over(Single { bits: ZOOM_SENSITIVITY }),
        ).is_finite(),
        limits.min_scaling.le(limits.max_scaling),
        can_rescale(limits, s.scaling, y),
    ensures
        ({
            let scaling = rescaled(limits, s.scaling, y);
            let within = is_size(s.scaling) && lies_within(
                s.scaling,
                limits.min_scaling,
                limits.max_scaling,
            );
            &&& lies_within(scaling, limits.min_scaling, limits.max_scaling)
            &&& within && y.gt(Single { bits: ZERO }) ==> scaling.ge(s.scaling)
            &&& within && y.lt(Single { bits: ZERO }) ==> scaling.le(s.scaling)
        }),
{
    lemma_zoom_change(y, true);
    lemma_scaled_within(
        s.scaling,
        y.over(Single { bits: ZOOM_SENSITIVITY }),
        limits.min_scaling,
        limits.max_scaling,
    );
}

/// What the canvas publishes keeps the scaling within its limits.
pub proof fn law_pointer_keeps_scaling_within_limits(
    s: ChartState,
    limits: ChartLimits,
    interaction: Interaction,
    event: Event,
    bounds: Rectangle,
    cursor_position: Option<Point>,
    cursor_to_center: Option<Point>,
)
    requires
        is_size(s.scaling),
        lies_within(s.scaling, limits.min_scaling, limits.max_scaling),
        limits.min_scaling.le(limits.max_scaling),
    ensures
        response(
            limits,
            s,
            interaction,
            event,
            bounds,
            cursor_position,
            cursor_to_center,
        ) matches Some(action) ==> (action.message matches Some(message) ==> lies_within(
            s.updated(limits, message).scaling,
            limits.min_scaling,
            limits.max_scaling,
        )),
{
    if let Event::Mouse(MouseEvent::WheelScrolled { delta }) = event {
        let y = delta.vertical();
        if can_rescale(limits, s.scaling, y) {
            lemma_size_key(s.scaling);
            law_wheel_scales_within_limits(s, limits, y);
        }
    }
}

/// What the canvas publishes can be applied to the chart.
pub proof fn law_published_messages_are_accepted(
    s: ChartState,
    limits: ChartLimits,
    interaction: Interaction,
    event: Event,
    bounds: Rectangle,
    cursor_position: Option<Point>,
    cursor_to_center: Option<Point>,
)
    requires
        limits.min_cell_width.le(limits.max_cell_width),
    ensures
        response(
            limits,
            s,
            interaction,
            event,
            bounds,
            cursor_position,
            cursor_to_center,
        ) matches Some(action) ==> (action.message matches Some(message) ==> s.accepts(
            limits,
            message,
        )),
{
}

/// Zooming ends: at the largest scaling and the widest cells the wheel does nothing more when it is
/// turned up, and at the smallest scaling and the narrowest cells when it is turned down.
pub proof fn law_zooming_ends(s: ChartState, limits: ChartLimits, y: Single, cursor_to_center: Point)
    requires
        limits.min_scaling.lt(limits.max_scaling),
        ({
            ||| {
                &&& y.gt(Single { bits: ZERO })
                &&& s.scaling.equals(limits.max_scaling)
                &&& s.cell_width.ge(limits.max_cell_width)
            }
            ||| {
                &&& y.lt(Single { bits: ZERO })
                &&& s.scaling.equals(limits.min_scaling)
                &&& s.cell_width.le(limits.min_cell_width)
            }
        }),
    ensures
        wheel_response(limits, s, y, cursor_to_center) == CanvasAction::capture(),
{
    let zero = Single { bits: ZERO };
    let one = Single { bits: ONE };
    let minus_one = Single { bits: MINUS_ONE };
    Single::lemma_zero_key();
    Single::lemma_one_key();
    one.lemma_neg_key();
    assert(one.neg() == minus_one);
    lemma_unit_pos(0);
    Single::lemma_ordered_are_numbers(y, zero);
    Single::lemma_order(y, zero);
    Single::lemma_ordered_are_numbers(limits.min_scaling, limits.max_scaling);
    Single::lemma_order(limits.min_scaling, limits.max_scaling);
    Single::lemma_order(one, minus_one);
    Single::lemma_order(minus_one, one);
    y.lemma_sign();
    if s.scaling.equals(limits.max_scaling) {
        Single::lemma_ordered_are_numbers(s.scaling, limits.max_scaling);
    } else {
        Single::lemma_ordered_are_numbers(s.scaling, limits.min_scaling);
    }
    Single::lemma_order(s.scaling, limits.max_scaling);
    Single::lemma_order(s.scaling, limits.min_scaling);
    if y.gt(zero) {
        Single::lemma_ordered_are_numbers(s.cell_width, limits.max_cell_width);
        Single::lemma_order(s.cell_width, limits.max_cell_width);
    } else {
        Single::lemma_ordered_are_numbers(s.cell_width, limits.min_cell_width);
        Single::lemma_order(s.cell_width, limits.min_cell_width);
    }
}

} // verus!
