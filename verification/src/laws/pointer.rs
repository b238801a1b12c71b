//! What the pointer does over several events.
use crate::chart::ChartLimits;
use crate::constants::ONE;
use crate::float::accuracy::{lemma_near_chain, lemma_near_scaled, lemma_near_unscaled};
use crate::float::arith::abs;
use crate::float::grid::{lemma_unit_pos, unit};
use crate::float::single::Single;
use crate::geometry::{Point, Rectangle, Vector};
use crate::interaction::{next_interaction, rescales, response, wheel_response};
use crate::laws::zoom::is_size;
use crate::message::{Button, CanvasAction, Event, Interaction, Message, MouseEvent, ScrollDelta};
use crate::state::ChartState;
use vstd::prelude::*;

verus! {

/// Changed bounds are announced first, whatever happened; once they are applied they are not
/// announced again.
pub proof fn law_bounds_are_announced_once(
    s: ChartState,
    limits: ChartLimits,
    interaction: Interaction,
    event: Event,
    bounds: Rectangle,
    cursor_position: Option<Point>,
    cursor_to_center: Option<Point>,
)
    requires
        bounds.ordered(),
    ensures
        !s.bounds.equals(bounds) ==> response(
            limits,
            s,
            interaction,
            event,
            bounds,
            cursor_position,
            cursor_to_center,
        ) == Some(
            CanvasAction {
                message: Some(Message::BoundsChanged(bounds)),
                redraw: false,
                captured: false,
            },
        ),
        !s.bounds.equals(bounds) && !(event matches Event::Mouse(MouseEvent::ButtonReleased(_)))
            ==> next_interaction(s, interaction, event, bounds, cursor_position) == interaction,
        response(
            limits,
            s.updated(limits, Message::BoundsChanged(bounds)),
            interaction,
            event,
            bounds,
            cursor_position,
            cursor_to_center,
        ) matches Some(action) ==> !(action.message matches Some(Message::BoundsChanged(_))),
{
    Single::lemma_order(bounds.x, bounds.x);
    Single::lemma_order(bounds.y, bounds.y);
    Single::lemma_order(bounds.width, bounds.width);
    Single::lemma_order(bounds.height, bounds.height);
}

/// Letting go of any button ends what the pointer was doing, wherever it is.
pub proof fn law_release_ends(
    s: ChartState,
    interaction: Interaction,
    button: Button,
    bounds: Rectangle,
    cursor_position: Option<Point>,
)
    ensures
        next_interaction(
            s,
            interaction,
            Event::Mouse(MouseEvent::ButtonReleased(button)),
            bounds,
            cursor_position,
        ) == Interaction::Idle,
{
}

/// A drag starts only with the left button inside the chart, at the chart's place and the pointer's.
pub proof fn law_drag_starts_with_press(
    s: ChartState,
    interaction: Interaction,
    event: Event,
    bounds: Rectangle,
    cursor_position: Option<Point>,
)
    requires
        !(interaction is Panning),
        next_interaction(s, interaction, event, bounds, cursor_position) is Panning,
    ensures
        event == Event::Mouse(MouseEvent::ButtonPressed(Button::Left)),
        cursor_position is Some,
        next_interaction(s, interaction, event, bounds, cursor_position) == (Interaction::Panning {
            translation: s.translation,
            start: cursor_position->0,
        }),
{
}

/// The left button, pressed inside a chart whose bounds are known, starts a drag from where the chart and
/// the pointer are; no other button does anything. Either way the event is kept and the chart drawn
/// again.
pub proof fn law_press_starts_a_drag(
    s: ChartState,
    limits: ChartLimits,
    interaction: Interaction,
    bounds: Rectangle,
    position: Point,
    cursor_to_center: Option<Point>,
)
    requires
        s.bounds.equals(bounds),
    ensures
        ({
            let left = Event::Mouse(MouseEvent::ButtonPressed(Button::Left));
            let other = Event::Mouse(MouseEvent::ButtonPressed(Button::Other));
            let drawn = Some(CanvasAction { message: None, redraw: true, captured: true });
            let center = cursor_to_center;
            &&& next_interaction(s, interaction, left, bounds, Some(position)) == (
            Interaction::Panning { translation: s.translation, start: position })
            &&& next_interaction(s, interaction, other, bounds, Some(position)) == interaction
            &&& response(limits, s, interaction, left, bounds, Some(position), center) == drawn
            &&& response(limits, s, interaction, other, bounds, Some(position), center) == drawn
        }),
{
}

/// While nothing is pressed, moving the pointer inside the chart moves the crosshair where it is shown,
/// and only draws the chart again where it is not. The event is left to others.
pub proof fn law_idle_pointer_moves_the_crosshair(
    s: ChartState,
    limits: ChartLimits,
    bounds: Rectangle,
    position: Point,
    cursor_to_center: Option<Point>,
)
    requires
        s.bounds.equals(bounds),
    ensures
        ({
            let moved = Event::Mouse(MouseEvent::CursorMoved);
            let action = response(
                limits,
                s,
                Interaction::Idle,
                moved,
                bounds,
                Some(position),
                cursor_to_center,
            );
            &&& s.crosshair ==> action == Some(
                CanvasAction {
                    message: Some(Message::CrosshairMoved),
                    redraw: false,
                    captured: false,
                },
            )
            &&& !s.crosshair ==> action == Some(
                CanvasAction { message: None, redraw: true, captured: false },
            )
            &&& next_interaction(s, Interaction::Idle, moved, bounds, Some(position))
                == Interaction::Idle
        }),
{
}

/// With the pointer outside, and for what is not a press, a move or a turn of the wheel, the canvas does
/// nothing once the bounds are known.
pub proof fn law_nothing_happens_outside(
    s: ChartState,
    limits: ChartLimits,
    interaction: Interaction,
    event: Event,
    bounds: Rectangle,
    cursor_position: Option<Point>,
    cursor_to_center: Option<Point>,
)
    requires
        s.bounds.equals(bounds),
        cursor_position is None || event is Other || event == Event::Mouse(MouseEvent::Other)
            || event matches Event::Mouse(MouseEvent::ButtonReleased(_)),
    ensures
        response(
            limits,
            s,
            interaction,
            event,
            bounds,
            cursor_position,
            cursor_to_center,
        ) is None,
        !(event matches Event::Mouse(MouseEvent::ButtonReleased(_))) ==> next_interaction(
            s,
            interaction,
            event,
            bounds,
            cursor_position,
        ) == interaction,
{
}

/// The steps by which one coordinate of a dragged chart is found stay numbers, and none of them is so
/// small that it loses digits.
pub open spec fn can_follow(scaling: Single, place: Single, start: Single, pointer: Single) -> bool {
    let way = pointer.minus(start);
    let factor = (Single { bits: 0x3f80_0000 }).over(scaling);
    &&& place.is_finite()
    &&& start.is_finite()
    &&& pointer.is_finite()
    &&& way.is_finite()
    &&& (Single { bits: 0x3f80_0000 }).divides(scaling)
    &&& way.multiplies(factor)
    &&& place.plus(way.times(factor)).is_finite()
}

/// Along one axis, the place that was under the pointer when a drag began is under it still: the chart
/// went, times the scaling, as far as the pointer. It is off by at most four parts in two to the power
/// of 24 of the pointer's way, and two parts of where the chart is now.
pub open spec fn follows(
    scaling: Single,
    place: Single,
    moved: Single,
    start: Single,
    pointer: Single,
) -> bool {
    let way = (pointer.key() - start.key()) * unit(0);
    0x100_0000 * abs(scaling.key() * (moved.key() - place.key()) - way) <= 4 * abs(way) + 2 * (
    scaling.key() * abs(moved.key()))
}

proof fn lemma_follows(scaling: Single, place: Single, start: Single, pointer: Single)
    requires
        is_size(scaling),
        can_follow(scaling, place, start, pointer),
    ensures
        follows(
            scaling,
            place,
            place.plus(
                pointer.minus(start).times((Single { bits: 0x3f80_0000 }).over(scaling)),
            ),
            start,
            pointer,
        ),
{
    let one = Single { bits: 0x3f80_0000 };
    let u = unit(0) as int;
    let way = pointer.minus(start);
    let factor = one.over(scaling);
    let shift = way.times(factor);
    let moved = place.plus(shift);
    lemma_unit_pos(0);
    Single::lemma_zero_key();
    Single::lemma_one_key();
    Single::lemma_order(scaling, Single { bits: 0 });
    Single::lemma_minus_near(pointer, start);
    Single::lemma_over_near(one, scaling);
    Single::lemma_times_near(way, factor);
    Single::lemma_plus_near(place, shift);
    let (a, f, d, m, t) = (scaling.key(), factor.key(), way.key(), shift.key(), place.key());
    let exact = pointer.key() - start.key();
    lemma_near_scaled(m * u, d * f, a, 16);
    lemma_near_scaled(f * a, u * u, d, 16);
    assert((d * f) * a == (f * a) * d) by (nonlinear_arith);
    lemma_near_chain((m * u) * a, (f * a) * d, (u * u) * d, 16, 16);
    assert((m * u) * a == (a * m) * u) by (nonlinear_arith);
    assert((u * u) * d == (d * u) * u) by (nonlinear_arith);
    lemma_near_unscaled(a * m, d * u, u, 33);
    lemma_near_scaled(d, exact, u, 16);
    lemma_near_chain(a * m, d * u, exact * u, 33, 16);
    let e = moved.key() - (t + m);
    let g = abs(moved.key()) as int;
    assert(-(2 * g) <= 0x100_0000 * e <= 2 * g);
    assert(a * (moved.key() - t) == a * m + a * e) by (nonlinear_arith)
        requires
            e == moved.key() - (t + m),
    ;
    assert(-(2 * (a * g)) <= 0x100_0000 * (a * e) <= 2 * (a * g)) by (nonlinear_arith)
        requires
            -(2 * g) <= 0x100_0000 * e <= 2 * g,
            a > 0,
    ;
}

/// While the chart is dragged, it follows the pointer: moving the pointer publishes a place of the chart
/// at which what was under the pointer when the drag began is under it still, on both axes, whatever
/// the scaling is.
pub proof fn law_chart_follows_the_pointer(
    s: ChartState,
    limits: ChartLimits,
    translation: Vector,
    start: Point,
    bounds: Rectangle,
    position: Point,
    cursor_to_center: Option<Point>,
)
    requires
        s.bounds.equals(bounds),
        is_size(s.scaling),
        can_follow(s.scaling, translation.x, start.x, position.x),
        can_follow(s.scaling, translation.y, start.y, position.y),
    ensures
        ({
            let drag = Interaction::Panning { translation, start };
            let moved = Event::Mouse(MouseEvent::CursorMoved);
            response(limits, s, drag, moved, bounds, Some(position), cursor_to_center) matches Some(
                action,
            ) && action.message matches Some(Message::Translated(place)) && {
                &&& action.captured && !action.redraw
                &&& follows(s.scaling, translation.x, place.x, start.x, position.x)
                &&& follows(s.scaling, translation.y, place.y, start.y, position.y)
            }
        }),
{
    lemma_follows(s.scaling, translation.x, start.x, position.x);
    lemma_follows(s.scaling, translation.y, start.y, position.y);
}

/// Where a drag takes the chart depends on where it started and where the pointer is, not on the way
/// between: what the drag published before changes nothing.
pub proof fn law_drag_does_not_add_up(
    s: ChartState,
    limits: ChartLimits,
    translation: Vector,
    start: Point,
    before: Vector,
    bounds: Rectangle,
    position: Point,
    cursor_to_center: Option<Point>,
)
    ensures
        ({
            let drag = Interaction::Panning { translation, start };
            let moved = Event::Mouse(MouseEvent::CursorMoved);
            let t = s.updated(limits, Message::Translated(before));
            &&& response(limits, t, drag, moved, bounds, Some(position), cursor_to_center)
                == response(limits, s, drag, moved, bounds, Some(position), cursor_to_center)
            &&& next_interaction(t, drag, moved, bounds, Some(position)) == drag
        }),
{
}

/// A drag back to where it started brings the chart back to where it was.
pub proof fn law_drag_back_restores(
    s: ChartState,
    limits: ChartLimits,
    translation: Vector,
    start: Point,
    bounds: Rectangle,
    cursor_to_center: Option<Point>,
)
    requires
        s.bounds.equals(bounds),
        start.x.is_finite(),
        start.y.is_finite(),
        translation.x.is_finite(),
        translation.y.is_finite(),
        (Single { bits: ONE }).over(s.scaling).is_finite(),
    ensures
        ({
            let drag = Interaction::Panning { translation, start };
            let moved = Event::Mouse(MouseEvent::CursorMoved);
            response(limits, s, drag, moved, bounds, Some(start), cursor_to_center) matches Some(
                action,
            ) && action.message matches Some(Message::Translated(place)) && place.x.equals(
                translation.x,
            ) && place.y.equals(translation.y)
        }),
{
    let factor = Single { bits: ONE }.over(s.scaling);
    lemma_no_shift(translation.x, start.x, factor);
    lemma_no_shift(translation.y, start.y, factor);
}

/// No way times a factor is no way.
proof fn lemma_no_shift(place: Single, start: Single, factor: Single)
    requires
        place.is_finite(),
        start.is_finite(),
        factor.is_finite(),
    ensures
        place.plus(start.minus(start).times(factor)).equals(place),
{
    let d = start.minus(start);
    Single::lemma_minus_self(start);
    Single::lemma_zero_times(d, factor);
    Single::lemma_plus_zero(place, d.times(factor));
    Single::lemma_order(place.plus(d.times(factor)), place);
}

/// Where the chart is not dragged, the canvas answers the wheel as the chart's limits and state ask
/// for, and the pointer goes on with what it was doing.
pub proof fn law_wheel_is_answered(
    s: ChartState,
    limits: ChartLimits,
    interaction: Interaction,
    delta: ScrollDelta,
    bounds: Rectangle,
    position: Point,
    cursor_to_center: Point,
)
    requires
        !(interaction is Panning),
        s.bounds.equals(bounds),
    ensures
        ({
            let turned = Event::Mouse(MouseEvent::WheelScrolled { delta });
            let center = Some(cursor_to_center);
            let y = match delta {
                ScrollDelta::Lines { y } => y,
                ScrollDelta::Pixels { y } => y,
            };
            &&& response(limits, s, interaction, turned, bounds, Some(position), center) == Some(
                wheel_response(limits, s, y, cursor_to_center),
            )
            &&& response(limits, s, interaction, turned, bounds, Some(position), None) is None
            &&& next_interaction(s, interaction, turned, bounds, Some(position)) == interaction
        }),
{
}

/// While the chart is dragged, the wheel does nothing.
pub proof fn law_wheel_is_held_while_dragging(
    s: ChartState,
    limits: ChartLimits,
    drag: Interaction,
    delta: ScrollDelta,
    bounds: Rectangle,
    position: Point,
    cursor_to_center: Option<Point>,
)
    requires
        drag is Panning,
        s.bounds.equals(bounds),
    ensures
        ({
            let turned = Event::Mouse(MouseEvent::WheelScrolled { delta });
            &&& response(limits, s, drag, turned, bounds, Some(position), cursor_to_center) == Some(
                CanvasAction { message: None, redraw: false, captured: true },
            )
            &&& next_interaction(s, drag, turned, bounds, Some(position)) == drag
        }),
{
}

/// A pointer that is neither idle nor dragging the chart only has the chart drawn again when it moves, and
/// keeps the event from others.
pub proof fn law_other_moves_only_redraw(
    s: ChartState,
    limits: ChartLimits,
    last_position: Point,
    bounds: Rectangle,
    position: Point,
    cursor_to_center: Option<Point>,
)
    requires
        s.bounds.equals(bounds),
    ensures
        ({
            let zoom = Interaction::Zoomin { last_position };
            let moved = Event::Mouse(MouseEvent::CursorMoved);
            &&& response(limits, s, zoom, moved, bounds, Some(position), cursor_to_center) == Some(
                CanvasAction { message: None, redraw: true, captured: true },
            )
            &&& next_interaction(s, zoom, moved, bounds, Some(position)) == zoom
        }),
{
}

/// The limits of the scaling have to be in order exactly for the events that publish a new scaling.
pub proof fn law_only_scaling_needs_limits(
    s: ChartState,
    limits: ChartLimits,
    interaction: Interaction,
    event: Event,
    bounds: Rectangle,
    cursor_position: Option<Point>,
    cursor_to_center: Option<Point>,
)
    ensures
        rescales(limits, s, interaction, event, bounds, cursor_position, cursor_to_center) == (
        response(
            limits,
            s,
            interaction,
            event,
            bounds,
            cursor_position,
            cursor_to_center,
        ) matches Some(action) && action.message matches Some(Message::Scaled(..))),
{
}

} // verus!
