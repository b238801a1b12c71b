//! How the canvas answers the pointer.
use crate::chart::{limits_of, Chart, ChartLimits};
use crate::constants::{FOUR, MINUS_ONE, MIN_DENOMINATOR, ONE, TWO, ZERO, ZOOM_SENSITIVITY};
use crate::float::single::Single;
use crate::geometry::{Point, Rectangle, Vector};
use crate::message::{
    Button, CanvasAction, Cursor, Event, Interaction, Message, MouseEvent, ScrollDelta,
};
use crate::state::{ChartState, CommonChartData};
use vstd::prelude::*;

verus! {

impl ScrollDelta {
    pub open spec fn spec_vertical(self) -> Single {
        match self {
            ScrollDelta::Lines { y } => y,
            ScrollDelta::Pixels { y } => y,
        }
    }

    /// How far the wheel was turned up.
    #[verifier::when_used_as_spec(spec_vertical)]
    pub fn vertical(self) -> (r: Single)
        ensures
            r == self.vertical(),
    {
        match self {
            ScrollDelta::Lines { y } => y,
            ScrollDelta::Pixels { y } => y,
        }
    }
}

/// Turning the wheel at either end of the scaling changes the width of the cells instead: outward
/// while there is room for it, back until the default width is reached.
pub open spec fn adjusts_cell_width(
    limits: ChartLimits,
    scaling: Single,
    cell_width: Single,
    y: Single,
) -> bool {
    let zooms_in = y.signum().equals(Single { bits: ONE });
    let zooms_out = y.signum().equals(Single { bits: MINUS_ONE });
    let at_max = scaling.equals(limits.max_scaling);
    let at_min = scaling.equals(limits.min_scaling);
    ||| zooms_out && at_max && cell_width.gt(limits.default_cell_width)
    ||| zooms_in && at_min && cell_width.lt(limits.default_cell_width)
    ||| zooms_in && at_max && cell_width.lt(limits.max_cell_width)
    ||| zooms_out && at_min && cell_width.gt(limits.min_cell_width)
}

/// The wheel can change the scaling: it is turned, and there is room in that direction.
pub open spec fn can_rescale(limits: ChartLimits, scaling: Single, y: Single) -> bool {
    ||| y.lt(Single { bits: ZERO }) && scaling.gt(limits.min_scaling)
    ||| y.gt(Single { bits: ZERO }) && scaling.lt(limits.max_scaling)
}

/// The scaling after the wheel was turned by `y`.
pub open spec fn rescaled(limits: ChartLimits, scaling: Single, y: Single) -> Single {
    scaling.times(
        Single { bits: ONE }.plus(y.over(Single { bits: ZOOM_SENSITIVITY })),
    ).clamp(limits.min_scaling, limits.max_scaling)
}

/// The translation with which the point under the pointer keeps its place while the scaling
/// changes. Where the product of the two scalings is too small to divide by, nothing moves.
pub open spec fn retranslated(
    translation: Vector,
    before: Single,
    after: Single,
    cursor_to_center: Point,
) -> Vector {
    let denominator = before.times(after);
    let factor = after.minus(before);
    let shift = if denominator.abs().gt(Single { bits: MIN_DENOMINATOR }) {
        Vector {
            x: cursor_to_center.x.times(factor).over(denominator),
            y: cursor_to_center.y.times(factor).over(denominator),
        }
    } else {
        Vector::zero()
    };
    translation.minus(shift)
}

/// What the wheel does, where the chart is not being dragged.
pub open spec fn wheel_response(
    limits: ChartLimits,
    state: ChartState,
    y: Single,
    cursor_to_center: Point,
) -> CanvasAction {
    if adjusts_cell_width(limits, state.scaling, state.cell_width, y) {
        CanvasAction::publish(
            Message::XScaling(y.over(Single { bits: TWO }), cursor_to_center.x, true),
        ).and_capture()
    } else if can_rescale(limits, state.scaling, y) {
        let scaling = rescaled(limits, state.scaling, y);
        CanvasAction::publish(
            Message::Scaled(
                scaling,
                retranslated(state.translation, state.scaling, scaling, cursor_to_center),
            ),
        ).and_capture()
    } else {
        CanvasAction::capture()
    }
}

/// What moving the pointer publishes: the dragged chart's translation, or that the crosshair moved.
pub open spec fn move_message(
    state: ChartState,
    interaction: Interaction,
    cursor_position: Point,
) -> Option<Message> {
    match interaction {
        Interaction::Panning { translation, start } => Some(
            Message::Translated(
                translation.plus(
                    cursor_position.minus(start).times(
                        Single { bits: ONE }.over(state.scaling),
                    ),
                ),
            ),
        ),
        Interaction::Idle => if state.crosshair {
            Some(Message::CrosshairMoved)
        } else {
            None
        },
        Interaction::Zoomin { .. } => None,
    }
}

/// What the pointer does before anything else: letting go of a button ends what it was doing.
pub open spec fn settled(interaction: Interaction, event: Event) -> Interaction {
    if event matches Event::Mouse(MouseEvent::ButtonReleased(_)) {
        Interaction::Idle
    } else {
        interaction
    }
}

/// What the pointer does after an event inside the chart.
pub open spec fn next_interaction(
    state: ChartState,
    interaction: Interaction,
    event: Event,
    bounds: Rectangle,
    cursor_position: Option<Point>,
) -> Interaction {
    match (event, cursor_position) {
        (Event::Mouse(MouseEvent::ButtonPressed(Button::Left)), Some(start)) => {
            if state.bounds.equals(bounds) {
                Interaction::Panning { translation: state.translation, start }
            } else {
                interaction
            }
        },
        _ => settled(interaction, event),
    }
}

/// What the canvas is asked to do. Bounds that changed come first; after them only what happens with
/// the pointer inside the chart counts.
pub open spec fn response(
    limits: ChartLimits,
    state: ChartState,
    interaction: Interaction,
    event: Event,
    bounds: Rectangle,
    cursor_position: Option<Point>,
    cursor_to_center: Option<Point>,
) -> Option<CanvasAction> {
    if !state.bounds.equals(bounds) {
        Some(CanvasAction::publish(Message::BoundsChanged(bounds)))
    } else {
        match (event, cursor_position) {
            (_, None) => None,
            (Event::Other, _) => None,
            (Event::Mouse(mouse), Some(position)) => match mouse {
                MouseEvent::ButtonPressed(_) => Some(CanvasAction::request_redraw().and_capture()),
                MouseEvent::CursorMoved => {
                    let action = match move_message(state, interaction, position) {
                        Some(message) => CanvasAction::publish(message),
                        None => CanvasAction::request_redraw(),
                    };
                    Some(
                        if interaction is Idle {
                            action
                        } else {
                            action.and_capture()
                        },
                    )
                },
                MouseEvent::WheelScrolled { delta } => {
                    if interaction is Panning {
                        Some(CanvasAction::capture())
                    } else {
                        match cursor_to_center {
                            None => None,
                            Some(center) => Some(
                                wheel_response(limits, state, delta.vertical(), center),
                            ),
                        }
                    }
                },
                MouseEvent::ButtonReleased(_) => None,
                MouseEvent::Other => None,
            },
        }
    }
}

/// The event changes the scaling, so the limits of the scaling are needed.
pub open spec fn rescales(
    limits: ChartLimits,
    state: ChartState,
    interaction: Interaction,
    event: Event,
    bounds: Rectangle,
    cursor_position: Option<Point>,
    cursor_to_center: Option<Point>,
) -> bool {
    &&& state.bounds.equals(bounds)
    &&& cursor_position is Some
    &&& cursor_to_center is Some
    &&& !(interaction is Panning)
    &&& event matches Event::Mouse(MouseEvent::WheelScrolled { delta }) && {
        &&& !adjusts_cell_width(limits, state.scaling, state.cell_width, delta.vertical())
        &&& can_rescale(limits, state.scaling, delta.vertical())
    }
}

/// The part of the chart in which the pointer counts: all of it but a frame around it, where the
/// splits between the charts, `drag_size` wide, are dragged.
pub open spec fn spec_pointer_area(bounds: Rectangle, drag_size: Single) -> Rectangle {
    bounds.shrink(drag_size.times(Single { bits: FOUR }))
}

#[verifier::when_used_as_spec(spec_pointer_area)]
pub fn pointer_area(bounds: Rectangle, drag_size: Single) -> (r: Rectangle)
    ensures
        r == pointer_area(bounds, drag_size),
{
    bounds.shrink(drag_size.times(Single { bits: FOUR }))
}

/// Whether turning the wheel changes the width of the cells.
pub fn should_adjust_cell_width(
    limits: &ChartLimits,
    scaling: Single,
    cell_width: Single,
    y: Single,
) -> (r: bool)
    ensures
        r == adjusts_cell_width(*limits, scaling, cell_width, y),
{
    let direction = y.signum();
    let zooms_in = direction.equals(Single { bits: ONE });
    let zooms_out = direction.equals(Single { bits: MINUS_ONE });
    let at_max = scaling.equals(limits.max_scaling);
    let at_min = scaling.equals(limits.min_scaling);
    // zooming out at max scaling with increased cell width
    (zooms_out && at_max && cell_width.gt(limits.default_cell_width))
    // zooming in at min scaling with decreased cell width
     || (zooms_in && at_min && cell_width.lt(limits.default_cell_width))
    // zooming in at max scaling with room to increase cell width
     || (zooms_in && at_max && cell_width.lt(limits.max_cell_width))
    // zooming out at min scaling with room to decrease cell width
     || (zooms_out && at_min && cell_width.gt(limits.min_cell_width))
}

/// Whether turning the wheel changes the scaling.
pub fn should_rescale(limits: &ChartLimits, scaling: Single, y: Single) -> (r: bool)
    ensures
        r == can_rescale(*limits, scaling, y),
{
    (y.lt(Single { bits: ZERO }) && scaling.gt(limits.min_scaling)) || (y.gt(
        Single { bits: ZERO },
    ) && scaling.lt(limits.max_scaling))
}

/// What the wheel does, where the chart is not being dragged.
pub fn scroll(
    limits: &ChartLimits,
    state: &CommonChartData,
    y: Single,
    cursor_to_center: Point,
) -> (r: CanvasAction)
    requires
        !adjusts_cell_width(*limits, state@.scaling, state@.cell_width, y) && can_rescale(
            *limits,
            state@.scaling,
            y,
        ) ==> limits.min_scaling.le(limits.max_scaling),
    ensures
        r == wheel_response(*limits, state@, y, cursor_to_center),
{
    if should_adjust_cell_width(limits, state.scaling, state.cell_width, y) {
        return CanvasAction::publish(
            Message::XScaling(y.over(Single { bits: TWO }), cursor_to_center.x, true),
        ).and_capture();
    }
    if should_rescale(limits, state.scaling, y) {
        let old_scaling = state.scaling;
        let scaling = state.scaling.times(
            Single { bits: ONE }.plus(y.over(Single { bits: ZOOM_SENSITIVITY })),
        ).clamp(limits.min_scaling, limits.max_scaling);
        let denominator = old_scaling.times(scaling);
        // safeguard against division by very small numbers
        let vector_diff = if denominator.abs().gt(Single { bits: MIN_DENOMINATOR }) {
            let factor = scaling.minus(old_scaling);
            Vector {
                x: cursor_to_center.x.times(factor).over(denominator),
                y: cursor_to_center.y.times(factor).over(denominator),
            }
        } else {
            Vector::zero()
        };
        let translation = state.translation.minus(vector_diff);
        return CanvasAction::publish(Message::Scaled(scaling, translation)).and_capture();
    }
    CanvasAction::capture()
}

/// Whether an event can be answered: where it changes the scaling, the limits of the scaling have to
/// be in order.
pub fn is_answerable<T: Chart>(
    chart: &T,
    interaction: &Interaction,
    event: &Event,
    bounds: Rectangle,
    cursor: Cursor,
    drag_size: Single,
) -> (r: bool)
    ensures
        r == (rescales(
            chart.limits(),
            chart.data()@,
            *interaction,
            *event,
            bounds,
            cursor.position_in(pointer_area(bounds, drag_size)),
            cursor.position_from(bounds.center()),
        ) ==> chart.limits().min_scaling.le(chart.limits().max_scaling)),
{
    let limits = limits_of(chart);
    let state = chart.common_data();
    let rescaling = match event {
        Event::Mouse(MouseEvent::WheelScrolled { delta }) => {
            state.bounds.equals(bounds) && cursor.position_in(
                pointer_area(bounds, drag_size),
            ).is_some() && cursor.position_from(bounds.center()).is_some()
                && !matches!(*interaction, Interaction::Panning { .. })
                && !should_adjust_cell_width(
                &limits,
                state.scaling,
                state.cell_width,
                delta.vertical(),
            ) && should_rescale(&limits, state.scaling, delta.vertical())
        },
        _ => false,
    };
    !rescaling || limits.min_scaling.le(limits.max_scaling)
}

/// Answers an event on the canvas of a chart whose splits are `drag_size` wide.
pub fn canvas_interaction<T: Chart>(
    chart: &T,
    interaction: &mut Interaction,
    event: &Event,
    bounds: Rectangle,
    cursor: Cursor,
    drag_size: Single,
) -> (r: Option<CanvasAction>)
    requires
        rescales(
            chart.limits(),
            chart.data()@,
            *old(interaction),
            *event,
            bounds,
            cursor.position_in(pointer_area(bounds, drag_size)),
            cursor.position_from(bounds.center()),
        ) ==> chart.limits().min_scaling.le(chart.limits().max_scaling),
    ensures
        *final(interaction) == next_interaction(
            chart.data()@,
            *old(interaction),
            *event,
            bounds,
            cursor.position_in(pointer_area(bounds, drag_size)),
        ),
        r == response(
            chart.limits(),
            chart.data()@,
            *old(interaction),
            *event,
            bounds,
            cursor.position_in(pointer_area(bounds, drag_size)),
            cursor.position_from(bounds.center()),
        ),
        // an answer other than to changed bounds needs the pointer inside the frame of the splits
        chart.data().bounds.equals(bounds) && r is Some ==> (cursor matches Cursor::Available(p)
            && pointer_area(bounds, drag_size).contains(p)),
        // the pointer is measured from the middle of the chart
        r matches Some(action) ==> (action.message matches Some(Message::XScaling(_, x, _)) ==> (
        cursor matches Cursor::Available(p) && x == p.x.minus(
            bounds.x.plus(bounds.width.over(Single { bits: TWO })),
        ))),
        // a drag starts where the pointer is, seen from the corner of the frame
        !(*old(interaction) is Panning) ==> (*final(interaction) matches Interaction::Panning {
            start,
            ..
        } ==> (cursor matches Cursor::Available(p) && start.x == p.x.minus(
            bounds.x.plus(drag_size.times(Single { bits: FOUR })),
        ) && start.y == p.y.minus(bounds.y.plus(drag_size.times(Single { bits: FOUR }))))),
{
    if let Event::Mouse(MouseEvent::ButtonReleased(_)) = event {
        *interaction = Interaction::Idle;
    }
    let state = chart.common_data();
    if !state.bounds.equals(bounds) {
        return Some(CanvasAction::publish(Message::BoundsChanged(bounds)));
    }
    let position = match cursor.position_in(pointer_area(bounds, drag_size)) {
        Some(position) => position,
        None => {
            return None;
        },
    };
    match event {
        Event::Mouse(mouse_event) => match mouse_event {
            MouseEvent::ButtonPressed(button) => {
                match button {
                    Button::Left => {
                        *interaction =
                        Interaction::Panning { translation: state.translation, start: position };
                    },
                    Button::Other => {},
                }
                Some(CanvasAction::request_redraw().and_capture())
            },
            MouseEvent::CursorMoved => {
                let message = match *interaction {
                    Interaction::Panning { translation, start } => Some(
                        Message::Translated(
                            translation.plus(
                                position.minus(start).times(
                                    Single { bits: ONE }.over(state.scaling),
                                ),
                            ),
                        ),
                    ),
                    Interaction::Idle => {
                        if state.crosshair {
                            Some(Message::CrosshairMoved)
                        } else {
                            None
                        }
                    },
                    _ => None,
                };
                let action = match message {
                    Some(message) => CanvasAction::publish(message),
                    None => CanvasAction::request_redraw(),
                };
                Some(
                    match *interaction {
                        Interaction::Idle => action,
                        _ => action.and_capture(),
                    },
                )
            },
            MouseEvent::WheelScrolled { delta } => {
                if let Interaction::Panning { .. } = *interaction {
                    return Some(CanvasAction::capture());
                }
                match cursor.position_from(bounds.center()) {
                    Some(center) => Some(
                        scroll(&limits_of(chart), state, delta.vertical(), center),
                    ),
                    None => None,
                }
            },
            _ => None,
        },
        Event::Other => None,
    }
}

} // verus!
