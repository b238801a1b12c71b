//! What can happen to a chart, and what the chart answers.
use crate::float::single::Single;
use crate::geometry::{Point, Rectangle, Vector};
use vstd::prelude::*;

verus! {

/// What the pointer is doing over the chart.
#[derive(Clone, Copy, Debug, PartialEq, Eq, Structural)]
pub enum Interaction {
    Idle,
    Zoomin { last_position: Point },
    Panning { translation: Vector, start: Point },
}

impl Default for Interaction {
    fn default() -> (r: Self)
        ensures
            r == Interaction::Idle,
    {
        Interaction::Idle
    }
}

/// An axis whose labels were double-clicked.
#[derive(Clone, Copy, Debug, PartialEq, Eq, Structural)]
pub enum AxisScaleClicked {
    X,
    Y,
}

/// A change of the chart.
#[derive(Clone, Copy, Debug, PartialEq, Eq, Structural)]
pub enum Message {
    /// The chart was moved to this translation.
    Translated(Vector),
    /// The chart was zoomed to this scaling, and moved.
    Scaled(Single, Vector),
    AutoscaleToggle,
    CrosshairToggle,
    CrosshairMoved,
    /// The height of the cells changes: by how much, where the pointer is below the middle of the
    /// chart, and whether the wheel was turned.
    YScaling(Single, Single, bool),
    /// The width of the cells changes: by how much, where the pointer is to the right of the middle
    /// of the chart, and whether the wheel was turned.
    XScaling(Single, Single, bool),
    BoundsChanged(Rectangle),
    /// The split with this index was dragged to this position.
    SplitDragged(usize, Single),
    DoubleClick(AxisScaleClicked),
}

/// A button of the mouse.
#[derive(Clone, Copy, Debug, PartialEq, Eq, Structural)]
pub enum Button {
    Left,
    Other,
}

/// How far the wheel was turned.
#[derive(Clone, Copy, Debug, PartialEq, Eq, Structural)]
pub enum ScrollDelta {
    Lines { y: Single },
    Pixels { y: Single },
}

#[derive(Clone, Copy, Debug, PartialEq, Eq, Structural)]
pub enum MouseEvent {
    ButtonPressed(Button),
    ButtonReleased(Button),
    CursorMoved,
    WheelScrolled { delta: ScrollDelta },
    Other,
}

#[derive(Clone, Copy, Debug, PartialEq, Eq, Structural)]
pub enum Event {
    Mouse(MouseEvent),
    Other,
}

/// The pointer. One that hovers over a layer above is not available to the chart.
#[derive(Clone, Copy, Debug, PartialEq, Eq, Structural)]
pub enum Cursor {
    Available(Point),
    Levitating(Point),
    Unavailable,
}

impl Cursor {
    pub open spec fn spec_position(self) -> Option<Point> {
        match self {
            Cursor::Available(position) => Some(position),
            Cursor::Levitating(_) => None,
            Cursor::Unavailable => None,
        }
    }

    /// Where the pointer is, where it is available.
    #[verifier::when_used_as_spec(spec_position)]
    pub fn position(self) -> (r: Option<Point>)
        ensures
            r == self.position(),
    {
        match self {
            Cursor::Available(position) => Some(position),
            Cursor::Levitating(_) => None,
            Cursor::Unavailable => None,
        }
    }

    pub open spec fn spec_position_in(self, bounds: Rectangle) -> Option<Point> {
        match self.position() {
            Some(position) => if bounds.contains(position) {
                Some(position.seen_from(Point { x: bounds.x, y: bounds.y }))
            } else {
                None
            },
            None => None,
        }
    }

    /// Where the pointer is in an area, seen from the area's upper left corner; nowhere if it is
    /// outside.
    #[verifier::when_used_as_spec(spec_position_in)]
    pub fn position_in(self, bounds: Rectangle) -> (r: Option<Point>)
        ensures
            r == self.position_in(bounds),
    {
        match self.position() {
            Some(position) => if bounds.contains(position) {
                Some(position.seen_from(Point { x: bounds.x, y: bounds.y }))
            } else {
                None
            },
            None => None,
        }
    }

    pub open spec fn spec_position_from(self, origin: Point) -> Option<Point> {
        match self.position() {
            Some(position) => Some(position.seen_from(origin)),
            None => None,
        }
    }

    /// Where the pointer is, seen from a point.
    #[verifier::when_used_as_spec(spec_position_from)]
    pub fn position_from(self, origin: Point) -> (r: Option<Point>)
        ensures
            r == self.position_from(origin),
    {
        match self.position() {
            Some(position) => Some(position.seen_from(origin)),
            None => None,
        }
    }
}

/// What the canvas is asked to do: to publish a message, to redraw, to keep the event from others.
#[derive(Clone, Copy, Debug, PartialEq, Eq, Structural)]
pub struct CanvasAction {
    pub message: Option<Message>,
    pub redraw: bool,
    pub captured: bool,
}

impl CanvasAction {
    pub open spec fn spec_publish(message: Message) -> CanvasAction {
        CanvasAction { message: Some(message), redraw: false, captured: false }
    }

    #[verifier::when_used_as_spec(spec_publish)]
    pub fn publish(message: Message) -> (r: CanvasAction)
        ensures
            r == CanvasAction::publish(message),
    {
        CanvasAction { message: Some(message), redraw: false, captured: false }
    }

    pub open spec fn spec_request_redraw() -> CanvasAction {
        CanvasAction { message: None, redraw: true, captured: false }
    }

    #[verifier::when_used_as_spec(spec_request_redraw)]
    pub fn request_redraw() -> (r: CanvasAction)
        ensures
            r == CanvasAction::request_redraw(),
    {
        CanvasAction { message: None, redraw: true, captured: false }
    }

    pub open spec fn spec_capture() -> CanvasAction {
        CanvasAction { message: None, redraw: false, captured: true }
    }

    #[verifier::when_used_as_spec(spec_capture)]
    pub fn capture() -> (r: CanvasAction)
        ensures
            r == CanvasAction::capture(),
    {
        CanvasAction { message: None, redraw: false, captured: true }
    }

    pub open spec fn spec_and_capture(self) -> CanvasAction {
        CanvasAction { captured: true, ..self }
    }

    #[verifier::when_used_as_spec(spec_and_capture)]
    pub fn and_capture(self) -> (r: CanvasAction)
        ensures
            r == self.and_capture(),
    {
        CanvasAction { message: self.message, redraw: self.redraw, captured: true }
    }
}

} // verus!
