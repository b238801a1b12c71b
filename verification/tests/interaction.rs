//! What the canvas answers, and what charts do with messages.
use chart_view::chart::{limits_of, Chart, ChartConstants, ChartLimits};
use chart_view::float::single::Single;
use chart_view::geometry::{Point, Rectangle, Vector};
use chart_view::interaction::{canvas_interaction, is_answerable, pointer_area};
use chart_view::message::{
    AxisScaleClicked, Button, CanvasAction, Cursor, Event, Interaction, Message, MouseEvent,
    ScrollDelta,
};
use chart_view::state::{Basis, CommonChartData, PriceInfoLabel};
use chart_view::update::update;
use chart_view::view::{message_of, panels_of, split_message, view, ChartView, Control, Panel};

fn s(x: f32) -> Single {
    Single { bits: x.to_bits() }
}

fn f(x: Single) -> f32 {
    f32::from_bits(x.bits)
}

fn same(r: Single, x: f32) -> bool {
    (x.is_nan() && f(r).is_nan()) || r.bits == x.to_bits()
}

struct Candles {
    data: CommonChartData,
    limits: ChartLimits,
    keys: Option<Vec<u64>>,
    empty: bool,
    invalidated: usize,
}

impl ChartConstants for Candles {
    fn limits(&self) -> ChartLimits {
        self.limits
    }
    fn min_scaling(&self) -> Single {
        self.limits.min_scaling
    }
    fn max_scaling(&self) -> Single {
        self.limits.max_scaling
    }
    fn max_cell_width(&self) -> Single {
        self.limits.max_cell_width
    }
    fn min_cell_width(&self) -> Single {
        self.limits.min_cell_width
    }
    fn max_cell_height(&self) -> Single {
        self.limits.max_cell_height
    }
    fn min_cell_height(&self) -> Single {
        self.limits.min_cell_height
    }
    fn default_cell_width(&self) -> Single {
        self.limits.default_cell_width
    }
}

impl Chart for Candles {
    fn data(&self) -> CommonChartData {
        unreachable!()
    }
    fn with_data(self, data: CommonChartData) -> Self {
        Candles { data, ..self }
    }
    fn invalidated(before: Self, after: Self) -> bool {
        after.invalidated == before.invalidated + 1
    }
    fn keys(&self) -> Option<Vec<u64>> {
        self.keys.clone()
    }
    fn has_no_data(&self) -> bool {
        self.empty
    }
    fn common_data(&self) -> &CommonChartData {
        &self.data
    }
    fn common_data_mut(&mut self) -> &mut CommonChartData {
        &mut self.data
    }
    fn invalidate(&mut self) {
        self.invalidated += 1;
        self.data.cache.clear_all();
    }
    fn visible_timerange(&self) -> (u64, u64) {
        (0, 0)
    }
    fn interval_keys(&self) -> Option<Vec<u64>> {
        self.keys.clone()
    }
    fn autoscaled_coords(&self) -> Vector {
        Vector::zero()
    }
    fn is_empty(&self) -> bool {
        self.empty
    }
}

fn bounds() -> Rectangle {
    Rectangle { x: s(0.0), y: s(0.0), width: s(800.0), height: s(400.0) }
}

fn candles() -> Candles {
    let mut data = CommonChartData::default();
    data.bounds = bounds();
    data.translation = Vector { x: s(5.0), y: s(-7.0) };
    data.scaling = s(2.0);
    Candles {
        data,
        limits: ChartLimits {
            min_scaling: s(0.5),
            max_scaling: s(4.0),
            max_cell_width: s(16.0),
            min_cell_width: s(1.0),
            max_cell_height: s(8.0),
            min_cell_height: s(1.0),
            default_cell_width: s(4.0),
        },
        keys: None,
        empty: false,
        invalidated: 0,
    }
}

/// How wide the splits between charts are.
const DRAG_SIZE: Single = Single { bits: 0x3f80_0000 };

fn point(x: f32, y: f32) -> Point {
    Point { x: s(x), y: s(y) }
}

/// A pointer at this place in the area where it counts.
fn at(x: f32, y: f32) -> Cursor {
    Cursor::Available(point(x + 4.0, y + 4.0))
}

/// A pointer at this place from the middle of the chart.
fn around(x: f32, y: f32) -> Cursor {
    Cursor::Available(point(x + 400.0, y + 200.0))
}

fn wheel(y: f32) -> Event {
    Event::Mouse(MouseEvent::WheelScrolled { delta: ScrollDelta::Lines { y: s(y) } })
}

const MOVED: Event = Event::Mouse(MouseEvent::CursorMoved);

#[test]
fn limits_are_read_from_the_chart() {
    let chart = candles();
    assert_eq!(limits_of(&chart), chart.limits);
}

#[test]
fn changed_bounds_come_first() {
    let chart = candles();
    let mut interaction = Interaction::Panning { translation: Vector::zero(), start: point(0.0, 0.0) };
    let other = Rectangle { width: s(900.0), ..bounds() };
    let release = Event::Mouse(MouseEvent::ButtonReleased(Button::Left));
    let action = canvas_interaction(&chart, &mut interaction, &release, other, Cursor::Unavailable, DRAG_SIZE);
    assert_eq!(action, Some(CanvasAction::publish(Message::BoundsChanged(other))));
    assert_eq!(interaction, Interaction::Idle);
    // a press is lost while the bounds change
    let press = Event::Mouse(MouseEvent::ButtonPressed(Button::Left));
    let action =
        canvas_interaction(&chart, &mut interaction, &press, other, at(1.0, 1.0), DRAG_SIZE);
    assert_eq!(action, Some(CanvasAction::publish(Message::BoundsChanged(other))));
    assert_eq!(interaction, Interaction::Idle);
}

#[test]
fn bounds_are_announced_once() {
    let mut chart = candles();
    let other = Rectangle { width: s(900.0), ..bounds() };
    let mut interaction = Interaction::default();
    let action = canvas_interaction(&chart, &mut interaction, &MOVED, other, Cursor::Unavailable, DRAG_SIZE).unwrap();
    update(&mut chart, action.message.unwrap());
    assert_eq!(canvas_interaction(&chart, &mut interaction, &MOVED, other, Cursor::Unavailable, DRAG_SIZE), None);
    // what is not a number equals nothing, so it is announced again and again
    let strange = Rectangle { width: s(f32::NAN), ..bounds() };
    update(&mut chart, Message::BoundsChanged(strange));
    assert_eq!(
        canvas_interaction(&chart, &mut interaction, &MOVED, strange, Cursor::Unavailable, DRAG_SIZE),
        Some(CanvasAction::publish(Message::BoundsChanged(strange)))
    );
}

#[test]
fn outside_the_chart_nothing_happens() {
    let chart = candles();
    let mut interaction = Interaction::Idle;
    for event in [
        MOVED,
        wheel(1.0),
        Event::Mouse(MouseEvent::ButtonPressed(Button::Left)),
        Event::Mouse(MouseEvent::Other),
        Event::Other,
    ] {
        for cursor in [
            Cursor::Unavailable,
            Cursor::Levitating(point(100.0, 100.0)),
            Cursor::Available(point(3.9, 100.0)),
            Cursor::Available(point(100.0, 3.9)),
            Cursor::Available(point(796.0, 100.0)),
            Cursor::Available(point(100.0, 396.0)),
            Cursor::Available(point(f32::NAN, 100.0)),
        ] {
            let action =
                canvas_interaction(&chart, &mut interaction, &event, bounds(), cursor, DRAG_SIZE);
            assert_eq!(action, None);
            assert_eq!(interaction, Interaction::Idle);
        }
    }
    let action =
        canvas_interaction(&chart, &mut interaction, &Event::Other, bounds(), at(1.0, 1.0), DRAG_SIZE);
    assert_eq!(action, None);
}

#[test]
fn drag_moves_the_chart() {
    let mut chart = candles();
    let mut interaction = Interaction::Idle;
    let press = Event::Mouse(MouseEvent::ButtonPressed(Button::Left));
    let action =
        canvas_interaction(&chart, &mut interaction, &press, bounds(), at(100.0, 50.0), DRAG_SIZE);
    assert_eq!(
        action,
        Some(CanvasAction { message: None, redraw: true, captured: true })
    );
    assert_eq!(
        interaction,
        Interaction::Panning { translation: chart.data.translation, start: point(100.0, 50.0) }
    );
    for (x, y) in [(90.0, 60.0), (120.0, 40.0)] {
        let action = canvas_interaction(&chart, &mut interaction, &MOVED, bounds(), at(x, y), DRAG_SIZE);
        let place = Vector { x: s(5.0 + (x - 100.0) / 2.0), y: s(-7.0 + (y - 50.0) / 2.0) };
        assert_eq!(
            action,
            Some(CanvasAction::publish(Message::Translated(place)).and_capture())
        );
        update(&mut chart, action.unwrap().message.unwrap());
        assert_eq!(chart.data.translation, place);
        assert!(!chart.data.autoscale);
    }
    // back to where it started
    let action = canvas_interaction(&chart, &mut interaction, &MOVED, bounds(), at(100.0, 50.0), DRAG_SIZE);
    assert_eq!(
        action.unwrap().message,
        Some(Message::Translated(Vector { x: s(5.0), y: s(-7.0) }))
    );
    let release = Event::Mouse(MouseEvent::ButtonReleased(Button::Left));
    assert_eq!(
        canvas_interaction(&chart, &mut interaction, &release, bounds(), at(1.0, 1.0), DRAG_SIZE),
        None
    );
    assert_eq!(interaction, Interaction::Idle);
}

#[test]
fn other_buttons_only_redraw() {
    let chart = candles();
    let mut interaction = Interaction::Idle;
    let press = Event::Mouse(MouseEvent::ButtonPressed(Button::Other));
    let action = canvas_interaction(&chart, &mut interaction, &press, bounds(), at(1.0, 1.0), DRAG_SIZE);
    assert_eq!(action, Some(CanvasAction::request_redraw().and_capture()));
    assert_eq!(interaction, Interaction::Idle);
}

#[test]
fn moving_moves_the_crosshair() {
    let mut chart = candles();
    let mut interaction = Interaction::Idle;
    let action = canvas_interaction(&chart, &mut interaction, &MOVED, bounds(), at(1.0, 1.0), DRAG_SIZE);
    assert_eq!(action, Some(CanvasAction::publish(Message::CrosshairMoved)));
    update(&mut chart, Message::CrosshairToggle);
    let action = canvas_interaction(&chart, &mut interaction, &MOVED, bounds(), at(1.0, 1.0), DRAG_SIZE);
    assert_eq!(action, Some(CanvasAction::request_redraw()));
    let mut zoomin = Interaction::Zoomin { last_position: point(0.0, 0.0) };
    let action = canvas_interaction(&chart, &mut zoomin, &MOVED, bounds(), at(1.0, 1.0), DRAG_SIZE);
    assert_eq!(action, Some(CanvasAction::request_redraw().and_capture()));
}

#[test]
fn wheel_scales_around_the_pointer() {
    let chart = candles();
    let mut interaction = Interaction::Idle;
    for (y, cx, cy) in [(3.0f32, 40.0f32, -20.0f32), (-2.0, 17.0, 3.0), (0.25, -100.0, 60.0)] {
        let action =
            canvas_interaction(&chart, &mut interaction, &wheel(y), bounds(), around(cx, cy), DRAG_SIZE)
                .unwrap();
        assert!(action.captured && !action.redraw);
        let scaling = (2.0f32 * (1.0 + y / 30.0)).clamp(0.5, 4.0);
        let factor = scaling - 2.0;
        let (tx, ty) = (5.0 - cx * factor / (2.0 * scaling), -7.0 - cy * factor / (2.0 * scaling));
        match action.message {
            Some(Message::Scaled(r, t)) => {
                assert!(same(r, scaling) && same(t.x, tx) && same(t.y, ty));
            }
            _ => panic!("not scaled"),
        }
        let pixels = Event::Mouse(MouseEvent::WheelScrolled { delta: ScrollDelta::Pixels { y: s(y) } });
        assert_eq!(
            canvas_interaction(&chart, &mut interaction, &pixels, bounds(), around(cx, cy), DRAG_SIZE),
            Some(action)
        );
    }
}

#[test]
fn wheel_does_not_divide_by_tiny_scalings() {
    let mut chart = candles();
    chart.limits.min_scaling = s(0.001);
    chart.data.scaling = s(0.005);
    let action = canvas_interaction(
        &chart,
        &mut Interaction::Idle,
        &wheel(-1.0),
        bounds(),
        around(30.0, 40.0),
        DRAG_SIZE,
    )
    .unwrap();
    match action.message {
        Some(Message::Scaled(scaling, place)) => {
            assert!(same(scaling, 0.005 * (1.0 + -1.0 / 30.0)));
            assert_eq!(place, chart.data.translation);
        }
        _ => panic!("not scaled"),
    }
}

#[test]
fn wheel_at_the_ends_changes_the_cells() {
    let widens = |scaling: f32, width: f32, y: f32| {
        let mut chart = candles();
        chart.data.scaling = s(scaling);
        chart.data.cell_width = s(width);
        let action = canvas_interaction(
            &chart,
            &mut Interaction::Idle,
            &wheel(y),
            bounds(),
            around(30.0, 40.0),
        DRAG_SIZE,
        )
        .unwrap();
        assert!(action.captured);
        match action.message {
            Some(Message::XScaling(delta, x, true)) => {
                assert!(same(delta, y / 2.0) && same(x, 30.0));
                true
            }
            _ => false,
        }
    };
    // zooming out at max scaling with increased cell width
    assert!(widens(4.0, 5.0, -1.0));
    assert!(!widens(4.0, 4.0, -1.0));
    // zooming in at min scaling with decreased cell width
    assert!(widens(0.5, 3.0, 1.0));
    assert!(!widens(0.5, 4.0, 1.0));
    // zooming in at max scaling with room to increase cell width
    assert!(widens(4.0, 4.0, 1.0));
    assert!(!widens(4.0, 16.0, 1.0));
    // zooming out at min scaling with room to decrease cell width
    assert!(widens(0.5, 4.0, -1.0));
    assert!(!widens(0.5, 1.0, -1.0));
    // between the ends the scaling changes
    assert!(!widens(2.0, 5.0, -1.0));
    assert!(!widens(2.0, 5.0, 1.0));
    // a wheel that is not turned counts by its sign
    assert!(widens(4.0, 4.0, 0.0));
    assert!(widens(0.5, 4.0, -0.0));
    assert!(!widens(4.0, 4.0, f32::NAN));
}

#[test]
fn zooming_ends() {
    let mut chart = candles();
    chart.data.scaling = s(4.0);
    chart.data.cell_width = s(16.0);
    let action = canvas_interaction(
        &chart,
        &mut Interaction::Idle,
        &wheel(2.0),
        bounds(),
        around(0.0, 0.0),
        DRAG_SIZE,
    );
    assert_eq!(action, Some(CanvasAction::capture()));
    chart.data.scaling = s(0.5);
    chart.data.cell_width = s(1.0);
    let action = canvas_interaction(
        &chart,
        &mut Interaction::Idle,
        &wheel(-2.0),
        bounds(),
        around(0.0, 0.0),
        DRAG_SIZE,
    );
    assert_eq!(action, Some(CanvasAction::capture()));
}

#[test]
fn wheel_is_held_while_dragging() {
    let chart = candles();
    let mut drag =
        Interaction::Panning { translation: Vector::zero(), start: point(0.0, 0.0) };
    let before = drag;
    let action =
        canvas_interaction(&chart, &mut drag, &wheel(1.0), bounds(), at(1.0, 1.0), DRAG_SIZE);
    assert_eq!(action, Some(CanvasAction::capture()));
    assert_eq!(drag, before);
}

#[test]
fn scaling_needs_ordered_limits() {
    let mut chart = candles();
    let ask = |chart: &Candles, event: Event| {
        is_answerable(chart, &Interaction::Idle, &event, bounds(), at(1.0, 1.0), DRAG_SIZE)
    };
    assert!(ask(&chart, wheel(1.0)));
    chart.limits.min_scaling = s(8.0);
    assert!(!ask(&chart, wheel(1.0)));
    assert!(ask(&chart, wheel(-1.0)));
    assert!(ask(&chart, MOVED));
    let drag = Interaction::Panning { translation: Vector::zero(), start: point(0.0, 0.0) };
    assert!(is_answerable(&chart, &drag, &wheel(1.0), bounds(), at(1.0, 1.0), DRAG_SIZE));
}

#[test]
fn every_update_invalidates() {
    let mut chart = candles();
    chart.data.cache.main = true;
    update(&mut chart, Message::CrosshairMoved);
    update(&mut chart, Message::DoubleClick(AxisScaleClicked::Y));
    assert_eq!(chart.invalidated, 2);
    assert!(!chart.data.cache.main);
}

#[test]
fn toggles_toggle_back() {
    let mut chart = candles();
    update(&mut chart, Message::CrosshairToggle);
    assert!(!chart.data.crosshair);
    update(&mut chart, Message::CrosshairToggle);
    assert!(chart.data.crosshair);
    update(&mut chart, Message::AutoscaleToggle);
    assert!(!chart.data.autoscale);
    assert_eq!(chart.data.scaling, s(2.0));
    update(&mut chart, Message::AutoscaleToggle);
    assert!(chart.data.autoscale);
    assert_eq!(chart.data.scaling, s(1.0));
}

#[test]
fn double_click_resets_an_axis() {
    let mut chart = candles();
    chart.data.cell_width = s(9.0);
    chart.data.autoscale = false;
    update(&mut chart, Message::DoubleClick(AxisScaleClicked::X));
    assert_eq!(chart.data.cell_width, s(4.0));
    assert!(!chart.data.autoscale);
    update(&mut chart, Message::DoubleClick(AxisScaleClicked::Y));
    assert!(chart.data.autoscale);
    assert_eq!(chart.data.scaling, s(2.0));
}

#[test]
fn cells_stay_within_limits_and_zoom_one_way() {
    let mut chart = candles();
    for delta in [5.0f32, 29.0, f32::INFINITY, -3.0, -60.0, f32::NEG_INFINITY, f32::NAN, 0.0] {
        for wheel in [true, false] {
            let before = f(chart.data.cell_width);
            update(&mut chart, Message::XScaling(s(delta), s(10.0), wheel));
            let after = f(chart.data.cell_width);
            assert!((1.0..=16.0).contains(&after));
            assert!(!(delta > 0.0) || after >= before);
            assert!(!(delta < 0.0) || after <= before);
            let before = f(chart.data.cell_height);
            update(&mut chart, Message::YScaling(s(delta), s(10.0), wheel));
            let after = f(chart.data.cell_height);
            assert!((1.0..=8.0).contains(&after));
            assert!(!(delta > 0.0) || after >= before);
            assert!(!(delta < 0.0) || after <= before);
            chart.data.translation = Vector::zero();
            chart.data.tick_size = s(0.5);
        }
    }
}

#[test]
fn zooming_keeps_what_is_under_the_pointer() {
    let mut chart = candles();
    chart.data.tick_size = s(0.5);
    chart.data.base_price_y = s(100.0);
    chart.data.cell_height = s(2.0);
    chart.data.scaling = s(1.0);
    chart.data.translation = Vector { x: s(0.0), y: s(0.0) };
    // 16 below the middle lies the price 96, and stays there when the cells grow by a half
    assert_eq!(chart.data.y_to_price(s(16.0)), s(96.0));
    update(&mut chart, Message::YScaling(s(15.0), s(16.0), true));
    assert_eq!(chart.data.cell_height, s(3.0));
    assert_eq!(chart.data.translation.y, s(-8.0));
    assert_eq!(f(chart.data.price_to_y(s(96.0))) + f(chart.data.translation.y), 16.0);

    chart.data.basis = Basis::Tick(100);
    update(&mut chart, Message::XScaling(s(15.0), s(-40.0), true));
    assert_eq!(chart.data.cell_width, s(6.0));
    // ten trades back lay 40 to the left, and still do
    assert_eq!(f(chart.data.interval_to_x(10)) + f(chart.data.translation.x), -40.0);
}

#[test]
fn dragging_the_time_axis_keeps_the_latest_in_place() {
    let mut chart = candles();
    chart.data.latest_x = 1_700_000_000_000;
    chart.data.translation = Vector { x: s(-100.0), y: s(0.0) };
    update(&mut chart, Message::XScaling(s(45.0), s(77.0), false));
    assert_eq!(chart.data.cell_width, s(6.0));
    assert_eq!(chart.data.translation.x, s(-100.0));
    assert!(chart.data.autoscale);
    // out of sight, the pointer is followed instead
    chart.data.translation = Vector { x: s(1000.0), y: s(0.0) };
    update(&mut chart, Message::XScaling(s(-45.0), s(80.0), false));
    assert_eq!(chart.data.cell_width, s(3.0));
    assert!(!chart.data.autoscale);
    assert_ne!(chart.data.translation.x, s(1000.0));
}

#[test]
fn new_bounds_keep_the_right_edge() {
    let mut chart = candles();
    chart.data.autoscale = false;
    let right = |chart: &Candles| {
        let region = chart.data.visible_region(chart.data.bounds.size());
        f(region.x) + f(region.width)
    };
    let before = right(&chart);
    update(&mut chart, Message::BoundsChanged(Rectangle { width: s(1000.0), ..bounds() }));
    assert_eq!(chart.data.translation.x, s(55.0));
    assert_eq!(right(&chart), before);
    // the same width again changes nothing
    update(&mut chart, Message::BoundsChanged(Rectangle { width: s(1000.0), ..bounds() }));
    assert_eq!(chart.data.translation.x, s(55.0));
    // a chart that follows its data is not moved
    chart.data.autoscale = true;
    update(&mut chart, Message::BoundsChanged(bounds()));
    assert_eq!(chart.data.translation.x, s(55.0));
}

#[test]
fn origin_is_base_price_at_latest_time() {
    let mut data = CommonChartData::default();
    data.tick_size = s(0.1);
    data.base_price_y = s(123.45);
    data.latest_x = 1_700_000_123_456;
    assert_eq!(f(data.price_to_y(data.base_price_y)), 0.0);
    assert_eq!(data.y_to_price(s(0.0)), data.base_price_y);
    assert_eq!(f(data.interval_to_x(data.latest_x)), 0.0);
    assert_eq!(data.x_to_interval(s(0.0)), data.latest_x);
}

#[test]
fn coordinates_keep_order() {
    let mut data = CommonChartData::default();
    data.tick_size = s(0.1);
    data.base_price_y = s(123.45);
    data.latest_x = 1_700_000_123_456;
    assert!(f(data.price_to_y(s(130.0))) < f(data.price_to_y(s(120.0))));
    assert!(f(data.y_to_price(s(10.0))) < f(data.y_to_price(s(-10.0))));
    assert!(f(data.interval_to_x(1_700_000_000_000)) < f(data.interval_to_x(1_700_000_100_000)));
    assert!(data.x_to_interval(s(-8.0)) < data.x_to_interval(s(8.0)));
    let region = Rectangle { x: s(-50.0), y: s(-5.0), width: s(60.0), height: s(10.0) };
    let (first, last) = data.interval_range(&region);
    assert!(first <= last);
    let (high, low) = data.price_range(&region);
    assert!(f(low) <= f(high));
    data.basis = Basis::Tick(50);
    assert!(f(data.interval_to_x(7)) < f(data.interval_to_x(6)));
    let (first, last) = data.interval_range(&region);
    assert_eq!((first, last), (0, 13));
}

#[test]
fn trades_are_found_where_they_lie() {
    let mut data = CommonChartData::default();
    data.basis = Basis::Tick(100);
    for width in [0.1f32, 0.7, 1.0, 3.3, 4.0, 1e-40, 12345.678] {
        data.cell_width = s(width);
        for n in [0u64, 1, 2, 3, 1000, 65_537, 999_999, 4_194_303] {
            assert_eq!(data.x_to_interval(data.interval_to_x(n)), n);
        }
    }
}

#[test]
fn times_are_found_only_nearly() {
    let mut data = CommonChartData::default();
    data.latest_x = 1_000_000;
    let missed = (0..1000u64).any(|t| data.x_to_interval(data.interval_to_x(t)) != t);
    assert!(missed);
    assert!((0..1000u64).all(|t| data.x_to_interval(data.interval_to_x(t)).abs_diff(t) <= 1));
}

#[test]
fn empty_charts_wait() {
    let mut chart = candles();
    chart.empty = true;
    chart.data.decimals = usize::MAX;
    assert!(matches!(view(&chart, 1), ChartView::Waiting));
}

#[test]
fn shown_charts_have_labels_and_splits() {
    let mut chart = candles();
    chart.keys = Some(vec![3, 5]);
    chart.data.latest_x = 77;
    chart.data.base_price_y = s(50.0);
    chart.data.last_price = Some(PriceInfoLabel { price: s(51.0), kind: 2 });
    chart.data.ticker_info = Some(9);
    chart.data.tick_size = s(0.25);
    chart.data.decimals = 3;
    chart.data.autoscale = false;
    chart.data.splits = vec![s(0.75)];
    match view(&chart, 2) {
        ChartView::Shown(panels) => {
            let x = panels.axis_labels_x;
            assert_eq!(x.scaling, s(2.0));
            assert_eq!(x.translation_x, s(5.0));
            assert_eq!(x.max, 77);
            assert!(x.crosshair);
            assert_eq!(x.basis, Basis::Time(300_000));
            assert_eq!(x.cell_width, s(4.0));
            assert_eq!(x.chart_bounds, bounds());
            assert_eq!(x.interval_keys, Some(vec![3, 5]));
            let y = panels.axis_labels_y;
            assert_eq!(y.translation_y, s(-7.0));
            assert_eq!(y.scaling, s(2.0));
            assert_eq!(y.decimals, 3);
            assert_eq!(y.min, s(50.0));
            assert_eq!(y.last_price, Some(PriceInfoLabel { price: s(51.0), kind: 2 }));
            assert_eq!(y.tick_size, s(0.25));
            assert_eq!(y.cell_height, s(3.0));
            assert_eq!(y.chart_bounds, bounds());
            assert_eq!(panels.y_labels_width, s(72.0));
            assert!(!panels.centered);
            assert!(panels.crosshair);
            assert_eq!(panels.splits, Some(vec![s(0.75)]));
            assert_eq!(
                panels.panels,
                vec![Panel::Chart, Panel::Indicator(0), Panel::Indicator(1)]
            );
        }
        ChartView::Waiting => panic!("waiting"),
    }
    match view(&chart, 0) {
        ChartView::Shown(panels) => {
            assert_eq!(panels.splits, None);
            assert_eq!(panels.panels, vec![Panel::Chart]);
        }
        ChartView::Waiting => panic!("waiting"),
    }
}

#[test]
fn pointer_counts_in_the_inner_area() {
    let area = pointer_area(bounds(), DRAG_SIZE);
    assert_eq!(area, Rectangle { x: s(4.0), y: s(4.0), width: s(792.0), height: s(392.0) });
    assert_eq!(bounds().center(), point(400.0, 200.0));
    assert!(area.contains(point(4.0, 4.0)));
    assert!(!area.contains(point(796.0, 4.0)));
    assert!(!area.contains(point(4.0, 396.0)));
    let cursor = Cursor::Available(point(10.0, 20.0));
    assert_eq!(cursor.position(), Some(point(10.0, 20.0)));
    assert_eq!(cursor.position_in(area), Some(point(6.0, 16.0)));
    assert_eq!(cursor.position_from(bounds().center()), Some(point(-390.0, -180.0)));
    assert_eq!(Cursor::Levitating(point(10.0, 20.0)).position(), None);
}

#[test]
fn pointers_agree_with_iced() {
    let mut seed: u32 = 7;
    let mut next = || {
        seed = seed.wrapping_mul(1_664_525).wrapping_add(1_013_904_223);
        (seed >> 8) as f32 / 65536.0 - 100.0
    };
    for _ in 0..2000 {
        let (x, y, w, h, px, py, d) = (next(), next(), next(), next(), next(), next(), next() / 50.0);
        let bounds = Rectangle { x: s(x), y: s(y), width: s(w), height: s(h) };
        let theirs = iced::Rectangle { x, y, width: w, height: h };
        let area = pointer_area(bounds, s(d));
        let shrunk = theirs.shrink(d * 4.0);
        assert!(same(area.x, shrunk.x) && same(area.width, shrunk.width));
        assert!(same(area.y, shrunk.y) && same(area.height, shrunk.height));
        let cursor = Cursor::Available(point(px, py));
        let pointer = iced::mouse::Cursor::Available(iced::Point::new(px, py));
        match (cursor.position_in(area), pointer.position_in(shrunk)) {
            (Some(p), Some(q)) => assert!(same(p.x, q.x) && same(p.y, q.y)),
            (p, q) => assert!(p.is_none() && q.is_none()),
        }
        let p = cursor.position_from(bounds.center()).unwrap();
        let q = pointer.position_from(theirs.center()).unwrap();
        assert!(same(p.x, q.x) && same(p.y, q.y));
    }
}

#[test]
fn controls_send_their_messages() {
    assert_eq!(message_of(Control::Center), Message::AutoscaleToggle);
    assert_eq!(message_of(Control::Crosshair), Message::CrosshairToggle);
    assert_eq!(message_of(Control::LabelsX), Message::DoubleClick(AxisScaleClicked::X));
    assert_eq!(message_of(Control::LabelsY), Message::DoubleClick(AxisScaleClicked::Y));
    assert_eq!(split_message(3, s(0.25)), Message::SplitDragged(3, s(0.25)));
    assert_eq!(panels_of(1), vec![Panel::Chart, Panel::Indicator(0)]);
}
