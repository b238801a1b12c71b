//! What holds up to rounding, on values.
use chart_view::chart::ChartLimits;
use chart_view::float::single::Single;
use chart_view::geometry::{Point, Rectangle, Vector};
use chart_view::interaction::scroll;
use chart_view::label::label_length;
use chart_view::message::{Cursor, Message};
use chart_view::series::{ChartData, Kline};
use chart_view::state::{Basis, CommonChartData};
use chart_view::volume::draw_horizontal_volume_bars;

fn s(x: f32) -> Single {
    Single { bits: x.to_bits() }
}

fn f(x: Single) -> f64 {
    f64::from(f32::from_bits(x.bits))
}

/// One part in two to the power of 24.
const PART: f64 = 1.0 / 16_777_216.0;

fn limits() -> ChartLimits {
    ChartLimits {
        min_scaling: s(0.1),
        max_scaling: s(10.0),
        max_cell_width: s(50.0),
        min_cell_width: s(0.2),
        max_cell_height: s(80.0),
        min_cell_height: s(0.3),
        default_cell_width: s(4.0),
    }
}

fn chart() -> CommonChartData {
    let mut data = CommonChartData::default();
    data.bounds = Rectangle { x: s(0.0), y: s(0.0), width: s(800.0), height: s(400.0) };
    data.translation = Vector { x: s(12.3), y: s(-45.6) };
    data.base_price_y = s(66.973_04);
    data.tick_size = s(0.1);
    data.autoscale = false;
    data
}

#[test]
fn wheel_keeps_the_point_under_the_pointer() {
    let mut data = chart();
    let cursor = Point { x: s(123.4), y: s(-77.7) };
    for y in [1.0, 3.7, -2.2, 0.3, -5.5, 12.0, -0.01] {
        let (a, t) = (f(data.scaling), data.translation);
        match scroll(&limits(), &data, s(y), cursor).message {
            Some(Message::Scaled(scaling, moved)) => {
                let b = f(scaling);
                for (c, t, m) in [(f(cursor.x), f(t.x), f(moved.x)), (f(cursor.y), f(t.y), f(moved.y))]
                {
                    let shift = c * (b - a) / (a * b);
                    let slip = (c / b - m) - (c / a - t);
                    assert!(slip.abs() <= PART * (5.1 * shift.abs() + 1.1 * m.abs()));
                }
                data.apply(&limits(), Message::Scaled(scaling, moved));
            }
            _ => panic!("not scaled"),
        }
    }
}

#[test]
fn wheel_keeps_the_point_under_the_pointer_of_a_mirrored_chart() {
    let mut data = chart();
    data.scaling = s(-2.5);
    let (a, c) = (-2.5, Point { x: s(123.4), y: s(-77.7) });
    match scroll(&limits(), &data, s(4.0), c).message {
        Some(Message::Scaled(scaling, moved)) => {
            let b = f(scaling);
            assert_eq!(scaling, s(0.1));
            for (c, t, m) in [
                (f(c.x), f(data.translation.x), f(moved.x)),
                (f(c.y), f(data.translation.y), f(moved.y)),
            ] {
                let shift = c * (b - a) / (a * b);
                let slip = (c / b - m) - (c / a - t);
                assert!(slip.abs() <= PART * (5.1 * shift.abs() + 1.1 * m.abs()));
            }
        }
        _ => panic!("not scaled"),
    }
}

#[test]
fn zooming_an_axis_keeps_what_is_under_the_pointer() {
    let mut data = chart();
    for delta in [3.0, -7.0, 11.0, -2.5] {
        let cursor = -77.7f32;
        let place = f(s(cursor)) / f(data.scaling) - f(data.translation.y);
        let price = data.y_to_price(s(place as f32));
        data.apply(&limits(), Message::YScaling(s(delta), s(cursor), true));
        let shown = f(data.price_to_y(price)) + f(data.translation.y);
        assert!((shown - f(s(cursor))).abs() < 1e-4);
    }
}

#[test]
fn right_edge_stays() {
    let mut data = chart();
    data.scaling = s(1.3);
    let edge = |data: &CommonChartData| {
        f(data.bounds.width) / 2.0 / f(data.scaling) - f(data.translation.x)
    };
    let before = edge(&data);
    let mut changed = false;
    for width in [801.0, 333.3, 1920.0, 17.0] {
        let bounds = Rectangle { width: s(width), ..data.bounds };
        data.apply(&limits(), Message::BoundsChanged(bounds));
        changed = changed || edge(&data) != before;
        assert!((edge(&data) - before).abs() < 1e-3);
    }
    assert!(changed);
}

#[test]
fn prices_are_found_where_they_lie() {
    let data = chart();
    let base = f(data.base_price_y);
    for price in [30.813_646f32, 66.973_04, 0.0, 12.5, 99.99, 1234.5] {
        let y = data.price_to_y(s(price));
        let back = data.y_to_price(y);
        let way = base - f(s(price));
        assert!((f(back) - f(s(price))).abs() <= PART * (6.1 * way.abs() + 1.1 * f(back).abs()));
    }
    // not always the very same
    assert_ne!(data.y_to_price(data.price_to_y(s(30.813_646))), s(30.813_646));
}

#[test]
fn times_are_found_where_they_lie() {
    let mut data = chart();
    data.latest_x = 1_700_000_000_000;
    for interval in [60_000u64, 300_000, 86_400_000] {
        data.basis = Basis::Time(interval);
        for way in [0u64, 1, 59_999, 60_000, 1_000_003, 86_400_000 * 365] {
            for time in [data.latest_x - way, data.latest_x + way] {
                let back = data.x_to_interval(data.interval_to_x(time));
                assert!(back.abs_diff(time) as f64 <= 1.0 + 5.0 * PART * way as f64);
            }
        }
    }
    // not always the very same
    data.basis = Basis::Time(300_000);
    data.latest_x = 1_000_000;
    assert_eq!(data.x_to_interval(data.interval_to_x(6)), 7);
}

#[test]
fn distant_trades_can_be_missed() {
    let mut data = chart();
    data.basis = Basis::Tick(1);
    data.cell_width = s(1.999_454_6);
    assert_eq!(data.x_to_interval(data.interval_to_x(4_194_303)), 4_194_303);
    assert_eq!(data.x_to_interval(data.interval_to_x(4_197_971)), 4_197_972);
}

#[test]
fn closes_come_in_sight() {
    let mut data = chart();
    data.base_price_y = s(100.0);
    data.tick_size = s(1.0);
    data.scaling = s(2.0);
    let half = 100.0;
    for close in [200.0f32, 0.0, 100.0] {
        let kline = Kline { high: s(101.0), low: s(99.0), close: s(close) };
        let target = f(ChartData::TimeBased(Some(kline)).latest_y_midpoint(&data));
        let y = f(data.price_to_y(s(close)));
        if close > 150.0 {
            assert_eq!(-target - half, y - 3.0);
        } else if close < 50.0 {
            assert_eq!(-target + half, y + 3.0);
        } else {
            assert_eq!(target, 0.0);
        }
        assert!(-target - half <= y && y <= -target + half);
    }
}

#[test]
fn bars_share_the_width() {
    for (buy, sell) in [(3.0, 7.0), (0.1, 0.7), (1e-3, 1e5), (12.34, 56.78)] {
        let bars = draw_horizontal_volume_bars(
            s(0.0),
            s(0.0),
            s(buy),
            s(sell),
            s(123.4),
            s(2.0),
            s(77.7),
        );
        let total = (f(s(buy)) + f(s(sell))) / f(s(123.4)) * f(s(77.7));
        let drawn = f(bars.buy.unwrap().width) + f(bars.sell.unwrap().width);
        assert!((drawn - total).abs() <= 8.0 * PART * total);
    }
}

#[test]
fn dragged_splits_leave_the_others() {
    let mut data = chart();
    data.splits = vec![s(0.25), s(0.5), s(0.75)];
    data.apply(&limits(), Message::SplitDragged(1, s(0.618)));
    assert_eq!(data.splits, vec![s(0.25), s(0.62), s(0.75)]);
    data.apply(&limits(), Message::SplitDragged(3, s(0.1)));
    assert_eq!(data.splits, vec![s(0.25), s(0.62), s(0.75)]);
}

#[test]
fn unavailable_pointers_have_no_place() {
    let area = Rectangle { x: s(0.0), y: s(0.0), width: s(10.0), height: s(10.0) };
    assert_eq!(Cursor::Unavailable.position_in(area), None);
    assert_eq!(Cursor::Unavailable.position_from(area.center()), None);
}

#[test]
fn crosshair_takes_the_nearest_cell() {
    let mut data = chart();
    data.tick_size = s(1.0);
    let size = data.bounds.size();
    data.basis = Basis::Tick(7);
    data.translation = Vector { x: s(400.0), y: s(0.0) };
    for x in [10.0f32, 11.9, 12.1, 399.0, 401.0, 799.0] {
        let cursor = Point { x: s(x), y: s(100.0) };
        let shown = data.draw_crosshair(size, cursor, s(66.0));
        let cells = (800.0 - f64::from(x)) / 4.0;
        assert!((f(shown.vertical.start.x) - f64::from(x)).abs() <= 2.001);
        assert_eq!(shown.interval % 7, 0);
        assert!(((shown.interval / 7) as f64 - cells).abs() <= 0.501);
    }
    data.basis = Basis::Time(60_000);
    data.latest_x = 60_000_000;
    for x in [10.0f32, 11.9, 12.1, 399.0, 401.0, 799.0] {
        let cursor = Point { x: s(x), y: s(100.0) };
        let shown = data.draw_crosshair(size, cursor, s(66.0));
        assert!((f(shown.vertical.start.x) - f64::from(x)).abs() <= 2.001);
        assert_eq!(shown.interval % 60_000, 0);
        let time = 60_000_000.0 + (f64::from(x) - 800.0) / 4.0 * 60_000.0;
        assert!((shown.interval as f64 - time).abs() <= 30_100.0);
    }
}

#[test]
fn cells_are_as_large_as_the_state_says() {
    let mut data = chart();
    let (tick, height) = (f(data.tick_size), f(data.cell_height));
    for price in [30.0f32, 66.9, 67.0, 123.4] {
        let next = s(price + 0.1);
        let step = f(data.price_to_y(next)) - f(data.price_to_y(s(price)));
        let way = (f(data.base_price_y) - f64::from(price)).abs() + tick;
        assert!((step + height).abs() <= PART * height / tick * (9.0 * way + f64::from(price)));
    }
    data.latest_x = 1_700_000_000_000;
    data.basis = Basis::Time(60_000);
    for cells in [0u64, 1, 77, 100_000] {
        let time = data.latest_x - cells * 60_000 - 12_345;
        let step = f(data.interval_to_x(time + 60_000)) - f(data.interval_to_x(time));
        assert!((step - 4.0).abs() <= PART * 2.0 * 4.0 * (2.0 * cells as f64 + 2.0));
    }
    data.basis = Basis::Tick(5);
    data.cell_width = s(0.7);
    for n in [0u64, 1, 1000, 12_345_678] {
        let step = f(data.interval_to_x(n + 1)) - f(data.interval_to_x(n));
        assert!((step + f(s(0.7))).abs() <= PART * 3.0 * 0.7 * (2.0 * n as f64 + 1.0) * 1.1);
    }
}

#[test]
fn places_are_found_by_their_prices() {
    let mut data = chart();
    let (tick, height, base) = (f(data.tick_size), f(data.cell_height), f(data.base_price_y));
    for y in [0.0f32, 1.0, -33.3, 777.7, -12_345.6] {
        let price = data.y_to_price(s(y));
        let back = f(data.price_to_y(price));
        let slack = 4.0 * height * (base - f(price)).abs() + 3.0 * tick * f64::from(y).abs()
            + height * f(price).abs();
        assert!((back - f(s(y))).abs() * tick <= PART * slack * 1.1);
    }
    data.base_price_y = s(100.0);
    data.tick_size = s(0.5);
    assert_eq!(data.y_to_price(s(-6.0)), s(101.0));
    assert_eq!(data.price_to_y(s(101.0)), s(-6.0));
}

#[test]
fn price_read_under_the_pointer_stays() {
    let mut data = chart();
    for (delta, wheel) in [(3.0, true), (-7.0, false), (11.0, false), (-2.5, true)] {
        let read = |data: &CommonChartData| {
            let place = s(-77.7).over(data.scaling).minus(data.translation.y);
            f(data.y_to_price(place))
        };
        let before = read(&data);
        let (x, follows) = (data.translation.x, data.autoscale);
        data.apply(&limits(), Message::YScaling(s(delta), s(-77.7), wheel));
        assert!((read(&data) - before).abs() < 1e-4);
        assert_eq!(data.translation.x, x);
        assert_eq!(data.autoscale, follows && !wheel);
    }
}

#[test]
fn dragging_the_axis_out_of_sight_keeps_the_pointer() {
    let mut data = chart();
    data.basis = Basis::Tick(3);
    data.translation.x = s(5000.0);
    let place = |data: &CommonChartData| 60.0 / f(data.scaling) - f(data.translation.x);
    let cell = place(&data) / f(data.cell_width);
    data.apply(&limits(), Message::XScaling(s(45.0), s(60.0), false));
    assert_eq!(data.cell_width, s(6.0));
    assert!((place(&data) / f(data.cell_width) - cell).abs() < 1e-3);
}

#[test]
fn visible_right_edge_stays() {
    let mut data = chart();
    data.scaling = s(0.9);
    let edge = |data: &CommonChartData| {
        let region = data.visible_region(data.bounds.size());
        f(region.x) + f(region.width)
    };
    let before = edge(&data);
    for width in [555.5, 1333.3, 801.0] {
        let bounds = Rectangle { width: s(width), ..data.bounds };
        data.apply(&limits(), Message::BoundsChanged(bounds));
        assert!((edge(&data) - before).abs() < 1e-3);
    }
}

#[test]
fn crosshair_price_is_at_the_pointer() {
    let mut data = chart();
    data.scaling = s(1.7);
    let size = data.bounds.size();
    let region = data.visible_region(size);
    let mut last = f64::INFINITY;
    for y in [0.0f32, 0.5, 33.3, 200.0, 399.0, 400.0] {
        let cursor = Point { x: s(12.0), y: s(y) };
        let price = data.crosshair_price(size, cursor);
        let place = region.y.plus(s(y).over(data.scaling));
        assert!((f(price) - f(data.y_to_price(place))).abs() < 1e-4);
        assert!(f(price) <= last);
        last = f(price);
        data.basis = Basis::Tick(2);
        assert_eq!(data.crosshair_price(size, Point { x: s(700.0), y: s(y) }), price);
        data.basis = Basis::Time(60_000);
    }
    let top = Point { x: s(0.0), y: s(0.0) };
    assert_eq!(data.crosshair_price(size, top), data.price_range(&region).0);
}

#[test]
fn bars_show_their_quantities_side_by_side() {
    for (buy, sell) in [(3.0f32, 7.0f32), (0.1, 0.7), (120.0, 3.4), (50.0, 0.0)] {
        let bars = draw_horizontal_volume_bars(
            s(11.0),
            s(20.0),
            s(buy),
            s(sell),
            s(123.4),
            s(2.0),
            s(77.7),
        );
        let buy_bar = bars.buy.unwrap();
        let exact = f(s(buy)) / f(s(123.4)) * f(s(77.7));
        assert!((f(buy_bar.width) - exact).abs() <= 5.1 * PART * exact);
        assert_eq!((buy_bar.y, buy_bar.height), (s(19.0), s(2.0)));
        let mut width = f(buy_bar.width);
        match bars.sell {
            Some(sell_bar) => {
                let exact = f(s(sell)) / f(s(123.4)) * f(s(77.7));
                assert!((f(sell_bar.width) - exact).abs() <= 5.1 * PART * exact);
                assert_eq!((sell_bar.x, sell_bar.y, sell_bar.height), (s(11.0), s(19.0), s(2.0)));
                assert_eq!(buy_bar.x, s(11.0).plus(sell_bar.width));
                width += f(sell_bar.width);
            }
            None => assert_eq!(buy_bar.x, s(11.0)),
        }
        assert!(width <= f(s(77.7)) * (1.0 + 4.0 * PART));
    }
}

#[test]
fn halves_are_written_with_an_even_digit() {
    for value in [0.5f32, 1.5, 2.5, 8.5, 9.5, 98.5, 99.5, 9.25, 9.75, 99.75, 9.875, 9.9375] {
        for decimals in 0..4 {
            assert_eq!(label_length(s(value), decimals), format!("{value:.decimals$}").len());
        }
    }
    assert_eq!(format!("{:.0} {:.0} {:.1} {:.1}", 2.5f32, 9.5f32, 0.25f32, 0.75f32), "2 10 0.2 0.8");
}
