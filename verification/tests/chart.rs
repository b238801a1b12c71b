//! The shared state of charts, held against the machine's own arithmetic.
use chart_view::chart::ChartLimits;
use chart_view::constants::{
    CHAR_ASPECT, DEFAULT_CELL_HEIGHT, DEFAULT_CELL_WIDTH, EPSILON, FIVE_MINUTES, HUNDRED,
    MINUS_ONE, MIN_DENOMINATOR, MIN_LABELS_WIDTH, ONE, TEXT_SIZE, THREE, TWO, ZERO,
    ZOOM_SENSITIVITY,
};
use chart_view::fetch::{request_fetch, Action};
use chart_view::float::single::Single;
use chart_view::geometry::{Line, Point, Rectangle, Size, Vector};
use chart_view::label::label_length;
use chart_view::message::{AxisScaleClicked, Message};
use chart_view::series::{ChartData, Kline};
use chart_view::state::{Basis, Caches, CommonChartData, PriceInfoLabel, PriceLine};
use chart_view::volume::draw_horizontal_volume_bars;

struct Source(u64);

impl Source {
    fn next(&mut self) -> u64 {
        self.0 ^= self.0 << 13;
        self.0 ^= self.0 >> 7;
        self.0 ^= self.0 << 17;
        self.0
    }

    /// A number as charts have them, and now and then a strange one.
    fn number(&mut self) -> f32 {
        let r = self.next();
        match r % 24 {
            0 => 0.0,
            1 => -0.0,
            2 => f32::INFINITY,
            3 => f32::NAN,
            4 => f32::from_bits((r >> 32) as u32),
            5 => 1.0,
            6..=11 => ((r >> 32) as u32 as f32 / 65536.0) - 32768.0,
            12..=17 => (r >> 40) as u32 as f32 / 4096.0,
            _ => ((r >> 48) as f32) / 64.0 - 512.0,
        }
    }

    fn positive(&mut self) -> f32 {
        let r = self.next();
        match r % 16 {
            0 => self.number(),
            1 => 1.0,
            _ => ((r >> 40) % 100_000 + 1) as f32 / 512.0,
        }
    }

    fn time(&mut self) -> u64 {
        let r = self.next();
        match r % 4 {
            0 => r >> (r >> 8) % 64,
            _ => 1_700_000_000_000 + (r >> 32),
        }
    }
}

fn s(x: f32) -> Single {
    Single { bits: x.to_bits() }
}

fn f(x: Single) -> f32 {
    f32::from_bits(x.bits)
}

fn same(r: Single, x: f32) -> bool {
    (x.is_nan() && f(r).is_nan()) || r.bits == x.to_bits()
}

/// The state in the machine's numbers.
#[derive(Clone, Debug)]
struct Native {
    crosshair: bool,
    bounds: [f32; 4],
    autoscale: bool,
    translation: [f32; 2],
    scaling: f32,
    cell_width: f32,
    cell_height: f32,
    basis: Basis,
    base_price_y: f32,
    latest_x: u64,
    tick_size: f32,
    splits: Vec<f32>,
}

impl Native {
    fn random(source: &mut Source) -> Native {
        Native {
            crosshair: source.next() % 2 == 0,
            bounds: [
                source.number(),
                source.number(),
                source.positive(),
                source.positive(),
            ],
            autoscale: source.next() % 2 == 0,
            translation: [source.number(), source.number()],
            scaling: source.positive(),
            cell_width: source.positive(),
            cell_height: source.positive(),
            basis: if source.next() % 2 == 0 {
                Basis::Time([60_000, 300_000, 3_600_000, 86_400_000][(source.next() % 4) as usize])
            } else {
                Basis::Tick([1, 50, 100, 1000][(source.next() % 4) as usize])
            },
            base_price_y: source.number(),
            latest_x: source.time(),
            tick_size: source.positive(),
            splits: (0..source.next() % 4).map(|_| source.number()).collect(),
        }
    }

    fn data(&self) -> CommonChartData {
        CommonChartData {
            cache: Caches::default(),
            crosshair: self.crosshair,
            bounds: rectangle(self.bounds),
            autoscale: self.autoscale,
            translation: Vector { x: s(self.translation[0]), y: s(self.translation[1]) },
            scaling: s(self.scaling),
            cell_width: s(self.cell_width),
            cell_height: s(self.cell_height),
            basis: self.basis,
            last_price: None,
            base_price_y: s(self.base_price_y),
            latest_x: self.latest_x,
            tick_size: s(self.tick_size),
            decimals: 2,
            ticker_info: None,
            splits: self.splits.iter().map(|x| s(*x)).collect(),
        }
    }

    fn visible_region(&self, size: [f32; 2]) -> [f32; 4] {
        let width = size[0] / self.scaling;
        let height = size[1] / self.scaling;
        [-self.translation[0] - width / 2.0, -self.translation[1] - height / 2.0, width, height]
    }

    fn is_interval_x_visible(&self, x: f32) -> bool {
        let region = self.visible_region([self.bounds[2], self.bounds[3]]);
        x >= region[0] && x <= region[0] + region[2]
    }

    fn interval_to_x(&self, value: u64) -> f32 {
        match self.basis {
            Basis::Time(interval) => {
                let diff = value as f64 - self.latest_x as f64;
                (diff / interval as f64 * f64::from(self.cell_width)) as f32
            }
            Basis::Tick(_) => -((value as f32) * self.cell_width),
        }
    }

    fn x_to_interval(&self, x: f32) -> u64 {
        match self.basis {
            Basis::Time(interval) => {
                if x <= 0.0 {
                    let diff = (-x / self.cell_width * interval as f32) as u64;
                    self.latest_x.saturating_sub(diff)
                } else {
                    let diff = (x / self.cell_width * interval as f32) as u64;
                    self.latest_x.saturating_add(diff)
                }
            }
            Basis::Tick(_) => (-(x / self.cell_width)).round() as u64,
        }
    }

    fn interval_range(&self, region: [f32; 4]) -> (u64, u64) {
        let left = self.x_to_interval(region[0]);
        let right = self.x_to_interval(region[0] + region[2]);
        match self.basis {
            Basis::Tick(_) => (right, left),
            Basis::Time(interval) => {
                (left.saturating_sub(interval / 2), right.saturating_add(interval / 2))
            }
        }
    }

    fn price_to_y(&self, price: f32) -> f32 {
        ((self.base_price_y - price) / self.tick_size) * self.cell_height
    }

    fn y_to_price(&self, y: f32) -> f32 {
        self.base_price_y - (y / self.cell_height) * self.tick_size
    }

    fn target_y(&self, low: f32, high: f32, close: f32) -> f32 {
        let y_low = self.price_to_y(low);
        let y_high = self.price_to_y(high);
        let y_close = self.price_to_y(close);
        let mut target = -(y_low + y_high) / 2.0;
        if self.bounds[3] > f32::EPSILON && self.scaling > f32::EPSILON {
            let half = (self.bounds[3] / self.scaling) / 2.0;
            let center = -target;
            if y_close < center - half {
                target = -(y_close - self.cell_height + half);
            } else if y_close > center + half {
                target = -(y_close + self.cell_height - half);
            }
        }
        target
    }

    fn apply(&mut self, limits: &NativeLimits, message: Message) {
        match message {
            Message::DoubleClick(AxisScaleClicked::X) => self.cell_width = limits.default_width,
            Message::DoubleClick(AxisScaleClicked::Y) => self.autoscale = true,
            Message::Translated(t) => {
                self.translation = [f(t.x), f(t.y)];
                self.autoscale = false;
            }
            Message::Scaled(scaling, t) => {
                self.scaling = f(scaling);
                self.translation = [f(t.x), f(t.y)];
                self.autoscale = false;
            }
            Message::AutoscaleToggle => {
                self.autoscale = !self.autoscale;
                if self.autoscale {
                    self.scaling = 1.0;
                }
            }
            Message::CrosshairToggle => self.crosshair = !self.crosshair,
            Message::XScaling(delta, cursor, wheel) => {
                let (delta, cursor) = (f(delta), f(cursor));
                if delta < 0.0 && self.cell_width > limits.min_width
                    || delta > 0.0 && self.cell_width < limits.max_width
                {
                    let zoom = if wheel { 30.0f32 } else { 30.0f32 * 3.0 };
                    let width = (self.cell_width * (1.0 + delta / zoom))
                        .clamp(limits.min_width, limits.max_width);
                    let latest = self.interval_to_x(self.latest_x);
                    let follows = wheel || !self.is_interval_x_visible(latest);
                    let at = (if follows { cursor } else { latest }) / self.scaling
                        - self.translation[0];
                    let moved = match self.basis {
                        Basis::Time(_) => {
                            let time = self.x_to_interval(at);
                            self.cell_width = width;
                            self.interval_to_x(time)
                        }
                        Basis::Tick(_) => {
                            let index = at / self.cell_width;
                            self.cell_width = width;
                            index * self.cell_width
                        }
                    };
                    if follows {
                        if !moved.is_nan() && !at.is_nan() {
                            self.translation[0] -= moved - at;
                        }
                        self.autoscale = false;
                    }
                }
            }
            Message::YScaling(delta, cursor, wheel) => {
                let (delta, cursor) = (f(delta), f(cursor));
                if delta < 0.0 && self.cell_height > limits.min_height
                    || delta > 0.0 && self.cell_height < limits.max_height
                {
                    let zoom = if wheel { 30.0f32 } else { 30.0f32 * 3.0 };
                    let height = (self.cell_height * (1.0 + delta / zoom))
                        .clamp(limits.min_height, limits.max_height);
                    let at = cursor / self.scaling - self.translation[1];
                    let price = self.y_to_price(at);
                    self.cell_height = height;
                    self.translation[1] -= self.price_to_y(price) - at;
                    if wheel {
                        self.autoscale = false;
                    }
                }
            }
            Message::BoundsChanged(bounds) => {
                let shift = (f(bounds.width) / 2.0 - self.bounds[2] / 2.0) / self.scaling;
                self.bounds = [f(bounds.x), f(bounds.y), f(bounds.width), f(bounds.height)];
                if !self.autoscale {
                    self.translation[0] += shift;
                }
            }
            Message::SplitDragged(index, size) => {
                if let Some(split) = self.splits.get_mut(index) {
                    *split = (f(size) * 100.0).round() / 100.0;
                }
            }
            Message::CrosshairMoved => {}
        }
    }

    fn agrees(&self, data: &CommonChartData) -> bool {
        data.crosshair == self.crosshair
            && data.autoscale == self.autoscale
            && same(data.bounds.x, self.bounds[0])
            && same(data.bounds.y, self.bounds[1])
            && same(data.bounds.width, self.bounds[2])
            && same(data.bounds.height, self.bounds[3])
            && same(data.translation.x, self.translation[0])
            && same(data.translation.y, self.translation[1])
            && same(data.scaling, self.scaling)
            && same(data.cell_width, self.cell_width)
            && same(data.cell_height, self.cell_height)
            && data.basis == self.basis
            && same(data.base_price_y, self.base_price_y)
            && data.latest_x == self.latest_x
            && same(data.tick_size, self.tick_size)
            && data.splits.len() == self.splits.len()
            && data.splits.iter().zip(&self.splits).all(|(a, b)| same(*a, *b))
    }
}

struct NativeLimits {
    min_width: f32,
    max_width: f32,
    min_height: f32,
    max_height: f32,
    default_width: f32,
}

fn limits() -> (ChartLimits, NativeLimits) {
    let native = NativeLimits {
        min_width: 1.0,
        max_width: 100.0,
        min_height: 0.5,
        max_height: 50.0,
        default_width: 4.0,
    };
    let limits = ChartLimits {
        min_scaling: s(0.5),
        max_scaling: s(2.0),
        max_cell_width: s(native.max_width),
        min_cell_width: s(native.min_width),
        max_cell_height: s(native.max_height),
        min_cell_height: s(native.min_height),
        default_cell_width: s(native.default_width),
    };
    (limits, native)
}

fn rectangle(r: [f32; 4]) -> Rectangle {
    Rectangle { x: s(r[0]), y: s(r[1]), width: s(r[2]), height: s(r[3]) }
}

#[test]
fn constants_are_what_they_say() {
    assert_eq!(ZERO, 0.0f32.to_bits());
    assert_eq!(ONE, 1.0f32.to_bits());
    assert_eq!(MINUS_ONE, (-1.0f32).to_bits());
    assert_eq!(TWO, 2.0f32.to_bits());
    assert_eq!(THREE, 3.0f32.to_bits());
    assert_eq!(HUNDRED, 100.0f32.to_bits());
    assert_eq!(DEFAULT_CELL_WIDTH, 4.0f32.to_bits());
    assert_eq!(DEFAULT_CELL_HEIGHT, 3.0f32.to_bits());
    assert_eq!(ZOOM_SENSITIVITY, 30.0f32.to_bits());
    assert_eq!(TEXT_SIZE, 12.0f32.to_bits());
    assert_eq!(CHAR_ASPECT, 0.8f32.to_bits());
    assert_eq!(MIN_LABELS_WIDTH, 72.0f32.to_bits());
    assert_eq!(MIN_DENOMINATOR, 0.0001f32.to_bits());
    assert_eq!(EPSILON, f32::EPSILON.to_bits());
    assert_eq!(FIVE_MINUTES, 5 * 60 * 1000);
}

#[test]
fn default_state_is_unmoved() {
    let data = CommonChartData::default();
    assert!(data.crosshair);
    assert!(data.autoscale);
    assert_eq!(data.translation, Vector { x: s(0.0), y: s(0.0) });
    assert_eq!(data.bounds, rectangle([0.0; 4]));
    assert_eq!(data.basis, Basis::Time(300_000));
    assert_eq!(data.scaling, s(1.0));
    assert_eq!(data.cell_width, s(4.0));
    assert_eq!(data.cell_height, s(3.0));
    assert_eq!(data.base_price_y, s(0.0));
    assert_eq!(data.tick_size, s(0.0));
    assert_eq!(data.latest_x, 0);
    assert_eq!(data.decimals, 0);
    assert!(data.last_price.is_none());
    assert!(data.ticker_info.is_none());
    assert!(data.splits.is_empty());
}

#[test]
fn caches_are_cleared() {
    let mut caches = Caches { main: true, x_labels: true, y_labels: true, crosshair: true };
    caches.clear_all();
    assert_eq!(caches, Caches::default());
    assert!(!caches.main && !caches.x_labels && !caches.y_labels && !caches.crosshair);
}

#[test]
fn coordinates_are_the_machines() {
    let mut source = Source(0xabcd_ef01_2345_6789);
    for _ in 0..60_000 {
        let native = Native::random(&mut source);
        let data = native.data();
        let x = source.number();
        let time = source.time();
        let size = [source.positive(), source.positive()];
        assert!(same(data.price_to_y(s(x)), native.price_to_y(x)));
        assert!(same(data.y_to_price(s(x)), native.y_to_price(x)));
        assert!(same(data.interval_to_x(time), native.interval_to_x(time)));
        assert_eq!(data.x_to_interval(s(x)), native.x_to_interval(x));
        assert_eq!(data.is_interval_x_visible(s(x)), native.is_interval_x_visible(x));
        let region = native.visible_region(size);
        let shown = data.visible_region(Size { width: s(size[0]), height: s(size[1]) });
        assert!(same(shown.x, region[0]) && same(shown.y, region[1]));
        assert!(same(shown.width, region[2]) && same(shown.height, region[3]));
        assert_eq!(data.interval_range(&rectangle(region)), native.interval_range(region));
        let (high, low) = data.price_range(&rectangle(region));
        assert!(same(high, native.y_to_price(region[1])));
        assert!(same(low, native.y_to_price(region[1] + region[3])));
    }
}

#[test]
fn messages_do_what_the_machine_does() {
    let mut source = Source(0x5555_aaaa_1234_9876);
    let (limits, native_limits) = limits();
    for _ in 0..60_000 {
        let mut native = Native::random(&mut source);
        let mut data = native.data();
        let (a, b) = (source.number(), source.number());
        let wheel = source.next() % 2 == 0;
        let vector = Vector { x: s(a), y: s(b) };
        let message = match source.next() % 11 {
            0 => Message::Translated(vector),
            1 => Message::Scaled(s(source.positive()), vector),
            2 => Message::AutoscaleToggle,
            3 => Message::CrosshairToggle,
            4 => Message::CrosshairMoved,
            5 | 6 => Message::YScaling(s(a), s(b), wheel),
            7 | 8 => Message::XScaling(s(a), s(b), wheel),
            9 => Message::BoundsChanged(rectangle([a, b, source.positive(), source.positive()])),
            10 if wheel => Message::SplitDragged((source.next() % 4) as usize, s(a)),
            _ => Message::DoubleClick(if source.next() % 2 == 0 {
                AxisScaleClicked::X
            } else {
                AxisScaleClicked::Y
            }),
        };
        assert!(data.accepts(&limits, message));
        data.apply(&limits, message);
        native.apply(&native_limits, message);
        assert!(native.agrees(&data), "{message:?}\n{native:?}\n{data:?}");
    }
}

#[test]
fn messages_need_ordered_limits_only_to_zoom() {
    let (mut limits, _) = limits();
    limits.min_cell_width = s(5.0);
    limits.max_cell_width = s(4.0);
    limits.min_cell_height = s(f32::NAN);
    let mut data = CommonChartData::default();
    data.cell_width = s(6.0);
    data.cell_height = s(6.0);
    assert!(!data.accepts(&limits, Message::XScaling(s(-1.0), s(0.0), true)));
    assert!(data.accepts(&limits, Message::XScaling(s(1.0), s(0.0), true)));
    assert!(data.accepts(&limits, Message::XScaling(s(0.0), s(0.0), true)));
    assert!(data.accepts(&limits, Message::YScaling(s(-1.0), s(0.0), true)));
    assert!(!data.accepts(&limits, Message::YScaling(s(1.0), s(0.0), true)));
    assert!(data.accepts(&limits, Message::AutoscaleToggle));
}

#[test]
fn splits_are_rounded_to_hundredths() {
    let (limits, _) = limits();
    let mut data = CommonChartData::default();
    data.splits = vec![s(0.25), s(0.5)];
    data.apply(&limits, Message::SplitDragged(1, s(0.6789)));
    assert_eq!(data.splits, vec![s(0.25), s(0.68)]);
    data.apply(&limits, Message::SplitDragged(2, s(0.1)));
    assert_eq!(data.splits, vec![s(0.25), s(0.68)]);
    let layout = data.get_chart_layout();
    assert!(layout.crosshair);
    assert_eq!(layout.splits, data.splits);
}

#[test]
fn crosshair_is_the_machines() {
    let mut source = Source(0x7777_1111_beef_0001);
    let mut counted = 0;
    for _ in 0..60_000 {
        let native = Native::random(&mut source);
        let data = native.data();
        let size = [source.positive(), source.positive()];
        let (x, y) = (source.positive(), source.positive());
        let bounds = Size { width: s(size[0]), height: s(size[1]) };
        let cursor = Point { x: s(x), y: s(y) };

        let region = native.visible_region(size);
        let highest = native.y_to_price(region[1]);
        let lowest = native.y_to_price(region[1] + region[3]);
        let price = highest + y / size[1] * (lowest - highest);
        assert!(same(data.crosshair_price(bounds, cursor), price));

        let rounded = (price / native.tick_size).round() * native.tick_size;
        let height = (rounded - highest) / (lowest - highest) * size[1];
        let (steps, step, ratio) = match native.basis {
            Basis::Time(interval) => {
                let earliest = native.x_to_interval(region[0]) as f64;
                let latest = native.x_to_interval(region[0] + region[2]) as f64;
                let millis = earliest + f64::from(x / size[0]) * (latest - earliest);
                let steps = (millis / (interval as f64)).round() as u64;
                let time = steps.wrapping_mul(interval);
                (steps, interval, ((time as f64 - earliest) / (latest - earliest)) as f32)
            }
            Basis::Tick(aggregation) => {
                let at = region[0] + x / size[0] * region[2];
                let cell = (at / native.cell_width).round();
                let (min, max) = (region[0], region[0] + region[2]);
                let ratio = (cell * native.cell_width - min) / (max - min);
                (-cell as u64, u64::from(aggregation), ratio)
            }
        };
        let fits = steps.checked_mul(step);
        assert_eq!(data.crosshair_fits(bounds, cursor), fits.is_some());
        if let Some(interval) = fits {
            counted += 1;
            let crosshair = data.draw_crosshair(bounds, cursor, s(rounded));
            assert_eq!(crosshair.interval, interval);
            assert!(same(crosshair.price, rounded));
            assert!(same(crosshair.horizontal.start.x, 0.0));
            assert!(same(crosshair.horizontal.start.y, height));
            assert!(same(crosshair.horizontal.end.x, size[0]));
            assert!(same(crosshair.horizontal.end.y, height));
            assert!(same(crosshair.vertical.start.x, ratio * size[0]));
            assert!(same(crosshair.vertical.start.y, 0.0));
            assert!(same(crosshair.vertical.end.x, ratio * size[0]));
            assert!(same(crosshair.vertical.end.y, size[1]));
        }
    }
    assert!(counted > 40_000);
}

#[test]
fn crosshair_snaps_to_time_and_tick() {
    let mut data = CommonChartData::default();
    data.basis = Basis::Time(60_000);
    data.latest_x = 600_000;
    data.tick_size = s(0.5);
    data.base_price_y = s(100.0);
    data.cell_width = s(4.0);
    data.cell_height = s(2.0);
    let bounds = Size { width: s(80.0), height: s(40.0) };
    // a third of the way from the middle to the right, a quarter down
    let cursor = Point { x: s(33.0), y: s(11.0) };
    assert_eq!(data.crosshair_price(bounds, cursor), s(102.25));
    assert!(data.crosshair_fits(bounds, cursor));
    let crosshair = data.draw_crosshair(bounds, cursor, s(102.5));
    assert_eq!(crosshair.interval, 480_000);
    assert_eq!(crosshair.vertical.start.x, s(32.0));
    assert_eq!(crosshair.horizontal.start.y, s(10.0));
}

#[test]
fn latest_y_midpoint_is_the_machines() {
    let mut source = Source(0x0bad_cafe_0bad_cafe);
    for _ in 0..60_000 {
        let native = Native::random(&mut source);
        let data = native.data();
        let (low, high, close) = (source.number(), source.number(), source.number());
        let kline = Kline { low: s(low), high: s(high), close: s(close) };
        let expected = native.target_y(low, high, close);
        let time = ChartData::TimeBased(Some(kline));
        let tick = ChartData::TickBased(Some(kline));
        assert!(same(time.latest_y_midpoint(&data), expected));
        assert!(same(tick.latest_y_midpoint(&data), expected));
    }
}

#[test]
fn latest_y_midpoint_without_data_is_zero() {
    let data = CommonChartData::default();
    assert_eq!(ChartData::TimeBased(None).latest_y_midpoint(&data), s(0.0));
    assert_eq!(ChartData::TickBased(None).latest_y_midpoint(&data), s(0.0));
}

#[test]
fn volume_bars_are_the_machines() {
    let mut source = Source(0x1020_3040_5060_7080);
    for _ in 0..60_000 {
        let [x, y, buy, sell, max, height, width] = std::array::from_fn(|_| source.number());
        let bars = draw_horizontal_volume_bars(
            s(x),
            s(y),
            s(buy),
            s(sell),
            s(max),
            s(height),
            s(width),
        );
        let total = buy + sell;
        if total <= 0.0 {
            assert!(bars.buy.is_none() && bars.sell.is_none());
            continue;
        }
        let total_width = (total / max) * width;
        let buy_width = buy / total * total_width;
        let sell_width = sell / total * total_width;
        let top = y - (height / 2.0);
        assert_eq!(bars.sell.is_some(), sell > 0.0);
        assert_eq!(bars.buy.is_some(), buy > 0.0);
        if let Some(bar) = bars.sell {
            assert!(same(bar.x, x) && same(bar.y, top));
            assert!(same(bar.width, sell_width) && same(bar.height, height));
        }
        if let Some(bar) = bars.buy {
            assert!(same(bar.x, x + sell_width) && same(bar.y, top));
            assert!(same(bar.width, buy_width) && same(bar.height, height));
        }
    }
}

#[test]
fn volume_bars_share_the_width() {
    let bars =
        draw_horizontal_volume_bars(s(10.0), s(20.0), s(3.0), s(1.0), s(8.0), s(4.0), s(100.0));
    assert_eq!(bars.sell, Some(rectangle([10.0, 18.0, 12.5, 4.0])));
    assert_eq!(bars.buy, Some(rectangle([22.5, 18.0, 37.5, 4.0])));
    let none = draw_horizontal_volume_bars(s(0.0), s(0.0), s(0.0), s(0.0), s(1.0), s(1.0), s(1.0));
    assert_eq!((none.sell, none.buy), (None, None));
}

#[test]
fn labels_are_as_long_as_they_are_written() {
    let mut source = Source(0x9999_8888_7777_6666);
    let powers = [0.5f32, 0.05, 0.95, 9.5, 9.95, 9.995, 99.5, 99.95, 999.5, 999_999.5, 0.999_999_94];
    for i in 0..200_000 {
        let value = match i % 4 {
            0 => source.number(),
            1 => f32::from_bits(source.next() as u32),
            2 => powers[(source.next() % 11) as usize] * if source.next() % 2 == 0 { 1.0 } else { -1.0 },
            _ => {
                let near = 10f32.powi((source.next() % 12) as i32 - 3);
                f32::from_bits(near.to_bits().wrapping_add((source.next() % 9) as u32).wrapping_sub(4))
            }
        };
        let decimals = (source.next() % 14) as usize;
        assert_eq!(
            label_length(s(value), decimals),
            format!("{value:.decimals$}").len(),
            "{value:e} {decimals}"
        );
    }
    assert_eq!(label_length(s(1.5), 65_535), 65_537);
}

#[test]
fn labels_width_follows_the_base_price() {
    let mut data = CommonChartData::default();
    assert_eq!(data.y_labels_width(), s(72.0));
    data.base_price_y = s(123_456.0);
    data.decimals = 2;
    // nine characters, 86.4 wide
    assert_eq!(data.y_labels_width(), s(87.0));
    let mut source = Source(0x2468_ace0_1357_9bdf);
    for _ in 0..10_000 {
        let value = source.number();
        data.base_price_y = s(value);
        data.decimals = (source.next() % 10) as usize;
        let decimals = data.decimals;
        let len = format!("{value:.decimals$}").len();
        assert_eq!(f(data.y_labels_width()), (len as f32 * 12.0 * 0.8).max(72.0).ceil());
    }
}

#[test]
fn last_price_line_crosses_the_region() {
    let mut data = CommonChartData::default();
    let region = rectangle([-20.0, -10.0, 50.0, 20.0]);
    assert_eq!(data.draw_last_price_line(region), None);
    data.base_price_y = s(100.0);
    data.tick_size = s(0.5);
    data.last_price = Some(PriceInfoLabel { price: s(98.0), kind: 1 });
    let y = s(12.0);
    assert_eq!(
        data.draw_last_price_line(region),
        Some(PriceLine {
            line: Line { start: Point { x: s(0.0), y }, end: Point { x: s(30.0), y } },
            kind: 1,
        })
    );
}

#[test]
fn new_requests_are_fetched() {
    let id = uuid::Uuid::from_u128(7);
    let range = (10u64, 20u64);
    match request_fetch::<(), _, ()>(Ok(Some(id)), range) {
        Some(Action::FetchRequested(req_id, asked)) => {
            assert_eq!(req_id, id);
            assert_eq!(asked, range);
        }
        _ => panic!("not fetched"),
    }
    assert!(request_fetch::<(), _, ()>(Ok(None), range).is_none());
    assert!(request_fetch::<(), _, &str>(Err("overlaps"), range).is_none());
}
