//! The state that all charts share, and the coordinates that it defines.
use crate::constants::{
    CHAR_ASPECT, DEFAULT_CELL_HEIGHT, DEFAULT_CELL_WIDTH, FIVE_MINUTES, MIN_LABELS_WIDTH, ONE,
    TEXT_SIZE, TWO, ZERO,
};
use crate::float::double::Double;
use crate::float::single::Single;
use crate::geometry::{Line, Point, Rectangle, Size, Vector};
use crate::label::{label_len, label_length, MAX_DECIMALS};
use vstd::prelude::*;

verus! {

/// What one cell of the horizontal axis stands for.
#[derive(Clone, Copy, Debug, PartialEq, Eq, Structural)]
pub enum Basis {
    /// So many milliseconds.
    Time(u64),
    /// So many trades.
    Tick(u16),
}

/// Which layers of the chart hold a drawing that is still good.
#[derive(Clone, Copy, Debug, PartialEq, Eq, Structural)]
pub struct Caches {
    pub main: bool,
    pub x_labels: bool,
    pub y_labels: bool,
    pub crosshair: bool,
}

impl Caches {
    pub open spec fn cleared() -> Caches {
        Caches { main: false, x_labels: false, y_labels: false, crosshair: false }
    }

    /// No layer's drawing is good any more.
    pub fn clear_all(&mut self)
        ensures
            *final(self) == Caches::cleared(),
            !final(self).main && !final(self).x_labels && !final(self).y_labels,
            !final(self).crosshair,
    {
        self.main = false;
        self.x_labels = false;
        self.y_labels = false;
        self.crosshair = false;
    }
}

impl Default for Caches {
    fn default() -> (r: Self)
        ensures
            r == Caches::cleared(),
            !r.main && !r.x_labels && !r.y_labels && !r.crosshair,
    {
        Caches { main: false, x_labels: false, y_labels: false, crosshair: false }
    }
}

/// What of a chart is kept between sessions.
#[derive(Clone, Debug)]
pub struct ChartLayout {
    pub crosshair: bool,
    pub splits: Vec<Single>,
}

/// The label of a price.
#[derive(Clone, Copy, Debug, PartialEq, Eq, Structural)]
pub struct PriceInfoLabel {
    pub price: Single,
    /// The number of the kind of label, by which its color is found.
    pub kind: u32,
}

/// The line that marks a price, in the color of its label.
#[derive(Clone, Copy, Debug, PartialEq, Eq, Structural)]
pub struct PriceLine {
    pub line: Line,
    pub kind: u32,
}

/// The state that all charts share.
#[derive(Debug)]
pub struct CommonChartData {
    pub cache: Caches,
    pub crosshair: bool,
    /// Where the chart is drawn.
    pub bounds: Rectangle,
    /// Whether the chart follows its latest data by itself.
    pub autoscale: bool,
    /// How far the chart is moved, before scaling.
    pub translation: Vector,
    pub scaling: Single,
    pub cell_width: Single,
    pub cell_height: Single,
    pub basis: Basis,
    pub last_price: Option<PriceInfoLabel>,
    /// The price at the vertical origin.
    pub base_price_y: Single,
    /// The time at the horizontal origin.
    pub latest_x: u64,
    /// The price that one cell is high.
    pub tick_size: Single,
    /// How many decimals a price is shown with.
    pub decimals: usize,
    /// The number under which what is known of the chart's ticker is kept.
    pub ticker_info: Option<u64>,
    /// Where the panels below each other are split.
    pub splits: Vec<Single>,
}

/// The contents of the shared state.
pub struct ChartState {
    pub cache: Caches,
    pub crosshair: bool,
    pub bounds: Rectangle,
    pub autoscale: bool,
    pub translation: Vector,
    pub scaling: Single,
    pub cell_width: Single,
    pub cell_height: Single,
    pub basis: Basis,
    pub last_price: Option<PriceInfoLabel>,
    pub base_price_y: Single,
    pub latest_x: u64,
    pub tick_size: Single,
    pub decimals: usize,
    pub ticker_info: Option<u64>,
    pub splits: Seq<Single>,
}

impl View for CommonChartData {
    type V = ChartState;

    open spec fn view(&self) -> ChartState {
        ChartState {
            cache: self.cache,
            crosshair: self.crosshair,
            bounds: self.bounds,
            autoscale: self.autoscale,
            translation: self.translation,
            scaling: self.scaling,
            cell_width: self.cell_width,
            cell_height: self.cell_height,
            basis: self.basis,
            last_price: self.last_price,
            base_price_y: self.base_price_y,
            latest_x: self.latest_x,
            tick_size: self.tick_size,
            decimals: self.decimals,
            ticker_info: self.ticker_info,
            splits: self.splits@,
        }
    }
}

impl Default for CommonChartData {
    fn default() -> (r: Self)
        ensures
            r@ == ChartState::initial(),
    {
        CommonChartData {
            cache: Caches { main: false, x_labels: false, y_labels: false, crosshair: false },
            crosshair: true,
            translation: Vector::zero(),
            bounds: Rectangle::zero(),
            basis: Basis::Time(FIVE_MINUTES),
            last_price: None,
            scaling: Single { bits: ONE },
            autoscale: true,
            cell_width: Single { bits: DEFAULT_CELL_WIDTH },
            cell_height: Single { bits: DEFAULT_CELL_HEIGHT },
            base_price_y: Single { bits: ZERO },
            latest_x: 0,
            tick_size: Single { bits: ZERO },
            decimals: 0,
            ticker_info: None,
            splits: Vec::new(),
        }
    }
}

impl ChartState {
    /// A chart without data: the crosshair shown, at the default cell sizes, unmoved and unscaled.
    pub open spec fn initial() -> ChartState {
        ChartState {
            cache: Caches::cleared(),
            crosshair: true,
            translation: Vector::zero(),
            bounds: Rectangle::zero(),
            basis: Basis::Time(FIVE_MINUTES),
            last_price: None,
            scaling: Single { bits: ONE },
            autoscale: true,
            cell_width: Single { bits: DEFAULT_CELL_WIDTH },
            cell_height: Single { bits: DEFAULT_CELL_HEIGHT },
            base_price_y: Single { bits: ZERO },
            latest_x: 0,
            tick_size: Single { bits: ZERO },
            decimals: 0,
            ticker_info: None,
            splits: Seq::empty(),
        }
    }

    /// The part of the chart that an area of this size shows, in the chart's coordinates: what is
    /// translated to the origin lies in the middle.
    pub open spec fn visible_region(self, size: Size) -> Rectangle {
        let width = size.width.over(self.scaling);
        let height = size.height.over(self.scaling);
        Rectangle {
            x: self.translation.x.neg().minus(width.over(Single { bits: TWO })),
            y: self.translation.y.neg().minus(height.over(Single { bits: TWO })),
            width,
            height,
        }
    }

    /// Whether a horizontal coordinate lies within the bounds of the chart.
    pub open spec fn is_interval_x_visible(self, interval_x: Single) -> bool {
        let region = self.visible_region(self.bounds.size());
        interval_x.ge(region.x) && interval_x.le(region.x.plus(region.width))
    }

    /// Where a time, or the number of trades before the latest, lies horizontally.
    pub open spec fn interval_to_x(self, value: u64) -> Single {
        match self.basis {
            Basis::Time(interval) => Double::from_u64(value).minus(
                Double::from_u64(self.latest_x),
            ).over(Double::from_u64(interval)).times(self.cell_width.to_double()).to_single(),
            Basis::Tick(_) => Single::from_u64(value).times(self.cell_width).neg(),
        }
    }

    /// Which time, or number of trades before the latest, lies at a horizontal coordinate.
    pub open spec fn x_to_interval(self, x: Single) -> u64 {
        match self.basis {
            Basis::Time(interval) => {
                if x.le(Single { bits: ZERO }) {
                    let diff = x.neg().over(self.cell_width).times(
                        Single::from_u64(interval),
                    ).to_u64();
                    if diff > self.latest_x {
                        0
                    } else {
                        (self.latest_x - diff) as u64
                    }
                } else {
                    let diff = x.over(self.cell_width).times(Single::from_u64(interval)).to_u64();
                    if self.latest_x + diff > u64::MAX {
                        u64::MAX
                    } else {
                        (self.latest_x + diff) as u64
                    }
                }
            },
            Basis::Tick(_) => x.over(self.cell_width).neg().round().to_u64(),
        }
    }

    /// The first and the last time, or number of trades, in a region. Times reach half a cell
    /// further at both ends.
    pub open spec fn interval_range(self, region: Rectangle) -> (u64, u64) {
        let left = self.x_to_interval(region.x);
        let right = self.x_to_interval(region.x.plus(region.width));
        match self.basis {
            Basis::Tick(_) => (right, left),
            Basis::Time(interval) => {
                let half = interval / 2;
                (
                    if half > left {
                        0
                    } else {
                        (left - half) as u64
                    },
                    if right + half > u64::MAX {
                        u64::MAX
                    } else {
                        (right + half) as u64
                    },
                )
            },
        }
    }

    /// Where a price lies vertically: one cell for each tick below the base price.
    pub open spec fn price_to_y(self, price: Single) -> Single {
        self.base_price_y.minus(price).over(self.tick_size).times(self.cell_height)
    }

    /// Which price lies at a vertical coordinate.
    pub open spec fn y_to_price(self, y: Single) -> Single {
        self.base_price_y.minus(y.over(self.cell_height).times(self.tick_size))
    }

    /// The prices at the top and at the bottom of a region.
    pub open spec fn price_range(self, region: Rectangle) -> (Single, Single) {
        (self.y_to_price(region.y), self.y_to_price(region.y.plus(region.height)))
    }

    /// How wide the price labels are: as wide as the base price written with the chart's decimals.
    pub open spec fn y_labels_width(self) -> Single {
        labels_width(label_len(self.base_price_y, self.decimals as nat))
    }

    /// The line that marks the last price across a region, where there is one.
    pub open spec fn last_price_line(self, region: Rectangle) -> Option<PriceLine> {
        match self.last_price {
            Some(label) => {
                let y = self.price_to_y(label.price);
                let line = Line {
                    start: Point { x: Single { bits: ZERO }, y },
                    end: Point { x: region.x.plus(region.width), y },
                };
                Some(PriceLine { line, kind: label.kind })
            },
            None => None,
        }
    }
}

/// How wide a label of so many characters is, with a least width.
pub open spec fn labels_width(len: nat) -> Single {
    Single::from_u64(len as u64).times(Single { bits: TEXT_SIZE }).times(
        Single { bits: CHAR_ASPECT },
    ).max(Single { bits: MIN_LABELS_WIDTH }).ceil()
}

impl CommonChartData {
    /// The part of the chart that an area of this size shows.
    pub fn visible_region(&self, size: Size) -> (r: Rectangle)
        ensures
            r == self@.visible_region(size),
    {
        let width = size.width.over(self.scaling);
        let height = size.height.over(self.scaling);
        Rectangle {
            x: self.translation.x.neg().minus(width.over(Single { bits: TWO })),
            y: self.translation.y.neg().minus(height.over(Single { bits: TWO })),
            width,
            height,
        }
    }

    /// Whether a horizontal coordinate lies within the bounds of the chart.
    pub fn is_interval_x_visible(&self, interval_x: Single) -> (r: bool)
        ensures
            r == self@.is_interval_x_visible(interval_x),
    {
        let region = self.visible_region(self.bounds.size());
        interval_x.ge(region.x) && interval_x.le(region.x.plus(region.width))
    }

    /// The first and the last time, or number of trades, in a region.
    pub fn interval_range(&self, region: &Rectangle) -> (r: (u64, u64))
        ensures
            r == self@.interval_range(*region),
    {
        match self.basis {
            Basis::Tick(_) => (
                self.x_to_interval(region.x.plus(region.width)),
                self.x_to_interval(region.x),
            ),
            Basis::Time(interval) => (
                self.x_to_interval(region.x).saturating_sub(interval / 2),
                self.x_to_interval(region.x.plus(region.width)).saturating_add(interval / 2),
            ),
        }
    }

    /// The prices at the top and at the bottom of a region.
    pub fn price_range(&self, region: &Rectangle) -> (r: (Single, Single))
        ensures
            r == self@.price_range(*region),
    {
        let highest = self.y_to_price(region.y);
        let lowest = self.y_to_price(region.y.plus(region.height));
        (highest, lowest)
    }

    /// Where a time, or the number of trades before the latest, lies horizontally.
    pub fn interval_to_x(&self, value: u64) -> (r: Single)
        ensures
            r == self@.interval_to_x(value),
    {
        match self.basis {
            Basis::Time(interval) => {
                let diff = Double::from_u64(value).minus(Double::from_u64(self.latest_x));
                diff.over(Double::from_u64(interval)).times(self.cell_width.to_double()).to_single()
            },
            Basis::Tick(_) => Single::from_u64(value).times(self.cell_width).neg(),
        }
    }

    /// Which time, or number of trades before the latest, lies at a horizontal coordinate.
    pub fn x_to_interval(&self, x: Single) -> (r: u64)
        ensures
            r == self@.x_to_interval(x),
    {
        match self.basis {
            Basis::Time(interval) => {
                if x.le(Single { bits: ZERO }) {
                    let diff: u64 = x.neg().over(self.cell_width).times(
                        Single::from_u64(interval),
                    ).to_u64();
                    self.latest_x.saturating_sub(diff)
                } else {
                    let diff: u64 = x.over(self.cell_width).times(
                        Single::from_u64(interval),
                    ).to_u64();
                    self.latest_x.saturating_add(diff)
                }
            },
            Basis::Tick(_) => {
                let tick = x.over(self.cell_width).neg();
                tick.round().to_u64()
            },
        }
    }

    /// Where a price lies vertically.
    pub fn price_to_y(&self, price: Single) -> (r: Single)
        ensures
            r == self@.price_to_y(price),
    {
        self.base_price_y.minus(price).over(self.tick_size).times(self.cell_height)
    }

    /// Which price lies at a vertical coordinate.
    pub fn y_to_price(&self, y: Single) -> (r: Single)
        ensures
            r == self@.y_to_price(y),
    {
        self.base_price_y.minus(y.over(self.cell_height).times(self.tick_size))
    }

    /// The line that marks the last price across a region, where there is one.
    pub fn draw_last_price_line(&self, region: Rectangle) -> (r: Option<PriceLine>)
        ensures
            r == self@.last_price_line(region),
    {
        match self.last_price {
            Some(label) => {
                let y = self.price_to_y(label.price);
                let line = Line {
                    start: Point { x: Single { bits: ZERO }, y },
                    end: Point { x: region.x.plus(region.width), y },
                };
                Some(PriceLine { line, kind: label.kind })
            },
            None => None,
        }
    }

    /// What of the chart is kept between sessions.
    pub fn get_chart_layout(&self) -> (r: ChartLayout)
        ensures
            r.crosshair == self@.crosshair,
            r.splits@ == self@.splits,
    {
        let splits = self.splits.clone();
        assert(splits@ =~= self.splits@);
        ChartLayout { crosshair: self.crosshair, splits }
    }

    /// How wide the price labels are: as wide as the base price written with the chart's decimals.
    pub fn y_labels_width(&self) -> (r: Single)
        requires
            self@.decimals <= MAX_DECIMALS,
        ensures
            r == self@.y_labels_width(),
    {
        let len: usize = label_length(self.base_price_y, self.decimals);
        let width = Single::from_u64(len as u64).times(Single { bits: TEXT_SIZE }).times(
            Single { bits: CHAR_ASPECT },
        ).max(Single { bits: MIN_LABELS_WIDTH });
        width.ceil()
    }
}

} // verus!
