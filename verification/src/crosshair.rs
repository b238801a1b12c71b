//! The crosshair: the lines through the tick and the cell nearest to the pointer.
use crate::constants::ZERO;
use crate::float::double::Double;
use crate::float::single::Single;
use crate::geometry::{Line, Point, Size};
use crate::state::{Basis, ChartState, CommonChartData};
use vstd::prelude::*;

verus! {

/// The lines of the crosshair, and the price and the time or number of trades that they mark.
#[derive(Clone, Copy, Debug, PartialEq, Eq, Structural)]
pub struct Crosshair {
    pub horizontal: Line,
    pub vertical: Line,
    pub price: Single,
    pub interval: u64,
}

/// The line across an area at the height `ratio` of it.
pub open spec fn spec_line_at_height(size: Size, ratio: Single) -> Line {
    let y = ratio.times(size.height);
    Line {
        start: Point { x: Single { bits: ZERO }, y },
        end: Point { x: size.width, y },
    }
}

#[verifier::when_used_as_spec(spec_line_at_height)]
pub fn line_at_height(size: Size, ratio: Single) -> (r: Line)
    ensures
        r == line_at_height(size, ratio),
{
    let y = ratio.times(size.height);
    Line {
        start: Point { x: Single { bits: ZERO }, y },
        end: Point { x: size.width, y },
    }
}

/// The line down an area at the width `ratio` of it.
pub open spec fn spec_line_at_width(size: Size, ratio: Single) -> Line {
    let x = ratio.times(size.width);
    Line {
        start: Point { x, y: Single { bits: ZERO } },
        end: Point { x, y: size.height },
    }
}

#[verifier::when_used_as_spec(spec_line_at_width)]
pub fn line_at_width(size: Size, ratio: Single) -> (r: Line)
    ensures
        r == line_at_width(size, ratio),
{
    let x = ratio.times(size.width);
    Line {
        start: Point { x, y: Single { bits: ZERO } },
        end: Point { x, y: size.height },
    }
}

impl ChartState {
    /// The price under the pointer: between the prices at the top and at the bottom of the area, in
    /// proportion to the pointer's height in it.
    pub open spec fn crosshair_price(self, size: Size, cursor: Point) -> Single {
        let (highest, lowest) = self.price_range(self.visible_region(size));
        highest.plus(cursor.y.over(size.height).times(lowest.minus(highest)))
    }

    /// How far down the area a price lies.
    pub open spec fn price_ratio(self, size: Size, price: Single) -> Single {
        let (highest, lowest) = self.price_range(self.visible_region(size));
        price.minus(highest).over(lowest.minus(highest))
    }

    /// The times at the left and at the right end of the area.
    pub open spec fn shown_times(self, size: Size) -> (Double, Double) {
        let region = self.visible_region(size);
        (
            Double::from_u64(self.x_to_interval(region.x)),
            Double::from_u64(self.x_to_interval(region.x.plus(region.width))),
        )
    }

    /// The cell nearest to the pointer, counted from the latest trade to the right.
    pub open spec fn crosshair_cell(self, size: Size, cursor: Point) -> Single {
        let region = self.visible_region(size);
        region.x.plus(cursor.x.over(size.width).times(region.width)).over(self.cell_width).round()
    }

    /// How many steps the time or the number of trades that the crosshair marks is.
    pub open spec fn crosshair_steps(self, size: Size, cursor: Point) -> u64 {
        match self.basis {
            Basis::Time(interval) => {
                let (earliest, latest) = self.shown_times(size);
                let ratio = cursor.x.over(size.width).to_double();
                earliest.plus(ratio.times(latest.minus(earliest))).over(
                    Double::from_u64(interval),
                ).round().to_u64()
            },
            Basis::Tick(_) => self.crosshair_cell(size, cursor).neg().to_u64(),
        }
    }

    /// How long one step is.
    pub open spec fn step_length(self) -> u64 {
        match self.basis {
            Basis::Time(interval) => interval,
            Basis::Tick(aggregation) => aggregation as u64,
        }
    }

    /// What the crosshair marks can be counted.
    pub open spec fn crosshair_fits(self, size: Size, cursor: Point) -> bool {
        self.crosshair_steps(size, cursor) * self.step_length() <= u64::MAX
    }

    /// How far to the right in the area the crosshair's vertical line lies.
    pub open spec fn interval_ratio(self, size: Size, cursor: Point) -> Single {
        match self.basis {
            Basis::Time(interval) => {
                let (earliest, latest) = self.shown_times(size);
                let time = (self.crosshair_steps(size, cursor) * interval) as u64;
                Double::from_u64(time).minus(earliest).over(latest.minus(earliest)).to_single()
            },
            Basis::Tick(_) => {
                let region = self.visible_region(size);
                self.crosshair_cell(size, cursor).times(self.cell_width).minus(region.x).over(
                    region.x.plus(region.width).minus(region.x),
                )
            },
        }
    }

    /// The crosshair of a pointer whose price, rounded to a tick, is `rounded_price`.
    pub open spec fn crosshair_at(
        self,
        size: Size,
        cursor: Point,
        rounded_price: Single,
    ) -> Crosshair {
        Crosshair {
            horizontal: line_at_height(size, self.price_ratio(size, rounded_price)),
            vertical: line_at_width(size, self.interval_ratio(size, cursor)),
            price: rounded_price,
            interval: (self.crosshair_steps(size, cursor) * self.step_length()) as u64,
        }
    }
}

impl CommonChartData {
    /// The price under the pointer, before it is rounded to a tick.
    pub fn crosshair_price(&self, bounds: Size, cursor_position: Point) -> (r: Single)
        ensures
            r == self@.crosshair_price(bounds, cursor_position),
    {
        let region = self.visible_region(bounds);
        let highest = self.y_to_price(region.y);
        let lowest = self.y_to_price(region.y.plus(region.height));
        let crosshair_ratio = cursor_position.y.over(bounds.height);
        highest.plus(crosshair_ratio.times(lowest.minus(highest)))
    }

    fn crosshair_cell(&self, bounds: Size, cursor_position: Point) -> (r: Single)
        ensures
            r == self@.crosshair_cell(bounds, cursor_position),
    {
        let region = self.visible_region(bounds);
        let crosshair_ratio = cursor_position.x.over(bounds.width);
        let crosshair_pos = region.x.plus(crosshair_ratio.times(region.width));
        crosshair_pos.over(self.cell_width).round()
    }

    fn crosshair_steps(&self, bounds: Size, cursor_position: Point) -> (r: u64)
        ensures
            r == self@.crosshair_steps(bounds, cursor_position),
    {
        match self.basis {
            Basis::Time(interval) => {
                let region = self.visible_region(bounds);
                let earliest = Double::from_u64(self.x_to_interval(region.x));
                let latest = Double::from_u64(self.x_to_interval(region.x.plus(region.width)));
                let crosshair_ratio = cursor_position.x.over(bounds.width).to_double();
                let crosshair_millis = earliest.plus(
                    crosshair_ratio.times(latest.minus(earliest)),
                );
                crosshair_millis.over(Double::from_u64(interval)).round().to_u64()
            },
            Basis::Tick(_) => self.crosshair_cell(bounds, cursor_position).neg().to_u64(),
        }
    }

    /// Whether the time or the number of trades that the crosshair marks can be counted.
    pub fn crosshair_fits(&self, bounds: Size, cursor_position: Point) -> (r: bool)
        ensures
            r == self@.crosshair_fits(bounds, cursor_position),
    {
        let steps: u64 = self.crosshair_steps(bounds, cursor_position);
        let step: u64 = match self.basis {
            Basis::Time(interval) => interval,
            Basis::Tick(aggregation) => aggregation as u64,
        };
        steps.checked_mul(step).is_some()
    }

    /// The crosshair of a pointer, given the price under it rounded to a tick.
    pub fn draw_crosshair(
        &self,
        bounds: Size,
        cursor_position: Point,
        rounded_price: Single,
    ) -> (r: Crosshair)
        requires
            self@.crosshair_fits(bounds, cursor_position),
        ensures
            r == self@.crosshair_at(bounds, cursor_position, rounded_price),
    {
        let region = self.visible_region(bounds);
        // Horizontal price line
        let highest = self.y_to_price(region.y);
        let lowest = self.y_to_price(region.y.plus(region.height));
        let price_ratio = rounded_price.minus(highest).over(lowest.minus(highest));
        let horizontal = line_at_height(bounds, price_ratio);
        // Vertical time/tick line
        let steps: u64 = self.crosshair_steps(bounds, cursor_position);
        match self.basis {
            Basis::Time(interval) => {
                let earliest = Double::from_u64(self.x_to_interval(region.x));
                let latest = Double::from_u64(self.x_to_interval(region.x.plus(region.width)));
                let rounded_timestamp: u64 = steps * interval;
                let snap_ratio = Double::from_u64(rounded_timestamp).minus(earliest).over(
                    latest.minus(earliest),
                ).to_single();
                Crosshair {
                    horizontal,
                    vertical: line_at_width(bounds, snap_ratio),
                    price: rounded_price,
                    interval: rounded_timestamp,
                }
            },
            Basis::Tick(aggregation) => {
                let chart_x_min = region.x;
                let chart_x_max = region.x.plus(region.width);
                let snapped_crosshair = self.crosshair_cell(bounds, cursor_position).times(
                    self.cell_width,
                );
                let snap_ratio = snapped_crosshair.minus(chart_x_min).over(
                    chart_x_max.minus(chart_x_min),
                );
                Crosshair {
                    horizontal,
                    vertical: line_at_width(bounds, snap_ratio),
                    price: rounded_price,
                    interval: steps * aggregation as u64,
                }
            },
        }
    }
}

} // verus!
