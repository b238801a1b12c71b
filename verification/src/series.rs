//! The latest data of a chart, and where the chart goes to show them.
use crate::constants::{EPSILON, TWO, ZERO};
use crate::float::single::Single;
use crate::state::{ChartState, CommonChartData};
use vstd::prelude::*;

verus! {

/// The prices of one cell.
#[derive(Clone, Copy, Debug, PartialEq, Eq, Structural)]
pub struct Kline {
    pub high: Single,
    pub low: Single,
    pub close: Single,
}

/// The latest prices of a chart, by what its cells stand for.
#[derive(Clone, Copy, Debug, PartialEq, Eq, Structural)]
pub enum ChartData {
    TimeBased(Option<Kline>),
    TickBased(Option<Kline>),
}

impl ChartState {
    /// The vertical translation that shows a cell: its middle in the middle of the chart, or, where
    /// its close would be out of sight, its close one cell inside the nearer edge.
    pub open spec fn target_y(self, kline: Kline) -> Single {
        let low = self.price_to_y(kline.low);
        let high = self.price_to_y(kline.high);
        let close = self.price_to_y(kline.close);
        let middle = low.plus(high).neg().over(Single { bits: TWO });
        let half = self.bounds.height.over(self.scaling).over(Single { bits: TWO });
        if !(self.bounds.height.gt(Single { bits: EPSILON }) && self.scaling.gt(
            Single { bits: EPSILON },
        )) {
            middle
        } else if close.lt(middle.neg().minus(half)) {
            close.minus(self.cell_height).plus(half).neg()
        } else if close.gt(middle.neg().plus(half)) {
            close.plus(self.cell_height).minus(half).neg()
        } else {
            middle
        }
    }
}

impl ChartData {
    pub open spec fn latest(self) -> Option<Kline> {
        match self {
            ChartData::TimeBased(kline) => kline,
            ChartData::TickBased(kline) => kline,
        }
    }

    /// The vertical translation that shows the latest cell; zero where there is none.
    pub fn latest_y_midpoint(&self, chart: &CommonChartData) -> (r: Single)
        ensures
            r == match self.latest() {
                Some(kline) => chart@.target_y(kline),
                None => Single { bits: ZERO },
            },
            match *self {
                ChartData::TimeBased(Some(kline)) => r == chart@.target_y(kline),
                ChartData::TickBased(Some(kline)) => r == chart@.target_y(kline),
                ChartData::TimeBased(None) => r.key() == 0 && r.is_finite(),
                ChartData::TickBased(None) => r.key() == 0 && r.is_finite(),
            },
    {
        proof {
            Single::lemma_zero_key();
        }
        let latest = match self {
            ChartData::TimeBased(kline) => kline,
            ChartData::TickBased(kline) => kline,
        };
        match latest {
            Some(kline) => calculate_target_y(chart, *kline),
            None => Single { bits: ZERO },
        }
    }
}

/// The vertical translation that shows a cell.
pub fn calculate_target_y(chart: &CommonChartData, kline: Kline) -> (r: Single)
    ensures
        r == chart@.target_y(kline),
{
    let y_low = chart.price_to_y(kline.low);
    let y_high = chart.price_to_y(kline.high);
    let y_close = chart.price_to_y(kline.close);
    let mut target_y_translation = y_low.plus(y_high).neg().over(Single { bits: TWO });
    if chart.bounds.height.gt(Single { bits: EPSILON }) && chart.scaling.gt(
        Single { bits: EPSILON },
    ) {
        let visible_half_height = chart.bounds.height.over(chart.scaling).over(Single { bits: TWO });
        let view_center_y_centered = target_y_translation.neg();
        let visible_y_top = view_center_y_centered.minus(visible_half_height);
        let visible_y_bottom = view_center_y_centered.plus(visible_half_height);
        let padding = chart.cell_height;
        if y_close.lt(visible_y_top) {
            target_y_translation = y_close.minus(padding).plus(visible_half_height).neg();
        } else if y_close.gt(visible_y_bottom) {
            target_y_translation = y_close.plus(padding).minus(visible_half_height).neg();
        }
    }
    target_y_translation
}

} // verus!
