//! What a chart has to offer.
use crate::float::single::Single;
use crate::geometry::Vector;
use crate::state::CommonChartData;
use vstd::prelude::*;

verus! {

/// How far a chart can be zoomed.
#[derive(Clone, Copy, Debug, PartialEq, Eq, Structural)]
pub struct ChartLimits {
    pub min_scaling: Single,
    pub max_scaling: Single,
    pub max_cell_width: Single,
    pub min_cell_width: Single,
    pub max_cell_height: Single,
    pub min_cell_height: Single,
    pub default_cell_width: Single,
}

/// How far a kind of chart can be zoomed.
pub trait ChartConstants: Sized {
    spec fn limits(&self) -> ChartLimits;

    fn min_scaling(&self) -> (r: Single)
        ensures
            r == self.limits().min_scaling,
    ;

    fn max_scaling(&self) -> (r: Single)
        ensures
            r == self.limits().max_scaling,
    ;

    fn max_cell_width(&self) -> (r: Single)
        ensures
            r == self.limits().max_cell_width,
    ;

    fn min_cell_width(&self) -> (r: Single)
        ensures
            r == self.limits().min_cell_width,
    ;

    fn max_cell_height(&self) -> (r: Single)
        ensures
            r == self.limits().max_cell_height,
    ;

    fn min_cell_height(&self) -> (r: Single)
        ensures
            r == self.limits().min_cell_height,
    ;

    fn default_cell_width(&self) -> (r: Single)
        ensures
            r == self.limits().default_cell_width,
    ;
}

/// The keys in a list, where there is one.
pub open spec fn listed(keys: Option<Vec<u64>>) -> Option<Seq<u64>> {
    match keys {
        Some(keys) => Some(keys@),
        None => None,
    }
}

/// A chart: its shared state, and what its data say about what is shown.
pub trait Chart: ChartConstants {
    spec fn data(&self) -> CommonChartData;

    /// The chart with another shared state.
    spec fn with_data(self, data: CommonChartData) -> Self;

    /// What a chart can be after it was told that its state has changed.
    spec fn invalidated(before: Self, after: Self) -> bool;

    /// The keys of the intervals that hold data, where they are kept by keys.
    spec fn keys(&self) -> Option<Vec<u64>>;

    spec fn has_no_data(&self) -> bool;

    fn common_data(&self) -> (r: &CommonChartData)
        ensures
            *r == self.data(),
    ;

    fn common_data_mut(&mut self) -> (r: &mut CommonChartData)
        ensures
            *r == old(self).data(),
            *final(self) == old(self).with_data(*final(r)),
    ;

    fn invalidate(&mut self)
        ensures
            Self::invalidated(*old(self), *final(self)),
    ;

    fn visible_timerange(&self) -> (u64, u64);

    fn interval_keys(&self) -> (r: Option<Vec<u64>>)
        ensures
            listed(r) == listed(self.keys()),
    ;

    fn autoscaled_coords(&self) -> Vector;

    fn is_empty(&self) -> (r: bool)
        ensures
            r == self.has_no_data(),
    ;
}

/// The limits of a chart, read one by one.
pub fn limits_of<T: ChartConstants>(chart: &T) -> (r: ChartLimits)
    ensures
        r == chart.limits(),
{
    ChartLimits {
        min_scaling: chart.min_scaling(),
        max_scaling: chart.max_scaling(),
        max_cell_width: chart.max_cell_width(),
        min_cell_width: chart.min_cell_width(),
        max_cell_height: chart.max_cell_height(),
        min_cell_height: chart.min_cell_height(),
        default_cell_width: chart.default_cell_width(),
    }
}

} // verus!
