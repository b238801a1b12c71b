//! What is shown of a chart.
use crate::chart::{listed, Chart};
use crate::float::single::Single;
use crate::geometry::Rectangle;
use crate::label::MAX_DECIMALS;
use crate::message::{AxisScaleClicked, Message};
use crate::state::{Basis, ChartState, PriceInfoLabel};
use vstd::prelude::*;

verus! {

/// What the labels of the horizontal axis are made from.
#[derive(Debug)]
pub struct AxisLabelsX {
    pub scaling: Single,
    pub translation_x: Single,
    pub max: u64,
    pub crosshair: bool,
    pub basis: Basis,
    pub cell_width: Single,
    pub chart_bounds: Rectangle,
    pub interval_keys: Option<Vec<u64>>,
}

/// What the labels of the vertical axis are made from.
#[derive(Clone, Copy, Debug, PartialEq, Eq, Structural)]
pub struct AxisLabelsY {
    pub translation_y: Single,
    pub scaling: Single,
    pub decimals: usize,
    pub min: Single,
    pub last_price: Option<PriceInfoLabel>,
    pub crosshair: bool,
    pub tick_size: Single,
    pub cell_height: Single,
    pub basis: Basis,
    pub chart_bounds: Rectangle,
}

/// What of a chart can be pressed or double-clicked.
#[derive(Clone, Copy, Debug, PartialEq, Eq, Structural)]
pub enum Control {
    /// The button that centers the latest data.
    Center,
    /// The button of the crosshair.
    Crosshair,
    /// The labels of the horizontal axis.
    LabelsX,
    /// The labels of the vertical axis.
    LabelsY,
}

/// What is shown above each other.
#[derive(Clone, Copy, Debug, PartialEq, Eq, Structural)]
pub enum Panel {
    /// The chart with the labels of its vertical axis.
    Chart,
    /// The indicator with this index.
    Indicator(usize),
}

/// What is shown of a chart that has data.
#[derive(Debug)]
pub struct ChartPanels {
    pub axis_labels_x: AxisLabelsX,
    pub axis_labels_y: AxisLabelsY,
    pub y_labels_width: Single,
    /// Whether the button that centers the latest data is lit.
    pub centered: bool,
    /// Whether the button of the crosshair is lit.
    pub crosshair: bool,
    /// The chart and its indicators, from top to bottom.
    pub panels: Vec<Panel>,
    /// Where the chart and its indicators are split, where there are indicators.
    pub splits: Option<Vec<Single>>,
}

/// What is shown of a chart.
#[derive(Debug)]
pub enum ChartView {
    /// There is nothing to show yet.
    Waiting,
    Shown(ChartPanels),
}

impl AxisLabelsX {
    /// The labels belong to this state and these keys.
    pub open spec fn shows(self, state: ChartState, keys: Option<Seq<u64>>) -> bool {
        &&& self.scaling == state.scaling
        &&& self.translation_x == state.translation.x
        &&& self.max == state.latest_x
        &&& self.crosshair == state.crosshair
        &&& self.basis == state.basis
        &&& self.cell_width == state.cell_width
        &&& self.chart_bounds == state.bounds
        &&& listed(self.interval_keys) == keys
    }
}

impl AxisLabelsY {
    pub open spec fn of(state: ChartState) -> AxisLabelsY {
        AxisLabelsY {
            translation_y: state.translation.y,
            scaling: state.scaling,
            decimals: state.decimals,
            min: state.base_price_y,
            last_price: state.last_price,
            crosshair: state.crosshair,
            tick_size: state.tick_size,
            cell_height: state.cell_height,
            basis: state.basis,
            chart_bounds: state.bounds,
        }
    }
}

/// What pressing or double-clicking a part of the chart sends.
pub fn message_of(control: Control) -> (r: Message)
    ensures
        r == match control {
            Control::Center => Message::AutoscaleToggle,
            Control::Crosshair => Message::CrosshairToggle,
            Control::LabelsX => Message::DoubleClick(AxisScaleClicked::X),
            Control::LabelsY => Message::DoubleClick(AxisScaleClicked::Y),
        },
{
    match control {
        Control::Center => Message::AutoscaleToggle,
        Control::Crosshair => Message::CrosshairToggle,
        Control::LabelsX => Message::DoubleClick(AxisScaleClicked::X),
        Control::LabelsY => Message::DoubleClick(AxisScaleClicked::Y),
    }
}

/// What dragging a split to a position sends.
pub fn split_message(index: usize, position: Single) -> (r: Message)
    ensures
        r == Message::SplitDragged(index, position),
{
    Message::SplitDragged(index, position)
}

/// The chart comes first, then its indicators in their order.
pub open spec fn panel_order(indicators: usize) -> Seq<Panel> {
    Seq::new(
        (indicators + 1) as nat,
        |i: int|
            if i == 0 {
                Panel::Chart
            } else {
                Panel::Indicator((i - 1) as usize)
            },
    )
}

/// What is shown above each other of a chart with so many indicators.
pub fn panels_of(indicators: usize) -> (r: Vec<Panel>)
    ensures
        r@ == panel_order(indicators),
        r@.len() == indicators + 1,
        r@[0] is Chart,
        forall|i: usize| i < indicators ==> #[trigger] r@[i + 1] == Panel::Indicator(i),
{
    let mut panels: Vec<Panel> = Vec::new();
    panels.push(Panel::Chart);
    let mut i: usize = 0;
    while i < indicators
        invariant
            i <= indicators,
            panels@ =~= panel_order(i),
        decreases indicators - i,
    {
        panels.push(Panel::Indicator(i));
        i = i + 1;
    }
    panels
}

/// What is shown of a chart: nothing before it has data; after that the chart with the labels of
/// both axes, above its indicators and split from them where it has any.
pub fn view<T: Chart>(chart: &T, indicators: usize) -> (r: ChartView)
    requires
        !chart.has_no_data() ==> chart.data()@.decimals <= MAX_DECIMALS,
    ensures
        match r {
            ChartView::Waiting => chart.has_no_data(),
            ChartView::Shown(panels) => {
                &&& !chart.has_no_data()
                &&& panels.axis_labels_x.shows(chart.data()@, listed(chart.keys()))
                &&& panels.axis_labels_y == AxisLabelsY::of(chart.data()@)
                &&& panels.axis_labels_x.scaling == chart.data().scaling
                &&& panels.axis_labels_x.translation_x == chart.data().translation.x
                &&& panels.axis_labels_x.max == chart.data().latest_x
                &&& panels.axis_labels_x.crosshair == chart.data().crosshair
                &&& panels.axis_labels_x.basis == chart.data().basis
                &&& panels.axis_labels_x.cell_width == chart.data().cell_width
                &&& panels.axis_labels_x.chart_bounds == chart.data().bounds
                &&& listed(panels.axis_labels_x.interval_keys) == listed(chart.keys())
                &&& panels.axis_labels_y.translation_y == chart.data().translation.y
                &&& panels.axis_labels_y.scaling == chart.data().scaling
                &&& panels.axis_labels_y.decimals == chart.data().decimals
                &&& panels.axis_labels_y.min == chart.data().base_price_y
                &&& panels.axis_labels_y.last_price == chart.data().last_price
                &&& panels.axis_labels_y.crosshair == chart.data().crosshair
                &&& panels.axis_labels_y.tick_size == chart.data().tick_size
                &&& panels.axis_labels_y.cell_height == chart.data().cell_height
                &&& panels.axis_labels_y.basis == chart.data().basis
                &&& panels.axis_labels_y.chart_bounds == chart.data().bounds
                &&& panels.y_labels_width == chart.data()@.y_labels_width()
                &&& panels.centered == chart.data()@.autoscale
                &&& panels.crosshair == chart.data()@.crosshair
                &&& panels.panels@ == panel_order(indicators)
                &&& panels.panels@.len() == indicators + 1
                &&& panels.panels@[0] is Chart
                &&& forall|i: usize|
                    i < indicators ==> #[trigger] panels.panels@[i + 1] == Panel::Indicator(i)
                &&& match panels.splits {
                    Some(splits) => indicators > 0 && splits@ == chart.data()@.splits,
                    None => indicators == 0,
                }
            },
        },
{
    let state = chart.common_data();
    if chart.is_empty() {
        return ChartView::Waiting;
    }
    let axis_labels_x = AxisLabelsX {
        scaling: state.scaling,
        translation_x: state.translation.x,
        max: state.latest_x,
        crosshair: state.crosshair,
        basis: state.basis,
        cell_width: state.cell_width,
        chart_bounds: state.bounds,
        interval_keys: chart.interval_keys(),
    };
    let axis_labels_y = AxisLabelsY {
        translation_y: state.translation.y,
        scaling: state.scaling,
        decimals: state.decimals,
        min: state.base_price_y,
        last_price: state.last_price,
        crosshair: state.crosshair,
        tick_size: state.tick_size,
        cell_height: state.cell_height,
        basis: state.basis,
        chart_bounds: state.bounds,
    };
    let splits = if indicators > 0 {
        let splits = state.splits.clone();
        assert(splits@ =~= state.splits@);
        Some(splits)
    } else {
        None
    };
    ChartView::Shown(
        ChartPanels {
            axis_labels_x,
            axis_labels_y,
            y_labels_width: state.y_labels_width(),
            centered: state.autoscale,
            crosshair: state.crosshair,
            panels: panels_of(indicators),
            splits,
        },
    )
}

} // verus!
