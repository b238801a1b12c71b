//! How messages change a chart.
use crate::chart::{limits_of, Chart, ChartLimits};
use crate::constants::{HUNDRED, ONE, THREE, TWO, ZERO, ZOOM_SENSITIVITY};
use crate::float::single::Single;
use crate::geometry::{Rectangle, Vector};
use crate::message::{AxisScaleClicked, Message};
use crate::state::{Basis, ChartState, CommonChartData};
use vstd::prelude::*;

verus! {

/// How far one has to scroll or drag to change a size by as much again: three times as far by
/// dragging as by the wheel.
pub open spec fn spec_zoom_factor(is_wheel_scroll: bool) -> Single {
    if is_wheel_scroll {
        Single { bits: ZOOM_SENSITIVITY }
    } else {
        Single { bits: ZOOM_SENSITIVITY }.times(Single { bits: THREE })
    }
}

#[verifier::when_used_as_spec(spec_zoom_factor)]
pub fn zoom_factor(is_wheel_scroll: bool) -> (r: Single)
    ensures
        r == zoom_factor(is_wheel_scroll),
{
    if is_wheel_scroll {
        Single { bits: ZOOM_SENSITIVITY }
    } else {
        Single { bits: ZOOM_SENSITIVITY }.times(Single { bits: THREE })
    }
}

/// A size can change by `delta`: there is room in that direction.
pub open spec fn spec_can_zoom(size: Single, delta: Single, min: Single, max: Single) -> bool {
    ||| delta.lt(Single { bits: ZERO }) && size.gt(min)
    ||| delta.gt(Single { bits: ZERO }) && size.lt(max)
}

#[verifier::when_used_as_spec(spec_can_zoom)]
pub fn can_zoom(size: Single, delta: Single, min: Single, max: Single) -> (r: bool)
    ensures
        r == can_zoom(size, delta, min, max),
{
    (delta.lt(Single { bits: ZERO }) && size.gt(min)) || (delta.gt(Single { bits: ZERO })
        && size.lt(max))
}

/// A size after a change by `delta`, within its limits.
pub open spec fn spec_zoomed(
    size: Single,
    delta: Single,
    is_wheel_scroll: bool,
    min: Single,
    max: Single,
) -> Single {
    size.times(Single { bits: ONE }.plus(delta.over(zoom_factor(is_wheel_scroll)))).clamp(min, max)
}

#[verifier::when_used_as_spec(spec_zoomed)]
pub fn zoomed(size: Single, delta: Single, is_wheel_scroll: bool, min: Single, max: Single) -> (r:
    Single)
    requires
        min.le(max),
    ensures
        r == zoomed(size, delta, is_wheel_scroll, min, max),
{
    size.times(Single { bits: ONE }.plus(delta.over(zoom_factor(is_wheel_scroll)))).clamp(min, max)
}

/// A position rounded to hundredths.
pub open spec fn spec_hundredths(size: Single) -> Single {
    size.times(Single { bits: HUNDRED }).round().over(Single { bits: HUNDRED })
}

#[verifier::when_used_as_spec(spec_hundredths)]
pub fn hundredths(size: Single) -> (r: Single)
    ensures
        r == hundredths(size),
{
    size.times(Single { bits: HUNDRED }).round().over(Single { bits: HUNDRED })
}

impl ChartState {
    /// Where a horizontal coordinate comes to lie when the cells get the width `width`.
    pub open spec fn relocated_x(self, x: Single, width: Single) -> Single {
        match self.basis {
            Basis::Time(_) => (ChartState { cell_width: width, ..self }).interval_to_x(
                self.x_to_interval(x),
            ),
            Basis::Tick(_) => x.over(self.cell_width).times(width),
        }
    }

    /// Where a vertical coordinate comes to lie when the cells get the height `height`.
    pub open spec fn relocated_y(self, y: Single, height: Single) -> Single {
        (ChartState { cell_height: height, ..self }).price_to_y(self.y_to_price(y))
    }

    /// The width of the cells changes. By the wheel, or when the latest data are out of sight, the
    /// chart moves so that what is under the pointer stays there.
    pub open spec fn x_scaled(
        self,
        limits: ChartLimits,
        delta: Single,
        cursor_to_center_x: Single,
        is_wheel_scroll: bool,
    ) -> ChartState {
        if !can_zoom(self.cell_width, delta, limits.min_cell_width, limits.max_cell_width) {
            self
        } else {
            let width = zoomed(
                self.cell_width,
                delta,
                is_wheel_scroll,
                limits.min_cell_width,
                limits.max_cell_width,
            );
            if is_wheel_scroll || !self.is_interval_x_visible(self.interval_to_x(self.latest_x)) {
                let cursor = cursor_to_center_x.over(self.scaling).minus(self.translation.x);
                let moved = self.relocated_x(cursor, width);
                ChartState {
                    cell_width: width,
                    translation: if moved.is_nan() || cursor.is_nan() {
                        self.translation
                    } else {
                        Vector {
                            x: self.translation.x.minus(moved.minus(cursor)),
                            y: self.translation.y,
                        }
                    },
                    autoscale: false,
                    ..self
                }
            } else {
                ChartState { cell_width: width, ..self }
            }
        }
    }

    /// The height of the cells changes, and the chart moves so that what is under the pointer stays
    /// there.
    pub open spec fn y_scaled(
        self,
        limits: ChartLimits,
        delta: Single,
        cursor_to_center_y: Single,
        is_wheel_scroll: bool,
    ) -> ChartState {
        if !can_zoom(self.cell_height, delta, limits.min_cell_height, limits.max_cell_height) {
            self
        } else {
            let height = zoomed(
                self.cell_height,
                delta,
                is_wheel_scroll,
                limits.min_cell_height,
                limits.max_cell_height,
            );
            let cursor = cursor_to_center_y.over(self.scaling).minus(self.translation.y);
            let moved = self.relocated_y(cursor, height);
            ChartState {
                cell_height: height,
                translation: Vector {
                    x: self.translation.x,
                    y: self.translation.y.minus(moved.minus(cursor)),
                },
                autoscale: self.autoscale && !is_wheel_scroll,
                ..self
            }
        }
    }

    /// The chart is drawn elsewhere. Where it does not follow its data, it moves by as much as its
    /// middle.
    pub open spec fn rebounded(self, bounds: Rectangle) -> ChartState {
        let two = Single { bits: TWO };
        let shift = bounds.width.over(two).minus(self.bounds.width.over(two)).over(self.scaling);
        ChartState {
            bounds,
            translation: if self.autoscale {
                self.translation
            } else {
                Vector { x: self.translation.x.plus(shift), y: self.translation.y }
            },
            ..self
        }
    }

    /// What a message makes of the state.
    pub open spec fn updated(self, limits: ChartLimits, message: Message) -> ChartState {
        match message {
            Message::DoubleClick(AxisScaleClicked::X) => ChartState {
                cell_width: limits.default_cell_width,
                ..self
            },
            Message::DoubleClick(AxisScaleClicked::Y) => ChartState { autoscale: true, ..self },
            Message::Translated(translation) => ChartState {
                translation,
                autoscale: false,
                ..self
            },
            Message::Scaled(scaling, translation) => ChartState {
                scaling,
                translation,
                autoscale: false,
                ..self
            },
            Message::AutoscaleToggle => ChartState {
                autoscale: !self.autoscale,
                scaling: if self.autoscale {
                    self.scaling
                } else {
                    Single { bits: ONE }
                },
                ..self
            },
            Message::CrosshairToggle => ChartState { crosshair: !self.crosshair, ..self },
            Message::XScaling(delta, cursor_to_center_x, is_wheel_scroll) => self.x_scaled(
                limits,
                delta,
                cursor_to_center_x,
                is_wheel_scroll,
            ),
            Message::YScaling(delta, cursor_to_center_y, is_wheel_scroll) => self.y_scaled(
                limits,
                delta,
                cursor_to_center_y,
                is_wheel_scroll,
            ),
            Message::BoundsChanged(bounds) => self.rebounded(bounds),
            Message::SplitDragged(split, size) => {
                if split < self.splits.len() {
                    ChartState {
                        splits: self.splits.update(split as int, hundredths(size)),
                        ..self
                    }
                } else {
                    self
                }
            },
            Message::CrosshairMoved => self,
        }
    }

    /// A message that changes the size of the cells can be applied only where the limits of that
    /// size are in order.
    pub open spec fn accepts(self, limits: ChartLimits, message: Message) -> bool {
        match message {
            Message::XScaling(delta, _, _) => can_zoom(
                self.cell_width,
                delta,
                limits.min_cell_width,
                limits.max_cell_width,
            ) ==> limits.min_cell_width.le(limits.max_cell_width),
            Message::YScaling(delta, _, _) => can_zoom(
                self.cell_height,
                delta,
                limits.min_cell_height,
                limits.max_cell_height,
            ) ==> limits.min_cell_height.le(limits.max_cell_height),
            _ => true,
        }
    }
}

impl CommonChartData {
    /// Whether a message can be applied under these limits.
    pub fn accepts(&self, limits: &ChartLimits, message: Message) -> (r: bool)
        ensures
            r == self@.accepts(*limits, message),
    {
        match message {
            Message::XScaling(delta, _, _) => !can_zoom(
                self.cell_width,
                delta,
                limits.min_cell_width,
                limits.max_cell_width,
            ) || limits.min_cell_width.le(limits.max_cell_width),
            Message::YScaling(delta, _, _) => !can_zoom(
                self.cell_height,
                delta,
                limits.min_cell_height,
                limits.max_cell_height,
            ) || limits.min_cell_height.le(limits.max_cell_height),
            _ => true,
        }
    }

    fn scale_x(
        &mut self,
        limits: &ChartLimits,
        delta: Single,
        cursor_to_center_x: Single,
        is_wheel_scroll: bool,
    )
        requires
            old(self)@.accepts(
                *limits,
                Message::XScaling(delta, cursor_to_center_x, is_wheel_scroll),
            ),
        ensures
            final(self)@ == old(self)@.x_scaled(*limits, delta, cursor_to_center_x, is_wheel_scroll),
    {
        if can_zoom(self.cell_width, delta, limits.min_cell_width, limits.max_cell_width) {
            let new_width = zoomed(
                self.cell_width,
                delta,
                is_wheel_scroll,
                limits.min_cell_width,
                limits.max_cell_width,
            );
            let latest_x = self.interval_to_x(self.latest_x);
            let is_interval_x_visible = self.is_interval_x_visible(latest_x);
            let follows_cursor = is_wheel_scroll || !is_interval_x_visible;
            let anchor = if follows_cursor {
                cursor_to_center_x
            } else {
                latest_x
            };
            let cursor_chart_x = anchor.over(self.scaling).minus(self.translation.x);
            let new_cursor_x = match self.basis {
                Basis::Time(_) => {
                    let cursor_time: u64 = self.x_to_interval(cursor_chart_x);
                    self.cell_width = new_width;
                    self.interval_to_x(cursor_time)
                },
                Basis::Tick(_) => {
                    let tick_index = cursor_chart_x.over(self.cell_width);
                    self.cell_width = new_width;
                    tick_index.times(self.cell_width)
                },
            };
            if follows_cursor {
                if !new_cursor_x.is_nan() && !cursor_chart_x.is_nan() {
                    self.translation.x = self.translation.x.minus(
                        new_cursor_x.minus(cursor_chart_x),
                    );
                }
                self.autoscale = false;
            }
        }
    }

    fn scale_y(
        &mut self,
        limits: &ChartLimits,
        delta: Single,
        cursor_to_center_y: Single,
        is_wheel_scroll: bool,
    )
        requires
            old(self)@.accepts(
                *limits,
                Message::YScaling(delta, cursor_to_center_y, is_wheel_scroll),
            ),
        ensures
            final(self)@ == old(self)@.y_scaled(*limits, delta, cursor_to_center_y, is_wheel_scroll),
    {
        if can_zoom(self.cell_height, delta, limits.min_cell_height, limits.max_cell_height) {
            let new_height = zoomed(
                self.cell_height,
                delta,
                is_wheel_scroll,
                limits.min_cell_height,
                limits.max_cell_height,
            );
            let cursor_chart_y = cursor_to_center_y.over(self.scaling).minus(self.translation.y);
            let cursor_price = self.y_to_price(cursor_chart_y);
            self.cell_height = new_height;
            let new_cursor_y = self.price_to_y(cursor_price);
            self.translation.y = self.translation.y.minus(new_cursor_y.minus(cursor_chart_y));
            if is_wheel_scroll {
                self.autoscale = false;
            }
        }
    }

    /// Applies a message to the state.
    pub fn apply(&mut self, limits: &ChartLimits, message: Message)
        requires
            old(self)@.accepts(*limits, message),
        ensures
            final(self)@ == old(self)@.updated(*limits, message),
    {
        match message {
            Message::DoubleClick(scale) => match scale {
                AxisScaleClicked::X => {
                    self.cell_width = limits.default_cell_width;
                },
                AxisScaleClicked::Y => {
                    self.autoscale = true;
                },
            },
            Message::Translated(translation) => {
                self.translation = translation;
                self.autoscale = false;
            },
            Message::Scaled(scaling, translation) => {
                self.scaling = scaling;
                self.translation = translation;
                self.autoscale = false;
            },
            Message::AutoscaleToggle => {
                self.autoscale = !self.autoscale;
                if self.autoscale {
                    self.scaling = Single { bits: ONE };
                }
            },
            Message::CrosshairToggle => {
                self.crosshair = !self.crosshair;
            },
            Message::XScaling(delta, cursor_to_center_x, is_wheel_scroll) => {
                self.scale_x(limits, delta, cursor_to_center_x, is_wheel_scroll);
            },
            Message::YScaling(delta, cursor_to_center_y, is_wheel_scroll) => {
                self.scale_y(limits, delta, cursor_to_center_y, is_wheel_scroll);
            },
            Message::BoundsChanged(bounds) => {
                // calculate how center shifted
                let old_center_x = self.bounds.width.over(Single { bits: TWO });
                let new_center_x = bounds.width.over(Single { bits: TWO });
                let center_delta_x = new_center_x.minus(old_center_x).over(self.scaling);
                self.bounds = bounds;
                if !self.autoscale {
                    self.translation.x = self.translation.x.plus(center_delta_x);
                }
            },
            Message::SplitDragged(split, size) => {
                if split < self.splits.len() {
                    self.splits.set(split, hundredths(size));
                }
            },
            Message::CrosshairMoved => {},
        }
    }
}

/// Applies a message to a chart, and tells the chart that its state has changed.
pub fn update<T: Chart>(chart: &mut T, message: Message)
    requires
        old(chart).data()@.accepts(old(chart).limits(), message),
    ensures
        exists|data: CommonChartData| #[trigger]
            data@ == old(chart).data()@.updated(old(chart).limits(), message) && T::invalidated(
                old(chart).with_data(data),
                *final(chart),
            ),
{
    let limits = limits_of(chart);
    let state = chart.common_data_mut();
    state.apply(&limits, message);
    chart.invalidate();
}

} // verus!
