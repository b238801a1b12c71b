//! What messages undo, and what they leave alone.
use crate::chart::ChartLimits;
use crate::constants::{CHAR_ASPECT, MIN_LABELS_WIDTH, ONE, TEXT_SIZE, TWO, ZERO};
use crate::float::accuracy::lemma_near_unscaled;
use crate::float::arith::abs;
use crate::float::grid::{lemma_unit_pos, lemma_unit_shift, unit};
use crate::float::rounding::Parts;
use crate::float::single::Single;
use crate::geometry::{Rectangle, Vector};
use crate::label::label_len;
use crate::message::{AxisScaleClicked, Message};
use crate::state::ChartState;
use vstd::arithmetic::power2::lemma2_to64;
use vstd::prelude::*;

verus! {

/// Toggling the crosshair twice changes nothing.
pub proof fn law_crosshair_toggles_back(s: ChartState, limits: ChartLimits)
    ensures
        s.updated(limits, Message::CrosshairToggle).updated(limits, Message::CrosshairToggle) == s,
{
}

/// Toggling autoscale twice changes nothing but the scaling, which is one afterwards.
pub proof fn law_autoscale_toggles_back(s: ChartState, limits: ChartLimits)
    ensures
        s.updated(limits, Message::AutoscaleToggle).updated(limits, Message::AutoscaleToggle) == (
        ChartState { scaling: Single { bits: ONE }, ..s }),
{
}

/// A chart starts to follow its data only by its button or by a double click on the price labels.
pub proof fn law_autoscale_is_asked_for(s: ChartState, limits: ChartLimits, message: Message)
    requires
        !s.autoscale,
        s.updated(limits, message).autoscale,
    ensures
        message is AutoscaleToggle || message == Message::DoubleClick(AxisScaleClicked::Y),
{
}

/// Moving the chart by hand makes it stop following its data.
pub proof fn law_moving_ends_autoscale(s: ChartState, limits: ChartLimits, message: Message)
    requires
        message is Translated || message is Scaled,
    ensures
        !s.updated(limits, message).autoscale,
{
}

/// No message changes what the chart shows: its data, their units, how many panels there are.
pub proof fn law_messages_keep_data(s: ChartState, limits: ChartLimits, message: Message)
    ensures
        ({
            let t = s.updated(limits, message);
            &&& t.basis == s.basis
            &&& t.last_price == s.last_price
            &&& t.base_price_y == s.base_price_y
            &&& t.latest_x == s.latest_x
            &&& t.tick_size == s.tick_size
            &&& t.decimals == s.decimals
            &&& t.ticker_info == s.ticker_info
            &&& t.splits.len() == s.splits.len()
            &&& t.cache == s.cache
        }),
{
}

/// A double click on either axis is settled by the first one.
pub proof fn law_double_click_settles(s: ChartState, limits: ChartLimits, axis: AxisScaleClicked)
    ensures
        s.updated(limits, Message::DoubleClick(axis)).updated(limits, Message::DoubleClick(axis))
            == s.updated(limits, Message::DoubleClick(axis)),
{
}

/// A double click on the labels of the horizontal axis gives the cells the width that is usual for this
/// chart, whatever its limits are; one on those of the vertical axis makes the chart follow its data.
/// Neither changes anything else.
pub proof fn law_double_click_resets_its_axis(s: ChartState, limits: ChartLimits)
    ensures
        s.updated(limits, Message::DoubleClick(AxisScaleClicked::X)) == (ChartState {
            cell_width: limits.default_cell_width,
            ..s
        }),
        s.updated(limits, Message::DoubleClick(AxisScaleClicked::Y)) == (ChartState {
            autoscale: true,
            ..s
        }),
{
}

/// A chart that is moved or scaled lies where the message says, at the scaling that it says, and is
/// otherwise as it was, but that it does not follow its data any more.
pub proof fn law_moves_go_where_they_say(
    s: ChartState,
    limits: ChartLimits,
    scaling: Single,
    place: Vector,
)
    ensures
        s.updated(limits, Message::Translated(place)) == (ChartState {
            translation: place,
            autoscale: false,
            ..s
        }),
        s.updated(limits, Message::Scaled(scaling, place)) == (ChartState {
            scaling,
            translation: place,
            autoscale: false,
            ..s
        }),
{
}

/// The button of the crosshair turns it over and nothing else. The button that centers turns over
/// whether the chart follows its data; only where it starts to is the scaling set, to one.
pub proof fn law_buttons_turn_over(s: ChartState, limits: ChartLimits)
    ensures
        s.updated(limits, Message::CrosshairToggle) == (ChartState { crosshair: !s.crosshair, ..s }),
        s.autoscale ==> s.updated(limits, Message::AutoscaleToggle) == (ChartState {
            autoscale: false,
            ..s
        }),
        !s.autoscale ==> {
            let t = s.updated(limits, Message::AutoscaleToggle);
            &&& t == (ChartState { autoscale: true, scaling: t.scaling, ..s })
            &&& t.scaling.is_finite()
            &&& t.scaling.key() == unit(0)
        },
        s.updated(limits, Message::CrosshairMoved) == s,
{
    Single::lemma_one_key();
}

/// Other bounds are taken over as they are. They change nothing else but where the chart lies from left
/// to right, and not even that where it follows its data.
pub proof fn law_bounds_are_taken_over(s: ChartState, limits: ChartLimits, bounds: Rectangle)
    ensures
        ({
            let t = s.updated(limits, Message::BoundsChanged(bounds));
            &&& t == (ChartState { bounds, translation: t.translation, ..s })
            &&& t.translation.y == s.translation.y
            &&& s.autoscale ==> t.translation == s.translation
        }),
{
}

/// A split that is dragged comes to lie at a whole number of hundredths, at most half a hundredth from
/// where it was dragged to, up to rounding.
pub proof fn law_split_takes_nearest_hundredth(
    s: ChartState,
    limits: ChartLimits,
    split: usize,
    size: Single,
) -> (n: int)
    requires
        split < s.splits.len(),
        size.is_finite(),
        size.multiplies(Single { bits: 0x42c8_0000 }),
        ({
            let whole = size.times(Single { bits: 0x42c8_0000 }).round();
            whole.divides(Single { bits: 0x42c8_0000 })
        }),
    ensures
        ({
            let place = s.updated(limits, Message::SplitDragged(split, size)).splits[split as int];
            &&& 0x100_0000 * abs(100 * place.key() - n * unit(0)) <= abs(n * unit(0))
            &&& 0x200_0000 * abs(100 * size.key() - n * unit(0)) <= 0x100_0000 * unit(0) + 200 * abs(
                size.key(),
            )
        }),
{
    let hundred = Single { bits: 0x42c8_0000 };
    let u = unit(0) as int;
    let scaled = size.times(hundred);
    let whole = scaled.round();
    let place = whole.over(hundred);
    lemma_unit_pos(0);
    lemma_hundred_key();
    Single::lemma_times_near(size, hundred);
    let n = scaled.lemma_round_near();
    Single::lemma_over_near(whole, hundred);
    let (x, y, p) = (size.key(), scaled.key(), place.key());
    assert(x * (100 * u) == (100 * x) * u) by (nonlinear_arith);
    lemma_near_unscaled(y, 100 * x, u, 16);
    assert(p * (100 * u) == (100 * p) * u) by (nonlinear_arith);
    lemma_near_unscaled(100 * p, whole.key(), u, 16);
    n
}

proof fn lemma_hundred_key()
    ensures
        (Single { bits: 0x42c8_0000 }).is_finite(),
        (Single { bits: 0x42c8_0000 }).key() == 100 * unit(0),
{
    lemma2_to64();
    lemma_unit_shift(-17, 17);
    assert(13_107_200 * unit(-17) == 100 * (131_072 * unit(-17))) by (nonlinear_arith);
}

/// With limits that are in order, every message can be applied.
pub proof fn law_ordered_limits_accept_everything(
    s: ChartState,
    limits: ChartLimits,
    message: Message,
)
    requires
        limits.min_cell_width.le(limits.max_cell_width),
        limits.min_cell_height.le(limits.max_cell_height),
    ensures
        s.accepts(limits, message),
{
}

/// A message is refused only where it would change the size of the cells, there being room for that, and
/// the limits of that size are not in order.
pub proof fn law_only_zooming_is_refused(s: ChartState, limits: ChartLimits, message: Message)
    requires
        !s.accepts(limits, message),
    ensures
        ({
            let zero = Single { bits: ZERO };
            match message {
                Message::XScaling(delta, _, _) => {
                    &&& !limits.min_cell_width.le(limits.max_cell_width)
                    &&& (delta.lt(zero) && s.cell_width.gt(limits.min_cell_width)) || (delta.gt(zero)
                        && s.cell_width.lt(limits.max_cell_width))
                },
                Message::YScaling(delta, _, _) => {
                    &&& !limits.min_cell_height.le(limits.max_cell_height)
                    &&& (delta.lt(zero) && s.cell_height.gt(limits.min_cell_height)) || (delta.gt(
                        zero,
                    ) && s.cell_height.lt(limits.max_cell_height))
                },
                _ => false,
            }
        }),
{
}

/// A pointer whose place is not a number does not move the chart when the width of the cells changes.
pub proof fn law_lost_pointer_moves_nothing(
    s: ChartState,
    limits: ChartLimits,
    delta: Single,
    cursor: Single,
    is_wheel_scroll: bool,
)
    requires
        cursor.is_nan(),
    ensures
        s.updated(limits, Message::XScaling(delta, cursor, is_wheel_scroll)).translation
            == s.translation,
{
    let place = cursor.over(s.scaling);
    reveal(Single::spec_over);
    reveal(Single::spec_minus);
    Single::lemma_parts_of_pack(Parts::Nan);
    assert(place.parts() is Nan);
    assert(place.minus(s.translation.x).parts() is Nan);
}

/// Dragging a split moves that split and no other.
pub proof fn law_drag_moves_one_split(
    s: ChartState,
    limits: ChartLimits,
    split: usize,
    size: Single,
    other: int,
)
    requires
        0 <= other < s.splits.len(),
        other != split,
    ensures
        s.updated(limits, Message::SplitDragged(split, size)).splits[other] == s.splits[other],
{
}

/// Bounds of the same width leave the chart where it is.
pub proof fn law_same_width_keeps_place(s: ChartState, limits: ChartLimits, bounds: Rectangle)
    requires
        bounds.width == s.bounds.width,
        bounds.width.is_finite(),
        s.translation.x.is_finite(),
        s.scaling.is_finite(),
        s.scaling.gt(Single { bits: ZERO }),
    ensures
        s.updated(limits, Message::BoundsChanged(bounds)).translation.x.equals(s.translation.x),
        s.updated(limits, Message::BoundsChanged(bounds)).translation.y == s.translation.y,
{
    let two = Single { bits: TWO };
    let half = bounds.width.over(two);
    two.lemma_positive();
    Single::lemma_zero_key();
    Single::lemma_order(s.scaling, Single { bits: ZERO });
    Single::lemma_half_finite(bounds.width);
    Single::lemma_minus_self(half);
    let d = half.minus(half);
    Single::lemma_over_order(d, d, s.scaling);
    Single::lemma_number_of_key(d.over(s.scaling));
    Single::lemma_plus_zero(s.translation.x, d.over(s.scaling));
    Single::lemma_order(s.translation.x.plus(d.over(s.scaling)), s.translation.x);
    Single::lemma_order(s.translation.x, s.translation.x);
}

/// The price labels have a least width.
pub proof fn law_labels_have_least_width(s: ChartState)
    ensures
        s.y_labels_width().ge(Single { bits: MIN_LABELS_WIDTH }),
{
    let least = Single { bits: MIN_LABELS_WIDTH };
    let len = label_len(s.base_price_y, s.decimals as nat) as u64;
    let width = Single::from_u64(len).times(
        Single { bits: TEXT_SIZE },
    ).times(Single { bits: CHAR_ASPECT });
    least.lemma_positive();
    let m = width.max(least);
    if width.is_number() {
        Single::lemma_order(width, least);
    }
    Single::lemma_ceil_not_below(m);
    Single::lemma_order(m.ceil(), least);
}

} // verus!
