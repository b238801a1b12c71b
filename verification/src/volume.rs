//! Horizontal bars of bought and sold quantities.
use crate::constants::{TWO, ZERO};
use crate::float::single::Single;
use crate::geometry::Rectangle;
use vstd::prelude::*;

verus! {

/// The bars of one price: what was sold, and to its right what was bought.
#[derive(Clone, Copy, Debug, PartialEq, Eq, Structural)]
pub struct VolumeBars {
    pub sell: Option<Rectangle>,
    pub buy: Option<Rectangle>,
}

/// How wide the bar of a part of the quantity is: the bars together have the share of the width
/// that the total has of the largest quantity.
pub open spec fn bar_width(
    quantity: Single,
    total: Single,
    max_qty: Single,
    width_factor: Single,
) -> Single {
    quantity.over(total).times(total.over(max_qty).times(width_factor))
}

/// The bars: none where the total is not above zero, and none for a quantity that is not.
pub open spec fn volume_bars(
    start_x: Single,
    y_position: Single,
    buy_qty: Single,
    sell_qty: Single,
    max_qty: Single,
    bar_height: Single,
    width_factor: Single,
) -> VolumeBars {
    let zero = Single { bits: ZERO };
    let total = buy_qty.plus(sell_qty);
    let sell_width = bar_width(sell_qty, total, max_qty, width_factor);
    let y = y_position.minus(bar_height.over(Single { bits: TWO }));
    if total.le(zero) {
        VolumeBars { sell: None, buy: None }
    } else {
        VolumeBars {
            sell: if sell_qty.gt(zero) {
                Some(Rectangle { x: start_x, y, width: sell_width, height: bar_height })
            } else {
                None
            },
            buy: if buy_qty.gt(zero) {
                Some(
                    Rectangle {
                        x: start_x.plus(sell_width),
                        y,
                        width: bar_width(buy_qty, total, max_qty, width_factor),
                        height: bar_height,
                    },
                )
            } else {
                None
            },
        }
    }
}

/// The bars of what was bought and sold at one price.
pub fn draw_horizontal_volume_bars(
    start_x: Single,
    y_position: Single,
    buy_qty: Single,
    sell_qty: Single,
    max_qty: Single,
    bar_height: Single,
    width_factor: Single,
) -> (r: VolumeBars)
    ensures
        r == volume_bars(
            start_x,
            y_position,
            buy_qty,
            sell_qty,
            max_qty,
            bar_height,
            width_factor,
        ),
{
    let total_qty = buy_qty.plus(sell_qty);
    if total_qty.le(Single { bits: ZERO }) {
        return VolumeBars { sell: None, buy: None };
    }
    let total_bar_width = total_qty.over(max_qty).times(width_factor);
    let buy_proportion = buy_qty.over(total_qty);
    let sell_proportion = sell_qty.over(total_qty);
    let buy_bar_width = buy_proportion.times(total_bar_width);
    let sell_bar_width = sell_proportion.times(total_bar_width);
    let start_y = y_position.minus(bar_height.over(Single { bits: TWO }));
    let sell = if sell_qty.gt(Single { bits: ZERO }) {
        Some(Rectangle { x: start_x, y: start_y, width: sell_bar_width, height: bar_height })
    } else {
        None
    };
    let buy = if buy_qty.gt(Single { bits: ZERO }) {
        Some(
            Rectangle {
                x: start_x.plus(sell_bar_width),
                y: start_y,
                width: buy_bar_width,
                height: bar_height,
            },
        )
    } else {
        None
    };
    VolumeBars { sell, buy }
}

} // verus!
