//! The numbers that the chart is laid out by, as bit patterns of the 32-bit format.
use vstd::prelude::*;

verus! {

/// 0
pub const ZERO: u32 = 0x0000_0000;

/// 1
pub const ONE: u32 = 0x3f80_0000;

/// -1
pub const MINUS_ONE: u32 = 0xbf80_0000;

/// 2
pub const TWO: u32 = 0x4000_0000;

/// 3
pub const THREE: u32 = 0x4040_0000;

/// 4
pub const FOUR: u32 = 0x4080_0000;

/// 100
pub const HUNDRED: u32 = 0x42c8_0000;

/// The width of a cell before any zooming: 4.
pub const DEFAULT_CELL_WIDTH: u32 = 0x4080_0000;

/// The height of a cell before any zooming: 3.
pub const DEFAULT_CELL_HEIGHT: u32 = 0x4040_0000;

/// How far the wheel has to turn to change a size by as much again: 30.
pub const ZOOM_SENSITIVITY: u32 = 0x41f0_0000;

/// The height of the labels' text: 12.
pub const TEXT_SIZE: u32 = 0x4140_0000;

/// The width of a character as a part of its height: 0.8.
pub const CHAR_ASPECT: u32 = 0x3f4c_cccd;

/// The least width of the price labels: 72.
pub const MIN_LABELS_WIDTH: u32 = 0x4290_0000;

/// The least product of two scalings that is divided by: 0.0001.
pub const MIN_DENOMINATOR: u32 = 0x38d1_b717;

/// The distance from 1 to the next larger number of the format.
pub const EPSILON: u32 = 0x3400_0000;

/// Five minutes, in milliseconds.
pub const FIVE_MINUTES: u64 = 300_000;

} // verus!
