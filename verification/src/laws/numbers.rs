//! The numbers that the chart is laid out by, and how a chart starts.
use crate::constants::{
    CHAR_ASPECT, DEFAULT_CELL_HEIGHT, DEFAULT_CELL_WIDTH, EPSILON, FIVE_MINUTES, FOUR, HUNDRED,
    MINUS_ONE, MIN_DENOMINATOR, MIN_LABELS_WIDTH, ONE, TEXT_SIZE, THREE, TWO, ZERO, ZOOM_SENSITIVITY,
};
use crate::float::arith::abs;
use crate::float::grid::{lemma_unit_pos, lemma_unit_shift, unit};
use crate::float::single::Single;
use crate::state::{Basis, ChartState};
use vstd::arithmetic::power2::{lemma2_to64, lemma_pow2_adds};
use vstd::prelude::*;

verus! {

/// A number of the format is finite and lies on the grid at so many units.
pub open spec fn is_whole(number: Single, units: int) -> bool {
    number.is_finite() && number.key() == units * unit(0)
}

/// The whole numbers by which the chart is laid out: the text of the labels is 12 high and the labels are
/// at least 72 wide, cells start 4 wide and 3 high, and the wheel turns 30 for as much again.
pub proof fn law_whole_numbers_are_exact()
    ensures
        is_whole(Single { bits: ZERO }, 0),
        is_whole(Single { bits: ONE }, 1),
        is_whole(Single { bits: MINUS_ONE }, -1),
        is_whole(Single { bits: TWO }, 2),
        is_whole(Single { bits: THREE }, 3),
        is_whole(Single { bits: FOUR }, 4),
        is_whole(Single { bits: HUNDRED }, 100),
        is_whole(Single { bits: DEFAULT_CELL_WIDTH }, 4),
        is_whole(Single { bits: DEFAULT_CELL_HEIGHT }, 3),
        is_whole(Single { bits: ZOOM_SENSITIVITY }, 30),
        is_whole(Single { bits: TEXT_SIZE }, 12),
        is_whole(Single { bits: MIN_LABELS_WIDTH }, 72),
        FIVE_MINUTES == 5 * 60 * 1000,
{
    lemma2_to64();
    Single::lemma_zero_key();
    Single::lemma_one_key();
    Single::lemma_two_key();
    Single::lemma_four_key();
    assert(0 * unit(0) == 0);
    (Single { bits: ONE }).lemma_neg_key();
    assert((Single { bits: ONE }).neg() == (Single { bits: MINUS_ONE }));
    assert(-unit(0) == (-1) * unit(0));
    lemma_unit_shift(-22, 22);
    lemma_unit_shift(-20, 20);
    lemma_unit_shift(-19, 19);
    lemma_unit_shift(-17, 17);
    assert(12_582_912 * unit(-22) == 3 * (4_194_304 * unit(-22))) by (nonlinear_arith);
    assert(12_582_912 * unit(-20) == 12 * (1_048_576 * unit(-20))) by (nonlinear_arith);
    assert(15_728_640 * unit(-19) == 30 * (524_288 * unit(-19))) by (nonlinear_arith);
    assert(13_107_200 * unit(-17) == 100 * (131_072 * unit(-17))) by (nonlinear_arith);
    assert(9_437_184 * unit(-17) == 72 * (131_072 * unit(-17))) by (nonlinear_arith);
}

/// The fractions by which the chart is laid out: a character is eight tenths as wide as it is high, a
/// ten thousandth is the least product of scalings to divide by, both to within one part in two to the
/// power of 24, and nothing closer to zero than the step from one to the next number counts as a size.
pub proof fn law_fractions_are_close()
    ensures
        (Single { bits: CHAR_ASPECT }).is_finite(),
        0x100_0000 * abs(10 * (Single { bits: CHAR_ASPECT }).key() - 8 * unit(0)) <= 8 * unit(0),
        (Single { bits: MIN_DENOMINATOR }).is_finite(),
        0x100_0000 * abs(10_000 * (Single { bits: MIN_DENOMINATOR }).key() - unit(0)) <= unit(0),
        (Single { bits: EPSILON }).is_finite(),
        0x80_0000 * (Single { bits: EPSILON }).key() == unit(0),
{
    lemma2_to64();
    lemma_pow2_adds(23, 23);
    lemma_unit_pos(-24);
    lemma_unit_pos(-37);
    lemma_unit_shift(-24, 24);
    lemma_pow2_adds(24, 13);
    lemma_unit_shift(-37, 37);
    lemma_unit_shift(-46, 46);
    let (v, w) = (unit(-24) as int, unit(-37) as int);
    assert((Single { bits: CHAR_ASPECT }).key() == 13_421_773 * v);
    assert(unit(0) == 16_777_216 * v);
    assert((Single { bits: MIN_DENOMINATOR }).key() == 13_743_895 * w);
    assert(unit(0) == 137_438_953_472 * w);
    assert(0x80_0000 * (8_388_608 * unit(-46)) == 70_368_744_177_664 * unit(-46)) by (nonlinear_arith);
}

/// A new chart is by five minutes, unmoved and unscaled, with the crosshair shown and following its data,
/// and knows of no bounds, prices, times or panels yet.
pub proof fn law_charts_start_unmoved()
    ensures
        ({
            let s = ChartState::initial();
            &&& !s.cache.main && !s.cache.x_labels && !s.cache.y_labels && !s.cache.crosshair
            &&& s.crosshair
            &&& s.autoscale
            &&& is_whole(s.bounds.x, 0) && is_whole(s.bounds.y, 0)
            &&& is_whole(s.bounds.width, 0) && is_whole(s.bounds.height, 0)
            &&& is_whole(s.translation.x, 0) && is_whole(s.translation.y, 0)
            &&& is_whole(s.scaling, 1)
            &&& is_whole(s.cell_width, 4) && is_whole(s.cell_height, 3)
            &&& s.basis == Basis::Time(300_000)
            &&& s.last_price is None
            &&& is_whole(s.base_price_y, 0) && is_whole(s.tick_size, 0)
            &&& s.latest_x == 0
            &&& s.decimals == 0
            &&& s.ticker_info is None
            &&& s.splits.len() == 0
        }),
{
    law_whole_numbers_are_exact();
}

} // verus!
