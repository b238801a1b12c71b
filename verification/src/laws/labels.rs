//! How long the price labels are, and how wide.
use crate::constants::{CHAR_ASPECT, MIN_LABELS_WIDTH, TEXT_SIZE};
use crate::float::accuracy::{lemma_near_chain, lemma_near_scaled, lemma_near_unscaled, near};
use crate::float::arith::abs;
use crate::float::grid::{lemma_unit_pos, unit};
use crate::float::monotone::lemma_magnitude_sign;
use crate::float::rounding::{nearest_even, Parts};
use crate::float::single::Single;
use crate::label::{digits, label_len};
use crate::laws::numbers::{law_fractions_are_close, law_whole_numbers_are_exact};
use crate::state::ChartState;
use vstd::arithmetic::power::{lemma_pow_positive, pow};
use vstd::prelude::*;

verus! {

/// A number of so many steps is written with so many decimals as `written` of the last one: the nearest
/// number of them, and of two that are equally near the even one.
pub open spec fn is_written(steps: nat, decimals: nat, written: nat) -> bool {
    let miss = abs(written * unit(0) - steps * pow(10, decimals));
    &&& 2 * miss <= unit(0)
    &&& 2 * miss == unit(0) ==> written % 2 == 0
}

/// A whole number has so many decimal digits: they are enough, and without the first they are not.
pub open spec fn has_digits(n: nat, count: int) -> bool {
    &&& count >= 1
    &&& n < pow(10, count as nat)
    &&& count > 1 ==> pow(10, (count - 1) as nat) <= n
}

/// Ten times a power of ten is the next.
proof fn lemma_next_power(d: nat)
    ensures
        pow(10, d + 1) == 10 * pow(10, d),
{
    reveal(pow);
    assert((d + 1 - 1) as nat == d);
}

proof fn lemma_digits(n: nat)
    ensures
        has_digits(n, digits(n) as int),
    decreases n,
{
    lemma_next_power(0);
    reveal(pow);
    if n >= 10 {
        lemma_digits(n / 10);
        let d = digits(n / 10);
        lemma_next_power(d);
        if d > 1 {
            lemma_next_power((d - 1) as nat);
        }
    }
}

/// A label holds a finite number, rounded to its decimals: a sign where the number has one, the digits of
/// its whole part without any to spare, and with decimals a point and them. The result is the number
/// that is written, counted in the last decimal.
pub proof fn law_label_holds_its_number(value: Single, decimals: nat) -> (written: nat)
    requires
        value.is_finite(),
    ensures
        is_written(abs(value.key()), decimals, written),
        ({
            let sign: int = if value.bits >= 0x8000_0000 {
                1
            } else {
                0
            };
            let tail: int = if decimals > 0 {
                1int + decimals
            } else {
                0
            };
            has_digits(
                written / (pow(10, decimals) as nat),
                label_len(value, decimals) - sign - tail,
            )
        }),
{
    let u = unit(0);
    let ten = pow(10, decimals) as nat;
    let steps = abs(value.key());
    lemma_unit_pos(0);
    lemma_pow_positive(10, decimals);
    let num = steps * ten;
    vstd::arithmetic::div_mod::lemma_fundamental_div_mod(num as int, u as int);
    let (low, rem) = (num / u, num % u);
    let written = nearest_even(num, u);
    assert(u * low == low * u) by (nonlinear_arith);
    assert((low + 1) * u == low * u + u) by (nonlinear_arith);
    if let Parts::Finite { neg, mant, exp } = value.parts() {
        lemma_magnitude_sign(mant as nat, exp as int);
    }
    lemma_digits(written / ten);
    written
}

/// What is not a finite number is written as a word, with its sign where it is infinite.
pub proof fn law_other_labels_are_words(value: Single, decimals: nat)
    requires
        !value.is_finite(),
    ensures
        value.is_nan() ==> label_len(value, decimals) == "NaN"@.len(),
        !value.is_nan() && value.bits < 0x8000_0000 ==> label_len(value, decimals) == "inf"@.len(),
        !value.is_nan() && value.bits >= 0x8000_0000 ==> label_len(value, decimals) == "-inf"@.len(),
{
    reveal_strlit("NaN");
    reveal_strlit("inf");
    reveal_strlit("-inf");
}

/// The steps by which a label of so many characters is measured stay numbers, and none of them is so small
/// that it loses digits.
pub open spec fn can_measure(len: u64) -> bool {
    let tall = Single::from_u64(len).times(Single { bits: TEXT_SIZE });
    let wide = tall.times(Single { bits: CHAR_ASPECT });
    &&& Single::from_u64(len).multiplies(Single { bits: TEXT_SIZE })
    &&& tall.multiplies(Single { bits: CHAR_ASPECT })
    &&& wide.key() <= 0xff_fffe * unit(0)
}

/// The price labels are a whole number wide, at least 72, and otherwise the least that holds the base price
/// with nine and six tenths for each of its characters, up to five parts in two to the power of 24. The
/// result is that number.
pub proof fn law_labels_hold_the_base_price(s: ChartState) -> (n: nat)
    requires
        label_len(s.base_price_y, s.decimals as nat) <= u64::MAX,
        can_measure(label_len(s.base_price_y, s.decimals as nat) as u64),
    ensures
        s.y_labels_width().is_finite(),
        s.y_labels_width().key() == n * unit(0),
        ({
            let exact = 96 * label_len(s.base_price_y, s.decimals as nat);
            &&& n >= 72
            &&& 0x100_0000 * (10 * n) >= (0x100_0000 - 5) * exact
            &&& n > 72 ==> 0x100_0000 * (10 * (n - 1)) < (0x100_0000 + 5) * exact
        }),
{
    let len = label_len(s.base_price_y, s.decimals as nat) as u64;
    let (text, aspect, least) = (
        Single { bits: TEXT_SIZE },
        Single { bits: CHAR_ASPECT },
        Single { bits: MIN_LABELS_WIDTH },
    );
    let u = unit(0) as int;
    let count = Single::from_u64(len);
    let tall = count.times(text);
    let wide = tall.times(aspect);
    lemma_unit_pos(0);
    law_whole_numbers_are_exact();
    law_fractions_are_close();
    Single::lemma_from_u64_bounds(len);
    Single::lemma_from_u64_near(len);
    Single::lemma_times_near(count, text);
    Single::lemma_times_near(tall, aspect);
    let (a, b, c, k) = (count.key(), tall.key(), wide.key(), aspect.key());
    let e = len * u;
    // twelve high
    assert(a * (12 * u) == (12 * a) * u) by (nonlinear_arith);
    lemma_near_unscaled(b, 12 * a, u, 16);
    lemma_near_scaled(a, e, 12, 16);
    lemma_near_chain(b, 12 * a, 12 * e, 16, 16);
    // eight tenths as wide
    assert(near(10 * k, 8 * u, 16));
    lemma_near_scaled(10 * k, 8 * u, b, 16);
    lemma_near_scaled(c * u, b * k, 10, 16);
    assert((b * k) * 10 == (10 * k) * b) by (nonlinear_arith);
    lemma_near_chain((c * u) * 10, (10 * k) * b, (8 * u) * b, 16, 16);
    assert((c * u) * 10 == (10 * c) * u && (8 * u) * b == (8 * b) * u) by (nonlinear_arith);
    lemma_near_unscaled(10 * c, 8 * b, u, 33);
    lemma_near_scaled(b, 12 * e, 8, 33);
    lemma_near_chain(10 * c, 8 * b, 8 * (12 * e), 33, 33);
    assert(e >= 0) by (nonlinear_arith)
        requires
            e == len * u,
            u > 0,
    ;
    // at least so wide
    let width = wide.max(least);
    Single::lemma_order(wide, least);
    let n = width.lemma_ceil_near();
    assert(s.y_labels_width() == width.ceil());
    lemma_measured(n as int, u, len as int, c, width.key());
    n
}

/// The steps from the width of a text to that of its label.
proof fn lemma_measured(n: int, u: int, len: int, c: int, w: int)
    requires
        u > 0,
        len >= 0,
        0x100_0000 * abs(10 * c - 96 * (len * u)) <= 5 * (96 * (len * u)),
        w == if c < 72 * u {
            72 * u
        } else {
            c
        },
        w <= n * u < w + u,
    ensures
        n >= 72,
        0x100_0000 * (10 * n) >= (0x100_0000 - 5) * (96 * len),
        n > 72 ==> 0x100_0000 * (10 * (n - 1)) < (0x100_0000 + 5) * (96 * len),
{
    assert(n >= 72) by (nonlinear_arith)
        requires
            72 * u <= n * u,
            u > 0,
    ;
    let (x, y) = (0x100_0000 * (10 * n), (0x100_0000 - 5) * (96 * len));
    assert(x * u == 0x100_0000 * (10 * (n * u)) && y * u == (0x100_0000 - 5) * (96 * (len * u)))
        by (nonlinear_arith)
        requires
            x == 0x100_0000 * (10 * n),
            y == (0x100_0000 - 5) * (96 * len),
    ;
    assert(x >= y) by (nonlinear_arith)
        requires
            x * u >= y * u,
            u > 0,
    ;
    if n > 72 {
        let (p, q) = (0x100_0000 * (10 * (n - 1)), (0x100_0000 + 5) * (96 * len));
        assert((n - 1) * u == n * u - u && (n - 1) * u >= 72 * u) by (nonlinear_arith)
            requires
                n > 72,
                u > 0,
        ;
        assert(p * u == 0x100_0000 * (10 * ((n - 1) * u)) && q * u == (0x100_0000 + 5) * (96 * (len
            * u))) by (nonlinear_arith)
            requires
                p == 0x100_0000 * (10 * (n - 1)),
                q == (0x100_0000 + 5) * (96 * len),
        ;
        assert(p < q) by (nonlinear_arith)
            requires
                p * u < q * u,
                u > 0,
        ;
    }
}

} // verus!
