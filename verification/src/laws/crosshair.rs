//! What the crosshair marks.
use crate::constants::ZERO;
use crate::float::accuracy::{
    keeps_digits, lemma_abs_product, lemma_near_back, lemma_near_chain, lemma_near_scaled,
    lemma_near_unscaled, near,
};
use crate::float::arith::abs;
use crate::float::double::Double;
use crate::float::grid::{lemma_unit_pos, unit};
use crate::float::rounding::Format;
use crate::float::single::Single;
use crate::geometry::{Point, Size};
use crate::laws::coordinates::law_price_range_is_ordered;
use crate::laws::placement::{
    law_places_have_their_prices, law_times_lie_at_their_distance, lemma_scaled_abs, lemma_scaled_bound,
};
use crate::laws::zoom::is_size;
use crate::state::{Basis, ChartState};
use vstd::prelude::*;

verus! {

impl ChartState {
    /// The parts of the price under the pointer: the prices at the top and at the bottom, their
    /// difference, and how far the pointer lies below the top as a part of it.
    pub open spec fn crosshair_parts(self, size: Size, cursor: Point) -> (
        Single,
        Single,
        Single,
        Single,
    ) {
        let (highest, lowest) = self.price_range(self.visible_region(size));
        let range = lowest.minus(highest);
        (highest, lowest, range, cursor.y.over(size.height).times(range))
    }

    /// The place under the pointer: so far below the top of the region as the pointer is below the top
    /// of the area, divided by the scaling.
    pub open spec fn pointer_place(self, size: Size, cursor: Point) -> Single {
        self.visible_region(size).y.plus(cursor.y.over(self.scaling))
    }

    /// The steps to the price under the pointer, and to the pointer's place and the price there, stay
    /// numbers, and none of them is so small that it loses digits.
    pub open spec fn can_price_pointer(self, size: Size, cursor: Point) -> bool {
        let region = self.visible_region(size);
        let bottom = region.y.plus(region.height);
        let (highest, lowest, range, below) = self.crosshair_parts(size, cursor);
        &&& cursor.y.is_finite()
        &&& size.height.divides(self.scaling)
        &&& cursor.y.divides(size.height)
        &&& cursor.y.divides(self.scaling)
        &&& self.can_read_price(region.y)
        &&& self.can_read_price(bottom)
        &&& range.is_finite()
        &&& cursor.y.over(size.height).multiplies(range)
        &&& self.crosshair_price(size, cursor).is_finite()
        &&& self.can_read_price(self.pointer_place(size, cursor))
    }

    /// How far the difference of the prices at the top and at the bottom can be off, in parts in two to
    /// the power of 24, times the height of a cell.
    pub open spec fn range_slack(self, size: Size) -> int {
        let region = self.visible_region(size);
        let (highest, lowest) = self.price_range(region);
        self.tick_size.key() * abs(region.y.key() + region.height.key()) + self.reading_slack(
            region.y,
        ) + self.reading_slack(region.y.plus(region.height)) + self.cell_height.key() * abs(
            lowest.key() - highest.key(),
        )
    }

    /// How far the price under the pointer can be off, in parts in two to the power of 24, times the
    /// height of the region, the scaling and the height of a cell.
    pub open spec fn crosshair_slack(self, size: Size, cursor: Point) -> int {
        let region = self.visible_region(size);
        let (highest, lowest, range, below) = self.crosshair_parts(size, cursor);
        let c = region.height.key() * self.scaling.key();
        let h = self.cell_height.key();
        let pointer = cursor.y.key() * unit(0);
        c * self.reading_slack(region.y) + h * (4 * abs(range.key() * pointer)) + abs(pointer)
            * self.range_slack(size) + (c * h) * abs(highest.key() + below.key())
    }

    /// How far the price at the pointer's place can be off, in parts in two to the power of 24, times
    /// the scaling and the height of a cell.
    pub open spec fn pointer_slack(self, size: Size, cursor: Point) -> int {
        let (a, k) = (self.scaling.key(), self.tick_size.key());
        let top = self.visible_region(size).y;
        a * self.reading_slack(self.pointer_place(size, cursor)) + k * abs(
            cursor.y.key() * unit(0),
        ) + (k * a) * abs(top.key() + cursor.y.over(self.scaling).key())
    }

    /// How many cells of time lie before the time under the pointer.
    pub open spec fn crosshair_cells(self, interval: u64, size: Size, cursor: Point) -> Double {
        let (earliest, latest) = self.shown_times(size);
        let ratio = cursor.x.over(size.width).to_double();
        earliest.plus(ratio.times(latest.minus(earliest))).over(Double::from_u64(interval))
    }
}

/// The crosshair marks a whole number of the chart's own intervals, or of trades to a cell.
pub proof fn law_crosshair_marks_whole_cells(
    s: ChartState,
    size: Size,
    cursor: Point,
    rounded_price: Single,
)
    requires
        s.crosshair_fits(size, cursor),
    ensures
        ({
            let marked = s.crosshair_at(size, cursor, rounded_price).interval;
            match s.basis {
                Basis::Time(interval) => interval > 0 ==> marked % interval == 0,
                Basis::Tick(trades) => trades > 0 ==> marked % (trades as u64) == 0,
            }
        }),
{
    let steps = s.crosshair_steps(size, cursor);
    assert(0 <= steps * s.step_length()) by (nonlinear_arith);
    if s.step_length() > 0 {
        vstd::arithmetic::div_mod::lemma_mod_multiples_basic(steps as int, s.step_length() as int);
    }
}

/// On a chart by trades, the crosshair's vertical line goes through the cell nearest to the pointer:
/// the number of cells to the pointer is at most one half off.
pub proof fn law_crosshair_takes_nearest_cell(s: ChartState, size: Size, cursor: Point)
    requires
        ({
            let region = s.visible_region(size);
            region.x.plus(cursor.x.over(size.width).times(region.width)).over(
                s.cell_width,
            ).is_finite()
        }),
    ensures
        ({
            let region = s.visible_region(size);
            let cells = region.x.plus(cursor.x.over(size.width).times(region.width)).over(
                s.cell_width,
            );
            2 * abs(s.crosshair_cell(size, cursor).key() - cells.key()) <= unit(0)
        }),
{
    let region = s.visible_region(size);
    region.x.plus(cursor.x.over(size.width).times(region.width)).over(
        s.cell_width,
    ).lemma_round_near();
}

/// On a chart by time, the crosshair marks the cell nearest to the pointer: the number of cells to the
/// time under the pointer is at most one half off.
pub proof fn law_crosshair_takes_nearest_time(
    s: ChartState,
    interval: u64,
    size: Size,
    cursor: Point,
)
    requires
        s.basis == Basis::Time(interval),
        s.crosshair_cells(interval, size, cursor).is_finite(),
        s.crosshair_cells(interval, size, cursor).key() >= 0,
        s.crosshair_cells(interval, size, cursor).round().key() < 0x1_0000_0000_0000_0000 * unit(0),
    ensures
        2 * abs(
            s.crosshair_steps(size, cursor) * unit(0) - s.crosshair_cells(
                interval,
                size,
                cursor,
            ).key(),
        ) <= unit(0),
{
    s.crosshair_cells(interval, size, cursor).lemma_rounded_to_u64_near();
}

/// The price under the pointer depends neither on what the cells of the chart stand for nor on where the
/// pointer is to the left or right.
pub proof fn law_crosshair_price_is_vertical(
    s: ChartState,
    basis: Basis,
    size: Size,
    cursor: Point,
    x: Single,
)
    ensures
        (ChartState { basis, ..s }).crosshair_price(size, Point { x, y: cursor.y })
            == s.crosshair_price(size, cursor),
{
}

/// At the top of the area the price under the pointer is the highest one that is visible.
pub proof fn law_crosshair_price_starts_highest(s: ChartState, size: Size, cursor: Point)
    requires
        cursor.y.equals(Single { bits: ZERO }),
        is_size(size.height),
        s.price_range(s.visible_region(size)).0.is_finite(),
        s.crosshair_parts(size, cursor).2.is_finite(),
    ensures
        s.crosshair_price(size, cursor).equals(s.price_range(s.visible_region(size)).0),
{
    let zero = Single { bits: ZERO };
    let (highest, lowest, range, below) = s.crosshair_parts(size, cursor);
    Single::lemma_zero_key();
    Single::lemma_ordered_are_numbers(cursor.y, zero);
    Single::lemma_order(cursor.y, zero);
    Single::lemma_order(size.height, zero);
    let ratio = cursor.y.over(size.height);
    Single::lemma_over_order(cursor.y, cursor.y, size.height);
    Single::lemma_number_of_key(ratio);
    Single::lemma_zero_times(ratio, range);
    Single::lemma_plus_zero(highest, below);
    Single::lemma_order(highest.plus(below), highest);
}

/// The price under the pointer never rises when the pointer moves down.
pub proof fn law_crosshair_price_never_rises(
    s: ChartState,
    size: Size,
    upper: Point,
    lower: Point,
)
    requires
        s.has_price_scale(),
        is_size(size.height),
        upper.y.le(lower.y),
        upper.y.over(size.height).is_finite(),
        lower.y.over(size.height).is_finite(),
        s.visible_region(size).y.is_finite(),
        s.visible_region(size).height.ge(Single { bits: ZERO }),
        s.price_range(s.visible_region(size)).0.is_finite(),
        s.price_range(s.visible_region(size)).1.is_finite(),
        s.crosshair_parts(size, upper).2.is_finite(),
    ensures
        s.crosshair_price(size, lower).le(s.crosshair_price(size, upper)),
{
    let zero = Single { bits: ZERO };
    let region = s.visible_region(size);
    let (highest, lowest, range, below) = s.crosshair_parts(size, upper);
    let (a, b) = (upper.y.over(size.height), lower.y.over(size.height));
    Single::lemma_zero_key();
    Single::lemma_order(size.height, zero);
    Single::lemma_ordered_are_numbers(upper.y, lower.y);
    Single::lemma_order(upper.y, lower.y);
    Single::lemma_over_order(upper.y, lower.y, size.height);
    law_price_range_is_ordered(s, region);
    Single::lemma_order(lowest, highest);
    Single::lemma_minus_near(lowest, highest);
    Single::lemma_times_reverses(a, b, range);
    Single::lemma_plus_order(b.times(range), a.times(range), highest);
    Single::lemma_order(s.crosshair_price(size, lower), s.crosshair_price(size, upper));
}

/// The prices at the top and at the bottom differ by the ticks of the cells between them.
proof fn lemma_range(s: ChartState, size: Size, cursor: Point)
    requires
        s.has_price_scale(),
        s.can_price_pointer(size, cursor),
    ensures
        ({
            let (highest, lowest, range, below) = s.crosshair_parts(size, cursor);
            0x100_0000 * abs(
                s.cell_height.key() * range.key() + s.tick_size.key() * s.visible_region(
                    size,
                ).height.key(),
            ) <= s.range_slack(size)
        }),
{
    let region = s.visible_region(size);
    let bottom = region.y.plus(region.height);
    let (highest, lowest, range, below) = s.crosshair_parts(size, cursor);
    law_places_have_their_prices(s, region.y);
    law_places_have_their_prices(s, bottom);
    lemma_region_height(s, size);
    Single::lemma_plus_near(region.y, region.height);
    Single::lemma_minus_near(lowest, highest);
    let (k, h, b) = (s.tick_size.key(), s.cell_height.key(), s.base_price_y.key());
    let (t, r, u) = (region.y.key(), region.height.key(), bottom.key());
    let (x, y, d) = (highest.key(), lowest.key(), range.key());
    let e = u - (t + r);
    let f = d - (y - x);
    assert(h * d + k * r == (h * y - (h * b - k * u)) - (h * x - (h * b - k * t)) - k * e + h * f)
        by (nonlinear_arith)
        requires
            e == u - (t + r),
            f == d - (y - x),
    ;
    lemma_scaled_bound(k, e, abs(t + r) as int);
    lemma_scaled_bound(h, f, abs(y - x) as int);
}

/// The region is as high as the area, divided by the scaling.
proof fn lemma_region_height(s: ChartState, size: Size)
    requires
        size.height.divides(s.scaling),
    ensures
        s.visible_region(size).height == size.height.over(s.scaling),
        s.visible_region(size).height.is_finite(),
{
}

/// How far the price under the pointer lies below the highest one: the part of the difference that the
/// pointer's height is of the area's.
proof fn lemma_below(s: ChartState, size: Size, cursor: Point)
    requires
        is_size(s.scaling),
        is_size(size.height),
        s.can_price_pointer(size, cursor),
    ensures
        s.scaling.key() > 0,
        s.visible_region(size).height.key() > 0,
        ({
            let (highest, lowest, range, below) = s.crosshair_parts(size, cursor);
            near(
                (s.visible_region(size).height.key() * s.scaling.key()) * below.key(),
                range.key() * (cursor.y.key() * unit(0)),
                50,
            )
        }),
{
    let zero = Single { bits: ZERO };
    let u = unit(0) as int;
    let region = s.visible_region(size);
    let (highest, lowest, range, below) = s.crosshair_parts(size, cursor);
    let ratio = cursor.y.over(size.height);
    lemma_unit_pos(0);
    Single::lemma_zero_key();
    Single::lemma_order(s.scaling, zero);
    Single::lemma_order(size.height, zero);
    lemma_region_height(s, size);
    lemma_unit_pos(-126);
    Single::lemma_over_order(zero, size.height, s.scaling);
    Single::lemma_over_near(size.height, s.scaling);
    Single::lemma_over_near(cursor.y, size.height);
    Single::lemma_times_near(ratio, range);
    let (a, r, t) = (s.scaling.key(), region.height.key(), size.height.key());
    let (q, d, w, c) = (ratio.key(), range.key(), below.key(), cursor.y.key());
    // the share of the range
    lemma_near_scaled(w * u, q * d, t, 16);
    lemma_near_scaled(q * t, c * u, d, 16);
    assert((q * d) * t == (q * t) * d) by (nonlinear_arith);
    lemma_near_chain((w * u) * t, (q * t) * d, (c * u) * d, 16, 16);
    // the height of the area is that of the region, scaled
    lemma_near_scaled(r * a, t * u, w, 16);
    assert((t * u) * w == (w * u) * t) by (nonlinear_arith);
    lemma_near_chain((r * a) * w, (w * u) * t, (c * u) * d, 16, 33);
    assert((c * u) * d == d * (c * u)) by (nonlinear_arith);
}

/// The price under the pointer, against the exact one.
proof fn lemma_crosshair_price(s: ChartState, size: Size, cursor: Point)
    requires
        s.has_price_scale(),
        is_size(s.scaling),
        is_size(size.height),
        s.can_price_pointer(size, cursor),
    ensures
        ({
            let region = s.visible_region(size);
            let (r, a) = (region.height.key(), s.scaling.key());
            let (k, h, b) = (s.tick_size.key(), s.cell_height.key(), s.base_price_y.key());
            0x100_0000 * abs(
                (r * a) * (h * s.crosshair_price(size, cursor).key()) - ((r * a) * (h * b) - (r * k)
                    * (a * region.y.key() + cursor.y.key() * unit(0))),
            ) <= s.crosshair_slack(size, cursor)
        }),
{
    let region = s.visible_region(size);
    let (highest, lowest, range, below) = s.crosshair_parts(size, cursor);
    let price = s.crosshair_price(size, cursor);
    law_places_have_their_prices(s, region.y);
    lemma_range(s, size, cursor);
    lemma_below(s, size, cursor);
    Single::lemma_plus_near(highest, below);
    let (r, a) = (region.height.key(), s.scaling.key());
    let (k, h, b) = (s.tick_size.key(), s.cell_height.key(), s.base_price_y.key());
    let (t, x, d, w, p) = (
        region.y.key(),
        highest.key(),
        range.key(),
        below.key(),
        price.key(),
    );
    let c = r * a;
    let v = cursor.y.key() * unit(0);
    assert(c > 0) by (nonlinear_arith)
        requires
            c == r * a,
            r > 0,
            a > 0,
    ;
    assert(c * h > 0) by (nonlinear_arith)
        requires
            c > 0,
            h > 0,
    ;
    let e = h * x - (h * b - k * t);
    let f = c * w - d * v;
    let g = h * d + k * r;
    let i = p - (x + w);
    lemma_exact_price(r, a, k, h, b, t, x, d, w, p, v);
    lemma_scaled_bound(c, e, s.reading_slack(region.y));
    lemma_scaled_bound(h, f, (4 * abs(d * v)) as int);
    lemma_scaled_bound(v, g, s.range_slack(size));
    lemma_scaled_bound(c * h, i, abs(x + w) as int);
}

/// What the price under the pointer differs by from the exact one, part by part.
proof fn lemma_exact_price(
    r: int,
    a: int,
    k: int,
    h: int,
    b: int,
    t: int,
    x: int,
    d: int,
    w: int,
    p: int,
    v: int,
)
    ensures
        (r * a) * (h * p) - ((r * a) * (h * b) - (r * k) * (a * t + v)) == (r * a) * (h * x - (h * b
            - k * t)) + h * ((r * a) * w - d * v) + v * (h * d + k * r) + ((r * a) * h) * (p - (x
            + w)),
{
    let c = r * a;
    assert((r * k) * (a * t + v) == c * (k * t) + (k * r) * v) by (nonlinear_arith)
        requires
            c == r * a,
    ;
    assert((c * h) * (p - (x + w)) == c * (h * p) - c * (h * x) - h * (c * w)) by (nonlinear_arith);
    assert(c * (h * x - (h * b - k * t)) == c * (h * x) - c * (h * b) + c * (k * t))
        by (nonlinear_arith);
    assert(h * (c * w - d * v) == h * (c * w) - v * (h * d)) by (nonlinear_arith);
    assert(v * (h * d + k * r) == v * (h * d) + (k * r) * v) by (nonlinear_arith);
}

/// The price at the pointer's place, against the exact one.
proof fn lemma_pointer_price(s: ChartState, size: Size, cursor: Point)
    requires
        s.has_price_scale(),
        is_size(s.scaling),
        s.can_price_pointer(size, cursor),
    ensures
        ({
            let a = s.scaling.key();
            let (k, h, b) = (s.tick_size.key(), s.cell_height.key(), s.base_price_y.key());
            let top = s.visible_region(size).y.key();
            0x100_0000 * abs(
                a * (h * s.y_to_price(s.pointer_place(size, cursor)).key()) - (a * (h * b) - k * (a
                    * top + cursor.y.key() * unit(0))),
            ) <= s.pointer_slack(size, cursor)
        }),
{
    let zero = Single { bits: ZERO };
    let top = s.visible_region(size).y;
    let below = cursor.y.over(s.scaling);
    let place = s.pointer_place(size, cursor);
    Single::lemma_zero_key();
    Single::lemma_order(s.scaling, zero);
    law_places_have_their_prices(s, place);
    Single::lemma_over_near(cursor.y, s.scaling);
    Single::lemma_plus_near(top, below);
    let a = s.scaling.key();
    let (k, h, b) = (s.tick_size.key(), s.cell_height.key(), s.base_price_y.key());
    let (t, z, l, p) = (top.key(), below.key(), place.key(), s.y_to_price(place).key());
    let v = cursor.y.key() * unit(0);
    let e = h * p - (h * b - k * l);
    let f = l - (t + z);
    let g = z * a - v;
    assert(a * (h * p) - (a * (h * b) - k * (a * t + v)) == a * e - k * g - (k * a) * f)
        by (nonlinear_arith)
        requires
            e == h * p - (h * b - k * l),
            f == l - (t + z),
            g == z * a - v,
    ;
    assert(k * a > 0) by (nonlinear_arith)
        requires
            k > 0,
            a > 0,
    ;
    lemma_scaled_bound(a, e, s.reading_slack(place));
    lemma_scaled_bound(k, g, abs(v) as int);
    lemma_scaled_bound(k * a, f, abs(t + z) as int);
}

/// The price under the pointer is the price at the pointer's place, up to rounding.
pub proof fn law_crosshair_price_is_at_the_pointer(s: ChartState, size: Size, cursor: Point)
    requires
        s.has_price_scale(),
        is_size(s.scaling),
        is_size(size.height),
        s.can_price_pointer(size, cursor),
    ensures
        ({
            let c = s.visible_region(size).height.key() * s.scaling.key();
            0x100_0000 * ((c * s.cell_height.key()) * abs(
                s.crosshair_price(size, cursor).key() - s.y_to_price(
                    s.pointer_place(size, cursor),
                ).key(),
            )) <= s.crosshair_slack(size, cursor) + s.visible_region(size).height.key()
                * s.pointer_slack(size, cursor)
        }),
{
    lemma_crosshair_price(s, size, cursor);
    lemma_pointer_price(s, size, cursor);
    lemma_below(s, size, cursor);
    law_places_have_their_prices(s, s.pointer_place(size, cursor));
    let (r, a) = (s.visible_region(size).height.key(), s.scaling.key());
    let (k, h, b) = (s.tick_size.key(), s.cell_height.key(), s.base_price_y.key());
    let t = s.visible_region(size).y.key();
    let v = cursor.y.key() * unit(0);
    let (p, q) = (
        s.crosshair_price(size, cursor).key(),
        s.y_to_price(s.pointer_place(size, cursor)).key(),
    );
    let x = (r * a) * (h * p) - ((r * a) * (h * b) - (r * k) * (a * t + v));
    let y = a * (h * q) - (a * (h * b) - k * (a * t + v));
    let d = p - q;
    let n = a * t + v;
    let (hp, hq, hb, kn) = (h * p, h * q, h * b, k * n);
    let (aq, ab, ra) = (a * hq, a * hb, r * a);
    assert(r * y == r * aq - r * ab + r * kn) by (nonlinear_arith)
        requires
            y == aq - (ab - kn),
    ;
    assert(r * aq == ra * hq) by (nonlinear_arith)
        requires
            aq == a * hq,
            ra == r * a,
    ;
    assert(r * ab == ra * hb) by (nonlinear_arith)
        requires
            ab == a * hb,
            ra == r * a,
    ;
    assert(r * kn == (r * k) * n) by (nonlinear_arith)
        requires
            kn == k * n,
    ;
    assert(h * d == hp - hq) by (nonlinear_arith)
        requires
            hp == h * p,
            hq == h * q,
            d == p - q,
    ;
    let hd = h * d;
    assert((ra * h) * d == ra * hd) by (nonlinear_arith)
        requires
            hd == h * d,
    ;
    assert(ra * hd == ra * hp - ra * hq) by (nonlinear_arith)
        requires
            hd == hp - hq,
    ;
    lemma_scaled_bound(r, y, s.pointer_slack(size, cursor));
    assert((r * a) * h > 0) by (nonlinear_arith)
        requires
            r > 0,
            a > 0,
            h > 0,
    ;
    lemma_scaled_abs((r * a) * h, d);
}

/// A part of a length: as much of it as one number is of another, up to rounding.
proof fn lemma_part_of_length(part: Single, whole: Single, length: Single)
    requires
        part.is_finite(),
        whole.is_finite(),
        whole.key() != 0,
        length.is_finite(),
        part.divides(whole),
        part.over(whole).multiplies(length),
    ensures
        near(
            part.over(whole).times(length).key() * whole.key(),
            part.key() * length.key(),
            33,
        ),
{
    let u = unit(0) as int;
    let ratio = part.over(whole);
    let y = ratio.times(length);
    lemma_unit_pos(0);
    Single::lemma_over_near(part, whole);
    Single::lemma_times_near(ratio, length);
    let (p, d, l, r, x) = (part.key(), whole.key(), length.key(), ratio.key(), y.key());
    lemma_near_scaled(x * u, r * l, d, 16);
    lemma_near_scaled(r * d, p * u, l, 16);
    assert((r * l) * d == (r * d) * l) by (nonlinear_arith);
    lemma_near_chain((x * u) * d, (r * d) * l, (p * u) * l, 16, 16);
    assert((x * u) * d == (x * d) * u) by (nonlinear_arith);
    assert((p * u) * l == (p * l) * u) by (nonlinear_arith);
    lemma_near_unscaled(x * d, p * l, u, 33);
}

/// The crosshair marks the price that it is given. Its horizontal line goes all across the area and its
/// vertical line all down.
pub proof fn law_crosshair_spans_the_area(
    s: ChartState,
    size: Size,
    cursor: Point,
    rounded_price: Single,
)
    ensures
        ({
            let shown = s.crosshair_at(size, cursor, rounded_price);
            &&& shown.price == rounded_price
            &&& shown.horizontal.start.y == shown.horizontal.end.y
            &&& shown.horizontal.start.x.is_finite()
            &&& shown.horizontal.start.x.key() == 0
            &&& shown.horizontal.end.x == size.width
            &&& shown.vertical.start.x == shown.vertical.end.x
            &&& shown.vertical.start.y.is_finite()
            &&& shown.vertical.start.y.key() == 0
            &&& shown.vertical.end.y == size.height
        }),
{
    Single::lemma_zero_key();
}

/// The horizontal line lies at the price that the crosshair marks: as far down the area as that price lies
/// between the prices at the top and at the bottom of what is visible, up to rounding.
pub proof fn law_horizontal_line_lies_at_its_price(
    s: ChartState,
    size: Size,
    cursor: Point,
    rounded_price: Single,
)
    requires
        is_size(size.height),
        ({
            let region = s.visible_region(size);
            let highest = s.y_to_price(region.y);
            let lowest = s.y_to_price(region.y.plus(region.height));
            let (below, range) = (rounded_price.minus(highest), lowest.minus(highest));
            &&& highest.is_finite()
            &&& lowest.is_finite()
            &&& rounded_price.is_finite()
            &&& below.is_finite()
            &&& range.is_finite()
            &&& range.key() != 0
            &&& below.divides(range)
            &&& below.over(range).multiplies(size.height)
        }),
    ensures
        ({
            let region = s.visible_region(size);
            let highest = s.y_to_price(region.y).key();
            let lowest = s.y_to_price(region.y.plus(region.height)).key();
            let y = s.crosshair_at(size, cursor, rounded_price).horizontal.start.y.key();
            let (p, h) = (rounded_price.key(), size.height.key());
            0x100_0000 * abs(y * (lowest - highest) - (p - highest) * h) <= 7 * abs(
                (p - highest) * h,
            ) + abs(y * (lowest - highest))
        }),
{
    let region = s.visible_region(size);
    let highest = s.y_to_price(region.y);
    let lowest = s.y_to_price(region.y.plus(region.height));
    let (below, range) = (rounded_price.minus(highest), lowest.minus(highest));
    Single::lemma_minus_near(rounded_price, highest);
    Single::lemma_minus_near(lowest, highest);
    lemma_part_of_length(below, range, size.height);
    let y = s.crosshair_at(size, cursor, rounded_price).horizontal.start.y.key();
    let (b, d, h) = (below.key(), range.key(), size.height.key());
    let (x, z) = (rounded_price.key() - highest.key(), lowest.key() - highest.key());
    lemma_near_scaled(b, x, h, 16);
    lemma_near_chain(y * d, b * h, x * h, 33, 16);
    lemma_near_scaled(d, z, y, 16);
    assert(d * y == y * d && z * y == y * z) by (nonlinear_arith);
}

/// What the crosshair's time is found from stays a number, none of it is so small that it loses digits, and
/// the times at the edges of the area and under the pointer can be counted.
pub open spec fn can_mark_time(s: ChartState, interval: u64, size: Size, cursor: Point) -> bool {
    let region = s.visible_region(size);
    let left = Double::from_u64(s.x_to_interval(region.x));
    let right = Double::from_u64(s.x_to_interval(region.x.plus(region.width)));
    let ratio = cursor.x.over(size.width);
    let way = ratio.to_double().times(right.minus(left));
    let time = left.plus(way);
    let cells = time.over(Double::from_u64(interval));
    &&& 0 < interval < 0x20_0000_0000_0000
    &&& s.x_to_interval(region.x) < 0x20_0000_0000_0000
    &&& s.x_to_interval(region.x.plus(region.width)) < 0x20_0000_0000_0000
    &&& cursor.x.is_finite()
    &&& cursor.x.divides(size.width)
    &&& right.minus(left).is_finite()
    &&& ratio.to_double().multiplies(right.minus(left))
    &&& time.is_finite()
    &&& time.key() >= 0
    &&& time.divides(Double::from_u64(interval))
    &&& cells.round().key() < 0x1_0000_0000_0000_0000 * unit(0)
    &&& cells.round().to_u64() * interval <= u64::MAX
}

/// On a chart by time, the crosshair marks a multiple of the chart's own interval, and the one nearest to
/// the time under the pointer: at most half an interval from the time that lies as far between the times
/// at the left and right edge of the area as the pointer does between the edges, up to rounding.
pub proof fn law_crosshair_marks_the_nearest_time(
    s: ChartState,
    interval: u64,
    size: Size,
    cursor: Point,
    rounded_price: Single,
)
    requires
        s.basis == Basis::Time(interval),
        is_size(size.width),
        can_mark_time(s, interval, size, cursor),
    ensures
        ({
            let region = s.visible_region(size);
            let left = s.x_to_interval(region.x);
            let right = s.x_to_interval(region.x.plus(region.width));
            let marked = s.crosshair_at(size, cursor, rounded_price).interval;
            let (c, w) = (cursor.x.key(), size.width.key());
            &&& s.crosshair_fits(size, cursor)
            &&& marked % interval == 0
            &&& 0x40_0000_0000_0000 * abs(w * (marked - left) - c * (right - left))
                <= 0x20_0000_0000_0000 * (w * interval) + 12 * (w * (marked + interval))
                + 0x8000_0000 * abs(c * (right - left))
        }),
{
    let region = s.visible_region(size);
    let l = s.x_to_interval(region.x);
    let r = s.x_to_interval(region.x.plus(region.width));
    let u = unit(0) as int;
    let (c, w, i) = (cursor.x.key(), size.width.key(), interval as int);
    let left = Double::from_u64(l);
    let right = Double::from_u64(r);
    let range = right.minus(left);
    let ratio = cursor.x.over(size.width);
    let way = ratio.to_double().times(range);
    let time = left.plus(way);
    let span = Double::from_u64(interval);
    let cells = time.over(span);
    let n = cells.round().to_u64();
    lemma_unit_pos(0);
    Single::lemma_zero_key();
    Single::lemma_order(size.width, Single { bits: ZERO });
    Double::lemma_from_u64_bounds(l);
    Double::lemma_from_u64_bounds(r);
    Double::lemma_from_u64_bounds(interval);
    Double::lemma_from_u64_exact(l);
    Double::lemma_from_u64_exact(r);
    Double::lemma_from_u64_exact(interval);
    ratio.lemma_to_double_exact();
    Single::lemma_over_near(cursor.x, size.width);
    Double::lemma_minus_near(right, left);
    Double::lemma_times_near(ratio.to_double(), range);
    Double::lemma_plus_fine(left, way);
    Double::lemma_over_fine(time, span);
    Double::lemma_over_order(time, time, span);
    lemma_cells_not_negative(time, span);
    cells.lemma_rounded_to_u64_near();
    let d = r - l;
    assert(r * u - l * u == d * u) by (nonlinear_arith)
        requires
            d == r - l,
    ;
    // the way from the left edge
    let (q, g, p) = (ratio.key(), range.key(), way.key());
    lemma_near_scaled(p * u, q * g, w, 1);
    lemma_near_scaled(q * w, c * u, g, 16);
    assert((q * g) * w == (q * w) * g) by (nonlinear_arith);
    lemma_near_chain((p * u) * w, (q * w) * g, (c * u) * g, 1, 16);
    assert((p * u) * w == (p * w) * u) by (nonlinear_arith);
    assert((c * u) * g == (c * g) * u) by (nonlinear_arith);
    lemma_near_unscaled(p * w, c * g, u, 18);
    lemma_near_scaled(g, d * u, c, 1);
    assert(g * c == c * g && (d * u) * c == (c * d) * u) by (nonlinear_arith);
    lemma_near_chain(p * w, c * g, (c * d) * u, 18, 1);
    assert(n as int == s.crosshair_steps(size, cursor));
    let marked = s.crosshair_at(size, cursor, rounded_price).interval;
    assert(marked == n * interval);
    vstd::arithmetic::div_mod::lemma_mod_multiples_basic(n as int, i);
    lemma_marked_time(
        n as int,
        i,
        u,
        w,
        l as int,
        c * d,
        p,
        time.key(),
        cells.key(),
    );
}

proof fn lemma_cells_not_negative(time: Double, span: Double)
    requires
        time.is_finite(),
        time.key() >= 0,
        span.is_finite(),
        span.key() > 0,
    ensures
        time.over(span).key() >= 0,
{
    let zero = Double::from_u64(0);
    Double::lemma_from_u64_bounds(0);
    Double::lemma_from_u64_exact(0);
    Double::lemma_over_order(zero, time, span);
}

/// The steps from the way between the edges to the marked time.
proof fn lemma_marked_time(
    n: int,
    i: int,
    u: int,
    w: int,
    l: int,
    x: int,
    p: int,
    t: int,
    k: int,
)
    requires
        n >= 0,
        i > 0,
        u > 0,
        w > 0,
        k >= 0,
        t >= 0,
        2 * abs(n * u - k) <= u,
        0x20_0000_0000_0000 * abs(k * (i * u) - t * u) <= t * u,
        0x20_0000_0000_0000 * abs(t - (l * u + p)) <= abs(l * u + p),
        near(p * w, x * u, 20),
    ensures
        0x40_0000_0000_0000 * abs(w * (n * i - l) - x) <= 0x20_0000_0000_0000 * (w * i) + 12 * (w * (
        n * i + i)) + 0x8000_0000 * abs(x),
{
    let m = n * i;
    let b = l * u + p;
    // cells times the interval
    let ki = k * i;
    assert(k * (i * u) == ki * u) by (nonlinear_arith)
        requires
            ki == k * i,
    ;
    let e1 = ki - t;
    assert(ki * u - t * u == e1 * u) by (nonlinear_arith)
        requires
            e1 == ki - t,
    ;
    assert(0x20_0000_0000_0000 * abs(e1) <= t) by (nonlinear_arith)
        requires
            0x20_0000_0000_0000 * abs(e1 * u) <= t * u,
            u > 0,
            abs(e1) == if e1 < 0 {
                -e1
            } else {
                e1
            },
            abs(e1 * u) == if e1 * u < 0 {
                -(e1 * u)
            } else {
                e1 * u
            },
    ;
    let e0 = (n * u) * i - ki;
    assert(-(u * i) <= 2 * e0 <= u * i) by (nonlinear_arith)
        requires
            -u <= 2 * (n * u - k) <= u,
            e0 == (n * u) * i - ki,
            ki == k * i,
            i > 0,
    ;
    assert((n * u) * i == m * u) by (nonlinear_arith)
        requires
            m == n * i,
    ;
    let e2 = t - b;
    // how large these are
    let z = (m + i) * u;
    assert(z == m * u + u * i) by (nonlinear_arith)
        requires
            z == (m + i) * u,
    ;
    assert(ki <= z);
    assert(t <= 2 * z);
    assert(abs(b) <= 4 * z);
    // together
    let y = m * u - b;
    assert(y == e0 + e1 + e2);
    assert(0x40_0000_0000_0000 * abs(y) <= 0x20_0000_0000_0000 * (u * i) + 12 * z);
    let v = w * (m - l) - x;
    let e3 = p * w - x * u;
    assert(v * u == w * y + e3) by (nonlinear_arith)
        requires
            v == w * (m - l) - x,
            y == m * u - (l * u + p),
            e3 == p * w - x * u,
    ;
    let h = 0x20_0000_0000_0000 * (u * i) + 12 * z;
    assert(-(w * h) <= 0x40_0000_0000_0000 * (w * y) <= w * h) by (nonlinear_arith)
        requires
            -h <= 0x40_0000_0000_0000 * y <= h,
            w > 0,
    ;
    assert(w * h == (0x20_0000_0000_0000 * (w * i) + 12 * (w * (m + i))) * u) by (nonlinear_arith)
        requires
            h == 0x20_0000_0000_0000 * (u * i) + 12 * z,
            z == (m + i) * u,
    ;
    let a = abs(x) as int;
    assert(abs(x * u) == a * u) by (nonlinear_arith)
        requires
            u > 0,
            a == if x < 0 {
                -x
            } else {
                x
            },
            abs(x * u) == if x * u < 0 {
                -(x * u)
            } else {
                x * u
            },
    ;
    let f = 0x20_0000_0000_0000 * (w * i) + 12 * (w * (m + i));
    let o = f + 0x8000_0000 * a;
    assert(o * u == f * u + 0x8000_0000 * (a * u)) by (nonlinear_arith)
        requires
            o == f + 0x8000_0000 * a,
    ;
    assert(a * u >= 0) by (nonlinear_arith)
        requires
            a >= 0,
            u > 0,
    ;
    assert(-o <= 0x40_0000_0000_0000 * v <= o) by (nonlinear_arith)
        requires
            -(o * u) <= 0x40_0000_0000_0000 * (v * u) <= o * u,
            u > 0,
    ;
}

/// What the place of the vertical line on a chart by time is found from stays a number, none of it is so
/// small that it loses digits, and the times can be counted.
pub open spec fn can_draw_time(s: ChartState, size: Size, time: u64) -> bool {
    let region = s.visible_region(size);
    let left = Double::from_u64(s.x_to_interval(region.x));
    let right = Double::from_u64(s.x_to_interval(region.x.plus(region.width)));
    let (way, range) = (Double::from_u64(time).minus(left), right.minus(left));
    let ratio = way.over(range);
    &&& time < 0x20_0000_0000_0000
    &&& s.x_to_interval(region.x) < s.x_to_interval(region.x.plus(region.width))
    &&& s.x_to_interval(region.x.plus(region.width)) < 0x20_0000_0000_0000
    &&& way.is_finite()
    &&& range.is_finite()
    &&& way.divides(range)
    &&& ratio.to_single().is_finite()
    &&& ratio.key() == 0 || keeps_digits(Format::single(), ratio.to_single().parts())
    &&& ratio.to_single().multiplies(size.width)
}

/// On a chart by time, the vertical line lies as far between the edges of the area as the time that the
/// crosshair marks does between the times there, up to rounding.
pub proof fn law_vertical_line_lies_at_its_time(
    s: ChartState,
    interval: u64,
    size: Size,
    cursor: Point,
    rounded_price: Single,
)
    requires
        s.basis == Basis::Time(interval),
        is_size(size.width),
        s.crosshair_fits(size, cursor),
        can_draw_time(s, size, s.crosshair_at(size, cursor, rounded_price).interval),
    ensures
        ({
            let region = s.visible_region(size);
            let left = s.x_to_interval(region.x);
            let right = s.x_to_interval(region.x.plus(region.width));
            let shown = s.crosshair_at(size, cursor, rounded_price);
            let (x, w) = (shown.vertical.start.x.key(), size.width.key());
            0x100_0000 * abs(x * (right - left) - (shown.interval - left) * w) <= 3 * abs(
                (shown.interval - left) * w,
            )
        }),
{
    let region = s.visible_region(size);
    let l = s.x_to_interval(region.x);
    let r = s.x_to_interval(region.x.plus(region.width));
    let shown = s.crosshair_at(size, cursor, rounded_price);
    let m = shown.interval;
    let u = unit(0) as int;
    let (left, right, marked) = (Double::from_u64(l), Double::from_u64(r), Double::from_u64(m));
    let (way, range) = (marked.minus(left), right.minus(left));
    let ratio = way.over(range);
    let line = ratio.to_single().times(size.width);
    lemma_unit_pos(0);
    Double::lemma_from_u64_bounds(l);
    Double::lemma_from_u64_bounds(r);
    Double::lemma_from_u64_bounds(m);
    Double::lemma_from_u64_exact(l);
    Double::lemma_from_u64_exact(r);
    Double::lemma_from_u64_exact(m);
    Double::lemma_minus_near(right, left);
    Double::lemma_minus_near(marked, left);
    assert(shown.vertical.start.x == line);
    let (n, d) = (m - l, r - l);
    let (a, g, q, b, x, w) = (
        way.key(),
        range.key(),
        ratio.key(),
        ratio.to_single().key(),
        line.key(),
        size.width.key(),
    );
    assert(r * u - l * u == d * u) by (nonlinear_arith)
        requires
            d == r - l,
    ;
    assert(m * u - l * u == n * u) by (nonlinear_arith)
        requires
            n == m - l,
    ;
    assert(d * u > 0) by (nonlinear_arith)
        requires
            d > 0,
            u > 0,
    ;
    assert(g > 0);
    Double::lemma_over_near(way, range);
    ratio.lemma_to_single_near();
    Single::lemma_times_near(ratio.to_single(), size.width);
    lemma_near_scaled(b, q, w, 16);
    lemma_near_chain(x * u, b * w, q * w, 16, 16);
    lemma_near_scaled(x * u, q * w, g, 33);
    lemma_near_scaled(q * g, a * u, w, 1);
    assert((q * w) * g == (q * g) * w) by (nonlinear_arith);
    lemma_near_chain((x * u) * g, (q * g) * w, (a * u) * w, 33, 1);
    assert((x * u) * g == (x * g) * u && (a * u) * w == (a * w) * u) by (nonlinear_arith);
    lemma_near_unscaled(x * g, a * w, u, 35);
    lemma_near_scaled(a, n * u, w, 1);
    lemma_near_chain(x * g, a * w, (n * u) * w, 35, 1);
    lemma_near_back(g, d * u, 1);
    lemma_near_scaled(d * u, g, x, 2);
    assert((d * u) * x == (x * d) * u && g * x == x * g && (n * u) * w == (n * w) * u)
        by (nonlinear_arith);
    lemma_near_chain((x * d) * u, x * g, (n * w) * u, 2, 37);
    lemma_near_unscaled(x * d, n * w, u, 40);
}

/// A line at `x` divides the width `w` as the place `at` divides the way between two others, up to rounding.
/// The places are those of the times `m`, `l` and `r` after the latest, `c` wide for every `i` of time.
pub open spec fn lies_among(
    x: int,
    w: int,
    i: int,
    c: int,
    l: int,
    r: int,
    m: int,
    from: int,
    to: int,
    at: int,
) -> bool {
    0x100_0000 * abs(i * (x * (to - from) - w * (at - from))) <= c * (3 * abs((m - l) * w) + 2 * (
        abs(x) * (abs(r) + abs(l))) + 2 * (w * (abs(m) + abs(l))))
}

/// On a chart by time, the vertical line divides the width of the area as the place of the time that the
/// crosshair marks divides the way between the places of the times at the edges, up to rounding.
pub proof fn law_vertical_line_lies_where_its_time_does(
    s: ChartState,
    interval: u64,
    size: Size,
    cursor: Point,
    rounded_price: Single,
)
    requires
        s.basis == Basis::Time(interval),
        s.has_interval_scale(),
        is_size(size.width),
        s.latest_x < 0x20_0000_0000_0000,
        s.crosshair_fits(size, cursor),
        can_draw_time(s, size, s.crosshair_at(size, cursor, rounded_price).interval),
        ({
            let region = s.visible_region(size);
            &&& s.can_place_time(interval, s.x_to_interval(region.x))
            &&& s.can_place_time(interval, s.x_to_interval(region.x.plus(region.width)))
            &&& s.can_place_time(interval, s.crosshair_at(size, cursor, rounded_price).interval)
        }),
    ensures
        ({
            let region = s.visible_region(size);
            let left = s.x_to_interval(region.x);
            let right = s.x_to_interval(region.x.plus(region.width));
            let shown = s.crosshair_at(size, cursor, rounded_price);
            let marked = shown.interval;
            let (x, w) = (shown.vertical.start.x.key(), size.width.key());
            let (from, to, at) = (
                s.interval_to_x(left).key(),
                s.interval_to_x(right).key(),
                s.interval_to_x(marked).key(),
            );
            lies_among(
                x,
                w,
                interval as int,
                s.cell_width.key(),
                left - s.latest_x,
                right - s.latest_x,
                marked - s.latest_x,
                from,
                to,
                at,
            )
        }),
{
    let region = s.visible_region(size);
    let l = s.x_to_interval(region.x);
    let r = s.x_to_interval(region.x.plus(region.width));
    let shown = s.crosshair_at(size, cursor, rounded_price);
    let m = shown.interval;
    law_vertical_line_lies_at_its_time(s, interval, size, cursor, rounded_price);
    Single::lemma_zero_key();
    Single::lemma_order(size.width, Single { bits: ZERO });
    lemma_line_at_time(s, interval, l, r, m, shown.vertical.start.x.key(), size.width.key());
}

/// How far a place may be off grows with how far it lies from the latest time.
proof fn lemma_off(y: int, n: int, w: int)
    requires
        near(y, n * w, 25),
        w > 0,
    ensures
        -(2 * (abs(n) * w)) <= 0x100_0000 * (y - n * w) <= 2 * (abs(n) * w),
{
    assert(abs(n * w) == abs(n) * w) by (nonlinear_arith)
        requires
            w > 0,
            abs(n) == if n < 0 {
                -n
            } else {
                n
            },
            abs(n * w) == if n * w < 0 {
                -(n * w)
            } else {
                n * w
            },
    ;
}

proof fn lemma_line_at_time(
    s: ChartState,
    interval: u64,
    l: u64,
    r: u64,
    m: u64,
    x: int,
    w: int,
)
    requires
        s.basis == Basis::Time(interval),
        s.has_interval_scale(),
        s.latest_x < 0x20_0000_0000_0000,
        l < 0x20_0000_0000_0000,
        r < 0x20_0000_0000_0000,
        m < 0x20_0000_0000_0000,
        s.can_place_time(interval, l),
        s.can_place_time(interval, r),
        s.can_place_time(interval, m),
        w > 0,
        0x100_0000 * abs(x * (r - l) - (m - l) * w) <= 3 * abs((m - l) * w),
    ensures
        lies_among(
            x,
            w,
            interval as int,
            s.cell_width.key(),
            l - s.latest_x,
            r - s.latest_x,
            m - s.latest_x,
            s.interval_to_x(l).key(),
            s.interval_to_x(r).key(),
            s.interval_to_x(m).key(),
        ),
{
    law_times_lie_at_their_distance(s, interval, l);
    law_times_lie_at_their_distance(s, interval, r);
    law_times_lie_at_their_distance(s, interval, m);
    lemma_line_among_places(
        x,
        w,
        interval as int,
        s.cell_width.key(),
        l - s.latest_x,
        r - s.latest_x,
        m - s.latest_x,
        s.interval_to_x(l).key(),
        s.interval_to_x(r).key(),
        s.interval_to_x(m).key(),
    );
}

/// The steps from the places of three times to the line at the third.
proof fn lemma_line_among_places(
    x: int,
    w: int,
    i: int,
    c: int,
    l: int,
    r: int,
    m: int,
    from: int,
    to: int,
    at: int,
)
    requires
        w > 0,
        c > 0,
        near(i * from, l * c, 25),
        near(i * to, r * c, 25),
        near(i * at, m * c, 25),
        0x100_0000 * abs(x * (r - l) - (m - l) * w) <= 3 * abs((m - l) * w),
    ensures
        lies_among(x, w, i, c, l, r, m, from, to, at),
{
    lemma_off(i * from, l, c);
    lemma_off(i * to, r, c);
    lemma_off(i * at, m, c);
    let e1 = (i * to - r * c) - (i * from - l * c);
    let e2 = (i * at - m * c) - (i * from - l * c);
    let (p, q) = (abs(r) + abs(l), abs(m) + abs(l));
    assert(abs(r) * c + abs(l) * c == p * c && abs(m) * c + abs(l) * c == q * c) by (nonlinear_arith)
        requires
            p == abs(r) + abs(l),
            q == abs(m) + abs(l),
    ;
    lemma_scaled_bound(x, e1, 2 * (p * c));
    lemma_scaled_bound(w, e2, 2 * (q * c));
    let e0 = x * (r - l) - (m - l) * w;
    let g = 3 * abs((m - l) * w) as int;
    assert(-(c * g) <= 0x100_0000 * (c * e0) <= c * g) by (nonlinear_arith)
        requires
            -g <= 0x100_0000 * e0 <= g,
            c > 0,
    ;
    let v = i * (x * (to - from) - w * (at - from));
    assert(v == c * e0 + x * e1 - w * e2) by {
        let (f, t, a) = (i * from, i * to, i * at);
        assert(v == x * (t - f) - w * (a - f)) by (nonlinear_arith)
            requires
                v == i * (x * (to - from) - w * (at - from)),
                f == i * from,
                t == i * to,
                a == i * at,
        ;
        assert(x * e1 == x * (t - f) - c * (x * (r - l))) by (nonlinear_arith)
            requires
                e1 == (t - r * c) - (f - l * c),
        ;
        assert(w * e2 == w * (a - f) - c * ((m - l) * w)) by (nonlinear_arith)
            requires
                e2 == (a - m * c) - (f - l * c),
        ;
        assert(c * e0 == c * (x * (r - l)) - c * ((m - l) * w)) by (nonlinear_arith)
            requires
                e0 == x * (r - l) - (m - l) * w,
        ;
    }
    let ax = abs(x) as int;
    assert(ax * (2 * (p * c)) == c * (2 * (ax * p)) && w * (2 * (q * c)) == c * (2 * (w * q)))
        by (nonlinear_arith);
    assert(c * (g + 2 * (ax * p) + 2 * (w * q)) == c * g + c * (2 * (ax * p)) + c * (2 * (w * q)))
        by (nonlinear_arith);
}

/// What the crosshair on a chart by trades is found from stays a number, none of it is so small that it
/// loses digits, and the trades can be counted.
pub open spec fn can_mark_trades(s: ChartState, trades: u16, size: Size, cursor: Point) -> bool {
    let region = s.visible_region(size);
    let ratio = cursor.x.over(size.width);
    let way = ratio.times(region.width);
    let cells = region.x.plus(way).over(s.cell_width);
    let at = cells.round().times(s.cell_width);
    let range = region.x.plus(region.width).minus(region.x);
    &&& cursor.x.is_finite()
    &&& region.x.is_finite()
    &&& region.width.is_finite()
    &&& cursor.x.divides(size.width)
    &&& ratio.multiplies(region.width)
    &&& region.x.plus(way).is_finite()
    &&& region.x.plus(way).divides(s.cell_width)
    &&& cells.round().neg().key() < 0x1_0000_0000_0000_0000 * unit(0)
    &&& cells.round().neg().to_u64() * trades <= u64::MAX
    &&& cells.round().multiplies(s.cell_width)
    &&& at.minus(region.x).is_finite()
    &&& region.x.plus(region.width).is_finite()
    &&& range.is_finite()
    &&& range.key() != 0
    &&& at.minus(region.x).divides(range)
    &&& at.minus(region.x).over(range).multiplies(size.width)
}

/// The pointer at `c` of the width `w` lies at most half a cell from the place `n` cells to the right of
/// the latest trade, up to rounding. The chart shows the width `v` from `x` on, in cells `d` wide.
pub open spec fn is_nearest_cell(n: int, d: int, x: int, v: int, c: int, w: int) -> bool {
    0x200_0000 * abs(w * (n * d - x) - c * v) <= 0x100_0000 * (w * d) + 12 * (w * (abs(n * d) + d)) + 6
        * abs(c * v)
}

/// A line at `y` of the width `w` lies at the place `n` cells to the right of the latest trade, up to
/// rounding. The chart shows the width `v` from `x` to about `end`, in cells `d` wide.
pub open spec fn is_line_at_cell(
    y: int,
    n: int,
    d: int,
    x: int,
    v: int,
    end: int,
    w: int,
) -> bool {
    0x100_0000 * abs(y * v - (n * d - x) * w) <= 16 * (w * (abs(n * d) + abs(x))) + abs(y) * (3 * abs(
        end,
    ) + abs(x))
}

/// On a chart by trades, the crosshair takes the cell nearest to the pointer: it lies at most half a cell
/// from the place that lies as far between the left and right end of what is visible as the pointer does
/// between the edges of the area. The vertical line lies at that cell. The trades marked are those
/// between the cell and the latest, and none where the cell is to the right of it. All of this is up to
/// rounding. The result is the number of cells from the latest trade to the right.
pub proof fn law_crosshair_marks_the_nearest_trades(
    s: ChartState,
    trades: u16,
    size: Size,
    cursor: Point,
    rounded_price: Single,
) -> (n: int)
    requires
        s.basis == Basis::Tick(trades),
        is_size(s.cell_width),
        is_size(size.width),
        can_mark_trades(s, trades, size, cursor),
    ensures
        ({
            let region = s.visible_region(size);
            let shown = s.crosshair_at(size, cursor, rounded_price);
            let (d, w) = (s.cell_width.key(), size.width.key());
            let (x, v) = (region.x.key(), region.width.key());
            let end = region.x.plus(region.width).key();
            &&& s.crosshair_fits(size, cursor)
            &&& n <= 0 ==> shown.interval == -n * trades
            &&& n >= 0 ==> shown.interval == 0
            &&& is_nearest_cell(n, d, x, v, cursor.x.key(), w)
            &&& is_line_at_cell(shown.vertical.start.x.key(), n, d, x, v, end, w)
        }),
{
    let region = s.visible_region(size);
    let ratio = cursor.x.over(size.width);
    let way = ratio.times(region.width);
    let place = region.x.plus(way);
    let cells = place.over(s.cell_width);
    let cell = cells.round();
    let at = cell.times(s.cell_width);
    let end = region.x.plus(region.width);
    let (part, range) = (at.minus(region.x), end.minus(region.x));
    let line = part.over(range).times(size.width);
    let u = unit(0) as int;
    lemma_unit_pos(0);
    Single::lemma_zero_key();
    Single::lemma_order(s.cell_width, Single { bits: ZERO });
    Single::lemma_order(size.width, Single { bits: ZERO });
    let n = cells.lemma_round_near();
    cell.lemma_neg_key();
    assert(-(n * u) == (-n) * u) by (nonlinear_arith);
    lemma_counted_cells(cell.neg(), -n);
    let steps = cell.neg().to_u64();
    assert(steps == s.crosshair_steps(size, cursor));
    assert(0 * trades == 0);
    assert(s.crosshair_at(size, cursor, rounded_price).interval == steps * trades);
    assert(s.crosshair_at(size, cursor, rounded_price).vertical.start.x == line);
    let (c, w, d) = (cursor.x.key(), size.width.key(), s.cell_width.key());
    let (x, v) = (region.x.key(), region.width.key());
    // the nearest cell
    lemma_part_of_length(cursor.x, size.width, region.width);
    Single::lemma_plus_near(region.x, way);
    Single::lemma_over_near(place, s.cell_width);
    lemma_nearest_cell(n, u, d, x, v, c, w, way.key(), place.key(), cells.key());
    // the line
    Single::lemma_times_near(cell, s.cell_width);
    assert((n * u) * d == (n * d) * u) by (nonlinear_arith);
    lemma_near_unscaled(at.key(), n * d, u, 16);
    Single::lemma_minus_near(at, region.x);
    Single::lemma_plus_near(region.x, region.width);
    Single::lemma_minus_near(end, region.x);
    lemma_part_of_length(part, range, size.width);
    lemma_line_at_cell(line.key(), n * d, x, v, end.key(), w, at.key(), part.key(), range.key());
    n
}

/// A whole number that is not negative is counted as it is, and a negative one as zero.
proof fn lemma_counted_cells(a: Single, n: int)
    requires
        a.is_finite(),
        a.key() == n * unit(0),
        a.key() < 0x1_0000_0000_0000_0000 * unit(0),
    ensures
        n >= 0 ==> a.to_u64() == n,
        n <= 0 ==> a.to_u64() == 0,
{
    let u = unit(0) as int;
    lemma_unit_pos(0);
    assert(0 * u == 0);
    if n >= 0 {
        assert(n * u >= 0) by (nonlinear_arith)
            requires
                n >= 0,
                u > 0,
        ;
        a.lemma_to_u64_near();
        let k = a.to_u64() as int;
        assert(k == n) by (nonlinear_arith)
            requires
                k * u <= n * u < (k + 1) * u,
                u > 0,
        ;
    } else {
        assert(n * u < 0) by (nonlinear_arith)
            requires
                n < 0,
                u > 0,
        ;
        Single::lemma_to_u64_order(a, a);
    }
}

/// The steps from the pointer to the nearest cell.
proof fn lemma_nearest_cell(
    n: int,
    u: int,
    d: int,
    x: int,
    v: int,
    c: int,
    w: int,
    q: int,
    p: int,
    k: int,
)
    requires
        u > 0,
        d > 0,
        w > 0,
        near(q * w, c * v, 33),
        near(p, x + q, 16),
        near(k * d, p * u, 16),
        2 * abs(n * u - k) <= u,
    ensures
        is_nearest_cell(n, d, x, v, c, w),
{
    let z = n * d;
    // the cell and the place
    let e0 = z * u - k * d;
    assert(-(u * d) <= 2 * e0 <= u * d) by (nonlinear_arith)
        requires
            -u <= 2 * (n * u - k) <= u,
            e0 == z * u - k * d,
            z == n * d,
            d > 0,
    ;
    let ap = abs(p) as int;
    assert(abs(p * u) == ap * u) by {
        lemma_abs_product(p, u);
    }
    let y = z - p;
    assert(y * u == z * u - p * u) by (nonlinear_arith)
        requires
            y == z - p,
    ;
    let g = 0x100_0000 * d + 2 * ap;
    assert(g * u == 0x100_0000 * (u * d) + 2 * (ap * u)) by (nonlinear_arith)
        requires
            g == 0x100_0000 * d + 2 * ap,
    ;
    assert(-g <= 0x200_0000 * y <= g) by (nonlinear_arith)
        requires
            -(g * u) <= 0x200_0000 * (y * u) <= g * u,
            u > 0,
    ;
    assert(ap <= 2 * (abs(z) + d));
    // the place and the pointer
    let e1 = p - (x + q);
    assert(-(2 * ap) <= 0x100_0000 * e1 <= 2 * ap);
    let h = 0x100_0000 * d + 12 * (abs(z) + d);
    let t = y + e1;
    assert(-h <= 0x200_0000 * t <= h);
    assert(-(w * h) <= 0x200_0000 * (w * t) <= w * h) by (nonlinear_arith)
        requires
            -h <= 0x200_0000 * t <= h,
            w > 0,
    ;
    assert(w * h == 0x100_0000 * (w * d) + 12 * (w * (abs(z) + d))) by (nonlinear_arith)
        requires
            h == 0x100_0000 * d + 12 * (abs(z) + d),
    ;
    assert(w * (z - x) == w * t + q * w) by (nonlinear_arith)
        requires
            t == (z - p) + (p - (x + q)),
    ;
}

/// The steps from the nearest cell to the line.
proof fn lemma_line_at_cell(
    y: int,
    z: int,
    x: int,
    v: int,
    end: int,
    w: int,
    at: int,
    part: int,
    range: int,
)
    requires
        w > 0,
        near(at, z, 16),
        near(part, at - x, 16),
        near(end, x + v, 16),
        near(range, end - x, 16),
        near(y * range, part * w, 33),
    ensures
        0x100_0000 * abs(y * v - (z - x) * w) <= 16 * (w * (abs(z) + abs(x))) + abs(y) * (3 * abs(end)
            + abs(x)),
{
    let e1 = range - v;
    let g1 = (3 * abs(end) + abs(x)) as int;
    assert(-g1 <= 0x100_0000 * e1 <= g1);
    lemma_scaled_bound(y, e1, g1);
    let b = (abs(z) + abs(x)) as int;
    let e2 = part - (z - x);
    assert(-(4 * b) <= 0x100_0000 * e2 <= 4 * b);
    lemma_scaled_bound(w, e2, 4 * b);
    assert(abs(part) <= 4 * b);
    lemma_abs_product(part, w);
    let a = abs(part) as int;
    assert(a * w <= 4 * (w * b)) by (nonlinear_arith)
        requires
            a <= 4 * b,
            w > 0,
    ;
    assert(w * (4 * b) == 4 * (w * b)) by (nonlinear_arith);
    assert(y * v == y * range - y * e1) by (nonlinear_arith)
        requires
            e1 == range - v,
    ;
    assert((z - x) * w == part * w - w * e2) by (nonlinear_arith)
        requires
            e2 == part - (z - x),
    ;
}

} // verus!
