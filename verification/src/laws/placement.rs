//! Cells are as wide and as high as the state says, and how far places and prices are off.
use crate::constants::ZERO;
use crate::float::accuracy::{
    keeps_digits, lemma_near_back, lemma_near_chain, lemma_near_scaled, lemma_near_unscaled, near,
};
use crate::float::arith::abs;
use crate::float::double::Double;
use crate::float::grid::{lemma_unit_pos, unit};
use crate::float::rounding::Format;
use crate::float::single::Single;
use crate::state::{Basis, ChartState};
use vstd::prelude::*;

verus! {

impl ChartState {
    /// The steps to the place of a price stay numbers, and none of them is so small that it loses
    /// digits.
    pub open spec fn can_place_price(self, price: Single) -> bool {
        let way = self.base_price_y.minus(price);
        &&& price.is_finite()
        &&& way.is_finite()
        &&& way.divides(self.tick_size)
        &&& way.over(self.tick_size).multiplies(self.cell_height)
    }

    /// The steps to the price at a place stay numbers, and none of them is so small that it loses
    /// digits.
    pub open spec fn can_read_price(self, y: Single) -> bool {
        &&& y.is_finite()
        &&& y.divides(self.cell_height)
        &&& y.over(self.cell_height).multiplies(self.tick_size)
        &&& self.y_to_price(y).is_finite()
    }

    /// How far below the base price the price at a place is.
    pub open spec fn way_at(self, y: Single) -> Single {
        y.over(self.cell_height).times(self.tick_size)
    }

    /// How far the place of a price can be off, in parts in two to the power of 24, times the tick.
    pub open spec fn placing_slack(self, price: Single) -> int {
        4 * (self.cell_height.key() * abs(self.base_price_y.key() - price.key()))
    }

    /// How far the price at a place can be off, in parts in two to the power of 24, times the height of
    /// a cell.
    pub open spec fn reading_slack(self, y: Single) -> int {
        3 * (self.tick_size.key() * abs(y.key())) + self.cell_height.key() * abs(
            self.base_price_y.key() - self.way_at(y).key(),
        )
    }

    /// The steps to the place of a time stay numbers, and none of them is so small that it loses
    /// digits.
    pub open spec fn can_place_time(self, interval: u64, time: u64) -> bool {
        let way = Double::from_u64(time).minus(Double::from_u64(self.latest_x));
        let cells = way.over(Double::from_u64(interval));
        let place = cells.times(self.cell_width.to_double());
        &&& way.is_finite()
        &&& way.divides(Double::from_u64(interval))
        &&& cells.multiplies(self.cell_width.to_double())
        &&& place.to_single().is_finite()
        &&& place.key() == 0 || keeps_digits(Format::single(), place.to_single().parts())
    }
}

/// A bound on a number bounds its multiples.
pub proof fn lemma_scaled_bound(c: int, e: int, g: int)
    requires
        -g <= 0x100_0000 * e <= g,
    ensures
        -(abs(c) * g) <= 0x100_0000 * (c * e) <= abs(c) * g,
{
    assert(-(abs(c) * g) <= 0x100_0000 * (c * e) <= abs(c) * g) by (nonlinear_arith)
        requires
            -g <= 0x100_0000 * e <= g,
            abs(c) == if c < 0 {
                -c
            } else {
                c
            },
    ;
}

pub proof fn lemma_scaled_abs(k: int, d: int)
    requires
        k > 0,
    ensures
        k * abs(d) == abs(k * d),
{
    assert(k * abs(d) == abs(k * d)) by (nonlinear_arith)
        requires
            k > 0,
            abs(d) == if d < 0 {
                -d
            } else {
                d
            },
            abs(k * d) == if k * d < 0 {
                -(k * d)
            } else {
                k * d
            },
    ;
}

/// Where a price is placed: its distance from the base price, in ticks, times the height of a cell.
pub proof fn law_prices_lie_at_their_distance(s: ChartState, price: Single)
    requires
        s.has_price_scale(),
        s.can_place_price(price),
    ensures
        s.tick_size.key() > 0,
        s.cell_height.key() > 0,
        s.price_to_y(price).is_finite(),
        0x100_0000 * abs(
            s.tick_size.key() * s.price_to_y(price).key() - s.cell_height.key() * (
            s.base_price_y.key() - price.key()),
        ) <= s.placing_slack(price),
{
    lemma_price_placed(s, price);
}

/// The steps to the place of a price.
pub proof fn lemma_price_placed(s: ChartState, price: Single)
    requires
        s.has_price_scale(),
        s.can_place_price(price),
    ensures
        s.tick_size.key() > 0,
        s.cell_height.key() > 0,
        s.price_to_y(price).is_finite(),
        0x100_0000 * abs(
            s.tick_size.key() * s.price_to_y(price).key() - s.cell_height.key() * (
            s.base_price_y.key() - price.key()),
        ) <= s.placing_slack(price),
{
    let u = unit(0) as int;
    let zero = Single { bits: ZERO };
    let way = s.base_price_y.minus(price);
    let ticks = way.over(s.tick_size);
    let place = s.price_to_y(price);
    lemma_unit_pos(0);
    Single::lemma_zero_key();
    Single::lemma_order(s.tick_size, zero);
    Single::lemma_order(s.cell_height, zero);
    Single::lemma_minus_near(s.base_price_y, price);
    Single::lemma_over_near(way, s.tick_size);
    Single::lemma_times_near(ticks, s.cell_height);
    let (k, h) = (s.tick_size.key(), s.cell_height.key());
    let (d, r, y) = (way.key(), ticks.key(), place.key());
    let exact = s.base_price_y.key() - price.key();
    lemma_near_scaled(y * u, r * h, k, 16);
    lemma_near_scaled(r * k, d * u, h, 16);
    assert((r * h) * k == (r * k) * h) by (nonlinear_arith);
    lemma_near_chain((y * u) * k, (r * k) * h, (d * u) * h, 16, 16);
    assert((y * u) * k == (k * y) * u) by (nonlinear_arith);
    assert((d * u) * h == (d * h) * u) by (nonlinear_arith);
    lemma_near_unscaled(k * y, d * h, u, 33);
    lemma_near_scaled(d, exact, h, 16);
    lemma_near_chain(k * y, d * h, exact * h, 33, 16);
    assert(exact * h == h * exact) by (nonlinear_arith);
    lemma_scaled_abs(h, exact);
}

/// Which price is read at a place: the base price less the place, in cells, times the tick.
pub proof fn law_places_have_their_prices(s: ChartState, y: Single)
    requires
        s.has_price_scale(),
        s.can_read_price(y),
    ensures
        s.tick_size.key() > 0,
        s.cell_height.key() > 0,
        0x100_0000 * abs(
            s.cell_height.key() * s.y_to_price(y).key() - (s.cell_height.key()
                * s.base_price_y.key() - s.tick_size.key() * y.key()),
        ) <= s.reading_slack(y),
{
    lemma_price_read(s, y);
}

/// The steps to the price at a place.
pub proof fn lemma_price_read(s: ChartState, y: Single)
    requires
        s.has_price_scale(),
        s.can_read_price(y),
    ensures
        s.tick_size.key() > 0,
        s.cell_height.key() > 0,
        0x100_0000 * abs(
            s.cell_height.key() * s.y_to_price(y).key() - (s.cell_height.key()
                * s.base_price_y.key() - s.tick_size.key() * y.key()),
        ) <= s.reading_slack(y),
{
    let u = unit(0) as int;
    let zero = Single { bits: ZERO };
    let cells = y.over(s.cell_height);
    let way = s.way_at(y);
    let price = s.y_to_price(y);
    lemma_unit_pos(0);
    Single::lemma_zero_key();
    Single::lemma_order(s.tick_size, zero);
    Single::lemma_order(s.cell_height, zero);
    Single::lemma_over_near(y, s.cell_height);
    Single::lemma_times_near(cells, s.tick_size);
    Single::lemma_minus_near(s.base_price_y, way);
    let (k, h, b) = (s.tick_size.key(), s.cell_height.key(), s.base_price_y.key());
    let (c, m, p, x) = (cells.key(), way.key(), price.key(), y.key());
    lemma_near_scaled(m * u, c * k, h, 16);
    lemma_near_scaled(c * h, x * u, k, 16);
    assert((c * k) * h == (c * h) * k) by (nonlinear_arith);
    lemma_near_chain((m * u) * h, (c * h) * k, (x * u) * k, 16, 16);
    assert((m * u) * h == (h * m) * u) by (nonlinear_arith);
    assert((x * u) * k == (k * x) * u) by (nonlinear_arith);
    lemma_near_unscaled(h * m, k * x, u, 33);
    lemma_scaled_abs(k, x);
    let e = p - (b - m);
    let g = abs(b - m) as int;
    assert(h * p - (h * b - k * x) == h * e - (h * m - k * x)) by (nonlinear_arith)
        requires
            e == p - (b - m),
    ;
    assert(-(h * g) <= 0x100_0000 * (h * e) <= h * g) by (nonlinear_arith)
        requires
            -g <= 0x100_0000 * e <= g,
            h > 0,
    ;
}

/// The price of one tick more lies one cell higher, up to rounding.
pub proof fn law_next_tick_is_one_cell_higher(s: ChartState, price: Single)
    requires
        s.has_price_scale(),
        s.can_place_price(price),
        s.can_place_price(price.plus(s.tick_size)),
    ensures
        ({
            let next = price.plus(s.tick_size);
            0x100_0000 * (s.tick_size.key() * abs(
                s.price_to_y(next).key() - (s.price_to_y(price).key() - s.cell_height.key()),
            )) <= s.placing_slack(price) + s.placing_slack(next) + s.cell_height.key() * abs(
                price.key() + s.tick_size.key(),
            )
        }),
{
    let next = price.plus(s.tick_size);
    law_prices_lie_at_their_distance(s, price);
    law_prices_lie_at_their_distance(s, next);
    Single::lemma_plus_near(price, s.tick_size);
    let (k, h, b) = (s.tick_size.key(), s.cell_height.key(), s.base_price_y.key());
    let (p, q) = (price.key(), next.key());
    let (y, z) = (s.price_to_y(price).key(), s.price_to_y(next).key());
    let e = q - (p + k);
    let g = abs(p + k) as int;
    let d = z - (y - h);
    assert(k * d == (k * z - h * (b - q)) - (k * y - h * (b - p)) - h * e) by (nonlinear_arith)
        requires
            d == z - (y - h),
            e == q - (p + k),
    ;
    assert(-(h * g) <= 0x100_0000 * (h * e) <= h * g) by (nonlinear_arith)
        requires
            -g <= 0x100_0000 * e <= g,
            h > 0,
    ;
    lemma_scaled_abs(k, d);
}

/// The number of cells between two times, up to rounding.
pub proof fn lemma_cells_near(n: int, i: int, u: int, sign: int, way: int, span: int, cells: int)
    requires
        u > 0,
        near(way, n * u, 1),
        near(span, i * u, 1),
        near(cells * span, way * u, 1),
    ensures
        near((i * cells) * sign, (n * u) * sign, 6),
{
    lemma_near_back(span, i * u, 1);
    lemma_near_scaled(i * u, span, cells, 2);
    assert(span * cells == cells * span) by (nonlinear_arith);
    lemma_near_chain((i * u) * cells, cells * span, way * u, 2, 1);
    assert((i * u) * cells == (i * cells) * u) by (nonlinear_arith);
    lemma_near_unscaled(i * cells, way, u, 4);
    lemma_near_chain(i * cells, way, n * u, 4, 1);
    lemma_near_scaled(i * cells, n * u, sign, 6);
}

/// Where a time is placed: its distance from the latest time, in cells, times the width of a cell.
pub proof fn law_times_lie_at_their_distance(s: ChartState, interval: u64, time: u64)
    requires
        s.basis == Basis::Time(interval),
        s.has_interval_scale(),
        s.latest_x < 0x20_0000_0000_0000,
        time < 0x20_0000_0000_0000,
        s.can_place_time(interval, time),
    ensures
        s.cell_width.key() > 0,
        near(
            interval * s.interval_to_x(time).key(),
            (time - s.latest_x) * s.cell_width.key(),
            25,
        ),
{
    lemma_time_placed(s, interval, time);
}

/// The steps to the place of a time.
proof fn lemma_time_placed(s: ChartState, interval: u64, time: u64)
    requires
        s.basis == Basis::Time(interval),
        s.has_interval_scale(),
        s.latest_x < 0x20_0000_0000_0000,
        time < 0x20_0000_0000_0000,
        s.can_place_time(interval, time),
    ensures
        s.cell_width.key() > 0,
        near(
            interval * s.interval_to_x(time).key(),
            (time - s.latest_x) * s.cell_width.key(),
            25,
        ),
{
    let u = unit(0) as int;
    let n = time - s.latest_x;
    let i = interval as int;
    let w = s.cell_width.key();
    let wide = s.cell_width.to_double();
    let span = Double::from_u64(interval);
    let way = Double::from_u64(time).minus(Double::from_u64(s.latest_x));
    let cells = way.over(span);
    let place = cells.times(wide);
    let x = place.to_single();
    lemma_unit_pos(0);
    Single::lemma_zero_key();
    Single::lemma_order(s.cell_width, Single { bits: ZERO });
    s.cell_width.lemma_to_double_exact();
    Double::lemma_from_u64_bounds(interval);
    Double::lemma_from_u64_bounds(time);
    Double::lemma_from_u64_bounds(s.latest_x);
    Double::lemma_from_u64_exact(time);
    Double::lemma_from_u64_exact(s.latest_x);
    Double::lemma_from_u64_near(interval);
    assert(time * u - s.latest_x * u == n * u) by (nonlinear_arith)
        requires
            n == time - s.latest_x,
    ;
    Double::lemma_minus_near(Double::from_u64(time), Double::from_u64(s.latest_x));
    Double::lemma_over_near(way, span);
    Double::lemma_times_near(cells, wide);
    place.lemma_to_single_near();
    let (c, p) = (cells.key(), place.key());
    lemma_cells_near(n, i, u, 1, way.key(), span.key(), c);
    lemma_near_scaled(i * c, n * u, w, 6);
    lemma_near_scaled(p * u, c * w, i, 1);
    assert((c * w) * i == (i * c) * w) by (nonlinear_arith);
    lemma_near_chain((p * u) * i, (i * c) * w, (n * u) * w, 1, 6);
    assert((p * u) * i == (p * i) * u) by (nonlinear_arith);
    assert((n * u) * w == (n * w) * u) by (nonlinear_arith);
    lemma_near_unscaled(p * i, n * w, u, 8);
    lemma_near_scaled(x.key(), p, i, 16);
    lemma_near_chain(x.key() * i, p * i, n * w, 16, 8);
    assert(x.key() * i == i * x.key()) by (nonlinear_arith);
}

/// On a chart by time, one interval later lies one cell further right, up to two parts in two to the
/// power of 24 of the distances of both times from the latest.
pub proof fn law_next_interval_is_one_cell_further(s: ChartState, interval: u64, time: u64)
    requires
        s.basis == Basis::Time(interval),
        s.has_interval_scale(),
        s.latest_x < 0x20_0000_0000_0000,
        time + interval < 0x20_0000_0000_0000,
        s.can_place_time(interval, time),
        s.can_place_time(interval, (time + interval) as u64),
    ensures
        ({
            let next = (time + interval) as u64;
            0x100_0000 * (interval * abs(
                s.interval_to_x(next).key() - (s.interval_to_x(time).key() + s.cell_width.key()),
            )) <= 2 * (s.cell_width.key() * (abs(time - s.latest_x) + abs(next - s.latest_x)))
        }),
{
    let next = (time + interval) as u64;
    law_times_lie_at_their_distance(s, interval, time);
    law_times_lie_at_their_distance(s, interval, next);
    let (i, w) = (interval as int, s.cell_width.key());
    let (n, m) = (time - s.latest_x, next - s.latest_x);
    let (x, z) = (s.interval_to_x(time).key(), s.interval_to_x(next).key());
    let d = z - (x + w);
    assert(i * d == (i * z - m * w) - (i * x - n * w)) by (nonlinear_arith)
        requires
            d == z - (x + w),
            m == n + i,
    ;
    lemma_scaled_abs(w, n);
    lemma_scaled_abs(w, m);
    assert(w * n == n * w && w * m == m * w) by (nonlinear_arith);
    assert(w * (abs(n) + abs(m)) == w * abs(n) + w * abs(m)) by (nonlinear_arith);
    lemma_scaled_abs(i, d);
}

/// Where a trade is placed: so many cells to the left.
pub proof fn law_trades_lie_at_their_distance(s: ChartState, n: u64)
    requires
        s.basis is Tick,
        s.has_interval_scale(),
        Single::from_u64(n).multiplies(s.cell_width),
    ensures
        s.cell_width.key() > 0,
        near(-s.interval_to_x(n).key(), n * s.cell_width.key(), 33),
{
    lemma_trade_placed(s, n);
}

/// The steps to the place of a trade.
proof fn lemma_trade_placed(s: ChartState, n: u64)
    requires
        s.basis is Tick,
        s.has_interval_scale(),
        Single::from_u64(n).multiplies(s.cell_width),
    ensures
        s.cell_width.key() > 0,
        near(-s.interval_to_x(n).key(), n * s.cell_width.key(), 33),
{
    let u = unit(0) as int;
    let w = s.cell_width.key();
    let count = Single::from_u64(n);
    let place = count.times(s.cell_width);
    lemma_unit_pos(0);
    Single::lemma_zero_key();
    Single::lemma_order(s.cell_width, Single { bits: ZERO });
    Single::lemma_from_u64_bounds(n);
    Single::lemma_from_u64_near(n);
    Single::lemma_times_near(count, s.cell_width);
    place.lemma_neg_key();
    lemma_near_scaled(count.key(), n * u, w, 16);
    lemma_near_chain(place.key() * u, count.key() * w, (n * u) * w, 16, 16);
    assert((n * u) * w == (n * w) * u) by (nonlinear_arith);
    lemma_near_unscaled(place.key(), n * w, u, 33);
}

/// On a chart by trades, one trade further back lies one cell further left, up to three parts in two
/// to the power of 24 of the distances of both trades from the latest.
pub proof fn law_next_trade_is_one_cell_further(s: ChartState, n: u64)
    requires
        s.basis is Tick,
        s.has_interval_scale(),
        n < u64::MAX,
        Single::from_u64(n).multiplies(s.cell_width),
        Single::from_u64((n + 1) as u64).multiplies(s.cell_width),
    ensures
        0x100_0000 * abs(
            s.interval_to_x((n + 1) as u64).key() - (s.interval_to_x(n).key() - s.cell_width.key()),
        ) <= 3 * (s.cell_width.key() * (2 * n + 1)),
{
    law_trades_lie_at_their_distance(s, n);
    law_trades_lie_at_their_distance(s, (n + 1) as u64);
    let w = s.cell_width.key();
    assert((n + 1) * w == n * w + w) by (nonlinear_arith);
    assert(w * (2 * n + 1) == 2 * (n * w) + w) by (nonlinear_arith);
    assert(n * w >= 0) by (nonlinear_arith)
        requires
            n >= 0,
            w > 0,
    ;
}

/// The steps from a horizontal place to the time there stay numbers, and none of them is so small that
/// it loses digits.
pub open spec fn can_read_time(s: ChartState, interval: u64, x: Single) -> bool {
    let distance = if x.key() <= 0 {
        x.neg()
    } else {
        x
    };
    &&& x.is_finite()
    &&& distance.divides(s.cell_width)
    &&& distance.over(s.cell_width).multiplies(Single::from_u64(interval))
}

/// Which time a place has: as many cells from the latest time as the place is from the origin, to the same
/// side. It is off by at most four parts in two to the power of 24, and one millisecond. Before time
/// zero, and too far away to be counted, there are no times.
pub proof fn law_places_have_their_times(s: ChartState, interval: u64, x: Single)
    requires
        s.basis == Basis::Time(interval),
        s.has_interval_scale(),
        s.latest_x < 0x20_0000_0000_0000,
        can_read_time(s, interval, x),
        interval * abs(x.key()) < 0x20_0000_0000_0000 * s.cell_width.key(),
        x.key() <= 0 ==> s.x_to_interval(x) > 0,
    ensures
        0x100_0000 * abs(
            (s.x_to_interval(x) - s.latest_x) * s.cell_width.key() - interval * x.key(),
        ) <= 0x100_0000 * s.cell_width.key() + 4 * (interval * abs(x.key())),
{
    let u = unit(0) as int;
    let zero = Single { bits: ZERO };
    let (i, w) = (interval as int, s.cell_width.key());
    let distance = if x.key() <= 0 {
        x.neg()
    } else {
        x
    };
    let span = Single::from_u64(interval);
    let cells = distance.over(s.cell_width);
    let way = cells.times(span);
    lemma_unit_pos(0);
    Single::lemma_zero_key();
    Single::lemma_order(s.cell_width, zero);
    Single::lemma_order(x, zero);
    x.lemma_neg_key();
    Single::lemma_from_u64_bounds(interval);
    Single::lemma_from_u64_near(interval);
    Single::lemma_over_near(distance, s.cell_width);
    Single::lemma_times_near(cells, span);
    Single::lemma_over_order(zero, distance, s.cell_width);
    Single::lemma_times_order(zero, cells, span);
    Single::lemma_zero_times(zero, span);
    let (d, c, z) = (distance.key(), cells.key(), way.key());
    lemma_near_scaled(span.key(), i * u, c, 16);
    assert(span.key() * c == c * span.key()) by (nonlinear_arith);
    lemma_near_chain(z * u, c * span.key(), (i * u) * c, 16, 16);
    assert((i * u) * c == (i * c) * u) by (nonlinear_arith);
    lemma_near_unscaled(z, i * c, u, 33);
    lemma_near_scaled(z, i * c, w, 33);
    lemma_near_scaled(c * w, d * u, i, 16);
    assert((i * c) * w == (c * w) * i) by (nonlinear_arith);
    lemma_near_chain(z * w, (c * w) * i, (d * u) * i, 33, 16);
    let e = i * d;
    assert((d * u) * i == e * u) by (nonlinear_arith)
        requires
            e == i * d,
    ;
    assert(e >= 0) by (nonlinear_arith)
        requires
            e == i * d,
            i >= 0,
            d >= 0,
    ;
    assert(e * u >= 0) by (nonlinear_arith)
        requires
            e >= 0,
            u > 0,
    ;
    lemma_way_is_short(z, w, e, u);
    way.lemma_to_u64_near();
    let t = way.to_u64() as int;
    lemma_counted_way(z, w, e, u, t);
    assert(i * x.key() == e || i * x.key() == -e) by (nonlinear_arith)
        requires
            e == i * d,
            d == x.key() || d == -x.key(),
    ;
    assert(x.key() <= 0 ==> i * x.key() == -e) by (nonlinear_arith)
        requires
            e == i * d,
            x.key() <= 0 ==> d == -x.key(),
    ;
    assert(x.key() > 0 ==> i * x.key() == e) by (nonlinear_arith)
        requires
            e == i * d,
            x.key() > 0 ==> d == x.key(),
    ;
    assert((-t) * w == -(t * w)) by (nonlinear_arith);
    assert(i * abs(x.key()) == e);
    assert(t < 0x40_0000_0000_0000) by (nonlinear_arith)
        requires
            t * u <= z,
            z < 0x40_0000_0000_0000 * u,
            u > 0,
    ;
    let r = s.x_to_interval(x) - s.latest_x;
    if x.key() <= 0 {
        assert(r == -t);
        assert(r * w == -(t * w));
    } else {
        assert(r == t);
    }
}

proof fn lemma_way_is_short(z: int, w: int, e: int, u: int)
    requires
        w > 0,
        u > 0,
        e >= 0,
        near(z * w, e * u, 50),
        e < 0x20_0000_0000_0000 * w,
    ensures
        z < 0x40_0000_0000_0000 * u,
        z < 0x1_0000_0000_0000_0000 * u,
{
    let x = e * u;
    assert(0 <= x < 0x20_0000_0000_0000 * (w * u)) by (nonlinear_arith)
        requires
            x == e * u,
            0 <= e < 0x20_0000_0000_0000 * w,
            u > 0,
    ;
    assert(z * w < 0x40_0000_0000_0000 * (w * u));
    assert(z < 0x40_0000_0000_0000 * u) by (nonlinear_arith)
        requires
            z * w < 0x40_0000_0000_0000 * (w * u),
            w > 0,
    ;
}

proof fn lemma_counted_way(z: int, w: int, e: int, u: int, t: int)
    requires
        w > 0,
        u > 0,
        e >= 0,
        near(z * w, e * u, 50),
        t * u <= z < (t + 1) * u,
    ensures
        0x100_0000 * abs(t * w - e) <= 0x100_0000 * w + 4 * e,
{
    let x = e * u;
    let y = z * w;
    assert(x >= 0) by (nonlinear_arith)
        requires
            x == e * u,
            e >= 0,
            u > 0,
    ;
    assert((t * w) * u <= y < (t * w) * u + w * u) by (nonlinear_arith)
        requires
            y == z * w,
            t * u <= z < (t + 1) * u,
            w > 0,
    ;
    let f = t * w - e;
    assert(f * u == (t * w) * u - x) by (nonlinear_arith)
        requires
            f == t * w - e,
            x == e * u,
    ;
    assert(0x100_0000 * f <= 4 * e) by (nonlinear_arith)
        requires
            0x100_0000 * (f * u) <= 4 * x,
            x == e * u,
            u > 0,
    ;
    assert(-(0x100_0000 * w + 4 * e) <= 0x100_0000 * f) by (nonlinear_arith)
        requires
            -(0x100_0000 * (w * u) + 4 * x) <= 0x100_0000 * (f * u),
            x == e * u,
            u > 0,
    ;
}

/// Which trade a place has: the one nearest to as many cells from the latest trade as the place is left
/// of the origin. To the right of the origin it is the latest.
pub proof fn law_places_have_their_trades(s: ChartState, x: Single)
    requires
        s.basis is Tick,
        s.has_interval_scale(),
        x.is_finite(),
        x.divides(s.cell_width),
        abs(x.key()) < 0x20_0000_0000_0000 * s.cell_width.key(),
    ensures
        x.key() <= 0 ==> 0x200_0000 * abs(s.x_to_interval(x) * s.cell_width.key() + x.key())
            <= 0x100_0000 * s.cell_width.key() + 2 * abs(x.key()),
        x.key() >= 0 ==> s.x_to_interval(x) == 0,
{
    let u = unit(0) as int;
    let zero = Single { bits: ZERO };
    let w = s.cell_width.key();
    let cells = x.over(s.cell_width);
    let back = cells.neg();
    lemma_unit_pos(0);
    Single::lemma_zero_key();
    Single::lemma_order(s.cell_width, zero);
    Single::lemma_over_near(x, s.cell_width);
    cells.lemma_neg_key();
    let n = back.lemma_round_near();
    let (v, r) = (back.key(), back.round().key());
    assert(cells.key() * w == -(v * w)) by (nonlinear_arith)
        requires
            v == -cells.key(),
    ;
    if x.key() >= 0 {
        Single::lemma_over_order(zero, x, s.cell_width);
        Single::lemma_round_zero(zero);
        Single::lemma_round_order(back, zero);
        Single::lemma_to_u64_order(back.round(), back.round());
    }
    if x.key() <= 0 {
        Single::lemma_over_order(x, zero, s.cell_width);
        Single::lemma_over_order(zero, zero, s.cell_width);
        Single::lemma_round_zero(zero);
        Single::lemma_round_order(zero, back);
        let y = -x.key();
        assert(x.key() * u == -(y * u)) by (nonlinear_arith)
            requires
                y == -x.key(),
        ;
        lemma_counted_trades(v, w, y, u, n);
        back.round().lemma_to_u64_near();
        let t = back.round().to_u64() as int;
        assert(t == n) by (nonlinear_arith)
            requires
                t * u <= n * u < (t + 1) * u,
                u > 0,
        ;
    }
}

proof fn lemma_counted_trades(v: int, w: int, y: int, u: int, n: int)
    requires
        w > 0,
        u > 0,
        y >= 0,
        0x1000_0000 * abs(v * w - y * u) <= 16 * abs(y * u),
        2 * abs(n * u - v) <= u,
        y < 0x20_0000_0000_0000 * w,
    ensures
        0x200_0000 * abs(n * w - y) <= 0x100_0000 * w + 2 * y,
        n * u < 0x1_0000_0000_0000_0000 * u,
{
    let x = y * u;
    assert(x >= 0) by (nonlinear_arith)
        requires
            x == y * u,
            y >= 0,
            u > 0,
    ;
    assert(2 * ((n * u) * w - v * w) <= u * w && -(u * w) <= 2 * ((n * u) * w - v * w))
        by (nonlinear_arith)
        requires
            2 * abs(n * u - v) <= u,
            abs(n * u - v) == if n * u - v < 0 {
                -(n * u - v)
            } else {
                n * u - v
            },
            w > 0,
    ;
    let f = n * w - y;
    assert(f * u == (n * u) * w - x) by (nonlinear_arith)
        requires
            f == n * w - y,
            x == y * u,
    ;
    assert(0x200_0000 * f <= 0x100_0000 * w + 2 * y) by (nonlinear_arith)
        requires
            0x200_0000 * (f * u) <= 0x100_0000 * (u * w) + 2 * x,
            x == y * u,
            u > 0,
    ;
    assert(-(0x100_0000 * w + 2 * y) <= 0x200_0000 * f) by (nonlinear_arith)
        requires
            -(0x100_0000 * (u * w) + 2 * x) <= 0x200_0000 * (f * u),
            x == y * u,
            u > 0,
    ;
    assert(n < 0x40_0000_0000_0000) by (nonlinear_arith)
        requires
            0x200_0000 * f <= 0x100_0000 * w + 2 * y,
            f == n * w - y,
            y < 0x20_0000_0000_0000 * w,
            w > 0,
    ;
    assert(n * u < 0x1_0000_0000_0000_0000 * u) by (nonlinear_arith)
        requires
            n < 0x40_0000_0000_0000,
            u > 0,
    ;
}

} // verus!
