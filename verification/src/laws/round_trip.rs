//! Places lead back to the prices, times and trades that were put there.
use crate::constants::ZERO;
use crate::float::accuracy::{lemma_near_chain, lemma_near_scaled, lemma_near_unscaled, near};
use crate::float::arith::{abs, product, quotient};
use crate::float::convert::{nearest_whole, whole};
use crate::float::double::Double;
use crate::float::error::{lemma_multiple_restored, lemma_short_exact};
use crate::float::grid::{lemma_unit_pos, unit};
use crate::float::monotone::{
    key, lemma_key_bound, lemma_magnitude_sign, lemma_nearest_whole_key, lemma_product_key,
    lemma_quotient_key, lemma_round_sign,
};
use crate::float::rounding::{magnitude, round, Format, Parts};
use crate::float::single::Single;
use crate::laws::placement::{
    lemma_cells_near, law_prices_lie_at_their_distance, law_places_have_their_prices, lemma_scaled_abs,
};
use crate::state::{Basis, ChartState};
use vstd::arithmetic::power2::lemma2_to64;
use vstd::prelude::*;

verus! {

/// The trade that is found at the place of a trade is that trade, for the four million trades
/// before the latest.
pub proof fn law_trades_are_found_where_they_lie(s: ChartState, n: u64)
    requires
        s.basis is Tick,
        s.has_interval_scale(),
        n < 0x40_0000,
        s.interval_to_x(n).is_finite(),
    ensures
        s.x_to_interval(s.interval_to_x(n)) == n,
{
    let f = Format::single();
    let width = s.cell_width;
    let u = unit(0);
    Single::lemma_zero_key();
    Single::lemma_order(width, Single { bits: ZERO });
    width.lemma_parts_canonical();
    lemma_unit_pos(0);
    lemma2_to64();
    reveal(Single::spec_from_u64);
    reveal(Single::spec_times);
    reveal(Single::spec_over);
    reveal(Single::spec_round);
    reveal(Single::spec_to_u64);
    let count = Single::from_u64(n);
    let place = count.times(width);
    let x = place.neg();
    let ratio = x.over(width);
    let back = ratio.neg();
    place.lemma_neg_key();
    ratio.lemma_neg_key();
    if n == 0 {
        Single::lemma_from_zero();
        Single::lemma_zero_times(count, width);
        Single::lemma_over_order(x, x, width);
        Single::lemma_round_zero(back);
        Single::lemma_to_u64_order(back.round(), back.round());
    } else {
        // the number of trades is held exactly
        lemma_short_exact(f, n as nat, 0);
        lemma_round_sign(f, magnitude(n as nat, 0), 1);
        Single::lemma_parts_of_pack(whole(f, n as nat));
        assert(count.key() == n * u);
        let num = lemma_product_key(f, count.parts(), width.parts());
        let w = abs(width.key());
        assert(n * u > 0) by (nonlinear_arith)
            requires
                n >= 1,
                u > 0,
        ;
        assert(num == n * w) by (nonlinear_arith)
            requires
                num * u == abs(count.key()) * w,
                abs(count.key()) == n * u,
                u > 0,
        ;
        let p = product(f, count.parts(), width.parts());
        Single::lemma_parts_of_pack(p);
        lemma_round_sign(f, num, 1);
        lemma_key_bound(f, round(f, false, num, 1));
        lemma_key_bound(f, p);
        lemma_multiple_restored(n as nat, width.parts());
        let v = key(round(f, false, num, 1));
        assert(place.key() == v);
        assert(x.key() == -v);
        lemma_quotient_key(f, x.parts(), width.parts());
        x.lemma_parts_canonical();
        let t = key(round(f, false, abs(v) * u, w));
        Single::lemma_parts_of_pack(quotient(f, x.parts(), width.parts()));
        assert(ratio.key() == -t);
        assert(back.key() == t);
        back.lemma_parts_canonical();
        lemma_round_sign(f, abs(v) * u, w);
        lemma_nearest_whole_key(f, back.parts());
        let r = nearest_whole(f, back.parts());
        Single::lemma_parts_of_pack(r);
        assert(key(r) == n * u);
        lemma_key_bound(f, r);
        if let Parts::Finite { neg, mant, exp } = r {
            lemma_magnitude_sign(mant as nat, exp as int);
            vstd::arithmetic::div_mod::lemma_div_multiples_vanish(n as int, u as int);
            assert(n * u == u * n) by (nonlinear_arith);
        }
    }
}

impl ChartState {
    /// The steps between a time, its place and the time there stay numbers, and none of them is so
    /// small that it loses digits.
    pub open spec fn can_read_time_back(self, interval: u64, time: u64) -> bool {
        let x = self.interval_to_x(time);
        let distance = if x.le(Single { bits: ZERO }) {
            x.neg()
        } else {
            x
        };
        &&& self.can_place_time(interval, time)
        &&& distance.divides(self.cell_width)
        &&& distance.over(self.cell_width).multiplies(Single::from_u64(interval))
    }
}

/// The price that is found at the place of a price is that price, up to rounding.
pub proof fn law_prices_are_found_where_they_lie(s: ChartState, price: Single)
    requires
        s.has_price_scale(),
        s.can_place_price(price),
        s.can_read_price(s.price_to_y(price)),
    ensures
        0x100_0000 * (s.cell_height.key() * abs(
            s.y_to_price(s.price_to_y(price)).key() - price.key(),
        )) <= s.placing_slack(price) + s.reading_slack(s.price_to_y(price)),
{
    let y = s.price_to_y(price);
    law_prices_lie_at_their_distance(s, price);
    law_places_have_their_prices(s, y);
    let (k, h, b, p) = (s.tick_size.key(), s.cell_height.key(), s.base_price_y.key(), price.key());
    let q = s.y_to_price(y).key();
    let d = q - p;
    assert(h * d == (h * q - (h * b - k * y.key())) - (k * y.key() - h * (b - p)))
        by (nonlinear_arith)
        requires
            d == q - p,
    ;
    lemma_scaled_abs(h, d);
}

/// The place that is found for the price at a place is that place, up to rounding.
pub proof fn law_places_are_found_by_their_prices(s: ChartState, y: Single)
    requires
        s.has_price_scale(),
        s.can_read_price(y),
        s.can_place_price(s.y_to_price(y)),
    ensures
        0x100_0000 * (s.tick_size.key() * abs(s.price_to_y(s.y_to_price(y)).key() - y.key()))
            <= s.placing_slack(s.y_to_price(y)) + s.reading_slack(y),
{
    let price = s.y_to_price(y);
    law_places_have_their_prices(s, y);
    law_prices_lie_at_their_distance(s, price);
    let (k, h, b, p) = (s.tick_size.key(), s.cell_height.key(), s.base_price_y.key(), price.key());
    let z = s.price_to_y(price).key();
    let d = z - y.key();
    assert(k * d == (k * z - h * (b - p)) - (h * p - (h * b - k * y.key()))) by (nonlinear_arith)
        requires
            d == z - y.key(),
    ;
    lemma_scaled_abs(k, d);
}

/// The distance that is read back from a place, up to rounding.
proof fn lemma_way_back_near(
    i: int,
    w: int,
    u: int,
    sign: int,
    cells: int,
    place: int,
    x: int,
    span: int,
    cells_back: int,
    way_back: int,
)
    requires
        u > 0,
        w > 0,
        near(place * u, cells * w, 1),
        near(x, place, 16),
        near(cells_back * w, (sign * x) * u, 16),
        near(span, i * u, 16),
        near(way_back * u, cells_back * span, 16),
    ensures
        near(way_back, (i * cells) * sign, 69),
{
    let c = cells_back;
    lemma_near_scaled(span, i * u, c, 16);
    assert(span * c == c * span) by (nonlinear_arith);
    lemma_near_chain(way_back * u, c * span, (i * u) * c, 16, 16);
    assert((i * u) * c == (i * c) * u) by (nonlinear_arith);
    lemma_near_unscaled(way_back, i * c, u, 33);
    lemma_near_scaled(way_back, i * c, w, 33);
    lemma_near_scaled(c * w, (sign * x) * u, i, 16);
    assert((i * c) * w == (c * w) * i) by (nonlinear_arith);
    lemma_near_chain(way_back * w, (c * w) * i, ((sign * x) * u) * i, 33, 16);
    let k = (sign * u) * i;
    lemma_near_scaled(x, place, k, 16);
    assert(((sign * x) * u) * i == x * k) by (nonlinear_arith)
        requires
            k == (sign * u) * i,
    ;
    lemma_near_chain(way_back * w, x * k, place * k, 50, 16);
    lemma_near_scaled(place * u, cells * w, sign * i, 1);
    assert((place * u) * (sign * i) == place * k) by (nonlinear_arith)
        requires
            k == (sign * u) * i,
    ;
    lemma_near_chain(way_back * w, place * k, (cells * w) * (sign * i), 67, 1);
    assert((cells * w) * (sign * i) == ((i * cells) * sign) * w) by (nonlinear_arith);
    lemma_near_unscaled(way_back, (i * cells) * sign, w, 69);
}

/// A distance that is near a whole number of less than 54 digits, and not negative.
proof fn lemma_distance_bounds(z: int, m: int, u: int)
    requires
        u > 0,
        z >= 0,
        near(z, m * u, 76),
        abs(m) < 0x20_0000_0000_0000,
    ensures
        m >= 0,
        z < 0x1_0000_0000_0000_0000 * u,
{
    let y = m * u;
    assert(m < 0 ==> y < 0) by (nonlinear_arith)
        requires
            y == m * u,
            u > 0,
    ;
    assert(y < 0x20_0000_0000_0000 * u) by (nonlinear_arith)
        requires
            y == m * u,
            m < 0x20_0000_0000_0000,
            u > 0,
    ;
}

/// Without its fraction, a distance near a whole number is off by at most one more.
proof fn lemma_whole_distance(z: int, m: int, u: int, t: int)
    requires
        u > 0,
        m >= 0,
        near(z, m * u, 76),
        t * u <= z < (t + 1) * u,
    ensures
        0x100_0000 * abs(t - m) <= 5 * m + 0x100_0000,
{
    let y = m * u;
    assert(y >= 0) by (nonlinear_arith)
        requires
            y == m * u,
            m >= 0,
            u > 0,
    ;
    assert(0x1000_0000 * (t - m) <= 76 * m) by (nonlinear_arith)
        requires
            0x1000_0000 * (z - y) <= 76 * y,
            y == m * u,
            t * u <= z,
            u > 0,
    ;
    assert(0x1000_0000 * (m - t - 1) <= 76 * m) by (nonlinear_arith)
        requires
            0x1000_0000 * (y - z) <= 76 * y,
            y == m * u,
            z < (t + 1) * u,
            u > 0,
    ;
}

/// The time that is found at the place of a time is that time, up to rounding: it is off by at most
/// five parts in two to the power of 24 of its distance from the latest time, and one millisecond.
/// Times are held exactly up to two to the power of 53.
pub proof fn law_times_are_found_where_they_lie(s: ChartState, interval: u64, time: u64)
    requires
        s.basis == Basis::Time(interval),
        s.has_interval_scale(),
        s.latest_x < 0x20_0000_0000_0000,
        time < 0x20_0000_0000_0000,
        s.can_read_time_back(interval, time),
    ensures
        0x100_0000 * abs(s.x_to_interval(s.interval_to_x(time)) - time) <= 5 * abs(time - s.latest_x)
            + 0x100_0000,
{
    let u = unit(0) as int;
    let zero = Single { bits: ZERO };
    let n = time - s.latest_x;
    let w = s.cell_width.key();
    let i = interval as int;
    let wide = s.cell_width.to_double();
    let span = Double::from_u64(interval);
    let narrow_span = Single::from_u64(interval);
    let way = Double::from_u64(time).minus(Double::from_u64(s.latest_x));
    let cells = way.over(span);
    let place = cells.times(wide);
    let x = place.to_single();
    let sign: int = if x.le(zero) {
        -1
    } else {
        1
    };
    let distance = if x.le(zero) {
        x.neg()
    } else {
        x
    };
    let cells_back = distance.over(s.cell_width);
    let way_back = cells_back.times(narrow_span);
    lemma_unit_pos(0);
    Single::lemma_zero_key();
    Single::lemma_order(s.cell_width, zero);
    x.lemma_neg_key();
    Single::lemma_order(x, zero);
    s.cell_width.lemma_to_double_exact();
    Double::lemma_from_u64_bounds(interval);
    Double::lemma_from_u64_bounds(time);
    Double::lemma_from_u64_bounds(s.latest_x);
    Single::lemma_from_u64_bounds(interval);
    Double::lemma_from_u64_exact(time);
    Double::lemma_from_u64_exact(s.latest_x);
    Double::lemma_from_u64_near(interval);
    Single::lemma_from_u64_near(interval);
    assert(time * u - s.latest_x * u == n * u) by (nonlinear_arith)
        requires
            n == time - s.latest_x,
    ;
    Double::lemma_minus_near(Double::from_u64(time), Double::from_u64(s.latest_x));
    Double::lemma_over_near(way, span);
    Double::lemma_times_near(cells, wide);
    place.lemma_to_single_near();
    Single::lemma_over_near(distance, s.cell_width);
    Single::lemma_times_near(cells_back, narrow_span);
    lemma_cells_near(n, i, u, sign, way.key(), span.key(), cells.key());
    lemma_way_back_near(
        i,
        w,
        u,
        sign,
        cells.key(),
        place.key(),
        x.key(),
        narrow_span.key(),
        cells_back.key(),
        way_back.key(),
    );
    let z = way_back.key();
    let m = sign * n;
    lemma_near_chain(z, (i * cells.key()) * sign, (n * u) * sign, 69, 6);
    assert((n * u) * sign == m * u) by (nonlinear_arith)
        requires
            m == sign * n,
    ;
    // the distance that is read back is not negative
    Single::lemma_over_order(zero, distance, s.cell_width);
    Single::lemma_over_order(zero, zero, s.cell_width);
    Single::lemma_times_order(zero, cells_back, narrow_span);
    Single::lemma_zero_times(zero, narrow_span);
    assert(m == n || m == -n) by (nonlinear_arith)
        requires
            m == sign * n,
            sign == 1 || sign == -1,
    ;
    lemma_distance_bounds(z, m, u);
    way_back.lemma_to_u64_near();
    lemma_whole_distance(z, m, u, way_back.to_u64() as int);
}

} // verus!
