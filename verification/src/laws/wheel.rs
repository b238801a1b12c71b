//! By how much zooming changes sizes, when it does, and around what.
use crate::chart::ChartLimits;
use crate::constants::{TWO, ZERO};
use crate::float::accuracy::{lemma_near_unscaled, near};
use crate::float::arith::abs;
use crate::float::grid::{lemma_unit_pos, lemma_unit_shift, unit};
use crate::float::single::Single;
use crate::geometry::Point;
use crate::interaction::wheel_response;
use crate::laws::placement::lemma_scaled_bound;
use crate::laws::zoom::lies_within;
use crate::message::Message;
use crate::state::ChartState;
use vstd::arithmetic::power2::lemma2_to64;
use vstd::prelude::*;

verus! {

/// How far one has to scroll, 30, or drag, 90, to change a size by as much again.
pub open spec fn effort(is_wheel_scroll: bool) -> (Single, int) {
    if is_wheel_scroll {
        (Single { bits: 0x41f0_0000 }, 30)
    } else {
        (Single { bits: 0x42b4_0000 }, 90)
    }
}

/// A size can be changed: the steps stay numbers, and none of them is so small that it loses digits.
pub open spec fn can_resize(size: Single, delta: Single, effort: Single) -> bool {
    let factor = (Single { bits: 0x3f80_0000 }).plus(delta.over(effort));
    &&& size.is_finite()
    &&& delta.is_finite()
    &&& delta.divides(effort)
    &&& factor.is_finite()
    &&& size.multiplies(factor)
}

/// A size becomes what it was and as many times as much again as the effort fits in `delta`, up to eight
/// parts in two to the power of 24, or the limit that lies in the way.
pub open spec fn is_resized(
    size: Single,
    delta: Single,
    effort: int,
    min: Single,
    max: Single,
    resized: Single,
) -> bool {
    let whole = effort * unit(0);
    let exact = size.key() * (whole + delta.key());
    let slack = 8 * (abs(size.key()) * (whole + abs(delta.key())));
    let miss = whole * resized.key() - exact;
    &&& lies_within(resized, min, max)
    &&& 0x100_0000 * miss <= slack || resized.equals(min)
    &&& -(0x100_0000 * miss) <= slack || resized.equals(max)
}

proof fn lemma_effort(is_wheel_scroll: bool)
    ensures
        effort(is_wheel_scroll).0.is_finite(),
        effort(is_wheel_scroll).0.key() == effort(is_wheel_scroll).1 * unit(0),
{
    lemma2_to64();
    lemma_unit_shift(-19, 19);
    lemma_unit_shift(-17, 17);
    assert(15_728_640 * unit(-19) == 30 * (524_288 * unit(-19))) by (nonlinear_arith);
    assert(11_796_480 * unit(-17) == 90 * (131_072 * unit(-17))) by (nonlinear_arith);
}

proof fn lemma_resized(
    size: Single,
    delta: Single,
    is_wheel_scroll: bool,
    min: Single,
    max: Single,
)
    requires
        can_resize(size, delta, effort(is_wheel_scroll).0),
        min.le(max),
    ensures
        is_resized(
            size,
            delta,
            effort(is_wheel_scroll).1,
            min,
            max,
            size.times(
                (Single { bits: 0x3f80_0000 }).plus(delta.over(effort(is_wheel_scroll).0)),
            ).clamp(min, max),
        ),
{
    let one = Single { bits: 0x3f80_0000 };
    let (e, z) = effort(is_wheel_scroll);
    let u = unit(0) as int;
    let change = delta.over(e);
    let factor = one.plus(change);
    let v = size.times(factor);
    lemma_unit_pos(0);
    lemma_effort(is_wheel_scroll);
    Single::lemma_one_key();
    Single::lemma_over_near(delta, e);
    Single::lemma_plus_near(one, change);
    Single::lemma_times_near(size, factor);
    let (w, d, c, f, x) = (size.key(), delta.key(), change.key(), factor.key(), v.key());
    assert(c * (z * u) == (z * c) * u) by (nonlinear_arith);
    lemma_near_unscaled(z * c, d, u, 16);
    lemma_resized_steps(w, d, c, f, x, z, u);
    Single::lemma_clamp_within(v, min, max);
    Single::lemma_ordered_are_numbers(min, max);
    Single::lemma_order(v, min);
    Single::lemma_order(v, max);
    Single::lemma_order(min, min);
    Single::lemma_order(max, max);
    let r = v.clamp(min, max);
    let whole = z * u;
    assert(r.key() >= x ==> whole * r.key() >= whole * x) by (nonlinear_arith)
        requires
            whole > 0,
    ;
    assert(r.key() <= x ==> whole * r.key() <= whole * x) by (nonlinear_arith)
        requires
            whole > 0,
    ;
}

proof fn lemma_resized_steps(w: int, d: int, c: int, f: int, x: int, z: int, u: int)
    requires
        u > 0,
        0 < z <= 90,
        near(z * c, d, 16),
        near(f, u + c, 16),
        near(x * u, w * f, 16),
    ensures
        0x100_0000 * abs((z * u) * x - w * (z * u + d)) <= 8 * (abs(w) * (z * u + abs(d))),
        z * u > 0,
{
    let e1 = x * u - w * f;
    let e2 = f - (u + c);
    let e3 = z * c - d;
    let a = abs(w) as int;
    let m = z * u + abs(d);
    let wf = w * f;
    assert(z * u > 0) by (nonlinear_arith)
        requires
            z > 0,
            u > 0,
    ;
    let (zu, zc, zf) = (z * u, z * c, z * f);
    assert(z * e1 == zu * x - w * zf) by (nonlinear_arith)
        requires
            e1 == x * u - w * f,
            zu == z * u,
            zf == z * f,
    ;
    assert(z * e2 == zf - zu - zc) by (nonlinear_arith)
        requires
            e2 == f - (u + c),
            zu == z * u,
            zf == z * f,
            zc == z * c,
    ;
    assert(w * (zf - zu - zc) == w * zf - w * zu - w * zc) by (nonlinear_arith);
    assert(w * (zc - d) == w * zc - w * d) by (nonlinear_arith);
    assert(w * (zu + d) == w * zu + w * d) by (nonlinear_arith);
    // z f is about z u + d
    assert(z * (u + c) == z * u + z * c) by (nonlinear_arith);
    let g = z * (u + c);
    assert(abs(g) <= z * u + 2 * abs(d));
    assert(0x100_0000 * abs(z * e2) <= abs(g)) by (nonlinear_arith)
        requires
            0x1000_0000 * abs(e2) <= 16 * abs(u + c),
            g == z * (u + c),
            z > 0,
            abs(e2) == if e2 < 0 {
                -e2
            } else {
                e2
            },
            abs(u + c) == if u + c < 0 {
                -(u + c)
            } else {
                u + c
            },
            abs(g) == if g < 0 {
                -g
            } else {
                g
            },
            abs(z * e2) == if z * e2 < 0 {
                -(z * e2)
            } else {
                z * e2
            },
    ;
    let h = z * f;
    assert(h == g + z * e2) by (nonlinear_arith)
        requires
            h == z * f,
            g == z * (u + c),
            e2 == f - (u + c),
    ;
    assert(abs(h) <= 2 * (z * u) + 3 * abs(d));
    // the three errors
    let i = z * e1;
    assert(0x100_0000 * abs(i) <= a * abs(h)) by (nonlinear_arith)
        requires
            0x1000_0000 * abs(e1) <= 16 * abs(wf),
            wf == w * f,
            h == z * f,
            i == z * e1,
            z > 0,
            a == if w < 0 {
                -w
            } else {
                w
            },
            abs(e1) == if e1 < 0 {
                -e1
            } else {
                e1
            },
            abs(wf) == if wf < 0 {
                -wf
            } else {
                wf
            },
            abs(h) == if h < 0 {
                -h
            } else {
                h
            },
            abs(i) == if i < 0 {
                -i
            } else {
                i
            },
    ;
    lemma_scaled_bound(w, z * e2, abs(g) as int);
    lemma_scaled_bound(w, e3, abs(d) as int);
    assert(a * abs(h) + a * abs(g) + a * abs(d) <= 8 * (a * m)) by (nonlinear_arith)
        requires
            abs(h) <= 2 * m + abs(d),
            abs(g) <= m + abs(d),
            abs(d) <= m,
            a >= 0,
    ;
}

/// Where the width of the cells can change, there being room in the direction asked for, it changes by the
/// share of itself that the wheel or the drag is of the effort; where it cannot, nothing changes.
pub proof fn law_cell_width_changes_by_a_share(
    s: ChartState,
    limits: ChartLimits,
    delta: Single,
    cursor: Single,
    is_wheel_scroll: bool,
)
    requires
        limits.min_cell_width.le(limits.max_cell_width),
        can_resize(s.cell_width, delta, effort(is_wheel_scroll).0),
    ensures
        ({
            let t = s.updated(limits, Message::XScaling(delta, cursor, is_wheel_scroll));
            let (w, zero) = (s.cell_width, Single { bits: ZERO });
            if (delta.lt(zero) && w.gt(limits.min_cell_width)) || (delta.gt(zero) && w.lt(
                limits.max_cell_width,
            )) {
                is_resized(
                    w,
                    delta,
                    effort(is_wheel_scroll).1,
                    limits.min_cell_width,
                    limits.max_cell_width,
                    t.cell_width,
                )
            } else {
                t == s
            }
        }),
{
    lemma_resized(
        s.cell_width,
        delta,
        is_wheel_scroll,
        limits.min_cell_width,
        limits.max_cell_width,
    );
    Single::lemma_thirty_times_three();
}

/// Where the height of the cells can change, there being room in the direction asked for, it changes by
/// the share of itself that the wheel or the drag is of the effort; where it cannot, nothing changes.
pub proof fn law_cell_height_changes_by_a_share(
    s: ChartState,
    limits: ChartLimits,
    delta: Single,
    cursor: Single,
    is_wheel_scroll: bool,
)
    requires
        limits.min_cell_height.le(limits.max_cell_height),
        can_resize(s.cell_height, delta, effort(is_wheel_scroll).0),
    ensures
        ({
            let t = s.updated(limits, Message::YScaling(delta, cursor, is_wheel_scroll));
            let (h, zero) = (s.cell_height, Single { bits: ZERO });
            if (delta.lt(zero) && h.gt(limits.min_cell_height)) || (delta.gt(zero) && h.lt(
                limits.max_cell_height,
            )) {
                is_resized(
                    h,
                    delta,
                    effort(is_wheel_scroll).1,
                    limits.min_cell_height,
                    limits.max_cell_height,
                    t.cell_height,
                )
            } else {
                t == s
            }
        }),
{
    lemma_resized(
        s.cell_height,
        delta,
        is_wheel_scroll,
        limits.min_cell_height,
        limits.max_cell_height,
    );
    Single::lemma_thirty_times_three();
}

/// Zooming an axis leaves the other alone: its cells, its place, and all else but whether the chart follows
/// its data. Zooming the width stops that where the chart is moved; zooming the height where the wheel
/// was turned.
pub proof fn law_zooming_leaves_the_other_axis(
    s: ChartState,
    limits: ChartLimits,
    delta: Single,
    cursor: Single,
    is_wheel_scroll: bool,
)
    ensures
        ({
            let t = s.updated(limits, Message::XScaling(delta, cursor, is_wheel_scroll));
            let around_pointer = is_wheel_scroll || !s.is_interval_x_visible(
                s.interval_to_x(s.latest_x),
            );
            &&& t == (ChartState {
                cell_width: t.cell_width,
                translation: t.translation,
                autoscale: t.autoscale,
                ..s
            })
            &&& t.translation.y == s.translation.y
            &&& !around_pointer ==> t.translation == s.translation && t.autoscale == s.autoscale
            &&& around_pointer ==> t == s || !t.autoscale
        }),
        ({
            let t = s.updated(limits, Message::YScaling(delta, cursor, is_wheel_scroll));
            &&& t == (ChartState {
                cell_height: t.cell_height,
                translation: t.translation,
                autoscale: t.autoscale,
                ..s
            })
            &&& t.translation.x == s.translation.x
            &&& t == s || t.autoscale == (s.autoscale && !is_wheel_scroll)
        }),
{
}

/// What the wheel publishes. At either end of the scaling it changes the width of the cells, by half of
/// what it was turned and around the pointer: inward to the default width, outward while there is room.
/// Elsewhere, while there is room, it changes the scaling. It always keeps the event from others.
pub proof fn law_wheel_chooses(
    s: ChartState,
    limits: ChartLimits,
    y: Single,
    cursor_to_center: Point,
)
    requires
        y.is_finite(),
        y.divides(Single { bits: TWO }),
    ensures
        ({
            let action = wheel_response(limits, s, y, cursor_to_center);
            let (up, zero) = (y.bits < 0x8000_0000, Single { bits: ZERO });
            let (w, at_max, at_min) = (
                s.cell_width,
                s.scaling.equals(limits.max_scaling),
                s.scaling.equals(limits.min_scaling),
            );
            let widens = up && ((at_max && w.lt(limits.max_cell_width)) || (at_min && w.lt(
                limits.default_cell_width,
            )));
            let narrows = !up && ((at_max && w.gt(limits.default_cell_width)) || (at_min && w.gt(
                limits.min_cell_width,
            )));
            let scales = (y.gt(zero) && s.scaling.lt(limits.max_scaling)) || (y.lt(zero)
                && s.scaling.gt(limits.min_scaling));
            &&& action.captured && !action.redraw
            &&& widens || narrows ==> {
                &&& action.message matches Some(Message::XScaling(delta, x, is_wheel_scroll))
                &&& 0x100_0000 * abs(2 * delta.key() - y.key()) <= abs(y.key())
                &&& x == cursor_to_center.x
                &&& is_wheel_scroll
            }
            &&& !(widens || narrows) && scales ==> (action.message matches Some(Message::Scaled(..)))
            &&& !(widens || narrows) && !scales ==> action.message is None
        }),
{
    let two = Single { bits: TWO };
    let u = unit(0) as int;
    lemma_unit_pos(0);
    Single::lemma_two_key();
    Single::lemma_over_near(y, two);
    let d = y.over(two).key();
    assert(d * (2 * u) == (2 * d) * u) by (nonlinear_arith);
    lemma_near_unscaled(2 * d, y.key(), u, 16);
    let (one, minus) = (Single { bits: 0x3f80_0000 }, Single { bits: 0xbf80_0000 });
    Single::lemma_one_key();
    one.lemma_neg_key();
    assert(one.neg() == minus);
    Single::lemma_order(one, one);
    Single::lemma_order(one, minus);
    Single::lemma_order(minus, one);
    Single::lemma_order(minus, minus);
}

/// Where the wheel changes the scaling, it changes it by the share of itself that the wheel was turned of
/// the effort, within its limits.
pub proof fn law_scaling_changes_by_a_share(
    s: ChartState,
    limits: ChartLimits,
    y: Single,
    cursor_to_center: Point,
)
    requires
        limits.min_scaling.le(limits.max_scaling),
        can_resize(s.scaling, y, effort(true).0),
    ensures
        wheel_response(limits, s, y, cursor_to_center).message matches Some(
            Message::Scaled(scaling, place),
        ) ==> is_resized(s.scaling, y, 30, limits.min_scaling, limits.max_scaling, scaling),
{
    lemma_resized(s.scaling, y, true, limits.min_scaling, limits.max_scaling);
}

} // verus!
