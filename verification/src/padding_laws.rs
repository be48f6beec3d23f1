//! Laws of how much longer than its range a message is listed with.
//!
//! They speak of places and ranges up to a bound and of edges between two, which
//! keep clear of what is too great or too small to be told apart by rounding to
//! the nearest.

use crate::arithmetic;
use crate::arithmetic::Arithmetic;
use crate::conservative_laws;
use crate::exact;
use crate::extent;
use crate::extent_laws;
use crate::index;
use crate::rounding;
use crate::rounding::PARTS;
use crate::scalar::{Scalar, ZERO_BITS};
use crate::space;
use crate::space::Vec2;
use vstd::arithmetic::power2::pow2;
use vstd::prelude::*;

verus! {

/// Bit pattern of two to the power of fifty-nine, the bound of places, ranges and
/// edges.
pub const FARTHEST_BITS: u32 = 0x5d00_0000;

/// Bit pattern of two to the power of minus sixty, which edges are not below.
pub const FINEST_BITS: u32 = 0x2180_0000;

/// How far beyond a range the per-pair check may let a place through.
pub open spec fn slack(range: int) -> int {
    range / 0x20_0000 + 0x80_0000_0000_0000_0000_0000int
}

/// The values of the bounds.
proof fn lemma_constants()
    ensures
        exact::one() == 0x20_0000_0000_0000_0000_0000_0000_0000_0000_0000int,
        exact::magnitude_units(FARTHEST_BITS as int) == 0x800_0000_0000_0000int * exact::one(),
        exact::units(Scalar::from_bits(FINEST_BITS)) == 0x200_0000_0000_0000_0000_0000int,
{
    vstd::arithmetic::power2::lemma2_to64();
    vstd::arithmetic::power2::lemma2_to64_rest();
    rounding::lemma_one();
    vstd::arithmetic::power2::lemma_pow2_adds(63, 63);
    vstd::arithmetic::power2::lemma_pow2_adds(126, 59);
    vstd::arithmetic::power2::lemma_pow2_adds(64, 2);
    assert(pow2(126) == 0x4000_0000_0000_0000_0000_0000_0000_0000nat);
    assert(pow2(59) == 0x800_0000_0000_0000nat);
    let (a, b) = (pow2(126), pow2(59));
    assert(0x80_0000 * (a * b) == 0x800_0000_0000_0000int
        * 0x20_0000_0000_0000_0000_0000_0000_0000_0000_0000int) by (nonlinear_arith)
        requires
            a == 0x4000_0000_0000_0000_0000_0000_0000_0000nat,
            b == 0x800_0000_0000_0000nat,
    ;
    assert(pow2(126 + 59) == a * b);
    rounding::lemma_power(186);
    assert(186 * 0x80_0000 == FARTHEST_BITS);
    assert(pow2(66) == 0x4_0000_0000_0000_0000nat);
    rounding::lemma_power(67);
    assert(67 * 0x80_0000 == FINEST_BITS);
}

/// The values of numbers within the bounds.
proof fn lemma_moderate(number: Scalar)
    requires
        number.magnitude() <= FARTHEST_BITS,
    ensures
        number.finite(),
        rounding::size(exact::units(number)) <= 0x800_0000_0000_0000int * exact::one(),
{
    lemma_constants();
    let m = number.magnitude();
    if m < FARTHEST_BITS {
        exact::lemma_magnitude_order(m, FARTHEST_BITS as int);
    }
    if m > 0 {
        exact::lemma_magnitude_order(0, m);
    }
    assert(exact::magnitude_units(0) == 0);
}

/// The values of edges within the bounds.
proof fn lemma_edge(edge: Scalar)
    requires
        FINEST_BITS <= edge.bits <= FARTHEST_BITS,
    ensures
        edge.finite(),
        0x200_0000_0000_0000_0000_0000int <= exact::units(edge) <= 0x800_0000_0000_0000int
            * exact::one(),
{
    lemma_constants();
    lemma_moderate(edge);
    if FINEST_BITS < edge.bits {
        exact::lemma_magnitude_order(FINEST_BITS as int, edge.bits as int);
    }
}

/// Two to the power of a hundred and nineteen.
spec fn great() -> int {
    0x80_0000_0000_0000_0000_0000_0000_0000int * exact::one()
}

/// A square came out near what it is, or great where the step is long.
proof fn lemma_step_square<A: Arithmetic>(place: Scalar, centre: Scalar, step: Scalar, square: Scalar)
    requires
        rounding::rounds_to_near::<A>(),
        place.finite(),
        centre.finite(),
        arithmetic::minus_is::<A>(place, centre, step),
        arithmetic::times_is::<A>(step, step, square),
    ensures
        !square.nan(),
        exact::units(square) >= -1,
        ({
            let d = exact::units(place) - exact::units(centre);
            if rounding::size(d) <= 0x2000_0000_0000_0000int * exact::one() {
                &&& rounding::near(exact::units(step), d, 0)
                &&& square.finite()
                &&& rounding::near(
                    exact::units(square) * exact::one(),
                    exact::units(step) * exact::units(step),
                    exact::one(),
                )
                &&& exact::units(square) <= 0x4000_0000_0000_0000_0000_0000_0000_0000int
                    * exact::one()
            } else {
                exact::units(square) >= great()
            }
        }),
{
    rounding::lemma_one();
    let one = exact::one();
    let far = rounding::far();
    let d = exact::units(place) - exact::units(centre);
    let g = 0x2000_0000_0000_0000int * one;
    assert(rounding::rounded_to(step, 1, d, 0, true));
    let u = exact::units(step);
    let (uu, x) = (u * u, exact::units(square));
    assert(!step.nan());
    assert(rounding::rounded_to(square, one, uu, one, step.finite()));
    assert(uu >= 0) by (nonlinear_arith)
        requires
            uu == u * u,
    ;
    if rounding::size(d) <= g {
        assert(rounding::size(u) <= 2 * g);
        assert(uu <= (2 * g) * (2 * g)) by (nonlinear_arith)
            requires
                uu == u * u,
                -2 * g <= u <= 2 * g,
        ;
        assert((2 * g) * (2 * g) <= 0x1000_0000_0000_0000_0000_0000_0000_0000int * one * one)
            by (nonlinear_arith)
            requires
                g == 0x2000_0000_0000_0000int * one,
        ;
        lemma_near_square(uu, x, 0x1000_0000_0000_0000_0000_0000_0000_0000int * one);
    } else {
        let h = 0x1000_0000_0000_0000int * one;
        assert(rounding::size(u) >= h);
        assert(uu >= h * h) by (nonlinear_arith)
            requires
                uu == u * u,
                u >= h || u <= -h,
                h > 0,
        ;
        assert(h * h >= 2 * great() * one) by (nonlinear_arith)
            requires
                h == 0x1000_0000_0000_0000int * one,
                great() == 0x80_0000_0000_0000_0000_0000_0000_0000int * one,
        ;
        if uu <= far * one {
            if !step.finite() {
                rounding::lemma_infinite(step);
                assert(uu >= (2 * far) * (2 * far)) by (nonlinear_arith)
                    requires
                        uu == u * u,
                        u == 2 * far || u == -(2 * far),
                ;
                assert((2 * far) * (2 * far) > far * one) by (nonlinear_arith)
                    requires
                        far > one,
                        one > 0,
                ;
            }
        }
    }
}

/// The square is at most twice what it is.
proof fn lemma_near_square(value: int, square: int, bound: int)
    requires
        0 <= value <= bound * exact::one(),
        exact::one() <= bound,
        rounding::near(square * exact::one(), value, exact::one()),
    ensures
        -1 <= square <= 3 * bound,
{
    rounding::lemma_one();
}

/// A range that is not negative has no negative value.
proof fn lemma_not_negative(range: Scalar)
    requires
        Scalar::from_bits(ZERO_BITS).at_most(range),
    ensures
        exact::units(range) >= 0,
{
    let zero = Scalar::from_bits(ZERO_BITS);
    assert(exact::units(zero) == 0) by {
        assert(exact::magnitude_units(0) == 0);
    }
    exact::law_order_is_of_values(zero, range);
}

/// The squared range came out near what it is, and not great.
proof fn lemma_range_square<A: Arithmetic>(range: Scalar, range_sq: Scalar)
    requires
        rounding::rounds_to_near::<A>(),
        range.magnitude() <= FARTHEST_BITS,
        arithmetic::times_is::<A>(range, range, range_sq),
    ensures
        range_sq.finite(),
        rounding::near(
            exact::units(range_sq) * exact::one(),
            exact::units(range) * exact::units(range),
            exact::one(),
        ),
        4 * exact::units(range_sq) < 3 * great(),
{
    lemma_constants();
    lemma_moderate(range);
    let one = exact::one();
    let r = exact::units(range);
    let m = 0x800_0000_0000_0000int * one;
    let rr = r * r;
    assert(0 <= rr <= m * m) by (nonlinear_arith)
        requires
            rr == r * r,
            -m <= r <= m,
    ;
    assert(2 * (m * m) == great() * one) by (nonlinear_arith)
        requires
            m == 0x800_0000_0000_0000int * one,
            great() == 0x80_0000_0000_0000_0000_0000_0000_0000int * one,
    ;
    assert(rounding::rounded_to(range_sq, one, rr, one, true));
    let x = exact::units(range_sq);
    assert(4 * x < 3 * great()) by {
        assert((x * one - rr) * PARTS <= rr + one * PARTS);
    }
}

/// A place that the check lets through along an axis is within range, but for the
/// slack.
pub proof fn law_within_is_within_slack<A: Arithmetic>(
    centre: Scalar,
    range: Scalar,
    limit: Scalar,
    place: Scalar,
)
    requires
        rounding::rounds_to_near::<A>(),
        centre.finite(),
        place.finite(),
        range.magnitude() <= FARTHEST_BITS,
        Scalar::from_bits(ZERO_BITS).at_most(range),
        arithmetic::times_is::<A>(range, range, limit),
        extent::within_is::<A>(place, centre, limit, true),
    ensures
        rounding::size(exact::units(place) - exact::units(centre)) <= exact::units(range) + slack(
            exact::units(range),
        ),
{
    lemma_constants();
    lemma_moderate(range);
    lemma_not_negative(range);
    let one = exact::one();
    let r = exact::units(range);
    let k = slack(r);
    let d = exact::units(place) - exact::units(centre);
    let (step, square) = choose|step: Scalar, square: Scalar|
        {
            &&& #[trigger] arithmetic::minus_is::<A>(place, centre, step)
            &&& #[trigger] arithmetic::times_is::<A>(step, step, square)
            &&& true == !limit.less(square)
        };
    lemma_step_square::<A>(place, centre, step, square);
    lemma_range_square::<A>(range, limit);
    if rounding::size(d) > r + k {
        if rounding::size(d) <= 0x2000_0000_0000_0000int * one {
            assert(d * d + 0 * 0 > (r + k) * (r + k)) by (nonlinear_arith)
                requires
                    d < -(r + k) || d > r + k,
                    r + k >= 0,
            ;
            assert(8 * one <= k * k) by (nonlinear_arith)
                requires
                    k >= 0x80_0000_0000_0000_0000_0000int,
                    one == 0x20_0000_0000_0000_0000_0000_0000_0000_0000_0000int,
            ;
            rounding::lemma_squares_order(
                d,
                0,
                r,
                k,
                exact::units(step),
                0,
                exact::units(square),
                0,
                exact::units(square),
                exact::units(limit),
                one,
            );
        }
        exact::law_order_is_of_values(limit, square);
        assert(false);
    }
}

/// A distance that the per-pair check lets through is within range along both
/// axes, but for the slack.
pub proof fn law_let_through_is_within_range<A: Arithmetic>(
    origin: Vec2,
    range: Scalar,
    position: Vec2,
    distance_sq: Scalar,
    range_sq: Scalar,
)
    requires
        rounding::keeps_order::<A>(),
        rounding::rounds_to_near::<A>(),
        origin.finite(),
        range.magnitude() <= FARTHEST_BITS,
        Scalar::from_bits(ZERO_BITS).at_most(range),
        position.finite(),
        position.distance_squared_is::<A>(origin, distance_sq),
        arithmetic::times_is::<A>(range, range, range_sq),
        !range_sq.less(distance_sq),
    ensures
        rounding::size(exact::units(position.x) - exact::units(origin.x)) <= exact::units(range)
            + slack(exact::units(range)),
        rounding::size(exact::units(position.y) - exact::units(origin.y)) <= exact::units(range)
            + slack(exact::units(range)),
{
    conservative_laws::lemma_axes_within::<A>(
        origin,
        range,
        position,
        distance_sq,
        range_sq,
        range_sq,
    );
    law_within_is_within_slack::<A>(origin.x, range, range_sq, position.x);
    law_within_is_within_slack::<A>(origin.y, range, range_sq, position.y);
}

/// The end of a range is where it was measured, unless a number past that is
/// within range, or but for the slack: nothing is added that the check does not
/// let through.
pub proof fn law_nothing_needless_is_added<A: Arithmetic>(
    centre: Scalar,
    range: Scalar,
    limit: Scalar,
    measured: Scalar,
    up: bool,
    end: Scalar,
    next: Scalar,
)
    requires
        rounding::keeps_order::<A>(),
        rounding::rounds_to_near::<A>(),
        centre.finite(),
        range.magnitude() <= FARTHEST_BITS,
        Scalar::from_bits(ZERO_BITS).at_most(range),
        arithmetic::times_is::<A>(range, range, limit),
        extent::outer_end_is::<A>(centre, limit, measured, up, end),
        measured.finite(),
        next.total_rank() == measured.total_rank() + if up {
            1int
        } else {
            -1int
        },
        extent_laws::leads_to(centre, next, up),
        rounding::size(exact::units(next) - exact::units(centre)) > exact::units(range) + slack(
            exact::units(range),
        ),
    ensures
        end == measured,
{
    let last = extent_laws::law_outer_end::<A>(centre, range, limit, measured, up, end);
    law_within_is_within_slack::<A>(centre, range, limit, last);
    if end != measured {
        exact::law_order_is_of_values(next, last);
        exact::law_order_is_of_values(last, next);
        exact::law_order_is_of_values(next, centre);
        exact::law_order_is_of_values(centre, next);
    }
}

/// The line that a place of moderate size falls on, and the quotient that it came
/// from.
proof fn lemma_quotient<A: Arithmetic>(place: Scalar, edge: Scalar, line: Scalar) -> (q: int)
    requires
        rounding::rounds_to_near::<A>(),
        place.finite(),
        rounding::size(exact::units(place)) <= 0x4000_0000_0000_0000int * exact::one(),
        FINEST_BITS <= edge.bits <= FARTHEST_BITS,
        space::line_is::<A>(place, edge, line),
    ensures
        exact::units(line) == (q / exact::one()) * exact::one(),
        rounding::near(
            q * exact::units(edge),
            exact::units(place) * exact::one(),
            exact::units(edge),
        ),
{
    lemma_constants();
    lemma_edge(edge);
    let (p, s, one) = (exact::units(place), exact::units(edge), exact::one());
    let quotient = choose|quotient: Scalar| #[trigger]
        arithmetic::over_is::<A>(place, edge, quotient) && arithmetic::floor_is::<A>(
            quotient,
            line,
        );
    rounding::lemma_size_product(p, one);
    assert(rounding::size(p * one) <= rounding::far() * s) by (nonlinear_arith)
        requires
            rounding::size(p * one) == rounding::size(p) * one,
            rounding::size(p) <= 0x4000_0000_0000_0000int * one,
            one == 0x20_0000_0000_0000_0000_0000_0000_0000_0000_0000int,
            rounding::far() == 0x8000_0000_0000_0000_0000_0000_0000_0000int * one,
            s >= 0x200_0000_0000_0000_0000_0000int,
    ;
    exact::units(quotient)
}

/// How much longer than its range a message at most is listed with, along an
/// axis.
pub open spec fn margin(centre: int, range: int) -> int {
    (rounding::size(centre) + range) / 0x40_0000 + range / 0x20_0000
        + 0x100_0000_0000_0000_0000_0000int
}

/// An end is not farther than nearly the margin from where the range exactly ends.
proof fn lemma_end_near<A: Arithmetic>(
    centre: Scalar,
    range: Scalar,
    limit: Scalar,
    measured: Scalar,
    up: bool,
    end: Scalar,
)
    requires
        rounding::keeps_order::<A>(),
        rounding::rounds_to_near::<A>(),
        centre.magnitude() <= FARTHEST_BITS,
        range.magnitude() <= FARTHEST_BITS,
        Scalar::from_bits(ZERO_BITS).at_most(range),
        arithmetic::times_is::<A>(range, range, limit),
        if up {
            arithmetic::plus_is::<A>(centre, range, measured)
        } else {
            arithmetic::minus_is::<A>(centre, range, measured)
        },
        extent::outer_end_is::<A>(centre, limit, measured, up, end),
    ensures
        end.finite(),
        ({
            let (o, r) = (exact::units(centre), exact::units(range));
            let w = rounding::size(o) + r;
            let past = if up {
                exact::units(end) - (o + r)
            } else {
                (o - r) - exact::units(end)
            };
            &&& past * PARTS <= w + slack(r) * PARTS
            &&& rounding::size(exact::units(end)) <= 2 * w + slack(r)
        }),
{
    lemma_constants();
    lemma_moderate(centre);
    lemma_moderate(range);
    lemma_not_negative(range);
    let (o, r) = (exact::units(centre), exact::units(range));
    let last = extent_laws::law_outer_end::<A>(centre, range, limit, measured, up, end);
    law_within_is_within_slack::<A>(centre, range, limit, last);
    if up {
        assert(rounding::rounded_to(measured, 1, o + r, 0, true));
    } else {
        assert(rounding::rounded_to(measured, 1, o - r, 0, true));
    }
}

/// A message is listed only in lines of cells that its range, longer by the
/// margin, meets.
pub proof fn law_listed_where_it_reaches<A: Arithmetic>(
    centre: Scalar,
    range: Scalar,
    limit: Scalar,
    edge: Scalar,
    first: Scalar,
    last: Scalar,
)
    requires
        rounding::keeps_order::<A>(),
        rounding::rounds_to_near::<A>(),
        centre.magnitude() <= FARTHEST_BITS,
        range.magnitude() <= FARTHEST_BITS,
        Scalar::from_bits(ZERO_BITS).at_most(range),
        FINEST_BITS <= edge.bits <= FARTHEST_BITS,
        arithmetic::times_is::<A>(range, range, limit),
        index::lines_are::<A>(centre, range, limit, edge, first, last),
    ensures
        ({
            let (o, r, s) = (exact::units(centre), exact::units(range), exact::units(edge));
            &&& ((o - r - margin(o, r)) / s) * exact::one() <= exact::units(first)
            &&& exact::units(last) <= ((o + r + margin(o, r)) / s) * exact::one()
        }),
{
    lemma_constants();
    lemma_moderate(centre);
    lemma_moderate(range);
    lemma_edge(edge);
    lemma_not_negative(range);
    let (o, r, s) = (exact::units(centre), exact::units(range), exact::units(edge));
    let (low, high) = choose|low: Scalar, high: Scalar| #[trigger]
        extent::ends_are::<A>(centre, range, limit, low, high) && space::line_is::<A>(
            low,
            edge,
            first,
        ) && space::line_is::<A>(high, edge, last);
    let (below, above) = choose|below: Scalar, above: Scalar|
        {
            &&& #[trigger] arithmetic::minus_is::<A>(centre, range, below)
            &&& #[trigger] arithmetic::plus_is::<A>(centre, range, above)
            &&& if range.less(Scalar::from_bits(ZERO_BITS)) {
                low == below && high == above
            } else {
                &&& extent::outer_end_is::<A>(centre, limit, below, false, low)
                &&& extent::outer_end_is::<A>(centre, limit, above, true, high)
            }
        };
    lemma_end_near::<A>(centre, range, limit, below, false, low);
    lemma_end_near::<A>(centre, range, limit, above, true, high);
    let (l, h) = (exact::units(low), exact::units(high));
    let f = lemma_quotient::<A>(low, edge, first);
    let g = lemma_quotient::<A>(high, edge, last);
    rounding::lemma_both_lines(o, r, slack(r), margin(o, r), l, h, s, f, g);
}

/// A message whose range is at most the edge of the grid is listed, along an
/// axis, in three lines of cells, and in a fourth only where an end of its range
/// is within the margin of a grid line.
pub proof fn law_short_range_meets_few_lines<A: Arithmetic>(
    centre: Scalar,
    range: Scalar,
    limit: Scalar,
    edge: Scalar,
    first: Scalar,
    last: Scalar,
)
    requires
        rounding::keeps_order::<A>(),
        rounding::rounds_to_near::<A>(),
        centre.magnitude() <= FARTHEST_BITS,
        Scalar::from_bits(ZERO_BITS).at_most(range),
        range.at_most(edge),
        FINEST_BITS <= edge.bits <= FARTHEST_BITS,
        2 * margin(exact::units(centre), exact::units(range)) <= exact::units(edge),
        arithmetic::times_is::<A>(range, range, limit),
        index::lines_are::<A>(centre, range, limit, edge, first, last),
    ensures
        exact::units(last) <= exact::units(first) + 3 * exact::one(),
        ({
            let (o, r, s) = (exact::units(centre), exact::units(range), exact::units(edge));
            let m = margin(o, r);
            (o - r - m) / s == (o - r) / s && (o + r + m) / s == (o + r) / s ==> exact::units(last)
                <= exact::units(first) + 2 * exact::one()
        }),
{
    lemma_edge(edge);
    lemma_not_negative(range);
    rounding::lemma_one();
    exact::law_order_is_of_values(range, edge);
    law_listed_where_it_reaches::<A>(centre, range, limit, edge, first, last);
    let (o, r, s) = (exact::units(centre), exact::units(range), exact::units(edge));
    let m = margin(o, r);
    lemma_lines_between(o - r - m, o + r + m, s, 3);
    lemma_lines_between(o - r, o + r, s, 2);
}

/// An interval that is at most some cells long meets at most one line more.
proof fn lemma_lines_between(a: int, b: int, s: int, count: int)
    requires
        s > 0,
        b - a <= count * s,
    ensures
        b / s <= a / s + count,
{
    vstd::arithmetic::div_mod::lemma_div_is_ordered(b, a + count * s, s);
    vstd::arithmetic::div_mod::lemma_hoist_over_denominator(a, count, s as nat);
}

} // verus!
