//! Laws of which messages are listed, and in which cells.

use crate::arithmetic;
use crate::arithmetic::Arithmetic;
use crate::conservative_laws;
use crate::exact;
use crate::extent;
use crate::extent_laws;
use crate::index;
use crate::index::{MessageIndex, Reach};
use crate::message::PerceptionMessage;
use crate::rounding;
use crate::rounding::PARTS;
use crate::scalar::{Scalar, ONE_BITS, ZERO_BITS};
use crate::space;
use crate::space::{Cell, Vec2};
use vstd::arithmetic::power2::pow2;
use vstd::prelude::*;

verus! {

/// The most cells that a message is listed in.
pub const MAX_CELLS: u32 = 64;

/// Each message is listed apart, once, and in no cell, or else in every cell that
/// it spans, once. Either list is in the order of the batch.
pub proof fn law_wide_or_listed(reaches: Seq<Reach>, cell: Cell)
    requires
        reaches.len() <= u32::MAX,
    ensures
        forall|j: int, k: int|
            0 <= j < k < index::wide_of(reaches).len() ==> #[trigger] index::wide_of(reaches)[j]
                < #[trigger] index::wide_of(reaches)[k],
        forall|j: int, k: int|
            0 <= j < k < index::listed_in(reaches, cell).len() ==> #[trigger] index::listed_in(
                reaches,
                cell,
            )[j] < #[trigger] index::listed_in(reaches, cell)[k],
        forall|i: int|
            0 <= i < reaches.len() ==> (#[trigger] reaches[i] is Wide <==> index::wide_of(
                reaches,
            ).contains(i as u32)),
        forall|i: int|
            0 <= i < reaches.len() ==> ((#[trigger] reaches[i]).spans(cell) <==> index::listed_in(
                reaches,
                cell,
            ).contains(i as u32)),
        forall|j: int|
            0 <= j < index::wide_of(reaches).len() ==> #[trigger] index::wide_of(reaches)[j]
                < reaches.len(),
        forall|j: int|
            0 <= j < index::listed_in(reaches, cell).len() ==> #[trigger] index::listed_in(
                reaches,
                cell,
            )[j] < reaches.len(),
    decreases reaches.len(),
{
    if reaches.len() > 0 {
        let shorter = reaches.drop_last();
        let last = reaches.len() - 1;
        law_wide_or_listed(shorter, cell);
        lemma_added(
            index::wide_of(shorter),
            index::wide_of(reaches),
            last,
            reaches[last] is Wide,
        );
        lemma_added(
            index::listed_in(shorter, cell),
            index::listed_in(reaches, cell),
            last,
            reaches[last].spans(cell),
        );
        assert forall|i: int| 0 <= i < reaches.len() implies (#[trigger] reaches[i] is Wide
            <==> index::wide_of(reaches).contains(i as u32)) by {
            if i < last {
                assert(shorter[i] == reaches[i]);
            }
        }
        assert forall|i: int| 0 <= i < reaches.len() implies ((#[trigger] reaches[i]).spans(cell)
            <==> index::listed_in(reaches, cell).contains(i as u32)) by {
            if i < last {
                assert(shorter[i] == reaches[i]);
            }
        }
    }
}

/// What a list holds once a number that is greater than all its others may have
/// been added.
proof fn lemma_added(rest: Seq<u32>, all: Seq<u32>, last: int, added: bool)
    requires
        0 <= last <= u32::MAX,
        forall|j: int| 0 <= j < rest.len() ==> #[trigger] rest[j] < last,
        all == if added {
            rest.push(last as u32)
        } else {
            rest
        },
    ensures
        all.contains(last as u32) <==> added,
        forall|i: int|
            0 <= i < last ==> (#[trigger] all.contains(i as u32) <==> rest.contains(i as u32)),
{
    if added {
        assert(all[rest.len() as int] == last as u32);
    }
    assert forall|i: int| 0 <= i < last implies (#[trigger] all.contains(i as u32)
        <==> rest.contains(i as u32)) by {
        if rest.contains(i as u32) {
            let j = choose|j: int| 0 <= j < rest.len() && rest[j] == i as u32;
            assert(all[j] == i as u32);
        }
        if all.contains(i as u32) {
            let j = choose|j: int| 0 <= j < all.len() && all[j] == i as u32;
            assert(rest[j] == i as u32);
        }
    }
}

/// Whether a number is whole.
pub open spec fn whole(number: Scalar) -> bool {
    !number.nan() && exact::units(number) % exact::one() == 0
}

/// How many lines there are from the first to the last, both counted in.
pub open spec fn lines_from(first: Scalar, last: Scalar) -> int {
    (exact::units(last) - exact::units(first)) / exact::one() + 1
}

/// How many cells there are between two corners.
pub open spec fn cells_between(first: Vec2, last: Vec2) -> int {
    lines_from(first.x, last.x) * lines_from(first.y, last.y)
}

/// Whether two corners are of whole numbers, the first not past the last.
pub open spec fn corners_ordered(first: Vec2, last: Vec2) -> bool {
    &&& whole(first.x) && whole(first.y) && whole(last.x) && whole(last.y)
    &&& first.x.at_most(last.x) && first.y.at_most(last.y)
}

/// The corners of a reach are whole, and in order where the range is not below
/// zero.
pub proof fn law_corners_are_ordered<A: Arithmetic>(
    origin: Vec2,
    range: Scalar,
    limit: Scalar,
    edge: Scalar,
    first: Vec2,
    last: Vec2,
)
    requires
        rounding::keeps_order::<A>(),
        rounding::wholes_are_exact::<A>(),
        origin.finite(),
        Scalar::from_bits(ZERO_BITS).at_most(range),
        index::edge_usable(edge),
        arithmetic::times_is::<A>(range, range, limit),
        index::corners_are::<A>(origin, range, limit, edge, first, last),
    ensures
        corners_ordered(first, last),
{
    lemma_lines_ordered::<A>(origin.x, range, limit, edge, first.x, last.x);
    lemma_lines_ordered::<A>(origin.y, range, limit, edge, first.y, last.y);
}

proof fn lemma_lines_ordered<A: Arithmetic>(
    centre: Scalar,
    range: Scalar,
    limit: Scalar,
    edge: Scalar,
    first: Scalar,
    last: Scalar,
)
    requires
        rounding::keeps_order::<A>(),
        rounding::wholes_are_exact::<A>(),
        centre.finite(),
        Scalar::from_bits(ZERO_BITS).at_most(range),
        index::edge_usable(edge),
        arithmetic::times_is::<A>(range, range, limit),
        index::lines_are::<A>(centre, range, limit, edge, first, last),
    ensures
        whole(first),
        whole(last),
        first.at_most(last),
{
    let (low, high) = choose|low: Scalar, high: Scalar| #[trigger]
        extent::ends_are::<A>(centre, range, limit, low, high) && space::line_is::<A>(
            low,
            edge,
            first,
        ) && space::line_is::<A>(high, edge, last);
    extent_laws::law_centre_is_between_the_ends::<A>(centre, range, limit, low, high);
    conservative_laws::lemma_lines_in_order::<A>(low, high, edge, first, last);
    lemma_line_whole::<A>(low, edge, first);
    lemma_line_whole::<A>(high, edge, last);
}

proof fn lemma_line_whole<A: Arithmetic>(a: Scalar, b: Scalar, line: Scalar)
    requires
        rounding::wholes_are_exact::<A>(),
        space::line_is::<A>(a, b, line),
        !line.nan(),
    ensures
        whole(line),
{
    let q = choose|quotient: Scalar| #[trigger]
        arithmetic::over_is::<A>(a, b, quotient) && arithmetic::floor_is::<A>(quotient, line);
    rounding::lemma_one();
    vstd::arithmetic::div_mod::lemma_mod_multiples_basic(
        exact::units(q) / exact::one(),
        exact::one(),
    );
}

/// Small whole numbers are among the numbers.
proof fn lemma_small_whole(n: int)
    requires
        0 <= n <= 64,
    ensures
        exact::representable(n * exact::one()),
{
    vstd::arithmetic::power2::lemma2_to64();
    rounding::lemma_one();
    let one = exact::one();
    if n == 0 {
        assert(exact::stands_for(Scalar::from_bits(ZERO_BITS), 0));
        assert(n * one == 0);
    } else if n == 1 {
        lemma_whole_by_exponent(n, 0);
    } else if n < 4 {
        lemma_whole_by_exponent(n, 1);
    } else if n < 8 {
        lemma_whole_by_exponent(n, 2);
    } else if n < 16 {
        lemma_whole_by_exponent(n, 3);
    } else if n < 32 {
        lemma_whole_by_exponent(n, 4);
    } else if n < 64 {
        lemma_whole_by_exponent(n, 5);
    } else {
        lemma_whole_by_exponent(n, 6);
    }
}

/// A whole number between a power of two and the next is among the numbers.
proof fn lemma_whole_by_exponent(n: int, exponent: nat)
    requires
        exponent <= 6,
        pow2(exponent) <= n < 2 * pow2(exponent),
    ensures
        exact::representable(n * exact::one()),
{
    vstd::arithmetic::power2::lemma2_to64();
    vstd::arithmetic::power2::lemma2_to64_rest();
    vstd::arithmetic::power2::lemma_pow2_adds(63, 63);
    vstd::arithmetic::power2::lemma_pow2_adds(126, exponent);
    rounding::lemma_one();
    let power = pow2(exponent) as int;
    let step = pow2((23 - exponent) as nat) as int;
    vstd::arithmetic::power2::lemma_pow2_adds((23 - exponent) as nat, exponent);
    vstd::arithmetic::power2::lemma_pow2_pos((23 - exponent) as nat);
    assert(step * power == 0x80_0000);
    let fraction = (n - power) * step;
    assert(0 <= fraction < 0x80_0000) by (nonlinear_arith)
        requires
            fraction == (n - power) * step,
            power <= n < 2 * power,
            step * power == 0x80_0000,
            step > 0,
    ;
    let magnitude = (127 + exponent) * 0x80_0000 + fraction;
    let number = Scalar { bits: magnitude as u32 };
    assert(magnitude / 0x80_0000 == 127 + exponent && magnitude % 0x80_0000 == fraction);
    assert(number.magnitude() == magnitude);
    let unit = pow2(126) as int;
    assert(exact::units(number) == (0x80_0000 + fraction) * (unit * power));
    assert((0x80_0000 + fraction) * (unit * power) == n * (0x80_0000 * unit)) by (nonlinear_arith)
        requires
            fraction == (n - power) * step,
            step * power == 0x80_0000,
    {
        assert(0x80_0000 + fraction == n * step);
        assert((n * step) * (unit * power) == n * ((step * power) * unit));
    }
    assert(exact::stands_for(number, n * exact::one()));
}

/// The lines from the first to the last come out as at least nearly so many, or
/// as nearly as the most that count.
proof fn lemma_length_low<A: Arithmetic>(first: Scalar, last: Scalar, length: Scalar)
    requires
        rounding::rounds_to_near::<A>(),
        exact::counts_exactly::<A>(),
        whole(first),
        whole(last),
        first.at_most(last),
        index::length_is::<A>(first, last, length),
        length.finite(),
    ensures
        first.finite(),
        last.finite(),
        lines_from(first, last) >= 1,
        ({
            let n = lines_from(first, last);
            let m = if n > MAX_CELLS + 1 {
                MAX_CELLS + 1
            } else {
                n
            };
            exact::units(length) * 0x10_0000 >= m * exact::one() * 0xf_ffff
        }),
{
    rounding::lemma_one();
    let one = exact::one();
    let steps = choose|steps: Scalar| #[trigger]
        arithmetic::minus_is::<A>(last, first, steps) && arithmetic::plus_is::<A>(
            steps,
            Scalar::from_bits(ONE_BITS),
            length,
        );
    assert(steps.finite());
    exact::law_order_is_of_values(last, first);
    let v = exact::units(last) - exact::units(first);
    assert(v >= 0 && v % one == 0);
    assert(v == (v / one) * one);
    let s = exact::units(steps);
    assert(rounding::rounded_to(steps, 1, v, 0, true));
    assert(rounding::rounded_to(length, 1, s + one, 0, true));
}

/// The lines from the first to the last, where they are few, come out as so many.
proof fn lemma_length_exact<A: Arithmetic>(first: Scalar, last: Scalar, length: Scalar)
    requires
        exact::counts_exactly::<A>(),
        whole(first),
        whole(last),
        first.finite(),
        last.finite(),
        first.at_most(last),
        lines_from(first, last) <= MAX_CELLS,
        index::length_is::<A>(first, last, length),
    ensures
        exact::stands_for(length, lines_from(first, last) * exact::one()),
{
    rounding::lemma_one();
    let one = exact::one();
    let steps = choose|steps: Scalar| #[trigger]
        arithmetic::minus_is::<A>(last, first, steps) && arithmetic::plus_is::<A>(
            steps,
            Scalar::from_bits(ONE_BITS),
            length,
        );
    exact::law_order_is_of_values(last, first);
    let v = exact::units(last) - exact::units(first);
    assert(v >= 0 && v % one == 0);
    let n = v / one;
    assert(v == n * one);
    lemma_small_whole(n);
    lemma_small_whole(n + 1);
    assert(exact::stands_for(steps, v));
    assert(exact::units(steps) + one == (n + 1) * one);
}

/// The cells between two corners, where they are more than a message is listed
/// in, are counted as too many.
proof fn lemma_many_counted<A: Arithmetic>(first: Vec2, last: Vec2, count: Scalar)
    requires
        rounding::rounds_to_near::<A>(),
        exact::counts_exactly::<A>(),
        corners_ordered(first, last),
        index::cell_count_is::<A>(first, last, count),
        !index::too_many(count),
    ensures
        first.finite() && last.finite(),
        1 <= cells_between(first, last) <= MAX_CELLS,
{
    rounding::lemma_one();
    lemma_most();
    let one = exact::one();
    let (width, height) = choose|width: Scalar, height: Scalar| #[trigger]
        index::length_is::<A>(first.x, last.x, width) && #[trigger] index::length_is::<A>(
            first.y,
            last.y,
            height,
        ) && arithmetic::times_is::<A>(width, height, count);
    assert(width.finite() && height.finite());
    lemma_length_low::<A>(first.x, last.x, width);
    lemma_length_low::<A>(first.y, last.y, height);
    exact::law_order_is_of_values(Scalar::from_bits(index::MAX_CELLS_BITS), count);
    let (w, h) = (lines_from(first.x, last.x), lines_from(first.y, last.y));
    let (a, b, c) = (exact::units(width), exact::units(height), exact::units(count));
    assert(rounding::rounded_to(count, one, a * b, one, true));
    lemma_product_low(w, h, a, b, c, one);
}

/// The value of the most cells.
proof fn lemma_most()
    ensures
        exact::units(Scalar::from_bits(index::MAX_CELLS_BITS)) == MAX_CELLS * exact::one(),
{
    vstd::arithmetic::power2::lemma2_to64();
    vstd::arithmetic::power2::lemma2_to64_rest();
    vstd::arithmetic::power2::lemma_pow2_adds(63, 63);
    vstd::arithmetic::power2::lemma_pow2_adds(126, 6);
    rounding::lemma_one();
    let bits = index::MAX_CELLS_BITS as int;
    assert(bits / 0x80_0000 == 133 && bits % 0x80_0000 == 0);
    let (a, b) = (pow2(126), pow2(6));
    assert(a * b == 64 * a) by (nonlinear_arith)
        requires
            b == 64,
    ;
    assert(pow2(126 + 6) == a * b);
    assert(exact::magnitude_units(bits) == 0x80_0000 * pow2(132));
    assert(a == 0x4000_0000_0000_0000_0000_0000_0000_0000nat);
}

/// Sides that come out as at least nearly what they are have no product that
/// comes out as much less.
proof fn lemma_product_low(w: int, h: int, a: int, b: int, c: int, one: int)
    requires
        one == exact::one(),
        w >= 1,
        h >= 1,
        a * 0x10_0000 >= (if w > 65 {
            65
        } else {
            w
        }) * one * 0xf_ffff,
        b * 0x10_0000 >= (if h > 65 {
            65
        } else {
            h
        }) * one * 0xf_ffff,
        c <= 64 * one,
        if rounding::size(a * b) > rounding::far() * one {
            a * b >= 0 ==> c >= rounding::far()
        } else {
            rounding::near(c * one, a * b, one)
        },
    ensures
        1 <= w * h <= 64,
{
    rounding::lemma_one();
    let v = if w > 65 {
        65
    } else {
        w
    };
    let g = if h > 65 {
        65
    } else {
        h
    };
    assert(w * h >= 1) by (nonlinear_arith)
        requires
            w >= 1,
            h >= 1,
    ;
    if w * h > 64 {
        assert(v * g >= 65) by (nonlinear_arith)
            requires
                w >= 1,
                h >= 1,
                w * h >= 65,
                v == w || (v == 65 && w > 65),
                g == h || (g == 65 && h > 65),
        ;
        let (x, y) = (v * one * 0xf_ffff, g * one * 0xf_ffff);
        let (p, q) = (a * 0x10_0000, b * 0x10_0000);
        assert(p * q >= x * y) by (nonlinear_arith)
            requires
                p >= x,
                q >= y,
                x >= 0,
                y >= 0,
        ;
        assert(p * q == (a * b) * (0x10_0000 * 0x10_0000)) by (nonlinear_arith)
            requires
                p == a * 0x10_0000,
                q == b * 0x10_0000,
        ;
        let square = one * one;
        assert(x * y == (v * g) * (square * (0xf_ffff * 0xf_ffff))) by (nonlinear_arith)
            requires
                x == v * one * 0xf_ffff,
                y == g * one * 0xf_ffff,
                square == one * one,
        ;
        assert(square > 0) by (nonlinear_arith)
            requires
                square == one * one,
                one > 0,
        ;
        assert((v * g) * (square * (0xf_ffff * 0xf_ffff)) >= 65 * (square * (0xf_ffff * 0xf_ffff)))
            by (nonlinear_arith)
            requires
                v * g >= 65,
                square > 0,
        ;
        let ab = a * b;
        let t = PARTS as int;
        assert(ab * 0x100_0000_0000 >= 65 * (square * 0xff_ffe0_0001));
        assert(ab >= 0);
        if rounding::size(ab) <= rounding::far() * one {
            assert(c * one <= 64 * square) by (nonlinear_arith)
                requires
                    c <= 64 * one,
                    square == one * one,
                    one > 0,
            ;
            assert(square >= one * 0x100_0000) by (nonlinear_arith)
                requires
                    square == one * one,
                    one >= 0x100_0000,
            ;
            assert((ab - c * one) * t <= ab + one * t);
            assert(false);
        }
        assert(false);
    }
}

/// The cells between two corners, where they are no more than a message is listed
/// in, are not counted as too many.
proof fn lemma_few_counted<A: Arithmetic>(first: Vec2, last: Vec2, count: Scalar)
    requires
        exact::counts_exactly::<A>(),
        corners_ordered(first, last),
        first.finite() && last.finite(),
        cells_between(first, last) <= MAX_CELLS,
        index::cell_count_is::<A>(first, last, count),
    ensures
        !index::too_many(count),
{
    rounding::lemma_one();
    lemma_most();
    let one = exact::one();
    let (width, height) = choose|width: Scalar, height: Scalar| #[trigger]
        index::length_is::<A>(first.x, last.x, width) && #[trigger] index::length_is::<A>(
            first.y,
            last.y,
            height,
        ) && arithmetic::times_is::<A>(width, height, count);
    let (w, h) = (lines_from(first.x, last.x), lines_from(first.y, last.y));
    exact::law_order_is_of_values(last.x, first.x);
    exact::law_order_is_of_values(last.y, first.y);
    assert(w >= 1 && h >= 1);
    assert(w <= w * h && h <= w * h) by (nonlinear_arith)
        requires
            w >= 1,
            h >= 1,
    ;
    lemma_length_exact::<A>(first.x, last.x, width);
    lemma_length_exact::<A>(first.y, last.y, height);
    lemma_small_whole(w * h);
    assert((w * one) * (h * one) == (w * h) * one * one) by (nonlinear_arith);
    assert(exact::stands_for(count, (w * h) * one));
    exact::law_order_is_of_values(Scalar::from_bits(index::MAX_CELLS_BITS), count);
}

/// A message is wide exactly where it spans more cells than a message is listed
/// in, or more than there are numbers for. Otherwise it is listed from the first
/// corner to the last, as far as integers go.
pub proof fn law_wide_where_cells_are_many<A: Arithmetic>(first: Vec2, last: Vec2, reach: Reach)
    requires
        rounding::rounds_to_near::<A>(),
        exact::counts_exactly::<A>(),
        corners_ordered(first, last),
        index::reach_between_is::<A>(first, last, reach),
    ensures
        reach is Wide <==> !(first.finite() && last.finite()) || cells_between(first, last)
            > MAX_CELLS,
        reach matches Reach::Span { min, max } ==> {
            &&& min.x == exact::saturated(exact::units(first.x) / exact::one())
            &&& min.y == exact::saturated(exact::units(first.y) / exact::one())
            &&& max.x == exact::saturated(exact::units(last.x) / exact::one())
            &&& max.y == exact::saturated(exact::units(last.y) / exact::one())
        },
{
    let count = choose|count: Scalar| #[trigger]
        index::cell_count_is::<A>(first, last, count) && index::count_decides::<A>(
            first,
            last,
            count,
            reach,
        );
    if index::too_many(count) {
        if first.finite() && last.finite() && cells_between(first, last) <= MAX_CELLS {
            lemma_few_counted::<A>(first, last, count);
        }
    } else {
        lemma_many_counted::<A>(first, last, count);
    }
}

/// What decides where a message is listed whose range is not below zero: whether
/// its place, its range and the square of that, `limit`, are finite, and then how
/// many cells there are between its corners, `first` and `last`.
pub proof fn law_cells_decide_the_reach<A: Arithmetic>(
    origin: Vec2,
    range: Scalar,
    edge: Scalar,
    reach: Reach,
) -> (parts: (Scalar, Vec2, Vec2))
    requires
        rounding::keeps_order::<A>(),
        rounding::rounds_to_near::<A>(),
        exact::counts_exactly::<A>(),
        Scalar::from_bits(ZERO_BITS).at_most(range),
        index::edge_usable(edge),
        index::reach_is::<A>(origin, range, edge, reach),
    ensures
        arithmetic::times_is::<A>(range, range, parts.0),
        !(origin.x.finite() && origin.y.finite() && range.finite() && parts.0.finite())
            ==> reach is Wide,
        origin.x.finite() && origin.y.finite() && range.finite() && parts.0.finite() ==> {
            let (limit, first, last) = parts;
            &&& index::corners_are::<A>(origin, range, limit, edge, first, last)
            &&& corners_ordered(first, last)
            &&& reach is Wide <==> !(first.finite() && last.finite()) || cells_between(first, last)
                > MAX_CELLS
            &&& reach matches Reach::Span { min, max } ==> {
                &&& min.x == exact::saturated(exact::units(first.x) / exact::one())
                &&& min.y == exact::saturated(exact::units(first.y) / exact::one())
                &&& max.x == exact::saturated(exact::units(last.x) / exact::one())
                &&& max.y == exact::saturated(exact::units(last.y) / exact::one())
            }
        },
{
    let limit = choose|limit: Scalar| #[trigger]
        arithmetic::times_is::<A>(range, range, limit) && index::listed_as::<A>(
            origin,
            range,
            limit,
            edge,
            reach,
        );
    if index::listable(origin, range, limit) {
        let (first, last) = choose|first: Vec2, last: Vec2| #[trigger]
            index::corners_are::<A>(origin, range, limit, edge, first, last)
                && index::reach_between_is::<A>(first, last, reach);
        law_corners_are_ordered::<A>(origin, range, limit, edge, first, last);
        law_wide_where_cells_are_many::<A>(first, last, reach);
        (limit, first, last)
    } else {
        (limit, origin, origin)
    }
}

/// A message whose range is not below zero is listed in a cell at least and in
/// few, counted as integers, or else is wide.
pub proof fn law_listed_in_few_cells<A: Arithmetic>(
    origin: Vec2,
    range: Scalar,
    edge: Scalar,
    reach: Reach,
)
    requires
        rounding::keeps_order::<A>(),
        rounding::rounds_to_near::<A>(),
        exact::counts_exactly::<A>(),
        Scalar::from_bits(ZERO_BITS).at_most(range),
        index::edge_usable(edge),
        index::reach_is::<A>(origin, range, edge, reach),
    ensures
        few_cells(reach),
{
    let (limit, first, last) = law_cells_decide_the_reach::<A>(origin, range, edge, reach);
    if let Reach::Span { min, max } = reach {
        exact::law_order_is_of_values(last.x, first.x);
        exact::law_order_is_of_values(last.y, first.y);
        rounding::lemma_one();
        let (w, h) = (lines_from(first.x, last.x), lines_from(first.y, last.y));
        let (x, y) = (max.x - min.x + 1, max.y - min.y + 1);
        assert(1 <= x <= w && 1 <= y <= h);
        assert(1 <= x * y <= w * h) by (nonlinear_arith)
            requires
                1 <= x <= w,
                1 <= y <= h,
        ;
    }
}

/// Whether a reach is wide or of a cell at least and few.
pub open spec fn few_cells(reach: Reach) -> bool {
    match reach {
        Reach::Wide => true,
        Reach::Span { min, max } => {
            &&& min.x <= max.x
            &&& min.y <= max.y
            &&& 1 <= (max.x - min.x + 1) * (max.y - min.y + 1) <= MAX_CELLS
        },
    }
}

/// Whether an index lists the message at `i` by its reach: apart, or in the cells
/// that it spans.
pub open spec fn listed_by(messages: MessageIndex, i: int, reach: Reach) -> bool {
    &&& messages.wide_messages().contains(i as u32) <==> reach is Wide
    &&& forall|cell: Cell|
        (#[trigger] messages.bucket(index::cell_key_of(cell))).contains(i as u32) <==> match reach {
            Reach::Wide => false,
            Reach::Span { min, max } => min.x <= cell.x && cell.x <= max.x && min.y <= cell.y
                && cell.y <= max.y,
        }
}

/// Whether the numbers ascend, so that none stands twice.
pub open spec fn ascending(numbers: Seq<u32>) -> bool {
    forall|j: int, k: int|
        0 <= j < k < numbers.len() ==> #[trigger] numbers[j] < #[trigger] numbers[k]
}

/// An index lists each message of a batch by its reach: apart, once, and in no
/// cell, or else in few cells, one at least, once each. Every list ascends.
pub proof fn law_index_lists_each_message<A: Arithmetic, P>(
    batch: Seq<PerceptionMessage<P>>,
    messages: MessageIndex,
    i: int,
) -> (reach: Reach)
    requires
        rounding::keeps_order::<A>(),
        rounding::rounds_to_near::<A>(),
        exact::counts_exactly::<A>(),
        batch.len() <= u32::MAX,
        messages.indexes::<A, P>(batch),
        0 <= i < batch.len(),
        Scalar::from_bits(ZERO_BITS).at_most(batch[i].range),
    ensures
        index::reach_is::<A>(batch[i].origin, batch[i].range, messages.edge(), reach),
        listed_by(messages, i, reach),
        few_cells(reach),
        ascending(messages.wide_messages()),
        forall|cell: Cell| ascending(#[trigger] messages.bucket(index::cell_key_of(cell))),
{
    let edge = messages.edge();
    let reaches = choose|reaches: Seq<Reach>| #[trigger]
        index::reaches_are::<A, P>(batch, edge, reaches) && messages.holds(reaches);
    let reach = reaches[i];
    law_listed_in_few_cells::<A>(batch[i].origin, batch[i].range, edge, reach);
    law_wide_or_listed(reaches, Cell { x: 0, y: 0 });
    assert forall|cell: Cell|
        (#[trigger] messages.bucket(index::cell_key_of(cell))).contains(i as u32)
            <==> reach.spans(cell) by {
        law_wide_or_listed(reaches, cell);
    }
    assert forall|cell: Cell| ascending(#[trigger] messages.bucket(index::cell_key_of(cell))) by {
        law_wide_or_listed(reaches, cell);
    }
    reach
}

} // verus!
