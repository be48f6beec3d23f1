//! What arithmetic owes where it rounds: results in the order of the exact ones,
//! and close to them.

use crate::arithmetic;
use crate::arithmetic::Arithmetic;
use crate::exact;
use crate::scalar::{Scalar, INFINITY_BITS, ZERO_BITS};
use vstd::arithmetic::power2::pow2;
use vstd::prelude::*;

verus! {

/// A result is off by at most one part in this many.
pub const PARTS: u32 = 0x100_0000;

/// The size of a value.
pub open spec fn size(value: int) -> int {
    if value < 0 {
        -value
    } else {
        value
    }
}

/// A value so great that every lesser one has a finite number near it: `2` to
/// the power of a hundred and twenty-seven.
pub open spec fn far() -> int {
    0x8000_0000_0000_0000_0000_0000_0000_0000int * exact::one()
}

/// `r` is near the exact value, to one part in [`PARTS`] and, where `grain` is
/// not zero, to that much.
pub open spec fn near(r: int, value: int, grain: int) -> bool {
    size(r - value) * PARTS <= size(value) + grain * PARTS
}

/// `r` is a great number, or an infinite one, on the side of the exact value.
pub open spec fn beyond(r: Scalar, value: int) -> bool {
    !r.nan() && if value < 0 {
        exact::units(r) <= -far()
    } else {
        exact::units(r) >= far()
    }
}

/// `r` is what `value / scale` may be rounded to, `operands` telling whether it
/// comes from finite numbers: a number near it, or one beyond where it is great.
pub open spec fn rounded_to(
    r: Scalar,
    scale: int,
    value: int,
    grain: int,
    operands: bool,
) -> bool {
    if size(value) > far() * scale {
        beyond(r, value)
    } else {
        operands ==> r.finite() && near(exact::units(r) * scale, value, grain)
    }
}

/// Whether adding rounds to a near number, as IEEE 754 has it.
pub open spec fn plus_rounds<A: Arithmetic>() -> bool {
    forall|a: Scalar, b: Scalar, r: Scalar| #[trigger]
        arithmetic::plus_is::<A>(a, b, r) && !a.nan() && !b.nan() ==> rounded_to(
            r,
            1,
            exact::units(a) + exact::units(b),
            0,
            a.finite() && b.finite(),
        )
}

/// Whether subtracting rounds to a near number, as IEEE 754 has it.
pub open spec fn minus_rounds<A: Arithmetic>() -> bool {
    forall|a: Scalar, b: Scalar, r: Scalar| #[trigger]
        arithmetic::minus_is::<A>(a, b, r) && !a.nan() && !b.nan() ==> rounded_to(
            r,
            1,
            exact::units(a) - exact::units(b),
            0,
            a.finite() && b.finite(),
        )
}

/// Whether multiplying rounds to a near number, as IEEE 754 has it.
pub open spec fn times_rounds<A: Arithmetic>() -> bool {
    forall|a: Scalar, b: Scalar, r: Scalar| #[trigger]
        arithmetic::times_is::<A>(a, b, r) && !a.nan() && !b.nan() ==> rounded_to(
            r,
            exact::one(),
            exact::units(a) * exact::units(b),
            exact::one(),
            a.finite() && b.finite(),
        )
}

/// Whether dividing by a positive number rounds to a near number, as IEEE 754 has
/// it.
pub open spec fn over_rounds<A: Arithmetic>() -> bool {
    forall|a: Scalar, b: Scalar, r: Scalar| #[trigger]
        arithmetic::over_is::<A>(a, b, r) && a.finite() && b.finite() && exact::units(b) > 0
            ==> rounded_to(
            r,
            exact::units(b),
            exact::units(a) * exact::one(),
            exact::units(b),
            true,
        )
}

/// Whether rounding down and reading as an integer are exact, as they are in
/// IEEE 754; an infinite number is read as the last integer on its side.
pub open spec fn wholes_are_exact<A: Arithmetic>() -> bool {
    &&& forall|a: Scalar, r: Scalar| #[trigger]
        arithmetic::floor_is::<A>(a, r) ==> if a.nan() {
            r.nan()
        } else {
            !r.nan() && exact::units(r) == (exact::units(a) / exact::one()) * exact::one()
        }
    &&& forall|a: Scalar, r: i32| #[trigger]
        arithmetic::to_int_is::<A>(a, r) && !a.nan() && exact::units(a) % exact::one() == 0
            ==> r == exact::saturated(exact::units(a) / exact::one())
}

/// Whether every operation returns what IEEE 754 allows: the exact result where
/// it rounds down or reads an integer, a number near it otherwise.
pub open spec fn rounds_to_near<A: Arithmetic>() -> bool {
    &&& plus_rounds::<A>()
    &&& minus_rounds::<A>()
    &&& times_rounds::<A>()
    &&& over_rounds::<A>()
    &&& wholes_are_exact::<A>()
}

/// Whether subtracting from a greater number returns no less, and nothing below
/// zero where the lesser number is subtracted, as IEEE 754 has it.
pub open spec fn minus_keeps_order<A: Arithmetic>() -> bool {
    &&& forall|a: Scalar, b: Scalar, c: Scalar, r: Scalar, s: Scalar| #[trigger]
        arithmetic::minus_is::<A>(a, c, r) && #[trigger] arithmetic::minus_is::<A>(b, c, s)
            && a.finite() && b.finite() && c.finite() && a.at_most(b) ==> r.at_most(s)
    &&& forall|a: Scalar, b: Scalar, r: Scalar| #[trigger]
        arithmetic::minus_is::<A>(a, b, r) && a.finite() && b.finite() && b.at_most(a)
            ==> Scalar::from_bits(ZERO_BITS).at_most(r)
    &&& forall|a: Scalar, b: Scalar, r: Scalar| #[trigger]
        arithmetic::minus_is::<A>(a, b, r) && a.finite() && b.finite() && a.at_most(b)
            ==> r.at_most(Scalar::from_bits(ZERO_BITS))
}

/// Whether a number farther from zero has no lesser square, and adding squares
/// returns no less than either, as IEEE 754 has it.
pub open spec fn squares_keep_order<A: Arithmetic>() -> bool {
    &&& forall|a: Scalar, b: Scalar, r: Scalar, s: Scalar| #[trigger]
        arithmetic::times_is::<A>(a, a, r) && #[trigger] arithmetic::times_is::<A>(b, b, s)
            && !a.nan() && !b.nan() && a.magnitude() <= b.magnitude() ==> r.at_most(s)
    &&& forall|a: Scalar, r: Scalar| #[trigger]
        arithmetic::times_is::<A>(a, a, r) && !a.nan() ==> Scalar::from_bits(ZERO_BITS).at_most(r)
    &&& forall|a: Scalar, b: Scalar, r: Scalar| #[trigger]
        arithmetic::plus_is::<A>(a, b, r) && Scalar::from_bits(ZERO_BITS).at_most(a)
            && Scalar::from_bits(ZERO_BITS).at_most(b) ==> a.at_most(r) && b.at_most(r)
}

/// Whether dividing a greater number by a positive one, rounding it down and
/// reading it as an integer return no less, as IEEE 754 has it.
pub open spec fn quotients_keep_order<A: Arithmetic>() -> bool {
    &&& forall|a: Scalar, b: Scalar, c: Scalar, r: Scalar, s: Scalar| #[trigger]
        arithmetic::over_is::<A>(a, c, r) && #[trigger] arithmetic::over_is::<A>(b, c, s)
            && c.finite() && Scalar::from_bits(ZERO_BITS).less(c) && a.at_most(b) ==> r.at_most(s)
    &&& forall|a: Scalar, b: Scalar, r: Scalar, s: Scalar| #[trigger]
        arithmetic::floor_is::<A>(a, r) && #[trigger] arithmetic::floor_is::<A>(b, s)
            && a.at_most(b) ==> r.at_most(s)
    &&& forall|a: Scalar, b: Scalar, r: i32, s: i32| #[trigger]
        arithmetic::to_int_is::<A>(a, r) && #[trigger] arithmetic::to_int_is::<A>(b, s)
            && a.at_most(b) ==> r <= s
}

/// Whether operations keep the order of numbers, as those of IEEE 754 do.
pub open spec fn keeps_order<A: Arithmetic>() -> bool {
    &&& minus_keeps_order::<A>()
    &&& squares_keep_order::<A>()
    &&& quotients_keep_order::<A>()
}

/// The value of one: `2` to the power of a hundred and forty-nine.
pub proof fn lemma_one()
    ensures
        exact::one() == 0x20_0000_0000_0000_0000_0000_0000_0000_0000_0000int,
{
    vstd::arithmetic::power2::lemma2_to64();
    vstd::arithmetic::power2::lemma2_to64_rest();
    vstd::arithmetic::power2::lemma_pow2_adds(63, 63);
    assert(pow2(63) == 0x8000_0000_0000_0000nat);
    assert(pow2(126) == 0x4000_0000_0000_0000_0000_0000_0000_0000nat);
    let bits = crate::scalar::ONE_BITS as int;
    assert(bits / 0x80_0000 == 127 && bits % 0x80_0000 == 0);
    assert(exact::one() == exact::magnitude_units(bits));
}

/// The value of a power of two, by its exponent.
pub proof fn lemma_power(exponent: u32)
    requires
        1 <= exponent <= 0xff,
    ensures
        exact::magnitude_units(exponent * 0x80_0000) == 0x80_0000 * pow2((exponent - 1) as nat),
{
    let m = exponent * 0x80_0000;
    assert(m / 0x80_0000 == exponent && m % 0x80_0000 == 0);
}

/// What is infinite is worth more than what is far.
pub proof fn lemma_infinite(number: Scalar)
    requires
        !number.nan(),
        !number.finite(),
    ensures
        size(exact::units(number)) == 2 * far(),
{
    vstd::arithmetic::power2::lemma2_to64();
    vstd::arithmetic::power2::lemma2_to64_rest();
    vstd::arithmetic::power2::lemma_pow2_adds(63, 63);
    vstd::arithmetic::power2::lemma_pow2_adds(64, 64);
    vstd::arithmetic::power2::lemma_pow2_adds(126, 128);
    lemma_one();
    assert(pow2(126) == 0x4000_0000_0000_0000_0000_0000_0000_0000nat);
    assert(pow2(128) == 0x1_0000_0000_0000_0000_0000_0000_0000_0000nat);
    assert(number.magnitude() == INFINITY_BITS);
    let m = INFINITY_BITS as int;
    assert(m / 0x80_0000 == 255 && m % 0x80_0000 == 0);
    let (a, b) = (pow2(126), pow2(128));
    assert(a * b == 0x4000_0000_0000_0000_0000_0000_0000_0000_0000_0000_0000_0000_0000_0000_0000_0000nat)
        by (nonlinear_arith)
        requires
            a == 0x4000_0000_0000_0000_0000_0000_0000_0000nat,
            b == 0x1_0000_0000_0000_0000_0000_0000_0000_0000nat,
    ;
    assert(pow2(126 + 128) == a * b);
    assert(exact::magnitude_units(m) == 0x80_0000 * pow2(254));
}

/// A square comes out at least at nearly what it is.
proof fn lemma_square_low(d: int, s: int, x: int, one: int)
    requires
        one > 0,
        near(s, d, 0),
        near(x * one, s * s, one),
    ensures
        x * one * PARTS >= d * d * (PARTS - 3) - one * PARTS,
{
    let t = PARTS as int;
    let (u, v) = (size(s), size(d));
    assert(u * t >= v * (t - 1)) by (nonlinear_arith)
        requires
            size(s - d) * t <= v,
            v - u <= size(s - d),
            t > 0,
    ;
    assert(u * u == s * s) by (nonlinear_arith)
        requires
            u == s || u == -s,
    ;
    assert(v * v == d * d) by (nonlinear_arith)
        requires
            v == d || v == -d,
    ;
    assert((u * u) * (t * t) >= (v * v) * ((t - 1) * (t - 1))) by (nonlinear_arith)
        requires
            u * t >= v * (t - 1),
            u >= 0,
            v >= 0,
            t > 1,
    {
        assert((u * t) * (u * t) >= (v * (t - 1)) * (v * (t - 1)));
        assert((u * t) * (u * t) == (u * u) * (t * t));
        assert((v * (t - 1)) * (v * (t - 1)) == (v * v) * ((t - 1) * (t - 1)));
    }
    let (ss, dd) = (s * s, d * d);
    assert(ss >= 0 && dd >= 0) by (nonlinear_arith)
        requires
            ss == s * s,
            dd == d * d,
    ;
    assert(ss * t >= dd * (t - 2)) by (nonlinear_arith)
        requires
            ss * (t * t) >= dd * ((t - 1) * (t - 1)),
            dd >= 0,
            t == 0x100_0000,
    ;
    assert((ss - x * one) * t <= ss + one * t);
    assert(x * one * t >= dd * (t - 3) - one * t) by (nonlinear_arith)
        requires
            (ss - x * one) * t <= ss + one * t,
            ss * t >= dd * (t - 2),
            dd >= 0,
            ss >= 0,
            t == 0x100_0000,
    ;
}

/// A squared distance that is greater than the square of a range and some slack
/// comes out greater than the squared range.
///
/// The steps `dx` and `dy` came out as `sx` and `sy`, their squares as `xx` and
/// `yy`, the sum of those as `d`, and the square of `r` as `rr`.
pub proof fn lemma_squares_order(
    dx: int,
    dy: int,
    r: int,
    slack: int,
    sx: int,
    sy: int,
    xx: int,
    yy: int,
    d: int,
    rr: int,
    one: int,
)
    requires
        one > 0,
        0 <= r <= slack * 0x20_0000,
        8 * one <= slack * slack,
        dx * dx + dy * dy > (r + slack) * (r + slack),
        near(sx, dx, 0),
        near(sy, dy, 0),
        near(xx * one, sx * sx, one),
        near(yy * one, sy * sy, one),
        near(d, xx + yy, 0),
        near(rr * one, r * r, one),
    ensures
        rr < d,
{
    let t = PARTS as int;
    lemma_square_low(dx, sx, xx, one);
    lemma_square_low(dy, sy, yy, one);
    let whole = dx * dx + dy * dy;
    let sum = xx + yy;
    assert(sum * one * t >= whole * (t - 3) - 2 * (one * t)) by (nonlinear_arith)
        requires
            xx * one * t >= dx * dx * (t - 3) - one * t,
            yy * one * t >= dy * dy * (t - 3) - one * t,
            whole == dx * dx + dy * dy,
            sum == xx + yy,
    ;
    let rs = r * r;
    let cross = r * slack;
    let ks = slack * slack;
    assert((r + slack) * (r + slack) == rs + 2 * cross + ks) by (nonlinear_arith)
        requires
            rs == r * r,
            cross == r * slack,
            ks == slack * slack,
    ;
    assert(rs <= 0x20_0000 * cross) by (nonlinear_arith)
        requires
            rs == r * r,
            cross == r * slack,
            0 <= r <= slack * 0x20_0000,
    ;
    assert(rs >= 0 && cross >= 0) by (nonlinear_arith)
        requires
            rs == r * r,
            cross == r * slack,
            0 <= r,
            0 <= slack,
    ;
    assert(whole * (t - 4) > (rs + 2 * cross + ks) * (t - 4)) by (nonlinear_arith)
        requires
            whole > rs + 2 * cross + ks,
            t == 0x100_0000,
    ;
    assert(whole >= 0 && whole * (t - 3) >= whole * (t - 4)) by (nonlinear_arith)
        requires
            whole > rs + 2 * cross + ks,
            rs >= 0,
            cross >= 0,
            ks >= 0,
    ;
    assert(sum * one * t > 0) by (nonlinear_arith)
        requires
            sum * one * t >= whole * (t - 3) - 2 * (one * t),
            whole * (t - 3) >= whole * (t - 4),
            whole * (t - 4) > (rs + 2 * cross + ks) * (t - 4),
            rs >= 0,
            cross >= 0,
            ks >= 8 * one,
            one > 0,
            t == 0x100_0000,
    ;
    assert(sum > 0) by (nonlinear_arith)
        requires
            sum * one * t > 0,
            one > 0,
            t > 0,
    ;
    assert(d * t >= sum * (t - 1)) by (nonlinear_arith)
        requires
            size(d - sum) * t <= sum,
            sum - d <= size(d - sum),
            t > 0,
    ;
    let z = sum * one * t;
    assert(d * one * t * t >= z * (t - 1)) by (nonlinear_arith)
        requires
            d * t >= sum * (t - 1),
            z == sum * one * t,
            one > 0,
            t > 0,
    {
        assert((d * t) * (one * t) >= (sum * (t - 1)) * (one * t));
        assert((d * t) * (one * t) == d * one * t * t);
        assert((sum * (t - 1)) * (one * t) == z * (t - 1));
    }
    assert(d * one * t >= whole * (t - 4) - 2 * (one * t)) by (nonlinear_arith)
        requires
            d * one * t * t >= z * (t - 1),
            z >= whole * (t - 3) - 2 * (one * t),
            whole >= 0,
            one > 0,
            t == 0x100_0000,
    ;
    assert(rr * one * t <= rs * t + rs + one * t);
    assert(rr * one * t < d * one * t) by (nonlinear_arith)
        requires
            rr * one * t <= rs * t + rs + one * t,
            d * one * t >= whole * (t - 4) - 2 * (one * t),
            whole * (t - 4) > (rs + 2 * cross + ks) * (t - 4),
            rs <= 0x20_0000 * cross,
            rs >= 0,
            cross >= 0,
            ks >= 8 * one,
            one > 0,
            t == 0x100_0000,
    ;
    assert(rr < d) by (nonlinear_arith)
        requires
            rr * one * t < d * one * t,
            one > 0,
            t > 0,
    ;
}

/// The size of a product.
pub proof fn lemma_size_product(a: int, b: int)
    ensures
        size(a * b) == size(a) * size(b),
{
    assert(size(a * b) == size(a) * size(b)) by (nonlinear_arith)
        requires
            size(a) == (if a < 0 {
                -a
            } else {
                a
            }),
            size(b) == (if b < 0 {
                -b
            } else {
                b
            }),
            size(a * b) == (if a * b < 0 {
                -(a * b)
            } else {
                a * b
            }),
    ;
}

/// A line is not before what a range from `o` to `r` below it meets, longer by
/// `margin`. The low end came out as `low`, and divided by the edge `s` as `f`.
proof fn lemma_low_line(
    o: int,
    r: int,
    slack: int,
    margin: int,
    low: int,
    s: int,
    f: int,
)
    requires
        r >= 0,
        slack >= 0,
        margin * 0x40_0000 >= size(o) + r + 0x40_0000 * slack + 0x40_0000_0000_0000_0000_0000_0000int,
        slack * 0x20_0000 <= r + 0x1000_0000_0000_0000_0000_0000_0000int,
        ((o - r) - low) * PARTS <= size(o) + r + slack * PARTS,
        size(low) <= 2 * (size(o) + r) + slack,
        0 < s <= 0x1_0000_0000_0000_0000int * exact::one(),
        near(f * s, low * exact::one(), s),
    ensures
        (o - r - margin) * exact::one() <= f * s,
{
    lemma_one();
    let t = PARTS as int;
    let one = exact::one();
    let fs = f * s;
    lemma_size_product(low, one);
    assert((low * one - fs) * t <= size(low) * one + s * t);
    assert(fs * t >= (low * t - size(low)) * one - s * t);
    assert((low - (o - r - margin)) * t >= size(low) + 0x1_0000_0000_0000_0000int * t);
    assert(fs * t >= (o - r - margin) * t * one);
}

/// Neither line is farther out than what the range meets, longer by `margin`, see
/// [`lemma_low_line`]. The high end came out as `high`, and divided as `g`.
pub proof fn lemma_both_lines(
    o: int,
    r: int,
    slack: int,
    margin: int,
    low: int,
    high: int,
    s: int,
    f: int,
    g: int,
)
    requires
        r >= 0,
        slack >= 0,
        margin * 0x40_0000 >= size(o) + r + 0x40_0000 * slack + 0x40_0000_0000_0000_0000_0000_0000int,
        slack * 0x20_0000 <= r + 0x1000_0000_0000_0000_0000_0000_0000int,
        ((o - r) - low) * PARTS <= size(o) + r + slack * PARTS,
        (high - (o + r)) * PARTS <= size(o) + r + slack * PARTS,
        size(low) <= 2 * (size(o) + r) + slack,
        size(high) <= 2 * (size(o) + r) + slack,
        0 < s <= 0x1_0000_0000_0000_0000int * exact::one(),
        near(f * s, low * exact::one(), s),
        near(g * s, high * exact::one(), s),
    ensures
        ((o - r - margin) / s) * exact::one() <= (f / exact::one()) * exact::one(),
        (g / exact::one()) * exact::one() <= ((o + r + margin) / s) * exact::one(),
{
    lemma_one();
    let one = exact::one();
    lemma_low_line(o, r, slack, margin, low, s, f);
    assert((-g) * s == -(g * s)) by (nonlinear_arith);
    assert((-high) * one == -(high * one)) by (nonlinear_arith);
    lemma_low_line(-o, r, slack, margin, -high, s, -g);
    lemma_quotient_order(o - r - margin, s, f, one);
    assert((-o - r - margin) * one == -((o + r + margin) * one)) by (nonlinear_arith);
    lemma_quotient_order(g, one, o + r + margin, s);
    let (x, y) = ((o - r - margin) / s, (o + r + margin) / s);
    assert(x * one <= (f / one) * one) by (nonlinear_arith)
        requires
            x <= f / one,
            one > 0,
    ;
    assert((g / one) * one <= y * one) by (nonlinear_arith)
        requires
            g / one <= y,
            one > 0,
    ;
}

/// Quotients that stand in some order do so rounded down.
proof fn lemma_quotient_order(a: int, b: int, c: int, d: int)
    requires
        b > 0,
        d > 0,
        a * d <= c * b,
    ensures
        a / b <= c / d,
{
    let x = a / b;
    vstd::arithmetic::div_mod::lemma_fundamental_div_mod(a, b);
    assert(b * x <= a);
    assert(x * d <= c) by (nonlinear_arith)
        requires
            b * x <= a,
            a * d <= c * b,
            b > 0,
            d > 0,
    {
        assert((b * x) * d <= a * d);
        assert(b * (x * d) <= b * c);
    }
    vstd::arithmetic::div_mod::lemma_div_is_ordered(x * d, c, d);
    vstd::arithmetic::div_mod::lemma_div_multiples_vanish(x, d);
    assert(d * x == x * d) by (nonlinear_arith);
}

} // verus!
