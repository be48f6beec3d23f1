//! Laws of the order of numbers.

use crate::exact;
use crate::scalar::Scalar;
use core::cmp::Ordering;
use vstd::prelude::*;

verus! {

/// What a bit pattern stands for: with all exponent bits set it is infinite or no
/// number, by whether the fraction is zero; otherwise it is finite.
pub proof fn law_patterns_by_their_bits(number: Scalar)
    ensures
        number.nan() <==> number.bits & 0x7f80_0000 == 0x7f80_0000 && number.bits & 0x007f_ffff
            != 0,
        number.finite() <==> number.bits & 0x7f80_0000 != 0x7f80_0000,
{
    let bits = number.bits;
    let rest = bits & 0x7fff_ffff;
    assert(bits >= 0x8000_0000u32 ==> bits - 0x8000_0000u32 == rest) by (bit_vector)
        requires
            rest == bits & 0x7fff_ffff,
    ;
    assert(bits < 0x8000_0000u32 ==> bits == rest) by (bit_vector)
        requires
            rest == bits & 0x7fff_ffff,
    ;
    assert(rest > 0x7f80_0000u32 <==> bits & 0x7f80_0000 == 0x7f80_0000 && bits & 0x007f_ffff != 0)
        by (bit_vector)
        requires
            rest == bits & 0x7fff_ffff,
    ;
    assert(rest < 0x7f80_0000u32 <==> bits & 0x7f80_0000 != 0x7f80_0000) by (bit_vector)
        requires
            rest == bits & 0x7fff_ffff,
    ;
}

/// What is no number is neither less than, nor at most, nor equal to anything, not
/// even to itself.
pub proof fn law_no_number_compares(a: Scalar, b: Scalar)
    requires
        a.nan(),
    ensures
        !a.less(b) && !b.less(a),
        !a.at_most(b) && !b.at_most(a),
        !a.equals(b) && !b.equals(a),
{
}

/// Numbers compare by their values.
pub proof fn law_numbers_compare_by_value(a: Scalar, b: Scalar)
    requires
        !a.nan(),
        !b.nan(),
    ensures
        a.less(b) <==> exact::units(a) < exact::units(b),
        a.at_most(b) <==> exact::units(a) <= exact::units(b),
        a.equals(b) <==> exact::units(a) == exact::units(b),
{
    exact::law_order_is_of_values(a, b);
}

/// The greater of two numbers is one of them and no less than either; what is no
/// number gives way, and of equal numbers the first stays.
pub proof fn law_greater_is_no_less(a: Scalar, b: Scalar)
    ensures
        a.greater(b) == a || a.greater(b) == b,
        !a.nan() ==> a.at_most(a.greater(b)),
        !b.nan() ==> b.at_most(a.greater(b)),
        a.equals(b) ==> a.greater(b) == a,
{
}

/// The total order is that of the values, puts the zeros in the order of their
/// signs, and has a place of its own for every pattern: those that are no number
/// stand outside of all others, on the side of their sign.
pub proof fn law_total_order(a: Scalar, b: Scalar)
    ensures
        a.less(b) ==> a.total_rank() < b.total_rank(),
        a.total_rank() == b.total_rank() <==> a.bits == b.bits,
        a.bits >= 0x8000_0000 && b.bits < 0x8000_0000 ==> a.total_rank() < b.total_rank(),
        a.nan() && !b.nan() ==> if a.bits >= 0x8000_0000 {
            a.total_rank() < b.total_rank()
        } else {
            b.total_rank() < a.total_rank()
        },
        i32::MIN <= a.total_rank() <= i32::MAX,
{
}

/// A comparison answers by the order of numbers, and not at all where one of the
/// two is no number.
pub proof fn law_comparison_is_by_order(a: Scalar, b: Scalar, answer: Option<Ordering>)
    requires
        call_ensures(PartialOrd::partial_cmp, (&a, &b), answer),
    ensures
        answer is None <==> a.nan() || b.nan(),
        answer == Some(Ordering::Less) <==> a.less(b),
        answer == Some(Ordering::Equal) <==> a.equals(b),
        answer == Some(Ordering::Greater) <==> b.less(a),
{
}

/// A number is where its key puts it, and has the pattern it was made from.
pub proof fn law_numbers_from_keys_and_bits(key: i32, placed: Scalar, bits: u32, made: Scalar)
    requires
        call_ensures(Scalar::from_total_key, (key,), placed),
        call_ensures(Scalar::from_bits, (bits,), made),
    ensures
        placed.total_rank() == key,
        made.bits == bits,
{
}

} // verus!
