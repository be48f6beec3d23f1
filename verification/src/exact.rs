//! What numbers stand for, and what arithmetic owes where it need not round.

use crate::arithmetic;
use crate::arithmetic::Arithmetic;
use crate::scalar::{Scalar, ONE_BITS};
use vstd::arithmetic::power2::pow2;
use vstd::prelude::*;

verus! {

/// How many patterns share an exponent.
pub const FRACTIONS: u32 = 0x80_0000;

/// The value of a magnitude, counted in the least positive number.
pub open spec fn magnitude_units(magnitude: int) -> int {
    let exponent = magnitude / (FRACTIONS as int);
    let fraction = magnitude % (FRACTIONS as int);
    if exponent <= 0 {
        fraction
    } else {
        (FRACTIONS + fraction) * pow2((exponent - 1) as nat)
    }
}

/// The value of a number, counted in the least positive number. An infinite one
/// counts as what would come next if there were one more exponent.
pub open spec fn units(number: Scalar) -> int {
    if number.bits >= crate::scalar::SIGN_BIT {
        -magnitude_units(number.magnitude())
    } else {
        magnitude_units(number.magnitude())
    }
}

/// The value of `1.0`.
pub open spec fn one() -> int {
    units(Scalar::from_bits(ONE_BITS))
}

/// Whether a number stands for the value.
pub open spec fn stands_for(number: Scalar, value: int) -> bool {
    number.finite() && units(number) == value
}

/// Whether some number stands for the value.
pub open spec fn representable(value: int) -> bool {
    exists|number: Scalar| #[trigger] stands_for(number, value)
}

/// An integer as far as an `i32` goes.
pub open spec fn saturated(value: int) -> int {
    if value < i32::MIN {
        i32::MIN as int
    } else if value > i32::MAX {
        i32::MAX as int
    } else {
        value
    }
}

/// Whether adding the two returns something.
pub open spec fn plus_answers<A: Arithmetic>(a: Scalar, b: Scalar) -> bool {
    exists|r: Scalar| arithmetic::plus_is::<A>(a, b, r)
}

/// Whether subtracting the second returns something.
pub open spec fn minus_answers<A: Arithmetic>(a: Scalar, b: Scalar) -> bool {
    exists|r: Scalar| arithmetic::minus_is::<A>(a, b, r)
}

/// Whether multiplying the two returns something.
pub open spec fn times_answers<A: Arithmetic>(a: Scalar, b: Scalar) -> bool {
    exists|r: Scalar| arithmetic::times_is::<A>(a, b, r)
}

/// Whether every operation that measures a distance returns something.
pub open spec fn answers<A: Arithmetic>() -> bool {
    &&& forall|a: Scalar, b: Scalar| #[trigger] plus_answers::<A>(a, b)
    &&& forall|a: Scalar, b: Scalar| #[trigger] minus_answers::<A>(a, b)
    &&& forall|a: Scalar, b: Scalar| #[trigger] times_answers::<A>(a, b)
}

/// Whether adding finite numbers returns the exact sum wherever a number stands
/// for that, as IEEE 754 has it.
pub open spec fn rounds_only_where_it_must<A: Arithmetic>() -> bool {
    forall|a: Scalar, b: Scalar, r: Scalar| #[trigger]
        arithmetic::plus_is::<A>(a, b, r) && a.finite() && b.finite() && representable(
            units(a) + units(b),
        ) ==> stands_for(r, units(a) + units(b))
}

/// Whether counting is exact, as IEEE 754 has it: adding, subtracting and
/// multiplying finite numbers return the exact result wherever a number stands
/// for that, and what is infinite stays so or becomes no number.
pub open spec fn counts_exactly<A: Arithmetic>() -> bool {
    &&& rounds_only_where_it_must::<A>()
    &&& forall|a: Scalar, b: Scalar, r: Scalar| #[trigger]
        arithmetic::minus_is::<A>(a, b, r) && a.finite() && b.finite() && representable(
            units(a) - units(b),
        ) ==> stands_for(r, units(a) - units(b))
    &&& forall|a: Scalar, b: Scalar, r: Scalar, product: int|
        #![trigger arithmetic::times_is::<A>(a, b, r), representable(product)]
        arithmetic::times_is::<A>(a, b, r) && a.finite() && b.finite() && representable(product)
            && units(a) * units(b) == product * one() ==> stands_for(r, product)
    &&& forall|a: Scalar, b: Scalar, r: Scalar| #[trigger]
        arithmetic::plus_is::<A>(a, b, r) && r.finite() ==> a.finite() && b.finite()
    &&& forall|a: Scalar, b: Scalar, r: Scalar| #[trigger]
        arithmetic::minus_is::<A>(a, b, r) && r.finite() ==> a.finite() && b.finite()
    &&& forall|a: Scalar, b: Scalar, r: Scalar| #[trigger]
        arithmetic::times_is::<A>(a, b, r) && r.finite() ==> a.finite() && b.finite()
}

/// Greater magnitudes stand for greater values.
pub proof fn lemma_magnitude_order(a: int, b: int)
    requires
        0 <= a < b,
    ensures
        0 <= magnitude_units(a) < magnitude_units(b),
{
    let step = FRACTIONS as int;
    let (ea, fa) = (a / step, a % step);
    let (eb, fb) = (b / step, b % step);
    assert(ea <= eb && (ea == eb ==> fa < fb) && ea >= 0) by (nonlinear_arith)
        requires
            0 <= a < b,
            step == 0x80_0000,
            ea == a / step,
            fa == a % step,
            eb == b / step,
            fb == b % step,
    ;
    if ea > 0 {
        vstd::arithmetic::power2::lemma_pow2_pos((ea - 1) as nat);
    }
    if eb > 0 {
        vstd::arithmetic::power2::lemma_pow2_pos((eb - 1) as nat);
        let pb = pow2((eb - 1) as nat) as int;
        assert(step * pb <= (step + fb) * pb) by (nonlinear_arith)
            requires
                fb >= 0,
                pb > 0,
        ;
        if ea == eb {
            assert((step + fa) * pb < (step + fb) * pb) by (nonlinear_arith)
                requires
                    fa < fb,
                    pb > 0,
            ;
            assert(0 <= (step + fa) * pb) by (nonlinear_arith)
                requires
                    fa >= 0,
                    step >= 0,
                    pb > 0,
            ;
        } else if ea > 0 {
            let pa = pow2((ea - 1) as nat) as int;
            vstd::arithmetic::power2::lemma_pow2_unfold(ea as nat);
            if ea < eb - 1 {
                vstd::arithmetic::power2::lemma_pow2_strictly_increases(
                    ea as nat,
                    (eb - 1) as nat,
                );
            }
            assert(2 * pa <= pb);
            assert((step + fa) * pa < step * (2 * pa)) by (nonlinear_arith)
                requires
                    fa < step,
                    pa > 0,
            ;
            assert(step * (2 * pa) <= step * pb) by (nonlinear_arith)
                requires
                    2 * pa <= pb,
                    step > 0,
            ;
            assert(0 <= (step + fa) * pa) by (nonlinear_arith)
                requires
                    fa >= 0,
                    step >= 0,
                    pa > 0,
            ;
        } else {
            assert(step <= step * pb) by (nonlinear_arith)
                requires
                    pb > 0,
                    step > 0,
            ;
        }
    }
}

/// Numbers stand in the order of their values, and the infinite ones outside of
/// all others.
pub proof fn law_order_is_of_values(a: Scalar, b: Scalar)
    requires
        !a.nan(),
        !b.nan(),
    ensures
        a.less(b) <==> units(a) < units(b),
        a.equals(b) <==> units(a) == units(b),
{
    let (ma, mb) = (a.magnitude(), b.magnitude());
    if ma < mb {
        lemma_magnitude_order(ma, mb);
    } else if mb < ma {
        lemma_magnitude_order(mb, ma);
    }
    if ma > 0 {
        lemma_magnitude_order(0, ma);
    }
    if mb > 0 {
        lemma_magnitude_order(0, mb);
    }
    assert(magnitude_units(0) == 0);
}

} // verus!
