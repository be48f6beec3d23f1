//! The arithmetic that the host lends to the library.

use crate::scalar::Scalar;
use vstd::prelude::*;

verus! {

/// Single-precision arithmetic.
///
/// Nothing is promised of what an operation returns: what the library states
/// of its results holds whatever the operations return, also where two calls
/// on the same numbers differ.
pub trait Arithmetic {
    /// `a + b`.
    fn plus(a: Scalar, b: Scalar) -> Scalar;

    /// `a - b`.
    fn minus(a: Scalar, b: Scalar) -> Scalar;

    /// `a * b`.
    fn times(a: Scalar, b: Scalar) -> Scalar;

    /// `a / b`.
    fn over(a: Scalar, b: Scalar) -> Scalar;

    /// The square root of `a`.
    fn square_root(a: Scalar) -> Scalar;

    /// The logarithm of `a` to the base ten.
    fn log10(a: Scalar) -> Scalar;

    /// The greatest whole number that is at most `a`.
    fn floor(a: Scalar) -> Scalar;

    /// `a` as an integer, towards zero; the nearest one where `a` is out of
    /// reach, zero where `a` is no number.
    fn to_int(a: Scalar) -> i32;
}

/// `r` is what adding `b` to `a` may return.
pub open spec fn plus_is<A: Arithmetic>(a: Scalar, b: Scalar, r: Scalar) -> bool {
    call_ensures(A::plus, (a, b), r)
}

/// `r` is what subtracting `b` from `a` may return.
pub open spec fn minus_is<A: Arithmetic>(a: Scalar, b: Scalar, r: Scalar) -> bool {
    call_ensures(A::minus, (a, b), r)
}

/// `r` is what multiplying `a` by `b` may return.
pub open spec fn times_is<A: Arithmetic>(a: Scalar, b: Scalar, r: Scalar) -> bool {
    call_ensures(A::times, (a, b), r)
}

/// `r` is what dividing `a` by `b` may return.
pub open spec fn over_is<A: Arithmetic>(a: Scalar, b: Scalar, r: Scalar) -> bool {
    call_ensures(A::over, (a, b), r)
}

/// `r` is what the square root of `a` may return.
pub open spec fn square_root_is<A: Arithmetic>(a: Scalar, r: Scalar) -> bool {
    call_ensures(A::square_root, (a,), r)
}

/// `r` is what the logarithm of `a` may return.
pub open spec fn log10_is<A: Arithmetic>(a: Scalar, r: Scalar) -> bool {
    call_ensures(A::log10, (a,), r)
}

/// `r` is what rounding `a` down may return.
pub open spec fn floor_is<A: Arithmetic>(a: Scalar, r: Scalar) -> bool {
    call_ensures(A::floor, (a,), r)
}

/// `r` is what reading `a` as an integer may return.
pub open spec fn to_int_is<A: Arithmetic>(a: Scalar, r: i32) -> bool {
    call_ensures(A::to_int, (a,), r)
}

/// Whether every operation has one result, as single-precision arithmetic does.
pub open spec fn settled<A: Arithmetic>() -> bool {
    &&& forall|a: Scalar, b: Scalar, r: Scalar, s: Scalar| #[trigger]
        plus_is::<A>(a, b, r) && #[trigger] plus_is::<A>(a, b, s) ==> r == s
    &&& forall|a: Scalar, b: Scalar, r: Scalar, s: Scalar| #[trigger]
        minus_is::<A>(a, b, r) && #[trigger] minus_is::<A>(a, b, s) ==> r == s
    &&& forall|a: Scalar, b: Scalar, r: Scalar, s: Scalar| #[trigger]
        times_is::<A>(a, b, r) && #[trigger] times_is::<A>(a, b, s) ==> r == s
    &&& forall|a: Scalar, b: Scalar, r: Scalar, s: Scalar| #[trigger]
        over_is::<A>(a, b, r) && #[trigger] over_is::<A>(a, b, s) ==> r == s
    &&& forall|a: Scalar, r: Scalar, s: Scalar| #[trigger]
        square_root_is::<A>(a, r) && #[trigger] square_root_is::<A>(a, s) ==> r == s
    &&& forall|a: Scalar, r: Scalar, s: Scalar| #[trigger]
        log10_is::<A>(a, r) && #[trigger] log10_is::<A>(a, s) ==> r == s
    &&& forall|a: Scalar, r: Scalar, s: Scalar| #[trigger]
        floor_is::<A>(a, r) && #[trigger] floor_is::<A>(a, s) ==> r == s
    &&& forall|a: Scalar, r: i32, s: i32| #[trigger]
        to_int_is::<A>(a, r) && #[trigger] to_int_is::<A>(a, s) ==> r == s
}

} // verus!
