//! Laws of the direction toward a stimulus.

use crate::arithmetic;
use crate::arithmetic::Arithmetic;
use crate::memory::LocationKnowledge;
use crate::scalar::Scalar;
use crate::space::{Dir2, Vec2};
use vstd::prelude::*;

verus! {

/// The numbers that a direction comes from, in the order in which they come out.
pub struct Heading {
    /// The step from the place to the origin.
    pub step: Vec2,
    /// The squares of that, and their sum.
    pub xx: Scalar,
    pub yy: Scalar,
    pub square: Scalar,
    /// The length of the step.
    pub length: Scalar,
}

/// A direction is a step divided by its length; there is none where the length is
/// zero, infinite or no number.
pub proof fn law_direction_is_a_step_over_its_length<A: Arithmetic>(
    step: Vec2,
    direction: Option<Dir2>,
) -> (h: Heading)
    requires
        Dir2::direction_is::<A>(step, direction),
    ensures
        h.step == step,
        arithmetic::times_is::<A>(step.x, step.x, h.xx),
        arithmetic::times_is::<A>(step.y, step.y, h.yy),
        arithmetic::plus_is::<A>(h.xx, h.yy, h.square),
        arithmetic::square_root_is::<A>(h.square, h.length),
        direction is Some <==> h.length.finite() && (Scalar { bits: 0 }).less(h.length),
        direction matches Some(unit) ==> {
            &&& arithmetic::over_is::<A>(step.x, h.length, unit.x)
            &&& arithmetic::over_is::<A>(step.y, h.length, unit.y)
        },
{
    let (square, length) = choose|square: Scalar, length: Scalar|
        {
            &&& #[trigger] step.length_squared_is::<A>(square)
            &&& #[trigger] arithmetic::square_root_is::<A>(square, length)
            &&& match direction {
                Some(unit) => {
                    &&& Dir2::length_usable(length)
                    &&& arithmetic::over_is::<A>(step.x, length, unit.x)
                    &&& arithmetic::over_is::<A>(step.y, length, unit.y)
                },
                None => !Dir2::length_usable(length),
            }
        };
    let (xx, yy) = choose|xx: Scalar, yy: Scalar|
        {
            &&& #[trigger] arithmetic::times_is::<A>(step.x, step.x, xx)
            &&& #[trigger] arithmetic::times_is::<A>(step.y, step.y, yy)
            &&& arithmetic::plus_is::<A>(xx, yy, square)
        };
    Heading { step, xx, yy, square, length }
}

/// The direction toward a known origin is the step from the place to the origin
/// along both axes, divided by its length.
pub proof fn law_direction_leads_to_the_origin<A: Arithmetic>(
    origin: Vec2,
    pos: Vec2,
    direction: Option<Dir2>,
) -> (h: Heading)
    requires
        LocationKnowledge::Origin(origin).direction_from_is::<A>(pos, direction),
    ensures
        arithmetic::minus_is::<A>(origin.x, pos.x, h.step.x),
        arithmetic::minus_is::<A>(origin.y, pos.y, h.step.y),
        arithmetic::times_is::<A>(h.step.x, h.step.x, h.xx),
        arithmetic::times_is::<A>(h.step.y, h.step.y, h.yy),
        arithmetic::plus_is::<A>(h.xx, h.yy, h.square),
        arithmetic::square_root_is::<A>(h.square, h.length),
        direction is Some <==> h.length.finite() && (Scalar { bits: 0 }).less(h.length),
        direction matches Some(unit) ==> {
            &&& arithmetic::over_is::<A>(h.step.x, h.length, unit.x)
            &&& arithmetic::over_is::<A>(h.step.y, h.length, unit.y)
        },
{
    let step = choose|step: Vec2| #[trigger]
        origin.step_is::<A>(pos, step) && Dir2::direction_is::<A>(step, direction);
    law_direction_is_a_step_over_its_length::<A>(step, direction)
}

/// A direction that is all that is known stays what it is, from every place.
pub proof fn law_known_direction_stays<A: Arithmetic>(
    known: Dir2,
    pos: Vec2,
    direction: Option<Dir2>,
)
    requires
        LocationKnowledge::Direction(known).direction_from_is::<A>(pos, direction),
    ensures
        direction == Some(known),
{
}

/// Whether subtracting and dividing by a positive number keep to the signs, as
/// IEEE 754 has it.
pub open spec fn keeps_signs<A: Arithmetic>() -> bool {
    &&& forall|a: Scalar, b: Scalar, r: Scalar| #[trigger]
        arithmetic::minus_is::<A>(a, b, r) && a.finite() && b.finite() ==> {
            &&& a.at_most(b) ==> r.at_most(Scalar { bits: 0 })
            &&& b.at_most(a) ==> (Scalar { bits: 0 }).at_most(r)
        }
    &&& forall|a: Scalar, b: Scalar, r: Scalar| #[trigger]
        arithmetic::over_is::<A>(a, b, r) && b.finite() && (Scalar { bits: 0 }).less(b) ==> {
            &&& a.at_most(Scalar { bits: 0 }) ==> r.at_most(Scalar { bits: 0 })
            &&& (Scalar { bits: 0 }).at_most(a) ==> (Scalar { bits: 0 }).at_most(r)
        }
}

/// A direction points toward the origin: along each axis it has the sign of the
/// way there.
pub proof fn law_direction_has_the_sign_of_the_way<A: Arithmetic>(
    origin: Vec2,
    pos: Vec2,
    unit: Dir2,
)
    requires
        keeps_signs::<A>(),
        origin.x.finite(),
        origin.y.finite(),
        pos.x.finite(),
        pos.y.finite(),
        LocationKnowledge::Origin(origin).direction_from_is::<A>(pos, Some(unit)),
    ensures
        origin.x.at_most(pos.x) ==> unit.x.at_most(Scalar { bits: 0 }),
        pos.x.at_most(origin.x) ==> (Scalar { bits: 0 }).at_most(unit.x),
        origin.y.at_most(pos.y) ==> unit.y.at_most(Scalar { bits: 0 }),
        pos.y.at_most(origin.y) ==> (Scalar { bits: 0 }).at_most(unit.y),
{
    let h = law_direction_leads_to_the_origin::<A>(origin, pos, Some(unit));
}

/// Whether two numbers are the same but for the sign.
pub open spec fn opposite(a: Scalar, b: Scalar) -> bool {
    !a.nan() && !b.nan() && a.rank() == -b.rank()
}

/// Whether the arithmetic treats both signs alike, as IEEE 754 has it.
pub open spec fn mirrors<A: Arithmetic>() -> bool {
    &&& forall|a: Scalar, b: Scalar, r: Scalar, s: Scalar| #[trigger]
        arithmetic::minus_is::<A>(a, b, r) && #[trigger] arithmetic::minus_is::<A>(b, a, s)
            && a.finite() && b.finite() ==> opposite(r, s)
    &&& forall|a: Scalar, b: Scalar, r: Scalar, s: Scalar| #[trigger]
        arithmetic::times_is::<A>(a, a, r) && #[trigger] arithmetic::times_is::<A>(b, b, s)
            && opposite(a, b) ==> r == s
    &&& forall|a: Scalar, b: Scalar, c: Scalar, r: Scalar, s: Scalar| #[trigger]
        arithmetic::over_is::<A>(a, c, r) && #[trigger] arithmetic::over_is::<A>(b, c, s)
            && opposite(a, b) && c.finite() && (Scalar { bits: 0 }).less(c) ==> opposite(r, s)
}

/// Swapping place and origin turns a direction round.
pub proof fn law_swapping_turns_the_direction_round<A: Arithmetic>(
    a: Vec2,
    b: Vec2,
    there: Option<Dir2>,
    back: Option<Dir2>,
)
    requires
        arithmetic::settled::<A>(),
        mirrors::<A>(),
        a.x.finite(),
        a.y.finite(),
        b.x.finite(),
        b.y.finite(),
        LocationKnowledge::Origin(a).direction_from_is::<A>(b, there),
        LocationKnowledge::Origin(b).direction_from_is::<A>(a, back),
    ensures
        there is Some <==> back is Some,
        there is Some ==> opposite(there->0.x, back->0.x) && opposite(there->0.y, back->0.y),
{
    let g = law_direction_leads_to_the_origin::<A>(a, b, there);
    let h = law_direction_leads_to_the_origin::<A>(b, a, back);
    assert(opposite(g.step.x, h.step.x) && opposite(g.step.y, h.step.y));
    assert(g.xx == h.xx && g.yy == h.yy);
    assert(g.square == h.square);
    assert(g.length == h.length);
}

/// Two pieces of knowledge are equal if and only if both are of an origin, or both
/// of a direction, and the coordinates are equal as numbers.
pub proof fn law_knowledge_is_equal_by_coordinates(a: LocationKnowledge, b: LocationKnowledge)
    ensures
        a.equals(b) <==> match (a, b) {
            (LocationKnowledge::Origin(p), LocationKnowledge::Origin(q)) => p.x.equals(q.x)
                && p.y.equals(q.y),
            (LocationKnowledge::Direction(p), LocationKnowledge::Direction(q)) => p.x.equals(q.x)
                && p.y.equals(q.y),
            (LocationKnowledge::Origin(_), LocationKnowledge::Direction(_)) => false,
            (LocationKnowledge::Direction(_), LocationKnowledge::Origin(_)) => false,
        },
{
}

} // verus!
