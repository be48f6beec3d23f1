//! What an actor remembers of a broadcast, told by the numbers alone.

use crate::arithmetic;
use crate::arithmetic::Arithmetic;
use crate::message::PerceptionMessage;
use crate::propagation;
use crate::scalar::Scalar;
use crate::space::Vec2;
use vstd::prelude::*;

verus! {

/// The numbers by which a message is heard, in the order in which they come out.
pub struct Hearing {
    /// The step from the origin to the actor.
    pub dx: Scalar,
    pub dy: Scalar,
    /// The squares of that.
    pub xx: Scalar,
    pub yy: Scalar,
    /// The squared distance and the squared range.
    pub distance_sq: Scalar,
    pub range_sq: Scalar,
    /// The distance, and its logarithm.
    pub distance: Scalar,
    pub decades: Scalar,
    /// What is lost over the distance, and what is left.
    pub loss: Scalar,
    pub left: Scalar,
}

/// Over up to one unit nothing is lost. Over every greater distance twenty times
/// its logarithm is, whatever the distance.
pub proof fn law_loss_is_twenty_per_decade<A: Arithmetic>(distance: Scalar, loss: Scalar) -> (decades:
    Scalar)
    requires
        propagation::attenuation_is::<A>(distance, loss),
    ensures
        distance.at_most(Scalar { bits: 0x3f80_0000 }) ==> loss.bits == 0,
        !distance.at_most(Scalar { bits: 0x3f80_0000 }) ==> arithmetic::log10_is::<A>(
            distance,
            decades,
        ) && arithmetic::times_is::<A>(Scalar { bits: 0x41a0_0000 }, decades, loss),
{
    choose|decades: Scalar| #[trigger]
        arithmetic::log10_is::<A>(distance, decades) && arithmetic::times_is::<A>(
            Scalar { bits: 0x41a0_0000 },
            decades,
            loss,
        )
}

/// What is remembered where something is left: that, or zero where that is below
/// zero or no number; and nothing where it is not above the threshold.
pub proof fn law_remembered_is_what_is_left(left: Scalar, threshold: Scalar)
    ensures
        ({
            let value = if left.nan() || left.less(Scalar { bits: 0 }) {
                Scalar { bits: 0 }
            } else {
                left
            };
            propagation::remembered(left, threshold) == if value.at_most(threshold) {
                None
            } else {
                Some(value)
            }
        }),
{
}

/// A message is heard by the squares of distance and range. Out of range it is
/// not. Within, its intensity is less by the loss over the distance, and it is
/// remembered at that or at zero, where it is then above the threshold.
pub proof fn law_heard_by_the_numbers<A: Arithmetic, P>(
    message: PerceptionMessage<P>,
    position: Vec2,
    threshold: Scalar,
    value: Option<Scalar>,
) -> (h: Hearing)
    requires
        propagation::heard_is::<A, P>(message, position, threshold, value),
    ensures
        arithmetic::minus_is::<A>(position.x, message.origin.x, h.dx),
        arithmetic::minus_is::<A>(position.y, message.origin.y, h.dy),
        arithmetic::times_is::<A>(h.dx, h.dx, h.xx),
        arithmetic::times_is::<A>(h.dy, h.dy, h.yy),
        arithmetic::plus_is::<A>(h.xx, h.yy, h.distance_sq),
        arithmetic::times_is::<A>(message.range, message.range, h.range_sq),
        h.range_sq.less(h.distance_sq) ==> value is None,
        !h.range_sq.less(h.distance_sq) ==> {
            &&& arithmetic::square_root_is::<A>(h.distance_sq, h.distance)
            &&& if h.distance.at_most(Scalar { bits: 0x3f80_0000 }) {
                h.loss.bits == 0
            } else {
                &&& arithmetic::log10_is::<A>(h.distance, h.decades)
                &&& arithmetic::times_is::<A>(Scalar { bits: 0x41a0_0000 }, h.decades, h.loss)
            }
            &&& arithmetic::minus_is::<A>(message.base_value, h.loss, h.left)
            &&& if h.left.nan() || h.left.less(Scalar { bits: 0 }) {
                value == if (Scalar { bits: 0 }).at_most(threshold) {
                    None
                } else {
                    Some(Scalar { bits: 0 })
                }
            } else {
                value == if h.left.at_most(threshold) {
                    None
                } else {
                    Some(h.left)
                }
            }
        },
{
    let (distance_sq, range_sq) = choose|distance_sq: Scalar, range_sq: Scalar|
        {
            &&& #[trigger] position.distance_squared_is::<A>(message.origin, distance_sq)
            &&& #[trigger] arithmetic::times_is::<A>(message.range, message.range, range_sq)
            &&& if range_sq.less(distance_sq) {
                value is None
            } else {
                exists|left: Scalar| #[trigger]
                    propagation::remaining_is::<A>(message.base_value, distance_sq, left) && value
                        == propagation::remembered(left, threshold)
            }
        };
    let (step, xx, yy) = law_distance_by_the_numbers::<A>(position, message.origin, distance_sq);
    let left = choose|left: Scalar| #[trigger]
        propagation::remaining_is::<A>(message.base_value, distance_sq, left) && value
            == propagation::remembered(left, threshold);
    let (distance, loss) = choose|distance: Scalar, loss: Scalar|
        {
            &&& #[trigger] arithmetic::square_root_is::<A>(distance_sq, distance)
            &&& #[trigger] propagation::attenuation_is::<A>(distance, loss)
            &&& arithmetic::minus_is::<A>(message.base_value, loss, left)
        };
    let decades = if range_sq.less(distance_sq) {
        loss
    } else {
        law_loss_is_twenty_per_decade::<A>(distance, loss)
    };
    law_remembered_is_what_is_left(left, threshold);
    Hearing {
        dx: step.x,
        dy: step.y,
        xx,
        yy,
        distance_sq,
        range_sq,
        distance,
        decades,
        loss,
        left,
    }
}

/// A squared distance is the sum of the squares of the steps along both axes.
pub proof fn law_distance_by_the_numbers<A: Arithmetic>(a: Vec2, b: Vec2, square: Scalar) -> (parts: (
    Vec2,
    Scalar,
    Scalar,
))
    requires
        a.distance_squared_is::<A>(b, square),
    ensures
        arithmetic::minus_is::<A>(a.x, b.x, parts.0.x),
        arithmetic::minus_is::<A>(a.y, b.y, parts.0.y),
        arithmetic::times_is::<A>(parts.0.x, parts.0.x, parts.1),
        arithmetic::times_is::<A>(parts.0.y, parts.0.y, parts.2),
        arithmetic::plus_is::<A>(parts.1, parts.2, square),
{
    let step = choose|step: Vec2| #[trigger]
        a.step_is::<A>(b, step) && step.length_squared_is::<A>(square);
    let (xx, yy) = choose|xx: Scalar, yy: Scalar|
        {
            &&& #[trigger] arithmetic::times_is::<A>(step.x, step.x, xx)
            &&& #[trigger] arithmetic::times_is::<A>(step.y, step.y, yy)
            &&& arithmetic::plus_is::<A>(xx, yy, square)
        };
    (step, xx, yy)
}

/// Whether logarithms grow with the number, and twenty times a number with that:
/// strictly, as they do where nothing is rounded.
pub open spec fn losses_grow<A: Arithmetic>() -> bool {
    &&& forall|a: Scalar, b: Scalar, r: Scalar, s: Scalar| #[trigger]
        arithmetic::log10_is::<A>(a, r) && #[trigger] arithmetic::log10_is::<A>(b, s) && a.less(b)
            && (Scalar { bits: 0x3f80_0000 }).less(a) ==> r.less(s)
    &&& forall|a: Scalar, b: Scalar, r: Scalar, s: Scalar| #[trigger]
        arithmetic::times_is::<A>(Scalar { bits: 0x41a0_0000 }, a, r)
            && #[trigger] arithmetic::times_is::<A>(Scalar { bits: 0x41a0_0000 }, b, s) && a.less(b)
            ==> r.less(s)
}

/// Whether roots, logarithms and twenty times a number keep the order of numbers,
/// and so does what is subtracted, the other way round, as in IEEE 754 and with a
/// logarithm that does not fall.
pub open spec fn losses_keep_order<A: Arithmetic>() -> bool {
    &&& forall|a: Scalar, b: Scalar, r: Scalar, s: Scalar| #[trigger]
        arithmetic::square_root_is::<A>(a, r) && #[trigger] arithmetic::square_root_is::<A>(b, s)
            && (Scalar { bits: 0 }).at_most(a) && a.at_most(b) ==> r.at_most(s)
    &&& forall|a: Scalar, b: Scalar, r: Scalar, s: Scalar| #[trigger]
        arithmetic::log10_is::<A>(a, r) && #[trigger] arithmetic::log10_is::<A>(b, s) && a.at_most(
            b,
        ) && (Scalar { bits: 0x3f80_0000 }).less(a) ==> (Scalar { bits: 0 }).at_most(r)
            && r.at_most(s)
    &&& forall|a: Scalar, b: Scalar, r: Scalar, s: Scalar| #[trigger]
        arithmetic::times_is::<A>(Scalar { bits: 0x41a0_0000 }, a, r)
            && #[trigger] arithmetic::times_is::<A>(Scalar { bits: 0x41a0_0000 }, b, s)
            && (Scalar { bits: 0 }).at_most(a) && a.at_most(b) ==> (Scalar { bits: 0 }).at_most(r)
            && r.at_most(s)
    &&& forall|a: Scalar, b: Scalar, c: Scalar, r: Scalar, s: Scalar| #[trigger]
        arithmetic::minus_is::<A>(c, a, r) && #[trigger] arithmetic::minus_is::<A>(c, b, s)
            && a.at_most(b) && c.finite() ==> s.at_most(r)
}

/// Of two distances above one unit, the greater loses more.
pub proof fn law_farther_loses_more<A: Arithmetic>(
    near: Scalar,
    far: Scalar,
    less: Scalar,
    more: Scalar,
)
    requires
        losses_grow::<A>(),
        (Scalar { bits: 0x3f80_0000 }).less(near),
        near.less(far),
        propagation::attenuation_is::<A>(near, less),
        propagation::attenuation_is::<A>(far, more),
    ensures
        less.less(more),
{
    let a = law_loss_is_twenty_per_decade::<A>(near, less);
    let b = law_loss_is_twenty_per_decade::<A>(far, more);
    assert(a.less(b));
}

/// Of two actors in range and more than one unit away, the farther one loses more
/// of a message.
pub proof fn law_farther_actor_loses_more<A: Arithmetic, P>(
    message: PerceptionMessage<P>,
    threshold: Scalar,
    near: Vec2,
    far: Vec2,
    louder: Option<Scalar>,
    softer: Option<Scalar>,
) -> (parts: (Hearing, Hearing))
    requires
        losses_grow::<A>(),
        propagation::heard_is::<A, P>(message, near, threshold, louder),
        propagation::heard_is::<A, P>(message, far, threshold, softer),
    ensures
        near.distance_squared_is::<A>(message.origin, parts.0.distance_sq),
        far.distance_squared_is::<A>(message.origin, parts.1.distance_sq),
        arithmetic::times_is::<A>(message.range, message.range, parts.0.range_sq),
        arithmetic::times_is::<A>(message.range, message.range, parts.1.range_sq),
        ({
            let (a, b) = parts;
            &&& !a.range_sq.less(a.distance_sq)
            &&& !b.range_sq.less(b.distance_sq)
        }) ==> {
            let (a, b) = parts;
            &&& arithmetic::square_root_is::<A>(a.distance_sq, a.distance)
            &&& arithmetic::square_root_is::<A>(b.distance_sq, b.distance)
            &&& arithmetic::minus_is::<A>(message.base_value, a.loss, a.left)
            &&& arithmetic::minus_is::<A>(message.base_value, b.loss, b.left)
            &&& (Scalar { bits: 0x3f80_0000 }).less(a.distance) && a.distance.less(b.distance)
                ==> a.loss.less(b.loss)
        },
{
    let a = law_heard_by_the_numbers::<A, P>(message, near, threshold, louder);
    let b = law_heard_by_the_numbers::<A, P>(message, far, threshold, softer);
    let (p, q) = (Vec2 { x: a.dx, y: a.dy }, Vec2 { x: b.dx, y: b.dy });
    assert(near.step_is::<A>(message.origin, p) && p.length_squared_is::<A>(a.distance_sq));
    assert(far.step_is::<A>(message.origin, q) && q.length_squared_is::<A>(b.distance_sq));
    if (Scalar { bits: 0x3f80_0000 }).less(a.distance) && a.distance.less(b.distance)
        && !a.range_sq.less(a.distance_sq) && !b.range_sq.less(b.distance_sq) {
        assert(a.decades.less(b.decades));
    }
    (a, b)
}

/// An actor that is no farther away than another remembers a message at least as
/// strongly: where the other remembers it, so does the nearer, and at no less.
pub proof fn law_nearer_hears_no_less<A: Arithmetic, P>(
    message: PerceptionMessage<P>,
    threshold: Scalar,
    near: Vec2,
    far: Vec2,
    near_sq: Scalar,
    far_sq: Scalar,
    louder: Option<Scalar>,
    softer: Scalar,
)
    requires
        arithmetic::settled::<A>(),
        losses_keep_order::<A>(),
        message.base_value.finite(),
        near.distance_squared_is::<A>(message.origin, near_sq),
        far.distance_squared_is::<A>(message.origin, far_sq),
        (Scalar { bits: 0 }).at_most(near_sq),
        near_sq.at_most(far_sq),
        propagation::heard_is::<A, P>(message, near, threshold, louder),
        propagation::heard_is::<A, P>(message, far, threshold, Some(softer)),
    ensures
        louder is Some,
        softer.at_most(louder->0),
{
    let a = law_heard_by_the_numbers::<A, P>(message, near, threshold, louder);
    let b = law_heard_by_the_numbers::<A, P>(message, far, threshold, Some(softer));
    let p = law_distance_by_the_numbers::<A>(near, message.origin, near_sq);
    let q = law_distance_by_the_numbers::<A>(far, message.origin, far_sq);
    assert(a.dx == p.0.x && a.dy == p.0.y && b.dx == q.0.x && b.dy == q.0.y);
    assert(a.xx == p.1 && a.yy == p.2 && b.xx == q.1 && b.yy == q.2);
    assert(a.distance_sq == near_sq && b.distance_sq == far_sq);
    assert(a.range_sq == b.range_sq);
    assert(!a.range_sq.less(a.distance_sq));
    assert(a.distance.at_most(b.distance));
    assert(a.loss.at_most(b.loss)) by {
        if !b.distance.at_most(Scalar { bits: 0x3f80_0000 }) {
            assert(arithmetic::times_is::<A>(Scalar { bits: 0x41a0_0000 }, b.decades, b.loss));
            assert(b.distance.at_most(b.distance));
            assert(b.decades.at_most(b.decades));
        }
    }
    assert(b.left.at_most(a.left));
}

} // verus!
