//! Laws of the ends of a range along an axis.

use crate::arithmetic;
use crate::arithmetic::Arithmetic;
use crate::extent;
use crate::rounding;
use crate::scalar::{Scalar, ZERO_BITS};
use vstd::prelude::*;

verus! {

/// Whether going up, or down, from the first number leads to the second.
pub open spec fn leads_to(from: Scalar, to: Scalar, up: bool) -> bool {
    if up {
        from.at_most(to)
    } else {
        to.at_most(from)
    }
}

/// Where a place is within a range, so is every nearer one on the same side.
pub proof fn law_nearer_is_within<A: Arithmetic>(
    centre: Scalar,
    limit: Scalar,
    near: Scalar,
    far: Scalar,
    up: bool,
)
    requires
        rounding::keeps_order::<A>(),
        centre.finite(),
        near.finite(),
        far.finite(),
        leads_to(centre, near, up),
        leads_to(near, far, up),
        !limit.nan(),
        extent::within_is::<A>(far, centre, limit, true),
    ensures
        !extent::within_is::<A>(near, centre, limit, false),
{
    let (step, square) = choose|step: Scalar, square: Scalar|
        {
            &&& #[trigger] arithmetic::minus_is::<A>(far, centre, step)
            &&& #[trigger] arithmetic::times_is::<A>(step, step, square)
            &&& true == !limit.less(square)
        };
    if extent::within_is::<A>(near, centre, limit, false) {
        let (s, q) = choose|step: Scalar, square: Scalar|
            {
                &&& #[trigger] arithmetic::minus_is::<A>(near, centre, step)
                &&& #[trigger] arithmetic::times_is::<A>(step, step, square)
                &&& false == !limit.less(square)
            };
        assert(s.magnitude() <= step.magnitude());
        assert(q.at_most(square));
    }
}

/// A place that the check lets through is not past the end on its side.
pub proof fn law_within_is_before_the_end<A: Arithmetic>(
    centre: Scalar,
    limit: Scalar,
    up: bool,
    end: Scalar,
    place: Scalar,
)
    requires
        rounding::keeps_order::<A>(),
        centre.finite(),
        place.finite(),
        !limit.nan(),
        extent::end_is::<A>(centre, limit, up, end),
        extent::within_is::<A>(place, centre, limit, true),
    ensures
        leads_to(place, end, up),
{
    let n = extent::rank_at(end.total_rank(), up);
    if !leads_to(place, end, up) {
        assert(n < extent::GREATEST_KEY);
        let next = choose|next: Scalar| #[trigger]
            extent::within_is::<A>(next, centre, limit, false) && next.total_rank()
                == extent::rank_at(n + 1, up);
        law_nearer_is_within::<A>(centre, limit, next, place, up);
    }
}

/// A range reaches its own centre.
pub proof fn law_centre_is_within<A: Arithmetic>(centre: Scalar, range: Scalar, limit: Scalar)
    requires
        rounding::keeps_order::<A>(),
        centre.finite(),
        !range.nan(),
        arithmetic::times_is::<A>(range, range, limit),
    ensures
        !extent::within_is::<A>(centre, centre, limit, false),
{
    if extent::within_is::<A>(centre, centre, limit, false) {
        let (s, q) = choose|step: Scalar, square: Scalar|
            {
                &&& #[trigger] arithmetic::minus_is::<A>(centre, centre, step)
                &&& #[trigger] arithmetic::times_is::<A>(step, step, square)
                &&& false == !limit.less(square)
            };
        assert(centre.at_most(centre));
        assert(s.magnitude() == 0);
        assert(q.at_most(limit));
    }
}

/// The end of a range is neither before the last place that the check lets through
/// nor before where it was measured.
pub proof fn law_outer_end<A: Arithmetic>(
    centre: Scalar,
    range: Scalar,
    limit: Scalar,
    measured: Scalar,
    up: bool,
    end: Scalar,
) -> (last: Scalar)
    requires
        rounding::keeps_order::<A>(),
        centre.finite(),
        !range.nan(),
        arithmetic::times_is::<A>(range, range, limit),
        extent::outer_end_is::<A>(centre, limit, measured, up, end),
    ensures
        extent::end_is::<A>(centre, limit, up, last),
        end == extent::farther(measured, last, up),
        end == measured || end == last,
        leads_to(centre, last, up),
        leads_to(last, end, up),
        !measured.nan() ==> leads_to(measured, end, up),
        !end.nan(),
{
    law_centre_is_within::<A>(centre, range, limit);
    choose|last: Scalar| #[trigger]
        extent::end_is::<A>(centre, limit, up, last) && end == extent::farther(measured, last, up)
}

/// Whatever the check lets through along an axis is between the ends, and so is
/// the centre.
pub proof fn law_within_is_between_the_ends<A: Arithmetic>(
    centre: Scalar,
    range: Scalar,
    limit: Scalar,
    low: Scalar,
    high: Scalar,
    place: Scalar,
)
    requires
        rounding::keeps_order::<A>(),
        centre.finite(),
        place.finite(),
        Scalar::from_bits(ZERO_BITS).at_most(range),
        arithmetic::times_is::<A>(range, range, limit),
        extent::ends_are::<A>(centre, range, limit, low, high),
        extent::within_is::<A>(place, centre, limit, true),
    ensures
        low.at_most(place),
        place.at_most(high),
{
    let (below, above) = choose|below: Scalar, above: Scalar|
        {
            &&& #[trigger] arithmetic::minus_is::<A>(centre, range, below)
            &&& #[trigger] arithmetic::plus_is::<A>(centre, range, above)
            &&& if range.less(Scalar::from_bits(ZERO_BITS)) {
                low == below && high == above
            } else {
                &&& extent::outer_end_is::<A>(centre, limit, below, false, low)
                &&& extent::outer_end_is::<A>(centre, limit, above, true, high)
            }
        };
    let first = law_outer_end::<A>(centre, range, limit, below, false, low);
    let last = law_outer_end::<A>(centre, range, limit, above, true, high);
    law_within_is_before_the_end::<A>(centre, limit, false, first, place);
    law_within_is_before_the_end::<A>(centre, limit, true, last, place);
}

/// The ends of a range stand on either side of its centre.
pub proof fn law_centre_is_between_the_ends<A: Arithmetic>(
    centre: Scalar,
    range: Scalar,
    limit: Scalar,
    low: Scalar,
    high: Scalar,
)
    requires
        rounding::keeps_order::<A>(),
        centre.finite(),
        Scalar::from_bits(ZERO_BITS).at_most(range),
        arithmetic::times_is::<A>(range, range, limit),
        extent::ends_are::<A>(centre, range, limit, low, high),
    ensures
        low.at_most(centre),
        centre.at_most(high),
{
    let (below, above) = choose|below: Scalar, above: Scalar|
        {
            &&& #[trigger] arithmetic::minus_is::<A>(centre, range, below)
            &&& #[trigger] arithmetic::plus_is::<A>(centre, range, above)
            &&& if range.less(Scalar::from_bits(ZERO_BITS)) {
                low == below && high == above
            } else {
                &&& extent::outer_end_is::<A>(centre, limit, below, false, low)
                &&& extent::outer_end_is::<A>(centre, limit, above, true, high)
            }
        };
    let first = law_outer_end::<A>(centre, range, limit, below, false, low);
    let last = law_outer_end::<A>(centre, range, limit, above, true, high);
}

/// Going one way from a centre, a range has one end.
proof fn lemma_end_settled<A: Arithmetic>(
    centre: Scalar,
    limit: Scalar,
    up: bool,
    a: Scalar,
    b: Scalar,
)
    requires
        rounding::keeps_order::<A>(),
        centre.finite(),
        !limit.nan(),
        extent::end_is::<A>(centre, limit, up, a),
        extent::end_is::<A>(centre, limit, up, b),
    ensures
        a == b,
{
    lemma_end_not_past::<A>(centre, limit, up, a, b);
    lemma_end_not_past::<A>(centre, limit, up, b, a);
    a.lemma_total_rank_injective(b);
}

/// An end is not past another one.
proof fn lemma_end_not_past<A: Arithmetic>(
    centre: Scalar,
    limit: Scalar,
    up: bool,
    a: Scalar,
    b: Scalar,
)
    requires
        rounding::keeps_order::<A>(),
        centre.finite(),
        !limit.nan(),
        extent::end_is::<A>(centre, limit, up, a),
        extent::end_is::<A>(centre, limit, up, b),
    ensures
        up ==> b.total_rank() <= a.total_rank(),
        !up ==> a.total_rank() <= b.total_rank(),
{
    let n = extent::rank_at(a.total_rank(), up);
    if extent::rank_at(b.total_rank(), up) > n {
        assert(n < extent::GREATEST_KEY);
        let next = choose|next: Scalar| #[trigger]
            extent::within_is::<A>(next, centre, limit, false) && next.total_rank()
                == extent::rank_at(n + 1, up);
        law_nearer_is_within::<A>(centre, limit, next, b, up);
    }
}

/// Where operations have one result, a range has one pair of ends.
pub proof fn law_ends_settled<A: Arithmetic>(
    centre: Scalar,
    range: Scalar,
    limit: Scalar,
    a: (Scalar, Scalar),
    b: (Scalar, Scalar),
)
    requires
        arithmetic::settled::<A>(),
        rounding::keeps_order::<A>(),
        centre.finite(),
        !range.nan(),
        arithmetic::times_is::<A>(range, range, limit),
        extent::ends_are::<A>(centre, range, limit, a.0, a.1),
        extent::ends_are::<A>(centre, range, limit, b.0, b.1),
    ensures
        a == b,
{
    let zero = Scalar::from_bits(ZERO_BITS);
    let (p, q) = choose|below: Scalar, above: Scalar|
        {
            &&& #[trigger] arithmetic::minus_is::<A>(centre, range, below)
            &&& #[trigger] arithmetic::plus_is::<A>(centre, range, above)
            &&& if range.less(zero) {
                a.0 == below && a.1 == above
            } else {
                &&& extent::outer_end_is::<A>(centre, limit, below, false, a.0)
                &&& extent::outer_end_is::<A>(centre, limit, above, true, a.1)
            }
        };
    let (r, s) = choose|below: Scalar, above: Scalar|
        {
            &&& #[trigger] arithmetic::minus_is::<A>(centre, range, below)
            &&& #[trigger] arithmetic::plus_is::<A>(centre, range, above)
            &&& if range.less(zero) {
                b.0 == below && b.1 == above
            } else {
                &&& extent::outer_end_is::<A>(centre, limit, below, false, b.0)
                &&& extent::outer_end_is::<A>(centre, limit, above, true, b.1)
            }
        };
    assert(p == r && q == s);
    if !range.less(zero) {
        let x = law_outer_end::<A>(centre, range, limit, p, false, a.0);
        let y = law_outer_end::<A>(centre, range, limit, p, false, b.0);
        lemma_end_settled::<A>(centre, limit, false, x, y);
        let z = law_outer_end::<A>(centre, range, limit, q, true, a.1);
        let w = law_outer_end::<A>(centre, range, limit, q, true, b.1);
        lemma_end_settled::<A>(centre, limit, true, z, w);
    }
}

/// The last place within a range is finite and let through: the square of its step
/// from the centre does not come out greater than that of the range. The next number
/// on its side, if it is finite, is not let through. Returns that step and its
/// square, and the next number with its own.
pub proof fn law_end_by_the_numbers<A: Arithmetic>(
    centre: Scalar,
    limit: Scalar,
    up: bool,
    end: Scalar,
) -> (parts: (Scalar, Scalar, Scalar, Scalar, Scalar))
    requires
        extent::end_is::<A>(centre, limit, up, end),
    ensures
        end.finite(),
        up ==> centre.total_rank() <= end.total_rank(),
        !up ==> end.total_rank() <= centre.total_rank(),
        ({
            let (step, square, next, far, more) = parts;
            &&& arithmetic::minus_is::<A>(end, centre, step)
            &&& arithmetic::times_is::<A>(step, step, square)
            &&& !limit.less(square)
            &&& end.bits != (if up {
                0x7f7f_ffff
            } else {
                0xff7f_ffffu32
            }) ==> {
                &&& next.total_rank() == end.total_rank() + if up {
                    1int
                } else {
                    -1int
                }
                &&& arithmetic::minus_is::<A>(next, centre, far)
                &&& arithmetic::times_is::<A>(far, far, more)
                &&& limit.less(more)
            }
        }),
{
    let (step, square) = choose|step: Scalar, square: Scalar|
        {
            &&& #[trigger] arithmetic::minus_is::<A>(end, centre, step)
            &&& #[trigger] arithmetic::times_is::<A>(step, step, square)
            &&& true == !limit.less(square)
        };
    let n = extent::rank_at(end.total_rank(), up);
    let next = choose|next: Scalar| #[trigger]
        extent::within_is::<A>(next, centre, limit, false) && next.total_rank()
            == extent::rank_at(n + 1, up);
    let (far, more) = choose|step: Scalar, square: Scalar|
        {
            &&& #[trigger] arithmetic::minus_is::<A>(next, centre, step)
            &&& #[trigger] arithmetic::times_is::<A>(step, step, square)
            &&& false == !limit.less(square)
        };
    (step, square, next, far, more)
}

/// The ends of a range are where it is measured, the centre less the range and the
/// centre and the range, or else past that, the last place that is let through.
/// Below zero they are where it is measured.
pub proof fn law_ends_by_the_numbers<A: Arithmetic>(
    centre: Scalar,
    range: Scalar,
    limit: Scalar,
    low: Scalar,
    high: Scalar,
) -> (parts: (Scalar, Scalar))
    requires
        rounding::keeps_order::<A>(),
        centre.finite(),
        !range.nan(),
        arithmetic::times_is::<A>(range, range, limit),
        extent::ends_are::<A>(centre, range, limit, low, high),
    ensures
        arithmetic::minus_is::<A>(centre, range, parts.0),
        arithmetic::plus_is::<A>(centre, range, parts.1),
        range.less(Scalar { bits: 0 }) ==> low == parts.0 && high == parts.1,
        !range.less(Scalar { bits: 0 }) ==> {
            &&& low == parts.0 || extent::end_is::<A>(centre, limit, false, low)
            &&& high == parts.1 || extent::end_is::<A>(centre, limit, true, high)
            &&& !parts.0.nan() ==> low.at_most(parts.0)
            &&& !parts.1.nan() ==> parts.1.at_most(high)
        },
{
    let (below, above) = choose|below: Scalar, above: Scalar|
        {
            &&& #[trigger] arithmetic::minus_is::<A>(centre, range, below)
            &&& #[trigger] arithmetic::plus_is::<A>(centre, range, above)
            &&& if range.less(Scalar::from_bits(ZERO_BITS)) {
                low == below && high == above
            } else {
                &&& extent::outer_end_is::<A>(centre, limit, below, false, low)
                &&& extent::outer_end_is::<A>(centre, limit, above, true, high)
            }
        };
    if !range.less(Scalar { bits: 0 }) {
        let first = law_outer_end::<A>(centre, range, limit, below, false, low);
        let last = law_outer_end::<A>(centre, range, limit, above, true, high);
    }
    (below, above)
}

} // verus!
