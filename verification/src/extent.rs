//! How far along an axis the per-pair check lets a range through.
//!
//! The check compares squared distances, and every step of it rounds, so that it
//! lets through some places that are a little out of range. The last of these on
//! either side is looked for among the numbers themselves: a range is made longer
//! to there, and by nothing where nothing is rounded away.

use crate::arithmetic;
use crate::arithmetic::Arithmetic;
use crate::scalar::{Scalar, ZERO_BITS};
use vstd::prelude::*;

verus! {

/// The place of the greatest finite number in the total order.
pub const GREATEST_KEY: i32 = 0x7f7f_ffff;

/// Whether `answer` may be what is answered when it is asked, along one axis,
/// whether a place is within a range: that its squared distance from the centre
/// is not greater than `limit`, the squared range.
pub open spec fn within_is<A: Arithmetic>(
    place: Scalar,
    centre: Scalar,
    limit: Scalar,
    answer: bool,
) -> bool {
    exists|step: Scalar, square: Scalar|
        {
            &&& #[trigger] arithmetic::minus_is::<A>(place, centre, step)
            &&& #[trigger] arithmetic::times_is::<A>(step, step, square)
            &&& answer == !limit.less(square)
        }
}

/// The place in the total order of the number that is `n` up from zero, or as
/// far down; and the other way round.
pub open spec fn rank_at(n: int, up: bool) -> int {
    if up {
        n
    } else {
        -1 - n
    }
}

/// `end` may be the last place within a range, going up or down from its centre:
/// the check lets it through, and not the next number, if there is one.
pub open spec fn end_is<A: Arithmetic>(
    centre: Scalar,
    limit: Scalar,
    up: bool,
    end: Scalar,
) -> bool {
    let n = rank_at(end.total_rank(), up);
    &&& end.finite()
    &&& rank_at(centre.total_rank(), up) <= n
    &&& within_is::<A>(end, centre, limit, true)
    &&& n == GREATEST_KEY || rejected_at::<A>(centre, limit, rank_at(n + 1, up))
}

/// Whether the check may reject the number at a place of the total order.
pub open spec fn rejected_at<A: Arithmetic>(centre: Scalar, limit: Scalar, rank: int) -> bool {
    exists|place: Scalar| #[trigger]
        within_is::<A>(place, centre, limit, false) && place.total_rank() == rank
}

/// Whether a place is within a range along one axis.
fn within<A: Arithmetic>(place: Scalar, centre: Scalar, limit: Scalar) -> (answer: bool)
    ensures
        within_is::<A>(place, centre, limit, answer),
{
    let step = A::minus(place, centre);
    let square = A::times(step, step);
    proof {
        assert(arithmetic::minus_is::<A>(place, centre, step));
        assert(arithmetic::times_is::<A>(step, step, square));
    }
    !(square > limit)
}

/// The number that is `n` up from zero, or as far down.
fn place_at(n: i32, up: bool) -> (place: Scalar)
    ensures
        place.total_rank() == rank_at(n as int, up),
        -1 - GREATEST_KEY <= n <= GREATEST_KEY ==> place.finite(),
{
    if up {
        Scalar::from_total_key(n)
    } else {
        Scalar::from_total_key(-1 - n)
    }
}

/// How far up from zero, or down, a number is.
fn steps_to(place: Scalar, up: bool) -> (n: i32)
    ensures
        place.total_rank() == rank_at(n as int, up),
        n == rank_at(place.total_rank(), up),
        place.finite() ==> -1 - GREATEST_KEY <= n <= GREATEST_KEY,
{
    if up {
        place.total_key()
    } else {
        -1 - place.total_key()
    }
}

/// The last place within a range, going up or down from its centre, see
/// [`end_is`]. None where the centre itself is not within the range.
///
/// Starts at `guess` and looks ever farther about it until the end is between
/// two places, and then halves what lies between.
pub fn find_end<A: Arithmetic>(centre: Scalar, limit: Scalar, guess: Scalar, up: bool) -> (end:
    Option<Scalar>)
    requires
        centre.finite(),
    ensures
        match end {
            Some(end) => end_is::<A>(centre, limit, up, end),
            None => within_is::<A>(centre, centre, limit, false),
        },
{
    if !within::<A>(centre, centre, limit) {
        return None;
    }
    let farthest = place_at(GREATEST_KEY, up);
    if within::<A>(farthest, centre, limit) {
        return Some(farthest);
    }
    let start: i32 = steps_to(centre, up);
    let mut end = centre;
    let mut last: i64 = start as i64;
    let mut past: i64 = GREATEST_KEY as i64;
    assert(rejected_at::<A>(centre, limit, rank_at(past as int, up)));
    let mut probe: i64 = steps_to(guess, up) as i64;
    let mut stride: i64 = 1;
    while last + 1 < past
        invariant
            -1 - GREATEST_KEY <= start <= last <= past <= GREATEST_KEY,
            start == rank_at(centre.total_rank(), up),
            last < past || past == GREATEST_KEY,
            end.finite(),
            end.total_rank() == rank_at(last as int, up),
            within_is::<A>(end, centre, limit, true),
            rejected_at::<A>(centre, limit, rank_at(past as int, up)),
            1 <= stride <= 0x2_0000_0000,
        decreases past - last,
    {
        if probe <= last || past <= probe {
            probe = last + (past - last) / 2;
        }
        let place = place_at(probe as i32, up);
        if within::<A>(place, centre, limit) {
            end = place;
            last = probe;
            probe = last + stride;
        } else {
            assert(rejected_at::<A>(centre, limit, rank_at(probe as int, up)));
            past = probe;
            probe = past - stride;
        }
        if stride < past - last {
            stride = 2 * stride;
        }
    }
    Some(end)
}

/// The farther of two places, going up or down; the second where the first is no
/// number.
pub open spec fn farther(a: Scalar, b: Scalar, up: bool) -> Scalar {
    if a.nan() || (up && a.less(b)) || (!up && b.less(a)) {
        b
    } else {
        a
    }
}

/// `end` may be what the end of a range that was measured as `measured` comes to:
/// that, or the last place that the check lets through where that is farther.
pub open spec fn outer_end_is<A: Arithmetic>(
    centre: Scalar,
    limit: Scalar,
    measured: Scalar,
    up: bool,
    end: Scalar,
) -> bool {
    ||| within_is::<A>(centre, centre, limit, false) && end == measured
    ||| exists|last: Scalar| #[trigger]
        end_is::<A>(centre, limit, up, last) && end == farther(measured, last, up)
}

/// `low` and `high` may be the ends of a range along one axis, `limit` being its
/// square. A range below zero is taken as it is measured, with its ends crossed.
pub open spec fn ends_are<A: Arithmetic>(
    centre: Scalar,
    range: Scalar,
    limit: Scalar,
    low: Scalar,
    high: Scalar,
) -> bool {
    exists|below: Scalar, above: Scalar|
        {
            &&& #[trigger] arithmetic::minus_is::<A>(centre, range, below)
            &&& #[trigger] arithmetic::plus_is::<A>(centre, range, above)
            &&& if range.less(Scalar::from_bits(ZERO_BITS)) {
                low == below && high == above
            } else {
                &&& outer_end_is::<A>(centre, limit, below, false, low)
                &&& outer_end_is::<A>(centre, limit, above, true, high)
            }
        }
}

/// The end of a range along one axis, see [`outer_end_is`].
fn outer_end<A: Arithmetic>(centre: Scalar, limit: Scalar, measured: Scalar, up: bool) -> (end:
    Scalar)
    requires
        centre.finite(),
    ensures
        outer_end_is::<A>(centre, limit, measured, up, end),
{
    match find_end::<A>(centre, limit, measured, up) {
        Some(last) => {
            if measured.is_nan() || (up && measured < last) || (!up && last < measured) {
                last
            } else {
                measured
            }
        },
        None => measured,
    }
}

/// The ends of a range along one axis, see [`ends_are`].
pub fn ends<A: Arithmetic>(centre: Scalar, range: Scalar, limit: Scalar) -> (ends: (Scalar, Scalar))
    requires
        centre.finite(),
    ensures
        ends_are::<A>(centre, range, limit, ends.0, ends.1),
{
    let below = A::minus(centre, range);
    let above = A::plus(centre, range);
    proof {
        assert(arithmetic::minus_is::<A>(centre, range, below));
        assert(arithmetic::plus_is::<A>(centre, range, above));
    }
    if range < Scalar::from_bits(ZERO_BITS) {
        (below, above)
    } else {
        (
            outer_end::<A>(centre, limit, below, false),
            outer_end::<A>(centre, limit, above, true),
        )
    }
}

} // verus!
