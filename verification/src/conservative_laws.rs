//! The spatial index keeps back only what the per-pair check rejects.
//!
//! Both measure a range, and both round. A message is listed from the first to the
//! last place that the check lets through, and rounding keeps the order of places,
//! so whatever the check lets through is listed in the cell that is looked up.

use crate::arithmetic;
use crate::arithmetic::Arithmetic;
use crate::config::PerceptionConfig;
use crate::exact;
use crate::extent;
use crate::extent_laws;
use crate::index;
use crate::index::{MessageIndex, Reach};
use crate::index_laws;
use crate::merge;
use crate::message::PerceptionMessage;
use crate::percept::Percept;
use crate::propagation;
use crate::propagation::Perceiver;
use crate::propagation_laws;
use crate::rounding;
use crate::scalar::{Scalar, ZERO_BITS};
use crate::space;
use crate::space::{Cell, Vec2};
use vstd::prelude::*;

verus! {

/// A pair that the check lets through is within the range along either axis,
/// also where the range is squared anew.
pub proof fn lemma_axes_within<A: Arithmetic>(
    origin: Vec2,
    range: Scalar,
    position: Vec2,
    distance_sq: Scalar,
    range_sq: Scalar,
    limit: Scalar,
)
    requires
        rounding::keeps_order::<A>(),
        origin.finite(),
        position.finite(),
        !range.nan(),
        position.distance_squared_is::<A>(origin, distance_sq),
        arithmetic::times_is::<A>(range, range, range_sq),
        arithmetic::times_is::<A>(range, range, limit),
        !range_sq.less(distance_sq),
    ensures
        extent::within_is::<A>(position.x, origin.x, limit, true),
        extent::within_is::<A>(position.y, origin.y, limit, true),
{
    let step = choose|step: Vec2| #[trigger]
        position.step_is::<A>(origin, step) && step.length_squared_is::<A>(distance_sq);
    let (xx, yy) = choose|xx: Scalar, yy: Scalar|
        {
            &&& #[trigger] arithmetic::times_is::<A>(step.x, step.x, xx)
            &&& #[trigger] arithmetic::times_is::<A>(step.y, step.y, yy)
            &&& arithmetic::plus_is::<A>(xx, yy, distance_sq)
        };
    assert(limit.at_most(range_sq) && range_sq.at_most(limit));
    assert(!step.x.nan()) by {
        assert(position.x.at_most(origin.x) || origin.x.at_most(position.x));
    }
    assert(!step.y.nan()) by {
        assert(position.y.at_most(origin.y) || origin.y.at_most(position.y));
    }
    assert(xx.at_most(distance_sq) && yy.at_most(distance_sq));
}

/// A place within a range falls on a line that the range is listed with.
proof fn lemma_axis_covered<A: Arithmetic>(
    centre: Scalar,
    range: Scalar,
    limit: Scalar,
    edge: Scalar,
    first: Scalar,
    last: Scalar,
    min: i32,
    max: i32,
    place: Scalar,
    whole: i32,
)
    requires
        rounding::keeps_order::<A>(),
        index::edge_usable(edge),
        centre.finite(),
        place.finite(),
        Scalar::from_bits(ZERO_BITS).at_most(range),
        arithmetic::times_is::<A>(range, range, limit),
        index::lines_are::<A>(centre, range, limit, edge, first, last),
        arithmetic::to_int_is::<A>(first, min),
        arithmetic::to_int_is::<A>(last, max),
        extent::within_is::<A>(place, centre, limit, true),
        space::whole_quotient_is::<A>(place, edge, whole),
    ensures
        min <= whole <= max,
{
    let (low, high) = choose|low: Scalar, high: Scalar| #[trigger]
        extent::ends_are::<A>(centre, range, limit, low, high) && space::line_is::<A>(
            low,
            edge,
            first,
        ) && space::line_is::<A>(high, edge, last);
    extent_laws::law_within_is_between_the_ends::<A>(centre, range, limit, low, high, place);
    let line = choose|line: Scalar| #[trigger]
        space::line_is::<A>(place, edge, line) && arithmetic::to_int_is::<A>(line, whole);
    lemma_lines_in_order::<A>(low, place, edge, first, line);
    lemma_lines_in_order::<A>(place, high, edge, line, last);
}

/// A greater number falls on no lesser line.
pub proof fn lemma_lines_in_order<A: Arithmetic>(
    a: Scalar,
    b: Scalar,
    edge: Scalar,
    first: Scalar,
    last: Scalar,
)
    requires
        rounding::keeps_order::<A>(),
        index::edge_usable(edge),
        a.at_most(b),
        space::line_is::<A>(a, edge, first),
        space::line_is::<A>(b, edge, last),
    ensures
        first.at_most(last),
{
    let q = choose|quotient: Scalar| #[trigger]
        arithmetic::over_is::<A>(a, edge, quotient) && arithmetic::floor_is::<A>(quotient, first);
    let r = choose|quotient: Scalar| #[trigger]
        arithmetic::over_is::<A>(b, edge, quotient) && arithmetic::floor_is::<A>(quotient, last);
    assert(q.at_most(r));
}

/// What the per-pair check lets through, the index hands out: an actor that may
/// come to remember a message is in a cell that the message covers.
pub proof fn law_heard_is_covered<A: Arithmetic, P>(
    message: PerceptionMessage<P>,
    edge: Scalar,
    reach: Reach,
    position: Vec2,
    cell: Cell,
    threshold: Scalar,
    value: Scalar,
)
    requires
        rounding::keeps_order::<A>(),
        position.finite(),
        Scalar::from_bits(ZERO_BITS).at_most(message.range),
        index::edge_usable(edge),
        index::reach_is::<A>(message.origin, message.range, edge, reach),
        position.cell_is::<A>(edge, cell),
        propagation::heard_is::<A, P>(message, position, threshold, Some(value)),
    ensures
        reach.covers(cell),
{
    let (distance_sq, range_sq) = choose|distance_sq: Scalar, range_sq: Scalar|
        {
            &&& #[trigger] position.distance_squared_is::<A>(message.origin, distance_sq)
            &&& #[trigger] arithmetic::times_is::<A>(message.range, message.range, range_sq)
            &&& if range_sq.less(distance_sq) {
                Some(value) is None
            } else {
                exists|left: Scalar| #[trigger]
                    propagation::remaining_is::<A>(message.base_value, distance_sq, left) && Some(
                        value,
                    ) == propagation::remembered(left, threshold)
            }
        };
    law_let_through_is_covered::<A>(
        message.origin,
        message.range,
        edge,
        reach,
        position,
        cell,
        distance_sq,
        range_sq,
    );
}

/// A pair whose squared distance does not come out greater than the squared
/// range is one that the index hands out.
pub proof fn law_let_through_is_covered<A: Arithmetic>(
    origin: Vec2,
    range: Scalar,
    edge: Scalar,
    reach: Reach,
    position: Vec2,
    cell: Cell,
    distance_sq: Scalar,
    range_sq: Scalar,
)
    requires
        rounding::keeps_order::<A>(),
        position.finite(),
        Scalar::from_bits(ZERO_BITS).at_most(range),
        index::edge_usable(edge),
        index::reach_is::<A>(origin, range, edge, reach),
        position.cell_is::<A>(edge, cell),
        position.distance_squared_is::<A>(origin, distance_sq),
        arithmetic::times_is::<A>(range, range, range_sq),
        !range_sq.less(distance_sq),
    ensures
        reach.covers(cell),
{
    let limit = choose|limit: Scalar| #[trigger]
        arithmetic::times_is::<A>(range, range, limit) && index::listed_as::<A>(
            origin,
            range,
            limit,
            edge,
            reach,
        );
    if index::listable(origin, range, limit) {
        let (first, last) = choose|first: Vec2, last: Vec2| #[trigger]
            index::corners_are::<A>(origin, range, limit, edge, first, last)
                && index::reach_between_is::<A>(first, last, reach);
        lemma_axes_within::<A>(origin, range, position, distance_sq, range_sq, limit);
        if let Reach::Span { min, max } = reach {
            lemma_axis_covered::<A>(
                origin.x,
                range,
                limit,
                edge,
                first.x,
                last.x,
                min.x,
                max.x,
                position.x,
                cell.x,
            );
            lemma_axis_covered::<A>(
                origin.y,
                range,
                limit,
                edge,
                first.y,
                last.y,
                min.y,
                max.y,
                position.y,
                cell.y,
            );
        }
    }
}

/// No message that reaches a place is left out of what the index hands out there:
/// not one whose squared distance comes out as at most the squared range.
pub proof fn law_no_reaching_message_left_out<A: Arithmetic, P>(
    batch: Seq<PerceptionMessage<P>>,
    messages: MessageIndex,
    position: Vec2,
    candidates: Seq<u32>,
    i: int,
    distance_sq: Scalar,
    range_sq: Scalar,
)
    requires
        rounding::keeps_order::<A>(),
        batch.len() <= u32::MAX,
        messages.indexes::<A, P>(batch),
        messages.hands_out::<A>(position, candidates),
        position.finite(),
        0 <= i < batch.len(),
        Scalar::from_bits(ZERO_BITS).at_most(batch[i].range),
        position.distance_squared_is::<A>(batch[i].origin, distance_sq),
        arithmetic::times_is::<A>(batch[i].range, batch[i].range, range_sq),
        !range_sq.less(distance_sq),
    ensures
        candidates.contains(i as u32),
{
    let edge = messages.edge();
    let reaches = choose|reaches: Seq<Reach>| #[trigger]
        index::reaches_are::<A, P>(batch, edge, reaches) && messages.holds(reaches);
    let cell = choose|cell: Cell| #[trigger]
        position.cell_is::<A>(edge, cell) && candidates == index::interleaved(
            messages.bucket(index::cell_key_of(cell)),
            messages.wide_messages(),
        );
    index::lemma_candidates(reaches, cell);
    index_laws::law_candidates_cover_in_order(reaches, cell);
    law_let_through_is_covered::<A>(
        batch[i].origin,
        batch[i].range,
        edge,
        reaches[i],
        position,
        cell,
        distance_sq,
        range_sq,
    );
}

/// Indexing is conservative: it only keeps from an actor messages that the
/// per-pair check rejects.
pub proof fn law_indexing_is_conservative<A: Arithmetic, P: Percept>(
    messages: Seq<PerceptionMessage<P>>,
    config: PerceptionConfig,
    perceiver: Perceiver<P>,
)
    requires
        exact::answers::<A>(),
        rounding::keeps_order::<A>(),
    ensures
        propagation_laws::indexing_conservative::<A, P>(messages, config, perceiver),
{
    let admitted = propagation::admitted(messages, config.min_threshold);
    let position = perceiver.position;
    let threshold = config.min_threshold;
    assert forall|
        batch: Seq<PerceptionMessage<P>>,
        edge: Scalar,
        reaches: Seq<Reach>,
        cell: Cell,
    |
        {
            &&& #[trigger] merge::merging_is::<A, P>(admitted, config.merge_radius, batch)
            &&& edge.total_rank() == index::median_rank(index::ranges_of(batch))
            &&& index::edge_usable(edge)
            &&& #[trigger] index::reaches_are::<A, P>(batch, edge, reaches)
            &&& #[trigger] position.cell_is::<A>(edge, cell)
            &&& position.finite()
        } implies propagation_laws::skips_only_rejected::<A, P>(
        batch,
        reaches,
        cell,
        perceiver.entity,
        position,
        threshold,
    ) by {
        propagation_laws::law_merging_makes_up_nothing::<A, P>(
            admitted,
            config.merge_radius,
            batch,
        );
        assert forall|i: int|
            0 <= i < reaches.len() && !(#[trigger] reaches[i]).covers(
                cell,
            ) implies propagation::outcome_is::<A, P>(
            batch[i],
            perceiver.entity,
            position,
            threshold,
            None,
        ) by {
            let m = propagation_laws::lemma_stem(batch, admitted, messages, threshold, i);
            let (origin, range) = (batch[i].origin, batch[i].range);
            let distance_sq = propagation_laws::lemma_distance_answered::<A>(position, origin);
            assert(exact::times_answers::<A>(range, range));
            let range_sq = choose|r: Scalar| arithmetic::times_is::<A>(range, range, r);
            if !range_sq.less(distance_sq) {
                law_let_through_is_covered::<A>(
                    origin,
                    range,
                    edge,
                    reaches[i],
                    position,
                    cell,
                    distance_sq,
                    range_sq,
                );
            }
            assert(propagation::heard_is::<A, P>(batch[i], position, threshold, None));
        }
    }
}

/// Propagation is what an exhaustive loop makes of the messages: the same
/// memories, in the same order.
pub proof fn law_propagation_is_exhaustive<A: Arithmetic, P: Percept>(
    messages: Seq<PerceptionMessage<P>>,
    config: PerceptionConfig,
    before: Seq<Perceiver<P>>,
    after: Seq<Perceiver<P>>,
    gained: Seq<usize>,
)
    requires
        messages.len() <= u32::MAX,
        exact::answers::<A>(),
        rounding::keeps_order::<A>(),
        propagation::propagated::<A, P>(messages, config, before, after, gained),
    ensures
        propagation_laws::propagated_exhaustively::<A, P>(
            messages,
            config,
            before,
            after,
            gained,
        ),
{
    assert forall|p: int|
        0 <= p < before.len() implies propagation_laws::indexing_conservative::<A, P>(
        messages,
        config,
        #[trigger] before[p],
    ) by {
        law_indexing_is_conservative::<A, P>(messages, config, before[p]);
    }
    propagation_laws::law_index_changes_nothing::<A, P>(messages, config, before, after, gained);
}

} // verus!
