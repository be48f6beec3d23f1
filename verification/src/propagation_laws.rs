//! Laws of propagation.

use crate::arithmetic;
use crate::arithmetic::Arithmetic;
use crate::config::PerceptionConfig;
use crate::exact;
use crate::index;
use crate::index::Reach;
use crate::memory;
use crate::memory::{LocationKnowledge, MemoryEntry};
use crate::memory_laws;
use crate::merge;
use crate::merge_laws;
use crate::message::PerceptionMessage;
use crate::percept::{Entity, Percept};
use crate::propagation;
use crate::propagation::{Perceiver, Route};
use crate::scalar::{Scalar, ONE_BITS, ZERO_BITS};
use crate::space::{Cell, Vec2};
use vstd::prelude::*;

verus! {

/// The memories among the outcomes, in order.
pub open spec fn gains<P>(entries: Seq<Option<MemoryEntry<P>>>) -> Seq<MemoryEntry<P>>
    decreases entries.len(),
{
    if entries.len() == 0 {
        Seq::empty()
    } else {
        match entries.last() {
            Some(entry) => gains(entries.drop_last()).push(entry),
            None => gains(entries.drop_last()),
        }
    }
}

/// The newest memories, as many as a limit allows; a limit of zero is none.
pub open spec fn limited<P>(entries: Seq<MemoryEntry<P>>, max_count: usize) -> Seq<MemoryEntry<P>> {
    if max_count > 0 && entries.len() > max_count {
        entries.take(max_count as int)
    } else {
        entries
    }
}

/// Perceived messages become the newest memories, the latest message first, on
/// top of what the actor remembered; what goes beyond the limit goes from the
/// old end.
pub proof fn law_received_newest_first<P>(
    before: Seq<MemoryEntry<P>>,
    entries: Seq<Option<MemoryEntry<P>>>,
    max_count: usize,
)
    requires
        memory_laws::within_capacity(before, max_count),
    ensures
        propagation::received(before, entries, max_count) == limited(
            gains(entries).reverse() + before,
            max_count,
        ),
        propagation::gain(entries) == gains(entries).len(),
    decreases entries.len(),
{
    if entries.len() == 0 {
        assert(gains(entries).reverse() + before =~= before);
    } else {
        let rest = entries.drop_last();
        law_received_newest_first(before, rest, max_count);
        match entries.last() {
            Some(entry) => {
                let older = gains(rest).reverse() + before;
                assert(gains(entries).reverse() =~= seq![entry] + gains(rest).reverse());
                assert(gains(entries).reverse() + before =~= seq![entry] + older);
                assert(memory::pushed(limited(older, max_count), entry, max_count) =~= limited(
                    seq![entry] + older,
                    max_count,
                ));
            },
            None => {},
        }
    }
}

/// Whether `entry` is what an actor may have come to remember of one of the
/// messages: it is not the source, the place is the origin, and the intensity
/// is not negative, above the threshold, and what may be left at the distance.
pub open spec fn perceived<A: Arithmetic, P>(
    batch: Seq<PerceptionMessage<P>>,
    entity: Entity,
    position: Vec2,
    threshold: Scalar,
    entry: MemoryEntry<P>,
) -> bool {
    exists|i: int|
        {
            &&& 0 <= i < batch.len()
            &&& entry.percept == (#[trigger] batch[i]).percept
            &&& entry.source == batch[i].source
            &&& entry.location == Some(LocationKnowledge::Origin(batch[i].origin))
            &&& batch[i].source != Some(entity)
            &&& Scalar::from_bits(ZERO_BITS).at_most(entry.value)
            &&& !entry.value.at_most(threshold)
            &&& propagation::heard_is::<A, P>(batch[i], position, threshold, Some(entry.value))
        }
}

/// Every memory that an actor comes to have of messages is of one that it did
/// not cause, with its origin as the place and at an intensity above the
/// threshold.
pub proof fn law_outcomes_are_perceived<A: Arithmetic, P>(
    batch: Seq<PerceptionMessage<P>>,
    tested: Seq<u32>,
    entity: Entity,
    position: Vec2,
    threshold: Scalar,
    entries: Seq<Option<MemoryEntry<P>>>,
)
    requires
        forall|j: int| 0 <= j < tested.len() ==> #[trigger] tested[j] < batch.len(),
        propagation::outcomes_are::<A, P>(batch, tested, entity, position, threshold, entries),
    ensures
        forall|k: int|
            0 <= k < gains(entries).len() ==> perceived::<A, P>(
                batch,
                entity,
                position,
                threshold,
                #[trigger] gains(entries)[k],
            ),
    decreases entries.len(),
{
    if entries.len() > 0 {
        let last = entries.len() - 1;
        let shorter = tested.drop_last();
        let rest = entries.drop_last();
        assert forall|j: int| 0 <= j < shorter.len() implies #[trigger] shorter[j]
            < batch.len() by {
            assert(tested[j] < batch.len());
        }
        assert forall|j: int| 0 <= j < shorter.len() implies propagation::outcome_is::<A, P>(
            batch[shorter[j] as int],
            entity,
            position,
            threshold,
            #[trigger] rest[j],
        ) by {
            assert(entries[j] == rest[j]);
        }
        law_outcomes_are_perceived::<A, P>(batch, shorter, entity, position, threshold, rest);
        if let Some(entry) = entries.last() {
            assert(tested[last] < batch.len());
            let i = tested[last] as int;
            assert(propagation::outcome_is::<A, P>(
                batch[i],
                entity,
                position,
                threshold,
                entries[last],
            ));
            lemma_heard_value::<A, P>(batch[i], position, threshold, entry.value);
            assert(entry == propagation::memory_of(batch[i], entry.value));
            assert(perceived::<A, P>(batch, entity, position, threshold, entry));
        }
        assert forall|k: int| 0 <= k < gains(entries).len() implies perceived::<A, P>(
            batch,
            entity,
            position,
            threshold,
            #[trigger] gains(entries)[k],
        ) by {
            if k < gains(rest).len() {
                assert(gains(entries)[k] == gains(rest)[k]);
            }
        }
    }
}

proof fn lemma_heard_value<A: Arithmetic, P>(
    message: PerceptionMessage<P>,
    position: Vec2,
    threshold: Scalar,
    value: Scalar,
)
    requires
        propagation::heard_is::<A, P>(message, position, threshold, Some(value)),
    ensures
        Scalar::from_bits(ZERO_BITS).at_most(value),
        !value.at_most(threshold),
{
    assert(exists|left: Scalar| Some(value) == #[trigger] propagation::remembered(left, threshold));
}

/// The messages that a batch was merged from.
pub open spec fn stems_from<P>(
    batch: Seq<PerceptionMessage<P>>,
    messages: Seq<PerceptionMessage<P>>,
) -> bool {
    forall|i: int| 0 <= i < batch.len() ==> #[trigger] stem_of(batch[i], messages)
}

/// Whether a message is one of `messages`, but for its base intensity.
pub open spec fn stem_of<P>(
    message: PerceptionMessage<P>,
    messages: Seq<PerceptionMessage<P>>,
) -> bool {
    exists|k: int|
        0 <= k < messages.len() && message == (#[trigger] messages[k]).at_base(message.base_value)
}

/// Merging makes up no messages: each that is left is one of those that went
/// in, but for its base intensity.
pub proof fn law_merging_makes_up_nothing<A: Arithmetic, P: Percept>(
    before: Seq<PerceptionMessage<P>>,
    merge_radius: Scalar,
    after: Seq<PerceptionMessage<P>>,
)
    requires
        merge::merging_is::<A, P>(before, merge_radius, after),
    ensures
        stems_from(after, before),
        after.len() <= before.len(),
{
    if merge::merging_skipped(before, merge_radius) {
        assert forall|i: int| 0 <= i < after.len() implies #[trigger] stem_of(
            after[i],
            before,
        ) by {
            assert(after[i] == before[i].at_base(after[i].base_value));
        }
    } else {
        let cells = choose|cells: Seq<(u64, u64)>| #[trigger]
            merge::cells_are::<A, P>(before, merge_radius, cells) && after == merge::merged_by(
                before,
                cells,
            );
        let places = merge_laws::law_merging_keeps_order(before, cells);
        assert forall|i: int| 0 <= i < after.len() implies #[trigger] stem_of(
            after[i],
            before,
        ) by {
            assert(after[i] == before[places[i]].at_base(after[i].base_value));
        }
        memory_laws::lemma_places_count(places, before.len());
    }
}

/// Whether the per-pair check may reject every message that the index keeps
/// from an actor in the cell.
pub open spec fn skips_only_rejected<A: Arithmetic, P>(
    batch: Seq<PerceptionMessage<P>>,
    reaches: Seq<Reach>,
    cell: Cell,
    entity: Entity,
    position: Vec2,
    threshold: Scalar,
) -> bool {
    forall|i: int|
        0 <= i < reaches.len() && !(#[trigger] reaches[i]).covers(cell)
            ==> propagation::outcome_is::<A, P>(batch[i], entity, position, threshold, None)
}

/// Outcomes of the messages that the index hands out, with none for those that
/// it keeps back, are outcomes of all messages.
proof fn lemma_spread<A: Arithmetic, P>(
    batch: Seq<PerceptionMessage<P>>,
    reaches: Seq<Reach>,
    cell: Cell,
    entity: Entity,
    position: Vec2,
    config: PerceptionConfig,
    before: Seq<MemoryEntry<P>>,
    entries: Seq<Option<MemoryEntry<P>>>,
) -> (full: Seq<Option<MemoryEntry<P>>>)
    requires
        reaches.len() <= u32::MAX,
        reaches.len() <= batch.len(),
        propagation::outcomes_are::<A, P>(
            batch,
            index::candidates_of(reaches, cell),
            entity,
            position,
            config.min_threshold,
            entries,
        ),
        skips_only_rejected::<A, P>(
            batch,
            reaches,
            cell,
            entity,
            position,
            config.min_threshold,
        ),
    ensures
        propagation::outcomes_are::<A, P>(
            batch,
            propagation::all_places(reaches.len()),
            entity,
            position,
            config.min_threshold,
            full,
        ),
        propagation::received(before, full, config.max_count) == propagation::received(
            before,
            entries,
            config.max_count,
        ),
        propagation::gain(full) == propagation::gain(entries),
    decreases reaches.len(),
{
    if reaches.len() == 0 {
        entries
    } else {
        let last = reaches.len() - 1;
        let shorter = reaches.drop_last();
        let tested = index::candidates_of(reaches, cell);
        let covered = reaches[last].covers(cell);
        let rest = if covered {
            entries.drop_last()
        } else {
            entries
        };
        assert forall|j: int|
            0 <= j < index::candidates_of(shorter, cell).len() implies propagation::outcome_is::<
            A,
            P,
        >(
            batch[index::candidates_of(shorter, cell)[j] as int],
            entity,
            position,
            config.min_threshold,
            #[trigger] rest[j],
        ) by {
            assert(tested[j] == index::candidates_of(shorter, cell)[j]);
            assert(entries[j] == rest[j]);
        }
        assert forall|i: int|
            0 <= i < shorter.len() && !(#[trigger] shorter[i]).covers(
                cell,
            ) implies propagation::outcome_is::<A, P>(
            batch[i],
            entity,
            position,
            config.min_threshold,
            None,
        ) by {
            assert(reaches[i] == shorter[i]);
        }
        let most = lemma_spread::<A, P>(
            batch,
            shorter,
            cell,
            entity,
            position,
            config,
            before,
            rest,
        );
        let outcome = if covered {
            entries.last()
        } else {
            None
        };
        let full = most.push(outcome);
        assert(full.drop_last() =~= most);
        assert(propagation::outcome_is::<A, P>(
            batch[last],
            entity,
            position,
            config.min_threshold,
            outcome,
        )) by {
            if covered {
                assert(tested.last() == last as u32);
                assert(entries[entries.len() - 1] == outcome);
            } else {
                assert(!reaches[last].covers(cell));
            }
        }
        assert forall|j: int| 0 <= j < reaches.len() implies propagation::outcome_is::<A, P>(
            batch[propagation::all_places(reaches.len())[j] as int],
            entity,
            position,
            config.min_threshold,
            #[trigger] full[j],
        ) by {
            if j < last {
                assert(propagation::outcome_is::<A, P>(
                    batch[propagation::all_places(shorter.len())[j] as int],
                    entity,
                    position,
                    config.min_threshold,
                    most[j],
                ));
            }
        }
        full
    }
}

/// Where the index keeps back only messages that the per-pair check may reject,
/// what it delivers to an actor is what an exhaustive loop may deliver: the
/// same memories, in the same order.
pub proof fn law_indexed_delivery_is_exhaustive<A: Arithmetic, P>(
    batch: Seq<PerceptionMessage<P>>,
    reaches: Seq<Reach>,
    cell: Cell,
    entity: Entity,
    position: Vec2,
    config: PerceptionConfig,
    before: Seq<MemoryEntry<P>>,
    after: Seq<MemoryEntry<P>>,
    gained: nat,
)
    requires
        reaches.len() == batch.len() <= u32::MAX,
        skips_only_rejected::<A, P>(batch, reaches, cell, entity, position, config.min_threshold),
        propagation::delivery_is::<A, P>(
            batch,
            index::candidates_of(reaches, cell),
            entity,
            position,
            config,
            before,
            after,
            gained,
        ),
    ensures
        propagation::delivery_is::<A, P>(
            batch,
            propagation::all_places(batch.len()),
            entity,
            position,
            config,
            before,
            after,
            gained,
        ),
{
    let entries = choose|entries: Seq<Option<MemoryEntry<P>>>|
        {
            &&& #[trigger] propagation::outcomes_are::<A, P>(
                batch,
                index::candidates_of(reaches, cell),
                entity,
                position,
                config.min_threshold,
                entries,
            )
            &&& after == propagation::received(before, entries, config.max_count)
            &&& gained == propagation::gain(entries)
        };
    let full = lemma_spread::<A, P>(
        batch,
        reaches,
        cell,
        entity,
        position,
        config,
        before,
        entries,
    );
}

/// What propagation without an index may have made of the actors.
pub open spec fn propagated_exhaustively<A: Arithmetic, P: Percept>(
    messages: Seq<PerceptionMessage<P>>,
    config: PerceptionConfig,
    before: Seq<Perceiver<P>>,
    after: Seq<Perceiver<P>>,
    gained: Seq<usize>,
) -> bool {
    exists|batch: Seq<PerceptionMessage<P>>|
        {
            &&& #[trigger] merge::merging_is::<A, P>(
                propagation::admitted(messages, config.min_threshold),
                config.merge_radius,
                batch,
            )
            &&& propagation::delivered::<A, P>(
                batch,
                Route::Exhaustive,
                config,
                before,
                after,
                gained,
            )
        }
}

/// Whether, for every batch that the messages may be merged into, the index
/// keeps from an actor only messages that the per-pair check may reject. It keeps
/// nothing from an actor whose place is not finite.
pub open spec fn indexing_conservative<A: Arithmetic, P: Percept>(
    messages: Seq<PerceptionMessage<P>>,
    config: PerceptionConfig,
    perceiver: Perceiver<P>,
) -> bool {
    forall|batch: Seq<PerceptionMessage<P>>, edge: Scalar, reaches: Seq<Reach>, cell: Cell|
        {
            &&& #[trigger] merge::merging_is::<A, P>(
                propagation::admitted(messages, config.min_threshold),
                config.merge_radius,
                batch,
            )
            &&& edge.total_rank() == index::median_rank(index::ranges_of(batch))
            &&& index::edge_usable(edge)
            &&& #[trigger] index::reaches_are::<A, P>(batch, edge, reaches)
            &&& #[trigger] perceiver.position.cell_is::<A>(edge, cell)
            &&& perceiver.position.finite()
        } ==> skips_only_rejected::<A, P>(
            batch,
            reaches,
            cell,
            perceiver.entity,
            perceiver.position,
            config.min_threshold,
        )
}

/// The index changes nothing: where it keeps back only messages that the
/// per-pair check may reject, propagation is what an exhaustive loop may make of
/// the same messages.
pub proof fn law_index_changes_nothing<A: Arithmetic, P: Percept>(
    messages: Seq<PerceptionMessage<P>>,
    config: PerceptionConfig,
    before: Seq<Perceiver<P>>,
    after: Seq<Perceiver<P>>,
    gained: Seq<usize>,
)
    requires
        messages.len() <= u32::MAX,
        propagation::propagated::<A, P>(messages, config, before, after, gained),
        forall|p: int|
            0 <= p < before.len() ==> indexing_conservative::<A, P>(
                messages,
                config,
                #[trigger] before[p],
            ),
    ensures
        propagated_exhaustively::<A, P>(messages, config, before, after, gained),
{
    let admitted = propagation::admitted(messages, config.min_threshold);
    let (batch, route) = choose|batch: Seq<PerceptionMessage<P>>, route: Route|
        {
            &&& #[trigger] merge::merging_is::<A, P>(admitted, config.merge_radius, batch)
            &&& #[trigger] propagation::route_is::<A, P>(batch, before.len(), route)
            &&& propagation::delivered::<A, P>(batch, route, config, before, after, gained)
        };
    lemma_admitted(messages, config.min_threshold);
    law_merging_makes_up_nothing::<A, P>(admitted, config.merge_radius, batch);
    assert forall|p: int| 0 <= p < before.len() implies propagation::perceiver_delivered::<A, P>(
        batch,
        Route::Exhaustive,
        config,
        before[p],
        #[trigger] after[p],
        gained[p] as nat,
    ) by {
        assert(propagation::perceiver_delivered::<A, P>(
            batch,
            route,
            config,
            before[p],
            after[p],
            gained[p] as nat,
        ));
        if let Route::Indexed { edge, reaches } = route {
            let (entity, position) = (before[p].entity, before[p].position);
            let tested = choose|tested: Seq<u32>| #[trigger]
                propagation::tested_is::<A>(route, batch.len(), position, tested)
                    && propagation::delivery_is::<A, P>(
                    batch,
                    tested,
                    entity,
                    position,
                    config,
                    before[p].memory@,
                    after[p].memory@,
                    gained[p] as nat,
                );
            if position.finite() {
                let cell = choose|cell: Cell| #[trigger]
                    position.cell_is::<A>(edge, cell) && tested == index::candidates_of(reaches, cell);
                assert(indexing_conservative::<A, P>(messages, config, before[p]));
                assert(skips_only_rejected::<A, P>(
                    batch,
                    reaches,
                    cell,
                    entity,
                    position,
                    config.min_threshold,
                ));
                law_indexed_delivery_is_exhaustive::<A, P>(
                    batch,
                    reaches,
                    cell,
                    entity,
                    position,
                    config,
                    before[p].memory@,
                    after[p].memory@,
                    gained[p] as nat,
                );
            }
            assert(propagation::tested_is::<A>(
                Route::Exhaustive,
                batch.len(),
                position,
                propagation::all_places(batch.len()),
            ));
        }
    }
}

/// The messages that can reach anyone are among those that were sent.
pub proof fn lemma_admitted<P>(messages: Seq<PerceptionMessage<P>>, threshold: Scalar)
    ensures
        propagation::admitted(messages, threshold).len() <= messages.len(),
        forall|i: int|
            0 <= i < propagation::admitted(messages, threshold).len()
                ==> propagation::admissible(
                #[trigger] propagation::admitted(messages, threshold)[i],
                threshold,
            ) && messages.contains(propagation::admitted(messages, threshold)[i]),
    decreases messages.len(),
{
    reveal(Seq::filter);
    if messages.len() > 0 {
        let rest = messages.drop_last();
        lemma_admitted(rest, threshold);
        let all = propagation::admitted(messages, threshold);
        let most = propagation::admitted(rest, threshold);
        assert forall|i: int| 0 <= i < all.len() implies propagation::admissible(
            #[trigger] all[i],
            threshold,
        ) && messages.contains(all[i]) by {
            if i < most.len() {
                assert(all[i] == most[i]);
                let k = choose|k: int| 0 <= k < rest.len() && rest[k] == most[i];
                assert(messages[k] == all[i]);
            } else {
                assert(messages[messages.len() - 1] == all[i]);
            }
        }
    }
}

/// The message that one of a batch stems from.
pub proof fn lemma_stem<P>(
    batch: Seq<PerceptionMessage<P>>,
    admitted: Seq<PerceptionMessage<P>>,
    messages: Seq<PerceptionMessage<P>>,
    threshold: Scalar,
    i: int,
) -> (m: int)
    requires
        0 <= i < batch.len(),
        stems_from(batch, admitted),
        admitted == propagation::admitted(messages, threshold),
    ensures
        0 <= m < messages.len(),
        propagation::admissible(messages[m], threshold),
        messages[m].origin == batch[i].origin,
        messages[m].range == batch[i].range,
{
    lemma_admitted(messages, threshold);
    assert(stem_of(batch[i], admitted));
    let k = choose|k: int|
        0 <= k < admitted.len() && batch[i] == (#[trigger] admitted[k]).at_base(
            batch[i].base_value,
        );
    assert(messages.contains(admitted[k]));
    choose|m: int| 0 <= m < messages.len() && messages[m] == admitted[k]
}

/// A squared distance that the arithmetic may return.
pub proof fn lemma_distance_answered<A: Arithmetic>(position: Vec2, origin: Vec2) -> (square: Scalar)
    requires
        exact::answers::<A>(),
    ensures
        position.distance_squared_is::<A>(origin, square),
{
    assert(exact::minus_answers::<A>(position.x, origin.x));
    assert(exact::minus_answers::<A>(position.y, origin.y));
    let x = choose|r: Scalar| arithmetic::minus_is::<A>(position.x, origin.x, r);
    let y = choose|r: Scalar| arithmetic::minus_is::<A>(position.y, origin.y, r);
    let step = Vec2 { x, y };
    assert(exact::times_answers::<A>(x, x));
    assert(exact::times_answers::<A>(y, y));
    let xx = choose|r: Scalar| arithmetic::times_is::<A>(x, x, r);
    let yy = choose|r: Scalar| arithmetic::times_is::<A>(y, y, r);
    assert(exact::plus_answers::<A>(xx, yy));
    let square = choose|r: Scalar| arithmetic::plus_is::<A>(xx, yy, r);
    assert(position.step_is::<A>(origin, step));
    assert(step.length_squared_is::<A>(square));
    square
}

/// Whether `after` is `before` with the newest memories `new` on top, within
/// the limit.
pub open spec fn gained_on_top<P>(
    before: Seq<MemoryEntry<P>>,
    new: Seq<MemoryEntry<P>>,
    after: Seq<MemoryEntry<P>>,
    max_count: usize,
) -> bool {
    after == limited(new.reverse() + before, max_count)
}

/// What an actor remembers after propagation is what it remembered, with a
/// memory on top for each message that it came to perceive, the latest first:
/// of a message among those sent, not caused by the actor, with the origin as
/// the place, at an intensity above the threshold and not negative.
pub proof fn law_propagated_memories<A: Arithmetic, P: Percept>(
    messages: Seq<PerceptionMessage<P>>,
    config: PerceptionConfig,
    before: Seq<Perceiver<P>>,
    after: Seq<Perceiver<P>>,
    gained: Seq<usize>,
    p: int,
) -> (new: Seq<MemoryEntry<P>>)
    requires
        messages.len() <= u32::MAX,
        propagation::propagated::<A, P>(messages, config, before, after, gained),
        0 <= p < before.len(),
        memory_laws::within_capacity(before[p].memory@, config.max_count),
    ensures
        after[p].entity == before[p].entity,
        after[p].position == before[p].position,
        new.len() == gained[p],
        gained_on_top(before[p].memory@, new, after[p].memory@, config.max_count),
        forall|k: int|
            0 <= k < new.len() ==> memory_of_sent(
                messages,
                before[p].entity,
                config.min_threshold,
                #[trigger] new[k],
            ),
{
    let admitted = propagation::admitted(messages, config.min_threshold);
    let (entity, position) = (before[p].entity, before[p].position);
    let (batch, route) = choose|batch: Seq<PerceptionMessage<P>>, route: Route|
        {
            &&& #[trigger] merge::merging_is::<A, P>(admitted, config.merge_radius, batch)
            &&& #[trigger] propagation::route_is::<A, P>(batch, before.len(), route)
            &&& propagation::delivered::<A, P>(batch, route, config, before, after, gained)
        };
    lemma_admitted(messages, config.min_threshold);
    law_merging_makes_up_nothing::<A, P>(admitted, config.merge_radius, batch);
    assert(propagation::perceiver_delivered::<A, P>(
        batch,
        route,
        config,
        before[p],
        after[p],
        gained[p] as nat,
    ));
    let tested = choose|tested: Seq<u32>| #[trigger]
        propagation::tested_is::<A>(route, batch.len(), position, tested)
            && propagation::delivery_is::<A, P>(
            batch,
            tested,
            entity,
            position,
            config,
            before[p].memory@,
            after[p].memory@,
            gained[p] as nat,
        );
    let entries = choose|entries: Seq<Option<MemoryEntry<P>>>|
        {
            &&& #[trigger] propagation::outcomes_are::<A, P>(
                batch,
                tested,
                entity,
                position,
                config.min_threshold,
                entries,
            )
            &&& after[p].memory@ == propagation::received(
                before[p].memory@,
                entries,
                config.max_count,
            )
            &&& gained[p] == propagation::gain(entries)
        };
    assert forall|j: int| 0 <= j < tested.len() implies #[trigger] tested[j] < batch.len() by {
        if let Route::Indexed { edge, reaches } = route {
            if position.finite() {
                let cell = choose|cell: Cell| #[trigger]
                    position.cell_is::<A>(edge, cell) && tested == index::candidates_of(
                        reaches,
                        cell,
                    );
                index::lemma_candidates(reaches, cell);
            }
        }
    }
    law_received_newest_first(before[p].memory@, entries, config.max_count);
    law_outcomes_are_perceived::<A, P>(
        batch,
        tested,
        entity,
        position,
        config.min_threshold,
        entries,
    );
    let new = gains(entries);
    assert forall|k: int| 0 <= k < new.len() implies memory_of_sent(
        messages,
        entity,
        config.min_threshold,
        #[trigger] new[k],
    ) by {
        assert(perceived::<A, P>(batch, entity, position, config.min_threshold, new[k]));
        let i = choose|i: int|
            {
                &&& 0 <= i < batch.len()
                &&& new[k].percept == (#[trigger] batch[i]).percept
                &&& new[k].source == batch[i].source
                &&& new[k].location == Some(LocationKnowledge::Origin(batch[i].origin))
                &&& batch[i].source != Some(entity)
                &&& Scalar::from_bits(ZERO_BITS).at_most(new[k].value)
                &&& !new[k].value.at_most(config.min_threshold)
                &&& propagation::heard_is::<A, P>(
                    batch[i],
                    position,
                    config.min_threshold,
                    Some(new[k].value),
                )
            };
        assert(stem_of(batch[i], admitted));
        let s = choose|s: int|
            0 <= s < admitted.len() && batch[i] == (#[trigger] admitted[s]).at_base(
                batch[i].base_value,
            );
        assert(propagation::admissible(admitted[s], config.min_threshold));
        assert(messages.contains(admitted[s]));
        let m = choose|m: int| 0 <= m < messages.len() && messages[m] == admitted[s];
        assert(new[k].percept == messages[m].percept);
    }
    new
}

/// Whether `entry` is a memory of one of the messages, by an actor that did not
/// cause it.
pub open spec fn memory_of_sent<P>(
    messages: Seq<PerceptionMessage<P>>,
    entity: Entity,
    threshold: Scalar,
    entry: MemoryEntry<P>,
) -> bool {
    &&& entry.source != Some(entity)
    &&& Scalar::from_bits(ZERO_BITS).at_most(entry.value)
    &&& threshold.less(entry.value)
    &&& exists|m: int|
        {
            &&& 0 <= m < messages.len()
            &&& entry.percept == (#[trigger] messages[m]).percept
            &&& entry.source == messages[m].source
            &&& entry.location == Some(LocationKnowledge::Origin(messages[m].origin))
        }
}

/// Propagation keeps memories within their limit.
pub proof fn law_propagation_keeps_capacity<A: Arithmetic, P: Percept>(
    messages: Seq<PerceptionMessage<P>>,
    config: PerceptionConfig,
    before: Seq<Perceiver<P>>,
    after: Seq<Perceiver<P>>,
    gained: Seq<usize>,
    p: int,
)
    requires
        messages.len() <= u32::MAX,
        propagation::propagated::<A, P>(messages, config, before, after, gained),
        0 <= p < before.len(),
        memory_laws::within_capacity(before[p].memory@, config.max_count),
    ensures
        memory_laws::within_capacity(after[p].memory@, config.max_count),
{
    let new = law_propagated_memories::<A, P>(messages, config, before, after, gained, p);
}

/// An actor gains nothing of its own messages: where it caused all of them, it
/// remembers what it remembered.
pub proof fn law_own_messages_change_nothing<A: Arithmetic, P: Percept>(
    messages: Seq<PerceptionMessage<P>>,
    config: PerceptionConfig,
    before: Seq<Perceiver<P>>,
    after: Seq<Perceiver<P>>,
    gained: Seq<usize>,
    p: int,
)
    requires
        messages.len() <= u32::MAX,
        propagation::propagated::<A, P>(messages, config, before, after, gained),
        0 <= p < before.len(),
        memory_laws::within_capacity(before[p].memory@, config.max_count),
        forall|m: int|
            0 <= m < messages.len() ==> (#[trigger] messages[m]).source == Some(before[p].entity),
    ensures
        after[p].memory@ == before[p].memory@,
        gained[p] == 0,
{
    let new = law_propagated_memories::<A, P>(messages, config, before, after, gained, p);
    if new.len() > 0 {
        assert(memory_of_sent(messages, before[p].entity, config.min_threshold, new[0]));
    }
    assert(new.reverse() + before[p].memory@ =~= before[p].memory@);
}

/// Without messages, no actor's memories change.
pub proof fn law_silence_changes_nothing<A: Arithmetic, P: Percept>(
    config: PerceptionConfig,
    before: Seq<Perceiver<P>>,
    after: Seq<Perceiver<P>>,
    gained: Seq<usize>,
)
    requires
        propagation::propagated::<A, P>(Seq::empty(), config, before, after, gained),
    ensures
        after.len() == before.len() == gained.len(),
        forall|p: int|
            0 <= p < before.len() ==> (#[trigger] after[p]).memory@ == before[p].memory@
                && gained[p] == 0,
{
    let none = Seq::<PerceptionMessage<P>>::empty();
    let admitted = propagation::admitted(none, config.min_threshold);
    lemma_admitted(none, config.min_threshold);
    let (batch, route) = choose|batch: Seq<PerceptionMessage<P>>, route: Route|
        {
            &&& #[trigger] merge::merging_is::<A, P>(admitted, config.merge_radius, batch)
            &&& #[trigger] propagation::route_is::<A, P>(batch, before.len(), route)
            &&& propagation::delivered::<A, P>(batch, route, config, before, after, gained)
        };
    assert(batch.len() == 0);
    assert forall|p: int| 0 <= p < before.len() implies (#[trigger] after[p]).memory@
        == before[p].memory@ && gained[p] == 0 by {
        assert(propagation::perceiver_delivered::<A, P>(
            batch,
            route,
            config,
            before[p],
            after[p],
            gained[p] as nat,
        ));
        let tested = choose|tested: Seq<u32>| #[trigger]
            propagation::tested_is::<A>(route, batch.len(), before[p].position, tested)
                && propagation::delivery_is::<A, P>(
                batch,
                tested,
                before[p].entity,
                before[p].position,
                config,
                before[p].memory@,
                after[p].memory@,
                gained[p] as nat,
            );
        assert(tested.len() == 0);
    }
}

/// Whether the arithmetic keeps to the signs of what it works on when an
/// intensity is attenuated, as IEEE 754 and a logarithm have it.
pub open spec fn attenuates<A: Arithmetic>() -> bool {
    let zero = Scalar::from_bits(ZERO_BITS);
    let loss = Scalar::from_bits(propagation::LOSS_PER_DECADE_BITS);
    &&& forall|a: Scalar, b: Scalar, r: Scalar| #[trigger]
        arithmetic::minus_is::<A>(a, b, r) ==> if a.nan() || b.nan() {
            r.nan()
        } else {
            zero.at_most(b) ==> !a.less(r)
        }
    &&& forall|a: Scalar, r: Scalar| #[trigger]
        arithmetic::log10_is::<A>(a, r) && !a.at_most(Scalar::from_bits(ONE_BITS)) ==> r.nan()
            || zero.at_most(r)
    &&& forall|a: Scalar, r: Scalar| #[trigger]
        arithmetic::times_is::<A>(loss, a, r) ==> if a.nan() {
            r.nan()
        } else {
            zero.at_most(a) ==> zero.at_most(r)
        }
}

/// A message whose base intensity is not above the threshold at no distance is
/// remembered at none: leaving it out beforehand loses nothing.
pub proof fn law_too_weak_is_never_remembered<A: Arithmetic, P>(
    message: PerceptionMessage<P>,
    position: Vec2,
    threshold: Scalar,
    value: Option<Scalar>,
)
    requires
        attenuates::<A>(),
        !threshold.nan(),
        !threshold.less(message.base_value.greater(Scalar::from_bits(ZERO_BITS))),
        propagation::heard_is::<A, P>(message, position, threshold, value),
    ensures
        value is None,
{
    let zero = Scalar::from_bits(ZERO_BITS);
    let (distance_sq, range_sq) = choose|distance_sq: Scalar, range_sq: Scalar|
        {
            &&& #[trigger] position.distance_squared_is::<A>(message.origin, distance_sq)
            &&& #[trigger] arithmetic::times_is::<A>(message.range, message.range, range_sq)
            &&& if range_sq.less(distance_sq) {
                value is None
            } else {
                exists|left: Scalar| #[trigger]
                    propagation::remaining_is::<A>(message.base_value, distance_sq, left) && value
                        == propagation::remembered(left, threshold)
            }
        };
    if !range_sq.less(distance_sq) {
        let left = choose|left: Scalar| #[trigger]
            propagation::remaining_is::<A>(message.base_value, distance_sq, left) && value
                == propagation::remembered(left, threshold);
        let (distance, loss) = choose|distance: Scalar, loss: Scalar|
            {
                &&& #[trigger] arithmetic::square_root_is::<A>(distance_sq, distance)
                &&& #[trigger] propagation::attenuation_is::<A>(distance, loss)
                &&& arithmetic::minus_is::<A>(message.base_value, loss, left)
            };
        assert(loss.nan() || zero.at_most(loss));
        assert(left.nan() || !message.base_value.less(left));
    }
}

/// No distance makes a message stronger: it is remembered at most at its base
/// intensity, or at zero where that is less.
pub proof fn law_distance_never_strengthens<A: Arithmetic, P>(
    message: PerceptionMessage<P>,
    position: Vec2,
    threshold: Scalar,
    value: Scalar,
)
    requires
        attenuates::<A>(),
        propagation::heard_is::<A, P>(message, position, threshold, Some(value)),
    ensures
        value.at_most(message.base_value.greater(Scalar::from_bits(ZERO_BITS))),
{
    let zero = Scalar::from_bits(ZERO_BITS);
    let (distance_sq, range_sq) = choose|distance_sq: Scalar, range_sq: Scalar|
        {
            &&& #[trigger] position.distance_squared_is::<A>(message.origin, distance_sq)
            &&& #[trigger] arithmetic::times_is::<A>(message.range, message.range, range_sq)
            &&& if range_sq.less(distance_sq) {
                Some(value) is None
            } else {
                exists|left: Scalar| #[trigger]
                    propagation::remaining_is::<A>(message.base_value, distance_sq, left) && Some(
                        value,
                    ) == propagation::remembered(left, threshold)
            }
        };
    let left = choose|left: Scalar| #[trigger]
        propagation::remaining_is::<A>(message.base_value, distance_sq, left) && Some(value)
            == propagation::remembered(left, threshold);
    let (distance, loss) = choose|distance: Scalar, loss: Scalar|
        {
            &&& #[trigger] arithmetic::square_root_is::<A>(distance_sq, distance)
            &&& #[trigger] propagation::attenuation_is::<A>(distance, loss)
            &&& arithmetic::minus_is::<A>(message.base_value, loss, left)
        };
    assert(loss.nan() || zero.at_most(loss));
    assert(left.nan() || !message.base_value.less(left));
}

} // verus!
