//! Broadcast propagation of messages into the memories of actors.
//!
//! Every message of a frame is resolved against every actor, so the pairs grow
//! with the product of the two. Three reductions keep that in hand: pairs are
//! rejected on squared distance before any root or logarithm is taken, messages
//! of one frame that belong together are merged, and from a number of pairs on
//! the messages are indexed by the grid cells they reach. Culling and indexing
//! only skip pairs that the per-pair check rejects; merging is the one that
//! changes what is remembered.

use crate::arithmetic;
use crate::arithmetic::Arithmetic;
use crate::config::PerceptionConfig;
use crate::index;
use crate::index::{MessageIndex, Reach};
use crate::memory;
use crate::memory::{LocationKnowledge, Memory, MemoryEntry};
use crate::merge;
use crate::merge::MergeKey;
use crate::message::PerceptionMessage;
use crate::percept::{Entity, Percept};
use crate::scalar::{Scalar, ONE_BITS, ZERO_BITS};
use crate::space::{Cell, Vec2};
use vstd::prelude::*;

verus! {

/// Fewest messages in a frame that make the spatial index worth building.
pub const INDEX_MIN_MESSAGES: usize = 8;

/// Fewest actors that make the spatial index worth building.
pub const INDEX_MIN_PERCEIVERS: usize = 32;

/// Fewest pairs of a message and an actor that make the spatial index worth
/// building.
pub const INDEX_MIN_PAIRS: usize = 4096;

/// Bit pattern of `20.0`, the loss per tenfold distance.
pub const LOSS_PER_DECADE_BITS: u32 = 0x41a0_0000;

/// An actor with its place and its memories.
pub struct Perceiver<P> {
    pub entity: Entity,
    pub position: Vec2,
    pub memory: Memory<P>,
}

/// `loss` is what the attenuation over `distance` may be computed as: none
/// within one unit, then twenty times the logarithm of the distance.
pub open spec fn attenuation_is<A: Arithmetic>(distance: Scalar, loss: Scalar) -> bool {
    if distance.at_most(Scalar::from_bits(ONE_BITS)) {
        loss == Scalar::from_bits(ZERO_BITS)
    } else {
        exists|decades: Scalar| #[trigger]
            arithmetic::log10_is::<A>(distance, decades) && arithmetic::times_is::<A>(
                Scalar::from_bits(LOSS_PER_DECADE_BITS),
                decades,
                loss,
            )
    }
}

/// `left` is what may be left of `base_value` at a squared distance.
pub open spec fn remaining_is<A: Arithmetic>(
    base_value: Scalar,
    distance_sq: Scalar,
    left: Scalar,
) -> bool {
    exists|distance: Scalar, loss: Scalar|
        {
            &&& #[trigger] arithmetic::square_root_is::<A>(distance_sq, distance)
            &&& #[trigger] attenuation_is::<A>(distance, loss)
            &&& arithmetic::minus_is::<A>(base_value, loss, left)
        }
}

/// The intensity that is remembered where `left` arrives: at least zero, and
/// none where that is not above `threshold`.
pub open spec fn remembered(left: Scalar, threshold: Scalar) -> Option<Scalar> {
    let value = left.greater(Scalar::from_bits(ZERO_BITS));
    if value.at_most(threshold) {
        None
    } else {
        Some(value)
    }
}

/// `value` is the intensity at which an actor at `position` may come to
/// remember the message; none where it is out of range or too weak.
pub open spec fn heard_is<A: Arithmetic, P>(
    message: PerceptionMessage<P>,
    position: Vec2,
    threshold: Scalar,
    value: Option<Scalar>,
) -> bool {
    exists|distance_sq: Scalar, range_sq: Scalar|
        {
            &&& #[trigger] position.distance_squared_is::<A>(message.origin, distance_sq)
            &&& #[trigger] arithmetic::times_is::<A>(message.range, message.range, range_sq)
            &&& if range_sq.less(distance_sq) {
                value is None
            } else {
                exists|left: Scalar| #[trigger]
                    remaining_is::<A>(message.base_value, distance_sq, left) && value == remembered(
                        left,
                        threshold,
                    )
            }
        }
}

/// The memory of a message at an intensity.
pub open spec fn memory_of<P>(message: PerceptionMessage<P>, value: Scalar) -> MemoryEntry<P> {
    MemoryEntry {
        percept: message.percept,
        value,
        location: Some(LocationKnowledge::Origin(message.origin)),
        source: message.source,
    }
}

/// `entry` is the memory that an actor may come to have of the message. The
/// source of a message has none.
pub open spec fn outcome_is<A: Arithmetic, P>(
    message: PerceptionMessage<P>,
    entity: Entity,
    position: Vec2,
    threshold: Scalar,
    entry: Option<MemoryEntry<P>>,
) -> bool {
    if message.source == Some(entity) {
        entry is None
    } else {
        match entry {
            Some(entry) => heard_is::<A, P>(message, position, threshold, Some(entry.value))
                && entry == memory_of(message, entry.value),
            None => heard_is::<A, P>(message, position, threshold, None),
        }
    }
}

/// `entries` are the memories that an actor may come to have of the messages
/// at the places `tested`.
pub open spec fn outcomes_are<A: Arithmetic, P>(
    batch: Seq<PerceptionMessage<P>>,
    tested: Seq<u32>,
    entity: Entity,
    position: Vec2,
    threshold: Scalar,
    entries: Seq<Option<MemoryEntry<P>>>,
) -> bool {
    &&& entries.len() == tested.len()
    &&& forall|j: int|
        0 <= j < tested.len() ==> outcome_is::<A, P>(
            batch[tested[j] as int],
            entity,
            position,
            threshold,
            #[trigger] entries[j],
        )
}

/// `before` with the new memories pushed one after the other.
pub open spec fn received<P>(
    before: Seq<MemoryEntry<P>>,
    entries: Seq<Option<MemoryEntry<P>>>,
    max_count: usize,
) -> Seq<MemoryEntry<P>>
    decreases entries.len(),
{
    if entries.len() == 0 {
        before
    } else {
        let rest = received(before, entries.drop_last(), max_count);
        match entries.last() {
            Some(entry) => memory::pushed(rest, entry, max_count),
            None => rest,
        }
    }
}

/// How many of the outcomes are memories.
pub open spec fn gain<P>(entries: Seq<Option<MemoryEntry<P>>>) -> nat
    decreases entries.len(),
{
    if entries.len() == 0 {
        0
    } else {
        gain(entries.drop_last()) + if entries.last() is Some {
            1nat
        } else {
            0nat
        }
    }
}

/// `after` is what the memories of an actor may be after the messages at the
/// places `tested`, of which it came to remember `gained`.
pub open spec fn delivery_is<A: Arithmetic, P>(
    batch: Seq<PerceptionMessage<P>>,
    tested: Seq<u32>,
    entity: Entity,
    position: Vec2,
    config: PerceptionConfig,
    before: Seq<MemoryEntry<P>>,
    after: Seq<MemoryEntry<P>>,
    gained: nat,
) -> bool {
    exists|entries: Seq<Option<MemoryEntry<P>>>|
        {
            &&& #[trigger] outcomes_are::<A, P>(
                batch,
                tested,
                entity,
                position,
                config.min_threshold,
                entries,
            )
            &&& after == received(before, entries, config.max_count)
            &&& gained == gain(entries)
        }
}

/// Attenuation over a distance.
pub fn attenuation<A: Arithmetic>(distance: Scalar) -> (loss: Scalar)
    ensures
        attenuation_is::<A>(distance, loss),
{
    if distance <= Scalar::from_bits(ONE_BITS) {
        Scalar::from_bits(ZERO_BITS)
    } else {
        let decades = A::log10(distance);
        assert(arithmetic::log10_is::<A>(distance, decades));
        A::times(Scalar::from_bits(LOSS_PER_DECADE_BITS), decades)
    }
}

/// The intensity that is remembered where `left` arrives.
pub fn remember(left: Scalar, threshold: Scalar) -> (value: Option<Scalar>)
    ensures
        value == remembered(left, threshold),
{
    let value = left.max(Scalar::from_bits(ZERO_BITS));
    if value <= threshold {
        None
    } else {
        Some(value)
    }
}

/// The intensity at which an actor at `position` comes to remember the
/// message, see [`heard_is`].
pub fn heard<A: Arithmetic, P>(
    message: &PerceptionMessage<P>,
    position: Vec2,
    threshold: Scalar,
) -> (value: Option<Scalar>)
    ensures
        heard_is::<A, P>(*message, position, threshold, value),
{
    let distance_sq = position.distance_squared::<A>(message.origin);
    let range_sq = A::times(message.range, message.range);
    assert(arithmetic::times_is::<A>(message.range, message.range, range_sq));
    if distance_sq > range_sq {
        return None;
    }
    let distance = A::square_root(distance_sq);
    assert(arithmetic::square_root_is::<A>(distance_sq, distance));
    let loss = attenuation::<A>(distance);
    let left = A::minus(message.base_value, loss);
    assert(remaining_is::<A>(message.base_value, distance_sq, left));
    remember(left, threshold)
}

/// Lets one actor perceive the messages at the places `candidates`.
fn deliver<A: Arithmetic, P: Percept>(
    batch: &Vec<PerceptionMessage<P>>,
    candidates: &Vec<u32>,
    entity: Entity,
    position: Vec2,
    memory: &mut Memory<P>,
    config: &PerceptionConfig,
) -> (gained: usize)
    requires
        forall|j: int| 0 <= j < candidates@.len() ==> #[trigger] candidates@[j] < batch@.len(),
    ensures
        delivery_is::<A, P>(
            batch@,
            candidates@,
            entity,
            position,
            *config,
            old(memory)@,
            final(memory)@,
            gained as nat,
        ),
{
    let ghost before = memory@;
    let ghost mut entries: Seq<Option<MemoryEntry<P>>> = Seq::empty();
    let mut gained: usize = 0;
    let mut j: usize = 0;
    while j < candidates.len()
        invariant
            0 <= j <= candidates@.len(),
            gained <= j,
            gained == gain(entries),
            forall|j: int| 0 <= j < candidates@.len() ==> #[trigger] candidates@[j] < batch@.len(),
            outcomes_are::<A, P>(
                batch@,
                candidates@.take(j as int),
                entity,
                position,
                config.min_threshold,
                entries,
            ),
            memory@ == received(before, entries, config.max_count),
        decreases candidates.len() - j,
    {
        let message = &batch[candidates[j] as usize];
        let ghost mut outcome: Option<MemoryEntry<P>> = None;
        let own = match message.source {
            Some(source) => source == entity,
            None => false,
        };
        if !own {
            if let Some(value) = heard::<A, P>(message, position, config.min_threshold) {
                let entry = MemoryEntry {
                    percept: message.percept.duplicate(),
                    value,
                    location: Some(LocationKnowledge::Origin(message.origin)),
                    source: message.source,
                };
                proof {
                    outcome = Some(entry);
                }
                memory.push(entry, config.max_count);
                gained += 1;
            }
        }
        proof {
            assert(outcome_is::<A, P>(
                batch@[candidates@[j as int] as int],
                entity,
                position,
                config.min_threshold,
                outcome,
            ));
            let longer = entries.push(outcome);
            assert(longer.drop_last() =~= entries);
            assert forall|i: int| 0 <= i < j + 1 implies outcome_is::<A, P>(
                batch@[candidates@.take(j + 1)[i] as int],
                entity,
                position,
                config.min_threshold,
                #[trigger] longer[i],
            ) by {
                if i < j {
                    assert(outcome_is::<A, P>(
                        batch@[candidates@.take(j as int)[i] as int],
                        entity,
                        position,
                        config.min_threshold,
                        entries[i],
                    ));
                }
            }
            entries = longer;
        }
        j += 1;
    }
    assert(candidates@.take(j as int) =~= candidates@);
    gained
}

/// Whether a message can reach anyone: its range is not negative, and its
/// intensity at no distance is above the threshold.
pub open spec fn admissible<P>(message: PerceptionMessage<P>, threshold: Scalar) -> bool {
    &&& Scalar::from_bits(ZERO_BITS).at_most(message.range)
    &&& threshold.less(message.base_value.greater(Scalar::from_bits(ZERO_BITS)))
}

/// The messages that can reach anyone, in order.
pub open spec fn admitted<P>(
    messages: Seq<PerceptionMessage<P>>,
    threshold: Scalar,
) -> Seq<PerceptionMessage<P>> {
    messages.filter(|message: PerceptionMessage<P>| admissible(message, threshold))
}

/// Whether that many messages and actors make the spatial index worth building.
pub open spec fn index_worthwhile(messages: nat, perceivers: nat) -> bool {
    &&& messages >= INDEX_MIN_MESSAGES
    &&& perceivers >= INDEX_MIN_PERCEIVERS
    &&& perceivers * messages >= INDEX_MIN_PAIRS
}

/// How the messages that an actor looks at are found.
pub enum Route {
    /// The actor looks at all of them.
    Exhaustive,
    /// The actor looks at those that cover its cell, in a grid of that edge; at
    /// all of them where it has no cell.
    Indexed { edge: Scalar, reaches: Seq<Reach> },
}

/// `route` is how the messages of a batch may be found by that many actors.
pub open spec fn route_is<A: Arithmetic, P>(
    batch: Seq<PerceptionMessage<P>>,
    perceivers: nat,
    route: Route,
) -> bool {
    match route {
        Route::Exhaustive => !index_worthwhile(batch.len(), perceivers) || exists|edge: Scalar|
            #[trigger] edge.total_rank() == index::median_rank(index::ranges_of(batch))
                && !index::edge_usable(edge),
        Route::Indexed { edge, reaches } => {
            &&& index_worthwhile(batch.len(), perceivers)
            &&& edge.total_rank() == index::median_rank(index::ranges_of(batch))
            &&& index::edge_usable(edge)
            &&& index::reaches_are::<A, P>(batch, edge, reaches)
        },
    }
}

/// The places of all messages of a batch.
pub open spec fn all_places(count: nat) -> Seq<u32> {
    Seq::new(count, |i: int| i as u32)
}

/// `tested` are the places of the messages that an actor may look at.
pub open spec fn tested_is<A: Arithmetic>(
    route: Route,
    count: nat,
    position: Vec2,
    tested: Seq<u32>,
) -> bool {
    match route {
        Route::Exhaustive => tested == all_places(count),
        Route::Indexed { edge, reaches } => if position.finite() {
            exists|cell: Cell| #[trigger]
                position.cell_is::<A>(edge, cell) && tested == index::candidates_of(reaches, cell)
        } else {
            tested == all_places(count)
        },
    }
}

/// What the messages of a batch may have made of one actor.
pub open spec fn perceiver_delivered<A: Arithmetic, P>(
    batch: Seq<PerceptionMessage<P>>,
    route: Route,
    config: PerceptionConfig,
    before: Perceiver<P>,
    after: Perceiver<P>,
    gained: nat,
) -> bool {
    &&& after.entity == before.entity
    &&& after.position == before.position
    &&& exists|tested: Seq<u32>| #[trigger]
        tested_is::<A>(route, batch.len(), before.position, tested) && delivery_is::<A, P>(
            batch,
            tested,
            before.entity,
            before.position,
            config,
            before.memory@,
            after.memory@,
            gained,
        )
}

/// What the messages of a batch may have made of the actors.
pub open spec fn delivered<A: Arithmetic, P>(
    batch: Seq<PerceptionMessage<P>>,
    route: Route,
    config: PerceptionConfig,
    before: Seq<Perceiver<P>>,
    after: Seq<Perceiver<P>>,
    gained: Seq<usize>,
) -> bool {
    &&& after.len() == before.len() == gained.len()
    &&& forall|p: int|
        0 <= p < before.len() ==> perceiver_delivered::<A, P>(
            batch,
            route,
            config,
            before[p],
            #[trigger] after[p],
            gained[p] as nat,
        )
}

/// What the messages of a frame may have made of the actors: those that can
/// reach anyone are merged, and each actor perceives what is left of them.
pub open spec fn propagated<A: Arithmetic, P: Percept>(
    messages: Seq<PerceptionMessage<P>>,
    config: PerceptionConfig,
    before: Seq<Perceiver<P>>,
    after: Seq<Perceiver<P>>,
    gained: Seq<usize>,
) -> bool {
    exists|batch: Seq<PerceptionMessage<P>>, route: Route|
        {
            &&& #[trigger] merge::merging_is::<A, P>(
                admitted(messages, config.min_threshold),
                config.merge_radius,
                batch,
            )
            &&& #[trigger] route_is::<A, P>(batch, before.len(), route)
            &&& delivered::<A, P>(batch, route, config, before, after, gained)
        }
}

/// Storage that propagation reuses from frame to frame.
pub struct PropagationScratch<P> {
    /// Messages of the current frame, after merging.
    batch: Vec<PerceptionMessage<P>>,
    /// Keys by which messages are grouped for merging.
    merge_keys: Vec<MergeKey>,
    /// Marks of the messages that were folded into others.
    merged: Vec<bool>,
    /// Message ranges, from which the cell size is picked.
    ranges: Vec<i32>,
    /// Grid of the current batch.
    index: MessageIndex,
    /// Places of the messages that the actor at hand looks at, ascending.
    candidates: Vec<u32>,
}

impl<P> Default for PropagationScratch<P> {
    fn default() -> (scratch: PropagationScratch<P>)
        ensures
            scratch.wf(),
    {
        PropagationScratch {
            batch: Vec::new(),
            merge_keys: Vec::new(),
            merged: Vec::new(),
            ranges: Vec::new(),
            index: MessageIndex::default(),
            candidates: Vec::new(),
        }
    }
}

impl<P> PropagationScratch<P> {
    /// The index in it is sound.
    pub closed spec fn wf(self) -> bool {
        self.index.wf()
    }
}

/// Whether the spatial index is worth building.
pub fn worth_indexing(messages: usize, perceivers: usize) -> (answer: bool)
    ensures
        answer == index_worthwhile(messages as nat, perceivers as nat),
        answer == (messages >= 8 && perceivers >= 32 && perceivers * messages >= 4096),
{
    messages >= INDEX_MIN_MESSAGES && perceivers >= INDEX_MIN_PERCEIVERS && match perceivers.checked_mul(
        messages,
    ) {
        Some(pairs) => pairs >= INDEX_MIN_PAIRS,
        None => true,
    }
}

/// Fills `batch` with copies of the messages that can reach anyone.
fn gather_admissible<P: Percept>(
    messages: &Vec<PerceptionMessage<P>>,
    threshold: Scalar,
    batch: &mut Vec<PerceptionMessage<P>>,
)
    ensures
        final(batch)@ == admitted(messages@, threshold),
        final(batch)@.len() <= messages@.len(),
{
    batch.clear();
    let ghost pick = |message: PerceptionMessage<P>| admissible(message, threshold);
    let mut i: usize = 0;
    assert(batch@ =~= messages@.take(0).filter(pick)) by {
        reveal(Seq::filter);
    }
    while i < messages.len()
        invariant
            0 <= i <= messages@.len(),
            batch@.len() <= i,
            pick == (|message: PerceptionMessage<P>| admissible(message, threshold)),
            batch@ == messages@.take(i as int).filter(pick),
        decreases messages.len() - i,
    {
        let message = &messages[i];
        proof {
            reveal(Seq::filter);
            assert(messages@.take(i + 1).drop_last() =~= messages@.take(i as int));
        }
        if message.range >= Scalar::from_bits(ZERO_BITS) && message.base_value.max(
            Scalar::from_bits(ZERO_BITS),
        ) > threshold {
            batch.push(message.duplicate());
        }
        i += 1;
    }
    assert(messages@.take(i as int) =~= messages@);
}

/// Propagates messages to all actors within range.
///
/// Intensity is attenuated by `20 * log10(distance)` and never below zero. The
/// source of a message does not perceive it. Messages that share a percept, a
/// source, a range and an origin cell are merged into one memory at the
/// strongest of their base intensities.
///
/// Returns, for each actor, how many memories it gained.
pub fn propagate_perception<A: Arithmetic, P: Percept>(
    messages: &Vec<PerceptionMessage<P>>,
    perceivers: &mut Vec<Perceiver<P>>,
    config: &PerceptionConfig,
    scratch: &mut PropagationScratch<P>,
) -> (gained: Vec<usize>)
    requires
        messages@.len() <= u32::MAX,
        old(scratch).wf(),
    ensures
        final(scratch).wf(),
        propagated::<A, P>(messages@, *config, old(perceivers)@, final(perceivers)@, gained@),
{
    let ghost before = perceivers@;
    gather_admissible(messages, config.min_threshold, &mut scratch.batch);
    merge::merge_batch::<A, P>(
        &mut scratch.batch,
        &mut scratch.merge_keys,
        &mut scratch.merged,
        config.merge_radius,
    );
    let ghost batch = scratch.batch@;
    let count: usize = scratch.batch.len();
    let indexed = worth_indexing(count, perceivers.len()) && scratch.index.build::<A, P>(
        &scratch.batch,
        &mut scratch.ranges,
    );
    let ghost mut route: Route = Route::Exhaustive;
    if indexed {
        proof {
            let edge = scratch.index.edge();
            let reaches = choose|reaches: Seq<Reach>| #[trigger]
                index::reaches_are::<A, P>(batch, edge, reaches) && scratch.index.holds(reaches);
            route = Route::Indexed { edge, reaches };
        }
    } else {
        list_all(count, &mut scratch.candidates);
    }
    assert(route_is::<A, P>(batch, before.len(), route));
    let mut gained: Vec<usize> = Vec::new();
    let mut p: usize = 0;
    while p < perceivers.len()
        invariant
            0 <= p <= perceivers@.len() == before.len(),
            gained@.len() == p,
            count == batch.len() <= u32::MAX,
            scratch.batch@ == batch,
            scratch.index.wf(),
            match route {
                Route::Exhaustive => !indexed && scratch.candidates@ == all_places(batch.len()),
                Route::Indexed { edge, reaches } => {
                    &&& indexed
                    &&& scratch.index.edge() == edge
                    &&& scratch.index.holds(reaches)
                    &&& reaches.len() == batch.len()
                },
            },
            forall|q: int|
                0 <= q < p ==> perceiver_delivered::<A, P>(
                    batch,
                    route,
                    *config,
                    before[q],
                    #[trigger] perceivers@[q],
                    gained@[q] as nat,
                ),
            forall|q: int| p <= q < before.len() ==> #[trigger] perceivers@[q] == before[q],
        decreases perceivers.len() - p,
    {
        let entity = perceivers[p].entity;
        let position = perceivers[p].position;
        if indexed {
            if position.is_finite() {
                scratch.index.candidates_at::<A>(position, &mut scratch.candidates);
            } else {
                list_all(count, &mut scratch.candidates);
            }
        }
        let ghost tested = scratch.candidates@;
        proof {
            match route {
                Route::Exhaustive => {},
                Route::Indexed { edge, reaches } => {
                    if position.finite() {
                        let cell = choose|cell: Cell| #[trigger]
                            position.cell_is::<A>(edge, cell) && tested == index::interleaved(
                                scratch.index.bucket(index::cell_key_of(cell)),
                                scratch.index.wide_messages(),
                            );
                        index::lemma_candidates(reaches, cell);
                        assert(tested == index::candidates_of(reaches, cell));
                    }
                },
            }
            assert(tested_is::<A>(route, batch.len(), position, tested));
        }
        let count = deliver::<A, P>(
            &scratch.batch,
            &scratch.candidates,
            entity,
            position,
            &mut perceivers[p].memory,
            config,
        );
        gained.push(count);
        proof {
            assert(perceiver_delivered::<A, P>(
                batch,
                route,
                *config,
                before[p as int],
                perceivers@[p as int],
                count as nat,
            ));
        }
        p += 1;
    }
    gained
}

/// Fills `candidates` with the places of all messages.
fn list_all(count: usize, candidates: &mut Vec<u32>)
    requires
        count <= u32::MAX,
    ensures
        final(candidates)@ == all_places(count as nat),
{
    candidates.clear();
    let mut i: usize = 0;
    while i < count
        invariant
            0 <= i <= count <= u32::MAX,
            candidates@ =~= all_places(i as nat),
        decreases count - i,
    {
        candidates.push(i as u32);
        i += 1;
    }
}

} // verus!
