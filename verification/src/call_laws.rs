//! What the functions of the library return and change, call by call.
//!
//! Each law speaks of one call: of what was handed to a function, what came back,
//! and what became of what it may change.

use crate::arithmetic;
use crate::arithmetic::Arithmetic;
use crate::config::PerceptionConfig;
use crate::digest;
use crate::digest::MemoryDigest;
use crate::digest_map::{DigestMap, PerceptDigest};
use crate::extent;
use crate::index;
use crate::index::{MessageIndex, Reach};
use crate::memory;
use crate::memory::{LocationKnowledge, Memory, MemoryEntry};
use crate::merge;
use crate::merge::MergeKey;
use crate::message::{PerceptionEvent, PerceptionMessage};
use crate::percept::Percept;
use crate::propagation;
use crate::propagation::{Perceiver, PropagationScratch};
use crate::scalar::Scalar;
use crate::space;
use crate::space::{Cell, Dir2, Vec2};
use crate::systems;
use core::hash::Hash;
use vstd::prelude::*;
use vstd::std_specs::iter::IteratorSpec;

verus! {

/// The place of a source is told if and only if its origin is known.
pub proof fn law_origin_of(knowledge: LocationKnowledge, position: Option<Vec2>)
    requires
        call_ensures(LocationKnowledge::origin, (&knowledge,), position),
    ensures
        position == match knowledge {
            LocationKnowledge::Origin(origin) => Some(origin),
            LocationKnowledge::Direction(_) => None,
        },
{
}

/// A call of `direction_from` answers for the knowledge and place it is handed.
pub proof fn law_direction_from<A: Arithmetic>(
    knowledge: LocationKnowledge,
    pos: Vec2,
    direction: Option<Dir2>,
)
    requires
        call_ensures(LocationKnowledge::direction_from::<A>, (&knowledge, pos), direction),
    ensures
        knowledge.direction_from_is::<A>(pos, direction),
{
}

/// A memory that is pushed is the newest; the others move back by a place, and the
/// oldest goes only where there are as many as there may be.
pub proof fn law_push<P>(kept: &mut Memory<P>, entry: MemoryEntry<P>, max_count: usize)
    requires
        call_ensures(Memory::<P>::push, (kept, entry, max_count), ()),
    ensures
        final(kept)@.len() == if max_count > 0 && old(kept)@.len() >= max_count {
            old(kept)@.len()
        } else {
            old(kept)@.len() + 1
        },
        final(kept)@[0] == entry,
        forall|i: int| 1 <= i < final(kept)@.len() ==> #[trigger] final(kept)@[i] == old(kept)@[i
            - 1],
{
}

/// New memories are none.
pub proof fn law_new_memory<P>(kept: Memory<P>)
    requires
        call_ensures(Memory::<P>::default, (), kept),
    ensures
        kept@.len() == 0,
{
}

/// What is counted, and whether there is anything.
pub proof fn law_len<P>(kept: Memory<P>, count: usize, empty: bool)
    requires
        call_ensures(Memory::<P>::len, (&kept,), count),
        call_ensures(Memory::<P>::is_empty, (&kept,), empty),
    ensures
        count == kept@.len(),
        empty <==> count == 0,
{
}

/// The memories are gone through one by one, newest first, and none is left out.
pub proof fn law_iter<P>(
    kept: Memory<P>,
    entries: std::collections::vec_deque::Iter<'_, MemoryEntry<P>>,
)
    requires
        call_ensures(Memory::<P>::iter, (&kept,), entries),
    ensures
        entries.remaining().len() == kept@.len(),
        forall|i: int| 0 <= i < kept@.len() ==> *#[trigger] entries.remaining()[i] == kept@[i],
{
}

/// A call of `sum` adds up the memories it is asked of.
pub proof fn law_sum<A: Arithmetic, P>(kept: Memory<P>, total: Scalar)
    requires
        call_ensures(Memory::<P>::sum::<A>, (&kept,), total),
    ensures
        memory::total_from_is::<A>(
            Scalar { bits: 0x8000_0000 },
            memory::values_of(kept@),
            total,
        ),
{
}

/// The strongest memory and its place are those of the strongest of all.
pub proof fn law_strongest<P>(
    kept: Memory<P>,
    entry: Option<&MemoryEntry<P>>,
    place: Option<usize>,
)
    requires
        call_ensures(Memory::<P>::strongest, (&kept,), entry),
        call_ensures(Memory::<P>::strongest_place, (&kept,), place),
    ensures
        entry is None <==> kept@.len() == 0,
        place is None <==> kept@.len() == 0,
        kept@.len() > 0 ==> place->0 == memory::strongest_index(kept@, kept@.len()),
        kept@.len() > 0 ==> *entry->0 == kept@[place->0 as int],
{
}

/// A call of `decay` subtracts the amount it is handed, and drops by the threshold
/// it is handed.
pub proof fn law_decay<A: Arithmetic, P>(kept: &mut Memory<P>, amount: Scalar, threshold: Scalar)
    requires
        call_ensures(Memory::<P>::decay::<A>, (kept, amount, threshold), ()),
    ensures
        memory::decayed_is::<A, P>(old(kept)@, amount, threshold, final(kept)@),
{
}

/// A memory that fades has another intensity and is otherwise what it was; it is
/// gone where that is not above the threshold.
pub proof fn law_faded<P>(
    entry: MemoryEntry<P>,
    value: Scalar,
    threshold: Scalar,
    left: Option<MemoryEntry<P>>,
)
    requires
        call_ensures(MemoryEntry::<P>::faded, (entry, value, threshold), left),
    ensures
        left is Some <==> threshold.less(value),
        left matches Some(faded) ==> {
            &&& faded.percept == entry.percept
            &&& faded.value == value
            &&& faded.location == entry.location
            &&& faded.source == entry.source
        },
{
}

/// Memories decay by the configuration, for the seconds that are handed over.
pub proof fn law_decay_memories<A: Arithmetic, P>(
    delta_secs: Scalar,
    memories: &mut Vec<Memory<P>>,
    config: PerceptionConfig,
)
    requires
        call_ensures(systems::decay_memories::<A, P>, (delta_secs, memories, &config), ()),
    ensures
        systems::faded_is::<A, P>(delta_secs, config, old(memories)@, final(memories)@),
{
}

/// An event above the threshold is stored with its percept, intensity, location and
/// source as the newest memory of the actor it is for, if that keeps memories; any
/// other changes nothing.
pub proof fn law_on_perception_event<P: Percept>(
    event: PerceptionEvent<P>,
    memory: Option<&mut Memory<P>>,
    config: PerceptionConfig,
    stored: bool,
)
    requires
        call_ensures(systems::on_perception_event::<P>, (&event, memory, &config), stored),
    ensures
        stored <==> memory is Some && !event.value.at_most(config.min_threshold),
        memory matches Some(kept) ==> event.value.at_most(config.min_threshold) ==> final(kept)@
            == kept@,
        memory matches Some(kept) ==> !event.value.at_most(config.min_threshold) ==> {
            &&& final(kept)@.len() == if config.max_count > 0 && kept@.len() >= config.max_count {
                kept@.len()
            } else {
                kept@.len() + 1
            }
            &&& final(kept)@[0].percept == event.percept
            &&& final(kept)@[0].value == event.value
            &&& final(kept)@[0].location == event.location
            &&& final(kept)@[0].source == event.source
            &&& forall|i: int|
                1 <= i < final(kept)@.len() ==> #[trigger] final(kept)@[i] == kept@[i - 1]
        },
{
}

/// A frame of messages reaches the actors that are handed over, by the
/// configuration.
pub proof fn law_propagate_perception<A: Arithmetic, P: Percept>(
    messages: Vec<PerceptionMessage<P>>,
    perceivers: &mut Vec<Perceiver<P>>,
    config: PerceptionConfig,
    scratch: &mut PropagationScratch<P>,
    gained: Vec<usize>,
)
    requires
        call_ensures(
            propagation::propagate_perception::<A, P>,
            (&messages, perceivers, &config, scratch),
            gained,
        ),
    ensures
        propagation::propagated::<A, P>(
            messages@,
            config,
            old(perceivers)@,
            final(perceivers)@,
            gained@,
        ),
{
}

/// Calls that tell loss and intensity answer for what they are handed.
pub proof fn law_hearing<A: Arithmetic, P>(
    distance: Scalar,
    loss: Scalar,
    message: PerceptionMessage<P>,
    position: Vec2,
    threshold: Scalar,
    value: Option<Scalar>,
)
    requires
        call_ensures(propagation::attenuation::<A>, (distance,), loss),
        call_ensures(propagation::heard::<A, P>, (&message, position, threshold), value),
    ensures
        propagation::attenuation_is::<A>(distance, loss),
        propagation::heard_is::<A, P>(message, position, threshold, value),
{
}

/// What is remembered where something is left: that or zero, where it is above the
/// threshold.
pub proof fn law_remember(left: Scalar, threshold: Scalar, value: Option<Scalar>)
    requires
        call_ensures(propagation::remember, (left, threshold), value),
    ensures
        ({
            let arrives = if left.nan() || left.less(Scalar { bits: 0 }) {
                Scalar { bits: 0 }
            } else {
                left
            };
            value == if arrives.at_most(threshold) {
                None
            } else {
                Some(arrives)
            }
        }),
{
}

/// An index is worth building for eight messages, thirty-two actors and four
/// thousand and ninety-six pairs, or more.
pub proof fn law_worth_indexing(messages: usize, perceivers: usize, answer: bool)
    requires
        call_ensures(propagation::worth_indexing, (messages, perceivers), answer),
    ensures
        answer <==> messages >= 8 && perceivers >= 32 && messages * perceivers >= 4096,
{
    assert(messages * perceivers == perceivers * messages) by (nonlinear_arith);
}

/// A batch is merged by the radius that is handed over.
pub proof fn law_merge_batch<A: Arithmetic, P: Percept>(
    batch: &mut Vec<PerceptionMessage<P>>,
    keys: &mut Vec<MergeKey>,
    merged: &mut Vec<bool>,
    merge_radius: Scalar,
)
    requires
        call_ensures(merge::merge_batch::<A, P>, (batch, keys, merged, merge_radius), ()),
    ensures
        merge::merging_is::<A, P>(old(batch)@, merge_radius, final(batch)@),
{
}

/// An origin is grouped by the radius that is handed over.
pub proof fn law_origin_key<A: Arithmetic>(origin: Vec2, merge_radius: Scalar, key: (u64, u64))
    requires
        call_ensures(merge::origin_key::<A>, (origin, merge_radius), key),
    ensures
        merge::origin_key_is::<A>(origin, merge_radius, key),
{
}

/// A message is reached by place, range and edge as they are handed over.
pub proof fn law_reach_of<A: Arithmetic>(origin: Vec2, range: Scalar, edge: Scalar, reach: Reach)
    requires
        call_ensures(index::reach_of::<A>, (origin, range, edge), reach),
    ensures
        index::reach_is::<A>(origin, range, edge, reach),
{
}

/// The reach between corners, the ends of a range, and the line of a number are
/// those of what is handed over.
pub proof fn law_reach_parts<A: Arithmetic>(
    first: Vec2,
    last: Vec2,
    reach: Reach,
    centre: Scalar,
    range: Scalar,
    limit: Scalar,
    ends: (Scalar, Scalar),
    guess: Scalar,
    up: bool,
    end: Option<Scalar>,
    edge: Scalar,
    line: Scalar,
)
    requires
        call_ensures(index::reach_between::<A>, (first, last), reach),
        call_ensures(extent::ends::<A>, (centre, range, limit), ends),
        call_ensures(extent::find_end::<A>, (centre, limit, guess, up), end),
        call_ensures(space::line::<A>, (centre, edge), line),
    ensures
        index::reach_between_is::<A>(first, last, reach),
        extent::ends_are::<A>(centre, range, limit, ends.0, ends.1),
        end matches Some(end) ==> extent::end_is::<A>(centre, limit, up, end),
        end is None ==> extent::within_is::<A>(centre, centre, limit, false),
        exists|quotient: Scalar| #[trigger]
            arithmetic::over_is::<A>(centre, edge, quotient) && arithmetic::floor_is::<A>(
                quotient,
                line,
            ),
{
}

/// What an index holds as wide is told as it is.
pub proof fn law_wide(messages: MessageIndex, wide: &Vec<u32>)
    requires
        call_ensures(MessageIndex::wide, (&messages,), wide),
    ensures
        wide@ == messages.wide_messages(),
{
}

/// Cells are found under one number if and only if they are one cell.
pub proof fn law_cell_key(a: Cell, b: Cell, a_key: u64, b_key: u64)
    requires
        call_ensures(index::cell_key, (a,), a_key),
        call_ensures(index::cell_key, (b,), b_key),
    ensures
        a_key == b_key <==> a.x == b.x && a.y == b.y,
{
    if a_key == b_key {
        index::lemma_cell_key_injective(a, b);
    }
}

/// A batch is indexed if and only if the upper median of its ranges is a finite
/// number above zero; otherwise the index stays as it is.
pub proof fn law_build<A: Arithmetic, P>(
    messages: &mut MessageIndex,
    batch: Vec<PerceptionMessage<P>>,
    ranges: &mut Vec<i32>,
    built: bool,
)
    requires
        call_ensures(MessageIndex::build::<A, P>, (messages, &batch, ranges), built),
    ensures
        exists|edge: Scalar|
            {
                &&& #[trigger] edge.total_rank() == index::median_rank(index::ranges_of(batch@))
                &&& built <==> edge.finite() && (Scalar { bits: 0 }).less(edge)
                &&& built ==> final(messages).edge() == edge
            },
        built ==> final(messages).indexes::<A, P>(batch@),
        !built ==> *final(messages) == *old(messages),
{
}

/// An index hands out what it holds for the place that is handed over, and nothing
/// of what was in the list before.
pub proof fn law_candidates_at<A: Arithmetic>(
    messages: MessageIndex,
    position: Vec2,
    candidates: &mut Vec<u32>,
)
    requires
        call_ensures(MessageIndex::candidates_at::<A>, (&messages, position, candidates), ()),
    ensures
        messages.hands_out::<A>(position, final(candidates)@),
{
}

/// Memories are summarized into what is handed over, and nothing of what was in it
/// is left.
pub proof fn law_digest<A: Arithmetic, P: Percept + Eq + Hash>(
    kept: Memory<P>,
    digests: &mut DigestMap<P>,
    anew: DigestMap<P>,
)
    requires
        call_ensures(Memory::<P>::digest_into::<A>, (&kept, digests), ()),
        call_ensures(Memory::<P>::digest::<A>, (&kept,), anew),
    ensures
        digest::digest_is::<A, P>(kept@, final(digests)@),
        digest::digest_is::<A, P>(kept@, anew@),
{
}

/// Calls that ask across all summaries answer for those that are held.
pub proof fn law_digest_totals<A: Arithmetic, P>(
    held: MemoryDigest<P>,
    value: Option<Scalar>,
    total: Scalar,
)
    requires
        call_ensures(MemoryDigest::<P>::strongest_value, (&held,), value),
        call_ensures(MemoryDigest::<P>::total_value::<A>, (&held,), total),
    ensures
        digest::greatest_strongest(held.digests@, value),
        digest::grand_total_is::<A, P>(held.digests@, total),
{
}

/// The summary of a percept is the one that is held for it, if there is one.
pub proof fn law_digest_get<P: Percept + Eq + Hash>(
    held: MemoryDigest<P>,
    percept: P,
    found: Option<&PerceptDigest>,
)
    requires
        call_ensures(MemoryDigest::<P>::get, (&held, &percept), found),
    ensures
        found is Some <==> held.digests@.contains_key(percept),
        found matches Some(digest) ==> *digest == held.digests@[percept],
{
}

/// A map holds what was set last under a percept, and everything else that it held.
pub proof fn law_digest_map<P: Percept + Eq + Hash>(
    digests: &mut DigestMap<P>,
    percept: P,
    digest: PerceptDigest,
    other: DigestMap<P>,
    found: Option<&PerceptDigest>,
    empty: bool,
)
    requires
        call_ensures(DigestMap::<P>::insert, (digests, percept, digest), ()),
        call_ensures(DigestMap::<P>::get, (&other, &percept), found),
        call_ensures(DigestMap::<P>::is_empty, (&other,), empty),
    ensures
        final(digests)@.contains_key(percept) && final(digests)@[percept] == digest,
        forall|key: P|
            key != percept ==> (#[trigger] final(digests)@.contains_key(key) <==> old(
                digests,
            )@.contains_key(key)) && (old(digests)@.contains_key(key) ==> final(digests)@[key]
                == old(digests)@[key]),
        found is Some <==> other@.contains_key(percept),
        found matches Some(held) ==> *held == other@[percept],
        empty <==> forall|key: P| !other@.contains_key(key),
{
    if forall|key: P| !other@.contains_key(key) {
        assert(other@ =~= Map::<P, PerceptDigest>::empty());
    }
}

/// Summaries are brought up to date with the memories that are handed over.
pub proof fn law_refresh<A: Arithmetic, P: Percept + Eq + Hash>(
    held: &mut MemoryDigest<P>,
    kept: Memory<P>,
    scratch: &mut DigestMap<P>,
    written: bool,
)
    requires
        call_ensures(MemoryDigest::<P>::refresh::<A>, (held, &kept, scratch), written),
    ensures
        digest::refreshed_is::<A, P>(
            kept@,
            old(held).digests@,
            final(held).digests@,
            written,
        ),
{
}

/// The summaries of every actor are brought up to date with its own memories, which
/// stay as they are.
pub proof fn law_update_memory_digest<A: Arithmetic, P: Percept + Eq + Hash>(
    actors: &mut Vec<(MemoryDigest<P>, Memory<P>)>,
    scratch: &mut DigestMap<P>,
    written: Vec<bool>,
)
    requires
        call_ensures(digest::update_memory_digest::<A, P>, (actors, scratch), written),
    ensures
        final(actors)@.len() == old(actors)@.len(),
        written@.len() == old(actors)@.len(),
        forall|i: int|
            0 <= i < old(actors)@.len() ==> (#[trigger] final(actors)@[i]).1@ == old(actors)@[i].1@
                && digest::refreshed_is::<A, P>(
                old(actors)@[i].1@,
                old(actors)@[i].0.digests@,
                final(actors)@[i].0.digests@,
                written@[i],
            ),
{
}

/// A summary is joined by the memory that is handed over.
pub proof fn law_joined_by<A: Arithmetic, P>(
    digest: PerceptDigest,
    entry: MemoryEntry<P>,
    joined: PerceptDigest,
)
    requires
        call_ensures(PerceptDigest::joined_by::<A, P>, (&digest, &entry), joined),
    ensures
        digest.joined_by_is::<A, P>(entry, joined),
{
}

/// New configurations lose five a second, drop at a half, keep sixteen memories and
/// merge origins of one pattern.
pub proof fn law_new_config(config: PerceptionConfig)
    requires
        call_ensures(PerceptionConfig::default, (), config),
    ensures
        config.decay_rate.bits == 0x40a0_0000,
        config.min_threshold.bits == 0x3f00_0000,
        config.max_count == 16,
        config.merge_radius.bits == 0,
{
}

/// New summaries are none, and a new summary is of nothing.
pub proof fn law_new_digest<P>(held: MemoryDigest<P>, digests: DigestMap<P>, digest: PerceptDigest)
    requires
        call_ensures(MemoryDigest::<P>::default, (), held),
        call_ensures(DigestMap::<P>::default, (), digests),
        call_ensures(PerceptDigest::default, (), digest),
    ensures
        forall|percept: P| !held.digests@.contains_key(percept),
        forall|percept: P| !digests@.contains_key(percept),
        digest.strongest_value.bits == 0,
        digest.strongest_location is None,
        digest.strongest_source is None,
        digest.total_value.bits == 0,
{
}

/// A copy of a message is the message.
pub proof fn law_duplicate<P: Percept>(message: PerceptionMessage<P>, copy: PerceptionMessage<P>)
    requires
        call_ensures(PerceptionMessage::<P>::duplicate, (&message,), copy),
    ensures
        copy == message,
{
}

/// The geometry of points: steps, squared lengths and distances, cells and
/// directions are those of the points that are handed over.
pub proof fn law_geometry<A: Arithmetic>(
    a: Vec2,
    b: Vec2,
    edge: Scalar,
    step: Vec2,
    length_sq: Scalar,
    distance_sq: Scalar,
    cell: Cell,
    direction: Option<Dir2>,
)
    requires
        call_ensures(Vec2::step_from::<A>, (a, b), step),
        call_ensures(Vec2::length_squared::<A>, (a,), length_sq),
        call_ensures(Vec2::distance_squared::<A>, (a, b), distance_sq),
        call_ensures(Vec2::cell::<A>, (a, edge), cell),
        call_ensures(Dir2::new::<A>, (a,), direction),
    ensures
        arithmetic::minus_is::<A>(a.x, b.x, step.x),
        arithmetic::minus_is::<A>(a.y, b.y, step.y),
        exists|xx: Scalar, yy: Scalar| #[trigger]
            arithmetic::times_is::<A>(a.x, a.x, xx) && #[trigger] arithmetic::times_is::<A>(
                a.y,
                a.y,
                yy,
            ) && arithmetic::plus_is::<A>(xx, yy, length_sq),
        a.distance_squared_is::<A>(b, distance_sq),
        a.cell_is::<A>(edge, cell),
        Dir2::direction_is::<A>(a, direction),
{
}

/// What is asked of a number is told by its pattern.
pub proof fn law_numbers(number: Scalar, nan: bool, finite: bool, bits: u32, key: i32)
    requires
        call_ensures(Scalar::is_nan, (number,), nan),
        call_ensures(Scalar::is_finite, (number,), finite),
        call_ensures(Scalar::to_bits, (number,), bits),
        call_ensures(Scalar::total_key, (number,), key),
    ensures
        nan == number.nan(),
        finite == number.finite(),
        bits == number.bits,
        key == number.total_rank(),
{
}

/// The greater of two numbers, and whether they are equal.
pub proof fn law_two_numbers(a: Scalar, b: Scalar, greater: Scalar, equal: bool)
    requires
        call_ensures(Scalar::max, (a, b), greater),
        call_ensures(<Scalar as PartialEq>::eq, (&a, &b), equal),
    ensures
        greater == a || greater == b,
        !a.nan() ==> a.at_most(greater),
        !b.nan() ==> b.at_most(greater),
        equal == a.equals(b),
{
}

/// Whether points, directions, places and summaries are equal.
pub proof fn law_equal(
    points: (Vec2, Vec2, bool),
    directions: (Dir2, Dir2, bool),
    places: (LocationKnowledge, LocationKnowledge, bool),
    digests: (PerceptDigest, PerceptDigest, bool),
)
    requires
        call_ensures(<Vec2 as PartialEq>::eq, (&points.0, &points.1), points.2),
        call_ensures(<Dir2 as PartialEq>::eq, (&directions.0, &directions.1), directions.2),
        call_ensures(<LocationKnowledge as PartialEq>::eq, (&places.0, &places.1), places.2),
        call_ensures(<PerceptDigest as PartialEq>::eq, (&digests.0, &digests.1), digests.2),
    ensures
        points.2 == points.0.equals(points.1),
        directions.2 == directions.0.equals(directions.1),
        places.2 == places.0.equals(places.1),
        digests.2 == digests.0.equals(digests.1),
{
}

} // verus!
