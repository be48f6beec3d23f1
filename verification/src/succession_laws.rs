//! What a frame of messages makes of actors is what its messages make of them one
//! after the other.

use crate::arithmetic;
use crate::arithmetic::Arithmetic;
use crate::config::PerceptionConfig;
use crate::conservative_laws;
use crate::exact;
use crate::memory::MemoryEntry;
use crate::memory_laws;
use crate::merge;
use crate::merge_laws;
use crate::message::PerceptionMessage;
use crate::percept::{Entity, Percept};
use crate::propagation;
use crate::propagation::{Perceiver, Route};
use crate::propagation_laws;
use crate::rounding;
use crate::scalar::Scalar;
use crate::space::Vec2;
use vstd::prelude::*;

verus! {

/// Where operations have one result, a squared distance is one number.
proof fn lemma_distance_settled<A: Arithmetic>(a: Vec2, b: Vec2, x: Scalar, y: Scalar)
    requires
        arithmetic::settled::<A>(),
        a.distance_squared_is::<A>(b, x),
        a.distance_squared_is::<A>(b, y),
    ensures
        x == y,
{
    let s = choose|step: Vec2| #[trigger]
        a.step_is::<A>(b, step) && step.length_squared_is::<A>(x);
    let t = choose|step: Vec2| #[trigger]
        a.step_is::<A>(b, step) && step.length_squared_is::<A>(y);
    assert(s == t);
    let (p, q) = choose|xx: Scalar, yy: Scalar|
        {
            &&& #[trigger] arithmetic::times_is::<A>(s.x, s.x, xx)
            &&& #[trigger] arithmetic::times_is::<A>(s.y, s.y, yy)
            &&& arithmetic::plus_is::<A>(xx, yy, x)
        };
    let (u, v) = choose|xx: Scalar, yy: Scalar|
        {
            &&& #[trigger] arithmetic::times_is::<A>(s.x, s.x, xx)
            &&& #[trigger] arithmetic::times_is::<A>(s.y, s.y, yy)
            &&& arithmetic::plus_is::<A>(xx, yy, y)
        };
    assert(p == u && q == v);
}

/// Where operations have one result, so much is left at a distance.
proof fn lemma_remaining_settled<A: Arithmetic>(
    base_value: Scalar,
    distance_sq: Scalar,
    x: Scalar,
    y: Scalar,
)
    requires
        arithmetic::settled::<A>(),
        propagation::remaining_is::<A>(base_value, distance_sq, x),
        propagation::remaining_is::<A>(base_value, distance_sq, y),
    ensures
        x == y,
{
    let (d, l) = choose|distance: Scalar, loss: Scalar|
        {
            &&& #[trigger] arithmetic::square_root_is::<A>(distance_sq, distance)
            &&& #[trigger] propagation::attenuation_is::<A>(distance, loss)
            &&& arithmetic::minus_is::<A>(base_value, loss, x)
        };
    let (e, m) = choose|distance: Scalar, loss: Scalar|
        {
            &&& #[trigger] arithmetic::square_root_is::<A>(distance_sq, distance)
            &&& #[trigger] propagation::attenuation_is::<A>(distance, loss)
            &&& arithmetic::minus_is::<A>(base_value, loss, y)
        };
    assert(d == e);
    assert(l == m);
}

/// Where operations have one result, an actor comes to remember a message in one
/// way.
pub proof fn law_outcome_settled<A: Arithmetic, P>(
    message: PerceptionMessage<P>,
    entity: Entity,
    position: Vec2,
    threshold: Scalar,
    a: Option<MemoryEntry<P>>,
    b: Option<MemoryEntry<P>>,
)
    requires
        arithmetic::settled::<A>(),
        propagation::outcome_is::<A, P>(message, entity, position, threshold, a),
        propagation::outcome_is::<A, P>(message, entity, position, threshold, b),
    ensures
        a == b,
{
    if message.source != Some(entity) {
        let x = match a {
            Some(entry) => Some(entry.value),
            None => None,
        };
        let y = match b {
            Some(entry) => Some(entry.value),
            None => None,
        };
        lemma_heard_settled::<A, P>(message, position, threshold, x, y);
    }
}

proof fn lemma_heard_settled<A: Arithmetic, P>(
    message: PerceptionMessage<P>,
    position: Vec2,
    threshold: Scalar,
    x: Option<Scalar>,
    y: Option<Scalar>,
)
    requires
        arithmetic::settled::<A>(),
        propagation::heard_is::<A, P>(message, position, threshold, x),
        propagation::heard_is::<A, P>(message, position, threshold, y),
    ensures
        x == y,
{
    let (d, r) = choose|distance_sq: Scalar, range_sq: Scalar|
        {
            &&& #[trigger] position.distance_squared_is::<A>(message.origin, distance_sq)
            &&& #[trigger] arithmetic::times_is::<A>(message.range, message.range, range_sq)
            &&& if range_sq.less(distance_sq) {
                x is None
            } else {
                exists|left: Scalar| #[trigger]
                    propagation::remaining_is::<A>(message.base_value, distance_sq, left) && x
                        == propagation::remembered(left, threshold)
            }
        };
    let (e, s) = choose|distance_sq: Scalar, range_sq: Scalar|
        {
            &&& #[trigger] position.distance_squared_is::<A>(message.origin, distance_sq)
            &&& #[trigger] arithmetic::times_is::<A>(message.range, message.range, range_sq)
            &&& if range_sq.less(distance_sq) {
                y is None
            } else {
                exists|left: Scalar| #[trigger]
                    propagation::remaining_is::<A>(message.base_value, distance_sq, left) && y
                        == propagation::remembered(left, threshold)
            }
        };
    lemma_distance_settled::<A>(position, message.origin, d, e);
    assert(r == s);
    if !r.less(d) {
        let left = choose|left: Scalar| #[trigger]
            propagation::remaining_is::<A>(message.base_value, d, left) && x
                == propagation::remembered(left, threshold);
        let other = choose|left: Scalar| #[trigger]
            propagation::remaining_is::<A>(message.base_value, d, left) && y
                == propagation::remembered(left, threshold);
        lemma_remaining_settled::<A>(message.base_value, d, left, other);
    }
}

/// The same configuration with no limit on memories.
pub open spec fn without_limit(config: PerceptionConfig) -> PerceptionConfig {
    PerceptionConfig { max_count: 0, ..config }
}

/// Whether `worlds` are what messages may make of actors one after the other, each
/// propagated alone and with no limit on memories.
pub open spec fn in_succession<A: Arithmetic, P: Percept>(
    messages: Seq<PerceptionMessage<P>>,
    config: PerceptionConfig,
    worlds: Seq<Seq<Perceiver<P>>>,
) -> bool {
    &&& worlds.len() == messages.len() + 1
    &&& forall|i: int|
        0 <= i < messages.len() ==> alone::<A, P>(
            #[trigger] messages[i],
            config,
            worlds[i],
            worlds[i + 1],
        )
}

/// Whether `after` is what a message may make of actors, propagated alone and with
/// no limit on memories.
pub open spec fn alone<A: Arithmetic, P: Percept>(
    message: PerceptionMessage<P>,
    config: PerceptionConfig,
    before: Seq<Perceiver<P>>,
    after: Seq<Perceiver<P>>,
) -> bool {
    exists|gained: Seq<usize>| #[trigger]
        propagation::propagated::<A, P>(
            seq![message],
            without_limit(config),
            before,
            after,
            gained,
        )
}

/// What a message alone makes of an actor: a memory on top, or nothing where it
/// cannot reach anyone.
proof fn lemma_alone<A: Arithmetic, P: Percept>(
    message: PerceptionMessage<P>,
    config: PerceptionConfig,
    before: Seq<Perceiver<P>>,
    after: Seq<Perceiver<P>>,
    p: int,
) -> (entry: Option<MemoryEntry<P>>)
    requires
        alone::<A, P>(message, config, before, after),
        0 <= p < before.len(),
    ensures
        after.len() == before.len(),
        after[p].entity == before[p].entity,
        after[p].position == before[p].position,
        if propagation::admissible(message, config.min_threshold) {
            propagation::outcome_is::<A, P>(
                message,
                before[p].entity,
                before[p].position,
                config.min_threshold,
                entry,
            )
        } else {
            entry is None
        },
        after[p].memory@ == match entry {
            Some(entry) => seq![entry] + before[p].memory@,
            None => before[p].memory@,
        },
{
    let threshold = config.min_threshold;
    let free = without_limit(config);
    let gained = choose|gained: Seq<usize>| #[trigger]
        propagation::propagated::<A, P>(seq![message], free, before, after, gained);
    let admitted = propagation::admitted(seq![message], threshold);
    reveal_with_fuel(Seq::filter, 2);
    assert(seq![message].drop_last() =~= Seq::empty());
    assert(admitted =~= if propagation::admissible(message, threshold) {
        seq![message]
    } else {
        Seq::empty()
    });
    let (batch, route) = choose|batch: Seq<PerceptionMessage<P>>, route: Route|
        {
            &&& #[trigger] merge::merging_is::<A, P>(admitted, free.merge_radius, batch)
            &&& #[trigger] propagation::route_is::<A, P>(batch, before.len(), route)
            &&& propagation::delivered::<A, P>(batch, route, free, before, after, gained)
        };
    assert(batch == admitted);
    assert(propagation::perceiver_delivered::<A, P>(
        batch,
        route,
        free,
        before[p],
        after[p],
        gained[p] as nat,
    ));
    assert(route is Exhaustive);
    let tested = propagation::all_places(batch.len());
    let entries = choose|entries: Seq<Option<MemoryEntry<P>>>|
        {
            &&& #[trigger] propagation::outcomes_are::<A, P>(
                batch,
                tested,
                before[p].entity,
                before[p].position,
                threshold,
                entries,
            )
            &&& after[p].memory@ == propagation::received(before[p].memory@, entries, 0)
            &&& gained[p] == propagation::gain(entries)
        };
    reveal_with_fuel(propagation::received, 2);
    if batch.len() == 0 {
        None
    } else {
        let entry = entries[0];
        assert(entries.last() == entry);
        assert(entries.drop_last().len() == 0);
        if let Some(memory) = entry {
            assert(after[p].memory@ =~= seq![memory] + before[p].memory@);
        }
        entry
    }
}

/// What the first messages make of an actor, one after the other: a memory on top
/// for each that it comes to perceive.
proof fn lemma_succession<A: Arithmetic, P: Percept>(
    messages: Seq<PerceptionMessage<P>>,
    config: PerceptionConfig,
    worlds: Seq<Seq<Perceiver<P>>>,
    k: int,
    p: int,
) -> (entries: Seq<Option<MemoryEntry<P>>>)
    requires
        messages.len() <= u32::MAX,
        in_succession::<A, P>(messages, config, worlds),
        0 <= k <= messages.len(),
        0 <= p < worlds[0].len(),
    ensures
        worlds[k].len() == worlds[0].len(),
        worlds[k][p].entity == worlds[0][p].entity,
        worlds[k][p].position == worlds[0][p].position,
        ({
            let batch = propagation::admitted(messages.take(k), config.min_threshold);
            propagation::outcomes_are::<A, P>(
                batch,
                propagation::all_places(batch.len()),
                worlds[0][p].entity,
                worlds[0][p].position,
                config.min_threshold,
                entries,
            )
        }),
        worlds[k][p].memory@ == propagation_laws::gains(entries).reverse() + worlds[0][p].memory@,
    decreases k,
{
    let (entity, position) = (worlds[0][p].entity, worlds[0][p].position);
    let threshold = config.min_threshold;
    let batch = propagation::admitted(messages.take(k), threshold);
    reveal(Seq::filter);
    if k == 0 {
        let none = Seq::<Option<MemoryEntry<P>>>::empty();
        assert(batch.len() == 0);
        assert(propagation_laws::gains(none).reverse() + worlds[0][p].memory@
            =~= worlds[0][p].memory@);
        none
    } else {
        let fewer = messages.take(k - 1);
        let most = lemma_succession::<A, P>(messages, config, worlds, k - 1, p);
        let message = messages[k - 1];
        assert(alone::<A, P>(message, config, worlds[k - 1], worlds[k - 1 + 1]));
        let entry = lemma_alone::<A, P>(message, config, worlds[k - 1], worlds[k], p);
        let rest = propagation::admitted(fewer, threshold);
        propagation_laws::lemma_admitted(fewer, threshold);
        assert(messages.take(k).drop_last() =~= fewer);
        assert(messages.take(k).last() == message);
        let entries = if propagation::admissible(message, threshold) {
            most.push(entry)
        } else {
            most
        };
        assert(propagation::admissible(message, threshold) ==> entries.drop_last() =~= most);
        assert forall|j: int| 0 <= j < batch.len() implies propagation::outcome_is::<A, P>(
            batch[propagation::all_places(batch.len())[j] as int],
            entity,
            position,
            threshold,
            #[trigger] entries[j],
        ) by {
            if j < rest.len() {
                assert(propagation::outcome_is::<A, P>(
                    rest[propagation::all_places(rest.len())[j] as int],
                    entity,
                    position,
                    threshold,
                    most[j],
                ));
            }
        }
        let older = propagation_laws::gains(most);
        if let Some(memory) = entry {
            assert(propagation_laws::gains(entries) == older.push(memory));
            assert(older.push(memory).reverse() =~= seq![memory] + older.reverse());
            assert(worlds[k][p].memory@ =~= propagation_laws::gains(entries).reverse()
                + worlds[0][p].memory@);
        } else {
            assert(propagation_laws::gains(entries) == older);
        }
        entries
    }
}

/// One run over messages that do not merge leaves every actor with the newest of
/// the memories that it would have if each message were propagated alone, one
/// after the other, with no limit: as many as the limit allows.
pub proof fn law_one_run_is_the_newest_of_a_succession<A: Arithmetic, P: Percept>(
    messages: Seq<PerceptionMessage<P>>,
    config: PerceptionConfig,
    before: Seq<Perceiver<P>>,
    after: Seq<Perceiver<P>>,
    gained: Seq<usize>,
    worlds: Seq<Seq<Perceiver<P>>>,
    p: int,
)
    requires
        arithmetic::settled::<A>(),
        exact::answers::<A>(),
        rounding::keeps_order::<A>(),
        messages.len() <= u32::MAX,
        merge_laws::nothing_merges::<A, P>(
            propagation::admitted(messages, config.min_threshold),
            config.merge_radius,
        ),
        propagation::propagated::<A, P>(messages, config, before, after, gained),
        in_succession::<A, P>(messages, config, worlds),
        worlds[0] == before,
        0 <= p < before.len(),
        memory_laws::within_capacity(before[p].memory@, config.max_count),
    ensures
        after.len() == worlds.last().len() == before.len(),
        after[p].entity == worlds.last()[p].entity,
        after[p].position == worlds.last()[p].position,
        after[p].memory@ == propagation_laws::limited(
            worlds.last()[p].memory@,
            config.max_count,
        ),
        worlds.last()[p].memory@.len() == before[p].memory@.len() + gained[p],
{
    let threshold = config.min_threshold;
    let (entity, position) = (before[p].entity, before[p].position);
    let admitted = propagation::admitted(messages, threshold);
    propagation_laws::lemma_admitted(messages, threshold);
    conservative_laws::law_propagation_is_exhaustive::<A, P>(
        messages,
        config,
        before,
        after,
        gained,
    );
    let batch = choose|batch: Seq<PerceptionMessage<P>>|
        {
            &&& #[trigger] merge::merging_is::<A, P>(admitted, config.merge_radius, batch)
            &&& propagation::delivered::<A, P>(
                batch,
                Route::Exhaustive,
                config,
                before,
                after,
                gained,
            )
        };
    merge_laws::law_apart_stay_as_they_are::<A, P>(admitted, config.merge_radius, batch);
    assert(propagation::perceiver_delivered::<A, P>(
        batch,
        Route::Exhaustive,
        config,
        before[p],
        after[p],
        gained[p] as nat,
    ));
    let places = propagation::all_places(batch.len());
    let entries = choose|entries: Seq<Option<MemoryEntry<P>>>|
        {
            &&& #[trigger] propagation::outcomes_are::<A, P>(
                batch,
                places,
                entity,
                position,
                threshold,
                entries,
            )
            &&& after[p].memory@ == propagation::received(
                before[p].memory@,
                entries,
                config.max_count,
            )
            &&& gained[p] == propagation::gain(entries)
        };
    propagation_laws::law_received_newest_first(before[p].memory@, entries, config.max_count);
    let others = lemma_succession::<A, P>(messages, config, worlds, messages.len() as int, p);
    assert(messages.take(messages.len() as int) =~= messages);
    assert forall|j: int| 0 <= j < entries.len() implies #[trigger] entries[j] == others[j] by {
        assert(propagation::outcome_is::<A, P>(
            batch[places[j] as int],
            entity,
            position,
            threshold,
            others[j],
        ));
        law_outcome_settled::<A, P>(
            batch[places[j] as int],
            entity,
            position,
            threshold,
            entries[j],
            others[j],
        );
    }
    assert(entries =~= others);
}

} // verus!
