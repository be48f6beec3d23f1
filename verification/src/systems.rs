//! What happens to memories apart from broadcasts: targeted stimuli and decay.

use crate::arithmetic;
use crate::arithmetic::Arithmetic;
use crate::config::PerceptionConfig;
use crate::memory;
use crate::memory::{Memory, MemoryEntry};
use crate::message::PerceptionEvent;
use crate::percept::Percept;
use crate::scalar::Scalar;
use vstd::prelude::*;

verus! {

/// The memory of an event, at its full intensity.
pub open spec fn event_memory<P>(event: PerceptionEvent<P>) -> MemoryEntry<P> {
    MemoryEntry {
        percept: event.percept,
        value: event.value,
        location: event.location,
        source: event.source,
    }
}

/// What an event makes of the memories of the actor it is for: nothing where
/// its intensity is at or below the threshold.
pub open spec fn event_received<P>(
    before: Seq<MemoryEntry<P>>,
    event: PerceptionEvent<P>,
    config: PerceptionConfig,
) -> Seq<MemoryEntry<P>> {
    if event.value.at_most(config.min_threshold) {
        before
    } else {
        memory::pushed(before, event_memory(event), config.max_count)
    }
}

/// Handles an event for the actor whose memories are `memory`; an actor that
/// keeps none is left alone. Returns whether the event was stored.
pub fn on_perception_event<P: Percept>(
    event: &PerceptionEvent<P>,
    memory: Option<&mut Memory<P>>,
    config: &PerceptionConfig,
) -> (stored: bool)
    ensures
        memory matches Some(kept) ==> final(kept)@ == event_received(kept@, *event, *config),
        memory matches Some(kept) ==> !event.value.at_most(config.min_threshold) ==> {
            &&& final(kept)@.len() > 0
            &&& final(kept)@[0].percept == event.percept
            &&& final(kept)@[0].value == event.value
            &&& final(kept)@[0].location == event.location
            &&& final(kept)@[0].source == event.source
        },
        memory matches Some(kept) ==> event.value.at_most(config.min_threshold) ==> final(kept)@
            == kept@,
        stored == (memory is Some && !event.value.at_most(config.min_threshold)),
{
    match memory {
        Some(kept) => {
            if event.value <= config.min_threshold {
                return false;
            }
            let entry = MemoryEntry {
                percept: event.percept.duplicate(),
                value: event.value,
                location: event.location,
                source: event.source,
            };
            kept.push(entry, config.max_count);
            true
        },
        None => false,
    }
}

/// What decay over `delta_secs` may make of the memories of some actors.
pub open spec fn faded_is<A: Arithmetic, P>(
    delta_secs: Scalar,
    config: PerceptionConfig,
    before: Seq<Memory<P>>,
    after: Seq<Memory<P>>,
) -> bool {
    exists|amount: Scalar|
        {
            &&& #[trigger] arithmetic::times_is::<A>(config.decay_rate, delta_secs, amount)
            &&& after.len() == before.len()
            &&& forall|i: int|
                0 <= i < before.len() ==> memory::decayed_is::<A, P>(
                    before[i]@,
                    amount,
                    config.min_threshold,
                    (#[trigger] after[i])@,
                )
        }
}

/// Lets the memories of all actors decay for `delta_secs`.
pub fn decay_memories<A: Arithmetic, P>(
    delta_secs: Scalar,
    memories: &mut Vec<Memory<P>>,
    config: &PerceptionConfig,
)
    ensures
        faded_is::<A, P>(delta_secs, *config, old(memories)@, final(memories)@),
{
    let ghost before = memories@;
    let amount = A::times(config.decay_rate, delta_secs);
    assert(arithmetic::times_is::<A>(config.decay_rate, delta_secs, amount));
    let mut i: usize = 0;
    while i < memories.len()
        invariant
            0 <= i <= memories@.len() == before.len(),
            forall|k: int|
                0 <= k < i ==> memory::decayed_is::<A, P>(
                    before[k]@,
                    amount,
                    config.min_threshold,
                    (#[trigger] memories@[k])@,
                ),
            forall|k: int| i <= k < before.len() ==> #[trigger] memories@[k] == before[k],
        decreases memories.len() - i,
    {
        memories[i].decay::<A>(amount, config.min_threshold);
        i += 1;
    }
}

} // verus!
