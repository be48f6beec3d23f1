//! Laws of targeted stimuli and of decay, told by the fields of memories.

use crate::arithmetic;
use crate::arithmetic::Arithmetic;
use crate::config::PerceptionConfig;
use crate::exact;
use crate::memory;
use crate::memory::{Memory, MemoryEntry};
use crate::memory_laws;
use crate::message::PerceptionEvent;
use crate::scalar::Scalar;
use crate::systems;
use vstd::prelude::*;

verus! {

/// An event above the threshold becomes the newest memory, with its percept,
/// intensity, location and source, whatever these are. The memories before it keep
/// their order, and only the oldest goes where there are as many as there may be.
pub proof fn law_event_is_stored_field_by_field<P>(
    before: Seq<MemoryEntry<P>>,
    event: PerceptionEvent<P>,
    config: PerceptionConfig,
)
    requires
        !event.value.at_most(config.min_threshold),
    ensures
        ({
            let after = systems::event_received(before, event, config);
            &&& after.len() == if config.max_count > 0 && before.len() >= config.max_count {
                before.len()
            } else {
                before.len() + 1
            }
            &&& after[0].percept == event.percept
            &&& after[0].value == event.value
            &&& after[0].location == event.location
            &&& after[0].source == event.source
            &&& forall|i: int| 1 <= i < after.len() ==> #[trigger] after[i] == before[i - 1]
        }),
{
}

/// An event that is not above the threshold changes nothing.
pub proof fn law_weak_event_changes_nothing<P>(
    before: Seq<MemoryEntry<P>>,
    event: PerceptionEvent<P>,
    config: PerceptionConfig,
)
    requires
        event.value.at_most(config.min_threshold),
    ensures
        systems::event_received(before, event, config) == before,
{
}

/// What is left of memories after decay: each intensity is less by the amount,
/// those above the threshold stay, in order, and nothing but the intensity of a
/// memory changes. Returns the intensities that come out and the places that stay.
pub proof fn law_decay_field_by_field<A: Arithmetic, P>(
    before: Seq<MemoryEntry<P>>,
    amount: Scalar,
    threshold: Scalar,
    after: Seq<MemoryEntry<P>>,
) -> (parts: (Seq<Scalar>, Seq<int>))
    requires
        memory::decayed_is::<A, P>(before, amount, threshold, after),
    ensures
        lessened::<A, P>(before, amount, threshold, after, parts.0, parts.1),
{
    let (kept, values) = memory_laws::law_decay_keeps_order::<A, P>(
        before,
        amount,
        threshold,
        after,
    );
    (values, kept)
}

/// Whether `after` is `before` with the amount subtracted from each intensity, the
/// results being `values`, and with only the memories at the places `kept`: those
/// whose intensity is then above the threshold.
pub open spec fn lessened<A: Arithmetic, P>(
    before: Seq<MemoryEntry<P>>,
    amount: Scalar,
    threshold: Scalar,
    after: Seq<MemoryEntry<P>>,
    values: Seq<Scalar>,
    kept: Seq<int>,
) -> bool {
    &&& values.len() == before.len()
    &&& forall|j: int|
        0 <= j < before.len() ==> arithmetic::minus_is::<A>(
            before[j].value,
            amount,
            #[trigger] values[j],
        )
    &&& forall|k: int| 0 <= k < kept.len() ==> 0 <= #[trigger] kept[k] < before.len()
    &&& forall|j: int, k: int|
        0 <= j < k < kept.len() ==> #[trigger] kept[j] < #[trigger] kept[k]
    &&& forall|j: int|
        0 <= j < before.len() ==> (kept.contains(j) <==> threshold.less(#[trigger] values[j]))
    &&& after.len() == kept.len()
    &&& forall|k: int|
        #![trigger after[k]]
        0 <= k < after.len() ==> {
            &&& after[k].percept == before[kept[k]].percept
            &&& after[k].value == values[kept[k]]
            &&& after[k].location == before[kept[k]].location
            &&& after[k].source == before[kept[k]].source
        }
}

/// Over some seconds, every memory of every actor loses one amount: the configured
/// rate times the seconds. Those that are then above the configured threshold
/// stay. Returns the amount and, for each actor, the intensities that come out and
/// the places that stay.
pub proof fn law_decay_is_the_rate_times_the_seconds<A: Arithmetic, P>(
    delta_secs: Scalar,
    config: PerceptionConfig,
    before: Seq<Memory<P>>,
    after: Seq<Memory<P>>,
) -> (parts: (Scalar, Seq<Seq<Scalar>>, Seq<Seq<int>>))
    requires
        systems::faded_is::<A, P>(delta_secs, config, before, after),
    ensures
        arithmetic::times_is::<A>(config.decay_rate, delta_secs, parts.0),
        after.len() == before.len(),
        forall|i: int|
            #![trigger after[i]]
            0 <= i < before.len() ==> lessened::<A, P>(
                before[i]@,
                parts.0,
                config.min_threshold,
                after[i]@,
                parts.1[i],
                parts.2[i],
            ),
{
    let amount = choose|amount: Scalar|
        {
            &&& #[trigger] arithmetic::times_is::<A>(config.decay_rate, delta_secs, amount)
            &&& after.len() == before.len()
            &&& forall|i: int|
                0 <= i < before.len() ==> memory::decayed_is::<A, P>(
                    before[i]@,
                    amount,
                    config.min_threshold,
                    (#[trigger] after[i])@,
                )
        };
    let threshold = config.min_threshold;
    let found = Seq::new(
        before.len(),
        |i: int|
            choose|parts: (Seq<Scalar>, Seq<int>)| #[trigger]
                lessened::<A, P>(before[i]@, amount, threshold, after[i]@, parts.0, parts.1),
    );
    let values = Seq::new(before.len(), |i: int| found[i].0);
    let kept = Seq::new(before.len(), |i: int| found[i].1);
    assert forall|i: int| #![trigger after[i]] 0 <= i < before.len() implies lessened::<A, P>(
        before[i]@,
        amount,
        threshold,
        after[i]@,
        values[i],
        kept[i],
    ) by {
        let parts = law_decay_field_by_field::<A, P>(before[i]@, amount, threshold, after[i]@);
        assert(lessened::<A, P>(before[i]@, amount, threshold, after[i]@, parts.0, parts.1));
    }
    (amount, values, kept)
}

/// Where nothing has to be rounded, every memory that decay leaves has lost exactly
/// the configured rate times the seconds, whatever the rate is.
pub proof fn law_exact_decay<A: Arithmetic, P>(
    delta_secs: Scalar,
    config: PerceptionConfig,
    before: Seq<Memory<P>>,
    after: Seq<Memory<P>>,
    lost: int,
    i: int,
    k: int,
) -> (j: int)
    requires
        exact::counts_exactly::<A>(),
        systems::faded_is::<A, P>(delta_secs, config, before, after),
        config.decay_rate.finite(),
        delta_secs.finite(),
        exact::units(config.decay_rate) * exact::units(delta_secs) == lost * exact::one(),
        exact::representable(lost),
        0 <= i < before.len(),
        forall|j: int|
            0 <= j < before[i]@.len() ==> (#[trigger] before[i]@[j]).value.finite()
                && exact::representable(exact::units(before[i]@[j].value) - lost),
        0 <= k < after[i]@.len(),
    ensures
        0 <= j < before[i]@.len(),
        after[i]@[k].percept == before[i]@[j].percept,
        exact::stands_for(after[i]@[k].value, exact::units(before[i]@[j].value) - lost),
{
    let (amount, values, kept) = law_decay_is_the_rate_times_the_seconds::<A, P>(
        delta_secs,
        config,
        before,
        after,
    );
    assert(exact::stands_for(amount, lost));
    let j = kept[i][k];
    assert(lessened::<A, P>(
        before[i]@,
        amount,
        config.min_threshold,
        after[i]@,
        values[i],
        kept[i],
    ));
    assert(before[i]@[j].value.finite());
    assert(arithmetic::minus_is::<A>(before[i]@[j].value, amount, values[i][j]));
    j
}

} // verus!
