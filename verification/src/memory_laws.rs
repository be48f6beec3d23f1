//! Laws of memories.

use crate::arithmetic;
use crate::arithmetic::Arithmetic;
use crate::config::PerceptionConfig;
use crate::memory;
use crate::memory::MemoryEntry;
use crate::message::PerceptionEvent;
use crate::scalar::Scalar;
use crate::systems;
use vstd::prelude::*;

verus! {

/// Whether every intensity is a number.
pub open spec fn all_numbers<P>(entries: Seq<MemoryEntry<P>>) -> bool {
    forall|i: int| 0 <= i < entries.len() ==> !(#[trigger] entries[i]).value.nan()
}

/// Whether the memories keep within a limit; a limit of zero is none.
pub open spec fn within_capacity<P>(entries: Seq<MemoryEntry<P>>, max_count: usize) -> bool {
    max_count > 0 ==> entries.len() <= max_count
}

/// Whether `places` are places in a list of `count`, ascending.
pub open spec fn ascending_places(places: Seq<int>, count: nat) -> bool {
    &&& forall|j: int| 0 <= j < places.len() ==> 0 <= #[trigger] places[j] < count
    &&& forall|j: int, k: int|
        0 <= j < k < places.len() ==> #[trigger] places[j] < #[trigger] places[k]
}

/// A memory that is pushed is the newest, and those before it keep their order:
/// each moves back by one place, and only the oldest can go.
pub proof fn law_pushed_is_newest<P>(
    entries: Seq<MemoryEntry<P>>,
    entry: MemoryEntry<P>,
    max_count: usize,
)
    ensures
        memory::pushed(entries, entry, max_count)[0] == entry,
        forall|i: int|
            1 <= i < memory::pushed(entries, entry, max_count).len() ==> #[trigger] memory::pushed(
                entries,
                entry,
                max_count,
            )[i] == entries[i - 1],
        memory::pushed(entries, entry, max_count).len() == if max_count > 0 && entries.len()
            >= max_count {
            entries.len()
        } else {
            entries.len() + 1
        },
{
}

/// Pushing keeps memories within their limit.
pub proof fn law_push_keeps_capacity<P>(
    entries: Seq<MemoryEntry<P>>,
    entry: MemoryEntry<P>,
    max_count: usize,
)
    requires
        within_capacity(entries, max_count),
    ensures
        within_capacity(memory::pushed(entries, entry, max_count), max_count),
{
}

/// An event keeps memories within their limit.
pub proof fn law_event_keeps_capacity<P>(
    entries: Seq<MemoryEntry<P>>,
    event: PerceptionEvent<P>,
    config: PerceptionConfig,
)
    requires
        within_capacity(entries, config.max_count),
    ensures
        within_capacity(systems::event_received(entries, event, config), config.max_count),
{
}

/// The strongest memory is the one with the highest intensity: none exceeds it,
/// and every older one is weaker.
pub proof fn law_strongest_is_highest<P>(entries: Seq<MemoryEntry<P>>)
    requires
        entries.len() > 0,
        all_numbers(entries),
    ensures
        0 <= memory::strongest_index(entries, entries.len()) < entries.len(),
        forall|i: int|
            0 <= i < entries.len() ==> (#[trigger] entries[i]).value.at_most(
                entries[memory::strongest_index(entries, entries.len())].value,
            ),
        forall|i: int|
            memory::strongest_index(entries, entries.len()) < i < entries.len() ==> (
            #[trigger] entries[i]).value.less(
                entries[memory::strongest_index(entries, entries.len())].value,
            ),
{
    lemma_strongest_prefix(entries, entries.len());
}

proof fn lemma_strongest_prefix<P>(entries: Seq<MemoryEntry<P>>, n: nat)
    requires
        0 < n <= entries.len(),
        all_numbers(entries),
    ensures
        0 <= memory::strongest_index(entries, n) < n,
        forall|i: int|
            0 <= i < n ==> (#[trigger] entries[i]).value.at_most(
                entries[memory::strongest_index(entries, n)].value,
            ),
        forall|i: int|
            memory::strongest_index(entries, n) < i < n ==> (#[trigger] entries[i]).value.less(
                entries[memory::strongest_index(entries, n)].value,
            ),
    decreases n,
{
    if n > 1 {
        lemma_strongest_prefix(entries, (n - 1) as nat);
    }
}

/// Decay keeps the order of memories, drops exactly those that come down to
/// the threshold or below, and changes nothing of the others but their
/// intensity.
pub proof fn law_decay_keeps_order<A: Arithmetic, P>(
    before: Seq<MemoryEntry<P>>,
    amount: Scalar,
    threshold: Scalar,
    after: Seq<MemoryEntry<P>>,
) -> (kept: (Seq<int>, Seq<Scalar>))
    requires
        memory::decayed_is::<A, P>(before, amount, threshold, after),
    ensures
        memory::reduced_is::<A, P>(before, amount, kept.1),
        ascending_places(kept.0, before.len()),
        forall|i: int|
            0 <= i < before.len() ==> (kept.0.contains(i) <==> threshold.less(
                #[trigger] kept.1[i],
            )),
        after.len() == kept.0.len(),
        forall|j: int|
            0 <= j < after.len() ==> #[trigger] after[j] == before[kept.0[j]].at_value(
                kept.1[kept.0[j]],
            ),
{
    let values = choose|values: Seq<Scalar>| #[trigger]
        memory::reduced_is::<A, P>(before, amount, values) && after == memory::surviving(
            before,
            values,
            threshold,
        );
    let places = lemma_surviving(before, values, threshold);
    (places, values)
}

proof fn lemma_surviving<P>(
    entries: Seq<MemoryEntry<P>>,
    values: Seq<Scalar>,
    threshold: Scalar,
) -> (places: Seq<int>)
    requires
        values.len() == entries.len(),
    ensures
        ascending_places(places, entries.len()),
        forall|i: int|
            0 <= i < entries.len() ==> (places.contains(i) <==> threshold.less(
                #[trigger] values[i],
            )),
        memory::surviving(entries, values, threshold).len() == places.len(),
        forall|j: int|
            0 <= j < places.len() ==> #[trigger] memory::surviving(entries, values, threshold)[j]
                == entries[places[j]].at_value(values[places[j]]),
    decreases entries.len(),
{
    if entries.len() == 0 {
        Seq::empty()
    } else {
        let last = entries.len() - 1;
        let rest = lemma_surviving(entries.drop_last(), values.drop_last(), threshold);
        let places = if threshold.less(values[last]) {
            rest.push(last)
        } else {
            rest
        };
        assert forall|i: int| 0 <= i < entries.len() implies (places.contains(i)
            <==> threshold.less(#[trigger] values[i])) by {
            if i < last {
                assert(values.drop_last()[i] == values[i]);
                if rest.contains(i) {
                    let j = choose|j: int| 0 <= j < rest.len() && rest[j] == i;
                    assert(places[j] == i);
                }
                if places.contains(i) {
                    let j = choose|j: int| 0 <= j < places.len() && places[j] == i;
                    assert(rest[j] == i);
                }
            } else {
                if threshold.less(values[last]) {
                    assert(places[rest.len() as int] == last);
                } else if places.contains(i) {
                    let j = choose|j: int| 0 <= j < places.len() && places[j] == i;
                    assert(rest[j] < last);
                }
            }
        }
        places
    }
}

/// What decay leaves is above the threshold.
pub proof fn law_decay_leaves_above_threshold<A: Arithmetic, P>(
    before: Seq<MemoryEntry<P>>,
    amount: Scalar,
    threshold: Scalar,
    after: Seq<MemoryEntry<P>>,
)
    requires
        memory::decayed_is::<A, P>(before, amount, threshold, after),
    ensures
        after.len() <= before.len(),
        forall|j: int| 0 <= j < after.len() ==> threshold.less((#[trigger] after[j]).value),
{
    let (places, values) = law_decay_keeps_order::<A, P>(before, amount, threshold, after);
    assert forall|j: int| 0 <= j < after.len() implies threshold.less(
        (#[trigger] after[j]).value,
    ) by {
        assert(places.contains(places[j]));
        assert(threshold.less(values[places[j]]));
    }
    assert(places.len() <= before.len()) by {
        lemma_places_count(places, before.len());
    }
}

/// Decay keeps memories within their limit.
pub proof fn law_decay_keeps_capacity<A: Arithmetic, P>(
    before: Seq<MemoryEntry<P>>,
    amount: Scalar,
    threshold: Scalar,
    after: Seq<MemoryEntry<P>>,
    max_count: usize,
)
    requires
        memory::decayed_is::<A, P>(before, amount, threshold, after),
        within_capacity(before, max_count),
    ensures
        within_capacity(after, max_count),
{
    law_decay_leaves_above_threshold::<A, P>(before, amount, threshold, after);
}

/// There are no more ascending places than a list has.
pub proof fn lemma_places_count(places: Seq<int>, count: nat)
    requires
        ascending_places(places, count),
    ensures
        places.len() <= count,
    decreases places.len(),
{
    if places.len() > 0 {
        let shorter = places.drop_last();
        assert forall|j: int| 0 <= j < shorter.len() implies 0 <= #[trigger] shorter[j]
            < places.last() by {
            assert(places[j] < places[places.len() - 1]);
        }
        assert forall|j: int, k: int| 0 <= j < k < shorter.len() implies #[trigger] shorter[j]
            < #[trigger] shorter[k] by {
            assert(places[j] < places[k]);
        }
        lemma_places_count(shorter, places.last() as nat);
    }
}

/// The sum of no memories is zero, whatever the arithmetic.
pub proof fn law_sum_of_nothing<A: Arithmetic>(total: Scalar)
    requires
        memory::total_from_is::<A>(
            Scalar::from_bits(crate::scalar::NEGATIVE_ZERO_BITS),
            Seq::empty(),
            total,
        ),
    ensures
        total.equals(Scalar::from_bits(crate::scalar::ZERO_BITS)),
{
}

/// Whether `sums` are the numbers that come out when the intensities of memories
/// are added in turn, newest first, each to what came out before.
pub open spec fn added_in_turn<A: Arithmetic, P>(
    entries: Seq<MemoryEntry<P>>,
    sums: Seq<Scalar>,
) -> bool {
    &&& sums.len() == entries.len() + 1
    &&& forall|i: int|
        0 <= i < entries.len() ==> arithmetic::plus_is::<A>(
            sums[i],
            (#[trigger] entries[i]).value,
            sums[i + 1],
        )
}

/// The sum of memories is what comes out when each intensity is added in turn,
/// from the zero that leaves every number unchanged.
pub proof fn law_sum_adds_each_in_turn<A: Arithmetic, P>(
    entries: Seq<MemoryEntry<P>>,
    total: Scalar,
) -> (sums: Seq<Scalar>)
    requires
        memory::total_from_is::<A>(
            Scalar::from_bits(crate::scalar::NEGATIVE_ZERO_BITS),
            memory::values_of(entries),
            total,
        ),
    ensures
        added_in_turn::<A, P>(entries, sums),
        sums[0].bits == 0x8000_0000,
        sums.last() == total,
{
    lemma_added_in_turn::<A, P>(
        Scalar::from_bits(crate::scalar::NEGATIVE_ZERO_BITS),
        entries,
        total,
    )
}

/// A total comes out of additions in turn.
pub proof fn lemma_added_in_turn<A: Arithmetic, P>(
    start: Scalar,
    entries: Seq<MemoryEntry<P>>,
    total: Scalar,
) -> (sums: Seq<Scalar>)
    requires
        memory::total_from_is::<A>(start, memory::values_of(entries), total),
    ensures
        added_in_turn::<A, P>(entries, sums),
        sums[0] == start,
        sums.last() == total,
    decreases entries.len(),
{
    let values = memory::values_of(entries);
    if entries.len() == 0 {
        seq![start]
    } else {
        let rest = entries.drop_last();
        assert(values.drop_last() =~= memory::values_of(rest));
        let before = choose|before: Scalar|
            memory::total_from_is::<A>(start, values.drop_last(), before)
                && #[trigger] arithmetic::plus_is::<A>(before, values.last(), total);
        let fewer = lemma_added_in_turn::<A, P>(start, rest, before);
        let sums = fewer.push(total);
        assert forall|i: int| 0 <= i < entries.len() implies arithmetic::plus_is::<A>(
            sums[i],
            (#[trigger] entries[i]).value,
            sums[i + 1],
        ) by {
            if i < rest.len() {
                assert(rest[i] == entries[i]);
            }
        }
        sums
    }
}

/// Every memory older than the strongest is weaker, whatever the intensities.
pub proof fn law_older_than_the_strongest_is_weaker<P>(entries: Seq<MemoryEntry<P>>)
    requires
        entries.len() > 0,
    ensures
        0 <= memory::strongest_index(entries, entries.len()) < entries.len(),
        forall|i: int|
            memory::strongest_index(entries, entries.len()) < i < entries.len() ==> (
            #[trigger] entries[i]).value.less(
                entries[memory::strongest_index(entries, entries.len())].value,
            ),
{
    lemma_older_is_weaker(entries, entries.len());
}

proof fn lemma_older_is_weaker<P>(entries: Seq<MemoryEntry<P>>, n: nat)
    requires
        0 < n <= entries.len(),
    ensures
        0 <= memory::strongest_index(entries, n) < n,
        forall|i: int|
            memory::strongest_index(entries, n) < i < n ==> (#[trigger] entries[i]).value.less(
                entries[memory::strongest_index(entries, n)].value,
            ),
    decreases n,
{
    if n > 1 {
        lemma_older_is_weaker(entries, (n - 1) as nat);
    }
}

/// With one more memory that is older than all others, that one is the strongest,
/// unless it is weaker than what was the strongest before; a memory alone is.
pub proof fn law_strongest_with_one_more<P>(entries: Seq<MemoryEntry<P>>, older: MemoryEntry<P>)
    ensures
        ({
            let all = entries.push(older);
            let best = memory::strongest_index(all, all.len());
            if entries.len() == 0 {
                best == 0
            } else {
                let before = memory::strongest_index(entries, entries.len());
                best == if older.value.less(entries[before].value) {
                    before
                } else {
                    entries.len() as int
                }
            }
        }),
{
    if entries.len() > 0 {
        lemma_older_is_weaker(entries, entries.len());
        lemma_strongest_of_fewer(entries, older, entries.len());
    }
}

proof fn lemma_strongest_of_fewer<P>(entries: Seq<MemoryEntry<P>>, older: MemoryEntry<P>, n: nat)
    requires
        0 < n <= entries.len(),
    ensures
        memory::strongest_index(entries.push(older), n) == memory::strongest_index(entries, n),
    decreases n,
{
    lemma_older_is_weaker(entries, n);
    if n > 1 {
        lemma_older_is_weaker(entries, (n - 1) as nat);
        lemma_strongest_of_fewer(entries, older, (n - 1) as nat);
    }
}

} // verus!
