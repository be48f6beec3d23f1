//! What a frame of broadcasts leaves in the memories of actors, told by the fields
//! of messages and memories.

use crate::arithmetic;
use crate::arithmetic::Arithmetic;
use crate::config::PerceptionConfig;
use crate::conservative_laws;
use crate::exact;
use crate::hearing_laws;
use crate::hearing_laws::Hearing;
use crate::memory::{LocationKnowledge, MemoryEntry};
use crate::merge;
use crate::message::PerceptionMessage;
use crate::percept::Percept;
use crate::propagation;
use crate::propagation::{Perceiver, Route};
use crate::propagation_laws;
use crate::rounding;
use crate::scalar::Scalar;
use vstd::prelude::*;

verus! {

/// How a frame came about for one actor.
pub struct Frame<P> {
    /// The places of the messages that can reach anyone.
    pub sent: Seq<int>,
    /// What these are folded into.
    pub batch: Seq<PerceptionMessage<P>>,
    /// The numbers by which the actor hears each of those.
    pub hearings: Seq<Hearing>,
    /// The places of those that it comes to remember.
    pub heard: Seq<int>,
}

/// Whether places are in a list of `count`, and ascend.
pub open spec fn in_order(places: Seq<int>, count: nat) -> bool {
    &&& forall|j: int| 0 <= j < places.len() ==> 0 <= #[trigger] places[j] < count
    &&& forall|j: int, k: int|
        0 <= j < k < places.len() ==> #[trigger] places[j] < #[trigger] places[k]
}

/// The number, or zero where it is below zero or none.
pub open spec fn not_below_zero(number: Scalar) -> Scalar {
    if number.nan() || number.less(Scalar { bits: 0 }) {
        Scalar { bits: 0 }
    } else {
        number
    }
}

/// The messages of a frame that go further are, in order, those whose range is at
/// least zero and whose base intensity, or zero, is above the threshold.
pub proof fn law_sent_are_those_that_can_reach<P>(
    messages: Seq<PerceptionMessage<P>>,
    threshold: Scalar,
) -> (sent: Seq<int>)
    ensures
        in_order(sent, messages.len()),
        forall|i: int|
            0 <= i < messages.len() ==> (sent.contains(i) <==> (Scalar { bits: 0 }).at_most(
                (#[trigger] messages[i]).range,
            ) && threshold.less(not_below_zero(messages[i].base_value))),
        propagation::admitted(messages, threshold) == Seq::new(
            sent.len(),
            |j: int| messages[sent[j]],
        ),
    decreases messages.len(),
{
    reveal(Seq::filter);
    let admitted = propagation::admitted(messages, threshold);
    if messages.len() == 0 {
        let sent = Seq::<int>::empty();
        assert(admitted =~= Seq::new(sent.len(), |j: int| messages[sent[j]]));
        sent
    } else {
        let rest = messages.drop_last();
        let last = messages.len() - 1;
        let fewer = law_sent_are_those_that_can_reach(rest, threshold);
        let reaches = propagation::admissible(messages[last], threshold);
        let sent = if reaches {
            fewer.push(last)
        } else {
            fewer
        };
        assert(admitted =~= Seq::new(sent.len(), |j: int| messages[sent[j]]));
        assert forall|i: int| 0 <= i < messages.len() implies (sent.contains(i) <==> (Scalar {
            bits: 0,
        }).at_most((#[trigger] messages[i]).range) && threshold.less(
            not_below_zero(messages[i].base_value),
        )) by {
            lemma_pushed_contains(fewer, last, reaches, i);
            if i < last {
                assert(rest[i] == messages[i]);
            }
        }
        sent
    }
}

/// What a list of places contains once a greater one may have been added.
proof fn lemma_pushed_contains(fewer: Seq<int>, last: int, added: bool, i: int)
    requires
        in_order(fewer, last as nat),
        0 <= i <= last,
    ensures
        ({
            let all = if added {
                fewer.push(last)
            } else {
                fewer
            };
            all.contains(i) <==> if i == last {
                added
            } else {
                fewer.contains(i)
            }
        }),
{
    let all = if added {
        fewer.push(last)
    } else {
        fewer
    };
    if fewer.contains(i) {
        let j = choose|j: int| 0 <= j < fewer.len() && fewer[j] == i;
        assert(all[j] == i);
        assert(fewer[j] < last);
    }
    if added {
        assert(all[fewer.len() as int] == last);
    }
    if all.contains(i) && i < last {
        let j = choose|j: int| 0 <= j < all.len() && all[j] == i;
        assert(fewer[j] == i);
    }
}

/// Of the memories that an actor had and those that it gained on top, so many are
/// left.
pub open spec fn left_over(had: nat, gained: nat, max_count: usize) -> nat {
    if max_count == 0 || had + gained <= max_count {
        had + gained
    } else if had >= max_count {
        had
    } else {
        max_count as nat
    }
}

/// The places of the outcomes that are memories; the memories stand on top of
/// those that were there, the latest first, and the oldest go.
proof fn lemma_received<P>(
    before: Seq<MemoryEntry<P>>,
    entries: Seq<Option<MemoryEntry<P>>>,
    max_count: usize,
) -> (heard: Seq<int>)
    ensures
        in_order(heard, entries.len()),
        forall|j: int|
            0 <= j < entries.len() ==> (heard.contains(j) <==> #[trigger] entries[j] is Some),
        forall|k: int| 0 <= k < heard.len() ==> entries[#[trigger] heard[k]] is Some,
        propagation::gain(entries) == heard.len(),
        propagation::received(before, entries, max_count).len() == left_over(
            before.len(),
            heard.len(),
            max_count,
        ),
        forall|i: int|
            0 <= i < propagation::received(before, entries, max_count).len()
                ==> #[trigger] propagation::received(before, entries, max_count)[i] == if i
                < heard.len() {
                entries[heard[heard.len() - 1 - i]]->0
            } else {
                before[i - heard.len()]
            },
    decreases entries.len(),
{
    if entries.len() == 0 {
        Seq::empty()
    } else {
        let last = entries.len() - 1;
        let rest = entries.drop_last();
        let fewer = lemma_received(before, rest, max_count);
        let heard = if entries[last] is Some {
            fewer.push(last)
        } else {
            fewer
        };
        assert forall|j: int| 0 <= j < entries.len() implies (heard.contains(j)
            <==> #[trigger] entries[j] is Some) by {
            lemma_pushed_contains(fewer, last, entries[last] is Some, j);
            if j < last {
                assert(rest[j] == entries[j]);
            }
        }
        assert forall|k: int| 0 <= k < heard.len() implies entries[#[trigger] heard[k]] is Some by {
            if k < fewer.len() {
                assert(rest[fewer[k]] is Some);
                assert(rest[fewer[k]] == entries[fewer[k]]);
            }
        }
        let older = propagation::received(before, rest, max_count);
        let all = propagation::received(before, entries, max_count);
        assert forall|i: int| 0 <= i < all.len() implies #[trigger] all[i] == if i < heard.len() {
            entries[heard[heard.len() - 1 - i]]->0
        } else {
            before[i - heard.len()]
        } by {
            if entries[last] is Some {
                if i > 0 {
                    assert(all[i] == older[i - 1]);
                    if i - 1 < fewer.len() {
                        let k = fewer.len() - 1 - (i - 1);
                        assert(heard[heard.len() - 1 - i] == fewer[k]);
                        assert(rest[fewer[k]] == entries[fewer[k]]);
                    }
                }
            } else if i < fewer.len() {
                let k = fewer.len() - 1 - i;
                assert(all[i] == older[i]);
                assert(rest[fewer[k]] == entries[fewer[k]]);
            } else {
                assert(all[i] == older[i]);
            }
        }
        heard
    }
}

/// What a frame leaves in the memories of an actor.
///
/// The messages that can reach anyone are folded, and the actor hears each message
/// of the batch that it did not cause, by distance and range. Each that it comes to
/// remember is a memory of its percept and source, with its origin as the place, at
/// the base intensity less twenty times the logarithm of the distance, or zero. The
/// memories stand on top of those it had, the latest message first; nothing else
/// of the actor changes.
pub proof fn law_frame_by_the_fields<A: Arithmetic, P: Percept>(
    messages: Seq<PerceptionMessage<P>>,
    config: PerceptionConfig,
    before: Seq<Perceiver<P>>,
    after: Seq<Perceiver<P>>,
    gained: Seq<usize>,
    p: int,
) -> (f: Frame<P>)
    requires
        exact::answers::<A>(),
        rounding::keeps_order::<A>(),
        messages.len() <= u32::MAX,
        propagation::propagated::<A, P>(messages, config, before, after, gained),
        0 <= p < before.len(),
    ensures
        in_order(f.sent, messages.len()),
        forall|i: int|
            0 <= i < messages.len() ==> (f.sent.contains(i) <==> (Scalar { bits: 0 }).at_most(
                (#[trigger] messages[i]).range,
            ) && config.min_threshold.less(not_below_zero(messages[i].base_value))),
        merge::merging_is::<A, P>(
            Seq::new(f.sent.len(), |j: int| messages[f.sent[j]]),
            config.merge_radius,
            f.batch,
        ),
        f.hearings.len() == f.batch.len(),
        in_order(f.heard, f.batch.len()),
        forall|j: int|
            #![trigger f.batch[j]]
            0 <= j < f.batch.len() && f.batch[j].source == Some(before[p].entity)
                ==> !f.heard.contains(j),
        forall|j: int|
            #![trigger f.hearings[j]]
            0 <= j < f.batch.len() && f.batch[j].source != Some(before[p].entity) ==> {
                let (m, h, position) = (f.batch[j], f.hearings[j], before[p].position);
                &&& arithmetic::minus_is::<A>(position.x, m.origin.x, h.dx)
                &&& arithmetic::minus_is::<A>(position.y, m.origin.y, h.dy)
                &&& arithmetic::times_is::<A>(h.dx, h.dx, h.xx)
                &&& arithmetic::times_is::<A>(h.dy, h.dy, h.yy)
                &&& arithmetic::plus_is::<A>(h.xx, h.yy, h.distance_sq)
                &&& arithmetic::times_is::<A>(m.range, m.range, h.range_sq)
                &&& h.range_sq.less(h.distance_sq) ==> !f.heard.contains(j)
                &&& !h.range_sq.less(h.distance_sq) ==> {
                    &&& arithmetic::square_root_is::<A>(h.distance_sq, h.distance)
                    &&& if h.distance.at_most(Scalar { bits: 0x3f80_0000 }) {
                        h.loss.bits == 0
                    } else {
                        &&& arithmetic::log10_is::<A>(h.distance, h.decades)
                        &&& arithmetic::times_is::<A>(
                            Scalar { bits: 0x41a0_0000 },
                            h.decades,
                            h.loss,
                        )
                    }
                    &&& arithmetic::minus_is::<A>(m.base_value, h.loss, h.left)
                    &&& f.heard.contains(j) <==> !not_below_zero(h.left).at_most(
                        config.min_threshold,
                    )
                }
            },
        after.len() == before.len() == gained.len(),
        after[p].entity == before[p].entity,
        after[p].position == before[p].position,
        gained[p] == f.heard.len(),
        after[p].memory@.len() == left_over(
            before[p].memory@.len(),
            f.heard.len(),
            config.max_count,
        ),
        forall|i: int|
            #![trigger after[p].memory@[i]]
            0 <= i < after[p].memory@.len() && i < f.heard.len() ==> {
                let (entry, j) = (after[p].memory@[i], f.heard[f.heard.len() - 1 - i]);
                &&& entry.percept == f.batch[j].percept
                &&& entry.value == not_below_zero(f.hearings[j].left)
                &&& entry.location == Some(LocationKnowledge::Origin(f.batch[j].origin))
                &&& entry.source == f.batch[j].source
            },
        forall|i: int|
            f.heard.len() <= i < after[p].memory@.len() ==> #[trigger] after[p].memory@[i]
                == before[p].memory@[i - f.heard.len()],
{
    let threshold = config.min_threshold;
    let (entity, position) = (before[p].entity, before[p].position);
    let admitted = propagation::admitted(messages, threshold);
    let sent = law_sent_are_those_that_can_reach(messages, threshold);
    propagation_laws::lemma_admitted(messages, threshold);
    conservative_laws::law_propagation_is_exhaustive::<A, P>(
        messages,
        config,
        before,
        after,
        gained,
    );
    let batch = choose|batch: Seq<PerceptionMessage<P>>|
        {
            &&& #[trigger] merge::merging_is::<A, P>(admitted, config.merge_radius, batch)
            &&& propagation::delivered::<A, P>(
                batch,
                Route::Exhaustive,
                config,
                before,
                after,
                gained,
            )
        };
    propagation_laws::law_merging_makes_up_nothing::<A, P>(admitted, config.merge_radius, batch);
    assert(propagation::perceiver_delivered::<A, P>(
        batch,
        Route::Exhaustive,
        config,
        before[p],
        after[p],
        gained[p] as nat,
    ));
    let places = propagation::all_places(batch.len());
    let entries = choose|entries: Seq<Option<MemoryEntry<P>>>|
        {
            &&& #[trigger] propagation::outcomes_are::<A, P>(
                batch,
                places,
                entity,
                position,
                threshold,
                entries,
            )
            &&& after[p].memory@ == propagation::received(
                before[p].memory@,
                entries,
                config.max_count,
            )
            &&& gained[p] == propagation::gain(entries)
        };
    let heard = lemma_received(before[p].memory@, entries, config.max_count);
    let hearings = Seq::new(
        batch.len(),
        |j: int|
            choose|h: Hearing| #[trigger]
                told_by::<A, P>(batch[j], position, threshold, value_of(entries[j]), h),
    );
    let f = Frame { sent, batch, hearings, heard };
    assert forall|j: int| 0 <= j < batch.len() && batch[j].source != Some(entity) implies told_by::<
        A,
        P,
    >(batch[j], position, threshold, value_of(entries[j]), #[trigger] hearings[j]) by {
        assert(propagation::outcome_is::<A, P>(
            batch[places[j] as int],
            entity,
            position,
            threshold,
            entries[j],
        ));
        let h = hearing_laws::law_heard_by_the_numbers::<A, P>(
            batch[j],
            position,
            threshold,
            value_of(entries[j]),
        );
        assert(told_by::<A, P>(batch[j], position, threshold, value_of(entries[j]), h));
    }
    assert forall|j: int|
        #![trigger batch[j]]
        0 <= j < batch.len() && batch[j].source == Some(entity) implies !heard.contains(j) by {
        assert(propagation::outcome_is::<A, P>(
            batch[places[j] as int],
            entity,
            position,
            threshold,
            entries[j],
        ));
    }
    assert forall|i: int|
        #![trigger after[p].memory@[i]]
        0 <= i < after[p].memory@.len() && i < heard.len() implies {
        let (entry, j) = (after[p].memory@[i], heard[heard.len() - 1 - i]);
        &&& entry.percept == batch[j].percept
        &&& entry.value == not_below_zero(hearings[j].left)
        &&& entry.location == Some(LocationKnowledge::Origin(batch[j].origin))
        &&& entry.source == batch[j].source
    } by {
        let j = heard[heard.len() - 1 - i];
        assert(entries[j] is Some);
        assert(propagation::outcome_is::<A, P>(
            batch[places[j] as int],
            entity,
            position,
            threshold,
            entries[j],
        ));
        assert(told_by::<A, P>(batch[j], position, threshold, value_of(entries[j]), hearings[j]));
    }
    assert forall|j: int|
        0 <= j < batch.len() && batch[j].source != Some(entity) && !hearings[j].range_sq.less(
            hearings[j].distance_sq,
        ) implies (heard.contains(j) <==> !not_below_zero((#[trigger] hearings[j]).left).at_most(
        threshold,
    )) by {
        assert(told_by::<A, P>(batch[j], position, threshold, value_of(entries[j]), hearings[j]));
        assert(entries[j] is Some <==> value_of(entries[j]) is Some);
    }
    f
}

/// The intensity of a memory, if there is one.
spec fn value_of<P>(entry: Option<MemoryEntry<P>>) -> Option<Scalar> {
    match entry {
        Some(entry) => Some(entry.value),
        None => None,
    }
}

/// Whether these are the numbers by which a message is heard.
spec fn told_by<A: Arithmetic, P>(
    m: PerceptionMessage<P>,
    position: crate::space::Vec2,
    threshold: Scalar,
    value: Option<Scalar>,
    h: Hearing,
) -> bool {
    &&& arithmetic::minus_is::<A>(position.x, m.origin.x, h.dx)
    &&& arithmetic::minus_is::<A>(position.y, m.origin.y, h.dy)
    &&& arithmetic::times_is::<A>(h.dx, h.dx, h.xx)
    &&& arithmetic::times_is::<A>(h.dy, h.dy, h.yy)
    &&& arithmetic::plus_is::<A>(h.xx, h.yy, h.distance_sq)
    &&& arithmetic::times_is::<A>(m.range, m.range, h.range_sq)
    &&& if h.range_sq.less(h.distance_sq) {
        value is None
    } else {
        &&& arithmetic::square_root_is::<A>(h.distance_sq, h.distance)
        &&& if h.distance.at_most(Scalar { bits: 0x3f80_0000 }) {
            h.loss.bits == 0
        } else {
            &&& arithmetic::log10_is::<A>(h.distance, h.decades)
            &&& arithmetic::times_is::<A>(Scalar { bits: 0x41a0_0000 }, h.decades, h.loss)
        }
        &&& arithmetic::minus_is::<A>(m.base_value, h.loss, h.left)
        &&& value == if not_below_zero(h.left).at_most(threshold) {
            None
        } else {
            Some(not_below_zero(h.left))
        }
    }
}

} // verus!
