//! Summaries of an actor's memories, percept by percept.

use crate::arithmetic;
use crate::arithmetic::Arithmetic;
use crate::digest_map;
use crate::digest_map::{DigestMap, PerceptDigest};
use crate::memory;
use crate::memory::{Memory, MemoryEntry};
use crate::percept::Percept;
use crate::scalar::{Scalar, NEGATIVE_ZERO_BITS};
use core::hash::Hash;
use vstd::prelude::*;

verus! {

/// The memories of one percept, in order.
pub open spec fn of_percept<P>(entries: Seq<MemoryEntry<P>>, percept: P) -> Seq<MemoryEntry<P>> {
    entries.filter(|entry: MemoryEntry<P>| entry.percept == percept)
}

/// `digest` is what the summary of some memories of one percept may be.
pub open spec fn summary_is<A: Arithmetic, P>(
    entries: Seq<MemoryEntry<P>>,
    digest: PerceptDigest,
) -> bool {
    let strongest = entries[memory::strongest_index(entries, entries.len())];
    &&& entries.len() > 0
    &&& digest.strongest_value == strongest.value
    &&& digest.strongest_location == strongest.location
    &&& digest.strongest_source == strongest.source
    &&& memory::total_from_is::<A>(
        entries[0].value,
        memory::values_of(entries.drop_first()),
        digest.total_value,
    )
}

/// Whether there is a memory of the percept.
pub open spec fn remembers<P>(entries: Seq<MemoryEntry<P>>, percept: P) -> bool {
    exists|i: int| 0 <= i < entries.len() && (#[trigger] entries[i]).percept == percept
}

/// `digests` is what the summaries of some memories may be: one for each
/// percept among them.
pub open spec fn digest_is<A: Arithmetic, P>(
    entries: Seq<MemoryEntry<P>>,
    digests: Map<P, PerceptDigest>,
) -> bool {
    &&& forall|percept: P| #[trigger]
        digests.contains_key(percept) <==> remembers(entries, percept)
    &&& forall|percept: P| #[trigger]
        digests.contains_key(percept) ==> summary_is::<A, P>(
            of_percept(entries, percept),
            digests[percept],
        )
}

proof fn lemma_of_percept_step<P>(entries: Seq<MemoryEntry<P>>, i: int, percept: P)
    requires
        0 <= i < entries.len(),
    ensures
        of_percept(entries.take(i + 1), percept) == if entries[i].percept == percept {
            of_percept(entries.take(i), percept).push(entries[i])
        } else {
            of_percept(entries.take(i), percept)
        },
        remembers(entries.take(i + 1), percept) <==> remembers(entries.take(i), percept)
            || entries[i].percept == percept,
        remembers(entries.take(i), percept) <==> of_percept(entries.take(i), percept).len() > 0,
    decreases i,
{
    reveal(Seq::filter);
    let shorter = entries.take(i);
    let longer = entries.take(i + 1);
    assert(longer.drop_last() =~= shorter);
    if remembers(longer, percept) && entries[i].percept != percept {
        let k = choose|k: int| 0 <= k < longer.len() && (#[trigger] longer[k]).percept == percept;
        assert(shorter[k].percept == percept);
    }
    if remembers(shorter, percept) {
        let k = choose|k: int| 0 <= k < shorter.len() && (#[trigger] shorter[k]).percept == percept;
        assert(longer[k].percept == percept);
    }
    if entries[i].percept == percept {
        assert(longer[i].percept == percept);
    }
    if i > 0 {
        lemma_of_percept_step(entries, i - 1, percept);
    }
}

impl<P: Percept + Eq + Hash> Memory<P> {
    /// Summarizes the current memories percept by percept.
    pub fn digest<A: Arithmetic>(&self) -> (digests: DigestMap<P>)
        requires
            vstd::std_specs::hash::obeys_key_model::<P>(),
        ensures
            digest_is::<A, P>(self@, digests@),
    {
        let mut digests: DigestMap<P> = DigestMap::default();
        self.digest_into::<A>(&mut digests);
        digests
    }

    /// Refills `digests` with the summary of the current memories.
    pub fn digest_into<A: Arithmetic>(&self, digests: &mut DigestMap<P>)
        requires
            vstd::std_specs::hash::obeys_key_model::<P>(),
        ensures
            digest_is::<A, P>(self@, final(digests)@),
    {
        digests.clear();
        let count: usize = self.len();
        let mut i: usize = 0;
        while i < count
            invariant
                vstd::std_specs::hash::obeys_key_model::<P>(),
                i <= count == self@.len(),
                digest_is::<A, P>(self@.take(i as int), digests@),
            decreases count - i,
        {
            let entry = self.at(i);
            let ghost before = digests@;
            let ghost group = of_percept(self@.take(i as int), entry.percept);
            let updated = match digests.get(&entry.percept) {
                None => PerceptDigest {
                    strongest_value: entry.value,
                    strongest_location: entry.location,
                    strongest_source: entry.source,
                    total_value: entry.value,
                },
                Some(digest) => digest.joined_by::<A, P>(entry),
            };
            proof {
                let longer = self@.take(i + 1);
                lemma_of_percept_step(self@, i as int, entry.percept);
                lemma_summary_step::<A, P>(group, *entry, before[entry.percept], updated);
                assert forall|percept: P| #[trigger]
                    before.insert(entry.percept, updated).contains_key(percept) <==> remembers(
                        longer,
                        percept,
                    ) by {
                    lemma_of_percept_step(self@, i as int, percept);
                }
                assert forall|percept: P| #[trigger]
                    before.insert(entry.percept, updated).contains_key(
                        percept,
                    ) implies summary_is::<A, P>(
                    of_percept(longer, percept),
                    before.insert(entry.percept, updated)[percept],
                ) by {
                    lemma_of_percept_step(self@, i as int, percept);
                    if percept != entry.percept {
                        assert(before.contains_key(percept));
                    }
                }
            }
            digests.insert(entry.percept.duplicate(), updated);
            i += 1;
        }
        assert(self@.take(i as int) =~= self@);
    }
}

impl PerceptDigest {
    /// `digest` is what the summary may be with one more memory counted in.
    pub open spec fn joined_by_is<A: Arithmetic, P>(
        self,
        entry: MemoryEntry<P>,
        digest: PerceptDigest,
    ) -> bool {
        &&& arithmetic::plus_is::<A>(self.total_value, entry.value, digest.total_value)
        &&& if entry.value.less(self.strongest_value) {
            &&& digest.strongest_value == self.strongest_value
            &&& digest.strongest_location == self.strongest_location
            &&& digest.strongest_source == self.strongest_source
        } else {
            &&& digest.strongest_value == entry.value
            &&& digest.strongest_location == entry.location
            &&& digest.strongest_source == entry.source
        }
    }

    /// The summary with one more memory counted in, which is older than those
    /// before it: of equally strong memories the oldest is described.
    pub fn joined_by<A: Arithmetic, P>(&self, entry: &MemoryEntry<P>) -> (digest: PerceptDigest)
        ensures
            self.joined_by_is::<A, P>(*entry, digest),
    {
        let total_value = A::plus(self.total_value, entry.value);
        if !(entry.value < self.strongest_value) {
            PerceptDigest {
                strongest_value: entry.value,
                strongest_location: entry.location,
                strongest_source: entry.source,
                total_value,
            }
        } else {
            PerceptDigest {
                strongest_value: self.strongest_value,
                strongest_location: self.strongest_location,
                strongest_source: self.strongest_source,
                total_value,
            }
        }
    }
}

proof fn lemma_strongest_prefix<P>(entries: Seq<MemoryEntry<P>>, last: MemoryEntry<P>, n: nat)
    requires
        n <= entries.len(),
    ensures
        memory::strongest_index(entries.push(last), n) == memory::strongest_index(entries, n),
        n > 0 ==> 0 <= memory::strongest_index(entries, n) < n,
        0 <= memory::strongest_index(entries, n),
    decreases n,
{
    if n > 1 {
        lemma_strongest_prefix(entries, last, (n - 1) as nat);
    }
}

/// One more memory in a summary.
proof fn lemma_summary_step<A: Arithmetic, P>(
    group: Seq<MemoryEntry<P>>,
    entry: MemoryEntry<P>,
    digest: PerceptDigest,
    updated: PerceptDigest,
)
    requires
        if group.len() == 0 {
            &&& updated.strongest_value == entry.value
            &&& updated.strongest_location == entry.location
            &&& updated.strongest_source == entry.source
            &&& updated.total_value == entry.value
        } else {
            summary_is::<A, P>(group, digest) && digest.joined_by_is::<A, P>(entry, updated)
        },
    ensures
        summary_is::<A, P>(group.push(entry), updated),
{
    let longer = group.push(entry);
    lemma_strongest_prefix(group, entry, group.len());
    if group.len() == 0 {
        assert(memory::values_of(longer.drop_first()).len() == 0);
    } else {
        let values = memory::values_of(longer.drop_first());
        assert(values.drop_last() =~= memory::values_of(group.drop_first()));
        assert(values.last() == entry.value);
        assert(arithmetic::plus_is::<A>(digest.total_value, values.last(), updated.total_value));
    }
}

/// Summaries of an actor's memories, for hosts to read in place of the memories.
#[verifier::reject_recursive_types(P)]
pub struct MemoryDigest<P> {
    /// Summaries by percept.
    pub digests: DigestMap<P>,
}

impl<P> Default for MemoryDigest<P> {
    fn default() -> (digest: MemoryDigest<P>)
        ensures
            digest.digests@ == Map::<P, PerceptDigest>::empty(),
    {
        MemoryDigest { digests: DigestMap::default() }
    }
}

/// `value` is the greatest of the strongest values, in the total order; none
/// where there are no summaries.
pub open spec fn greatest_strongest<P>(
    digests: Map<P, PerceptDigest>,
    value: Option<Scalar>,
) -> bool {
    match value {
        Some(value) => {
            &&& exists|percept: P| #[trigger]
                digests.contains_key(percept) && digests[percept].strongest_value == value
            &&& forall|percept: P| #[trigger]
                digests.contains_key(percept) ==> digests[percept].strongest_value.total_rank()
                    <= value.total_rank()
        },
        None => digests == Map::<P, PerceptDigest>::empty(),
    }
}

/// The totals of some summaries.
pub open spec fn totals_of(values: Seq<PerceptDigest>) -> Seq<Scalar> {
    Seq::new(values.len(), |i: int| values[i].total_value)
}

/// `total` is what adding up the totals, in some order, may return.
pub open spec fn grand_total_is<A: Arithmetic, P>(
    digests: Map<P, PerceptDigest>,
    total: Scalar,
) -> bool {
    exists|values: Seq<PerceptDigest>| #[trigger]
        digest_map::lists_values(digests, values) && memory::total_from_is::<A>(
            Scalar::from_bits(NEGATIVE_ZERO_BITS),
            totals_of(values),
            total,
        )
}

/// `after` is what the summaries may be once they are brought up to date with
/// `entries`, and `written` whether they differed; where not, they stay.
pub open spec fn refreshed_is<A: Arithmetic, P>(
    entries: Seq<MemoryEntry<P>>,
    before: Map<P, PerceptDigest>,
    after: Map<P, PerceptDigest>,
    written: bool,
) -> bool {
    exists|fresh: Map<P, PerceptDigest>|
        {
            &&& #[trigger] digest_is::<A, P>(entries, fresh)
            &&& written == !digest_map::maps_equal(fresh, before)
            &&& after == if written {
                fresh
            } else {
                before
            }
        }
}

impl<P> MemoryDigest<P> {
    /// The strongest value across all percepts, if there are any.
    pub fn strongest_value(&self) -> (value: Option<Scalar>)
        ensures
            greatest_strongest(self.digests@, value),
    {
        let values = self.digests.values();
        let ghost keys = choose|keys: Seq<P>| #[trigger]
            digest_map::lists_keys(self.digests@, keys) && digest_map::values_by(
                self.digests@,
                keys,
                values@,
            );
        if values.len() == 0 {
            proof {
                assert forall|percept: P| !self.digests@.contains_key(percept) by {
                    assert(!keys.contains(percept));
                }
                assert(self.digests@ =~= Map::<P, PerceptDigest>::empty());
            }
            return None;
        }
        let mut best: usize = 0;
        let mut i: usize = 1;
        while i < values.len()
            invariant
                best < i <= values@.len(),
                forall|j: int|
                    0 <= j < i ==> (#[trigger] values@[j]).strongest_value.total_rank()
                        <= values@[best as int].strongest_value.total_rank(),
            decreases values.len() - i,
        {
            if values[i].strongest_value.total_key() >= values[best].strongest_value.total_key() {
                best = i;
            }
            i += 1;
        }
        proof {
            let value = values@[best as int].strongest_value;
            assert(keys.contains(keys[best as int]));
            assert(self.digests@.contains_key(keys[best as int]));
            assert forall|percept: P| #[trigger]
                self.digests@.contains_key(
                    percept,
                ) implies self.digests@[percept].strongest_value.total_rank()
                <= value.total_rank() by {
                assert(keys.contains(percept));
                let j = choose|j: int| 0 <= j < keys.len() && keys[j] == percept;
                assert(values@[j] == self.digests@[keys[j]]);
            }
        }
        Some(values[best].strongest_value)
    }

    /// The total value across all percepts.
    pub fn total_value<A: Arithmetic>(&self) -> (total: Scalar)
        ensures
            grand_total_is::<A, P>(self.digests@, total),
    {
        let values = self.digests.values();
        let start = Scalar::from_bits(NEGATIVE_ZERO_BITS);
        let mut total = start;
        let mut i: usize = 0;
        while i < values.len()
            invariant
                0 <= i <= values@.len(),
                memory::total_from_is::<A>(start, totals_of(values@).take(i as int), total),
            decreases values.len() - i,
        {
            let ghost before = total;
            total = A::plus(total, values[i].total_value);
            proof {
                let longer = totals_of(values@).take(i + 1);
                assert(longer.drop_last() =~= totals_of(values@).take(i as int));
                assert(arithmetic::plus_is::<A>(before, longer.last(), total));
            }
            i += 1;
        }
        assert(totals_of(values@).take(i as int) =~= totals_of(values@));
        total
    }
}

impl<P: Percept + Eq + Hash> MemoryDigest<P> {
    /// The summary of a percept, if there are memories of it.
    pub fn get(&self, percept: &P) -> (digest: Option<&PerceptDigest>)
        requires
            vstd::std_specs::hash::obeys_key_model::<P>(),
        ensures
            match digest {
                Some(digest) => self.digests@.contains_key(*percept) && *digest
                    == self.digests@[*percept],
                None => !self.digests@.contains_key(*percept),
            },
    {
        self.digests.get(percept)
    }

    /// Brings the summaries up to date with `memory` and returns whether they
    /// were written, which they are only where they differed. `scratch` is
    /// working storage.
    pub fn refresh<A: Arithmetic>(
        &mut self,
        memory: &Memory<P>,
        scratch: &mut DigestMap<P>,
    ) -> (written: bool)
        requires
            vstd::std_specs::hash::obeys_key_model::<P>(),
        ensures
            refreshed_is::<A, P>(memory@, old(self).digests@, final(self).digests@, written),
    {
        // Nothing remembered and nothing summarized: there is no work.
        if self.digests.is_empty() && memory.is_empty() {
            proof {
                let fresh = Map::<P, PerceptDigest>::empty();
                assert(digest_is::<A, P>(memory@, fresh));
                assert(digest_map::maps_equal(fresh, self.digests@));
            }
            return false;
        }
        memory.digest_into::<A>(scratch);
        if scratch.same(&self.digests) {
            false
        } else {
            std::mem::swap(&mut self.digests, scratch);
            true
        }
    }
}

/// Brings the summaries of actors up to date with their memories. Returns, for
/// each actor, whether its summaries were written. `scratch` is working storage.
pub fn update_memory_digest<A: Arithmetic, P: Percept + Eq + Hash>(
    actors: &mut Vec<(MemoryDigest<P>, Memory<P>)>,
    scratch: &mut DigestMap<P>,
) -> (written: Vec<bool>)
    requires
        vstd::std_specs::hash::obeys_key_model::<P>(),
    ensures
        final(actors)@.len() == old(actors)@.len(),
        written@.len() == old(actors)@.len(),
        forall|i: int|
            0 <= i < old(actors)@.len() ==> (#[trigger] final(actors)@[i]).1 == old(actors)@[i].1
                && refreshed_is::<A, P>(
                old(actors)@[i].1@,
                old(actors)@[i].0.digests@,
                final(actors)@[i].0.digests@,
                written@[i],
            ),
{
    let ghost before = actors@;
    let mut written: Vec<bool> = Vec::new();
    let mut i: usize = 0;
    while i < actors.len()
        invariant
            vstd::std_specs::hash::obeys_key_model::<P>(),
            0 <= i <= actors@.len() == before.len(),
            written@.len() == i,
            forall|k: int|
                0 <= k < i ==> (#[trigger] actors@[k]).1 == before[k].1 && refreshed_is::<A, P>(
                    before[k].1@,
                    before[k].0.digests@,
                    actors@[k].0.digests@,
                    written@[k],
                ),
            forall|k: int| i <= k < before.len() ==> #[trigger] actors@[k] == before[k],
        decreases actors.len() - i,
    {
        let actor = &mut actors[i];
        let changed = actor.0.refresh::<A>(&actor.1, scratch);
        written.push(changed);
        i += 1;
    }
    written
}

} // verus!
