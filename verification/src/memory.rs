//! Short-term memory of perceived stimuli.

use crate::arithmetic;
use crate::arithmetic::Arithmetic;
use crate::percept::Entity;
use crate::scalar::{Scalar, NEGATIVE_ZERO_BITS};
use crate::space::{Dir2, Vec2};
use std::collections::VecDeque;
use vstd::prelude::*;
use vstd::std_specs::iter::IteratorSpec;

verus! {

/// Spatial knowledge about a perceived stimulus.
#[derive(Clone, Copy, Debug)]
pub enum LocationKnowledge {
    /// Exact position of the stimulus source.
    Origin(Vec2),
    /// Direction toward the stimulus source, whose position is unknown.
    Direction(Dir2),
}

impl LocationKnowledge {
    /// `self == other`: one kind of knowledge, of equal points or directions.
    pub open spec fn equals(self, other: LocationKnowledge) -> bool {
        match (self, other) {
            (LocationKnowledge::Origin(a), LocationKnowledge::Origin(b)) => a.equals(b),
            (LocationKnowledge::Direction(a), LocationKnowledge::Direction(b)) => a.equals(b),
            _ => false,
        }
    }

    /// `direction` is what [`LocationKnowledge::direction_from`] may return.
    pub open spec fn direction_from_is<A: Arithmetic>(
        self,
        pos: Vec2,
        direction: Option<Dir2>,
    ) -> bool {
        match self {
            LocationKnowledge::Origin(origin) => exists|step: Vec2| #[trigger]
                origin.step_is::<A>(pos, step) && Dir2::direction_is::<A>(step, direction),
            LocationKnowledge::Direction(known) => direction == Some(known),
        }
    }

    /// The direction from `pos` toward the source, if there is one.
    pub fn direction_from<A: Arithmetic>(&self, pos: Vec2) -> (direction: Option<Dir2>)
        ensures
            self.direction_from_is::<A>(pos, direction),
    {
        match self {
            LocationKnowledge::Origin(origin) => Dir2::new::<A>(origin.step_from::<A>(pos)),
            LocationKnowledge::Direction(known) => Some(*known),
        }
    }

    /// The position of the source, if known.
    pub fn origin(&self) -> (position: Option<Vec2>)
        ensures
            position == match *self {
                LocationKnowledge::Origin(origin) => Some(origin),
                LocationKnowledge::Direction(_) => None,
            },
    {
        match self {
            LocationKnowledge::Origin(origin) => Some(*origin),
            LocationKnowledge::Direction(_) => None,
        }
    }
}

impl PartialEq for LocationKnowledge {
    fn eq(&self, other: &LocationKnowledge) -> (answer: bool) {
        match (self, other) {
            (LocationKnowledge::Origin(a), LocationKnowledge::Origin(b)) => *a == *b,
            (LocationKnowledge::Direction(a), LocationKnowledge::Direction(b)) => *a == *b,
            _ => false,
        }
    }
}

impl vstd::std_specs::cmp::PartialEqSpecImpl for LocationKnowledge {
    open spec fn obeys_eq_spec() -> bool {
        true
    }

    open spec fn eq_spec(&self, other: &LocationKnowledge) -> bool {
        self.equals(*other)
    }
}

/// A single memory of a perceived stimulus.
#[derive(Clone, Debug)]
pub struct MemoryEntry<P> {
    /// What kind of stimulus created this memory.
    pub percept: P,
    /// Current intensity, which decays over time.
    pub value: Scalar,
    /// Spatial knowledge about the stimulus source.
    pub location: Option<LocationKnowledge>,
    /// The entity that caused the stimulus, if known.
    pub source: Option<Entity>,
}

impl<P> MemoryEntry<P> {
    /// The memory at another intensity.
    pub open spec fn at_value(self, value: Scalar) -> MemoryEntry<P> {
        MemoryEntry { value, ..self }
    }

    /// The memory once its intensity has come down to `value`; none once that
    /// is not above `threshold`.
    pub fn faded(self, value: Scalar, threshold: Scalar) -> (left: Option<MemoryEntry<P>>)
        ensures
            left == if threshold.less(value) {
                Some(self.at_value(value))
            } else {
                None
            },
    {
        if value > threshold {
            Some(MemoryEntry { percept: self.percept, value, location: self.location, source: self.source })
        } else {
            None
        }
    }
}

/// The memories of an actor, newest first.
#[derive(Debug)]
pub struct Memory<P> {
    entries: VecDeque<MemoryEntry<P>>,
}

impl<P> View for Memory<P> {
    type V = Seq<MemoryEntry<P>>;

    closed spec fn view(&self) -> Seq<MemoryEntry<P>> {
        self.entries@
    }
}

/// `entries` with `entry` as the newest; where `max_count` limits the memories
/// and they have reached it, the oldest is gone.
pub open spec fn pushed<P>(
    entries: Seq<MemoryEntry<P>>,
    entry: MemoryEntry<P>,
    max_count: usize,
) -> Seq<MemoryEntry<P>> {
    if max_count > 0 && entries.len() >= max_count {
        seq![entry] + entries.drop_last()
    } else {
        seq![entry] + entries
    }
}

/// The intensities of the memories.
pub open spec fn values_of<P>(entries: Seq<MemoryEntry<P>>) -> Seq<Scalar> {
    Seq::new(entries.len(), |i: int| entries[i].value)
}

/// `total` is what adding `values` to `start`, one after the other, may return.
pub open spec fn total_from_is<A: Arithmetic>(
    start: Scalar,
    values: Seq<Scalar>,
    total: Scalar,
) -> bool
    decreases values.len(),
{
    if values.len() == 0 {
        total == start
    } else {
        exists|before: Scalar|
            total_from_is::<A>(start, values.drop_last(), before)
                && #[trigger] arithmetic::plus_is::<A>(before, values.last(), total)
    }
}

/// Index of the strongest of the first `n` memories: of those that no later one
/// equals or exceeds.
pub open spec fn strongest_index<P>(entries: Seq<MemoryEntry<P>>, n: nat) -> int
    recommends
        0 < n <= entries.len(),
    decreases n,
{
    if n <= 1 {
        0
    } else {
        let best = strongest_index(entries, (n - 1) as nat);
        if entries[n - 1].value.less(entries[best].value) {
            best
        } else {
            n - 1
        }
    }
}

/// What is left of `entries` once their intensities are `values`: those above
/// `threshold`, in order.
pub open spec fn surviving<P>(
    entries: Seq<MemoryEntry<P>>,
    values: Seq<Scalar>,
    threshold: Scalar,
) -> Seq<MemoryEntry<P>>
    decreases entries.len(),
{
    if entries.len() == 0 {
        Seq::empty()
    } else {
        let rest = surviving(entries.drop_last(), values.drop_last(), threshold);
        if threshold.less(values.last()) {
            rest.push(entries.last().at_value(values.last()))
        } else {
            rest
        }
    }
}

/// `values` is what subtracting `amount` from each intensity may return.
pub open spec fn reduced_is<A: Arithmetic, P>(
    entries: Seq<MemoryEntry<P>>,
    amount: Scalar,
    values: Seq<Scalar>,
) -> bool {
    &&& values.len() == entries.len()
    &&& forall|i: int|
        0 <= i < entries.len() ==> arithmetic::minus_is::<A>(
            entries[i].value,
            amount,
            #[trigger] values[i],
        )
}

/// `after` is what decaying `before` by `amount` may leave.
pub open spec fn decayed_is<A: Arithmetic, P>(
    before: Seq<MemoryEntry<P>>,
    amount: Scalar,
    threshold: Scalar,
    after: Seq<MemoryEntry<P>>,
) -> bool {
    exists|values: Seq<Scalar>| #[trigger]
        reduced_is::<A, P>(before, amount, values) && after == surviving(before, values, threshold)
}

impl<P> Default for Memory<P> {
    fn default() -> (memory: Memory<P>)
        ensures
            memory@.len() == 0,
    {
        Memory { entries: VecDeque::new() }
    }
}

impl<P> Memory<P> {
    /// Adds a memory as the newest, dropping the oldest at capacity.
    pub fn push(&mut self, entry: MemoryEntry<P>, max_count: usize)
        ensures
            final(self)@ == pushed(old(self)@, entry, max_count),
    {
        if max_count > 0 && self.entries.len() >= max_count {
            self.entries.pop_back();
        }
        self.entries.push_front(entry);
    }

    /// Sum of all current intensities, newest first.
    pub fn sum<A: Arithmetic>(&self) -> (total: Scalar)
        ensures
            total_from_is::<A>(Scalar::from_bits(NEGATIVE_ZERO_BITS), values_of(self@), total),
    {
        let start = Scalar::from_bits(NEGATIVE_ZERO_BITS);
        let mut total = start;
        let mut i: usize = 0;
        while i < self.entries.len()
            invariant
                0 <= i <= self.entries.len(),
                total_from_is::<A>(start, values_of(self@).take(i as int), total),
            decreases self.entries.len() - i,
        {
            let ghost before = total;
            total = A::plus(total, self.entries[i].value);
            proof {
                let values = values_of(self@).take(i + 1);
                assert(values.drop_last() =~= values_of(self@).take(i as int));
                assert(total_from_is::<A>(start, values.drop_last(), before));
                assert(arithmetic::plus_is::<A>(before, values.last(), total));
            }
            i += 1;
        }
        assert(values_of(self@).take(i as int) =~= values_of(self@));
        total
    }

    /// The place of the memory with the highest current intensity, counted from
    /// the newest, if there is any; of those that share it, the oldest's.
    pub fn strongest_place(&self) -> (place: Option<usize>)
        ensures
            match place {
                Some(place) => self@.len() > 0 && place == strongest_index(self@, self@.len()),
                None => self@.len() == 0,
            },
            place matches Some(place) ==> place < self@.len(),
    {
        if self.entries.len() == 0 {
            return None;
        }
        let mut best: usize = 0;
        let mut i: usize = 1;
        while i < self.entries.len()
            invariant
                1 <= i <= self.entries.len(),
                best < i,
                best == strongest_index(self@, i as nat),
            decreases self.entries.len() - i,
        {
            if !(self.entries[i].value < self.entries[best].value) {
                best = i;
            }
            i += 1;
        }
        Some(best)
    }

    /// The memory with the highest current intensity, if any; the oldest of
    /// those that share it.
    pub fn strongest(&self) -> (entry: Option<&MemoryEntry<P>>)
        ensures
            match entry {
                Some(entry) => self@.len() > 0 && *entry == self@[strongest_index(
                    self@,
                    self@.len(),
                )],
                None => self@.len() == 0,
            },
    {
        match self.strongest_place() {
            Some(place) => Some(&self.entries[place]),
            None => None,
        }
    }

    /// The memories, newest first.
    pub fn iter(&self) -> (entries: std::collections::vec_deque::Iter<'_, MemoryEntry<P>>)
        ensures
            entries.remaining() == self@.as_ref(),
    {
        self.entries.iter()
    }

    /// The memory at a place, counted from the newest.
    pub(crate) fn at(&self, index: usize) -> (entry: &MemoryEntry<P>)
        requires
            index < self@.len(),
        ensures
            *entry == self@[index as int],
    {
        &self.entries[index]
    }

    /// Number of memories.
    pub fn len(&self) -> (count: usize)
        ensures
            count == self@.len(),
    {
        self.entries.len()
    }

    /// Whether there are no memories.
    pub fn is_empty(&self) -> (empty: bool)
        ensures
            empty == (self@.len() == 0),
    {
        self.entries.len() == 0
    }

    /// Reduces every intensity by `amount` and drops the memories that are then
    /// not above `threshold`.
    pub fn decay<A: Arithmetic>(&mut self, amount: Scalar, threshold: Scalar)
        ensures
            decayed_is::<A, P>(old(self)@, amount, threshold, final(self)@),
    {
        let count: usize = self.entries.len();
        let ghost before = self@;
        let ghost mut values: Seq<Scalar> = Seq::empty();
        let mut i: usize = 0;
        while i < count
            invariant
                i <= count == before.len(),
                values.len() == i,
                reduced_is::<A, P>(before.take(i as int), amount, values),
                self@ == before.skip(i as int) + surviving(
                    before.take(i as int),
                    values,
                    threshold,
                ),
            decreases count - i,
        {
            let ghost kept = surviving(before.take(i as int), values, threshold);
            if let Some(entry) = self.entries.pop_front() {
                let value = A::minus(entry.value, amount);
                proof {
                    assert(entry == before[i as int]);
                    assert(self@ =~= before.skip(i + 1) + kept);
                    assert(before.take(i + 1).drop_last() =~= before.take(i as int));
                    assert(values.push(value).drop_last() =~= values);
                    values = values.push(value);
                    assert forall|k: int| 0 <= k < i + 1 implies arithmetic::minus_is::<A>(
                        before.take(i + 1)[k].value,
                        amount,
                        #[trigger] values[k],
                    ) by {
                        if k < i {
                            assert(before.take(i as int)[k] == before[k]);
                        }
                    }
                }
                if let Some(left) = entry.faded(value, threshold) {
                    self.entries.push_back(left);
                    assert(self@ =~= before.skip(i + 1) + kept.push(left));
                }
            }
            i += 1;
        }
        proof {
            assert(before.take(i as int) =~= before);
            assert(before.skip(i as int) =~= Seq::empty());
            assert(self@ =~= surviving(before, values, threshold));
        }
    }
}

} // verus!
