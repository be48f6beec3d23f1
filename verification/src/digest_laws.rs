//! Laws of memory summaries.

use crate::arithmetic;
use crate::arithmetic::Arithmetic;
use crate::digest;
use crate::digest_map;
use crate::digest_map::PerceptDigest;
use crate::exact;
use crate::memory;
use crate::memory::{LocationKnowledge, MemoryEntry};
use crate::memory_laws;
use crate::scalar::{Scalar, NEGATIVE_ZERO_BITS, ZERO_BITS};
use vstd::prelude::*;

verus! {

/// Whether `entry` is where the strongest fields of a summary come from.
pub open spec fn describes<P>(digest: PerceptDigest, entry: MemoryEntry<P>) -> bool {
    &&& digest.strongest_value == entry.value
    &&& digest.strongest_location == entry.location
    &&& digest.strongest_source == entry.source
}

/// An actor without memories has no summaries.
pub proof fn law_nothing_remembered_nothing_summarized<A: Arithmetic, P>(
    digests: Map<P, PerceptDigest>,
)
    requires
        digest::digest_is::<A, P>(Seq::empty(), digests),
    ensures
        digests == Map::<P, PerceptDigest>::empty(),
{
    assert forall|percept: P| !digests.contains_key(percept) by {
        assert(digests.contains_key(percept) <==> digest::remembers(
            Seq::<MemoryEntry<P>>::empty(),
            percept,
        ));
    }
    assert(digests =~= Map::<P, PerceptDigest>::empty());
}

/// The memories of a percept are the memories that have it, in order.
proof fn lemma_of_percept<P>(entries: Seq<MemoryEntry<P>>, percept: P) -> (places: Seq<int>)
    ensures
        memory_laws::ascending_places(places, entries.len()),
        places.len() == digest::of_percept(entries, percept).len(),
        forall|k: int|
            0 <= k < places.len() ==> #[trigger] digest::of_percept(entries, percept)[k]
                == entries[places[k]],
        forall|i: int|
            0 <= i < entries.len() ==> ((#[trigger] entries[i]).percept == percept
                <==> places.contains(i)),
    decreases entries.len(),
{
    reveal(Seq::filter);
    if entries.len() == 0 {
        Seq::empty()
    } else {
        let shorter = entries.drop_last();
        let last = entries.len() - 1;
        let rest = lemma_of_percept(shorter, percept);
        let places = if entries[last].percept == percept {
            rest.push(last)
        } else {
            rest
        };
        assert forall|i: int| 0 <= i < entries.len() implies ((#[trigger] entries[i]).percept
            == percept <==> places.contains(i)) by {
            if i < last {
                assert(shorter[i] == entries[i]);
                if rest.contains(i) {
                    let j = choose|j: int| 0 <= j < rest.len() && rest[j] == i;
                    assert(places[j] == i);
                }
                if places.contains(i) {
                    let j = choose|j: int| 0 <= j < places.len() && places[j] == i;
                    assert(rest[j] == i);
                }
            } else if entries[last].percept == percept {
                assert(places[rest.len() as int] == last);
            } else if places.contains(i) {
                let j = choose|j: int| 0 <= j < rest.len() && rest[j] == i;
                assert(rest[j] < shorter.len());
            }
        }
        places
    }
}

/// The strongest fields of a summary describe one memory of the percept, be the
/// values positive or negative: no memory of the percept is stronger, and every
/// older one is weaker.
pub proof fn law_summary_describes_strongest<A: Arithmetic, P>(
    entries: Seq<MemoryEntry<P>>,
    digests: Map<P, PerceptDigest>,
    percept: P,
) -> (at: int)
    requires
        digest::digest_is::<A, P>(entries, digests),
        digests.contains_key(percept),
        memory_laws::all_numbers(entries),
    ensures
        0 <= at < entries.len(),
        entries[at].percept == percept,
        describes(digests[percept], entries[at]),
        forall|i: int|
            0 <= i < entries.len() && (#[trigger] entries[i]).percept == percept
                ==> entries[i].value.at_most(entries[at].value),
        forall|i: int|
            at < i < entries.len() && (#[trigger] entries[i]).percept == percept
                ==> entries[i].value.less(entries[at].value),
{
    let group = digest::of_percept(entries, percept);
    let places = lemma_of_percept(entries, percept);
    assert(digest::summary_is::<A, P>(group, digests[percept]));
    assert(memory_laws::all_numbers(group)) by {
        assert forall|k: int| 0 <= k < group.len() implies !(#[trigger] group[k]).value.nan() by {
            assert(!entries[places[k]].value.nan());
        }
    }
    memory_laws::law_strongest_is_highest(group);
    let best = memory::strongest_index(group, group.len());
    let at = places[best];
    assert(places.contains(at));
    assert forall|i: int| 0 <= i < entries.len() && (#[trigger] entries[i]).percept
        == percept implies entries[i].value.at_most(entries[at].value) && (at < i
        ==> entries[i].value.less(entries[at].value)) by {
        let k = choose|k: int| 0 <= k < places.len() && places[k] == i;
        assert(group[k] == entries[i]);
        assert(group[k].value.at_most(group[best].value));
        if at < i && k < best {
            assert(places[k] < places[best]);
        }
    }
    at
}

/// The summary of the strongest memory's percept describes that very memory.
pub proof fn law_summary_matches_strongest<A: Arithmetic, P>(
    entries: Seq<MemoryEntry<P>>,
    digests: Map<P, PerceptDigest>,
)
    requires
        entries.len() > 0,
        digest::digest_is::<A, P>(entries, digests),
        memory_laws::all_numbers(entries),
    ensures
        ({
            let best = memory::strongest_index(entries, entries.len());
            let percept = entries[best].percept;
            digests.contains_key(percept) && describes(digests[percept], entries[best])
        }),
{
    memory_laws::law_strongest_is_highest(entries);
    let best = memory::strongest_index(entries, entries.len());
    let percept = entries[best].percept;
    assert(digest::remembers(entries, percept));
    assert(digests.contains_key(percept));
    let at = law_summary_describes_strongest::<A, P>(entries, digests, percept);
    assert(entries[at].value.at_most(entries[best].value));
    assert(entries[best].value.at_most(entries[at].value));
}

/// The strongest value across all summaries is the value of the strongest
/// memory; there is none where nothing is remembered.
pub proof fn law_strongest_value_matches_strongest<A: Arithmetic, P>(
    entries: Seq<MemoryEntry<P>>,
    digests: Map<P, PerceptDigest>,
    value: Option<Scalar>,
)
    requires
        digest::digest_is::<A, P>(entries, digests),
        memory_laws::all_numbers(entries),
        digest::greatest_strongest(digests, value),
    ensures
        value is Some <==> entries.len() > 0,
        value matches Some(value) ==> value.equals(
            entries[memory::strongest_index(entries, entries.len())].value,
        ),
{
    if entries.len() == 0 {
        assert(entries =~= Seq::empty());
        law_nothing_remembered_nothing_summarized::<A, P>(digests);
    } else {
        law_summary_matches_strongest::<A, P>(entries, digests);
        memory_laws::law_strongest_is_highest(entries);
        let best = memory::strongest_index(entries, entries.len());
        let percept = entries[best].percept;
        assert(digests.contains_key(percept));
        if let Some(value) = value {
            let other = choose|other: P| #[trigger]
                digests.contains_key(other) && digests[other].strongest_value == value;
            let at = law_summary_describes_strongest::<A, P>(entries, digests, other);
            assert(entries[at].value.at_most(entries[best].value));
            assert(digests[percept].strongest_value.total_rank() <= value.total_rank());
        }
    }
}

/// Whether adding two numbers has one result.
pub open spec fn addition_settled<A: Arithmetic>() -> bool {
    forall|a: Scalar, b: Scalar, r: Scalar, s: Scalar| #[trigger]
        arithmetic::plus_is::<A>(a, b, r) && #[trigger] arithmetic::plus_is::<A>(a, b, s) ==> r == s
}

proof fn lemma_total_settled<A: Arithmetic>(
    start: Scalar,
    values: Seq<Scalar>,
    a: Scalar,
    b: Scalar,
)
    requires
        addition_settled::<A>(),
        memory::total_from_is::<A>(start, values, a),
        memory::total_from_is::<A>(start, values, b),
    ensures
        a == b,
    decreases values.len(),
{
    if values.len() > 0 {
        let x = choose|x: Scalar|
            memory::total_from_is::<A>(start, values.drop_last(), x)
                && #[trigger] arithmetic::plus_is::<A>(x, values.last(), a);
        let y = choose|y: Scalar|
            memory::total_from_is::<A>(start, values.drop_last(), y)
                && #[trigger] arithmetic::plus_is::<A>(y, values.last(), b);
        lemma_total_settled::<A>(start, values.drop_last(), x, y);
    }
}

/// Memories have one set of summaries, as far as sums have one result.
pub proof fn law_summaries_are_settled<A: Arithmetic, P>(
    entries: Seq<MemoryEntry<P>>,
    a: Map<P, PerceptDigest>,
    b: Map<P, PerceptDigest>,
)
    requires
        addition_settled::<A>(),
        digest::digest_is::<A, P>(entries, a),
        digest::digest_is::<A, P>(entries, b),
    ensures
        a == b,
{
    assert forall|percept: P| a.contains_key(percept) <==> b.contains_key(percept) by {
        assert(a.contains_key(percept) <==> digest::remembers(entries, percept));
        assert(b.contains_key(percept) <==> digest::remembers(entries, percept));
    }
    assert forall|percept: P| a.contains_key(percept) implies a[percept] == b[percept] by {
        assert(b.contains_key(percept));
        let group = digest::of_percept(entries, percept);
        assert(digest::summary_is::<A, P>(group, a[percept]));
        assert(digest::summary_is::<A, P>(group, b[percept]));
        lemma_total_settled::<A>(
            group[0].value,
            memory::values_of(group.drop_first()),
            a[percept].total_value,
            b[percept].total_value,
        );
    }
    assert(a =~= b);
}

/// Whether the summaries hold numbers only: values, sums and places.
pub open spec fn all_comparable<P>(digests: Map<P, PerceptDigest>) -> bool {
    forall|percept: P| #[trigger]
        digests.contains_key(percept) ==> digests[percept].equals(digests[percept])
}

/// Summaries are not written again while the memories stay as they are.
pub proof fn law_static_memory_is_not_rewritten<A: Arithmetic, P>(
    entries: Seq<MemoryEntry<P>>,
    digests: Map<P, PerceptDigest>,
    after: Map<P, PerceptDigest>,
    written: bool,
)
    requires
        addition_settled::<A>(),
        digest::digest_is::<A, P>(entries, digests),
        all_comparable(digests),
        digest::refreshed_is::<A, P>(entries, digests, after, written),
    ensures
        !written,
        after == digests,
{
    let fresh = choose|fresh: Map<P, PerceptDigest>|
        {
            &&& #[trigger] digest::digest_is::<A, P>(entries, fresh)
            &&& written == !digest_map::maps_equal(fresh, digests)
            &&& after == if written {
                fresh
            } else {
                digests
            }
        };
    law_summaries_are_settled::<A, P>(entries, fresh, digests);
}

/// Refreshed summaries are equal to what the memories are summarized as, whether
/// they were written or not.
pub proof fn law_refreshed_is_current<A: Arithmetic, P>(
    entries: Seq<MemoryEntry<P>>,
    before: Map<P, PerceptDigest>,
    after: Map<P, PerceptDigest>,
    written: bool,
) -> (fresh: Map<P, PerceptDigest>)
    requires
        digest::refreshed_is::<A, P>(entries, before, after, written),
    ensures
        digest::digest_is::<A, P>(entries, fresh),
        after == fresh || digest_map::maps_equal(fresh, after),
{
    choose|fresh: Map<P, PerceptDigest>|
        {
            &&& #[trigger] digest::digest_is::<A, P>(entries, fresh)
            &&& written == !digest_map::maps_equal(fresh, before)
            &&& after == if written {
                fresh
            } else {
                before
            }
        }
}

/// The sum of the values at the places that are picked.
pub open spec fn sum_where(values: Seq<Scalar>, pick: spec_fn(int) -> bool) -> int
    decreases values.len(),
{
    if values.len() == 0 {
        0
    } else {
        sum_where(values.drop_last(), pick) + if pick(values.len() - 1) {
            exact::units(values.last())
        } else {
            0
        }
    }
}

/// The sum of all values.
pub open spec fn sum_all(values: Seq<Scalar>) -> int {
    sum_where(values, |i: int| true)
}

/// Whether numbers stand for the values and for every sum on the way, adding them
/// up in order.
pub open spec fn adds_up(values: Seq<Scalar>) -> bool {
    &&& forall|i: int| 0 <= i < values.len() ==> (#[trigger] values[i]).finite()
    &&& forall|k: int|
        0 <= k <= values.len() ==> exact::representable(sum_all(#[trigger] values.take(k)))
}

/// The sum of the memories of some percepts.
pub open spec fn sum_of_percepts<P>(entries: Seq<MemoryEntry<P>>, percepts: Seq<P>) -> int {
    sum_where(memory::values_of(entries), |i: int| percepts.contains(entries[i].percept))
}

/// Whether numbers stand for every sum on the way to a total: of the memories in
/// order, of each percept's in order, and of the totals of percepts in whatever
/// order they are listed.
pub open spec fn totals_add_up<P>(
    entries: Seq<MemoryEntry<P>>,
    digests: Map<P, PerceptDigest>,
) -> bool {
    &&& adds_up(memory::values_of(entries))
    &&& forall|percept: P|
        adds_up(memory::values_of(#[trigger] digest::of_percept(entries, percept)))
    &&& forall|keys: Seq<P>, k: int| #[trigger]
        digest_map::lists_keys(digests, keys) && 0 <= k <= keys.len() ==> exact::representable(
            sum_of_percepts(entries, #[trigger] keys.take(k)),
        )
}

proof fn lemma_sum_same(values: Seq<Scalar>, a: spec_fn(int) -> bool, b: spec_fn(int) -> bool)
    requires
        forall|i: int| 0 <= i < values.len() ==> #[trigger] a(i) == b(i),
    ensures
        sum_where(values, a) == sum_where(values, b),
    decreases values.len(),
{
    if values.len() > 0 {
        lemma_sum_same(values.drop_last(), a, b);
        assert(a(values.len() - 1) == b(values.len() - 1));
    }
}

proof fn lemma_sum_apart(
    values: Seq<Scalar>,
    a: spec_fn(int) -> bool,
    b: spec_fn(int) -> bool,
    either: spec_fn(int) -> bool,
)
    requires
        forall|i: int|
            0 <= i < values.len() ==> #[trigger] either(i) == (a(i) || b(i)) && !(a(i) && b(i)),
    ensures
        sum_where(values, either) == sum_where(values, a) + sum_where(values, b),
    decreases values.len(),
{
    if values.len() > 0 {
        lemma_sum_apart(values.drop_last(), a, b, either);
        assert(either(values.len() - 1) == (a(values.len() - 1) || b(values.len() - 1)));
    }
}

/// Adding up is exact where every sum on the way is a number.
proof fn lemma_total_exact<A: Arithmetic>(start: Scalar, values: Seq<Scalar>, total: Scalar)
    requires
        exact::rounds_only_where_it_must::<A>(),
        start.finite(),
        forall|i: int| 0 <= i < values.len() ==> (#[trigger] values[i]).finite(),
        forall|k: int|
            0 <= k <= values.len() ==> exact::representable(
                exact::units(start) + sum_all(#[trigger] values.take(k)),
            ),
        memory::total_from_is::<A>(start, values, total),
    ensures
        exact::stands_for(total, exact::units(start) + sum_all(values)),
    decreases values.len(),
{
    assert(values.take(values.len() as int) =~= values);
    if values.len() > 0 {
        let rest = values.drop_last();
        let before = choose|before: Scalar|
            memory::total_from_is::<A>(start, rest, before)
                && #[trigger] arithmetic::plus_is::<A>(before, values.last(), total);
        assert forall|k: int| 0 <= k <= rest.len() implies exact::representable(
            exact::units(start) + sum_all(#[trigger] rest.take(k)),
        ) by {
            assert(rest.take(k) =~= values.take(k));
        }
        assert forall|i: int| 0 <= i < rest.len() implies (#[trigger] rest[i]).finite() by {
            assert(values[i].finite());
        }
        lemma_total_exact::<A>(start, rest, before);
        assert(values.last() == values[values.len() - 1]);
    }
}

/// What a percept's memories add up to.
proof fn lemma_group_sum<P>(entries: Seq<MemoryEntry<P>>, percept: P)
    ensures
        sum_all(memory::values_of(digest::of_percept(entries, percept))) == sum_where(
            memory::values_of(entries),
            |i: int| entries[i].percept == percept,
        ),
    decreases entries.len(),
{
    reveal(Seq::filter);
    if entries.len() > 0 {
        let shorter = entries.drop_last();
        let group = memory::values_of(digest::of_percept(entries, percept));
        let rest = memory::values_of(digest::of_percept(shorter, percept));
        let values = memory::values_of(entries);
        lemma_group_sum(shorter, percept);
        assert(values.drop_last() =~= memory::values_of(shorter));
        lemma_sum_same(
            values.drop_last(),
            |i: int| entries[i].percept == percept,
            |i: int| shorter[i].percept == percept,
        );
        if entries.last().percept == percept {
            assert(group.drop_last() =~= rest);
            assert(group.last() == entries.last().value);
        } else {
            assert(group =~= rest);
        }
    }
}

/// The memories of the first `k` of some percepts, none of them twice, add up to
/// the sum of what each adds up to.
proof fn lemma_groups_sum<P>(entries: Seq<MemoryEntry<P>>, keys: Seq<P>, sums: Seq<Scalar>, k: int)
    requires
        0 <= k <= keys.len() == sums.len(),
        keys.no_duplicates(),
        forall|j: int|
            0 <= j < keys.len() ==> exact::units(#[trigger] sums[j]) == sum_where(
                memory::values_of(entries),
                |i: int| entries[i].percept == keys[j],
            ),
    ensures
        sum_all(sums.take(k)) == sum_of_percepts(entries, keys.take(k)),
    decreases k,
{
    let values = memory::values_of(entries);
    let upto = |i: int| keys.take(k).contains(entries[i].percept);
    if k == 0 {
        lemma_sum_same(values, upto, |i: int| false);
        lemma_sum_nothing(values);
    } else {
        lemma_groups_sum(entries, keys, sums, k - 1);
        let before = |i: int| keys.take(k - 1).contains(entries[i].percept);
        let own = |i: int| entries[i].percept == keys[k - 1];
        assert(sums.take(k).drop_last() =~= sums.take(k - 1));
        assert(exact::units(sums[k - 1]) == sum_where(values, own));
        assert forall|i: int| 0 <= i < values.len() implies #[trigger] upto(i) == (before(i) || own(
            i,
        )) && !(before(i) && own(i)) by {
            let percept = entries[i].percept;
            let (fewer, more) = (keys.take(k - 1), keys.take(k));
            if before(i) {
                let j = choose|j: int| 0 <= j < fewer.len() && fewer[j] == percept;
                assert(more[j] == percept);
                assert(keys[j] != keys[k - 1]);
            }
            if own(i) {
                assert(more[k - 1] == percept);
            }
            if upto(i) && !own(i) {
                let j = choose|j: int| 0 <= j < more.len() && more[j] == percept;
                assert(fewer[j] == percept);
            }
        }
        lemma_sum_apart(values, before, own, upto);
    }
}

proof fn lemma_sum_nothing(values: Seq<Scalar>)
    ensures
        sum_where(values, |i: int| false) == 0,
    decreases values.len(),
{
    if values.len() > 0 {
        lemma_sum_nothing(values.drop_last());
    }
}

/// The total of a percept's summary is the sum of its memories.
proof fn lemma_summary_exact<A: Arithmetic, P>(
    entries: Seq<MemoryEntry<P>>,
    percept: P,
    digest: PerceptDigest,
)
    requires
        exact::rounds_only_where_it_must::<A>(),
        adds_up(memory::values_of(digest::of_percept(entries, percept))),
        digest::summary_is::<A, P>(digest::of_percept(entries, percept), digest),
    ensures
        exact::stands_for(
            digest.total_value,
            sum_where(memory::values_of(entries), |i: int| entries[i].percept == percept),
        ),
{
    let group = digest::of_percept(entries, percept);
    let all = memory::values_of(group);
    let start = group[0].value;
    let rest = memory::values_of(group.drop_first());
    assert(rest =~= all.drop_first());
    assert forall|k: int| 0 <= k < rest.len() implies (#[trigger] rest[k]).finite() by {
        assert(all[k + 1].finite());
    }
    assert(start == all[0]);
    assert(start.finite());
    assert forall|k: int| 0 <= k <= rest.len() implies exact::representable(
        exact::units(start) + sum_all(#[trigger] rest.take(k)),
    ) by {
        let taken = all.take(k + 1);
        lemma_first_apart(taken);
        assert(taken.drop_first() =~= rest.take(k));
    }
    lemma_total_exact::<A>(start, rest, digest.total_value);
    lemma_first_apart(all);
    lemma_group_sum(entries, percept);
}

/// A sum is its first value and the sum of the others.
proof fn lemma_first_apart(values: Seq<Scalar>)
    requires
        values.len() > 0,
    ensures
        sum_all(values) == exact::units(values[0]) + sum_all(values.drop_first()),
    decreases values.len(),
{
    if values.len() > 1 {
        lemma_first_apart(values.drop_last());
        assert(values.drop_last().drop_first() =~= values.drop_first().drop_last());
    } else {
        assert(values.drop_last() =~= Seq::empty());
        assert(values.drop_first() =~= Seq::empty());
    }
}

/// The total across all summaries is the sum of all memories, wherever every sum on
/// the way is a number.
pub proof fn law_total_matches_sum<A: Arithmetic, P>(
    entries: Seq<MemoryEntry<P>>,
    digests: Map<P, PerceptDigest>,
    total: Scalar,
    sum: Scalar,
)
    requires
        exact::rounds_only_where_it_must::<A>(),
        totals_add_up(entries, digests),
        digest::digest_is::<A, P>(entries, digests),
        digest::grand_total_is::<A, P>(digests, total),
        memory::total_from_is::<A>(
            Scalar::from_bits(NEGATIVE_ZERO_BITS),
            memory::values_of(entries),
            sum,
        ),
    ensures
        total.equals(sum),
{
    let zero = Scalar::from_bits(NEGATIVE_ZERO_BITS);
    let values = memory::values_of(entries);
    assert(exact::units(zero) == 0) by {
        assert(exact::magnitude_units(0) == 0);
    }
    assert forall|k: int| 0 <= k <= values.len() implies exact::representable(
        exact::units(zero) + sum_all(#[trigger] values.take(k)),
    ) by {
        assert(exact::representable(sum_all(values.take(k))));
    }
    lemma_total_exact::<A>(zero, values, sum);
    let listed = choose|listed: Seq<PerceptDigest>| #[trigger]
        digest_map::lists_values(digests, listed) && memory::total_from_is::<A>(
            zero,
            digest::totals_of(listed),
            total,
        );
    let keys = choose|keys: Seq<P>| #[trigger]
        digest_map::lists_keys(digests, keys) && digest_map::values_by(digests, keys, listed);
    let sums = digest::totals_of(listed);
    assert forall|j: int| 0 <= j < keys.len() implies (#[trigger] sums[j]).finite()
        && exact::units(sums[j]) == sum_where(values, |i: int| entries[i].percept == keys[j]) by {
        assert(keys.contains(keys[j]));
        assert(digests.contains_key(keys[j]));
        assert(listed[j] == digests[keys[j]]);
        assert(adds_up(memory::values_of(digest::of_percept(entries, keys[j]))));
        lemma_summary_exact::<A, P>(entries, keys[j], digests[keys[j]]);
    }
    assert forall|k: int| 0 <= k <= sums.len() implies exact::representable(
        exact::units(zero) + sum_all(#[trigger] sums.take(k)),
    ) by {
        lemma_groups_sum(entries, keys, sums, k);
        assert(exact::representable(sum_of_percepts(entries, keys.take(k))));
    }
    lemma_total_exact::<A>(zero, sums, total);
    lemma_groups_sum(entries, keys, sums, keys.len() as int);
    assert(sums.take(keys.len() as int) =~= sums);
    assert(keys.take(keys.len() as int) =~= keys);
    assert forall|i: int| 0 <= i < values.len() implies keys.contains(
        (#[trigger] entries[i]).percept,
    ) by {
        assert(digest::remembers(entries, entries[i].percept));
        assert(digests.contains_key(entries[i].percept));
    }
    lemma_sum_same(
        values,
        |i: int| keys.take(keys.len() as int).contains(entries[i].percept),
        |i: int| true,
    );
    exact::law_order_is_of_values(total, sum);
}

/// The total across the summaries of no memories is zero, whatever the
/// arithmetic.
pub proof fn law_total_of_nothing<A: Arithmetic, P>(digests: Map<P, PerceptDigest>, total: Scalar)
    requires
        digests == Map::<P, PerceptDigest>::empty(),
        digest::grand_total_is::<A, P>(digests, total),
    ensures
        total.equals(Scalar::from_bits(ZERO_BITS)),
{
    let zero = Scalar::from_bits(NEGATIVE_ZERO_BITS);
    let listed = choose|listed: Seq<PerceptDigest>| #[trigger]
        digest_map::lists_values(digests, listed) && memory::total_from_is::<A>(
            zero,
            digest::totals_of(listed),
            total,
        );
    let keys = choose|keys: Seq<P>| #[trigger]
        digest_map::lists_keys(digests, keys) && digest_map::values_by(digests, keys, listed);
    if keys.len() > 0 {
        assert(keys.contains(keys[0]));
        assert(digests.contains_key(keys[0]));
    }
}

/// How the summary of a percept came about.
pub struct Summary {
    /// The places of the memories of the percept.
    pub places: Seq<int>,
    /// Which of these places is described.
    pub described: int,
    /// What comes out when their intensities are added in turn.
    pub sums: Seq<Scalar>,
}

/// A percept has a summary if and only if there is a memory of it. The summary has
/// the intensity, location and source of one memory of the percept, which every
/// older one is weaker than and, among numbers, none exceeds; and the total of the
/// intensities of all of them, added in turn to the newest's.
pub proof fn law_summary_by_the_fields<A: Arithmetic, P>(
    entries: Seq<MemoryEntry<P>>,
    digests: Map<P, PerceptDigest>,
    percept: P,
) -> (s: Summary)
    requires
        digest::digest_is::<A, P>(entries, digests),
    ensures
        digests.contains_key(percept) <==> exists|i: int|
            0 <= i < entries.len() && (#[trigger] entries[i]).percept == percept,
        digests.contains_key(percept) ==> {
            let digest = digests[percept];
            let at = s.places[s.described];
            &&& memory_laws::ascending_places(s.places, entries.len())
            &&& forall|i: int|
                0 <= i < entries.len() ==> ((#[trigger] entries[i]).percept == percept
                    <==> s.places.contains(i))
            &&& 0 <= s.described < s.places.len()
            &&& digest.strongest_value == entries[at].value
            &&& digest.strongest_location == entries[at].location
            &&& digest.strongest_source == entries[at].source
            &&& forall|k: int|
                s.described < k < s.places.len() ==> entries[#[trigger] s.places[k]].value.less(
                    entries[at].value,
                )
            &&& memory_laws::all_numbers(entries) ==> forall|k: int|
                0 <= k < s.places.len() ==> entries[#[trigger] s.places[k]].value.at_most(
                    entries[at].value,
                )
            &&& s.sums.len() == s.places.len()
            &&& s.sums[0] == entries[s.places[0]].value
            &&& forall|k: int|
                1 <= k < s.places.len() ==> arithmetic::plus_is::<A>(
                    s.sums[k - 1],
                    entries[#[trigger] s.places[k]].value,
                    s.sums[k],
                )
            &&& digest.total_value == s.sums.last()
        },
{
    let group = digest::of_percept(entries, percept);
    let places = lemma_of_percept(entries, percept);
    assert(digests.contains_key(percept) <==> digest::remembers(entries, percept));
    if digests.contains_key(percept) {
        assert(digest::summary_is::<A, P>(group, digests[percept]));
        memory_laws::law_older_than_the_strongest_is_weaker(group);
        let described = memory::strongest_index(group, group.len());
        if memory_laws::all_numbers(entries) {
            assert(memory_laws::all_numbers(group)) by {
                assert forall|k: int| 0 <= k < group.len() implies !(
                #[trigger] group[k]).value.nan() by {
                    assert(!entries[places[k]].value.nan());
                }
            }
            memory_laws::law_strongest_is_highest(group);
        }
        let sums = memory_laws::lemma_added_in_turn::<A, P>(
            group[0].value,
            group.drop_first(),
            digests[percept].total_value,
        );
        assert forall|k: int| 1 <= k < places.len() implies arithmetic::plus_is::<A>(
            sums[k - 1],
            entries[#[trigger] places[k]].value,
            sums[k],
        ) by {
            assert(group.drop_first()[k - 1] == group[k]);
        }
        assert forall|k: int| described < k < places.len() implies entries[
        #[trigger] places[k]].value.less(entries[places[described]].value) by {
            assert(group[k].value.less(group[described].value));
        }
        assert forall|k: int|
            0 <= k < places.len() && memory_laws::all_numbers(entries) implies entries[
        #[trigger] places[k]].value.at_most(entries[places[described]].value) by {
            assert(group[k].value.at_most(group[described].value));
        }
        Summary { places, described, sums }
    } else {
        Summary { places, described: 0, sums: Seq::empty() }
    }
}

/// The strongest value across all summaries is that of one of them, and in the
/// total order no other comes after it; there is none where there are no summaries.
pub proof fn law_strongest_value_is_the_last_in_order<P>(
    digests: Map<P, PerceptDigest>,
    value: Option<Scalar>,
)
    requires
        digest::greatest_strongest(digests, value),
    ensures
        value is None <==> forall|percept: P| !digests.contains_key(percept),
        value matches Some(value) ==> exists|percept: P| #[trigger]
            digests.contains_key(percept) && digests[percept].strongest_value == value,
        value matches Some(value) ==> forall|percept: P| #[trigger]
            digests.contains_key(percept) ==> !value.less(digests[percept].strongest_value),
{
}

/// The total across all summaries is what comes out when the total of each is
/// added in turn, in some order, from the zero that leaves every number unchanged.
/// Returns the percepts in that order and what comes out on the way.
pub proof fn law_total_adds_each_summary<A: Arithmetic, P>(
    digests: Map<P, PerceptDigest>,
    total: Scalar,
) -> (parts: (Seq<P>, Seq<Scalar>))
    requires
        digest::grand_total_is::<A, P>(digests, total),
    ensures
        parts.0.no_duplicates(),
        forall|percept: P| digests.contains_key(percept) <==> #[trigger] parts.0.contains(percept),
        parts.1.len() == parts.0.len() + 1,
        parts.1[0].bits == 0x8000_0000,
        forall|j: int|
            0 <= j < parts.0.len() ==> arithmetic::plus_is::<A>(
                parts.1[j],
                digests[#[trigger] parts.0[j]].total_value,
                parts.1[j + 1],
            ),
        parts.1.last() == total,
{
    let zero = Scalar::from_bits(NEGATIVE_ZERO_BITS);
    let listed = choose|listed: Seq<PerceptDigest>| #[trigger]
        digest_map::lists_values(digests, listed) && memory::total_from_is::<A>(
            zero,
            digest::totals_of(listed),
            total,
        );
    let keys = choose|keys: Seq<P>| #[trigger]
        digest_map::lists_keys(digests, keys) && digest_map::values_by(digests, keys, listed);
    let sums = lemma_values_in_turn::<A>(zero, digest::totals_of(listed), total);
    assert forall|j: int| 0 <= j < keys.len() implies arithmetic::plus_is::<A>(
        sums[j],
        digests[#[trigger] keys[j]].total_value,
        sums[j + 1],
    ) by {
        assert(listed[j] == digests[keys[j]]);
        assert(digest::totals_of(listed)[j] == listed[j].total_value);
    }
    (keys, sums)
}

/// A total of numbers comes out of additions in turn.
proof fn lemma_values_in_turn<A: Arithmetic>(
    start: Scalar,
    values: Seq<Scalar>,
    total: Scalar,
) -> (sums: Seq<Scalar>)
    requires
        memory::total_from_is::<A>(start, values, total),
    ensures
        sums.len() == values.len() + 1,
        sums[0] == start,
        forall|j: int|
            0 <= j < values.len() ==> arithmetic::plus_is::<A>(
                sums[j],
                #[trigger] values[j],
                sums[j + 1],
            ),
        sums.last() == total,
    decreases values.len(),
{
    if values.len() == 0 {
        seq![start]
    } else {
        let rest = values.drop_last();
        let before = choose|before: Scalar|
            memory::total_from_is::<A>(start, rest, before)
                && #[trigger] arithmetic::plus_is::<A>(before, values.last(), total);
        let fewer = lemma_values_in_turn::<A>(start, rest, before);
        let sums = fewer.push(total);
        assert forall|j: int| 0 <= j < values.len() implies arithmetic::plus_is::<A>(
            sums[j],
            #[trigger] values[j],
            sums[j + 1],
        ) by {
            if j < rest.len() {
                assert(rest[j] == values[j]);
            }
        }
        sums
    }
}

/// A summary with one more memory counted in has that memory's intensity added to
/// its total, and describes that memory unless it is weaker.
pub proof fn law_joined_summary_by_the_fields<A: Arithmetic, P>(
    digest: PerceptDigest,
    entry: MemoryEntry<P>,
    joined: PerceptDigest,
)
    requires
        digest.joined_by_is::<A, P>(entry, joined),
    ensures
        arithmetic::plus_is::<A>(digest.total_value, entry.value, joined.total_value),
        entry.value.less(digest.strongest_value) ==> joined.strongest_value
            == digest.strongest_value && joined.strongest_location == digest.strongest_location
            && joined.strongest_source == digest.strongest_source,
        !entry.value.less(digest.strongest_value) ==> joined.strongest_value == entry.value
            && joined.strongest_location == entry.location && joined.strongest_source
            == entry.source,
{
}

/// Whether two summaries have equal numbers, locations of one kind with equal
/// coordinates, and one source.
pub open spec fn alike(a: PerceptDigest, b: PerceptDigest) -> bool {
    &&& a.strongest_value.equals(b.strongest_value)
    &&& a.total_value.equals(b.total_value)
    &&& a.strongest_source == b.strongest_source
    &&& match (a.strongest_location, b.strongest_location) {
        (None, None) => true,
        (Some(LocationKnowledge::Origin(p)), Some(LocationKnowledge::Origin(q))) => p.x.equals(q.x)
            && p.y.equals(q.y),
        (Some(LocationKnowledge::Direction(p)), Some(LocationKnowledge::Direction(q))) => {
            p.x.equals(q.x) && p.y.equals(q.y)
        },
        _ => false,
    }
}

/// Summaries are written if and only if they differ from those of the memories in
/// a percept or a field. Then they become those of the memories; otherwise they
/// stay as they are. Returns the summaries of the memories.
pub proof fn law_refreshed_by_the_fields<A: Arithmetic, P>(
    entries: Seq<MemoryEntry<P>>,
    before: Map<P, PerceptDigest>,
    after: Map<P, PerceptDigest>,
    written: bool,
) -> (fresh: Map<P, PerceptDigest>)
    requires
        digest::refreshed_is::<A, P>(entries, before, after, written),
    ensures
        digest::digest_is::<A, P>(entries, fresh),
        !written <==> {
            &&& forall|percept: P| #[trigger]
                fresh.contains_key(percept) <==> before.contains_key(percept)
            &&& forall|percept: P| #[trigger]
                fresh.contains_key(percept) ==> alike(fresh[percept], before[percept])
        },
        written ==> after == fresh,
        !written ==> after == before,
{
    let fresh = choose|fresh: Map<P, PerceptDigest>|
        {
            &&& #[trigger] digest::digest_is::<A, P>(entries, fresh)
            &&& written == !digest_map::maps_equal(fresh, before)
            &&& after == if written {
                fresh
            } else {
                before
            }
        };
    assert forall|percept: P| #[trigger] fresh.contains_key(percept) implies (alike(
        fresh[percept],
        before[percept],
    ) <==> fresh[percept].equals(before[percept])) by {}
    if forall|percept: P| #[trigger]
        fresh.contains_key(percept) <==> before.contains_key(percept) {
        assert(fresh.dom() =~= before.dom());
    }
    if fresh.dom() == before.dom() {
        assert forall|percept: P| #[trigger] fresh.contains_key(percept) <==> before.contains_key(
            percept,
        ) by {
            assert(fresh.dom().contains(percept) <==> before.dom().contains(percept));
        }
    }
    fresh
}

} // verus!
