//! Merging of the messages of one frame.
//!
//! Messages that share a percept, a source, a range and an origin cell become
//! one, which carries the strongest of their base intensities and stays where
//! the earliest of them stood.

use crate::arithmetic;
use crate::arithmetic::Arithmetic;
use crate::message::PerceptionMessage;
use crate::percept::{Entity, Percept};
use crate::scalar::{Scalar, ZERO_BITS};
use crate::space::Vec2;
use vstd::prelude::*;

verus! {

/// By which messages are grouped: origin cell, range, source, and the place of
/// the message in the batch.
pub type MergeKey = (u64, u64, u32, Option<u64>, u32);

/// The number by which keys order a source; a missing source comes first.
pub open spec fn source_rank(source: Option<u64>) -> int {
    match source {
        Some(bits) => bits as int,
        None => -1,
    }
}

/// Whether `a` does not come after `b` in the order of tuples.
pub open spec fn key_at_most(a: MergeKey, b: MergeKey) -> bool {
    ||| a.0 < b.0
    ||| a.0 == b.0 && a.1 < b.1
    ||| a.0 == b.0 && a.1 == b.1 && a.2 < b.2
    ||| a.0 == b.0 && a.1 == b.1 && a.2 == b.2 && source_rank(a.3) < source_rank(b.3)
    ||| a.0 == b.0 && a.1 == b.1 && a.2 == b.2 && source_rank(a.3) == source_rank(b.3) && a.4
        <= b.4
}

/// Whether the keys stand in the order of tuples.
pub open spec fn keys_sorted(keys: Seq<MergeKey>) -> bool {
    forall|i: int, j: int|
        0 <= i <= j < keys.len() ==> key_at_most(#[trigger] keys[i], #[trigger] keys[j])
}

/// Whether two keys agree on everything but the place in the batch.
pub open spec fn group_same(a: MergeKey, b: MergeKey) -> bool {
    a.0 == b.0 && a.1 == b.1 && a.2 == b.2 && a.3 == b.3
}

/// Sorts with `slice::sort_unstable` of the standard library: the keys come out
/// in the order of tuples, and they are the keys that went in.
#[verifier::external_body]
fn sort_keys(keys: &mut Vec<MergeKey>)
    ensures
        keys_sorted(final(keys)@),
        final(keys)@.to_multiset() == old(keys)@.to_multiset(),
{
    keys.sort_unstable();
}

/// Bit pattern of the least number that is read as a grid line.
pub const FIRST_LINE_BITS: u32 = 0xcf00_0000;

/// Bit pattern of the number past the last that is read as a grid line.
pub const PAST_LINES_BITS: u32 = 0x4f00_0000;

/// Whether a whole number is one that an `i32` can hold.
pub open spec fn line_fits(below: Scalar) -> bool {
    Scalar::from_bits(FIRST_LINE_BITS).at_most(below) && below.less(
        Scalar::from_bits(PAST_LINES_BITS),
    )
}

/// `key` is what a whole number of cells may be grouped by: the number itself, or
/// its bit pattern where it is too great to be read as one.
pub open spec fn line_key_is<A: Arithmetic>(below: Scalar, key: u64) -> bool {
    if line_fits(below) {
        exists|line: i32| #[trigger]
            arithmetic::to_int_is::<A>(below, line) && key == line as u32 as u64
    } else {
        key == 0x1_0000_0000 + below.bits
    }
}

/// `key` is what a coordinate may be grouped by in a grid of edge `merge_radius`.
pub open spec fn coordinate_key_is<A: Arithmetic>(
    coordinate: Scalar,
    merge_radius: Scalar,
    key: u64,
) -> bool {
    exists|quotient: Scalar, below: Scalar|
        {
            &&& #[trigger] arithmetic::over_is::<A>(coordinate, merge_radius, quotient)
            &&& #[trigger] arithmetic::floor_is::<A>(quotient, below)
            &&& line_key_is::<A>(below, key)
        }
}

/// `key` is what the origin of a message may be grouped by: its cell in a grid
/// of edge `merge_radius` where that is positive, its bit pattern where not.
pub open spec fn origin_key_is<A: Arithmetic>(
    origin: Vec2,
    merge_radius: Scalar,
    key: (u64, u64),
) -> bool {
    if Scalar::from_bits(ZERO_BITS).less(merge_radius) {
        &&& coordinate_key_is::<A>(origin.x, merge_radius, key.0)
        &&& coordinate_key_is::<A>(origin.y, merge_radius, key.1)
    } else {
        key == (origin.x.bits as u64, origin.y.bits as u64)
    }
}

/// The grouping number of a source.
pub open spec fn source_bits(source: Option<Entity>) -> Option<u64> {
    match source {
        Some(entity) => Some(entity.bits),
        None => None,
    }
}

/// The key of the message at `i`, whose origin is grouped by `cells[i]`.
pub open spec fn key_of<P>(
    batch: Seq<PerceptionMessage<P>>,
    cells: Seq<(u64, u64)>,
    i: int,
) -> MergeKey {
    (cells[i].0, cells[i].1, batch[i].range.bits, source_bits(batch[i].source), i as u32)
}

/// The keys of all messages, in the order of the batch.
pub open spec fn keys_of<P>(batch: Seq<PerceptionMessage<P>>, cells: Seq<(u64, u64)>) -> Seq<
    MergeKey,
> {
    Seq::new(batch.len(), |i: int| key_of(batch, cells, i))
}

/// Whether two messages carry the same percept.
pub open spec fn percepts_same<P: Percept>(
    a: PerceptionMessage<P>,
    b: PerceptionMessage<P>,
) -> bool {
    a.percept.comparison(&b.percept) == Some(true)
}

/// Whether the message at `k` takes in the one at `i`, if it stands itself.
pub open spec fn takes_in<P: Percept>(
    batch: Seq<PerceptionMessage<P>>,
    cells: Seq<(u64, u64)>,
    k: int,
    i: int,
) -> bool {
    &&& cells[k] == cells[i]
    &&& batch[k].range.bits == batch[i].range.bits
    &&& batch[k].source == batch[i].source
    &&& percepts_same(batch[k], batch[i])
}

/// The earliest message, from `k` on, that stands and takes in the one at `i`;
/// `i` where there is none.
pub open spec fn home_from<P: Percept>(
    batch: Seq<PerceptionMessage<P>>,
    cells: Seq<(u64, u64)>,
    i: int,
    k: int,
) -> int
    decreases i, i - k,
{
    if k < 0 || k >= i {
        i
    } else if home_from(batch, cells, k, 0) == k && takes_in(batch, cells, k, i) {
        k
    } else {
        home_from(batch, cells, i, k + 1)
    }
}

/// The message that the one at `i` becomes part of: the earliest that stands
/// and takes it in, itself where there is none.
pub open spec fn home<P: Percept>(
    batch: Seq<PerceptionMessage<P>>,
    cells: Seq<(u64, u64)>,
    i: int,
) -> int {
    home_from(batch, cells, i, 0)
}

/// The strongest base intensity among the message at `k` and those before
/// `end` that became part of it.
pub open spec fn gathered<P: Percept>(
    batch: Seq<PerceptionMessage<P>>,
    cells: Seq<(u64, u64)>,
    k: int,
    end: int,
) -> Scalar
    decreases end,
{
    if end <= k + 1 || end <= 0 {
        batch[k].base_value
    } else {
        let before = gathered(batch, cells, k, end - 1);
        if home(batch, cells, end - 1) == k {
            before.greater(batch[end - 1].base_value)
        } else {
            before
        }
    }
}

/// The messages that are not dropped, in order.
pub open spec fn undropped<P>(
    batch: Seq<PerceptionMessage<P>>,
    dropped: Seq<bool>,
) -> Seq<PerceptionMessage<P>>
    decreases batch.len(),
{
    if batch.len() == 0 {
        Seq::empty()
    } else {
        let rest = undropped(batch.drop_last(), dropped);
        if dropped[batch.len() - 1] {
            rest
        } else {
            rest.push(batch.last())
        }
    }
}

/// Each message at the intensity it has once the others are merged into it.
pub open spec fn strengthened<P: Percept>(
    batch: Seq<PerceptionMessage<P>>,
    cells: Seq<(u64, u64)>,
) -> Seq<PerceptionMessage<P>> {
    Seq::new(
        batch.len(),
        |i: int| batch[i].at_base(gathered(batch, cells, i, batch.len() as int)),
    )
}

/// For each message, whether it became part of an earlier one.
pub open spec fn absorbed<P: Percept>(
    batch: Seq<PerceptionMessage<P>>,
    cells: Seq<(u64, u64)>,
) -> Seq<bool> {
    Seq::new(batch.len(), |i: int| home(batch, cells, i) != i)
}

/// What merging makes of a batch whose origins are grouped by `cells`.
pub open spec fn merged_by<P: Percept>(
    batch: Seq<PerceptionMessage<P>>,
    cells: Seq<(u64, u64)>,
) -> Seq<PerceptionMessage<P>> {
    undropped(strengthened(batch, cells), absorbed(batch, cells))
}

/// `cells` is what the origins of a batch may be grouped by.
pub open spec fn cells_are<A: Arithmetic, P>(
    batch: Seq<PerceptionMessage<P>>,
    merge_radius: Scalar,
    cells: Seq<(u64, u64)>,
) -> bool {
    &&& cells.len() == batch.len()
    &&& forall|i: int|
        0 <= i < batch.len() ==> origin_key_is::<A>(
            batch[i].origin,
            merge_radius,
            #[trigger] cells[i],
        )
}

/// Whether a batch stays as it is: a lone message has nothing to merge with, and
/// a negative radius turns merging off.
pub open spec fn merging_skipped<P>(
    batch: Seq<PerceptionMessage<P>>,
    merge_radius: Scalar,
) -> bool {
    batch.len() < 2 || merge_radius.less(Scalar::from_bits(ZERO_BITS))
}

/// `after` is what merging may make of `before`.
pub open spec fn merging_is<A: Arithmetic, P: Percept>(
    before: Seq<PerceptionMessage<P>>,
    merge_radius: Scalar,
    after: Seq<PerceptionMessage<P>>,
) -> bool {
    if merging_skipped(before, merge_radius) {
        after == before
    } else {
        exists|cells: Seq<(u64, u64)>| #[trigger]
            cells_are::<A, P>(before, merge_radius, cells) && after == merged_by(before, cells)
    }
}

/// Whether two merge keys agree on everything but the place in the batch.
fn same_group(a: &MergeKey, b: &MergeKey) -> (answer: bool)
    ensures
        answer == group_same(*a, *b),
{
    a.0 == b.0 && a.1 == b.1 && a.2 == b.2 && match (a.3, b.3) {
        (Some(left), Some(right)) => left == right,
        (None, None) => true,
        _ => false,
    }
}

/// Groups a whole number of cells, see [`line_key_is`].
fn line_key<A: Arithmetic>(below: Scalar) -> (key: u64)
    ensures
        line_key_is::<A>(below, key),
{
    if Scalar::from_bits(FIRST_LINE_BITS) <= below && below < Scalar::from_bits(PAST_LINES_BITS) {
        let line = A::to_int(below);
        assert(arithmetic::to_int_is::<A>(below, line));
        line as u32 as u64
    } else {
        0x1_0000_0000 + below.to_bits() as u64
    }
}

/// Groups a coordinate, see [`coordinate_key_is`].
fn coordinate_key<A: Arithmetic>(coordinate: Scalar, merge_radius: Scalar) -> (key: u64)
    ensures
        coordinate_key_is::<A>(coordinate, merge_radius, key),
{
    let quotient = A::over(coordinate, merge_radius);
    let below = A::floor(quotient);
    proof {
        assert(arithmetic::over_is::<A>(coordinate, merge_radius, quotient));
        assert(arithmetic::floor_is::<A>(quotient, below));
    }
    line_key::<A>(below)
}

/// Groups an origin, see [`origin_key_is`].
pub fn origin_key<A: Arithmetic>(origin: Vec2, merge_radius: Scalar) -> (key: (u64, u64))
    ensures
        origin_key_is::<A>(origin, merge_radius, key),
{
    if merge_radius > Scalar::from_bits(ZERO_BITS) {
        (
            coordinate_key::<A>(origin.x, merge_radius),
            coordinate_key::<A>(origin.y, merge_radius),
        )
    } else {
        (origin.x.to_bits() as u64, origin.y.to_bits() as u64)
    }
}

/// Whether two messages carry the same percept. Percepts that cannot answer are
/// not the same.
fn percepts_match<P: Percept>(a: &PerceptionMessage<P>, b: &PerceptionMessage<P>) -> (answer: bool)
    ensures
        answer == percepts_same(*a, *b),
{
    match a.percept.reflect_partial_eq(&b.percept) {
        Some(answer) => answer,
        None => false,
    }
}

/// `home` is the earliest message that stands and takes in the one at `i`.
pub proof fn lemma_home_from<P: Percept>(
    batch: Seq<PerceptionMessage<P>>,
    cells: Seq<(u64, u64)>,
    i: int,
    k: int,
)
    requires
        0 <= k <= i,
    ensures
        ({
            let h = home_from(batch, cells, i, k);
            &&& k <= h <= i
            &&& h < i ==> home(batch, cells, h) == h && takes_in(batch, cells, h, i)
            &&& forall|j: int|
                k <= j < h ==> !(#[trigger] home(batch, cells, j) == j && takes_in(
                    batch,
                    cells,
                    j,
                    i,
                ))
        }),
    decreases i - k,
{
    if k < i {
        if !(home(batch, cells, k) == k && takes_in(batch, cells, k, i)) {
            lemma_home_from(batch, cells, i, k + 1);
        }
    }
}

/// Messages of other homes between `a` and `b` add nothing.
pub proof fn lemma_gathered_skip<P: Percept>(
    batch: Seq<PerceptionMessage<P>>,
    cells: Seq<(u64, u64)>,
    k: int,
    a: int,
    b: int,
)
    requires
        0 <= k < a <= b,
        forall|i: int| a <= i < b ==> home(batch, cells, i) != k,
    ensures
        gathered(batch, cells, k, b) == gathered(batch, cells, k, a),
    decreases b - a,
{
    if a < b {
        lemma_gathered_skip(batch, cells, k, a, b - 1);
    }
}

/// The keys of a batch in sorted order: each message has one.
spec fn orders<P>(
    batch: Seq<PerceptionMessage<P>>,
    cells: Seq<(u64, u64)>,
    keys: Seq<MergeKey>,
) -> bool {
    &&& keys.len() == batch.len() == cells.len()
    &&& batch.len() <= u32::MAX
    &&& keys_sorted(keys)
    &&& forall|p: int|
        0 <= p < keys.len() ==> (#[trigger] keys[p]).4 < batch.len() && keys[p] == key_of(
            batch,
            cells,
            keys[p].4 as int,
        )
    &&& forall|p: int, q: int|
        0 <= p < q < keys.len() ==> (#[trigger] keys[p]).4 != (#[trigger] keys[q]).4
    &&& forall|i: int|
        0 <= i < batch.len() ==> #[trigger] has_key(keys, i)
}

/// Whether the message at `i` has a key.
spec fn has_key(keys: Seq<MergeKey>, i: int) -> bool {
    exists|p: int| 0 <= p < keys.len() && (#[trigger] keys[p]).4 == i
}

proof fn lemma_orders<P>(
    batch: Seq<PerceptionMessage<P>>,
    cells: Seq<(u64, u64)>,
    listed: Seq<MergeKey>,
    keys: Seq<MergeKey>,
)
    requires
        batch.len() == cells.len() == listed.len(),
        batch.len() <= u32::MAX,
        forall|i: int| 0 <= i < listed.len() ==> #[trigger] listed[i] == key_of(batch, cells, i),
        keys_sorted(keys),
        keys.to_multiset() == listed.to_multiset(),
    ensures
        orders(batch, cells, keys),
{
    broadcast use vstd::seq_lib::group_to_multiset_ensures;

    keys.to_multiset_ensures();
    listed.to_multiset_ensures();
    assert(keys.len() == listed.len());
    assert forall|p: int| 0 <= p < keys.len() implies (#[trigger] keys[p]).4 < batch.len()
        && keys[p] == key_of(batch, cells, keys[p].4 as int) by {
        assert(keys.contains(keys[p]));
        assert(keys.to_multiset().count(keys[p]) > 0);
        assert(listed.contains(keys[p]));
        let i = choose|i: int| 0 <= i < listed.len() && listed[i] == keys[p];
        assert(listed[i] == key_of(batch, cells, i));
    }
    assert(listed.no_duplicates()) by {
        assert forall|i: int, j: int| 0 <= i < listed.len() && 0 <= j < listed.len() && i
            != j implies listed[i] != listed[j] by {
            assert(listed[i].4 == i as u32);
            assert(listed[j].4 == j as u32);
        }
    }
    listed.lemma_multiset_has_no_duplicates();
    keys.lemma_multiset_has_no_duplicates_conv();
    assert forall|p: int, q: int| 0 <= p < q < keys.len() implies (#[trigger] keys[p]).4 != (
    #[trigger] keys[q]).4 by {
        if keys[p].4 == keys[q].4 {
            assert(keys[p] == keys[q]);
        }
    }
    assert forall|i: int| 0 <= i < batch.len() implies #[trigger] has_key(keys, i) by {
        assert(listed.contains(listed[i]));
        assert(listed.to_multiset().count(listed[i]) > 0);
        assert(keys.contains(listed[i]));
        let p = choose|p: int| 0 <= p < keys.len() && keys[p] == listed[i];
        assert(keys[p].4 == i);
    }
}

/// The keys from `start` to `end` are those of one group, all of it.
spec fn is_group(keys: Seq<MergeKey>, start: int, end: int) -> bool {
    &&& 0 <= start < end <= keys.len()
    &&& forall|p: int| 0 <= p < keys.len() ==> (group_same(keys[start], #[trigger] keys[p])
        <==> start <= p < end)
}

/// Runs of equal keys in sorted order are whole groups.
proof fn lemma_run_is_group(keys: Seq<MergeKey>, start: int, end: int)
    requires
        keys_sorted(keys),
        0 <= start < end <= keys.len(),
        forall|p: int| start <= p < end ==> group_same(keys[start], #[trigger] keys[p]),
        start > 0 ==> !group_same(keys[start - 1], keys[start]),
        end < keys.len() ==> !group_same(keys[start], keys[end]),
    ensures
        is_group(keys, start, end),
{
    assert forall|p: int| 0 <= p < keys.len() && group_same(
        keys[start],
        #[trigger] keys[p],
    ) implies start <= p < end by {
        if p < start {
            assert(key_at_most(keys[p], keys[start - 1]));
            assert(key_at_most(keys[start - 1], keys[start]));
        }
        if p >= end {
            assert(key_at_most(keys[start], keys[end]));
            assert(key_at_most(keys[end], keys[p]));
        }
    }
}

/// The message at `c` once those with a home before `k` are merged, and of
/// those with home `k` the ones before `e`.
spec fn stands_at<P: Percept>(
    batch: Seq<PerceptionMessage<P>>,
    cells: Seq<(u64, u64)>,
    now: Seq<PerceptionMessage<P>>,
    merged: Seq<bool>,
    c: int,
    k: int,
    e: int,
) -> bool {
    let h = home(batch, cells, c);
    &&& merged[c] == (h != c && (h < k || (h == k && c < e)))
    &&& now[c] == batch[c].at_base(
        if c < k {
            gathered(batch, cells, c, batch.len() as int)
        } else if c == k {
            gathered(batch, cells, k, e)
        } else {
            batch[c].base_value
        },
    )
}

/// Where a message of a group has its home: in the group.
proof fn lemma_home_in_group<P: Percept>(
    batch: Seq<PerceptionMessage<P>>,
    cells: Seq<(u64, u64)>,
    keys: Seq<MergeKey>,
    start: int,
    end: int,
    i: int,
    q: int,
)
    requires
        orders(batch, cells, keys),
        is_group(keys, start, end),
        0 <= i < batch.len(),
        home(batch, cells, i) != i,
        0 <= q < keys.len(),
        keys[q].4 == i || keys[q].4 == home(batch, cells, i),
        start <= q < end,
    ensures
        exists|p: int| start <= p < end && (#[trigger] keys[p]).4 == i,
        exists|p: int| start <= p < end && (#[trigger] keys[p]).4 == home(batch, cells, i),
        0 <= home(batch, cells, i) < i,
        home(batch, cells, home(batch, cells, i)) == home(batch, cells, i),
{
    lemma_home_from(batch, cells, i, 0);
    let h = home(batch, cells, i);
    assert(has_key(keys, i));
    assert(has_key(keys, h));
    let p = choose|p: int| 0 <= p < keys.len() && (#[trigger] keys[p]).4 == i;
    let r = choose|r: int| 0 <= r < keys.len() && (#[trigger] keys[r]).4 == h;
    assert(keys[p] == key_of(batch, cells, i));
    assert(keys[r] == key_of(batch, cells, h));
    assert(takes_in(batch, cells, h, i));
    assert(group_same(keys[p], keys[r]));
    assert(group_same(keys[start], keys[q]));
    assert(keys[q] == keys[p] || keys[q] == keys[r]);
    assert(group_same(keys[start], keys[p]));
    assert(group_same(keys[start], keys[r]));
}

/// A message that does not stand gathers nothing.
proof fn lemma_gathered_absorbed<P: Percept>(
    batch: Seq<PerceptionMessage<P>>,
    cells: Seq<(u64, u64)>,
    k: int,
)
    requires
        0 <= k < batch.len(),
        home(batch, cells, k) != k,
    ensures
        gathered(batch, cells, k, batch.len() as int) == batch[k].base_value,
{
    assert forall|i: int| k + 1 <= i < batch.len() implies home(batch, cells, i) != k by {
        lemma_home_from(batch, cells, i, 0);
    }
    lemma_gathered_skip(batch, cells, k, k + 1, batch.len() as int);
}

/// The place of a key's message, or the end of the batch past the group.
spec fn place(keys: Seq<MergeKey>, p: int, end: int) -> int {
    if p < end {
        keys[p].4 as int
    } else {
        keys.len() as int
    }
}

/// Once everything with the home at `position` is merged, the next place is due.
proof fn lemma_next_place<P: Percept>(
    batch: Seq<PerceptionMessage<P>>,
    cells: Seq<(u64, u64)>,
    now: Seq<PerceptionMessage<P>>,
    merged: Seq<bool>,
    keys: Seq<MergeKey>,
    start: int,
    end: int,
    position: int,
)
    requires
        orders(batch, cells, keys),
        is_group(keys, start, end),
        start <= position < end,
        forall|q: int|
            start <= q < end ==> stands_at(
                batch,
                cells,
                now,
                merged,
                (#[trigger] keys[q]).4 as int,
                keys[position].4 as int,
                batch.len() as int,
            ),
    ensures
        forall|q: int|
            start <= q < end ==> stands_at(
                batch,
                cells,
                now,
                merged,
                (#[trigger] keys[q]).4 as int,
                place(keys, position + 1, end),
                0,
            ),
{
    let k = keys[position].4 as int;
    let next = place(keys, position + 1, end);
    assert forall|q: int| start <= q < end implies stands_at(
        batch,
        cells,
        now,
        merged,
        (#[trigger] keys[q]).4 as int,
        next,
        0,
    ) by {
        let c = keys[q].4 as int;
        lemma_member_order(batch, cells, keys, start, end, position, q);
        if home(batch, cells, c) != c {
            lemma_home_in_group(batch, cells, keys, start, end, c, q);
            let r = choose|r: int|
                start <= r < end && (#[trigger] keys[r]).4 == home(batch, cells, c);
            lemma_member_order(batch, cells, keys, start, end, position, r);
        }
        if c == k {
            lemma_home_from(batch, cells, c, 0);
        }
    }
}

/// Within a group, keys stand in the order of their messages.
proof fn lemma_member_order<P>(
    batch: Seq<PerceptionMessage<P>>,
    cells: Seq<(u64, u64)>,
    keys: Seq<MergeKey>,
    start: int,
    end: int,
    position: int,
    q: int,
)
    requires
        orders(batch, cells, keys),
        is_group(keys, start, end),
        start <= position < end,
        start <= q < end,
    ensures
        q <= position ==> keys[q].4 <= keys[position].4 < place(keys, position + 1, end),
        q > position ==> keys[q].4 > keys[position].4 && keys[q].4 >= place(
            keys,
            position + 1,
            end,
        ),
        q == position || keys[q].4 != keys[position].4,
{
    assert(group_same(keys[start], keys[position]));
    assert(group_same(keys[start], keys[q]));
    if q <= position {
        assert(key_at_most(keys[q], keys[position]));
    } else {
        assert(key_at_most(keys[position], keys[q]));
        assert(key_at_most(keys[position + 1], keys[q]));
        assert(group_same(keys[start], keys[position + 1]));
    }
    if position + 1 < end {
        assert(key_at_most(keys[position], keys[position + 1]));
        assert(group_same(keys[start], keys[position + 1]));
        assert(keys[position].4 != keys[position + 1].4);
    }
}

/// Merges into the message of the key at `position`, which stands, the later
/// ones of its group that have no home yet and carry its percept.
fn merge_into<P: Percept>(
    batch: &mut Vec<PerceptionMessage<P>>,
    keys: &Vec<MergeKey>,
    merged: &mut Vec<bool>,
    start: usize,
    end: usize,
    position: usize,
    Ghost(initial): Ghost<Seq<PerceptionMessage<P>>>,
    Ghost(cells): Ghost<Seq<(u64, u64)>>,
) -> (any_merged: bool)
    requires
        orders(initial, cells, keys@),
        is_group(keys@, start as int, end as int),
        start <= position < end,
        old(batch)@.len() == initial.len(),
        old(merged)@.len() == initial.len(),
        forall|q: int|
            start <= q < end ==> stands_at(
                initial,
                cells,
                old(batch)@,
                old(merged)@,
                (#[trigger] keys@[q]).4 as int,
                keys@[position as int].4 as int,
                0,
            ),
        !old(merged)@[keys@[position as int].4 as int],
    ensures
        final(batch)@.len() == initial.len(),
        final(merged)@.len() == initial.len(),
        forall|q: int|
            start <= q < end ==> stands_at(
                initial,
                cells,
                final(batch)@,
                final(merged)@,
                (#[trigger] keys@[q]).4 as int,
                keys@[position as int].4 as int,
                initial.len() as int,
            ),
        forall|q: int|
            0 <= q < keys@.len() && !(start <= q < end) ==> final(batch)@[(
            #[trigger] keys@[q]).4 as int] == old(batch)@[keys@[q].4 as int]
                && final(merged)@[keys@[q].4 as int] == old(merged)@[keys@[q].4 as int],
        !any_merged ==> forall|q: int|
            start <= q < end ==> final(merged)@[(#[trigger] keys@[q]).4 as int] == old(
                merged,
            )@[keys@[q].4 as int],
{
    let keeper = keys[position].4 as usize;
    let ghost k = keeper as int;
    let mut any_merged = false;
    let mut next: usize = position + 1;
    proof {
        lemma_home_from(initial, cells, k, 0);
        assert(stands_at(initial, cells, batch@, merged@, k, k, 0));
        assert(home(initial, cells, k) == k);
        lemma_gap(initial, cells, keys@, start as int, end as int, position as int, position as int);
        assert forall|q: int| start <= q < end implies stands_at(
            initial,
            cells,
            batch@,
            merged@,
            (#[trigger] keys@[q]).4 as int,
            k,
            place(keys@, next as int, end as int),
        ) by {
            lemma_member_order(
                initial,
                cells,
                keys@,
                start as int,
                end as int,
                position as int,
                q,
            );
            lemma_home_from(initial, cells, keys@[q].4 as int, 0);
        }
    }
    while next < end
        invariant
            position < next <= end,
            start <= position < end,
            k == keeper == keys@[position as int].4,
            home(initial, cells, k) == k,
            orders(initial, cells, keys@),
            is_group(keys@, start as int, end as int),
            batch@.len() == initial.len(),
            merged@.len() == initial.len(),
            forall|q: int|
                start <= q < end ==> stands_at(
                    initial,
                    cells,
                    batch@,
                    merged@,
                    (#[trigger] keys@[q]).4 as int,
                    k,
                    place(keys@, next as int, end as int),
                ),
            forall|q: int|
                0 <= q < keys@.len() && !(start <= q < end) ==> batch@[(
                #[trigger] keys@[q]).4 as int] == old(batch)@[keys@[q].4 as int]
                    && merged@[keys@[q].4 as int] == old(merged)@[keys@[q].4 as int],
            !any_merged ==> forall|q: int|
                start <= q < end ==> merged@[(#[trigger] keys@[q]).4 as int] == old(
                    merged,
                )@[keys@[q].4 as int],
        decreases end - next,
    {
        let candidate = keys[next].4 as usize;
        let ghost c = candidate as int;
        let ghost batch0 = batch@;
        let ghost merged0 = merged@;
        proof {
            assert(stands_at(initial, cells, batch@, merged@, c, k, c));
            assert(stands_at(initial, cells, batch@, merged@, k, k, c));
            lemma_member_order(
                initial,
                cells,
                keys@,
                start as int,
                end as int,
                position as int,
                next as int,
            );
            assert(keys@[position as int] == key_of(initial, cells, k));
            assert(keys@[next as int] == key_of(initial, cells, c));
            assert(group_same(keys@[start as int], keys@[position as int]));
            assert(group_same(keys@[start as int], keys@[next as int]));
            lemma_home_from(initial, cells, c, 0);
            assert(takes_in(initial, cells, k, c) == percepts_same(initial[k], initial[c]));
        }
        if !merged[candidate] && percepts_match(&batch[keeper], &batch[candidate]) {
            let value = batch[candidate].base_value;
            let stronger = batch[keeper].base_value.max(value);
            batch[keeper].base_value = stronger;
            merged[candidate] = true;
            any_merged = true;
            assert(home(initial, cells, c) == k);
        } else {
            assert(home(initial, cells, c) != k);
        }
        proof {
            lemma_gap(
                initial,
                cells,
                keys@,
                start as int,
                end as int,
                position as int,
                next as int,
            );
            assert forall|q: int| start <= q < end implies stands_at(
                initial,
                cells,
                batch@,
                merged@,
                (#[trigger] keys@[q]).4 as int,
                k,
                place(keys@, next + 1, end as int),
            ) by {
                let d = keys@[q].4 as int;
                assert(stands_at(initial, cells, batch0, merged0, d, k, c));
                lemma_member_order(
                    initial,
                    cells,
                    keys@,
                    start as int,
                    end as int,
                    next as int,
                    q,
                );
                lemma_home_from(initial, cells, d, 0);
            }
            assert forall|q: int|
                0 <= q < keys@.len() && !(start <= q < end) implies batch@[(
            #[trigger] keys@[q]).4 as int] == batch0[keys@[q].4 as int]
                && merged@[keys@[q].4 as int] == merged0[keys@[q].4 as int] by {
                assert(keys@[q].4 != keys@[position as int].4);
                assert(keys@[q].4 != keys@[next as int].4);
            }
        }
        next += 1;
    }
    any_merged
}

/// Between the message of the key at `r` and the next of the group, none has
/// its home at `position`.
proof fn lemma_gap<P: Percept>(
    batch: Seq<PerceptionMessage<P>>,
    cells: Seq<(u64, u64)>,
    keys: Seq<MergeKey>,
    start: int,
    end: int,
    position: int,
    r: int,
)
    requires
        orders(batch, cells, keys),
        is_group(keys, start, end),
        start <= position <= r < end,
    ensures
        gathered(batch, cells, keys[position].4 as int, place(keys, r + 1, end)) == gathered(
            batch,
            cells,
            keys[position].4 as int,
            keys[r].4 + 1,
        ),
{
    let k = keys[position].4 as int;
    lemma_member_order(batch, cells, keys, start, end, r, position);
    assert forall|i: int| keys[r].4 + 1 <= i < place(keys, r + 1, end) implies home(
        batch,
        cells,
        i,
    ) != k by {
        if home(batch, cells, i) == k {
            lemma_home_in_group(batch, cells, keys, start, end, i, position);
            let p = choose|p: int| start <= p < end && (#[trigger] keys[p]).4 == i;
            lemma_member_order(batch, cells, keys, start, end, r, p);
        }
    }
    lemma_gathered_skip(batch, cells, k, keys[r].4 + 1, place(keys, r + 1, end));
}

/// Merges the messages of one group, whose keys stand from `start` to `end`.
fn merge_group<P: Percept>(
    batch: &mut Vec<PerceptionMessage<P>>,
    keys: &Vec<MergeKey>,
    merged: &mut Vec<bool>,
    start: usize,
    end: usize,
    Ghost(initial): Ghost<Seq<PerceptionMessage<P>>>,
    Ghost(cells): Ghost<Seq<(u64, u64)>>,
) -> (any_merged: bool)
    requires
        orders(initial, cells, keys@),
        is_group(keys@, start as int, end as int),
        old(batch)@.len() == initial.len(),
        old(merged)@.len() == initial.len(),
        forall|q: int|
            start <= q < end ==> stands_at(
                initial,
                cells,
                old(batch)@,
                old(merged)@,
                (#[trigger] keys@[q]).4 as int,
                0,
                0,
            ),
    ensures
        final(batch)@.len() == initial.len(),
        final(merged)@.len() == initial.len(),
        forall|q: int|
            start <= q < end ==> stands_at(
                initial,
                cells,
                final(batch)@,
                final(merged)@,
                (#[trigger] keys@[q]).4 as int,
                initial.len() as int,
                0,
            ),
        forall|q: int|
            0 <= q < keys@.len() && !(start <= q < end) ==> final(batch)@[(
            #[trigger] keys@[q]).4 as int] == old(batch)@[keys@[q].4 as int]
                && final(merged)@[keys@[q].4 as int] == old(merged)@[keys@[q].4 as int],
        !any_merged ==> forall|q: int|
            start <= q < end ==> !final(merged)@[(#[trigger] keys@[q]).4 as int],
{
    let mut any_merged = false;
    let mut position: usize = start;
    proof {
        assert forall|q: int| start <= q < end implies stands_at(
            initial,
            cells,
            batch@,
            merged@,
            (#[trigger] keys@[q]).4 as int,
            keys@[start as int].4 as int,
            0,
        ) by {
            let c = keys@[q].4 as int;
            if home(initial, cells, c) != c {
                lemma_home_in_group(initial, cells, keys@, start as int, end as int, c, q);
                let r = choose|r: int|
                    start <= r < end && (#[trigger] keys@[r]).4 == home(initial, cells, c);
                assert(key_at_most(keys@[start as int], keys@[r]));
            }
            assert(key_at_most(keys@[start as int], keys@[q]));
        }
        assert forall|q: int| start <= q < end implies !merged@[(
        #[trigger] keys@[q]).4 as int] by {
            lemma_home_from(initial, cells, keys@[q].4 as int, 0);
        }
    }
    while position < end
        invariant
            start <= position <= end,
            orders(initial, cells, keys@),
            is_group(keys@, start as int, end as int),
            batch@.len() == initial.len(),
            merged@.len() == initial.len(),
            forall|q: int|
                start <= q < end ==> stands_at(
                    initial,
                    cells,
                    batch@,
                    merged@,
                    (#[trigger] keys@[q]).4 as int,
                    place(keys@, position as int, end as int),
                    0,
                ),
            forall|q: int|
                0 <= q < keys@.len() && !(start <= q < end) ==> batch@[(
                #[trigger] keys@[q]).4 as int] == old(batch)@[keys@[q].4 as int]
                    && merged@[keys@[q].4 as int] == old(merged)@[keys@[q].4 as int],
            !any_merged ==> forall|q: int|
                start <= q < end ==> !merged@[(#[trigger] keys@[q]).4 as int],
        decreases end - position,
    {
        let keeper = keys[position].4 as usize;
        if !merged[keeper] {
            if merge_into(
                batch,
                keys,
                merged,
                start,
                end,
                position,
                Ghost(initial),
                Ghost(cells),
            ) {
                any_merged = true;
            }
        } else {
            proof {
                assert(stands_at(initial, cells, batch@, merged@, keeper as int, keeper as int, 0));
                lemma_gathered_absorbed(initial, cells, keeper as int);
                assert forall|q: int| start <= q < end implies stands_at(
                    initial,
                    cells,
                    batch@,
                    merged@,
                    (#[trigger] keys@[q]).4 as int,
                    keeper as int,
                    initial.len() as int,
                ) by {
                    lemma_home_from(initial, cells, keys@[q].4 as int, 0);
                }
            }
        }
        proof {
            lemma_next_place(
                initial,
                cells,
                batch@,
                merged@,
                keys@,
                start as int,
                end as int,
                position as int,
            );
        }
        position += 1;
    }
    any_merged
}

/// Folds messages that share a percept, a source, a range and an origin cell
/// into the earliest of them, at the strongest of their base intensities.
///
/// `keys` and `merged` are working storage. Where there was something to do, they
/// hold the sorted keys and the marks of the messages that were folded into
/// others.
pub fn merge_batch<A: Arithmetic, P: Percept>(
    batch: &mut Vec<PerceptionMessage<P>>,
    keys: &mut Vec<MergeKey>,
    merged: &mut Vec<bool>,
    merge_radius: Scalar,
)
    requires
        old(batch)@.len() <= u32::MAX,
    ensures
        merging_is::<A, P>(old(batch)@, merge_radius, final(batch)@),
        final(batch)@.len() <= old(batch)@.len(),
        merging_skipped(old(batch)@, merge_radius) ==> final(keys)@ == old(keys)@ && final(merged)@
            == old(merged)@,
        !merging_skipped(old(batch)@, merge_radius) ==> exists|cells: Seq<(u64, u64)>|
            {
                &&& #[trigger] cells_are::<A, P>(old(batch)@, merge_radius, cells)
                &&& final(batch)@ == merged_by(old(batch)@, cells)
                &&& final(merged)@ == absorbed(old(batch)@, cells)
                &&& keys_sorted(final(keys)@)
                &&& final(keys)@.to_multiset() == keys_of(old(batch)@, cells).to_multiset()
            },
{
    let ghost initial = batch@;
    if batch.len() < 2 || merge_radius < Scalar::from_bits(ZERO_BITS) {
        return ;
    }
    let ghost mut cells: Seq<(u64, u64)> = Seq::empty();
    keys.clear();
    let mut i: usize = 0;
    while i < batch.len()
        invariant
            0 <= i <= batch.len() <= u32::MAX,
            batch@ == initial,
            keys@.len() == cells.len() == i,
            cells_are::<A, P>(initial.take(i as int), merge_radius, cells),
            forall|j: int| 0 <= j < i ==> #[trigger] keys@[j] == key_of(initial, cells, j),
        decreases batch.len() - i,
    {
        let (x, y) = origin_key::<A>(batch[i].origin, merge_radius);
        let source = match batch[i].source {
            Some(entity) => Some(entity.bits),
            None => None,
        };
        keys.push((x, y, batch[i].range.to_bits(), source, i as u32));
        proof {
            let cells0 = cells;
            cells = cells.push((x, y));
            assert forall|j: int| 0 <= j < i + 1 implies origin_key_is::<A>(
                initial.take(i + 1)[j].origin,
                merge_radius,
                #[trigger] cells[j],
            ) by {
                if j < i {
                    assert(origin_key_is::<A>(
                        initial.take(i as int)[j].origin,
                        merge_radius,
                        cells0[j],
                    ));
                }
            }
            assert forall|j: int| 0 <= j < i + 1 implies #[trigger] keys@[j] == key_of(
                initial,
                cells,
                j,
            ) by {
                if j < i {
                    assert(keys@[j] == key_of(initial, cells0, j));
                    assert(cells[j] == cells0[j]);
                }
            }
        }
        i += 1;
    }
    assert(initial.take(i as int) =~= initial);
    let ghost listed = keys@;
    assert(listed =~= keys_of(initial, cells));
    sort_keys(keys);
    let ghost sorted = keys@;
    proof {
        lemma_orders(initial, cells, listed, keys@);
    }
    merged.clear();
    merged.resize(batch.len(), false);
    let mut any_merged = false;
    let mut group_start: usize = 0;
    proof {
        assert forall|q: int| 0 <= q < keys@.len() implies stands_at(
            initial,
            cells,
            batch@,
            merged@,
            (#[trigger] keys@[q]).4 as int,
            0,
            0,
        ) by {
            lemma_home_from(initial, cells, keys@[q].4 as int, 0);
            assert(cloned(false, merged@[keys@[q].4 as int]));
        }
    }
    while group_start < keys.len()
        invariant
            0 <= group_start <= keys@.len(),
            keys@ == sorted,
            orders(initial, cells, keys@),
            batch@.len() == initial.len(),
            merged@.len() == initial.len(),
            0 < group_start < keys@.len() ==> !group_same(
                keys@[group_start - 1],
                keys@[group_start as int],
            ),
            forall|q: int|
                0 <= q < group_start ==> stands_at(
                    initial,
                    cells,
                    batch@,
                    merged@,
                    (#[trigger] keys@[q]).4 as int,
                    initial.len() as int,
                    0,
                ),
            forall|q: int|
                group_start <= q < keys@.len() ==> stands_at(
                    initial,
                    cells,
                    batch@,
                    merged@,
                    (#[trigger] keys@[q]).4 as int,
                    0,
                    0,
                ),
            !any_merged ==> forall|q: int|
                0 <= q < group_start ==> !merged@[(#[trigger] keys@[q]).4 as int],
        decreases keys.len() - group_start,
    {
        let mut group_end: usize = group_start + 1;
        while group_end < keys.len() && same_group(&keys[group_start], &keys[group_end])
            invariant
                group_start < group_end <= keys@.len(),
                forall|p: int|
                    group_start <= p < group_end ==> group_same(
                        keys@[group_start as int],
                        #[trigger] keys@[p],
                    ),
            decreases keys.len() - group_end,
        {
            group_end += 1;
        }
        proof {
            lemma_run_is_group(keys@, group_start as int, group_end as int);
        }
        let ghost batch0 = batch@;
        let ghost merged0 = merged@;
        if merge_group(
            batch,
            keys,
            merged,
            group_start,
            group_end,
            Ghost(initial),
            Ghost(cells),
        ) {
            any_merged = true;
        }
        proof {
            assert forall|q: int| 0 <= q < group_start implies stands_at(
                initial,
                cells,
                batch@,
                merged@,
                (#[trigger] keys@[q]).4 as int,
                initial.len() as int,
                0,
            ) by {
                assert(stands_at(
                    initial,
                    cells,
                    batch0,
                    merged0,
                    keys@[q].4 as int,
                    initial.len() as int,
                    0,
                ));
            }
            if group_end < keys@.len() {
                assert(!group_same(keys@[group_start as int], keys@[group_end as int]));
                assert(group_same(keys@[group_start as int], keys@[group_end - 1]));
            }
        }
        group_start = group_end;
    }
    proof {
        assert forall|c: int| 0 <= c < initial.len() implies #[trigger] stands_at(
            initial,
            cells,
            batch@,
            merged@,
            c,
            initial.len() as int,
            0,
        ) && 0 <= home(initial, cells, c) <= c by {
            assert(has_key(keys@, c));
            let q = choose|q: int| 0 <= q < keys@.len() && (#[trigger] keys@[q]).4 == c;
            assert(stands_at(
                initial,
                cells,
                batch@,
                merged@,
                keys@[q].4 as int,
                initial.len() as int,
                0,
            ));
            lemma_home_from(initial, cells, c, 0);
        }
        assert forall|c: int| 0 <= c < initial.len() implies #[trigger] batch@[c] == strengthened(
            initial,
            cells,
        )[c] by {
            assert(stands_at(initial, cells, batch@, merged@, c, initial.len() as int, 0));
        }
        assert forall|c: int| 0 <= c < initial.len() implies #[trigger] merged@[c] == absorbed(
            initial,
            cells,
        )[c] by {
            assert(stands_at(initial, cells, batch@, merged@, c, initial.len() as int, 0));
        }
        assert(batch@ =~= strengthened(initial, cells));
        assert(merged@ =~= absorbed(initial, cells));
    }
    if !any_merged {
        proof {
            assert forall|c: int| 0 <= c < merged@.len() implies !merged@[c] by {
                assert(has_key(keys@, c));
                let q = choose|q: int| 0 <= q < keys@.len() && (#[trigger] keys@[q]).4 == c;
                assert(!merged@[keys@[q].4 as int]);
            }
            lemma_undropped_all(batch@, merged@);
        }
        return ;
    }
    proof {
        lemma_undropped_len(batch@, merged@);
    }
    drop_merged(batch, merged);
}

proof fn lemma_undropped_len<P>(batch: Seq<PerceptionMessage<P>>, dropped: Seq<bool>)
    ensures
        undropped(batch, dropped).len() <= batch.len(),
    decreases batch.len(),
{
    if batch.len() > 0 {
        lemma_undropped_len(batch.drop_last(), dropped);
    }
}

/// Where nothing is dropped, everything stays.
proof fn lemma_undropped_all<P>(batch: Seq<PerceptionMessage<P>>, dropped: Seq<bool>)
    requires
        dropped.len() >= batch.len(),
        forall|i: int| 0 <= i < batch.len() ==> !dropped[i],
    ensures
        undropped(batch, dropped) == batch,
    decreases batch.len(),
{
    if batch.len() > 0 {
        lemma_undropped_all(batch.drop_last(), dropped);
        assert(batch.drop_last().push(batch.last()) =~= batch);
    }
}

/// Takes the merged messages out of the batch and keeps the order of the rest.
fn drop_merged<P>(batch: &mut Vec<PerceptionMessage<P>>, merged: &Vec<bool>)
    requires
        merged@.len() == old(batch)@.len(),
    ensures
        final(batch)@ == undropped(old(batch)@, merged@),
{
    let ghost wanted = undropped(batch@, merged@);
    let mut kept: Vec<PerceptionMessage<P>> = Vec::new();
    assert(batch@ =~= batch@ + kept@.reverse());
    while batch.len() > 0
        invariant
            batch@.len() <= merged@.len(),
            wanted == undropped(batch@, merged@) + kept@.reverse(),
        decreases batch.len(),
    {
        let ghost batch0 = batch@;
        let ghost kept0 = kept@;
        if let Some(message) = batch.pop() {
            assert(batch@ =~= batch0.drop_last());
            if !merged[batch.len()] {
                kept.push(message);
                assert(kept@.reverse() =~= seq![message] + kept0.reverse());
                assert(wanted =~= undropped(batch@, merged@) + kept@.reverse());
            }
        }
    }
    assert(wanted =~= batch@ + kept@.reverse());
    while kept.len() > 0
        invariant
            wanted == batch@ + kept@.reverse(),
        decreases kept.len(),
    {
        let ghost batch0 = batch@;
        let ghost kept0 = kept@;
        if let Some(message) = kept.pop() {
            assert(kept0.reverse() =~= seq![message] + kept@.reverse());
            batch.push(message);
            assert(wanted =~= batch@ + kept@.reverse());
        }
    }
    assert(wanted =~= batch@);
}

} // verus!
