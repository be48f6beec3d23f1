//! Laws of the spatial index.

use crate::arithmetic;
use crate::arithmetic::Arithmetic;
use crate::extent;
use crate::extent_laws;
use crate::index;
use crate::index::{MessageIndex, Reach};
use crate::message::PerceptionMessage;
use crate::rounding;
use crate::scalar::{Scalar, ONE_BITS};
use crate::space;
use crate::space::{Cell, Vec2};
use vstd::prelude::*;

verus! {

/// An actor looks at the messages that cover its cell, each once, in the order
/// of the batch.
pub proof fn law_candidates_cover_in_order(reaches: Seq<Reach>, cell: Cell)
    requires
        reaches.len() <= u32::MAX,
    ensures
        forall|j: int, k: int|
            0 <= j < k < index::candidates_of(reaches, cell).len()
                ==> #[trigger] index::candidates_of(reaches, cell)[j]
                < #[trigger] index::candidates_of(reaches, cell)[k],
        forall|i: int|
            0 <= i < reaches.len() ==> ((#[trigger] reaches[i]).covers(cell)
                <==> index::candidates_of(reaches, cell).contains(i as u32)),
    decreases reaches.len(),
{
    index::lemma_candidates(reaches, cell);
    if reaches.len() > 0 {
        let shorter = reaches.drop_last();
        let last = reaches.len() - 1;
        law_candidates_cover_in_order(shorter, cell);
        index::lemma_candidates(shorter, cell);
        let rest = index::candidates_of(shorter, cell);
        let all = index::candidates_of(reaches, cell);
        assert forall|i: int| 0 <= i < reaches.len() implies ((#[trigger] reaches[i]).covers(cell)
            <==> all.contains(i as u32)) by {
            if i < last {
                assert(shorter[i] == reaches[i]);
                if rest.contains(i as u32) {
                    let j = choose|j: int| 0 <= j < rest.len() && rest[j] == i as u32;
                    assert(all[j] == i as u32);
                }
                if all.contains(i as u32) {
                    let j = choose|j: int| 0 <= j < all.len() && all[j] == i as u32;
                    assert(rest[j] == i as u32);
                }
            } else {
                if reaches[last].covers(cell) {
                    assert(all[rest.len() as int] == last as u32);
                } else if all.contains(last as u32) {
                    let j = choose|j: int| 0 <= j < rest.len() && rest[j] == last as u32;
                    assert(rest[j] < shorter.len());
                }
            }
        }
    }
}

/// Where operations have one result, a number falls on one line.
proof fn lemma_line_settled<A: Arithmetic>(a: Scalar, b: Scalar, x: Scalar, y: Scalar)
    requires
        arithmetic::settled::<A>(),
        space::line_is::<A>(a, b, x),
        space::line_is::<A>(a, b, y),
    ensures
        x == y,
{
    let q = choose|quotient: Scalar| #[trigger]
        arithmetic::over_is::<A>(a, b, quotient) && arithmetic::floor_is::<A>(quotient, x);
    let r = choose|quotient: Scalar| #[trigger]
        arithmetic::over_is::<A>(a, b, quotient) && arithmetic::floor_is::<A>(quotient, y);
    assert(q == r);
}

/// Where operations have one result, a quotient is read as one integer.
proof fn lemma_quotient_settled<A: Arithmetic>(a: Scalar, b: Scalar, x: i32, y: i32)
    requires
        arithmetic::settled::<A>(),
        space::whole_quotient_is::<A>(a, b, x),
        space::whole_quotient_is::<A>(a, b, y),
    ensures
        x == y,
{
    let p = choose|line: Scalar| #[trigger]
        space::line_is::<A>(a, b, line) && arithmetic::to_int_is::<A>(line, x);
    let q = choose|line: Scalar| #[trigger]
        space::line_is::<A>(a, b, line) && arithmetic::to_int_is::<A>(line, y);
    lemma_line_settled::<A>(a, b, p, q);
}

proof fn lemma_lines_settled<A: Arithmetic>(
    centre: Scalar,
    range: Scalar,
    limit: Scalar,
    edge: Scalar,
    a: (Scalar, Scalar),
    b: (Scalar, Scalar),
)
    requires
        arithmetic::settled::<A>(),
        rounding::keeps_order::<A>(),
        centre.finite(),
        !range.nan(),
        arithmetic::times_is::<A>(range, range, limit),
        index::lines_are::<A>(centre, range, limit, edge, a.0, a.1),
        index::lines_are::<A>(centre, range, limit, edge, b.0, b.1),
    ensures
        a == b,
{
    let (l, h) = choose|low: Scalar, high: Scalar| #[trigger]
        extent::ends_are::<A>(centre, range, limit, low, high) && space::line_is::<A>(
            low,
            edge,
            a.0,
        ) && space::line_is::<A>(high, edge, a.1);
    let (m, i) = choose|low: Scalar, high: Scalar| #[trigger]
        extent::ends_are::<A>(centre, range, limit, low, high) && space::line_is::<A>(
            low,
            edge,
            b.0,
        ) && space::line_is::<A>(high, edge, b.1);
    extent_laws::law_ends_settled::<A>(centre, range, limit, (l, h), (m, i));
    lemma_line_settled::<A>(l, edge, a.0, b.0);
    lemma_line_settled::<A>(h, edge, a.1, b.1);
}

proof fn lemma_length_settled<A: Arithmetic>(first: Scalar, last: Scalar, x: Scalar, y: Scalar)
    requires
        arithmetic::settled::<A>(),
        index::length_is::<A>(first, last, x),
        index::length_is::<A>(first, last, y),
    ensures
        x == y,
{
    let one = Scalar::from_bits(ONE_BITS);
    let p = choose|steps: Scalar| #[trigger]
        arithmetic::minus_is::<A>(last, first, steps) && arithmetic::plus_is::<A>(steps, one, x);
    let q = choose|steps: Scalar| #[trigger]
        arithmetic::minus_is::<A>(last, first, steps) && arithmetic::plus_is::<A>(steps, one, y);
    assert(p == q);
}

proof fn lemma_between_settled<A: Arithmetic>(first: Vec2, last: Vec2, a: Reach, b: Reach)
    requires
        arithmetic::settled::<A>(),
        index::reach_between_is::<A>(first, last, a),
        index::reach_between_is::<A>(first, last, b),
    ensures
        a == b,
{
    let c = choose|count: Scalar| #[trigger]
        index::cell_count_is::<A>(first, last, count) && index::count_decides::<A>(
            first,
            last,
            count,
            a,
        );
    let d = choose|count: Scalar| #[trigger]
        index::cell_count_is::<A>(first, last, count) && index::count_decides::<A>(
            first,
            last,
            count,
            b,
        );
    let (w, h) = choose|width: Scalar, height: Scalar| #[trigger]
        index::length_is::<A>(first.x, last.x, width) && #[trigger] index::length_is::<A>(
            first.y,
            last.y,
            height,
        ) && arithmetic::times_is::<A>(width, height, c);
    let (v, g) = choose|width: Scalar, height: Scalar| #[trigger]
        index::length_is::<A>(first.x, last.x, width) && #[trigger] index::length_is::<A>(
            first.y,
            last.y,
            height,
        ) && arithmetic::times_is::<A>(width, height, d);
    lemma_length_settled::<A>(first.x, last.x, w, v);
    lemma_length_settled::<A>(first.y, last.y, h, g);
}

/// Where operations have one result and keep order, a message has one reach.
proof fn lemma_reach_settled<A: Arithmetic>(
    origin: Vec2,
    range: Scalar,
    edge: Scalar,
    a: Reach,
    b: Reach,
)
    requires
        arithmetic::settled::<A>(),
        rounding::keeps_order::<A>(),
        index::reach_is::<A>(origin, range, edge, a),
        index::reach_is::<A>(origin, range, edge, b),
    ensures
        a == b,
{
    let limit = choose|limit: Scalar| #[trigger]
        arithmetic::times_is::<A>(range, range, limit) && index::listed_as::<A>(
            origin,
            range,
            limit,
            edge,
            a,
        );
    let other = choose|limit: Scalar| #[trigger]
        arithmetic::times_is::<A>(range, range, limit) && index::listed_as::<A>(
            origin,
            range,
            limit,
            edge,
            b,
        );
    assert(limit == other);
    if index::listable(origin, range, limit) {
        let (p, q) = choose|first: Vec2, last: Vec2| #[trigger]
            index::corners_are::<A>(origin, range, limit, edge, first, last)
                && index::reach_between_is::<A>(first, last, a);
        let (r, s) = choose|first: Vec2, last: Vec2| #[trigger]
            index::corners_are::<A>(origin, range, limit, edge, first, last)
                && index::reach_between_is::<A>(first, last, b);
        lemma_lines_settled::<A>(origin.x, range, limit, edge, (p.x, q.x), (r.x, s.x));
        lemma_lines_settled::<A>(origin.y, range, limit, edge, (p.y, q.y), (r.y, s.y));
        lemma_between_settled::<A>(p, q, a, b);
    }
}

/// An index hands out the same as any other of the same batch, whatever either
/// held before: nothing of an earlier batch is left.
pub proof fn law_rebuilt_answers_as_fresh<A: Arithmetic, P>(
    batch: Seq<PerceptionMessage<P>>,
    rebuilt: MessageIndex,
    fresh: MessageIndex,
    position: Vec2,
    a: Seq<u32>,
    b: Seq<u32>,
)
    requires
        arithmetic::settled::<A>(),
        rounding::keeps_order::<A>(),
        batch.len() <= u32::MAX,
        rebuilt.indexes::<A, P>(batch),
        fresh.indexes::<A, P>(batch),
        rebuilt.hands_out::<A>(position, a),
        fresh.hands_out::<A>(position, b),
    ensures
        a == b,
        forall|j: int| 0 <= j < a.len() ==> #[trigger] a[j] < batch.len(),
{
    rebuilt.edge().lemma_total_rank_injective(fresh.edge());
    let edge = fresh.edge();
    let x = choose|reaches: Seq<Reach>| #[trigger]
        index::reaches_are::<A, P>(batch, edge, reaches) && rebuilt.holds(reaches);
    let y = choose|reaches: Seq<Reach>| #[trigger]
        index::reaches_are::<A, P>(batch, edge, reaches) && fresh.holds(reaches);
    assert forall|i: int| 0 <= i < batch.len() implies x[i] == y[i] by {
        lemma_reach_settled::<A>(batch[i].origin, batch[i].range, edge, x[i], y[i]);
    }
    assert(x =~= y);
    let c = choose|cell: Cell| #[trigger]
        position.cell_is::<A>(edge, cell) && a == index::interleaved(
            rebuilt.bucket(index::cell_key_of(cell)),
            rebuilt.wide_messages(),
        );
    let d = choose|cell: Cell| #[trigger]
        position.cell_is::<A>(edge, cell) && b == index::interleaved(
            fresh.bucket(index::cell_key_of(cell)),
            fresh.wide_messages(),
        );
    lemma_quotient_settled::<A>(position.x, edge, c.x, d.x);
    lemma_quotient_settled::<A>(position.y, edge, c.y, d.y);
    index::lemma_candidates(x, c);
}

/// Storage is made for a batch that needs more of it than any before, and a
/// steady load makes none.
pub proof fn law_steady_load_makes_no_storage(before: MessageIndex, after: MessageIndex)
    requires
        after.storage_after(before),
    ensures
        after.bucket_storage() >= before.bucket_storage(),
        after.in_use() <= before.bucket_storage() ==> after.bucket_storage()
            == before.bucket_storage(),
{
}

/// How many of some integers are at most `bound`.
pub open spec fn count_up_to(values: Seq<int>, bound: int) -> nat
    decreases values.len(),
{
    if values.len() == 0 {
        0
    } else {
        count_up_to(values.drop_last(), bound) + if values.last() <= bound {
            1nat
        } else {
            0nat
        }
    }
}

proof fn lemma_count_without(values: Seq<int>, at: int, bound: int)
    requires
        0 <= at < values.len(),
    ensures
        count_up_to(values, bound) == count_up_to(values.remove(at), bound) + if values[at]
            <= bound {
            1nat
        } else {
            0nat
        },
    decreases values.len(),
{
    let last = values.len() - 1;
    if at == last {
        assert(values.remove(at) =~= values.drop_last());
    } else {
        let rest = values.drop_last();
        lemma_count_without(rest, at, bound);
        assert(values.remove(at).drop_last() =~= rest.remove(at));
        assert(values.remove(at).last() == values.last());
    }
}

proof fn lemma_count_permuted(a: Seq<int>, b: Seq<int>, bound: int)
    requires
        a.to_multiset() == b.to_multiset(),
    ensures
        count_up_to(a, bound) == count_up_to(b, bound),
    decreases a.len(),
{
    a.to_multiset_ensures();
    b.to_multiset_ensures();
    assert(a.len() == b.len());
    if a.len() > 0 {
        let last = a.last();
        assert(a.contains(last)) by {
            assert(a[a.len() - 1] == last);
        }
        assert(a.to_multiset().count(last) > 0);
        assert(b.contains(last));
        let at = choose|at: int| 0 <= at < b.len() && b[at] == last;
        let (x, y) = (a.drop_last(), b.remove(at));
        assert(x =~= a.remove(a.len() - 1));
        vstd::seq_lib::to_multiset_remove(a, a.len() - 1);
        vstd::seq_lib::to_multiset_remove(b, at);
        lemma_count_permuted(x, y, bound);
        lemma_count_without(b, at, bound);
    }
}

proof fn lemma_count_prefix(values: Seq<int>, n: int, bound: int)
    requires
        0 <= n <= values.len(),
        forall|i: int| 0 <= i < n ==> #[trigger] values[i] <= bound,
    ensures
        count_up_to(values, bound) >= n,
    decreases values.len(),
{
    if values.len() > 0 {
        let rest = values.drop_last();
        let m = if n == values.len() {
            n - 1
        } else {
            n
        };
        assert forall|i: int| 0 <= i < m implies #[trigger] rest[i] <= bound by {
            assert(values[i] <= bound);
        }
        lemma_count_prefix(rest, m, bound);
        if n == values.len() {
            assert(values[n - 1] <= bound);
        }
    }
}

/// More than half of the messages have a range of at most the edge of the grid.
pub proof fn law_edge_is_no_less_than_half_the_ranges<P>(
    batch: Seq<PerceptionMessage<P>>,
    edge: Scalar,
)
    requires
        batch.len() > 0,
        edge.total_rank() == index::median_rank(index::ranges_of(batch)),
    ensures
        2 * count_up_to(index::total_ranks(index::ranges_of(batch)), edge.total_rank())
            > batch.len(),
{
    let ranks = index::total_ranks(index::ranges_of(batch));
    let middle = batch.len() as int / 2;
    ranks.lemma_sort_ensures();
    let sorted = ranks.sort();
    sorted.to_multiset_ensures();
    ranks.to_multiset_ensures();
    assert(sorted.to_multiset().len() == ranks.to_multiset().len());
    let leq = |x: int, y: int| x <= y;
    assert(vstd::relations::sorted_by(sorted, leq));
    assert forall|i: int| 0 <= i < middle + 1 implies #[trigger] sorted[i] <= sorted[middle] by {
        if i < middle {
            assert(leq(sorted[i], sorted[middle]));
        }
    }
    lemma_count_prefix(sorted, middle + 1, sorted[middle]);
    lemma_count_permuted(sorted, ranks, sorted[middle]);
}

/// How many of some integers are at least `bound`.
pub open spec fn count_from(values: Seq<int>, bound: int) -> nat
    decreases values.len(),
{
    if values.len() == 0 {
        0
    } else {
        count_from(values.drop_last(), bound) + if values.last() >= bound {
            1nat
        } else {
            0nat
        }
    }
}

/// What is at least a bound is what is not at most the integer before it.
proof fn lemma_counts_complete(values: Seq<int>, bound: int)
    ensures
        count_from(values, bound) + count_up_to(values, bound - 1) == values.len(),
    decreases values.len(),
{
    if values.len() > 0 {
        lemma_counts_complete(values.drop_last(), bound);
    }
}

/// The counts up to a bound grow with the list.
proof fn lemma_count_suffix(values: Seq<int>, n: int, bound: int)
    requires
        0 <= n <= values.len(),
        forall|i: int| n <= i < values.len() ==> #[trigger] values[i] > bound,
    ensures
        count_up_to(values, bound) <= n,
    decreases values.len(),
{
    if values.len() > n {
        let rest = values.drop_last();
        assert forall|i: int| n <= i < rest.len() implies #[trigger] rest[i] > bound by {
            assert(values[i] > bound);
        }
        assert(values[values.len() - 1] > bound);
        lemma_count_suffix(rest, n, bound);
    } else {
        lemma_count_at_most(values, bound);
    }
}

proof fn lemma_count_at_most(values: Seq<int>, bound: int)
    ensures
        count_up_to(values, bound) <= values.len(),
    decreases values.len(),
{
    if values.len() > 0 {
        lemma_count_at_most(values.drop_last(), bound);
    }
}

/// The edge of the grid is the upper median of the ranges: it is one of them, more
/// than half of the messages have a range of at most the edge, and half of them or
/// more, rounded up, have one of at least the edge.
pub proof fn law_edge_is_the_upper_median<P>(batch: Seq<PerceptionMessage<P>>, edge: Scalar)
    requires
        batch.len() > 0,
        edge.total_rank() == index::median_rank(index::ranges_of(batch)),
    ensures
        exists|i: int|
            0 <= i < batch.len() && (#[trigger] batch[i]).range.bits == edge.bits,
        ({
            let ranks = Seq::new(batch.len(), |i: int| batch[i].range.total_rank());
            &&& 2 * count_up_to(ranks, edge.total_rank()) > batch.len()
            &&& 2 * count_from(ranks, edge.total_rank()) >= batch.len()
        }),
{
    let ranks = index::total_ranks(index::ranges_of(batch));
    assert(ranks =~= Seq::new(batch.len(), |i: int| batch[i].range.total_rank()));
    law_edge_is_no_less_than_half_the_ranges(batch, edge);
    let middle = batch.len() as int / 2;
    ranks.lemma_sort_ensures();
    let sorted = ranks.sort();
    sorted.to_multiset_ensures();
    ranks.to_multiset_ensures();
    assert(sorted.to_multiset().len() == ranks.to_multiset().len());
    let leq = |x: int, y: int| x <= y;
    assert(vstd::relations::sorted_by(sorted, leq));
    let r = edge.total_rank();
    assert(sorted.contains(sorted[middle]));
    assert(sorted.to_multiset().count(r) > 0);
    assert(ranks.contains(r));
    let at = choose|at: int| 0 <= at < ranks.len() && ranks[at] == r;
    batch[at].range.lemma_total_rank_injective(edge);
    assert forall|i: int| 0 <= i < middle implies #[trigger] sorted[i] <= sorted[middle] by {
        assert(leq(sorted[i], sorted[middle]));
    }
    assert forall|i: int| middle <= i < sorted.len() implies #[trigger] sorted[i] > r - 1 by {
        if i > middle {
            assert(leq(sorted[middle], sorted[i]));
        }
    }
    lemma_count_suffix(sorted, middle, r - 1);
    lemma_count_permuted(sorted, ranks, r - 1);
    lemma_counts_complete(ranks, r);
}

/// How an index answers an actor at a place.
pub struct Answer {
    /// The place divided by the edge of the grid, and that rounded down.
    pub quotient: Vec2,
    pub line: Vec2,
    /// The cell that is looked up.
    pub cell: Cell,
    /// The reaches of the messages.
    pub reaches: Seq<Reach>,
}

/// An index hands out, in order and each once, the messages that reach too many
/// cells and those that reach the cell that the place falls on, and no others.
pub proof fn law_index_hands_out_what_reaches_the_cell<A: Arithmetic, P>(
    batch: Seq<PerceptionMessage<P>>,
    messages: MessageIndex,
    position: Vec2,
    candidates: Seq<u32>,
) -> (a: Answer)
    requires
        batch.len() <= u32::MAX,
        messages.indexes::<A, P>(batch),
        messages.hands_out::<A>(position, candidates),
    ensures
        arithmetic::over_is::<A>(position.x, messages.edge(), a.quotient.x),
        arithmetic::over_is::<A>(position.y, messages.edge(), a.quotient.y),
        arithmetic::floor_is::<A>(a.quotient.x, a.line.x),
        arithmetic::floor_is::<A>(a.quotient.y, a.line.y),
        arithmetic::to_int_is::<A>(a.line.x, a.cell.x),
        arithmetic::to_int_is::<A>(a.line.y, a.cell.y),
        a.reaches.len() == batch.len(),
        forall|i: int|
            0 <= i < batch.len() ==> index::reach_is::<A>(
                batch[i].origin,
                batch[i].range,
                messages.edge(),
                #[trigger] a.reaches[i],
            ),
        forall|j: int, k: int|
            0 <= j < k < candidates.len() ==> #[trigger] candidates[j] < #[trigger] candidates[k],
        forall|j: int| 0 <= j < candidates.len() ==> #[trigger] candidates[j] < batch.len(),
        forall|i: int|
            0 <= i < batch.len() ==> (candidates.contains(i as u32)
                <==> match #[trigger] a.reaches[i] {
                Reach::Wide => true,
                Reach::Span { min, max } => min.x <= a.cell.x && a.cell.x <= max.x && min.y
                    <= a.cell.y && a.cell.y <= max.y,
            }),
{
    let edge = messages.edge();
    let reaches = choose|reaches: Seq<Reach>| #[trigger]
        index::reaches_are::<A, P>(batch, edge, reaches) && messages.holds(reaches);
    let cell = choose|cell: Cell| #[trigger]
        position.cell_is::<A>(edge, cell) && candidates == index::interleaved(
            messages.bucket(index::cell_key_of(cell)),
            messages.wide_messages(),
        );
    index::lemma_candidates(reaches, cell);
    law_candidates_cover_in_order(reaches, cell);
    let (p, x) = lemma_quotient_by_the_numbers::<A>(position.x, edge, cell.x);
    let (q, y) = lemma_quotient_by_the_numbers::<A>(position.y, edge, cell.y);
    Answer { quotient: Vec2 { x: p, y: q }, line: Vec2 { x, y }, cell, reaches }
}

/// The cell of a point is, along each axis, its coordinate divided by the edge,
/// rounded down and read as an integer.
pub proof fn law_cell_by_the_numbers<A: Arithmetic>(point: Vec2, edge: Scalar, cell: Cell) -> (parts: (
    Vec2,
    Vec2,
))
    requires
        point.cell_is::<A>(edge, cell),
    ensures
        arithmetic::over_is::<A>(point.x, edge, parts.0.x),
        arithmetic::over_is::<A>(point.y, edge, parts.0.y),
        arithmetic::floor_is::<A>(parts.0.x, parts.1.x),
        arithmetic::floor_is::<A>(parts.0.y, parts.1.y),
        arithmetic::to_int_is::<A>(parts.1.x, cell.x),
        arithmetic::to_int_is::<A>(parts.1.y, cell.y),
{
    let (p, x) = lemma_quotient_by_the_numbers::<A>(point.x, edge, cell.x);
    let (q, y) = lemma_quotient_by_the_numbers::<A>(point.y, edge, cell.y);
    (Vec2 { x: p, y: q }, Vec2 { x, y })
}

proof fn lemma_quotient_by_the_numbers<A: Arithmetic>(a: Scalar, b: Scalar, whole: i32) -> (parts: (
    Scalar,
    Scalar,
))
    requires
        space::whole_quotient_is::<A>(a, b, whole),
    ensures
        arithmetic::over_is::<A>(a, b, parts.0),
        arithmetic::floor_is::<A>(parts.0, parts.1),
        arithmetic::to_int_is::<A>(parts.1, whole),
{
    let line = choose|line: Scalar| #[trigger]
        space::line_is::<A>(a, b, line) && arithmetic::to_int_is::<A>(line, whole);
    let quotient = choose|quotient: Scalar| #[trigger]
        arithmetic::over_is::<A>(a, b, quotient) && arithmetic::floor_is::<A>(quotient, line);
    (quotient, line)
}

/// A range is listed, along an axis, from the line that its low end falls on to
/// that of its high end. Returns the ends and their quotients by the edge.
pub proof fn law_lines_by_the_numbers<A: Arithmetic>(
    centre: Scalar,
    range: Scalar,
    limit: Scalar,
    edge: Scalar,
    first: Scalar,
    last: Scalar,
) -> (parts: (Scalar, Scalar, Scalar, Scalar))
    requires
        index::lines_are::<A>(centre, range, limit, edge, first, last),
    ensures
        extent::ends_are::<A>(centre, range, limit, parts.0, parts.1),
        arithmetic::over_is::<A>(parts.0, edge, parts.2),
        arithmetic::over_is::<A>(parts.1, edge, parts.3),
        arithmetic::floor_is::<A>(parts.2, first),
        arithmetic::floor_is::<A>(parts.3, last),
{
    let (low, high) = choose|low: Scalar, high: Scalar| #[trigger]
        extent::ends_are::<A>(centre, range, limit, low, high) && space::line_is::<A>(
            low,
            edge,
            first,
        ) && space::line_is::<A>(high, edge, last);
    let p = choose|quotient: Scalar| #[trigger]
        arithmetic::over_is::<A>(low, edge, quotient) && arithmetic::floor_is::<A>(quotient, first);
    let q = choose|quotient: Scalar| #[trigger]
        arithmetic::over_is::<A>(high, edge, quotient) && arithmetic::floor_is::<A>(quotient, last);
    (low, high, p, q)
}

/// How the cells between two corners are counted: steps and lengths along both
/// axes, and the product of the lengths.
pub struct Count {
    pub columns: Scalar,
    pub width: Scalar,
    pub rows: Scalar,
    pub height: Scalar,
    pub count: Scalar,
}

/// The cells between two corners are counted before the corners are read as
/// integers: the steps along either axis and one, multiplied. They are too many if
/// and only if that is not finite or more than sixty-four.
pub proof fn law_reach_between_by_the_numbers<A: Arithmetic>(
    first: Vec2,
    last: Vec2,
    reach: Reach,
) -> (c: Count)
    requires
        index::reach_between_is::<A>(first, last, reach),
    ensures
        arithmetic::minus_is::<A>(last.x, first.x, c.columns),
        arithmetic::plus_is::<A>(c.columns, Scalar { bits: 0x3f80_0000 }, c.width),
        arithmetic::minus_is::<A>(last.y, first.y, c.rows),
        arithmetic::plus_is::<A>(c.rows, Scalar { bits: 0x3f80_0000 }, c.height),
        arithmetic::times_is::<A>(c.width, c.height, c.count),
        reach is Wide <==> !c.count.finite() || (Scalar { bits: 0x4280_0000 }).less(c.count),
        reach matches Reach::Span { min, max } ==> {
            &&& arithmetic::to_int_is::<A>(first.x, min.x)
            &&& arithmetic::to_int_is::<A>(first.y, min.y)
            &&& arithmetic::to_int_is::<A>(last.x, max.x)
            &&& arithmetic::to_int_is::<A>(last.y, max.y)
        },
{
    let count = choose|count: Scalar| #[trigger]
        index::cell_count_is::<A>(first, last, count) && index::count_decides::<A>(
            first,
            last,
            count,
            reach,
        );
    let (width, height) = choose|width: Scalar, height: Scalar| #[trigger]
        index::length_is::<A>(first.x, last.x, width) && #[trigger] index::length_is::<A>(
            first.y,
            last.y,
            height,
        ) && arithmetic::times_is::<A>(width, height, count);
    let one = Scalar::from_bits(ONE_BITS);
    let columns = choose|steps: Scalar| #[trigger]
        arithmetic::minus_is::<A>(last.x, first.x, steps) && arithmetic::plus_is::<A>(
            steps,
            one,
            width,
        );
    let rows = choose|steps: Scalar| #[trigger]
        arithmetic::minus_is::<A>(last.y, first.y, steps) && arithmetic::plus_is::<A>(
            steps,
            one,
            height,
        );
    Count { columns, width, rows, height, count }
}

/// A message is wide where its place, its range or the square of that is not
/// finite. Otherwise its reach is between the corners that its range meets along
/// the two axes. Returns the squared range and the corners.
pub proof fn law_reach_by_the_numbers<A: Arithmetic>(
    origin: Vec2,
    range: Scalar,
    edge: Scalar,
    reach: Reach,
) -> (parts: (Scalar, Vec2, Vec2))
    requires
        index::reach_is::<A>(origin, range, edge, reach),
    ensures
        arithmetic::times_is::<A>(range, range, parts.0),
        if origin.x.finite() && origin.y.finite() && range.finite() && parts.0.finite() {
            let (limit, first, last) = parts;
            &&& index::lines_are::<A>(origin.x, range, limit, edge, first.x, last.x)
            &&& index::lines_are::<A>(origin.y, range, limit, edge, first.y, last.y)
            &&& index::reach_between_is::<A>(first, last, reach)
        } else {
            reach is Wide
        },
{
    let limit = choose|limit: Scalar| #[trigger]
        arithmetic::times_is::<A>(range, range, limit) && index::listed_as::<A>(
            origin,
            range,
            limit,
            edge,
            reach,
        );
    let (first, last) = choose|first: Vec2, last: Vec2| #[trigger]
        index::corners_are::<A>(origin, range, limit, edge, first, last)
            && index::reach_between_is::<A>(first, last, reach);
    (limit, first, last)
}

/// A batch can be indexed if and only if the upper median of its ranges is a finite
/// number above zero.
pub proof fn law_usable_edges(edge: Scalar)
    ensures
        index::edge_usable(edge) <==> edge.finite() && (Scalar { bits: 0 }).less(edge),
{
}

/// Points and directions are equal if and only if their coordinates are, as
/// numbers; and a point is finite if both coordinates are.
pub proof fn law_points_by_coordinates(a: Vec2, b: Vec2, c: space::Dir2, d: space::Dir2)
    ensures
        a.equals(b) <==> a.x.equals(b.x) && a.y.equals(b.y),
        c.equals(d) <==> c.x.equals(d.x) && c.y.equals(d.y),
        a.finite() <==> a.x.finite() && a.y.finite(),
{
}

} // verus!
