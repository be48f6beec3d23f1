//! Spatial index over the messages of one frame.
//!
//! Each message is listed in every cell of a uniform grid that its range
//! reaches, so that an actor only has to look at the messages of its own cell.
//! Messages that reach too many cells are listed apart and looked at by all.

use crate::arithmetic;
use crate::arithmetic::Arithmetic;
use crate::extent;
use crate::message::PerceptionMessage;
use crate::scalar::{Scalar, ONE_BITS, ZERO_BITS};
use crate::space;
use crate::space::{Cell, Vec2};
use std::collections::HashMap;
use vstd::prelude::*;

verus! {

/// Bit pattern of the most cells that a message is listed in, sixty-four.
pub const MAX_CELLS_BITS: u32 = 0x4280_0000;

/// The cells that a message reaches.
#[derive(Clone, Copy, Debug, PartialEq, Eq, Structural)]
pub enum Reach {
    /// Too many to list.
    Wide,
    /// The cells from `min` to `max`, both counted in, which are few. None where
    /// `min` is past `max`.
    Span { min: Cell, max: Cell },
}

impl Reach {
    /// Whether the cell is one of those listed.
    pub open spec fn spans(self, cell: Cell) -> bool {
        match self {
            Reach::Wide => false,
            Reach::Span { min, max } => min.x <= cell.x <= max.x && min.y <= cell.y <= max.y,
        }
    }

    /// Whether an actor in the cell has to look at the message.
    pub open spec fn covers(self, cell: Cell) -> bool {
        self is Wide || self.spans(cell)
    }
}

/// `first` and `last` are what the corners of a reach may be computed as, whole
/// numbers of cells, `limit` being the squared range.
pub open spec fn corners_are<A: Arithmetic>(
    origin: Vec2,
    range: Scalar,
    limit: Scalar,
    edge: Scalar,
    first: Vec2,
    last: Vec2,
) -> bool {
    &&& lines_are::<A>(origin.x, range, limit, edge, first.x, last.x)
    &&& lines_are::<A>(origin.y, range, limit, edge, first.y, last.y)
}

/// `first` and `last` are what the grid lines along one axis may be computed as,
/// which the ends of the range fall on.
pub open spec fn lines_are<A: Arithmetic>(
    centre: Scalar,
    range: Scalar,
    limit: Scalar,
    edge: Scalar,
    first: Scalar,
    last: Scalar,
) -> bool {
    exists|low: Scalar, high: Scalar| #[trigger]
        extent::ends_are::<A>(centre, range, limit, low, high) && space::line_is::<A>(
            low,
            edge,
            first,
        ) && space::line_is::<A>(high, edge, last)
}

/// `length` is what the number of lines from `first` to `last` may be computed as.
pub open spec fn length_is<A: Arithmetic>(first: Scalar, last: Scalar, length: Scalar) -> bool {
    exists|steps: Scalar| #[trigger]
        arithmetic::minus_is::<A>(last, first, steps) && arithmetic::plus_is::<A>(
            steps,
            Scalar::from_bits(ONE_BITS),
            length,
        )
}

/// `count` is what the number of cells between two corners may be computed as.
pub open spec fn cell_count_is<A: Arithmetic>(first: Vec2, last: Vec2, count: Scalar) -> bool {
    exists|width: Scalar, height: Scalar| #[trigger]
        length_is::<A>(first.x, last.x, width) && #[trigger] length_is::<A>(
            first.y,
            last.y,
            height,
        ) && arithmetic::times_is::<A>(width, height, count)
}

/// Whether that many cells are too many to list a message in.
pub open spec fn too_many(count: Scalar) -> bool {
    !count.finite() || Scalar::from_bits(MAX_CELLS_BITS).less(count)
}

/// `reach` is what so many cells between two corners may be listed as: wide where
/// they are too many, and otherwise the corners read as integers.
pub open spec fn count_decides<A: Arithmetic>(
    first: Vec2,
    last: Vec2,
    count: Scalar,
    reach: Reach,
) -> bool {
    match reach {
        Reach::Wide => too_many(count),
        Reach::Span { min, max } => {
            &&& !too_many(count)
            &&& arithmetic::to_int_is::<A>(first.x, min.x)
            &&& arithmetic::to_int_is::<A>(first.y, min.y)
            &&& arithmetic::to_int_is::<A>(last.x, max.x)
            &&& arithmetic::to_int_is::<A>(last.y, max.y)
        },
    }
}

/// `reach` is what the reach between two corners may be computed as. The cells are
/// counted before the corners are read as integers.
pub open spec fn reach_between_is<A: Arithmetic>(first: Vec2, last: Vec2, reach: Reach) -> bool {
    exists|count: Scalar| #[trigger]
        cell_count_is::<A>(first, last, count) && count_decides::<A>(first, last, count, reach)
}

/// Whether a message can be listed: its place, its range and the square of that,
/// `limit`, are finite.
pub open spec fn listable(origin: Vec2, range: Scalar, limit: Scalar) -> bool {
    origin.finite() && range.finite() && limit.finite()
}

/// `reach` is what the reach of a message may be computed as, once its range is
/// squared.
pub open spec fn listed_as<A: Arithmetic>(
    origin: Vec2,
    range: Scalar,
    limit: Scalar,
    edge: Scalar,
    reach: Reach,
) -> bool {
    if listable(origin, range, limit) {
        exists|first: Vec2, last: Vec2| #[trigger]
            corners_are::<A>(origin, range, limit, edge, first, last) && reach_between_is::<A>(
                first,
                last,
                reach,
            )
    } else {
        reach is Wide
    }
}

/// `reach` is what the reach of a message may be computed as, in a grid of cells
/// with that edge.
pub open spec fn reach_is<A: Arithmetic>(
    origin: Vec2,
    range: Scalar,
    edge: Scalar,
    reach: Reach,
) -> bool {
    exists|limit: Scalar| #[trigger]
        arithmetic::times_is::<A>(range, range, limit) && listed_as::<A>(
            origin,
            range,
            limit,
            edge,
            reach,
        )
}

/// The grid lines that the ends of a range fall on, see [`lines_are`].
fn lines<A: Arithmetic>(centre: Scalar, range: Scalar, limit: Scalar, edge: Scalar) -> (lines: (
    Scalar,
    Scalar,
))
    requires
        centre.finite(),
    ensures
        lines_are::<A>(centre, range, limit, edge, lines.0, lines.1),
{
    let (low, high) = extent::ends::<A>(centre, range, limit);
    (space::line::<A>(low, edge), space::line::<A>(high, edge))
}

/// How many lines there are from `first` to `last`, see [`length_is`].
fn length<A: Arithmetic>(first: Scalar, last: Scalar) -> (length: Scalar)
    ensures
        length_is::<A>(first, last, length),
{
    let steps = A::minus(last, first);
    proof {
        assert(arithmetic::minus_is::<A>(last, first, steps));
    }
    A::plus(steps, Scalar::from_bits(ONE_BITS))
}

/// The reach between two corners, see [`reach_between_is`].
pub fn reach_between<A: Arithmetic>(first: Vec2, last: Vec2) -> (reach: Reach)
    ensures
        reach_between_is::<A>(first, last, reach),
{
    let width = length::<A>(first.x, last.x);
    let height = length::<A>(first.y, last.y);
    let count = A::times(width, height);
    assert(cell_count_is::<A>(first, last, count));
    if !count.is_finite() || count > Scalar::from_bits(MAX_CELLS_BITS) {
        return Reach::Wide;
    }
    let min = Cell { x: A::to_int(first.x), y: A::to_int(first.y) };
    let max = Cell { x: A::to_int(last.x), y: A::to_int(last.y) };
    Reach::Span { min, max }
}

/// The reach of a message, see [`reach_is`].
pub fn reach_of<A: Arithmetic>(origin: Vec2, range: Scalar, edge: Scalar) -> (reach: Reach)
    ensures
        reach_is::<A>(origin, range, edge, reach),
{
    let limit = A::times(range, range);
    assert(arithmetic::times_is::<A>(range, range, limit));
    if !(origin.is_finite() && range.is_finite() && limit.is_finite()) {
        return Reach::Wide;
    }
    let (first_x, last_x) = lines::<A>(origin.x, range, limit, edge);
    let (first_y, last_y) = lines::<A>(origin.y, range, limit, edge);
    let first = Vec2 { x: first_x, y: first_y };
    let last = Vec2 { x: last_x, y: last_y };
    assert(corners_are::<A>(origin, range, limit, edge, first, last));
    reach_between::<A>(first, last)
}

/// The number that a cell is found under: its coordinates side by side.
pub open spec fn cell_key_of(cell: Cell) -> u64 {
    ((cell.x as u32 as u64) << 32) | (cell.y as u32 as u64)
}

/// Packs a cell coordinate.
pub fn cell_key(cell: Cell) -> (key: u64)
    ensures
        key == cell_key_of(cell),
{
    ((cell.x as u32 as u64) << 32) | (cell.y as u32 as u64)
}

/// No two cells share a number.
pub proof fn lemma_cell_key_injective(a: Cell, b: Cell)
    requires
        cell_key_of(a) == cell_key_of(b),
    ensures
        a == b,
{
    let (ax, ay, bx, by) = (a.x, a.y, b.x, b.y);
    assert(((ax as u32 as u64) << 32) | (ay as u32 as u64) == ((bx as u32 as u64) << 32) | (
    by as u32 as u64) ==> ax == bx && ay == by) by (bit_vector);
}

/// The messages that reach wide, in order.
pub open spec fn wide_of(reaches: Seq<Reach>) -> Seq<u32>
    decreases reaches.len(),
{
    if reaches.len() == 0 {
        Seq::empty()
    } else {
        let rest = wide_of(reaches.drop_last());
        if reaches.last() is Wide {
            rest.push((reaches.len() - 1) as u32)
        } else {
            rest
        }
    }
}

/// The messages listed in a cell, in order.
pub open spec fn listed_in(reaches: Seq<Reach>, cell: Cell) -> Seq<u32>
    decreases reaches.len(),
{
    if reaches.len() == 0 {
        Seq::empty()
    } else {
        let rest = listed_in(reaches.drop_last(), cell);
        if reaches.last().spans(cell) {
            rest.push((reaches.len() - 1) as u32)
        } else {
            rest
        }
    }
}

/// The messages that an actor in the cell has to look at, in order.
pub open spec fn candidates_of(reaches: Seq<Reach>, cell: Cell) -> Seq<u32>
    decreases reaches.len(),
{
    if reaches.len() == 0 {
        Seq::empty()
    } else {
        let rest = candidates_of(reaches.drop_last(), cell);
        if reaches.last().covers(cell) {
            rest.push((reaches.len() - 1) as u32)
        } else {
            rest
        }
    }
}

/// Two ascending lists as one: the lesser of the two heads comes first.
pub open spec fn interleaved(a: Seq<u32>, b: Seq<u32>) -> Seq<u32>
    decreases a.len() + b.len(),
{
    if a.len() == 0 {
        b
    } else if b.len() == 0 {
        a
    } else if a[0] <= b[0] {
        seq![a[0]] + interleaved(a.drop_first(), b)
    } else {
        seq![b[0]] + interleaved(a, b.drop_first())
    }
}

proof fn lemma_interleaved_push(a: Seq<u32>, b: Seq<u32>, x: u32)
    requires
        forall|i: int| 0 <= i < a.len() ==> a[i] < x,
        forall|i: int| 0 <= i < b.len() ==> b[i] < x,
    ensures
        interleaved(a.push(x), b) == interleaved(a, b).push(x),
        interleaved(a, b.push(x)) == interleaved(a, b).push(x),
    decreases a.len() + b.len(),
{
    let ax = a.push(x);
    let bx = b.push(x);
    if a.len() == 0 && b.len() == 0 {
        assert(ax.drop_first() =~= a);
        assert(bx.drop_first() =~= b);
        assert(interleaved(ax, b) =~= seq![x]);
        assert(interleaved(a, bx) =~= seq![x]);
    } else if a.len() == 0 {
        assert(ax.drop_first() =~= a);
        lemma_interleaved_push(a, b.drop_first(), x);
        assert(bx.drop_first() =~= b.drop_first().push(x));
        assert(interleaved(ax, b) == seq![b[0]] + interleaved(ax, b.drop_first()));
        assert(interleaved(ax, b) =~= b.push(x));
    } else if b.len() == 0 {
        assert(bx.drop_first() =~= b);
        lemma_interleaved_push(a.drop_first(), b, x);
        assert(ax.drop_first() =~= a.drop_first().push(x));
        assert(interleaved(a, bx) == seq![a[0]] + interleaved(a.drop_first(), bx));
        assert(interleaved(a, bx) =~= a.push(x));
    } else if a[0] <= b[0] {
        lemma_interleaved_push(a.drop_first(), b, x);
        assert(ax.drop_first() =~= a.drop_first().push(x));
        assert(interleaved(ax, b) =~= interleaved(a, b).push(x));
        assert(interleaved(a, bx) =~= interleaved(a, b).push(x));
    } else {
        lemma_interleaved_push(a, b.drop_first(), x);
        assert(bx.drop_first() =~= b.drop_first().push(x));
        assert(interleaved(ax, b) =~= interleaved(a, b).push(x));
        assert(interleaved(a, bx) =~= interleaved(a, b).push(x));
    }
}

/// Messages listed in a cell and messages that reach wide, taken together, are
/// those that an actor in the cell has to look at.
pub proof fn lemma_candidates(reaches: Seq<Reach>, cell: Cell)
    requires
        reaches.len() <= u32::MAX,
    ensures
        interleaved(listed_in(reaches, cell), wide_of(reaches)) == candidates_of(reaches, cell),
        forall|i: int|
            0 <= i < listed_in(reaches, cell).len() ==> listed_in(reaches, cell)[i]
                < reaches.len(),
        forall|i: int| 0 <= i < wide_of(reaches).len() ==> wide_of(reaches)[i] < reaches.len(),
        forall|i: int|
            0 <= i < candidates_of(reaches, cell).len() ==> candidates_of(reaches, cell)[i]
                < reaches.len(),
    decreases reaches.len(),
{
    if reaches.len() > 0 {
        let shorter = reaches.drop_last();
        lemma_candidates(shorter, cell);
        lemma_interleaved_push(
            listed_in(shorter, cell),
            wide_of(shorter),
            (reaches.len() - 1) as u32,
        );
    }
}

/// The ranges of a batch.
pub open spec fn ranges_of<P>(batch: Seq<PerceptionMessage<P>>) -> Seq<Scalar> {
    Seq::new(batch.len(), |i: int| batch[i].range)
}

/// The ranges of a batch, each as its place in the total order.
pub open spec fn range_keys<P>(batch: Seq<PerceptionMessage<P>>) -> Seq<i32> {
    Seq::new(batch.len(), |i: int| batch[i].range.total_rank() as i32)
}

/// The places of numbers in the total order.
pub open spec fn total_ranks(numbers: Seq<Scalar>) -> Seq<int> {
    Seq::new(numbers.len(), |i: int| numbers[i].total_rank())
}

/// The upper median of some numbers, by its place in the total order.
pub open spec fn median_rank(numbers: Seq<Scalar>) -> int {
    total_ranks(numbers).sort()[numbers.len() as int / 2]
}

/// Whether a grid can have cells of that edge.
pub open spec fn edge_usable(edge: Scalar) -> bool {
    !edge.at_most(Scalar::from_bits(ZERO_BITS)) && edge.finite()
}

/// The keys as integers.
spec fn as_ints(keys: Seq<i32>) -> Seq<int> {
    Seq::new(keys.len(), |i: int| keys[i] as int)
}

/// Partitions with `slice::select_nth_unstable` of the standard library: the key
/// at `index` is the one that sorting would put there, none before it is
/// greater, none after it is less, and they are the keys that went in.
#[verifier::external_body]
fn select_nth(keys: &mut Vec<i32>, index: usize)
    requires
        index < old(keys)@.len(),
    ensures
        final(keys)@.to_multiset() == old(keys)@.to_multiset(),
        forall|i: int| 0 <= i <= index ==> final(keys)@[i] <= final(keys)@[index as int],
        forall|i: int|
            index <= i < final(keys)@.len() ==> final(keys)@[index as int] <= final(keys)@[i],
{
    keys.select_nth_unstable(index);
}

/// A permutation of the keys is one of the integers.
proof fn lemma_as_ints_multiset(keys: Seq<i32>, x: int)
    ensures
        as_ints(keys).to_multiset().count(x) == if i32::MIN <= x <= i32::MAX {
            keys.to_multiset().count(x as i32)
        } else {
            0
        },
    decreases keys.len(),
{
    broadcast use {vstd::seq_lib::group_to_multiset_ensures, vstd::multiset::group_multiset_axioms};

    if keys.len() == 0 {
        assert(as_ints(keys) =~= Seq::empty());
        assert(keys =~= Seq::empty());
        assert(!as_ints(keys).contains(x));
        assert(!keys.contains(x as i32));
    } else {
        let rest = keys.drop_last();
        lemma_as_ints_multiset(rest, x);
        assert(as_ints(keys) =~= as_ints(rest).push(keys.last() as int));
        assert(keys =~= rest.push(keys.last()));
        if i32::MIN <= x <= i32::MAX {
            assert(keys.last() as int == x <==> keys.last() == x as i32);
        }
    }
}

/// What partitioning puts at an index, sorting puts there too.
proof fn lemma_partitioned(keys: Seq<int>, index: int)
    requires
        0 <= index < keys.len(),
        forall|i: int| 0 <= i <= index ==> keys[i] <= keys[index],
        forall|i: int| index <= i < keys.len() ==> keys[index] <= keys[i],
    ensures
        keys.sort()[index] == keys[index],
{
    broadcast use vstd::seq_lib::group_to_multiset_ensures;

    let leq = |x: int, y: int| x <= y;
    let below = keys.take(index);
    let above = keys.skip(index);
    let arranged = below.sort() + above.sort();
    keys.lemma_sort_ensures();
    below.lemma_sort_ensures();
    above.lemma_sort_ensures();
    assert(below.sort().len() == below.to_multiset().len());
    assert(above.sort().len() == above.to_multiset().len());
    assert(below + above =~= keys);
    vstd::seq_lib::lemma_multiset_commutative(below, above);
    vstd::seq_lib::lemma_multiset_commutative(below.sort(), above.sort());
    assert forall|i: int| 0 <= i < below.sort().len() implies below.sort()[i] <= keys[index] by {
        assert(below.sort().contains(below.sort()[i]));
        assert(below.to_multiset().count(below.sort()[i]) > 0);
        assert(below.contains(below.sort()[i]));
    }
    assert forall|i: int| 0 <= i < above.sort().len() implies keys[index] <= above.sort()[i] by {
        assert(above.sort().contains(above.sort()[i]));
        assert(above.to_multiset().count(above.sort()[i]) > 0);
        assert(above.contains(above.sort()[i]));
    }
    assert(vstd::relations::sorted_by(arranged, leq)) by {
        assert forall|i: int, j: int| 0 <= i < j < arranged.len() implies #[trigger] leq(
            arranged[i],
            arranged[j],
        ) by {
            let n = below.sort().len() as int;
            if j < n {
                assert(leq(below.sort()[i], below.sort()[j]));
            } else if i >= n {
                assert(leq(above.sort()[i - n], above.sort()[j - n]));
            }
        }
    }
    vstd::seq_lib::lemma_sorted_unique(arranged, keys.sort(), leq);
    assert(above.contains(keys[index])) by {
        assert(above[0] == keys[index]);
    }
    assert(above.to_multiset().count(keys[index]) > 0);
    assert(above.sort().contains(keys[index]));
    let at = choose|at: int| 0 <= at < above.sort().len() && above.sort()[at] == keys[index];
    if at > 0 {
        assert(leq(above.sort()[0], above.sort()[at]));
    }
    assert(arranged[index] == above.sort()[0]);
}

/// The upper median of the ranges of a batch, found in place in `ranges`.
fn median_range<P>(batch: &Vec<PerceptionMessage<P>>, ranges: &mut Vec<i32>) -> (median: Scalar)
    requires
        batch@.len() > 0,
    ensures
        median.total_rank() == median_rank(ranges_of(batch@)),
        final(ranges)@.to_multiset() == range_keys(batch@).to_multiset(),
{
    ranges.clear();
    let mut i: usize = 0;
    while i < batch.len()
        invariant
            0 <= i <= batch.len(),
            ranges@.len() == i,
            forall|j: int| 0 <= j < i ==> #[trigger] ranges@[j] == batch@[j].range.total_rank(),
        decreases batch.len() - i,
    {
        ranges.push(batch[i].range.total_key());
        i += 1;
    }
    let ghost listed = ranges@;
    assert(listed =~= range_keys(batch@));
    let middle: usize = ranges.len() / 2;
    assert(ranges@.to_multiset().len() == ranges@.len()) by {
        broadcast use vstd::seq_lib::group_to_multiset_ensures;

    }
    select_nth(ranges, middle);
    proof {
        broadcast use vstd::seq_lib::group_to_multiset_ensures;

        assert(ranges@.len() == ranges@.to_multiset().len());
        assert(as_ints(listed) =~= total_ranks(ranges_of(batch@)));
        assert(as_ints(ranges@).to_multiset() =~= as_ints(listed).to_multiset()) by {
            assert forall|x: int|
                as_ints(ranges@).to_multiset().count(x) == as_ints(listed).to_multiset().count(
                    x,
                ) by {
                lemma_as_ints_multiset(ranges@, x);
                lemma_as_ints_multiset(listed, x);
            }
        }
        lemma_partitioned(as_ints(ranges@), middle as int);
        as_ints(ranges@).lemma_sort_ensures();
        as_ints(listed).lemma_sort_ensures();
        vstd::seq_lib::lemma_sorted_unique(
            as_ints(ranges@).sort(),
            as_ints(listed).sort(),
            |x: int, y: int| x <= y,
        );
    }
    Scalar::from_total_key(ranges[middle])
}

/// Uniform grid over the messages of one frame. Its storage is kept from frame
/// to frame.
pub struct MessageIndex {
    /// Edge length of a grid cell.
    cell_size: Scalar,
    /// For each occupied cell, the bucket that holds its messages.
    cells: HashMap<u64, usize>,
    /// Messages per occupied cell, ascending. The buckets not in use are empty.
    buckets: Vec<Vec<u32>>,
    /// Number of buckets in use.
    used_buckets: usize,
    /// Messages too wide to list, ascending.
    wide: Vec<u32>,
}

impl Default for MessageIndex {
    fn default() -> (index: MessageIndex)
        ensures
            index.wf(),
            index.wide_messages().len() == 0,
            forall|key: u64| !#[trigger] index.occupied(key),
            index.in_use() == 0,
            index.bucket_storage() == 0,
    {
        MessageIndex {
            cell_size: Scalar::from_bits(ZERO_BITS),
            cells: HashMap::new(),
            buckets: Vec::new(),
            used_buckets: 0,
            wide: Vec::new(),
        }
    }
}

impl MessageIndex {
    /// Every occupied cell has a bucket in use of its own, there are no others in
    /// use, and the buckets that are not in use are empty.
    pub closed spec fn wf(self) -> bool {
        &&& self.used_buckets <= self.buckets@.len()
        &&& self.cells@.dom().finite()
        &&& self.cells@.dom().len() == self.used_buckets
        &&& forall|key: u64| #[trigger]
            self.cells@.contains_key(key) ==> self.buckets@[self.cells@[key] as int]@.len() > 0
        &&& forall|key: u64| #[trigger]
            self.cells@.contains_key(key) ==> self.cells@[key] < self.used_buckets
        &&& forall|a: u64, b: u64|
            #![trigger self.cells@[a], self.cells@[b]]
            self.cells@.contains_key(a) && self.cells@.contains_key(b) && self.cells@[a]
                == self.cells@[b] ==> a == b
        &&& forall|slot: int|
            self.used_buckets <= slot < self.buckets@.len() ==> (
            #[trigger] self.buckets@[slot])@.len() == 0
    }

    /// The messages listed under a cell's number.
    pub closed spec fn bucket(self, key: u64) -> Seq<u32> {
        if self.cells@.contains_key(key) {
            self.buckets@[self.cells@[key] as int]@
        } else {
            Seq::empty()
        }
    }

    /// The messages that are too wide to list.
    pub closed spec fn wide_messages(self) -> Seq<u32> {
        self.wide@
    }

    /// Edge length of a grid cell.
    pub closed spec fn edge(self) -> Scalar {
        self.cell_size
    }

    /// Whether messages are listed under a cell's number.
    pub open spec fn occupied(self, key: u64) -> bool {
        self.bucket(key).len() > 0
    }

    /// The numbers under which messages are listed.
    pub open spec fn occupied_keys(self) -> Set<u64> {
        Set::new(|key: u64| self.occupied(key))
    }

    /// How many buckets are in use.
    pub closed spec fn in_use(self) -> nat {
        self.used_buckets as nat
    }

    /// How many buckets there is storage for.
    pub closed spec fn bucket_storage(self) -> nat {
        self.buckets@.len()
    }

    /// Storage was kept, and made only for buckets in use that found none.
    pub open spec fn storage_after(self, before: MessageIndex) -> bool {
        self.bucket_storage() == if self.in_use() > before.bucket_storage() {
            self.in_use()
        } else {
            before.bucket_storage()
        }
    }

    /// The index lists messages of these reaches.
    pub open spec fn holds(self, reaches: Seq<Reach>) -> bool {
        &&& self.wf()
        &&& self.wide_messages() == wide_of(reaches)
        &&& forall|cell: Cell| #[trigger]
            self.bucket(cell_key_of(cell)) == listed_in(reaches, cell)
    }

    /// The index is what one of a batch may be, in a grid whose edge is the upper
    /// median of the ranges.
    pub open spec fn indexes<A: Arithmetic, P>(self, batch: Seq<PerceptionMessage<P>>) -> bool {
        &&& self.edge().total_rank() == median_rank(ranges_of(batch))
        &&& edge_usable(self.edge())
        &&& exists|reaches: Seq<Reach>| #[trigger]
            reaches_are::<A, P>(batch, self.edge(), reaches) && self.holds(reaches)
    }

    /// `candidates` is what the index may hand out to an actor at `position`.
    pub open spec fn hands_out<A: Arithmetic>(self, position: Vec2, candidates: Seq<u32>) -> bool {
        exists|cell: Cell| #[trigger]
            position.cell_is::<A>(self.edge(), cell) && candidates == interleaved(
                self.bucket(cell_key_of(cell)),
                self.wide_messages(),
            )
    }

    /// The messages that are too wide to list.
    pub fn wide(&self) -> (messages: &Vec<u32>)
        ensures
            messages@ == self.wide_messages(),
    {
        &self.wide
    }

    /// How many buckets there is storage for.
    pub fn bucket_count(&self) -> (count: usize)
        ensures
            count == self.bucket_storage(),
    {
        self.buckets.len()
    }

    /// Empties the index for cells of another edge, and keeps its storage.
    fn reset(&mut self, cell_size: Scalar)
        requires
            old(self).wf(),
        ensures
            final(self).wf(),
            final(self).edge() == cell_size,
            final(self).wide_messages().len() == 0,
            forall|key: u64| !#[trigger] final(self).occupied(key),
            final(self).in_use() == 0,
            final(self).bucket_storage() == old(self).bucket_storage(),
            forall|slot: int|
                0 <= slot < final(self).buckets@.len() ==> (
                #[trigger] final(self).buckets@[slot])@.len() == 0,
    {
        self.cell_size = cell_size;
        self.cells.clear();
        let mut slot: usize = 0;
        while slot < self.used_buckets
            invariant
                self.used_buckets <= self.buckets@.len(),
                self.buckets@.len() == old(self).buckets@.len(),
                self.cells@ == Map::<u64, usize>::empty(),
                self.cell_size == cell_size,
                slot <= self.used_buckets,
                forall|j: int|
                    0 <= j < slot || self.used_buckets <= j < self.buckets@.len() ==> (
                    #[trigger] self.buckets@[j])@.len() == 0,
            decreases self.used_buckets - slot,
        {
            self.buckets[slot].clear();
            slot += 1;
        }
        self.used_buckets = 0;
        self.wide.clear();
    }

    /// Lists `message` under the number of a cell.
    fn insert(&mut self, key: u64, message: u32)
        requires
            old(self).wf(),
        ensures
            final(self).wf(),
            final(self).bucket(key) == old(self).bucket(key).push(message),
            forall|other: u64|
                other != key ==> #[trigger] final(self).bucket(other) == old(self).bucket(other),
            final(self).wide_messages() == old(self).wide_messages(),
            final(self).edge() == old(self).edge(),
            forall|other: u64| #[trigger]
                final(self).occupied(other) <==> other == key || old(self).occupied(other),
            final(self).in_use() == old(self).in_use() + if old(self).occupied(key) {
                0nat
            } else {
                1nat
            },
            final(self).storage_after(*old(self)),
    {
        let found = match self.cells.get(&key) {
            Some(slot) => Some(*slot),
            None => None,
        };
        let slot: usize = match found {
            Some(slot) => slot,
            None => {
                let slot: usize = self.used_buckets;
                if self.buckets.len() == slot {
                    self.buckets.push(Vec::new());
                    self.used_buckets = self.buckets.len();
                } else {
                    self.used_buckets = slot + 1;
                }
                self.cells.insert(key, slot);
                slot
            },
        };
        self.buckets[slot].push(message);
    }

    /// Lists `message` in every cell from `min` to `max`.
    fn insert_span(&mut self, min: Cell, max: Cell, message: u32)
        requires
            old(self).wf(),
        ensures
            final(self).wf(),
            forall|cell: Cell| #[trigger]
                final(self).bucket(cell_key_of(cell)) == if (Reach::Span { min, max }).spans(cell) {
                    old(self).bucket(cell_key_of(cell)).push(message)
                } else {
                    old(self).bucket(cell_key_of(cell))
                },
            final(self).wide_messages() == old(self).wide_messages(),
            final(self).edge() == old(self).edge(),
            final(self).in_use() >= old(self).in_use(),
            final(self).storage_after(*old(self)),
    {
        let ghost span = Reach::Span { min, max };
        let mut y: i64 = min.y as i64;
        while y <= max.y as i64
            invariant
                self.wf(),
                span == (Reach::Span { min, max }),
                min.y <= y,
                y <= max.y + 1 || y == min.y,
                forall|cell: Cell| #[trigger]
                    self.bucket(cell_key_of(cell)) == if span.spans(cell) && cell.y < y {
                        old(self).bucket(cell_key_of(cell)).push(message)
                    } else {
                        old(self).bucket(cell_key_of(cell))
                    },
                self.wide_messages() == old(self).wide_messages(),
                self.edge() == old(self).edge(),
                self.in_use() >= old(self).in_use(),
                self.storage_after(*old(self)),
            decreases max.y + 1 - y,
        {
            let mut x: i64 = min.x as i64;
            while x <= max.x as i64
                invariant
                    self.wf(),
                    span == (Reach::Span { min, max }),
                    min.y <= y <= max.y,
                    min.x <= x,
                    x <= max.x + 1 || x == min.x,
                    forall|cell: Cell| #[trigger]
                        self.bucket(cell_key_of(cell)) == if span.spans(cell) && (cell.y < y || (
                        cell.y == y && cell.x < x)) {
                            old(self).bucket(cell_key_of(cell)).push(message)
                        } else {
                            old(self).bucket(cell_key_of(cell))
                        },
                    self.wide_messages() == old(self).wide_messages(),
                    self.edge() == old(self).edge(),
                    self.in_use() >= old(self).in_use(),
                    self.storage_after(*old(self)),
                decreases max.x + 1 - x,
            {
                let cell = Cell { x: x as i32, y: y as i32 };
                let ghost before = *self;
                self.insert(cell_key(cell), message);
                proof {
                    assert forall|other: Cell| other != cell implies #[trigger] self.bucket(
                        cell_key_of(other),
                    ) == before.bucket(cell_key_of(other)) by {
                        if cell_key_of(other) == cell_key_of(cell) {
                            lemma_cell_key_injective(other, cell);
                        }
                    }
                    assert(span.spans(cell));
                }
                x += 1;
            }
            y += 1;
        }
    }

    /// There are as many buckets in use as cells with messages.
    proof fn lemma_in_use(self)
        requires
            self.wf(),
        ensures
            self.in_use() == self.occupied_keys().len(),
    {
        assert(self.occupied_keys() =~= self.cells@.dom());
    }

    /// Indexes every message of `batch`.
    ///
    /// Returns `false`, and leaves the index as it was, where the batch has no
    /// usable extent: where the median of its ranges is not positive or not
    /// finite. `ranges` is working storage.
    pub fn build<A: Arithmetic, P>(
        &mut self,
        batch: &Vec<PerceptionMessage<P>>,
        ranges: &mut Vec<i32>,
    ) -> (built: bool)
        requires
            old(self).wf(),
            0 < batch@.len() <= u32::MAX,
        ensures
            final(self).wf(),
            final(ranges)@.to_multiset() == range_keys(batch@).to_multiset(),
            final(self).in_use() == final(self).occupied_keys().len(),
            final(self).storage_after(*old(self)),
            exists|edge: Scalar|
                {
                    &&& #[trigger] edge.total_rank() == median_rank(ranges_of(batch@))
                    &&& built == edge_usable(edge)
                    &&& built ==> final(self).edge() == edge
                },
            built ==> final(self).indexes::<A, P>(batch@),
            !built ==> *final(self) == *old(self),
    {
        let cell_size = median_range(batch, ranges);
        assert(cell_size.total_rank() == median_rank(ranges_of(batch@)));
        if cell_size <= Scalar::from_bits(ZERO_BITS) || !cell_size.is_finite() {
            proof {
                self.lemma_in_use();
            }
            return false;
        }
        self.reset(cell_size);
        let ghost mut reaches: Seq<Reach> = Seq::empty();
        let mut index: usize = 0;
        assert(self.wide_messages() =~= wide_of(reaches));
        assert forall|cell: Cell| #[trigger] self.bucket(cell_key_of(cell)) == listed_in(
            reaches,
            cell,
        ) by {
            assert(!self.occupied(cell_key_of(cell)));
            assert(self.bucket(cell_key_of(cell)) =~= Seq::empty());
        }
        while index < batch.len()
            invariant
                0 <= index <= batch@.len() <= u32::MAX,
                self.edge() == cell_size,
                self.holds(reaches),
                reaches.len() == index,
                forall|i: int|
                    0 <= i < index ==> reach_is::<A>(
                        batch@[i].origin,
                        batch@[i].range,
                        cell_size,
                        #[trigger] reaches[i],
                    ),
                self.storage_after(*old(self)),
            decreases batch.len() - index,
        {
            let reach = reach_of::<A>(batch[index].origin, batch[index].range, cell_size);
            let ghost before = *self;
            match reach {
                Reach::Wide => {
                    self.wide.push(index as u32);
                    assert forall|key: u64| #[trigger] self.bucket(key) == before.bucket(key) by {
                    }
                },
                Reach::Span { min, max } => {
                    self.insert_span(min, max, index as u32);
                },
            }
            proof {
                let longer = reaches.push(reach);
                assert(longer.drop_last() =~= reaches);
                assert(self.wide_messages() =~= wide_of(longer));
                assert forall|cell: Cell| #[trigger] self.bucket(cell_key_of(cell)) == listed_in(
                    longer,
                    cell,
                ) by {
                    assert(before.bucket(cell_key_of(cell)) == listed_in(reaches, cell));
                }
                reaches = longer;
            }
            index += 1;
        }
        proof {
            assert(reaches_are::<A, P>(batch@, self.edge(), reaches));
            self.lemma_in_use();
        }
        true
    }

    /// Gathers the messages that an actor at `position` has to look at, in the
    /// order of the batch.
    pub fn candidates_at<A: Arithmetic>(&self, position: Vec2, candidates: &mut Vec<u32>)
        requires
            self.wf(),
        ensures
            self.hands_out::<A>(position, final(candidates)@),
    {
        candidates.clear();
        let local = self.bucket_at::<A>(position);
        interleave(local, self.wide.as_slice(), candidates);
    }

    /// The messages listed in the cell that holds `position`.
    fn bucket_at<A: Arithmetic>(&self, position: Vec2) -> (listed: &[u32])
        requires
            self.wf(),
        ensures
            exists|cell: Cell| #[trigger]
                position.cell_is::<A>(self.edge(), cell) && listed@ == self.bucket(
                    cell_key_of(cell),
                ),
    {
        let cell = position.cell::<A>(self.cell_size);
        let key = cell_key(cell);
        assert(position.cell_is::<A>(self.edge(), cell));
        match self.cells.get(&key) {
            Some(slot) => self.buckets[*slot].as_slice(),
            None => &[],
        }
    }
}

/// `reaches` is what the reaches of a batch may be computed as, in a grid of
/// cells with that edge.
pub open spec fn reaches_are<A: Arithmetic, P>(
    batch: Seq<PerceptionMessage<P>>,
    edge: Scalar,
    reaches: Seq<Reach>,
) -> bool {
    &&& reaches.len() == batch.len()
    &&& forall|i: int|
        0 <= i < batch.len() ==> reach_is::<A>(
            batch[i].origin,
            batch[i].range,
            edge,
            #[trigger] reaches[i],
        )
}

/// Appends two ascending lists to `out` as one, see [`interleaved`].
fn interleave(local: &[u32], wide: &[u32], out: &mut Vec<u32>)
    requires
        old(out)@.len() == 0,
    ensures
        final(out)@ == interleaved(local@, wide@),
{
    let ghost wanted = interleaved(local@, wide@);
    let mut i: usize = 0;
    let mut j: usize = 0;
    assert(local@.skip(0) =~= local@);
    assert(wide@.skip(0) =~= wide@);
    assert(wanted =~= out@ + interleaved(local@.skip(0), wide@.skip(0)));
    while i < local.len() && j < wide.len()
        invariant
            0 <= i <= local@.len(),
            0 <= j <= wide@.len(),
            wanted == out@ + interleaved(local@.skip(i as int), wide@.skip(j as int)),
        decreases local.len() - i + wide.len() - j,
    {
        let ghost left = local@.skip(i as int);
        let ghost right = wide@.skip(j as int);
        let ghost before = out@;
        if local[i] <= wide[j] {
            out.push(local[i]);
            i += 1;
            assert(left.drop_first() =~= local@.skip(i as int));
        } else {
            out.push(wide[j]);
            j += 1;
            assert(right.drop_first() =~= wide@.skip(j as int));
        }
        assert(wanted =~= out@ + interleaved(local@.skip(i as int), wide@.skip(j as int)));
    }
    assert(wanted =~= out@ + (local@.skip(i as int) + wide@.skip(j as int)));
    append_from(local, i, out);
    append_from(wide, j, out);
    assert(wanted =~= out@);
}

/// Appends what `list` holds from `start` on.
fn append_from(list: &[u32], start: usize, out: &mut Vec<u32>)
    requires
        start <= list@.len(),
    ensures
        final(out)@ == old(out)@ + list@.skip(start as int),
{
    let mut i: usize = start;
    assert(out@ =~= out@ + list@.subrange(start as int, start as int));
    while i < list.len()
        invariant
            start <= i <= list@.len(),
            out@ == old(out)@ + list@.subrange(start as int, i as int),
        decreases list.len() - i,
    {
        out.push(list[i]);
        i += 1;
        assert(list@.subrange(start as int, i as int) =~= list@.subrange(
            start as int,
            i - 1,
        ).push(list@[i - 1]));
        assert(out@ =~= old(out)@ + list@.subrange(start as int, i as int));
    }
    assert(list@.subrange(start as int, i as int) =~= list@.skip(start as int));
}

} // verus!
