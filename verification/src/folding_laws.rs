//! What merging makes of messages, told by their fields.

use crate::arithmetic;
use crate::arithmetic::Arithmetic;
use crate::exact;
use crate::merge;
use crate::merge_laws;
use crate::message::PerceptionMessage;
use crate::percept::Percept;
use crate::rounding;
use crate::scalar::Scalar;
use crate::space::Vec2;
use vstd::prelude::*;

verus! {

/// How a batch was folded.
pub struct Folding {
    /// For each message, the message that it is part of.
    pub homes: Seq<int>,
    /// The messages that are part of themselves, in order.
    pub kept: Seq<int>,
    /// For each message, its origin divided by the merge radius.
    pub quotients: Seq<Vec2>,
    /// The same, rounded down.
    pub lines: Seq<Vec2>,
}

/// Whether two whole numbers are one: the same pattern, or equal.
pub open spec fn one_line(a: Scalar, b: Scalar) -> bool {
    a.bits == b.bits || a.equals(b)
}

/// Whether two origins are taken as one: their lines along both axes are one where
/// the merge radius is positive, their bit patterns are where it is not.
pub open spec fn one_place(
    a: Vec2,
    b: Vec2,
    a_lines: Vec2,
    b_lines: Vec2,
    merge_radius: Scalar,
) -> bool {
    if (Scalar { bits: 0 }).less(merge_radius) {
        one_line(a_lines.x, b_lines.x) && one_line(a_lines.y, b_lines.y)
    } else {
        a.x.bits == b.x.bits && a.y.bits == b.y.bits
    }
}

/// Whether an origin, divided by the merge radius and rounded down, may come out as
/// these lines.
pub open spec fn on_lines<A: Arithmetic>(
    origin: Vec2,
    merge_radius: Scalar,
    quotients: Vec2,
    lines: Vec2,
) -> bool {
    &&& arithmetic::over_is::<A>(origin.x, merge_radius, quotients.x)
    &&& arithmetic::over_is::<A>(origin.y, merge_radius, quotients.y)
    &&& arithmetic::floor_is::<A>(quotients.x, lines.x)
    &&& arithmetic::floor_is::<A>(quotients.y, lines.y)
}

/// Whether two messages belong together, given that of their origins: their
/// percepts compare as the same, and they share source and range.
pub open spec fn belong_together<P: Percept>(
    a: PerceptionMessage<P>,
    b: PerceptionMessage<P>,
    one_place: bool,
) -> bool {
    &&& a.percept.comparison(&b.percept) == Some(true)
    &&& a.source == b.source
    &&& a.range.bits == b.range.bits
    &&& one_place
}

/// Messages that belong together are folded, and no others.
///
/// With a radius below zero, or fewer than two messages, all stay as they are.
/// Otherwise a message is folded away if and only if it belongs together with an
/// earlier one that stays, and becomes part of the earliest such. What stays keeps
/// its order and everything but its base intensity, which is that of a message
/// that became part of it, and no lesser number than that of any other.
pub proof fn law_merging_folds_what_belongs_together<A: Arithmetic, P: Percept>(
    before: Seq<PerceptionMessage<P>>,
    merge_radius: Scalar,
    after: Seq<PerceptionMessage<P>>,
) -> (f: Folding)
    requires
        rounding::wholes_are_exact::<A>(),
        merge::merging_is::<A, P>(before, merge_radius, after),
    ensures
        merge_radius.less(Scalar { bits: 0 }) ==> after == before,
        before.len() < 2 ==> after == before,
        before.len() >= 2 && (Scalar { bits: 0 }).less(merge_radius) ==> forall|i: int|
            0 <= i < before.len() ==> on_lines::<A>(
                #[trigger] before[i].origin,
                merge_radius,
                f.quotients[i],
                f.lines[i],
            ),
        before.len() >= 2 && !merge_radius.less(Scalar { bits: 0 }) ==> {
            &&& f.homes.len() == before.len()
            &&& forall|i: int| #![trigger f.homes[i]]
                0 <= i < before.len() ==> {
                    &&& 0 <= f.homes[i] <= i
                    &&& f.homes[f.homes[i]] == f.homes[i]
                    &&& f.homes[i] < i ==> belong_together(
                        before[f.homes[i]],
                        before[i],
                        one_place(
                            before[f.homes[i]].origin,
                            before[i].origin,
                            f.lines[f.homes[i]],
                            f.lines[i],
                            merge_radius,
                        ),
                    )
                }
            &&& forall|k: int, i: int| #![trigger f.homes[k], f.homes[i]]
                0 <= k < i < before.len() && f.homes[k] == k && belong_together(
                    before[k],
                    before[i],
                    one_place(
                        before[k].origin,
                        before[i].origin,
                        f.lines[k],
                        f.lines[i],
                        merge_radius,
                    ),
                ) ==> f.homes[i] <= k
            &&& forall|j: int| #![trigger f.kept[j]]
                0 <= j < f.kept.len() ==> 0 <= f.kept[j] < before.len()
            &&& forall|j: int, k: int| #![trigger f.kept[j], f.kept[k]]
                0 <= j < k < f.kept.len() ==> f.kept[j] < f.kept[k]
            &&& forall|i: int|
                0 <= i < before.len() ==> (#[trigger] f.homes[i] == i <==> f.kept.contains(i))
            &&& after.len() == f.kept.len()
            &&& forall|j: int| #![trigger after[j]]
                0 <= j < after.len() ==> {
                    &&& after[j].percept == before[f.kept[j]].percept
                    &&& after[j].origin == before[f.kept[j]].origin
                    &&& after[j].range == before[f.kept[j]].range
                    &&& after[j].source == before[f.kept[j]].source
                    &&& exists|i: int|
                        0 <= i < before.len() && #[trigger] f.homes[i] == f.kept[j]
                            && after[j].base_value == before[i].base_value
                    &&& forall|i: int|
                        0 <= i < before.len() && #[trigger] f.homes[i] == f.kept[j]
                            && !before[i].base_value.nan() ==> before[i].base_value.at_most(
                            after[j].base_value,
                        )
                }
        },
{
    if merge_radius.less(Scalar { bits: 0 }) || before.len() < 2 {
        Folding {
            homes: Seq::empty(),
            kept: Seq::empty(),
            quotients: Seq::empty(),
            lines: Seq::empty(),
        }
    } else {
        let cells = choose|cells: Seq<(u64, u64)>| #[trigger]
            merge::cells_are::<A, P>(before, merge_radius, cells) && after == merge::merged_by(
                before,
                cells,
            );
        let n = before.len();
        let parts = Seq::new(
            n,
            |i: int| choose|parts: (Vec2, Vec2)| #[trigger]
                lined::<A>(before[i].origin, merge_radius, cells[i], parts.0, parts.1),
        );
        let f = Folding {
            homes: Seq::new(n, |i: int| merge::home(before, cells, i)),
            kept: merge_laws::law_merging_keeps_order(before, cells),
            quotients: Seq::new(n, |i: int| parts[i].0),
            lines: Seq::new(n, |i: int| parts[i].1),
        };
        if (Scalar { bits: 0 }).less(merge_radius) {
            assert forall|i: int| 0 <= i < n implies lined::<A>(
                #[trigger] before[i].origin,
                merge_radius,
                cells[i],
                f.quotients[i],
                f.lines[i],
            ) by {
                assert(merge::origin_key_is::<A>(before[i].origin, merge_radius, cells[i]));
                let found = lemma_lined::<A>(before[i].origin, merge_radius, cells[i]);
                assert(lined::<A>(before[i].origin, merge_radius, cells[i], found.0, found.1));
            }
        }
        assert forall|k: int, i: int| 0 <= k < n && 0 <= i < n implies (cells[k] == cells[i]
            <==> one_place(
            before[k].origin,
            before[i].origin,
            #[trigger] f.lines[k],
            #[trigger] f.lines[i],
            merge_radius,
        )) by {
            assert(merge::origin_key_is::<A>(before[k].origin, merge_radius, cells[k]));
            assert(merge::origin_key_is::<A>(before[i].origin, merge_radius, cells[i]));
            if (Scalar { bits: 0 }).less(merge_radius) {
                let (a, b) = (f.quotients[k], f.quotients[i]);
                lemma_one_line::<A>(a.x, b.x, f.lines[k].x, f.lines[i].x, cells[k].0, cells[i].0);
                lemma_one_line::<A>(a.y, b.y, f.lines[k].y, f.lines[i].y, cells[k].1, cells[i].1);
            }
        }
        assert forall|i: int| 0 <= i < n implies {
            &&& 0 <= #[trigger] f.homes[i] <= i
            &&& f.homes[f.homes[i]] == f.homes[i]
            &&& f.homes[i] < i ==> belong_together(
                before[f.homes[i]],
                before[i],
                one_place(
                    before[f.homes[i]].origin,
                    before[i].origin,
                    f.lines[f.homes[i]],
                    f.lines[i],
                    merge_radius,
                ),
            )
        } by {
            merge_laws::law_home_is_earliest(before, cells, i);
        }
        assert forall|k: int, i: int|
            #![trigger f.homes[k], f.homes[i]]
            0 <= k < i < n && f.homes[k] == k && belong_together(
                before[k],
                before[i],
                one_place(
                    before[k].origin,
                    before[i].origin,
                    f.lines[k],
                    f.lines[i],
                    merge_radius,
                ),
            ) implies f.homes[i] <= k by {
            merge_laws::law_home_is_earliest(before, cells, i);
            assert(merge_laws::stands(before, cells, k));
        }
        assert forall|i: int| 0 <= i < n implies (#[trigger] f.homes[i] == i <==> f.kept.contains(
            i,
        )) by {
            assert(merge_laws::stands(before, cells, i) <==> f.homes[i] == i);
        }
        assert forall|j: int| 0 <= j < after.len() implies {
            &&& (#[trigger] after[j]).percept == before[f.kept[j]].percept
            &&& after[j].origin == before[f.kept[j]].origin
            &&& after[j].range == before[f.kept[j]].range
            &&& after[j].source == before[f.kept[j]].source
            &&& exists|i: int|
                0 <= i < before.len() && #[trigger] f.homes[i] == f.kept[j]
                    && after[j].base_value == before[i].base_value
            &&& forall|i: int|
                0 <= i < before.len() && #[trigger] f.homes[i] == f.kept[j]
                    && !before[i].base_value.nan() ==> before[i].base_value.at_most(
                    after[j].base_value,
                )
        } by {
            let k = f.kept[j];
            assert(f.kept.contains(k));
            assert(f.homes[k] == k);
            let i = lemma_gathered_greatest(before, cells, k, n as int);
            assert(f.homes[i] == k);
            assert forall|i: int|
                0 <= i < before.len() && #[trigger] f.homes[i] == k
                    && !before[i].base_value.nan() implies before[i].base_value.at_most(
                after[j].base_value,
            ) by {
                merge_laws::law_home_is_earliest(before, cells, i);
            }
        }
        f
    }
}

/// A coordinate pair and its cell, by quotients and lines.
spec fn lined<A: Arithmetic>(
    origin: Vec2,
    merge_radius: Scalar,
    cell: (u64, u64),
    quotients: Vec2,
    lines: Vec2,
) -> bool {
    &&& on_lines::<A>(origin, merge_radius, quotients, lines)
    &&& merge::line_key_is::<A>(lines.x, cell.0)
    &&& merge::line_key_is::<A>(lines.y, cell.1)
}

proof fn lemma_lined<A: Arithmetic>(origin: Vec2, merge_radius: Scalar, cell: (u64, u64)) -> (parts: (
    Vec2,
    Vec2,
))
    requires
        (Scalar { bits: 0 }).less(merge_radius),
        merge::origin_key_is::<A>(origin, merge_radius, cell),
    ensures
        lined::<A>(origin, merge_radius, cell, parts.0, parts.1),
{
    let (q, x) = choose|quotient: Scalar, below: Scalar|
        {
            &&& #[trigger] arithmetic::over_is::<A>(origin.x, merge_radius, quotient)
            &&& #[trigger] arithmetic::floor_is::<A>(quotient, below)
            &&& merge::line_key_is::<A>(below, cell.0)
        };
    let (r, y) = choose|quotient: Scalar, below: Scalar|
        {
            &&& #[trigger] arithmetic::over_is::<A>(origin.y, merge_radius, quotient)
            &&& #[trigger] arithmetic::floor_is::<A>(quotient, below)
            &&& merge::line_key_is::<A>(below, cell.1)
        };
    (Vec2 { x: q, y: r }, Vec2 { x, y })
}

/// Coordinates are grouped by one number if and only if they are on one line.
proof fn lemma_one_line<A: Arithmetic>(
    q: Scalar,
    r: Scalar,
    a: Scalar,
    b: Scalar,
    x: u64,
    y: u64,
)
    requires
        rounding::wholes_are_exact::<A>(),
        arithmetic::floor_is::<A>(q, a),
        arithmetic::floor_is::<A>(r, b),
        merge::line_key_is::<A>(a, x),
        merge::line_key_is::<A>(b, y),
    ensures
        x == y <==> one_line(a, b),
{
    if merge::line_fits(a) && merge::line_fits(b) {
        let m = merge_laws::lemma_line::<A>(q, a, x);
        let n = merge_laws::lemma_line::<A>(r, b, y);
        assert(m as u32 == n as u32 ==> m == n) by (bit_vector);
        exact::law_order_is_of_values(a, b);
        rounding::lemma_one();
        let one = exact::one();
        assert(m * one == n * one ==> m == n) by (nonlinear_arith)
            requires
                one > 0,
        ;
    } else if !merge::line_fits(a) && !merge::line_fits(b) {
        if a.equals(b) && a.bits != b.bits {
            assert(a.magnitude() == 0);
        }
    }
}

/// What is gathered is the intensity of one of the messages that became part of
/// another, and no lesser number than that of any.
proof fn lemma_gathered_greatest<P: Percept>(
    batch: Seq<PerceptionMessage<P>>,
    cells: Seq<(u64, u64)>,
    k: int,
    end: int,
) -> (from: int)
    requires
        0 <= k < end <= batch.len(),
        merge_laws::stands(batch, cells, k),
    ensures
        k <= from < end,
        merge::home(batch, cells, from) == k,
        merge::gathered(batch, cells, k, end) == batch[from].base_value,
        forall|i: int|
            k <= i < end && #[trigger] merge::home(batch, cells, i) == k
                && !batch[i].base_value.nan() ==> batch[i].base_value.at_most(
                batch[from].base_value,
            ),
    decreases end,
{
    if end == k + 1 {
        k
    } else {
        let before = lemma_gathered_greatest(batch, cells, k, end - 1);
        let (a, b) = (batch[before].base_value, batch[end - 1].base_value);
        if merge::home(batch, cells, end - 1) == k && (a.nan() || a.less(b)) {
            end - 1
        } else {
            before
        }
    }
}

/// Origins are grouped by one key if and only if they are taken as one. Returns the
/// quotients and lines of both.
pub proof fn law_origin_keys_agree_where_origins_are_one<A: Arithmetic>(
    a: Vec2,
    b: Vec2,
    merge_radius: Scalar,
    a_key: (u64, u64),
    b_key: (u64, u64),
) -> (parts: ((Vec2, Vec2), (Vec2, Vec2)))
    requires
        rounding::wholes_are_exact::<A>(),
        merge::origin_key_is::<A>(a, merge_radius, a_key),
        merge::origin_key_is::<A>(b, merge_radius, b_key),
    ensures
        (Scalar { bits: 0 }).less(merge_radius) ==> on_lines::<A>(
            a,
            merge_radius,
            parts.0.0,
            parts.0.1,
        ) && on_lines::<A>(b, merge_radius, parts.1.0, parts.1.1),
        a_key == b_key <==> one_place(a, b, parts.0.1, parts.1.1, merge_radius),
        !(Scalar { bits: 0 }).less(merge_radius) ==> a_key == (a.x.bits as u64, a.y.bits as u64),
{
    if (Scalar { bits: 0 }).less(merge_radius) {
        let (p, x) = lemma_lined::<A>(a, merge_radius, a_key);
        let (q, y) = lemma_lined::<A>(b, merge_radius, b_key);
        lemma_one_line::<A>(p.x, q.x, x.x, y.x, a_key.0, b_key.0);
        lemma_one_line::<A>(p.y, q.y, x.y, y.y, a_key.1, b_key.1);
        ((p, x), (q, y))
    } else {
        ((a, a), (b, b))
    }
}

/// Numbers that stand for percepts are the same if and only if they are equal.
pub proof fn law_numbers_are_percepts_by_value(a: u32, b: u32)
    ensures
        a.comparison(&b) == Some(true) <==> a == b,
        a.comparison(&b) is Some,
{
}

} // verus!
