//! Laws of merging.

use crate::arithmetic;
use crate::arithmetic::Arithmetic;
use crate::exact;
use crate::memory_laws;
use crate::merge;
use crate::message::PerceptionMessage;
use crate::percept::Percept;
use crate::rounding;
use crate::scalar::{Scalar, ZERO_BITS};
use crate::space;
use crate::space::Vec2;
use vstd::arithmetic::power2::pow2;
use vstd::prelude::*;

verus! {

/// Whether the message at `i` stands: it is not part of an earlier one.
pub open spec fn stands<P: Percept>(
    batch: Seq<PerceptionMessage<P>>,
    cells: Seq<(u64, u64)>,
    i: int,
) -> bool {
    merge::home(batch, cells, i) == i
}

/// Whether `places` are the places of the messages that stand, ascending.
pub open spec fn standing_places<P: Percept>(
    batch: Seq<PerceptionMessage<P>>,
    cells: Seq<(u64, u64)>,
    places: Seq<int>,
) -> bool {
    &&& memory_laws::ascending_places(places, batch.len())
    &&& forall|i: int|
        0 <= i < batch.len() ==> (places.contains(i) <==> #[trigger] stands(batch, cells, i))
}

/// A message becomes part of the earliest message that stands and takes it in,
/// and stands itself where there is none.
pub proof fn law_home_is_earliest<P: Percept>(
    batch: Seq<PerceptionMessage<P>>,
    cells: Seq<(u64, u64)>,
    i: int,
)
    requires
        0 <= i < batch.len(),
    ensures
        0 <= merge::home(batch, cells, i) <= i,
        merge::home(batch, cells, i) < i ==> stands(batch, cells, merge::home(batch, cells, i))
            && merge::takes_in(batch, cells, merge::home(batch, cells, i), i),
        forall|k: int|
            0 <= k < merge::home(batch, cells, i) ==> !(#[trigger] stands(batch, cells, k)
                && merge::takes_in(batch, cells, k, i)),
{
    merge::lemma_home_from(batch, cells, i, 0);
    assert forall|k: int| 0 <= k < merge::home(batch, cells, i) implies !(#[trigger] stands(
        batch,
        cells,
        k,
    ) && merge::takes_in(batch, cells, k, i)) by {
        assert(!(merge::home(batch, cells, k) == k && merge::takes_in(batch, cells, k, i)));
    }
}

/// Merging keeps the order of messages: what is left are the messages that
/// stand, each where it stood among the others, changed in its base intensity
/// alone.
pub proof fn law_merging_keeps_order<P: Percept>(
    batch: Seq<PerceptionMessage<P>>,
    cells: Seq<(u64, u64)>,
) -> (places: Seq<int>)
    ensures
        standing_places(batch, cells, places),
        merge::merged_by(batch, cells).len() == places.len(),
        forall|j: int|
            0 <= j < places.len() ==> #[trigger] merge::merged_by(batch, cells)[j]
                == batch[places[j]].at_base(
                merge::gathered(batch, cells, places[j], batch.len() as int),
            ),
{
    let strengthened = merge::strengthened(batch, cells);
    let absorbed = merge::absorbed(batch, cells);
    let places = lemma_undropped(strengthened, absorbed);
    assert forall|i: int| 0 <= i < batch.len() implies (places.contains(i)
        <==> #[trigger] stands(batch, cells, i)) by {
        assert(absorbed[i] == (merge::home(batch, cells, i) != i));
    }
    assert forall|j: int| 0 <= j < places.len() implies #[trigger] merge::merged_by(
        batch,
        cells,
    )[j] == batch[places[j]].at_base(
        merge::gathered(batch, cells, places[j], batch.len() as int),
    ) by {
        assert(merge::undropped(strengthened, absorbed)[j] == strengthened[places[j]]);
    }
    places
}

proof fn lemma_undropped<P>(
    batch: Seq<PerceptionMessage<P>>,
    dropped: Seq<bool>,
) -> (places: Seq<int>)
    ensures
        memory_laws::ascending_places(places, batch.len()),
        forall|i: int| 0 <= i < batch.len() ==> (places.contains(i) <==> !#[trigger] dropped[i]),
        merge::undropped(batch, dropped).len() == places.len(),
        forall|j: int|
            0 <= j < places.len() ==> #[trigger] merge::undropped(batch, dropped)[j]
                == batch[places[j]],
    decreases batch.len(),
{
    if batch.len() == 0 {
        Seq::empty()
    } else {
        let last = batch.len() - 1;
        let rest = lemma_undropped(batch.drop_last(), dropped);
        let places = if dropped[last] {
            rest
        } else {
            rest.push(last)
        };
        assert forall|i: int| 0 <= i < batch.len() implies (places.contains(i)
            <==> !#[trigger] dropped[i]) by {
            if rest.contains(i) {
                let j = choose|j: int| 0 <= j < rest.len() && rest[j] == i;
                assert(places[j] == i);
            }
            if places.contains(i) && i < last {
                let j = choose|j: int| 0 <= j < places.len() && places[j] == i;
                assert(rest[j] == i);
            }
            if i == last {
                if !dropped[last] {
                    assert(places[rest.len() as int] == last);
                } else if places.contains(i) {
                    let j = choose|j: int| 0 <= j < places.len() && places[j] == i;
                    assert(rest[j] < last);
                }
            }
        }
        places
    }
}

/// A merged message carries the strongest base intensity of those that became
/// part of it.
pub proof fn law_merged_carries_strongest<P: Percept>(
    batch: Seq<PerceptionMessage<P>>,
    cells: Seq<(u64, u64)>,
    k: int,
) -> (from: int)
    requires
        0 <= k < batch.len(),
        stands(batch, cells, k),
        forall|i: int| 0 <= i < batch.len() ==> !(#[trigger] batch[i]).base_value.nan(),
    ensures
        0 <= from < batch.len(),
        merge::home(batch, cells, from) == k,
        merge::gathered(batch, cells, k, batch.len() as int) == batch[from].base_value,
        forall|i: int|
            0 <= i < batch.len() && #[trigger] merge::home(batch, cells, i) == k
                ==> batch[i].base_value.at_most(batch[from].base_value),
{
    let from = lemma_gathered_strongest(batch, cells, k, batch.len() as int);
    assert forall|i: int| 0 <= i < batch.len() && #[trigger] merge::home(batch, cells, i)
        == k implies batch[i].base_value.at_most(batch[from].base_value) by {
        law_home_is_earliest(batch, cells, i);
    }
    from
}

proof fn lemma_gathered_strongest<P: Percept>(
    batch: Seq<PerceptionMessage<P>>,
    cells: Seq<(u64, u64)>,
    k: int,
    end: int,
) -> (from: int)
    requires
        0 <= k < end <= batch.len(),
        stands(batch, cells, k),
        forall|i: int| 0 <= i < batch.len() ==> !(#[trigger] batch[i]).base_value.nan(),
    ensures
        k <= from < end,
        merge::home(batch, cells, from) == k,
        merge::gathered(batch, cells, k, end) == batch[from].base_value,
        forall|i: int|
            k <= i < end && #[trigger] merge::home(batch, cells, i) == k
                ==> batch[i].base_value.at_most(batch[from].base_value),
    decreases end,
{
    if end == k + 1 {
        k
    } else {
        let before = lemma_gathered_strongest(batch, cells, k, end - 1);
        if merge::home(batch, cells, end - 1) == k && batch[before].base_value.less(
            batch[end - 1].base_value,
        ) {
            end - 1
        } else {
            before
        }
    }
}

/// Of two messages that are left, the earlier does not take in the later.
pub proof fn law_merged_stand_apart<P: Percept>(
    batch: Seq<PerceptionMessage<P>>,
    cells: Seq<(u64, u64)>,
    k: int,
    i: int,
)
    requires
        0 <= k < i < batch.len(),
        stands(batch, cells, k),
        stands(batch, cells, i),
    ensures
        !merge::takes_in(batch, cells, k, i),
{
    law_home_is_earliest(batch, cells, i);
    assert(stands(batch, cells, k));
}

/// A burst of messages that the first of them takes in becomes one message,
/// the first at the strongest of their intensities.
pub proof fn law_burst_becomes_one<P: Percept>(
    batch: Seq<PerceptionMessage<P>>,
    cells: Seq<(u64, u64)>,
)
    requires
        batch.len() > 0,
        forall|i: int| 0 < i < batch.len() ==> #[trigger] merge::takes_in(batch, cells, 0, i),
    ensures
        merge::merged_by(batch, cells) == seq![
            batch[0].at_base(merge::gathered(batch, cells, 0, batch.len() as int)),
        ],
        forall|i: int| 0 <= i < batch.len() ==> #[trigger] merge::home(batch, cells, i) == 0,
{
    assert(stands(batch, cells, 0));
    assert forall|i: int| 0 <= i < batch.len() implies #[trigger] merge::home(batch, cells, i)
        == 0 by {
        law_home_is_earliest(batch, cells, i);
        if i > 0 {
            assert(merge::takes_in(batch, cells, 0, i));
        }
    }
    let places = law_merging_keeps_order(batch, cells);
    assert(places.contains(0));
    if places.len() > 1 {
        assert(places[0] < places[1]);
        assert(places.contains(places[1]));
        assert(stands(batch, cells, places[1]));
        assert(merge::home(batch, cells, places[1]) == 0);
    }
    assert(places.len() == 1);
    assert(places[0] == 0);
    assert(merge::merged_by(batch, cells) =~= seq![
        batch[0].at_base(merge::gathered(batch, cells, 0, batch.len() as int)),
    ]);
}

/// Whether none of the messages takes in a later one, whatever cells their origins
/// are grouped by.
pub open spec fn nothing_merges<A: Arithmetic, P: Percept>(
    batch: Seq<PerceptionMessage<P>>,
    merge_radius: Scalar,
) -> bool {
    forall|cells: Seq<(u64, u64)>, k: int, i: int| #[trigger]
        merge::cells_are::<A, P>(batch, merge_radius, cells) && 0 <= k < i < batch.len()
            ==> !#[trigger] merge::takes_in(batch, cells, k, i)
}

/// Messages of which none takes in a later one stay as they are.
pub proof fn law_apart_stay_as_they_are<A: Arithmetic, P: Percept>(
    before: Seq<PerceptionMessage<P>>,
    merge_radius: Scalar,
    after: Seq<PerceptionMessage<P>>,
)
    requires
        nothing_merges::<A, P>(before, merge_radius),
        merge::merging_is::<A, P>(before, merge_radius, after),
    ensures
        after == before,
{
    if !merge::merging_skipped(before, merge_radius) {
        let cells = choose|cells: Seq<(u64, u64)>| #[trigger]
            merge::cells_are::<A, P>(before, merge_radius, cells) && after == merge::merged_by(
                before,
                cells,
            );
        assert forall|i: int| 0 <= i < before.len() implies #[trigger] stands(
            before,
            cells,
            i,
        ) by {
            law_home_is_earliest(before, cells, i);
        }
        let strengthened = merge::strengthened(before, cells);
        assert forall|i: int| 0 <= i < before.len() implies #[trigger] strengthened[i]
            == before[i] by {
            lemma_gathered_alone(before, cells, i, before.len() as int);
        }
        assert(strengthened =~= before);
        assert forall|i: int| 0 <= i < before.len() implies !#[trigger] merge::absorbed(
            before,
            cells,
        )[i] by {
            assert(stands(before, cells, i));
        }
        lemma_none_dropped(before, merge::absorbed(before, cells));
    }
}

/// A message that no other became part of keeps its intensity.
proof fn lemma_gathered_alone<P: Percept>(
    batch: Seq<PerceptionMessage<P>>,
    cells: Seq<(u64, u64)>,
    k: int,
    end: int,
)
    requires
        0 <= k < batch.len(),
        end <= batch.len(),
        forall|i: int| 0 <= i < batch.len() ==> #[trigger] stands(batch, cells, i),
    ensures
        merge::gathered(batch, cells, k, end) == batch[k].base_value,
    decreases end,
{
    if end > k + 1 {
        lemma_gathered_alone(batch, cells, k, end - 1);
        assert(stands(batch, cells, end - 1));
    }
}

/// Where none is dropped, all stay.
proof fn lemma_none_dropped<P>(batch: Seq<PerceptionMessage<P>>, dropped: Seq<bool>)
    requires
        forall|i: int| 0 <= i < batch.len() ==> !#[trigger] dropped[i],
    ensures
        merge::undropped(batch, dropped) == batch,
    decreases batch.len(),
{
    if batch.len() > 0 {
        lemma_none_dropped(batch.drop_last(), dropped);
        assert(batch.drop_last().push(batch.last()) =~= batch);
        assert(!dropped[batch.len() - 1]);
    } else {
        assert(merge::undropped(batch, dropped) =~= batch);
    }
}

/// Percepts that cannot tell whether they are the same leave their messages
/// unmerged.
pub proof fn law_incomparable_stay_apart<P: Percept>(
    batch: Seq<PerceptionMessage<P>>,
    cells: Seq<(u64, u64)>,
    i: int,
)
    requires
        0 <= i < batch.len(),
        forall|k: int|
            0 <= k < i ==> (#[trigger] batch[k]).percept.comparison(&batch[i].percept) != Some(
                true,
            ),
    ensures
        stands(batch, cells, i),
{
    law_home_is_earliest(batch, cells, i);
}

/// A radius of zero merges messages of one origin only, bit for bit.
pub proof fn law_zero_radius_merges_one_origin<A: Arithmetic, P: Percept>(
    batch: Seq<PerceptionMessage<P>>,
    merge_radius: Scalar,
    cells: Seq<(u64, u64)>,
    k: int,
    i: int,
)
    requires
        merge_radius.equals(Scalar::from_bits(ZERO_BITS)),
        merge::cells_are::<A, P>(batch, merge_radius, cells),
        0 <= k < batch.len(),
        0 <= i < batch.len(),
        merge::takes_in(batch, cells, k, i),
    ensures
        batch[k].origin == batch[i].origin,
{
    assert(merge::origin_key_is::<A>(batch[k].origin, merge_radius, cells[k]));
    assert(merge::origin_key_is::<A>(batch[i].origin, merge_radius, cells[i]));
}

/// At a radius of zero, messages of which no two have one origin do not merge.
pub proof fn law_distinct_origins_do_not_merge<A: Arithmetic, P: Percept>(
    batch: Seq<PerceptionMessage<P>>,
    merge_radius: Scalar,
)
    requires
        merge_radius.equals(Scalar::from_bits(ZERO_BITS)),
        forall|k: int, i: int|
            0 <= k < i < batch.len() ==> (#[trigger] batch[k]).origin != (
            #[trigger] batch[i]).origin,
    ensures
        nothing_merges::<A, P>(batch, merge_radius),
{
    assert forall|cells: Seq<(u64, u64)>, k: int, i: int| #[trigger]
        merge::cells_are::<A, P>(batch, merge_radius, cells) && 0 <= k < i
            < batch.len() implies !#[trigger] merge::takes_in(batch, cells, k, i) by {
        if merge::takes_in(batch, cells, k, i) {
            law_zero_radius_merges_one_origin::<A, P>(batch, merge_radius, cells, k, i);
        }
    }
}

/// Whether two coordinates share a line of cells in a grid of edge `merge_radius`:
/// their quotients by it come out, rounded down, as one number.
pub open spec fn share_line<A: Arithmetic>(a: Scalar, b: Scalar, merge_radius: Scalar) -> bool {
    exists|above: Scalar, below: Scalar|
        {
            &&& #[trigger] space::line_is::<A>(a, merge_radius, above)
            &&& #[trigger] space::line_is::<A>(b, merge_radius, below)
            &&& above == below || above.equals(below)
        }
}

/// Only messages of one origin cell are merged, however far out the cell is.
pub proof fn law_merged_share_a_cell<A: Arithmetic, P: Percept>(
    batch: Seq<PerceptionMessage<P>>,
    merge_radius: Scalar,
    cells: Seq<(u64, u64)>,
    k: int,
    i: int,
)
    requires
        rounding::wholes_are_exact::<A>(),
        Scalar::from_bits(ZERO_BITS).less(merge_radius),
        merge::cells_are::<A, P>(batch, merge_radius, cells),
        0 <= k < batch.len(),
        0 <= i < batch.len(),
        merge::takes_in(batch, cells, k, i),
    ensures
        share_line::<A>(batch[k].origin.x, batch[i].origin.x, merge_radius),
        share_line::<A>(batch[k].origin.y, batch[i].origin.y, merge_radius),
{
    assert(merge::origin_key_is::<A>(batch[k].origin, merge_radius, cells[k]));
    assert(merge::origin_key_is::<A>(batch[i].origin, merge_radius, cells[i]));
    lemma_share_line::<A>(batch[k].origin.x, batch[i].origin.x, merge_radius, cells[k].0);
    lemma_share_line::<A>(batch[k].origin.y, batch[i].origin.y, merge_radius, cells[k].1);
}

proof fn lemma_share_line<A: Arithmetic>(a: Scalar, b: Scalar, merge_radius: Scalar, key: u64)
    requires
        rounding::wholes_are_exact::<A>(),
        merge::coordinate_key_is::<A>(a, merge_radius, key),
        merge::coordinate_key_is::<A>(b, merge_radius, key),
    ensures
        share_line::<A>(a, b, merge_radius),
{
    let (q, above) = choose|quotient: Scalar, below: Scalar|
        {
            &&& #[trigger] arithmetic::over_is::<A>(a, merge_radius, quotient)
            &&& #[trigger] arithmetic::floor_is::<A>(quotient, below)
            &&& merge::line_key_is::<A>(below, key)
        };
    let (r, below) = choose|quotient: Scalar, below: Scalar|
        {
            &&& #[trigger] arithmetic::over_is::<A>(b, merge_radius, quotient)
            &&& #[trigger] arithmetic::floor_is::<A>(quotient, below)
            &&& merge::line_key_is::<A>(below, key)
        };
    assert(space::line_is::<A>(a, merge_radius, above));
    assert(space::line_is::<A>(b, merge_radius, below));
    assert(merge::line_fits(above) == merge::line_fits(below));
    if merge::line_fits(above) {
        let x = lemma_line::<A>(q, above, key);
        let y = lemma_line::<A>(r, below, key);
        assert(x as u32 == y as u32 ==> x == y) by (bit_vector);
        exact::law_order_is_of_values(above, below);
    }
}

/// The value of the number past the last line.
proof fn lemma_past_lines()
    ensures
        exact::units(Scalar::from_bits(merge::PAST_LINES_BITS)) == 0x8000_0000int * exact::one(),
{
    vstd::arithmetic::power2::lemma2_to64();
    vstd::arithmetic::power2::lemma2_to64_rest();
    rounding::lemma_one();
    vstd::arithmetic::power2::lemma_pow2_adds(63, 63);
    vstd::arithmetic::power2::lemma_pow2_adds(126, 31);
    assert(pow2(126) == 0x4000_0000_0000_0000_0000_0000_0000_0000nat);
    let (a, b) = (pow2(126), pow2(31));
    assert(0x80_0000 * (a * b) == 0x8000_0000int
        * 0x20_0000_0000_0000_0000_0000_0000_0000_0000_0000int) by (nonlinear_arith)
        requires
            a == 0x4000_0000_0000_0000_0000_0000_0000_0000nat,
            b == 0x8000_0000nat,
    ;
    assert(pow2(126 + 31) == a * b);
    rounding::lemma_power(158);
    assert(158 * 0x80_0000 == merge::PAST_LINES_BITS);
}

/// A whole number that fits is read as what it is.
pub proof fn lemma_line<A: Arithmetic>(quotient: Scalar, below: Scalar, key: u64) -> (line: i32)
    requires
        rounding::wholes_are_exact::<A>(),
        arithmetic::floor_is::<A>(quotient, below),
        merge::line_fits(below),
        merge::line_key_is::<A>(below, key),
    ensures
        key == line as u32 as u64,
        exact::units(below) == line * exact::one(),
{
    rounding::lemma_one();
    let one = exact::one();
    let line = choose|line: i32| #[trigger]
        arithmetic::to_int_is::<A>(below, line) && key == line as u32 as u64;
    let first = Scalar::from_bits(merge::FIRST_LINE_BITS);
    let past = Scalar::from_bits(merge::PAST_LINES_BITS);
    exact::law_order_is_of_values(first, below);
    exact::law_order_is_of_values(below, past);
    lemma_past_lines();
    assert(first.magnitude() == past.magnitude());
    let n = exact::units(quotient) / one;
    assert(exact::units(below) == n * one);
    vstd::arithmetic::div_mod::lemma_div_multiples_vanish(n, one);
    vstd::arithmetic::div_mod::lemma_mod_multiples_basic(n, one);
    assert(one * n == n * one) by (nonlinear_arith);
    line
}

/// A negative radius turns merging off.
pub proof fn law_negative_radius_merges_nothing<A: Arithmetic, P: Percept>(
    before: Seq<PerceptionMessage<P>>,
    merge_radius: Scalar,
    after: Seq<PerceptionMessage<P>>,
)
    requires
        merge_radius.less(Scalar::from_bits(ZERO_BITS)),
        merge::merging_is::<A, P>(before, merge_radius, after),
    ensures
        after == before,
{
}

/// Whether the arithmetic groups an origin in one way only.
pub open spec fn grouping_settled<A: Arithmetic>(merge_radius: Scalar) -> bool {
    forall|origin: Vec2, a: (u64, u64), b: (u64, u64)|
        #[trigger] merge::origin_key_is::<A>(origin, merge_radius, a)
            && #[trigger] merge::origin_key_is::<A>(origin, merge_radius, b) ==> a == b
}

/// Origins are grouped in one way where operations have one result, and where
/// they are grouped bit by bit.
pub proof fn law_grouping_is_settled<A: Arithmetic>(merge_radius: Scalar)
    requires
        arithmetic::settled::<A>() || !Scalar::from_bits(ZERO_BITS).less(merge_radius),
    ensures
        grouping_settled::<A>(merge_radius),
{
    if Scalar::from_bits(ZERO_BITS).less(merge_radius) {
        assert forall|origin: Vec2, a: (u64, u64), b: (u64, u64)|
            #[trigger] merge::origin_key_is::<A>(origin, merge_radius, a)
                && #[trigger] merge::origin_key_is::<A>(origin, merge_radius, b) implies a == b by {
            lemma_coordinate_settled::<A>(origin.x, merge_radius, a.0, b.0);
            lemma_coordinate_settled::<A>(origin.y, merge_radius, a.1, b.1);
        }
    }
}

proof fn lemma_coordinate_settled<A: Arithmetic>(
    coordinate: Scalar,
    merge_radius: Scalar,
    a: u64,
    b: u64,
)
    requires
        arithmetic::settled::<A>(),
        merge::coordinate_key_is::<A>(coordinate, merge_radius, a),
        merge::coordinate_key_is::<A>(coordinate, merge_radius, b),
    ensures
        a == b,
{
    let (q, x) = choose|quotient: Scalar, below: Scalar|
        {
            &&& #[trigger] arithmetic::over_is::<A>(coordinate, merge_radius, quotient)
            &&& #[trigger] arithmetic::floor_is::<A>(quotient, below)
            &&& merge::line_key_is::<A>(below, a)
        };
    let (r, y) = choose|quotient: Scalar, below: Scalar|
        {
            &&& #[trigger] arithmetic::over_is::<A>(coordinate, merge_radius, quotient)
            &&& #[trigger] arithmetic::floor_is::<A>(quotient, below)
            &&& merge::line_key_is::<A>(below, b)
        };
    assert(q == r);
    assert(x == y);
}

/// Merging what was merged changes nothing.
pub proof fn law_merging_twice_is_merging_once<A: Arithmetic, P: Percept>(
    before: Seq<PerceptionMessage<P>>,
    merge_radius: Scalar,
    once: Seq<PerceptionMessage<P>>,
    twice: Seq<PerceptionMessage<P>>,
)
    requires
        grouping_settled::<A>(merge_radius),
        merge::merging_is::<A, P>(before, merge_radius, once),
        merge::merging_is::<A, P>(once, merge_radius, twice),
    ensures
        twice == once,
{
    if !merge::merging_skipped(before, merge_radius) && !merge::merging_skipped(
        once,
        merge_radius,
    ) {
        let cells = choose|cells: Seq<(u64, u64)>| #[trigger]
            merge::cells_are::<A, P>(before, merge_radius, cells) && once == merge::merged_by(
                before,
                cells,
            );
        let later = choose|later: Seq<(u64, u64)>| #[trigger]
            merge::cells_are::<A, P>(once, merge_radius, later) && twice == merge::merged_by(
                once,
                later,
            );
        let places = law_merging_keeps_order(before, cells);
        assert forall|j: int| 0 <= j < once.len() implies later[j] == cells[#[trigger] places[j]] by {
            assert(once[j].origin == before[places[j]].origin);
            assert(merge::origin_key_is::<A>(once[j].origin, merge_radius, later[j]));
            assert(merge::origin_key_is::<A>(
                before[places[j]].origin,
                merge_radius,
                cells[places[j]],
            ));
        }
        assert forall|j: int| 0 <= j < once.len() implies #[trigger] stands(once, later, j) by {
            law_home_is_earliest(once, later, j);
            let k = merge::home(once, later, j);
            if k < j {
                assert(places[k] < places[j]);
                assert(places.contains(places[k]));
                assert(places.contains(places[j]));
                assert(stands(before, cells, places[k]));
                assert(stands(before, cells, places[j]));
                assert(once[k] == before[places[k]].at_base(once[k].base_value));
                assert(once[j] == before[places[j]].at_base(once[j].base_value));
                assert(merge::takes_in(before, cells, places[k], places[j]));
                law_merged_stand_apart(before, cells, places[k], places[j]);
            }
        }
        lemma_all_stand(once, later);
    }
}

/// Where every message stands, merging changes nothing.
proof fn lemma_all_stand<P: Percept>(batch: Seq<PerceptionMessage<P>>, cells: Seq<(u64, u64)>)
    requires
        forall|i: int| 0 <= i < batch.len() ==> #[trigger] stands(batch, cells, i),
    ensures
        merge::merged_by(batch, cells) == batch,
{
    let places = law_merging_keeps_order(batch, cells);
    assert forall|i: int| 0 <= i < batch.len() implies #[trigger] places.contains(i) by {
        assert(stands(batch, cells, i));
    }
    lemma_all_places(places, batch.len());
    assert forall|j: int| 0 <= j < batch.len() implies merge::gathered(
        batch,
        cells,
        j,
        batch.len() as int,
    ) == (#[trigger] batch[j]).base_value by {
        assert forall|i: int| j + 1 <= i < batch.len() implies merge::home(batch, cells, i)
            != j by {
            assert(stands(batch, cells, i));
        }
        merge::lemma_gathered_skip(batch, cells, j, j + 1, batch.len() as int);
    }
    assert(merge::merged_by(batch, cells) =~= batch);
}

/// Ascending places that leave none out are all places in order.
proof fn lemma_all_places(places: Seq<int>, count: nat)
    requires
        memory_laws::ascending_places(places, count),
        forall|i: int| 0 <= i < count ==> #[trigger] places.contains(i),
    ensures
        places.len() == count,
        forall|j: int| 0 <= j < places.len() ==> #[trigger] places[j] == j,
    decreases count,
{
    if count == 0 {
        if places.len() > 0 {
            assert(0 <= places[0] < count);
        }
    } else {
        let last = count - 1;
        assert(places.contains(last));
        let at = choose|at: int| 0 <= at < places.len() && places[at] == last;
        if at < places.len() - 1 {
            assert(places[at] < places[places.len() - 1]);
        }
        let shorter = places.drop_last();
        assert forall|j: int| 0 <= j < shorter.len() implies 0 <= #[trigger] shorter[j] < last by {
            assert(places[j] < places[at]);
        }
        assert forall|j: int, k: int| 0 <= j < k < shorter.len() implies #[trigger] shorter[j]
            < #[trigger] shorter[k] by {
            assert(places[j] < places[k]);
        }
        assert forall|i: int| 0 <= i < last implies #[trigger] shorter.contains(i) by {
            assert(places.contains(i));
            let j = choose|j: int| 0 <= j < places.len() && places[j] == i;
            assert(shorter[j] == i);
        }
        lemma_all_places(shorter, last as nat);
        assert forall|j: int| 0 <= j < places.len() implies #[trigger] places[j] == j by {
            if j < shorter.len() {
                assert(shorter[j] == j);
            }
        }
    }
}

} // verus!
