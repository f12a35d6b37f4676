//! How evenly the wheel picks.
//!
//! A sector between two marks is as wide as the values of the marks are
//! apart. Spokes that are laid at equal distances pick each sector as often
//! as its width holds that distance, give or take one. The first two laws
//! here say so for any spokes in ascending order, by how far they lie apart.
//! The others count the picks of a sector: of one between two others that
//! are picked, of the first sector picked and of the last. They ask no equal
//! distances of the spokes, which sums that are rounded do not keep, but
//! steps between a least and a greatest gap.
use vstd::prelude::*;
use crate::binary64::{is_nan, less, value};
use crate::wheel::{
    lemma_pick_is_least, lemma_pointer_bounds, lemma_reach_is_first, reach, rim, selection,
};

verus! {

/// Marks that are numbers and never fall, as the sums of weights that are
/// not negative are.
pub open spec fn ascending(marks: Seq<u64>) -> bool {
    &&& forall|i: int| 0 <= i < marks.len() ==> !is_nan(#[trigger] marks[i])
    &&& forall|i: int| 0 <= i && i + 1 < marks.len() ==> !less(#[trigger] marks[i + 1], marks[i])
}

/// Where sector `i` begins: at the mark of the sector before it, and the
/// first sector at zero.
pub open spec fn start(marks: Seq<u64>, i: int) -> int {
    if i <= 0 {
        0
    } else {
        value(marks[i - 1])
    }
}

/// How wide sector `i` is.
pub open spec fn width(marks: Seq<u64>, i: int) -> int {
    value(marks[i]) - start(marks, i)
}

/// Each of the first `count` spokes lies above the one before it by `least`
/// or more and by `greatest` or less.
pub open spec fn stepped(spokes: Seq<u64>, count: int, least: int, greatest: int) -> bool {
    forall|h: int|
        0 <= h && h + 1 < count ==> least <= value(#[trigger] spokes[h + 1]) - value(spokes[h])
            <= greatest
}

/// No sector is picked too often: where the spokes are laid in ascending
/// order and none before zero, two spokes that pick the same sector lie no
/// further apart than the sector is wide. With spokes at a distance of `g`
/// or more, a sector of width `w` is so picked at most `w / g + 1` times.
pub proof fn lemma_spokes_of_a_sector_are_close(marks: Seq<u64>, spokes: Seq<u64>, j: int, k: int)
    requires
        marks.len() > 0,
        0 <= j <= k < reach(marks, spokes, 0),
        forall|i: int| 0 <= i < k ==> !less(#[trigger] spokes[i + 1], spokes[i]),
        0 < selection(marks, spokes)[j] || 0 <= value(spokes[j]),
        selection(marks, spokes)[j] == selection(marks, spokes)[k],
        !is_nan(marks[selection(marks, spokes)[k]]),
    ensures
        value(spokes[k]) - value(spokes[j]) <= width(marks, selection(marks, spokes)[k]),
{
    lemma_reach_is_first(marks, spokes);
    lemma_pick_is_least(marks, spokes, j);
    lemma_pick_is_least(marks, spokes, k);
    let sector = selection(marks, spokes)[k];
    assert(less(spokes[k], rim(marks)));
    if sector > 0 {
        assert(less(marks[sector - 1], spokes[j]));
    }
}

/// No sector is picked too rarely: where the marks are ascending and the
/// spokes are laid in ascending order, two spokes that pick sectors on either
/// side of a sector lie further apart than that sector is wide. With spokes
/// at a distance of `g` or less, a sector of width `w` that lies between the
/// first and the last pick is so picked more than `w / g - 1` times, and one
/// as wide as `g` is never left out.
pub proof fn lemma_spokes_round_a_sector_are_apart(
    marks: Seq<u64>,
    spokes: Seq<u64>,
    j: int,
    k: int,
    i: int,
)
    requires
        marks.len() > 0,
        ascending(marks),
        0 <= j < k < reach(marks, spokes, 0),
        forall|h: int| 0 <= h < k ==> !less(#[trigger] spokes[h + 1], spokes[h]),
        selection(marks, spokes)[j] < i < selection(marks, spokes)[k],
    ensures
        width(marks, i) < value(spokes[k]) - value(spokes[j]),
{
    lemma_reach_is_first(marks, spokes);
    lemma_pointer_bounds(marks, spokes, j + 1);
    lemma_pointer_bounds(marks, spokes, k + 1);
    lemma_pick_is_least(marks, spokes, j);
    lemma_pick_is_least(marks, spokes, k);
    assert(less(spokes[j], rim(marks)));
    assert(less(marks[i], spokes[k]));
    lemma_ascending_marks(marks, selection(marks, spokes)[j], i - 1);
}

/// A sector is picked as often as its width allows: where the marks are
/// ascending and the spokes that are read lie between `least` and `greatest`
/// apart, a sector that is picked by the spokes from `j` to `k`, and neither
/// by the spoke before them nor by the one after, is at least as wide as
/// `k - j` least gaps and less wide than `k - j + 2` greatest gaps. Where all
/// gaps are the same, two sectors of one width are so never picked more than
/// once more or less than each other.
pub proof fn lemma_sector_is_picked_by_its_width(
    marks: Seq<u64>,
    spokes: Seq<u64>,
    least: int,
    greatest: int,
    j: int,
    k: int,
)
    requires
        marks.len() > 0,
        ascending(marks),
        0 <= least <= greatest,
        0 < j <= k,
        k + 1 < reach(marks, spokes, 0),
        stepped(spokes, k + 2, least, greatest),
        selection(marks, spokes)[j - 1] < selection(marks, spokes)[j],
        selection(marks, spokes)[j] == selection(marks, spokes)[k],
        selection(marks, spokes)[k] < selection(marks, spokes)[k + 1],
    ensures
        (k - j) * least <= width(marks, selection(marks, spokes)[k]) < (k - j + 2) * greatest,
{
    lemma_reach_is_first(marks, spokes);
    lemma_pointer_bounds(marks, spokes, j);
    lemma_pointer_bounds(marks, spokes, k + 1);
    lemma_stepped_spokes_ascend(marks, spokes, k + 2, least, greatest);
    lemma_spokes_of_a_sector_are_close(marks, spokes, j, k);
    lemma_spokes_round_a_sector_are_apart(marks, spokes, j - 1, k + 1, selection(marks, spokes)[k]);
    lemma_stepped_spokes(spokes, k + 2, least, greatest, j, k);
    lemma_stepped_spokes(spokes, k + 2, least, greatest, j - 1, k + 1);
}

/// The first sector picked is picked as often as its width allows: where the
/// marks are ascending from zero or above, and the spokes that are read lie
/// between `least` and `greatest` apart with the first of them less than a
/// greatest gap above zero, the sector that is picked by the spokes up to
/// `k`, and not by the one after, is at least as wide as `k` least gaps and
/// less wide than `k + 2` greatest gaps.
pub proof fn lemma_first_sector_is_picked_by_its_width(
    marks: Seq<u64>,
    spokes: Seq<u64>,
    least: int,
    greatest: int,
    k: int,
)
    requires
        marks.len() > 0,
        ascending(marks),
        0 <= value(marks[0]),
        0 <= least <= greatest,
        0 <= k,
        k + 1 < reach(marks, spokes, 0),
        stepped(spokes, k + 2, least, greatest),
        0 <= value(spokes[0]) < greatest,
        selection(marks, spokes)[0] == selection(marks, spokes)[k],
        selection(marks, spokes)[k] < selection(marks, spokes)[k + 1],
    ensures
        k * least <= width(marks, selection(marks, spokes)[k]) < (k + 2) * greatest,
{
    lemma_reach_is_first(marks, spokes);
    lemma_pointer_bounds(marks, spokes, k + 1);
    lemma_pointer_bounds(marks, spokes, k + 2);
    lemma_stepped_spokes_ascend(marks, spokes, k + 2, least, greatest);
    let sector = selection(marks, spokes)[k];
    lemma_spokes_of_a_sector_are_close(marks, spokes, 0, k);
    lemma_pick_is_least(marks, spokes, k + 1);
    assert(less(marks[sector], spokes[k + 1]));
    if sector > 0 {
        lemma_ascending_marks(marks, 0, sector - 1);
    }
    lemma_stepped_spokes(spokes, k + 2, least, greatest, 0, k);
    lemma_stepped_spokes(spokes, k + 2, least, greatest, 0, k + 1);
    assert((k + 1) * greatest + greatest == (k + 2) * greatest) by (nonlinear_arith);
}

/// The last sector picked is picked as often as its width allows: where the
/// marks are ascending and the spokes that are read lie between `least` and
/// `greatest` apart, a sector that is picked by the spokes from `j` to `k`
/// and not by the spoke before them, and that ends no more than a greatest
/// gap above spoke `k`, is at least as wide as `k - j` least gaps and no
/// wider than `k - j + 2` greatest gaps.
pub proof fn lemma_last_sector_is_picked_by_its_width(
    marks: Seq<u64>,
    spokes: Seq<u64>,
    least: int,
    greatest: int,
    j: int,
    k: int,
)
    requires
        marks.len() > 0,
        ascending(marks),
        0 <= least <= greatest,
        0 < j <= k < reach(marks, spokes, 0),
        stepped(spokes, k + 1, least, greatest),
        selection(marks, spokes)[j - 1] < selection(marks, spokes)[j],
        selection(marks, spokes)[j] == selection(marks, spokes)[k],
        value(marks[selection(marks, spokes)[k]]) <= value(spokes[k]) + greatest,
    ensures
        (k - j) * least <= width(marks, selection(marks, spokes)[k]) <= (k - j + 2) * greatest,
{
    lemma_reach_is_first(marks, spokes);
    lemma_pointer_bounds(marks, spokes, j);
    lemma_pointer_bounds(marks, spokes, k + 1);
    lemma_stepped_spokes_ascend(marks, spokes, k + 1, least, greatest);
    let sector = selection(marks, spokes)[k];
    lemma_spokes_of_a_sector_are_close(marks, spokes, j, k);
    lemma_pick_is_least(marks, spokes, j - 1);
    assert(less(spokes[j - 1], rim(marks)));
    lemma_ascending_marks(marks, selection(marks, spokes)[j - 1], sector - 1);
    lemma_stepped_spokes(spokes, k + 1, least, greatest, j, k);
    lemma_stepped_spokes(spokes, k + 1, least, greatest, j - 1, k);
    assert((k - j + 1) * greatest + greatest == (k - j + 2) * greatest) by (nonlinear_arith);
}

/// Spokes that are read and step forward are laid in ascending order.
proof fn lemma_stepped_spokes_ascend(
    marks: Seq<u64>,
    spokes: Seq<u64>,
    count: int,
    least: int,
    greatest: int,
)
    requires
        0 <= least,
        0 <= count <= reach(marks, spokes, 0),
        stepped(spokes, count, least, greatest),
    ensures
        forall|h: int| 0 <= h && h + 1 < count ==> !less(#[trigger] spokes[h + 1], spokes[h]),
{
    lemma_reach_is_first(marks, spokes);
    assert forall|h: int| 0 <= h && h + 1 < count implies !less(
        #[trigger] spokes[h + 1],
        spokes[h],
    ) by {
        assert(less(spokes[h], rim(marks)));
        assert(less(spokes[h + 1], rim(marks)));
    }
}

/// Spokes whose steps lie between a least and a greatest gap lie as many
/// least gaps apart, or more, as they are spokes apart, and no more than as
/// many greatest gaps.
proof fn lemma_stepped_spokes(spokes: Seq<u64>, count: int, least: int, greatest: int, j: int, k: int)
    requires
        stepped(spokes, count, least, greatest),
        0 <= j <= k < count,
    ensures
        (k - j) * least <= value(spokes[k]) - value(spokes[j]) <= (k - j) * greatest,
    decreases k - j,
{
    if j < k {
        lemma_stepped_spokes(spokes, count, least, greatest, j, k - 1);
        assert(least <= value(spokes[k - 1 + 1]) - value(spokes[k - 1]) <= greatest);
        assert((k - 1 - j) * least + least == (k - j) * least) by (nonlinear_arith);
        assert((k - 1 - j) * greatest + greatest == (k - j) * greatest) by (nonlinear_arith);
    } else {
        assert((k - j) * least == 0 && (k - j) * greatest == 0) by (nonlinear_arith)
            requires
                k == j,
        ;
    }
}

/// Ascending marks have ascending values.
proof fn lemma_ascending_marks(marks: Seq<u64>, i: int, j: int)
    requires
        ascending(marks),
        0 <= i <= j < marks.len(),
    ensures
        value(marks[i]) <= value(marks[j]),
    decreases j - i,
{
    if i < j {
        lemma_ascending_marks(marks, i, j - 1);
        assert(!less(marks[j - 1 + 1], marks[j - 1]));
    }
}

} // verus!
