//! The wheel of stochastic universal sampling.
//!
//! The items lie as sectors on the rim of a wheel, each as wide as its
//! weight. A sector is given by its *mark*, the place where it ends: the sum
//! of the weights up to and including its own. The *spokes* are the places at
//! which the wheel is read, one for each choice to be made. Marks and spokes
//! are binary64 patterns and are compared as such.
//!
//! A pointer starts at the first sector. For each spoke in turn it moves
//! forward, never back, until it stands on a sector whose mark is not below
//! the spoke; that sector is the pick. The first spoke that is not below the
//! rim ends the reading: it and all later spokes get the sector on which the
//! pointer then stands, so that there is a pick for every spoke. On a wheel
//! whose rim is zero, or not a number, every pick is therefore the first
//! sector.
use vstd::prelude::*;
use crate::binary64::{less, lt};

verus! {

/// The end of the last sector.
pub open spec fn rim(marks: Seq<u64>) -> u64
    recommends
        marks.len() > 0,
{
    marks.last()
}

/// Where a pointer that stands on sector `from` comes to rest for `spoke`:
/// the first sector from there on whose mark is not below the spoke, and the
/// last sector if there is none.
pub open spec fn rest(marks: Seq<u64>, from: int, spoke: u64) -> int
    decreases marks.len() - from,
{
    if 0 <= from && from + 1 < marks.len() && less(marks[from], spoke) {
        rest(marks, from + 1, spoke)
    } else {
        from
    }
}

/// The first spoke from `k` on that is not below the rim, and the number of
/// spokes if there is none. From 0 on, it is the number of spokes that are
/// read.
pub open spec fn reach(marks: Seq<u64>, spokes: Seq<u64>, k: int) -> int
    decreases spokes.len() - k,
{
    if 0 <= k < spokes.len() && less(spokes[k], rim(marks)) {
        reach(marks, spokes, k + 1)
    } else {
        k
    }
}

/// The sector on which the pointer stands after `k` spokes.
pub open spec fn pointer(marks: Seq<u64>, spokes: Seq<u64>, k: int) -> int
    decreases k,
{
    if k <= 0 {
        0
    } else if k <= reach(marks, spokes, 0) {
        rest(marks, pointer(marks, spokes, k - 1), spokes[k - 1])
    } else {
        pointer(marks, spokes, k - 1)
    }
}

/// The sectors picked, one for each spoke; none on a wheel without sectors.
pub open spec fn selection(marks: Seq<u64>, spokes: Seq<u64>) -> Seq<int> {
    if marks.len() == 0 {
        Seq::empty()
    } else {
        Seq::new(spokes.len(), |k: int| pointer(marks, spokes, k + 1))
    }
}

/// `choices` holds, for each spoke in turn, the sample of the sector that the
/// spoke picks.
pub open spec fn is_choice<T>(samples: Seq<T>, marks: Seq<u64>, spokes: Seq<u64>, choices: Seq<T>) -> bool {
    &&& choices.len() == selection(marks, spokes).len()
    &&& forall|k: int|
        0 <= k < choices.len() ==> #[trigger] choices[k] == samples[selection(marks, spokes)[k]]
}

/// The item that is copied into place `k` when a sequence is resampled: the
/// one that stood at the place picked, if that place had not been written
/// yet, and the one written there if it had.
pub open spec fn origin<T>(before: Seq<T>, after: Seq<T>, picks: Seq<int>, k: int) -> T {
    if picks[k] >= k {
        before[picks[k]]
    } else {
        after[picks[k]]
    }
}

/// The place from which the item at place `k` of a resampled sequence comes
/// in the end: the place picked for `k`, or, if that place had been written
/// before, the place from which its item came.
pub open spec fn root(picks: Seq<int>, k: int) -> int
    decreases k,
{
    if 0 <= picks[k] < k {
        root(picks, picks[k])
    } else {
        picks[k]
    }
}

/// `copy` is `item` itself or comes from it by cloning: it is a clone of a
/// clone, and so on, of `item`, with no more than `steps` clones in all.
pub open spec fn is_copy<T: Clone>(item: T, copy: T, steps: nat) -> bool
    decreases steps,
{
    if steps == 0 {
        copy == item
    } else {
        exists|between: T|
            is_copy(item, between, (steps - 1) as nat) && #[trigger] cloned(between, copy)
    }
}

/// A pointer at rest stands between where it started and the last sector.
pub proof fn lemma_rest_bounds(marks: Seq<u64>, from: int, spoke: u64)
    requires
        0 <= from < marks.len(),
    ensures
        from <= rest(marks, from, spoke) < marks.len(),
    decreases marks.len() - from,
{
    if from + 1 < marks.len() && less(marks[from], spoke) {
        lemma_rest_bounds(marks, from + 1, spoke);
    }
}

/// A pointer at rest has passed only sectors whose marks are below the
/// spoke. It stands on one whose mark is not, unless it has come to the last
/// sector; and there too, if the spoke is below the rim.
pub proof fn lemma_rest_is_first(marks: Seq<u64>, from: int, spoke: u64)
    requires
        0 <= from < marks.len(),
    ensures
        forall|j: int| from <= j < rest(marks, from, spoke) ==> less(#[trigger] marks[j], spoke),
        rest(marks, from, spoke) + 1 < marks.len() || less(spoke, rim(marks)) ==> !less(
            marks[rest(marks, from, spoke)],
            spoke,
        ),
    decreases marks.len() - from,
{
    if from + 1 < marks.len() && less(marks[from], spoke) {
        lemma_rest_is_first(marks, from + 1, spoke);
    }
}

/// The reading ends at the first spoke that is not below the rim: all spokes
/// before it are below the rim.
pub proof fn lemma_reach_is_first(marks: Seq<u64>, spokes: Seq<u64>)
    ensures
        0 <= reach(marks, spokes, 0) <= spokes.len(),
        forall|j: int| 0 <= j < reach(marks, spokes, 0) ==> less(#[trigger] spokes[j], rim(marks)),
        reach(marks, spokes, 0) < spokes.len() ==> !less(
            spokes[reach(marks, spokes, 0)],
            rim(marks),
        ),
{
    lemma_reach_span(marks, spokes, 0);
}

/// The pointer never leaves the wheel.
pub proof fn lemma_pointer_bounds(marks: Seq<u64>, spokes: Seq<u64>, k: int)
    requires
        marks.len() > 0,
    ensures
        0 <= pointer(marks, spokes, k) < marks.len(),
    decreases k,
{
    if k > 0 {
        lemma_pointer_bounds(marks, spokes, k - 1);
        if k <= reach(marks, spokes, 0) {
            lemma_rest_bounds(marks, pointer(marks, spokes, k - 1), spokes[k - 1]);
        }
    }
}

/// The pointer moves forward only.
pub proof fn lemma_pointer_moves_forward(marks: Seq<u64>, spokes: Seq<u64>, j: int, k: int)
    requires
        marks.len() > 0,
        j <= k,
    ensures
        pointer(marks, spokes, j) <= pointer(marks, spokes, k),
    decreases k - j,
{
    if j < k {
        lemma_pointer_moves_forward(marks, spokes, j, k - 1);
        lemma_pointer_bounds(marks, spokes, k - 1);
        if 0 < k <= reach(marks, spokes, 0) {
            lemma_rest_bounds(marks, pointer(marks, spokes, k - 1), spokes[k - 1]);
        }
    }
}

/// There is a pick for every spoke, unless the wheel has no sectors; each
/// pick is a sector of the wheel; and the picks never go back: a later spoke
/// picks the same sector as an earlier one or a later sector.
pub proof fn lemma_selection_ascends(marks: Seq<u64>, spokes: Seq<u64>)
    ensures
        marks.len() == 0 || spokes.len() == 0 ==> selection(marks, spokes).len() == 0,
        marks.len() > 0 ==> selection(marks, spokes).len() == spokes.len(),
        forall|k: int|
            0 <= k < selection(marks, spokes).len() ==> 0 <= #[trigger] selection(marks, spokes)[k]
                < marks.len(),
        forall|j: int, k: int|
            0 <= j <= k < selection(marks, spokes).len() ==> selection(marks, spokes)[j]
                <= selection(marks, spokes)[k],
{
    if marks.len() > 0 {
        let picks = selection(marks, spokes);
        assert forall|k: int| 0 <= k < picks.len() implies 0 <= #[trigger] picks[k]
            < marks.len() by {
            lemma_pointer_bounds(marks, spokes, k + 1);
        }
        assert forall|j: int, k: int| 0 <= j <= k < picks.len() implies #[trigger] picks[j]
            <= #[trigger] picks[k] by {
            lemma_pointer_moves_forward(marks, spokes, j + 1, k + 1);
        }
    }
}

/// Once the reading has ended the pointer stays where it is: the spoke that
/// ended the reading and all spokes after it pick the sector of the last
/// spoke that was read, and the first sector if none was.
pub proof fn lemma_picks_after_the_reading(marks: Seq<u64>, spokes: Seq<u64>, k: int)
    requires
        marks.len() > 0,
        reach(marks, spokes, 0) <= k < spokes.len(),
    ensures
        reach(marks, spokes, 0) == 0 ==> selection(marks, spokes)[k] == 0,
        reach(marks, spokes, 0) > 0 ==> selection(marks, spokes)[k] == selection(marks, spokes)[reach(
            marks,
            spokes,
            0,
        ) - 1],
{
    lemma_reach_is_first(marks, spokes);
    lemma_pointer_stays(marks, spokes, k + 1);
}

/// Behind the spokes that are read the pointer does not move.
proof fn lemma_pointer_stays(marks: Seq<u64>, spokes: Seq<u64>, k: int)
    requires
        reach(marks, spokes, 0) <= k,
    ensures
        pointer(marks, spokes, k) == pointer(marks, spokes, reach(marks, spokes, 0)),
    decreases k,
{
    lemma_reach_span(marks, spokes, 0);
    if reach(marks, spokes, 0) < k {
        lemma_pointer_stays(marks, spokes, k - 1);
    }
}

/// Where the spokes are laid in ascending order, each spoke that is read
/// picks the sector it lies in: the first sector of the whole wheel whose
/// mark is not below the spoke.
pub proof fn lemma_pick_is_least(marks: Seq<u64>, spokes: Seq<u64>, k: int)
    requires
        marks.len() > 0,
        0 <= k < reach(marks, spokes, 0),
        forall|i: int| 0 <= i < k ==> !less(#[trigger] spokes[i + 1], spokes[i]),
    ensures
        !less(marks[selection(marks, spokes)[k]], spokes[k]),
        forall|j: int| 0 <= j < selection(marks, spokes)[k] ==> less(#[trigger] marks[j], spokes[k]),
    decreases k,
{
    lemma_reach_is_first(marks, spokes);
    lemma_pointer_bounds(marks, spokes, k);
    let from = pointer(marks, spokes, k);
    lemma_rest_is_first(marks, from, spokes[k]);
    if k > 0 {
        lemma_pick_is_least(marks, spokes, k - 1);
        assert forall|j: int| 0 <= j < from implies less(#[trigger] marks[j], spokes[k]) by {
            assert(less(marks[j], spokes[k - 1]));
        }
    }
}

/// The samples, the marks and the spokes decide what is chosen: nothing else
/// has a part in it, and whoever reads the same wheel with the same spokes
/// has the same choices, place for place.
pub proof fn lemma_choices_are_determined<T>(
    samples: Seq<T>,
    marks: Seq<u64>,
    spokes: Seq<u64>,
    first: Seq<T>,
    second: Seq<T>,
)
    requires
        is_choice(samples, marks, spokes, first),
        is_choice(samples, marks, spokes, second),
    ensures
        first == second,
{
    assert(first =~= second);
}

/// Where each item of a resampled sequence equals the one it was copied
/// from, it equals an item of the sequence before: the one at its root.
pub proof fn lemma_resampled_from_before<T>(before: Seq<T>, after: Seq<T>, picks: Seq<int>, k: int)
    requires
        after.len() == before.len(),
        picks.len() == before.len(),
        0 <= k < before.len(),
        forall|j: int| 0 <= j < picks.len() ==> 0 <= #[trigger] picks[j] < before.len(),
        forall|j: int| 0 <= j < after.len() ==> #[trigger] after[j] == origin(before, after, picks, j),
    ensures
        0 <= root(picks, k) < before.len(),
        after[k] == before[root(picks, k)],
    decreases k,
{
    if picks[k] < k {
        lemma_resampled_from_before(before, after, picks, picks[k]);
    }
}

/// The sectors picked for the spokes of a wheel, in the order of the spokes.
pub fn select_indices(marks: &[u64], spokes: &[u64]) -> (picks: Vec<usize>)
    ensures
        picks@.len() == selection(marks@, spokes@).len(),
        forall|k: int| 0 <= k < picks@.len() ==> picks@[k] as int == selection(marks@, spokes@)[k],
        marks@.len() == 0 || spokes@.len() == 0 ==> picks@.len() == 0,
        marks@.len() > 0 ==> picks@.len() == spokes@.len(),
        forall|k: int| 0 <= k < picks@.len() ==> picks@[k] < marks@.len(),
        forall|j: int, k: int| 0 <= j <= k < picks@.len() ==> picks@[j] <= picks@[k],
{
    let mut picks: Vec<usize> = Vec::new();
    if marks.len() == 0 {
        return picks;
    }
    let n: usize = spokes.len();
    let last: usize = marks.len() - 1;
    let rim: u64 = marks[last];
    let mut i: usize = 0;
    let mut k: usize = 0;
    while k < n && lt(spokes[k], rim)
        invariant
            marks@.len() > 0,
            n == spokes@.len(),
            last == marks@.len() - 1,
            rim == self::rim(marks@),
            k <= n,
            reach(marks@, spokes@, 0) == reach(marks@, spokes@, k as int),
            i as int == pointer(marks@, spokes@, k as int),
            i <= last,
            picks@.len() == k,
            forall|j: int| 0 <= j < k ==> picks@[j] as int == pointer(marks@, spokes@, j + 1),
        decreases n - k,
    {
        let ghost from: int = i as int;
        while i < last && lt(marks[i], spokes[k])
            invariant
                k < n,
                n == spokes@.len(),
                last == marks@.len() - 1,
                from <= i <= last,
                rest(marks@, from, spokes@[k as int]) == rest(marks@, i as int, spokes@[k as int]),
            decreases last - i,
        {
            i += 1;
        }
        proof {
            lemma_reach_span(marks@, spokes@, k + 1);
        }
        picks.push(i);
        k += 1;
    }
    let ghost read: int = k as int;
    while k < n
        invariant
            n == spokes@.len(),
            read <= k <= n,
            read == reach(marks@, spokes@, 0),
            i as int == pointer(marks@, spokes@, k as int),
            picks@.len() == k,
            forall|j: int| 0 <= j < k ==> picks@[j] as int == pointer(marks@, spokes@, j + 1),
        decreases n - k,
    {
        picks.push(i);
        k += 1;
    }
    proof {
        lemma_selection_ascends(marks@, spokes@);
        let chosen = selection(marks@, spokes@);
        assert forall|j: int| 0 <= j < picks@.len() implies #[trigger] picks@[j] < marks@.len() by {
            assert(picks@[j] as int == chosen[j]);
        }
        assert forall|j: int, k: int| 0 <= j <= k < picks@.len() implies #[trigger] picks@[j]
            <= #[trigger] picks@[k] by {
            assert(chosen[j] <= chosen[k]);
        }
    }
    picks
}

/// One reference into `samples` for each spoke: to the item of the sector
/// that the spoke picks. Where there is something to choose, there are as
/// many samples as marks.
pub fn sample_by_weight<'a, T>(samples: &'a [T], marks: &[u64], spokes: &[u64]) -> (choices: Vec<
    &'a T,
>)
    requires
        marks@.len() > 0 && spokes@.len() > 0 ==> samples@.len() == marks@.len(),
    ensures
        is_choice(samples@, marks@, spokes@, choices@.map_values(|item: &T| *item)),
        forall|k: int|
            0 <= k < choices@.len() ==> *choices@[k] == samples@[selection(marks@, spokes@)[k]],
        marks@.len() == 0 || spokes@.len() == 0 ==> choices@.len() == 0,
        marks@.len() > 0 ==> choices@.len() == spokes@.len(),
{
    let picks = select_indices(marks, spokes);
    let mut choices: Vec<&'a T> = Vec::new();
    let mut k: usize = 0;
    while k < picks.len()
        invariant
            picks@.len() > 0 ==> samples@.len() == marks@.len(),
            picks@.len() == selection(marks@, spokes@).len(),
            forall|j: int|
                0 <= j < picks@.len() ==> picks@[j] as int == selection(marks@, spokes@)[j],
            forall|j: int| 0 <= j < picks@.len() ==> picks@[j] < marks@.len(),
            k <= picks@.len(),
            choices@.len() == k,
            forall|j: int|
                0 <= j < k ==> *choices@[j] == samples@[selection(marks@, spokes@)[j]],
        decreases picks@.len() - k,
    {
        choices.push(&samples[picks[k]]);
        k += 1;
    }
    choices
}

/// What comes from an item in some number of clones comes from it in any
/// greater number too: an item counts as a clone of itself.
pub proof fn lemma_copy_in_more_steps<T: Clone>(item: T, copy: T, steps: nat, more: nat)
    requires
        is_copy(item, copy, steps),
        steps <= more,
    ensures
        is_copy(item, copy, more),
    decreases more - steps,
{
    if steps < more {
        lemma_copy_in_more_steps(item, copy, steps, (more - 1) as nat);
        assert(is_copy(item, copy, (more - 1) as nat) && cloned(copy, copy));
        assert(is_copy(item, copy, more));
    }
}

/// Every item of a resampled sequence comes from an item of the sequence
/// before, the one at its root, by cloning: the item at place `k` in at most
/// `k + 1` clones.
pub proof fn lemma_resampled_copies_before<T: Clone>(
    before: Seq<T>,
    after: Seq<T>,
    picks: Seq<int>,
    k: int,
)
    requires
        after.len() == before.len(),
        picks.len() == before.len(),
        0 <= k < before.len(),
        forall|j: int| 0 <= j < picks.len() ==> 0 <= #[trigger] picks[j] < before.len(),
        forall|j: int|
            0 <= j < after.len() ==> cloned(#[trigger] origin(before, after, picks, j), after[j]),
    ensures
        0 <= root(picks, k) < before.len(),
        is_copy(before[root(picks, k)], after[k], (k + 1) as nat),
    decreases k,
{
    let place = picks[k];
    assert(cloned(origin(before, after, picks, k), after[k]));
    if place < k {
        lemma_resampled_copies_before(before, after, picks, place);
        let item = before[root(picks, place)];
        let steps = (place + 2) as nat;
        assert(is_copy(item, after[place], (steps - 1) as nat) && cloned(after[place], after[k]));
        assert(is_copy(item, after[k], steps));
        lemma_copy_in_more_steps(item, after[k], steps, (k + 1) as nat);
    } else {
        let item = before[place];
        let steps = 1nat;
        assert(is_copy(item, item, (steps - 1) as nat) && cloned(item, after[k]));
        assert(is_copy(item, after[k], steps));
        lemma_copy_in_more_steps(item, after[k], steps, (k + 1) as nat);
    }
}

/// Overwrites every item, the first place first, with a clone of the item
/// that stands at the place picked for it by the spoke of the same number.
/// A place picked may have been written before: then it is the item written
/// there that is cloned. Every item so comes from one of the items before,
/// by one clone or several. With fewer than two marks the samples are left
/// as they are, however many there are; else there are as many samples, and
/// as many spokes, as marks.
pub fn resample_in_place<T: Clone>(samples: &mut [T], marks: &[u64], spokes: &[u64])
    requires
        marks@.len() >= 2 ==> old(samples)@.len() == marks@.len(),
        marks@.len() >= 2 ==> spokes@.len() == marks@.len(),
    ensures
        final(samples)@.len() == old(samples)@.len(),
        marks@.len() < 2 ==> final(samples)@ == old(samples)@,
        marks@.len() >= 2 ==> forall|k: int|
            0 <= k < marks@.len() ==> cloned(
                #[trigger] origin(old(samples)@, final(samples)@, selection(marks@, spokes@), k),
                final(samples)@[k],
            ),
        marks@.len() >= 2 ==> forall|k: int|
            0 <= k < marks@.len() ==> 0 <= #[trigger] root(selection(marks@, spokes@), k)
                < marks@.len(),
        marks@.len() >= 2 ==> forall|k: int|
            0 <= k < marks@.len() ==> is_copy(
                old(samples)@[root(selection(marks@, spokes@), k)],
                #[trigger] final(samples)@[k],
                (k + 1) as nat,
            ),
{
    if marks.len() < 2 {
        return ;
    }
    let picks = select_indices(marks, spokes);
    let m: usize = marks.len();
    let mut k: usize = 0;
    while k < m
        invariant
            m == marks@.len(),
            m == spokes@.len(),
            samples@.len() == m,
            old(samples)@.len() == m,
            picks@.len() == m,
            forall|j: int| 0 <= j < m ==> picks@[j] as int == selection(marks@, spokes@)[j],
            forall|j: int| 0 <= j < m ==> picks@[j] < m,
            k <= m,
            forall|j: int| k <= j < m ==> samples@[j] == old(samples)@[j],
            forall|j: int|
                0 <= j < k ==> cloned(
                    #[trigger] origin(old(samples)@, samples@, selection(marks@, spokes@), j),
                    samples@[j],
                ),
        decreases m - k,
    {
        let ghost earlier = samples@;
        let item = samples[picks[k]].clone();
        samples[k] = item;
        proof {
            let chosen = selection(marks@, spokes@);
            assert forall|j: int| 0 <= j <= k implies cloned(
                #[trigger] origin(old(samples)@, samples@, chosen, j),
                samples@[j],
            ) by {
                assert(0 <= picks@[j] < m);
                if j < k {
                    assert(origin(old(samples)@, samples@, chosen, j) == origin(
                        old(samples)@,
                        earlier,
                        chosen,
                        j,
                    ));
                } else {
                    assert(origin(old(samples)@, samples@, chosen, j) == earlier[chosen[j]]);
                }
            }
        }
        k += 1;
    }
    proof {
        let chosen = selection(marks@, spokes@);
        lemma_selection_ascends(marks@, spokes@);
        assert forall|j: int| 0 <= j < m implies 0 <= #[trigger] root(chosen, j) < m by {
            lemma_resampled_copies_before(old(samples)@, samples@, chosen, j);
        }
        assert forall|j: int| 0 <= j < m implies is_copy(
            old(samples)@[root(chosen, j)],
            #[trigger] samples@[j],
            (j + 1) as nat,
        ) by {
            lemma_resampled_copies_before(old(samples)@, samples@, chosen, j);
        }
    }
}

/// The reading from spoke `k` on ends at the first spoke from there that is
/// not below the rim.
proof fn lemma_reach_span(marks: Seq<u64>, spokes: Seq<u64>, k: int)
    requires
        0 <= k <= spokes.len(),
    ensures
        k <= reach(marks, spokes, k) <= spokes.len(),
        forall|j: int| k <= j < reach(marks, spokes, k) ==> less(#[trigger] spokes[j], rim(marks)),
        reach(marks, spokes, k) < spokes.len() ==> !less(
            spokes[reach(marks, spokes, k)],
            rim(marks),
        ),
    decreases spokes.len() - k,
{
    if k < spokes.len() && less(spokes[k], rim(marks)) {
        lemma_reach_span(marks, spokes, k + 1);
    }
}

} // verus!
