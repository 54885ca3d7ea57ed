//! Resampling of a weighted trajectory into a signal of fixed length.
//!
//! A trajectory is a run of points, each with the number of events it
//! subtends. Laid end to end, the points fill the span `[0, span)`, point `i`
//! taking the interval that starts at its onset and is as long as its weight.
//! Resampling cuts that span into `resolution` slots of equal width and gives
//! each slot the point whose interval holds the slot's left edge. Points are
//! only ever repeated, never blended.

use vstd::prelude::*;

verus! {

/// Total weight of a trajectory.
pub open spec fn span<T>(trajectory: Seq<(T, usize)>) -> nat
    decreases trajectory.len(),
{
    if trajectory.len() == 0 {
        0
    } else {
        span(trajectory.drop_last()) + trajectory.last().1 as nat
    }
}

/// Where the interval of point `i` starts: the weight of all points before it.
pub open spec fn onset<T>(trajectory: Seq<(T, usize)>, i: int) -> nat
    recommends
        0 <= i <= trajectory.len(),
{
    span(trajectory.take(i))
}

/// Point `i` is the one held in `slot`: it is the last point whose onset,
/// on the scale where the whole span is `resolution` slots wide, is not to the
/// right of the slot's left edge.
pub open spec fn holds<T>(trajectory: Seq<(T, usize)>, resolution: nat, slot: int, i: int) -> bool {
    &&& 0 <= i < trajectory.len()
    &&& onset(trajectory, i) * resolution <= slot * span(trajectory)
    &&& i + 1 < trajectory.len() ==> onset(trajectory, i + 1) * resolution > slot * span(trajectory)
}

/// A trajectory with one more point spans the weight of that point more.
pub proof fn lemma_span_push<T>(trajectory: Seq<(T, usize)>, point: (T, usize))
    ensures
        span(trajectory.push(point)) == span(trajectory) + point.1,
{
    assert(trajectory.push(point).drop_last() =~= trajectory);
}

/// The first point starts at zero.
pub proof fn lemma_onset_first<T>(trajectory: Seq<(T, usize)>)
    ensures
        onset(trajectory, 0) == 0,
{
}

/// The onset of the point after `i` is the onset of `i` plus the weight of `i`.
pub proof fn lemma_onset_step<T>(trajectory: Seq<(T, usize)>, i: int)
    requires
        0 <= i < trajectory.len(),
    ensures
        onset(trajectory, i + 1) == onset(trajectory, i) + trajectory[i].1,
{
    assert(trajectory.take(i + 1).drop_last() =~= trajectory.take(i));
}

/// Onsets never decrease along the trajectory, and the last one plus the last
/// weight is the span.
pub proof fn lemma_onset_monotone<T>(trajectory: Seq<(T, usize)>, i: int, j: int)
    requires
        0 <= i <= j <= trajectory.len(),
    ensures
        onset(trajectory, i) <= onset(trajectory, j),
        onset(trajectory, trajectory.len() as int) == span(trajectory),
    decreases j - i,
{
    assert(trajectory.take(trajectory.len() as int) =~= trajectory);
    if i < j {
        lemma_onset_step(trajectory, j - 1);
        lemma_onset_monotone(trajectory, i, j - 1);
    }
}

/// At most one point is held in a slot.
pub proof fn lemma_holds_unique<T>(
    trajectory: Seq<(T, usize)>,
    resolution: nat,
    slot: int,
    i: int,
    j: int,
)
    requires
        holds(trajectory, resolution, slot, i),
        holds(trajectory, resolution, slot, j),
    ensures
        i == j,
{
    if i < j {
        lemma_onset_monotone(trajectory, i + 1, j);
        assert(onset(trajectory, i + 1) * resolution <= onset(trajectory, j) * resolution)
            by (nonlinear_arith)
            requires
                onset(trajectory, i + 1) <= onset(trajectory, j),
        ;
    } else if j < i {
        lemma_onset_monotone(trajectory, j + 1, i);
        assert(onset(trajectory, j + 1) * resolution <= onset(trajectory, i) * resolution)
            by (nonlinear_arith)
            requires
                onset(trajectory, j + 1) <= onset(trajectory, i),
        ;
    }
}

/// Every slot of a non-empty trajectory holds a point.
pub proof fn lemma_slot_holds_a_point<T>(
    trajectory: Seq<(T, usize)>,
    resolution: nat,
    slot: int,
) -> (i: int)
    requires
        trajectory.len() > 0,
        0 <= slot,
    ensures
        holds(trajectory, resolution, slot, i),
{
    lemma_some_point_holds(trajectory, resolution, slot, trajectory.len() - 1)
}

/// Searching downward from `from`, a point that the slot holds is found, given
/// that every point after `from` starts to the right of the slot.
proof fn lemma_some_point_holds<T>(
    trajectory: Seq<(T, usize)>,
    resolution: nat,
    slot: int,
    from: int,
) -> (i: int)
    requires
        0 <= from < trajectory.len(),
        0 <= slot,
        from + 1 < trajectory.len() ==> onset(trajectory, from + 1) * resolution > slot * span(
            trajectory,
        ),
    ensures
        holds(trajectory, resolution, slot, i),
    decreases from,
{
    if onset(trajectory, from) * resolution <= slot * span(trajectory) {
        from
    } else {
        if from == 0 {
            lemma_onset_first(trajectory);
            assert(slot * span(trajectory) >= 0) by (nonlinear_arith)
                requires
                    slot >= 0,
                    span(trajectory) >= 0,
            ;
            0
        } else {
            lemma_some_point_holds(trajectory, resolution, slot, from - 1)
        }
    }
}

/// A trajectory of a single point has that point in every slot.
pub proof fn lemma_single_point_repeats<T>(trajectory: Seq<(T, usize)>, resolution: nat, slot: int)
    requires
        trajectory.len() == 1,
        0 <= slot,
    ensures
        holds(trajectory, resolution, slot, 0),
{
    let i = lemma_slot_holds_a_point(trajectory, resolution, slot);
}

/// In a trajectory of positive span the held point covers the slot: the
/// slot's left edge lies at or after the point's onset and before the onset
/// plus the point's weight, so the point's weight is not zero.
pub proof fn lemma_held_point_covers<T>(
    trajectory: Seq<(T, usize)>,
    resolution: nat,
    slot: int,
    i: int,
)
    requires
        span(trajectory) > 0,
        0 <= slot < resolution,
        holds(trajectory, resolution, slot, i),
    ensures
        onset(trajectory, i) * resolution <= slot * span(trajectory),
        slot * span(trajectory) < (onset(trajectory, i) + trajectory[i].1) * resolution,
        trajectory[i].1 > 0,
{
    lemma_onset_step(trajectory, i);
    lemma_onset_monotone(trajectory, i + 1, trajectory.len() as int);
    let w = span(trajectory);
    assert(slot * w < w * resolution) by (nonlinear_arith)
        requires
            0 <= slot < resolution,
            w > 0,
    ;
    if trajectory[i].1 == 0 {
        assert((onset(trajectory, i) + trajectory[i].1) * resolution == onset(trajectory, i)
            * resolution);
    }
}

/// Returns the signal of `resolution` slots that represents the trajectory.
///
/// Each slot repeats the point that it holds. A resolution of zero gives the
/// empty signal. The trajectory must not be empty, and its span must fit the
/// machine's word.
pub fn interpolate<T: Copy>(trajectory: Vec<(T, usize)>, resolution: u16) -> (signal: Vec<T>)
    requires
        trajectory@.len() > 0,
        span(trajectory@) <= usize::MAX,
    ensures
        signal@.len() == resolution,
        forall|slot: int, i: int|
            0 <= slot < resolution && #[trigger] holds(trajectory@, resolution as nat, slot, i)
                ==> signal@[slot] == trajectory@[i].0,
{
    let total = total_weight(&trajectory);
    let n = trajectory.len();
    let mut signal: Vec<T> = Vec::new();
    let mut i: usize = 0;
    let mut start: usize = 0;
    let mut slot: u16 = 0;
    proof {
        lemma_onset_first(trajectory@);
        lemma_next_onset_fits(trajectory@, 0);
    }
    while slot < resolution
        invariant
            n == trajectory@.len(),
            n > 0,
            total == span(trajectory@),
            0 <= slot <= resolution,
            0 <= i < n,
            start == onset(trajectory@, i as int),
            start + trajectory@[i as int].1 <= total,
            start * resolution <= slot * total,
            signal@.len() == slot,
            forall|s: int, k: int|
                0 <= s < slot && #[trigger] holds(trajectory@, resolution as nat, s, k)
                    ==> signal@[s] == trajectory@[k].0,
        decreases resolution - slot,
    {
        while i + 1 < n && starts_by(start, trajectory[i].1, resolution, slot, total)
            invariant
                n == trajectory@.len(),
                total == span(trajectory@),
                0 <= slot < resolution,
                0 <= i < n,
                start == onset(trajectory@, i as int),
                start + trajectory@[i as int].1 <= total,
                start * resolution <= slot * total,
            decreases n - i,
        {
            proof {
                lemma_onset_step(trajectory@, i as int);
                lemma_next_onset_fits(trajectory@, i + 1);
            }
            start = start + trajectory[i].1;
            i = i + 1;
        }
        proof {
            if i + 1 < n {
                lemma_onset_step(trajectory@, i as int);
            }
            assert forall|k: int| #[trigger]
                holds(trajectory@, resolution as nat, slot as int, k) implies k == i by {
                lemma_holds_unique(trajectory@, resolution as nat, slot as int, i as int, k);
            }
            assert(start * resolution <= (slot + 1) * total) by (nonlinear_arith)
                requires
                    start * resolution <= slot * total,
                    total >= 0,
            ;
        }
        signal.push(trajectory[i].0);
        slot = slot + 1;
    }
    signal
}

/// The interval of every point ends within the span.
proof fn lemma_next_onset_fits<T>(trajectory: Seq<(T, usize)>, i: int)
    requires
        0 <= i < trajectory.len(),
    ensures
        onset(trajectory, i) + trajectory[i].1 <= span(trajectory),
{
    lemma_onset_step(trajectory, i);
    lemma_onset_monotone(trajectory, i + 1, trajectory.len() as int);
}

/// Whether the point that follows one with the given onset and weight starts
/// at or before the left edge of `slot`, on the scale where `total` is
/// `resolution` slots wide.
fn starts_by(start: usize, weight: usize, resolution: u16, slot: u16, total: usize) -> (by: bool)
    requires
        start + weight <= usize::MAX,
    ensures
        by == ((start + weight) * resolution <= slot * total),
{
    let next: u128 = start as u128 + weight as u128;
    assert(next * (resolution as u128) <= 0x1_0000_0000_0000_0000 * 0x1_0000) by (nonlinear_arith)
        requires
            next <= 0x1_0000_0000_0000_0000,
            resolution <= 0x1_0000,
    ;
    assert((slot as u128) * (total as u128) <= 0x1_0000 * 0x1_0000_0000_0000_0000)
        by (nonlinear_arith)
        requires
            slot <= 0x1_0000,
            total <= 0x1_0000_0000_0000_0000,
    ;
    next * (resolution as u128) <= (slot as u128) * (total as u128)
}

/// Adds up the weights of a trajectory, which must fit the machine's word.
pub fn total_weight<T>(trajectory: &Vec<(T, usize)>) -> (total: usize)
    requires
        span(trajectory@) <= usize::MAX,
    ensures
        total == span(trajectory@),
{
    let mut total: usize = 0;
    let mut k: usize = 0;
    proof {
        lemma_onset_first(trajectory@);
    }
    while k < trajectory.len()
        invariant
            0 <= k <= trajectory@.len(),
            total == onset(trajectory@, k as int),
            span(trajectory@) <= usize::MAX,
        decreases trajectory@.len() - k,
    {
        proof {
            lemma_onset_step(trajectory@, k as int);
            lemma_next_onset_fits(trajectory@, k as int);
        }
        total = total + trajectory[k].1;
        k = k + 1;
    }
    proof {
        lemma_onset_monotone(trajectory@, 0, trajectory@.len() as int);
    }
    total
}

} // verus!
