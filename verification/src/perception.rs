//! The chain of dimensions, and the order in which they take events in.
//!
//! Every input is an event of length one for the lowest level. Where a level
//! ends a segment, the segment is the next event of the level above, as long
//! as the segment's length; where it ends none, or where it is the highest
//! level, the input has been dealt with and the lowest level takes the next
//! input. The hierarchy keeps track of which level is due and of the length
//! of its event. Turning a resampled trajectory into the point that the level
//! above sees is the caller's work, done between two steps.

use crate::abstraction::{lemma_span_push, span};
use crate::concept_symbol::{generate_label, Label, Symbol};
use crate::dimension::{
    consistent, first_unused, is_blank, is_first_unused, is_unused, lemma_segment_is_not_empty,
    lemma_staying_is_no_boundary, perceives, subtends, trajectory, Dimension, DimensionView,
    Percept,
};
use vstd::prelude::*;

verus! {

/// What a hierarchy holds.
pub struct HierarchyView {
    /// The levels, lowest first
    pub dimensions: Seq<DimensionView>,
    /// The level that takes the next event, and the length of that event
    pub awaiting: (usize, usize),
}

/// The length of the event that level `k` is about to take, if it is due.
pub open spec fn due(h: HierarchyView, k: int) -> nat {
    if h.awaiting.0 == k {
        h.awaiting.1 as nat
    } else {
        0
    }
}

/// The events of level `k` are the closed segments of the level below: with
/// the event that level `k` is about to take, and the segment still open
/// below, its symbols subtend what the symbols of the level below subtend.
pub open spec fn hands_up(h: HierarchyView, k: int) -> bool {
    let above = h.dimensions[k];
    let below = h.dimensions[k - 1];
    subtends(above.episodic.sequence) + due(h, k) + subtends(below.episodic.ongoing) == subtends(
        below.episodic.sequence,
    )
}

/// What holds of every hierarchy between two steps.
pub open spec fn balanced(h: HierarchyView) -> bool {
    // each level is consistent and knows its place
    &&& forall|k: int|
        0 <= k < h.dimensions.len() ==> consistent(#[trigger] h.dimensions[k])
            && h.dimensions[k].level == k
    // every symbol stands for at least one event, at the lowest level for one
    &&& forall|k: int, i: int|
        0 <= k < h.dimensions.len() && 0 <= i < h.dimensions[k].episodic.sequence.len()
            ==> (#[trigger] h.dimensions[k].episodic.sequence[i]).length >= 1
    &&& forall|i: int|
        0 < h.dimensions.len() && 0 <= i < h.dimensions[0].episodic.sequence.len()
            ==> (#[trigger] h.dimensions[0].episodic.sequence[i]).length == 1
    // the closed segments of a level are the events of the level above
    &&& forall|k: int| 1 <= k < h.dimensions.len() ==> #[trigger] hands_up(h, k)
    // a level is due, with an event that is not empty
    &&& h.awaiting.1 >= 1
    &&& h.awaiting.0 == 0 ==> h.awaiting.1 == 1
    &&& h.dimensions.len() > 0 ==> h.awaiting.0 < h.dimensions.len()
}

/// The level that is due after a level has taken an event: the level above
/// where a segment has ended and there is a level above, else the lowest.
pub open spec fn next_due(h: HierarchyView, percept: Percept) -> (usize, usize) {
    if percept.segment is Some && h.awaiting.0 + 1 < h.dimensions.len() {
        ((h.awaiting.0 + 1) as usize, percept.segment->0.length)
    } else {
        (0, 1)
    }
}

/// One step of a hierarchy: the level that is due takes its event, the other
/// levels stay as they are, and the next level becomes due.
pub open spec fn steps(
    pre: HierarchyView,
    post: HierarchyView,
    label: Label,
    candidates: Seq<Label>,
    percept: Percept,
) -> bool {
    let level = pre.awaiting.0 as int;
    &&& post.dimensions.len() == pre.dimensions.len()
    &&& forall|k: int|
        0 <= k < pre.dimensions.len() && k != level ==> #[trigger] post.dimensions[k]
            == pre.dimensions[k]
    &&& perceives(
        pre.dimensions[level],
        post.dimensions[level],
        label,
        candidates,
        pre.awaiting.1,
        percept,
    )
    &&& post.awaiting == next_due(pre, percept)
}

/// Symbols that stand for at least one event each subtend at least as many
/// events as there are symbols, and exactly as many if each stands for one.
proof fn lemma_subtends_at_least_one_each(symbols: Seq<Symbol>)
    requires
        forall|i: int| 0 <= i < symbols.len() ==> (#[trigger] symbols[i]).length >= 1,
    ensures
        subtends(symbols) >= symbols.len(),
        (forall|i: int| 0 <= i < symbols.len() ==> (#[trigger] symbols[i]).length == 1)
            ==> subtends(symbols) == symbols.len(),
    decreases symbols.len(),
{
    if symbols.len() > 0 {
        let front = symbols.drop_last();
        lemma_subtends_at_least_one_each(front);
        assert(trajectory(symbols).drop_last() =~= trajectory(front));
    }
}

/// The end of a run of points spans no more than the whole run.
proof fn lemma_tail_spans_less(path: Seq<(Label, usize)>, from: int)
    requires
        0 <= from <= path.len(),
    ensures
        span(path.subrange(from, path.len() as int)) <= span(path),
    decreases path.len(),
{
    if from < path.len() {
        let front = path.drop_last();
        lemma_tail_spans_less(front, from);
        assert(path.subrange(from, path.len() as int).drop_last() =~= front.subrange(
            from,
            front.len() as int,
        ));
    }
}

/// The open segment of a level subtends no more than all its symbols.
proof fn lemma_open_is_part_of_logged(d: DimensionView)
    requires
        consistent(d),
    ensures
        subtends(d.episodic.ongoing) <= subtends(d.episodic.sequence),
{
    let sequence = d.episodic.sequence;
    let from = sequence.len() - d.episodic.ongoing.len();
    lemma_tail_spans_less(trajectory(sequence), from);
    assert(trajectory(d.episodic.ongoing) =~= trajectory(sequence).subrange(
        from,
        sequence.len() as int,
    ));
}

/// No level, with the event it is about to take, subtends more than the
/// lowest level does with its own.
pub proof fn lemma_levels_subtend_less(h: HierarchyView, k: int)
    requires
        balanced(h),
        0 <= k < h.dimensions.len(),
    ensures
        subtends(h.dimensions[k].episodic.sequence) + due(h, k) <= subtends(
            h.dimensions[0].episodic.sequence,
        ) + due(h, 0),
    decreases k,
{
    if k > 0 {
        assert(hands_up(h, k));
        lemma_levels_subtend_less(h, k - 1);
    }
}

/// The level that is due can take its event: its memory has room for one
/// more symbol, and its open segment can grow by the event's length.
proof fn lemma_due_level_has_room(h: HierarchyView)
    requires
        balanced(h),
        h.dimensions.len() > 0,
        h.awaiting.0 == 0 ==> h.dimensions[0].episodic.sequence.len() < usize::MAX,
    ensures
        h.dimensions[h.awaiting.0 as int].episodic.sequence.len() < usize::MAX,
        subtends(h.dimensions[h.awaiting.0 as int].episodic.ongoing) + h.awaiting.1 <= usize::MAX,
{
    let level = h.awaiting.0 as int;
    lemma_levels_subtend_less(h, level);
    lemma_open_is_part_of_logged(h.dimensions[level]);
    lemma_subtends_at_least_one_each(h.dimensions[level].episodic.sequence);
    lemma_subtends_at_least_one_each(h.dimensions[0].episodic.sequence);
}

/// While the inputs stay in one category of the lowest level, no level above
/// it takes anything in: the input is dealt with, the levels above are as
/// they were, and the lowest level is due again.
pub proof fn lemma_staying_leaves_upper_levels(
    pre: HierarchyView,
    post: HierarchyView,
    label: Label,
    candidates: Seq<Label>,
    percept: Percept,
)
    requires
        balanced(pre),
        pre.dimensions.len() > 0,
        pre.awaiting.0 == 0,
        steps(pre, post, label, candidates, percept),
        percept.category == pre.dimensions[0].episodic.previous.label
            || pre.dimensions[0].episodic.sequence.len() == 0,
    ensures
        percept.segment is None,
        post.awaiting == (0usize, 1usize),
        forall|k: int| 1 <= k < pre.dimensions.len() ==> post.dimensions[k] == pre.dimensions[k],
{
    lemma_staying_is_no_boundary(
        pre.dimensions[0],
        post.dimensions[0],
        label,
        candidates,
        pre.awaiting.1,
        percept,
    );
}

/// A step keeps a hierarchy balanced.
proof fn lemma_step_keeps_balance(
    pre: HierarchyView,
    post: HierarchyView,
    label: Label,
    candidates: Seq<Label>,
    percept: Percept,
)
    requires
        balanced(pre),
        pre.dimensions.len() > 0,
        steps(pre, post, label, candidates, percept),
        consistent(post.dimensions[pre.awaiting.0 as int]),
    ensures
        balanced(post),
{
    let level = pre.awaiting.0 as int;
    let length = pre.awaiting.1;
    let before = pre.dimensions[level];
    let after = post.dimensions[level];
    let symbol = after.episodic.previous;
    let point = (symbol.label, symbol.length);
    assert(trajectory(after.episodic.sequence) =~= trajectory(before.episodic.sequence).push(
        point,
    ));
    lemma_span_push(trajectory(before.episodic.sequence), point);
    if percept.segment is Some {
        // the closed segment becomes an event: it must not be empty
        assert(trajectory(after.episodic.ongoing) =~= Seq::<(Label, usize)>::empty().push(point));
        lemma_span_push(Seq::<(Label, usize)>::empty(), point);
        lemma_segment_is_not_empty(before, after, label, candidates, length, percept);
        lemma_subtends_at_least_one_each(before.episodic.ongoing);
    } else {
        assert(trajectory(after.episodic.ongoing) =~= trajectory(before.episodic.ongoing).push(
            point,
        ));
        lemma_span_push(trajectory(before.episodic.ongoing), point);
    }
    assert forall|k: int| 1 <= k < post.dimensions.len() implies #[trigger] hands_up(post, k) by {
        assert(hands_up(pre, k));
    }
}

/// A chain of dimensions, each taking the segments of the one below as its
/// events.
pub struct Hierarchy {
    /// The levels, lowest first
    dimensions: Vec<Dimension>,
    /// The level that takes the next event, and the length of that event
    awaiting: (usize, usize),
}

impl View for Hierarchy {
    type V = HierarchyView;

    closed spec fn view(&self) -> HierarchyView {
        HierarchyView {
            dimensions: self.dimensions@.map_values(|d: Dimension| d@),
            awaiting: self.awaiting,
        }
    }
}

impl Hierarchy {
    /// The levels are sound and the hierarchy is balanced.
    pub closed spec fn wf(&self) -> bool {
        &&& forall|k: int| 0 <= k < self.dimensions@.len() ==> (#[trigger] self.dimensions@[k]).wf()
        &&& balanced(self@)
    }

    /// A hierarchy in use is balanced.
    pub proof fn lemma_wf_is_balanced(&self)
        requires
            self.wf(),
        ensures
            balanced(self@),
    {
    }

    /// Returns a hierarchy of `depth` empty levels of the given resolution,
    /// the lowest of which is due.
    pub fn new(depth: u16, resolution: u16) -> (hierarchy: Hierarchy)
        ensures
            hierarchy.wf(),
            hierarchy@.dimensions.len() == depth,
            hierarchy@.awaiting == (0usize, 1usize),
            forall|k: int|
                0 <= k < depth ==> is_blank(
                    #[trigger] hierarchy@.dimensions[k],
                    k as u16,
                    resolution,
                ),
    {
        let mut dimensions: Vec<Dimension> = Vec::new();
        let mut level: u16 = 0;
        while level < depth
            invariant
                0 <= level <= depth,
                dimensions@.len() == level,
                forall|k: int|
                    0 <= k < level ==> (#[trigger] dimensions@[k]).wf() && is_blank(
                        dimensions@[k]@,
                        k as u16,
                        resolution,
                    ),
            decreases depth - level,
        {
            dimensions.push(Dimension::new(level, resolution));
            level = level + 1;
        }
        let hierarchy = Hierarchy { dimensions, awaiting: (0, 1) };
        proof {
            let h = hierarchy@;
            assert forall|k: int| 0 <= k < h.dimensions.len() implies consistent(
                #[trigger] h.dimensions[k],
            ) by {
                hierarchy.dimensions@[k].lemma_wf_is_consistent();
            }
        }
        hierarchy
    }

    /// The levels, lowest first.
    pub fn dimensions(&self) -> (dimensions: &Vec<Dimension>)
        ensures
            dimensions@.len() == self@.dimensions.len(),
            forall|k: int|
                0 <= k < dimensions@.len() ==> (#[trigger] dimensions@[k])@ == self@.dimensions[k],
            self.wf() ==> forall|k: int|
                0 <= k < dimensions@.len() ==> (#[trigger] dimensions@[k]).wf(),
    {
        &self.dimensions
    }

    /// Gives up the hierarchy for its levels, lowest first.
    pub fn into_dimensions(self) -> (dimensions: Vec<Dimension>)
        ensures
            dimensions@.len() == self@.dimensions.len(),
            forall|k: int|
                0 <= k < dimensions@.len() ==> (#[trigger] dimensions@[k])@ == self@.dimensions[k],
            self.wf() ==> forall|k: int|
                0 <= k < dimensions@.len() ==> (#[trigger] dimensions@[k]).wf(),
    {
        self.dimensions
    }

    /// The level that takes the next event, and the length of that event.
    pub fn awaiting(&self) -> (awaiting: (usize, usize))
        ensures
            awaiting == self@.awaiting,
    {
        self.awaiting
    }

    /// Lets the level that is due take its event in, under the first unused
    /// label at or after `seed`, and makes the next level due.
    ///
    /// `candidates` are the categories of that level into which the event
    /// falls. The lowest level must have room for the symbol of a new input.
    pub fn perceive_with(&mut self, seed: Label, candidates: &Vec<Label>) -> (percept: Percept)
        requires
            old(self).wf(),
            old(self)@.dimensions.len() > 0,
            forall|i: int|
                0 <= i < candidates@.len() ==> old(self)@.dimensions[old(
                    self,
                )@.awaiting.0 as int].semantic.contains(#[trigger] candidates@[i]),
            old(self)@.awaiting.0 == 0 ==> old(self)@.dimensions[0].episodic.sequence.len()
                < usize::MAX,
        ensures
            final(self).wf(),
            is_first_unused(
                old(self)@.dimensions[old(self)@.awaiting.0 as int].unigram,
                seed,
                first_unused(old(self)@.dimensions[old(self)@.awaiting.0 as int].unigram, seed),
            ),
            steps(
                old(self)@,
                final(self)@,
                first_unused(old(self)@.dimensions[old(self)@.awaiting.0 as int].unigram, seed),
                candidates@,
                percept,
            ),
    {
        let ghost pre = self@;
        let (level, length) = self.awaiting;
        proof {
            lemma_due_level_has_room(pre);
        }
        let percept = self.dimensions[level].perceive_with(seed, candidates, length);
        self.awaiting = match &percept.segment {
            Some(segment) => if level + 1 < self.dimensions.len() {
                (level + 1, segment.length)
            } else {
                (0, 1)
            },
            None => (0, 1),
        };
        proof {
            let post = self@;
            let label = first_unused(pre.dimensions[level as int].unigram, seed);
            self.dimensions@[level as int].lemma_wf_is_consistent();
            lemma_step_keeps_balance(pre, post, label, candidates@, percept);
        }
        percept
    }

    /// Lets the level that is due take its event in, under a label drawn at
    /// random, and makes the next level due.
    ///
    /// Does what `perceive_with` does, with a seed that the caller does not
    /// choose.
    pub fn perceive(&mut self, candidates: &Vec<Label>) -> (percept: Percept)
        requires
            old(self).wf(),
            old(self)@.dimensions.len() > 0,
            forall|i: int|
                0 <= i < candidates@.len() ==> old(self)@.dimensions[old(
                    self,
                )@.awaiting.0 as int].semantic.contains(#[trigger] candidates@[i]),
            old(self)@.awaiting.0 == 0 ==> old(self)@.dimensions[0].episodic.sequence.len()
                < usize::MAX,
        ensures
            final(self).wf(),
            exists|label: Label|
                is_unused(old(self)@.dimensions[old(self)@.awaiting.0 as int].unigram, label)
                    && #[trigger] steps(old(self)@, final(self)@, label, candidates@, percept),
    {
        let seed = generate_label();
        let percept = self.perceive_with(seed, candidates);
        proof {
            let counts = old(self)@.dimensions[old(self)@.awaiting.0 as int].unigram;
            let label = first_unused(counts, seed);
            assert(is_unused(counts, label) && steps(
                old(self)@,
                self@,
                label,
                candidates@,
                percept,
            ));
        }
        percept
    }
}

} // verus!
