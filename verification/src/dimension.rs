//! One level of the hierarchy: its memories, its counters, and the step that
//! takes one event in.
//!
//! A dimension keeps the symbolic side of a level. Where the categories lie
//! in feature space is the caller's business: for every event the caller
//! says which of the known categories the event falls into, and is told
//! which category was chosen, how often that category has now been seen, and,
//! where a segment ended, the trajectory of that segment resampled to the
//! level's resolution.

use crate::abstraction::{holds, interpolate, lemma_span_push, span, total_weight};
use crate::categorization::{categorize, is_category_of};
use crate::concept_symbol::{decimal, generate_label, Label, Symbol};
use crate::markov_model::{BigramModel, UnigramModel};
use crate::segmentation::segment;
use vstd::multiset::Multiset;
use vstd::prelude::*;

verus! {

/// The labels of a run of symbols.
pub open spec fn labels(symbols: Seq<Symbol>) -> Seq<Label> {
    symbols.map_values(|symbol: Symbol| symbol.label)
}

/// The path of a run of symbols: the category of each with the number of
/// events it subtends.
pub open spec fn trajectory(symbols: Seq<Symbol>) -> Seq<(Label, usize)> {
    symbols.map_values(|symbol: Symbol| (symbol.label, symbol.length))
}

/// The number of events that a run of symbols subtends.
pub open spec fn subtends(symbols: Seq<Symbol>) -> nat {
    span(trajectory(symbols))
}

/// The pairs of neighbouring labels in a run of labels, the first label being
/// paired with the label of the start symbol.
pub open spec fn transitions(run: Seq<Label>) -> Seq<(Label, Label)> {
    Seq::new(
        run.len(),
        |i: int|
            (if i == 0 {
                0
            } else {
                run[i - 1]
            }, run[i]),
    )
}

/// The symbol that stands before the first event.
pub open spec fn is_start(symbol: Symbol) -> bool {
    &&& symbol.label == 0
    &&& symbol.content@ == "start"@
    &&& symbol.length == 0
}

/// Records the most recent symbol and the unfinished segment.
pub struct MemoryHead {
    /// Previous symbol, to compare with the current symbol
    pub previous: Symbol,
    /// Current unfinished sequence that gets chopped during segmentation
    pub ongoing: Vec<Symbol>,
}

impl MemoryHead {
    /// Returns the memory head with the start symbol and an empty segment.
    pub fn new() -> (head: MemoryHead)
        ensures
            is_start(head.previous),
            head.ongoing@.len() == 0,
    {
        MemoryHead {
            previous: Symbol { label: 0, content: String::from_str("start"), length: 0 },
            ongoing: Vec::new(),
        }
    }
}

/// What an episodic memory holds.
pub struct EpisodicView {
    /// Every symbol seen, in the order in which they came.
    pub sequence: Seq<Symbol>,
    /// The most recent symbol.
    pub previous: Symbol,
    /// The symbols of the segment that is still open.
    pub ongoing: Seq<Symbol>,
}

/// Records the previously seen symbols of a dimension.
pub struct EpisodicMemory {
    /// A list of symbols in the order in which they were seen
    sequence: Vec<Symbol>,
    /// The most recent symbol and the unfinished segment
    head: MemoryHead,
}

impl View for EpisodicMemory {
    type V = EpisodicView;

    closed spec fn view(&self) -> EpisodicView {
        EpisodicView {
            sequence: self.sequence@,
            previous: self.head.previous,
            ongoing: self.head.ongoing@,
        }
    }
}

impl EpisodicMemory {
    /// Returns an empty episodic memory.
    pub fn new() -> (memory: EpisodicMemory)
        ensures
            memory@.sequence.len() == 0,
            memory@.ongoing.len() == 0,
            is_start(memory@.previous),
    {
        EpisodicMemory { sequence: Vec::new(), head: MemoryHead::new() }
    }

    /// Appends the given symbol to the memory and to the open segment, and
    /// makes it the most recent symbol.
    pub fn update(&mut self, symbol: Symbol)
        ensures
            final(self)@.sequence == old(self)@.sequence.push(symbol),
            final(self)@.ongoing == old(self)@.ongoing.push(symbol),
            final(self)@.previous == symbol,
    {
        self.sequence.push(symbol.clone());
        self.head.ongoing.push(symbol.clone());
        self.head.previous = symbol;
    }

    /// Appends the given symbol to the memory, closes the open segment and
    /// opens the next one with the symbol.
    pub fn open_segment(&mut self, symbol: Symbol)
        ensures
            final(self)@.sequence == old(self)@.sequence.push(symbol),
            final(self)@.ongoing == seq![symbol],
            final(self)@.previous == symbol,
    {
        self.sequence.push(symbol.clone());
        self.head.ongoing.clear();
        self.head.ongoing.push(symbol.clone());
        self.head.previous = symbol;
    }

    /// The symbols seen so far, oldest first.
    pub fn sequence(&self) -> (sequence: &Vec<Symbol>)
        ensures
            sequence@ == self@.sequence,
    {
        &self.sequence
    }

    /// The most recent symbol, or the start symbol.
    pub fn previous(&self) -> (previous: &Symbol)
        ensures
            *previous == self@.previous,
    {
        &self.head.previous
    }

    /// The symbols of the open segment, oldest first.
    pub fn ongoing(&self) -> (ongoing: &Vec<Symbol>)
        ensures
            ongoing@ == self@.ongoing,
    {
        &self.head.ongoing
    }
}

/// The categories of a dimension: their labels, in the order of their
/// founding.
pub struct SemanticMemory {
    /// Labels of the categories
    space: Vec<Label>,
}

impl View for SemanticMemory {
    type V = Seq<Label>;

    closed spec fn view(&self) -> Seq<Label> {
        self.space@
    }
}

impl SemanticMemory {
    /// Returns an empty semantic memory.
    pub fn new() -> (memory: SemanticMemory)
        ensures
            memory@.len() == 0,
    {
        SemanticMemory { space: Vec::new() }
    }

    /// Whether a category of the given label exists.
    pub fn contains(&self, category: &Label) -> (found: bool)
        ensures
            found == self@.contains(*category),
    {
        let mut i: usize = 0;
        while i < self.space.len()
            invariant
                0 <= i <= self.space@.len(),
                forall|j: int| 0 <= j < i ==> self.space@[j] != *category,
            decreases self.space@.len() - i,
        {
            if self.space[i] == *category {
                return true;
            }
            i = i + 1;
        }
        false
    }

    /// Founds the category of the given label unless it exists, and says
    /// whether it was founded.
    pub fn update(&mut self, category: &Label) -> (founded: bool)
        ensures
            founded == !old(self)@.contains(*category),
            final(self)@ == (if founded {
                old(self)@.push(*category)
            } else {
                old(self)@
            }),
    {
        if self.contains(category) {
            false
        } else {
            self.space.push(*category);
            true
        }
    }

    /// The labels of the categories, in the order of their founding.
    pub fn labels(&self) -> (labels: &Vec<Label>)
        ensures
            labels@ == self@,
    {
        &self.space
    }
}

/// What a dimension holds.
pub struct DimensionView {
    /// Level of abstraction
    pub level: u16,
    /// Number of slots into which the trajectory of a segment is resampled
    pub resolution: u16,
    /// Memory of previously seen symbols
    pub episodic: EpisodicView,
    /// Labels of the categories, in the order of their founding
    pub semantic: Seq<Label>,
    /// Every label counted, as often as it was seen
    pub unigram: Multiset<Label>,
    /// Every pair of a label and the label seen before it
    pub bigram: Multiset<(Label, Label)>,
}

/// What holds of every dimension between two events.
pub open spec fn consistent(d: DimensionView) -> bool {
    // no category exists twice, and the start symbol's label names none
    &&& d.semantic.no_duplicates()
    &&& !d.semantic.contains(0)
    // the categories are the labels that have been counted
    &&& forall|label: Label| #[trigger] d.semantic.contains(label) <==> d.unigram.count(label) > 0
    &&& d.semantic.len() <= d.episodic.sequence.len() <= usize::MAX
    // the counters count what the episodic memory holds
    &&& d.unigram == labels(d.episodic.sequence).to_multiset()
    &&& d.bigram == transitions(labels(d.episodic.sequence)).to_multiset()
    // the head is the end of the sequence
    &&& d.episodic.ongoing.len() <= d.episodic.sequence.len()
    &&& d.episodic.ongoing == d.episodic.sequence.subrange(
        d.episodic.sequence.len() - d.episodic.ongoing.len(),
        d.episodic.sequence.len() as int,
    )
    &&& if d.episodic.sequence.len() == 0 {
        is_start(d.episodic.previous)
    } else {
        d.episodic.ongoing.len() > 0 && d.episodic.previous == d.episodic.sequence.last()
    }
    // the open segment can be measured
    &&& subtends(d.episodic.ongoing) <= usize::MAX
}

/// A dimension of the given level and resolution that has taken no event in.
pub open spec fn is_blank(d: DimensionView, level: u16, resolution: u16) -> bool {
    &&& d.level == level
    &&& d.resolution == resolution
    &&& d.episodic.sequence.len() == 0
    &&& d.episodic.ongoing.len() == 0
    &&& is_start(d.episodic.previous)
    &&& d.semantic.len() == 0
    &&& d.unigram == Multiset::<Label>::empty()
    &&& d.bigram == Multiset::<(Label, Label)>::empty()
}

/// The label of every symbol that a dimension remembers is the label of one
/// of its categories.
pub proof fn lemma_every_symbol_has_its_category(d: DimensionView, i: int)
    requires
        consistent(d),
        0 <= i < d.episodic.sequence.len(),
    ensures
        d.semantic.contains(d.episodic.sequence[i].label),
{
    broadcast use vstd::seq_lib::group_to_multiset_ensures;

    let run = labels(d.episodic.sequence);
    assert(run[i] == d.episodic.sequence[i].label);
}

/// Every event that a dimension remembers has been counted once in each of
/// its counters.
pub proof fn lemma_every_event_is_counted(d: DimensionView)
    requires
        consistent(d),
    ensures
        d.unigram.len() == d.episodic.sequence.len(),
        d.bigram.len() == d.episodic.sequence.len(),
{
    broadcast use vstd::seq_lib::group_to_multiset_ensures;

}

/// A label that no category carries, and that is not the start symbol's.
pub open spec fn is_unused(counts: Multiset<Label>, label: Label) -> bool {
    label != 0 && counts.count(label) == 0
}

/// How far `label` lies from `seed`, counting upward from `seed` and going
/// on from the largest label to zero.
pub open spec fn distance_from(seed: Label, label: Label) -> int {
    if label >= seed {
        label - seed
    } else {
        label + (usize::MAX - seed) + 1
    }
}

/// `label` is the first unused label at or after `seed`.
pub open spec fn is_first_unused(counts: Multiset<Label>, seed: Label, label: Label) -> bool {
    &&& is_unused(counts, label)
    &&& forall|other: Label| #[trigger]
        distance_from(seed, other) < distance_from(seed, label) ==> !is_unused(counts, other)
}

/// The first unused label at or after `seed`.
pub open spec fn first_unused(counts: Multiset<Label>, seed: Label) -> Label {
    choose|label: Label| is_first_unused(counts, seed, label)
}

/// Only one label is the first unused label at or after a seed.
pub proof fn lemma_first_unused_is_unique(
    counts: Multiset<Label>,
    seed: Label,
    a: Label,
    b: Label,
)
    requires
        is_first_unused(counts, seed, a),
        is_first_unused(counts, seed, b),
    ensures
        a == b,
{
    if distance_from(seed, a) < distance_from(seed, b) {
        assert(!is_unused(counts, a));
    } else if distance_from(seed, b) < distance_from(seed, a) {
        assert(!is_unused(counts, b));
    }
}

/// A seed that is itself unused is the label that is taken.
pub proof fn lemma_unused_seed_is_taken(counts: Multiset<Label>, seed: Label)
    requires
        is_unused(counts, seed),
    ensures
        first_unused(counts, seed) == seed,
{
    assert(is_first_unused(counts, seed, seed));
    lemma_first_unused_is_unique(counts, seed, seed, first_unused(counts, seed));
}

/// A run with one more label holds that label and what it held before.
proof fn lemma_push_contains(run: Seq<Label>, label: Label, other: Label)
    ensures
        run.push(label).contains(other) <==> (run.contains(other) || other == label),
{
    if run.contains(other) {
        let i = choose|i: int| 0 <= i < run.len() && run[i] == other;
        assert(run.push(label)[i] == other);
    }
    if other == label {
        assert(run.push(label)[run.len() as int] == other);
    }
}

/// A run of symbols with one more symbol has that symbol's label and path
/// point at its end.
proof fn lemma_push_symbol(symbols: Seq<Symbol>, symbol: Symbol)
    ensures
        labels(symbols.push(symbol)) == labels(symbols).push(symbol.label),
        trajectory(symbols.push(symbol)) == trajectory(symbols).push((symbol.label, symbol.length)),
{
    assert(trajectory(symbols.push(symbol)) =~= trajectory(symbols).push(
        (symbol.label, symbol.length),
    ));
}

/// A run of labels with one more label has one more transition: from the
/// label that was last, or from the start symbol's, to the new one.
proof fn lemma_push_transition(run: Seq<Label>, label: Label)
    ensures
        transitions(run.push(label)) == transitions(run).push(
            (if run.len() == 0 {
                0
            } else {
                run.last()
            }, label),
        ),
{
    assert(transitions(run.push(label)) =~= transitions(run).push(
        (if run.len() == 0 {
            0
        } else {
            run.last()
        }, label),
    ));
}

/// The trajectory of a segment that has ended, resampled.
pub struct Segment {
    /// For each slot of the level's resolution, the category whose centroid
    /// the slot repeats
    pub signal: Vec<Label>,
    /// Number of events that the segment subtends
    pub length: usize,
}

/// What a dimension makes of one event.
pub struct Percept {
    /// The category to which the event was assigned
    pub category: Label,
    /// How often the category has been seen, this event included
    pub count: usize,
    /// The segment that this event ended, if it ended one
    pub segment: Option<Segment>,
}

/// `signal` is the trajectory of the symbols in `ongoing`, resampled to
/// `resolution` slots, and `length` is the number of events they subtend.
pub open spec fn abstracts(ongoing: Seq<Symbol>, resolution: u16, segment: Segment) -> bool {
    &&& segment.length == subtends(ongoing)
    &&& segment.signal@.len() == resolution
    &&& forall|slot: int, i: int|
        0 <= slot < resolution && #[trigger] holds(trajectory(ongoing), resolution as nat, slot, i)
            ==> segment.signal@[slot] == ongoing[i].label
}

/// The step of a dimension.
///
/// An event of the given length, which falls into the categories
/// `candidates` and would carry `label` as a category of its own, takes the
/// dimension from `pre` to `post` with the result `percept`.
pub open spec fn perceives(
    pre: DimensionView,
    post: DimensionView,
    label: Label,
    candidates: Seq<Label>,
    length: usize,
    percept: Percept,
) -> bool {
    let category = percept.category;
    let previous = pre.episodic.previous.label;
    let symbol = post.episodic.previous;
    &&& post.level == pre.level
    &&& post.resolution == pre.resolution
    // the event is assigned to the rarest candidate, or founds a category
    &&& is_category_of(label, candidates, pre.unigram, category)
    &&& post.semantic == (if pre.semantic.contains(category) {
        pre.semantic
    } else {
        pre.semantic.push(category)
    })
    // the category and the step from the previous category are counted
    &&& post.unigram == pre.unigram.insert(category)
    &&& post.bigram == pre.bigram.insert((previous, category))
    &&& percept.count == post.unigram.count(category)
    // the symbol of the event carries the category, and is remembered
    &&& symbol.label == category
    &&& symbol.content@ == decimal(label as nat)
    &&& symbol.length == length
    &&& post.episodic.sequence == pre.episodic.sequence.push(symbol)
    // moving into a rarer category ends the open segment; the symbol opens
    // the next one
    &&& if post.unigram.count(previous) > post.unigram.count(category) {
        &&& post.episodic.ongoing == seq![symbol]
        &&& percept.segment is Some
        &&& abstracts(pre.episodic.ongoing, pre.resolution, percept.segment->0)
    } else {
        &&& post.episodic.ongoing == pre.episodic.ongoing.push(symbol)
        &&& percept.segment is None
    }
}

/// A segment that ends is never empty: before the first event nothing has
/// been counted, so the first event cannot move into a rarer category.
pub proof fn lemma_segment_is_not_empty(
    pre: DimensionView,
    post: DimensionView,
    label: Label,
    candidates: Seq<Label>,
    length: usize,
    percept: Percept,
)
    requires
        consistent(pre),
        perceives(pre, post, label, candidates, length, percept),
        percept.segment is Some,
    ensures
        pre.episodic.ongoing.len() > 0,
{
}

/// Whether an event ends a segment is decided by the counts before the
/// event: it does where the category it is assigned to is another than the
/// previous one and, this event included, still rarer.
pub proof fn lemma_boundary_rule(
    pre: DimensionView,
    post: DimensionView,
    label: Label,
    candidates: Seq<Label>,
    length: usize,
    percept: Percept,
)
    requires
        perceives(pre, post, label, candidates, length, percept),
    ensures
        percept.segment is Some <==> percept.category != pre.episodic.previous.label
            && pre.unigram.count(pre.episodic.previous.label) > pre.unigram.count(percept.category)
            + 1,
{
}

/// An event that stays in the category of the event before it ends no
/// segment, nor does the first event of a dimension.
pub proof fn lemma_staying_is_no_boundary(
    pre: DimensionView,
    post: DimensionView,
    label: Label,
    candidates: Seq<Label>,
    length: usize,
    percept: Percept,
)
    requires
        consistent(pre),
        perceives(pre, post, label, candidates, length, percept),
        percept.category == pre.episodic.previous.label || pre.episodic.sequence.len() == 0,
    ensures
        percept.segment is None,
        post.episodic.ongoing == pre.episodic.ongoing.push(post.episodic.previous),
{
    if percept.segment is Some {
        lemma_boundary_rule(pre, post, label, candidates, length, percept);
        lemma_segment_is_not_empty(pre, post, label, candidates, length, percept);
    }
}

/// An event that founds a category is assigned to a label that no category
/// carried before, and the category has then been seen once.
pub proof fn lemma_no_candidate_founds_a_new_category(
    pre: DimensionView,
    post: DimensionView,
    label: Label,
    length: usize,
    percept: Percept,
)
    requires
        consistent(pre),
        is_unused(pre.unigram, label),
        perceives(pre, post, label, Seq::empty(), length, percept),
    ensures
        percept.category == label,
        !pre.semantic.contains(percept.category),
        post.semantic == pre.semantic.push(percept.category),
        percept.count == 1,
{
}

/// The dimension at a given level of abstraction: the two memories and the
/// statistics of the labels.
pub struct Dimension {
    /// Level of abstraction
    level: u16,
    /// Number of real and virtual concepts in a given trajectory
    resolution: u16,
    /// Memory of previously seen symbols
    episodic: EpisodicMemory,
    /// Space of concepts
    semantic: SemanticMemory,
    /// Counts the number of times a label is seen
    unigram: UnigramModel<Label>,
    /// Counts the number of times pairs of labels are seen
    bigram: BigramModel<Label>,
}

impl View for Dimension {
    type V = DimensionView;

    closed spec fn view(&self) -> DimensionView {
        DimensionView {
            level: self.level,
            resolution: self.resolution,
            episodic: self.episodic@,
            semantic: self.semantic@,
            unigram: self.unigram@,
            bigram: self.bigram@,
        }
    }
}

impl Dimension {
    /// The counters are sound and the parts of the dimension agree.
    pub closed spec fn wf(&self) -> bool {
        &&& self.unigram.wf()
        &&& self.bigram.wf()
        &&& consistent(self@)
    }

    /// A dimension in use is consistent.
    pub proof fn lemma_wf_is_consistent(&self)
        requires
            self.wf(),
        ensures
            consistent(self@),
    {
    }

    /// Returns a dimension with empty memories and markov models.
    pub fn new(level: u16, resolution: u16) -> (dimension: Dimension)
        ensures
            dimension.wf(),
            is_blank(dimension@, level, resolution),
    {
        let dimension = Dimension {
            level,
            resolution,
            episodic: EpisodicMemory::new(),
            semantic: SemanticMemory::new(),
            unigram: UnigramModel::new(),
            bigram: BigramModel::new(),
        };
        proof {
            let d = dimension@;
            assert(labels(d.episodic.sequence).to_multiset() =~= Multiset::empty()) by {
                labels(d.episodic.sequence).to_multiset_ensures();
            }
            assert(transitions(labels(d.episodic.sequence)).to_multiset() =~= Multiset::empty())
                by {
                transitions(labels(d.episodic.sequence)).to_multiset_ensures();
            }
            assert(d.episodic.ongoing =~= d.episodic.sequence.subrange(0, 0));
        }
        dimension
    }

    /// Level of abstraction.
    pub fn level(&self) -> (level: u16)
        ensures
            level == self@.level,
    {
        self.level
    }

    /// Number of slots into which the trajectory of a segment is resampled.
    pub fn resolution(&self) -> (resolution: u16)
        ensures
            resolution == self@.resolution,
    {
        self.resolution
    }

    /// Memory of previously seen symbols.
    pub fn episodic(&self) -> (episodic: &EpisodicMemory)
        ensures
            episodic@ == self@.episodic,
    {
        &self.episodic
    }

    /// The categories.
    pub fn semantic(&self) -> (semantic: &SemanticMemory)
        ensures
            semantic@ == self@.semantic,
    {
        &self.semantic
    }

    /// Counts of the labels.
    pub fn unigram(&self) -> (unigram: &UnigramModel<Label>)
        ensures
            unigram@ == self@.unigram,
            self.wf() ==> unigram.wf(),
    {
        &self.unigram
    }

    /// Counts of the pairs of labels.
    pub fn bigram(&self) -> (bigram: &BigramModel<Label>)
        ensures
            bigram@ == self@.bigram,
            self.wf() ==> bigram.wf(),
    {
        &self.bigram
    }

    /// Returns the pairs of category and length of the symbols in the open
    /// segment.
    pub fn current_trajectory(&self) -> (path: Vec<(Label, usize)>)
        ensures
            path@ == trajectory(self@.episodic.ongoing),
    {
        let ongoing = self.episodic.ongoing();
        let mut path: Vec<(Label, usize)> = Vec::new();
        let mut i: usize = 0;
        while i < ongoing.len()
            invariant
                0 <= i <= ongoing@.len(),
                path@ == trajectory(ongoing@.take(i as int)),
            decreases ongoing@.len() - i,
        {
            path.push((ongoing[i].label, ongoing[i].length));
            assert(trajectory(ongoing@.take(i + 1)) =~= trajectory(ongoing@.take(i as int)).push(
                (ongoing@[i as int].label, ongoing@[i as int].length),
            ));
            i = i + 1;
        }
        path
    }

    /// Returns the number of events that the open segment subtends.
    pub fn subtended(&self) -> (length: usize)
        requires
            self.wf(),
        ensures
            length == subtends(self@.episodic.ongoing),
    {
        let path = self.current_trajectory();
        total_weight(&path)
    }

    /// Returns the first label at or after `seed` that no category carries
    /// and that is not the start symbol's.
    fn fresh_label(&self, seed: Label) -> (label: Label)
        requires
            self.wf(),
            self@.episodic.sequence.len() < usize::MAX,
        ensures
            label == first_unused(self@.unigram, seed),
            is_first_unused(self@.unigram, seed, label),
    {
        let ghost counts = self@.unigram;
        let ghost used = self@.semantic.to_set().insert(0);
        let ghost mut probed: Set<Label> = Set::empty();
        let mut label = seed;
        proof {
            self@.semantic.lemma_cardinality_of_set();
        }
        while label == 0 || self.unigram.count(&label) > 0
            invariant
                self.wf(),
                counts == self@.unigram,
                used == self@.semantic.to_set().insert(0),
                used.finite(),
                used.len() <= usize::MAX,
                probed.finite(),
                probed.subset_of(used),
                probed.len() == distance_from(seed, label),
                forall|other: Label|
                    probed.contains(other) <==> distance_from(seed, other) < distance_from(
                        seed,
                        label,
                    ),
            decreases used.len() - probed.len(),
        {
            proof {
                vstd::set_lib::lemma_len_subset(probed.insert(label), used);
                probed = probed.insert(label);
            }
            label = if label == usize::MAX {
                0
            } else {
                label + 1
            };
        }
        proof {
            assert forall|other: Label| #[trigger]
                distance_from(seed, other) < distance_from(seed, label) implies !is_unused(
                counts,
                other,
            ) by {
                assert(used.contains(other));
            }
            assert(is_first_unused(counts, seed, label));
            lemma_first_unused_is_unique(counts, seed, label, first_unused(counts, seed));
        }
        label
    }

    /// Takes in one event whose label as a category of its own would be the
    /// first unused label at or after `seed`.
    ///
    /// The event is assigned to the rarest of `candidates`, the categories
    /// into which it falls, or founds a category. The category and the step
    /// from the previous category are counted. If the event moves into a
    /// category rarer than the one before, the open segment ends: its
    /// trajectory is resampled and handed back, and the event's symbol opens
    /// the next segment. Otherwise the symbol joins the open segment.
    pub fn perceive_with(
        &mut self,
        seed: Label,
        candidates: &Vec<Label>,
        length: usize,
    ) -> (percept: Percept)
        requires
            old(self).wf(),
            forall|i: int|
                0 <= i < candidates@.len() ==> old(self)@.semantic.contains(
                    #[trigger] candidates@[i],
                ),
            old(self)@.episodic.sequence.len() < usize::MAX,
            subtends(old(self)@.episodic.ongoing) + length <= usize::MAX,
        ensures
            final(self).wf(),
            subtends(final(self)@.episodic.ongoing) == (if percept.segment is Some {
                length as int
            } else {
                subtends(old(self)@.episodic.ongoing) + length
            }),
            is_first_unused(old(self)@.unigram, seed, first_unused(old(self)@.unigram, seed)),
            perceives(
                old(self)@,
                final(self)@,
                first_unused(old(self)@.unigram, seed),
                candidates@,
                length,
                percept,
            ),
    {
        broadcast use vstd::seq_lib::group_to_multiset_ensures;

        let ghost pre = self@;
        let label = self.fresh_label(seed);
        let category = categorize(label, candidates, &self.unigram);
        let mut symbol = Symbol::new(label, length);
        symbol.label = category;
        let previous = self.episodic.previous().label;
        proof {
            lemma_push_symbol(pre.episodic.sequence, symbol);
            lemma_push_symbol(pre.episodic.ongoing, symbol);
            lemma_push_transition(labels(pre.episodic.sequence), category);
            lemma_span_push(trajectory(pre.episodic.ongoing), (category, length));
        }
        self.unigram.increment(&category);
        self.bigram.increment(&previous, &category);
        let count = self.unigram.count(&category);
        self.semantic.update(&category);
        let ghost counted = self@;
        proof {
            assert forall|other: Label| #[trigger]
                counted.semantic.contains(other) <==> counted.unigram.count(other) > 0 by {
                lemma_push_contains(pre.semantic, category, other);
            }
        }
        if segment(&self.unigram, &previous, &category) {
            let path = self.current_trajectory();
            let subtended = total_weight(&path);
            let signal = interpolate(path, self.resolution);
            self.episodic.open_segment(symbol);
            proof {
                let post = self@;
                assert(post.semantic == counted.semantic && post.unigram == counted.unigram);
                assert(post.episodic.ongoing =~= post.episodic.sequence.subrange(
                    post.episodic.sequence.len() - 1,
                    post.episodic.sequence.len() as int,
                ));
                assert(trajectory(post.episodic.ongoing) =~= Seq::<(Label, usize)>::empty().push(
                    (category, symbol.length),
                ));
                lemma_span_push(Seq::<(Label, usize)>::empty(), (category, symbol.length));
            }
            Percept { category, count, segment: Some(Segment { signal, length: subtended }) }
        } else {
            self.episodic.update(symbol);
            proof {
                let post = self@;
                assert(post.semantic == counted.semantic && post.unigram == counted.unigram);
                assert(post.episodic.ongoing =~= post.episodic.sequence.subrange(
                    post.episodic.sequence.len() - post.episodic.ongoing.len(),
                    post.episodic.sequence.len() as int,
                ));
            }
            Percept { category, count, segment: None }
        }
    }

    /// Takes in one event, under a label drawn at random.
    ///
    /// Does what `perceive_with` does, with a seed that the caller does not
    /// choose: the label that the event carries as a category of its own is
    /// some label that is not in use.
    pub fn perceive(&mut self, candidates: &Vec<Label>, length: usize) -> (percept: Percept)
        requires
            old(self).wf(),
            forall|i: int|
                0 <= i < candidates@.len() ==> old(self)@.semantic.contains(
                    #[trigger] candidates@[i],
                ),
            old(self)@.episodic.sequence.len() < usize::MAX,
            subtends(old(self)@.episodic.ongoing) + length <= usize::MAX,
        ensures
            final(self).wf(),
            subtends(final(self)@.episodic.ongoing) == (if percept.segment is Some {
                length as int
            } else {
                subtends(old(self)@.episodic.ongoing) + length
            }),
            exists|label: Label|
                is_unused(old(self)@.unigram, label) && #[trigger] perceives(
                    old(self)@,
                    final(self)@,
                    label,
                    candidates@,
                    length,
                    percept,
                ),
    {
        let seed = generate_label();
        let percept = self.perceive_with(seed, candidates, length);
        proof {
            let label = first_unused(old(self)@.unigram, seed);
            assert(is_unused(old(self)@.unigram, label) && perceives(
                old(self)@,
                self@,
                label,
                candidates@,
                length,
                percept,
            ));
        }
        percept
    }
}

} // verus!
