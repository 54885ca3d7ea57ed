//! Assignment of an observation to a category.
//!
//! Which categories an observation falls into is a matter of geometry and is
//! decided by the caller. Here the choice among those candidates is made: the
//! rarest one wins, and an observation without candidates founds a category
//! of its own.

use crate::concept_symbol::Label;
use crate::markov_model::UnigramModel;
use vstd::multiset::Multiset;
use vstd::prelude::*;

verus! {

/// Category `a` is to be preferred to `b`: it has been seen less often, or
/// as often and has the smaller label.
pub open spec fn preferred(counts: Multiset<Label>, a: Label, b: Label) -> bool {
    counts.count(a) < counts.count(b) || (counts.count(a) == counts.count(b) && a <= b)
}

/// `category` is the candidate that is preferred to all candidates.
pub open spec fn is_rarest(
    candidates: Seq<Label>,
    counts: Multiset<Label>,
    category: Label,
) -> bool {
    &&& candidates.contains(category)
    &&& forall|i: int|
        0 <= i < candidates.len() ==> preferred(counts, category, #[trigger] candidates[i])
}

/// The category that `categorize` returns for the given candidates.
pub open spec fn is_category_of(
    label: Label,
    candidates: Seq<Label>,
    counts: Multiset<Label>,
    category: Label,
) -> bool {
    if candidates.len() == 0 {
        category == label
    } else {
        is_rarest(candidates, counts, category)
    }
}

/// The choice is deterministic: candidates and counts leave one category.
pub proof fn lemma_rarest_is_unique(
    candidates: Seq<Label>,
    counts: Multiset<Label>,
    a: Label,
    b: Label,
)
    requires
        is_rarest(candidates, counts, a),
        is_rarest(candidates, counts, b),
    ensures
        a == b,
{
    let i = choose|i: int| 0 <= i < candidates.len() && candidates[i] == a;
    let j = choose|j: int| 0 <= j < candidates.len() && candidates[j] == b;
}

/// An observation that falls into one category only is assigned to it.
pub proof fn lemma_sole_candidate_is_chosen(
    label: Label,
    candidate: Label,
    counts: Multiset<Label>,
    category: Label,
)
    requires
        is_category_of(label, seq![candidate], counts, category),
    ensures
        category == candidate,
{
    let i = choose|i: int| 0 <= i < seq![candidate].len() && seq![candidate][i] == category;
}

/// An observation that falls into no category is assigned to its own label.
pub proof fn lemma_no_candidate_founds_category(
    label: Label,
    counts: Multiset<Label>,
    category: Label,
)
    requires
        is_category_of(label, Seq::empty(), counts, category),
    ensures
        category == label,
{
}

/// Returns the label of the category to which an observation belongs.
///
/// `candidates` are the categories whose region holds the observation, and
/// `label` is the label that the observation would carry as a category of its
/// own. Among the candidates the one seen least often is chosen, that is the
/// one with the highest information content; of several seen equally often
/// the one with the smallest label. Without candidates the result is `label`.
pub fn categorize(
    label: Label,
    candidates: &Vec<Label>,
    unigram: &UnigramModel<Label>,
) -> (category: Label)
    requires
        unigram.wf(),
    ensures
        is_category_of(label, candidates@, unigram@, category),
{
    if candidates.len() == 0 {
        return label;
    }
    let mut best: Label = candidates[0];
    let mut least: usize = unigram.count(&best);
    let mut i: usize = 1;
    while i < candidates.len()
        invariant
            unigram.wf(),
            1 <= i <= candidates@.len(),
            least == unigram@.count(best),
            exists|j: int| 0 <= j < i && candidates@[j] == best,
            forall|j: int| 0 <= j < i ==> preferred(unigram@, best, #[trigger] candidates@[j]),
        decreases candidates@.len() - i,
    {
        let candidate = candidates[i];
        let count = unigram.count(&candidate);
        if count < least || (count == least && candidate < best) {
            best = candidate;
            least = count;
        }
        i = i + 1;
    }
    best
}

} // verus!
