//! The rule that decides where one segment ends and the next begins.

use crate::concept_symbol::Label;
use crate::markov_model::UnigramModel;
use vstd::prelude::*;

verus! {

/// Determines whether to segment at the current position.
///
/// A boundary falls exactly where the stream moves into a category that has
/// been seen less often than the one it leaves. Comparing the counts is the
/// same as comparing the information content `-log2(count / total)` the other
/// way round. Staying in one category is never a boundary.
pub fn segment(unigram: &UnigramModel<Label>, previous: &Label, current: &Label) -> (boundary: bool)
    requires
        unigram.wf(),
    ensures
        boundary == (unigram@.count(*previous) > unigram@.count(*current)),
        *previous == *current ==> !boundary,
{
    unigram.count(previous) > unigram.count(current)
}

} // verus!
