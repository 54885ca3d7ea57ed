use predict::markov_model::UnigramModel;
use predict::segmentation::segment;

fn counted(keys: &[usize]) -> UnigramModel<usize> {
    let mut unigram = UnigramModel::new();
    for key in keys {
        unigram.increment(key);
    }
    unigram
}

#[test]
fn segmentation_test() {
    let unigram = counted(&[1, 1, 1, 2]);
    // from the frequent into the rare: a boundary
    assert!(segment(&unigram, &1, &2));
    // from the rare into the frequent: none
    assert!(!segment(&unigram, &2, &1));
}

#[test]
fn segment_never_splits_a_category() {
    let unigram = counted(&[1, 1, 1, 2]);
    assert!(!segment(&unigram, &1, &1));
    assert!(!segment(&unigram, &2, &2));
    assert!(!segment(&unigram, &3, &3));
}

#[test]
fn segment_needs_a_strictly_rarer_category() {
    let unigram = counted(&[1, 2, 1, 2]);
    assert!(!segment(&unigram, &1, &2));
    assert!(!segment(&unigram, &2, &1));
    // a label never seen counts as zero
    assert!(segment(&unigram, &1, &3));
    assert!(!segment(&unigram, &3, &1));
    assert!(!segment(&unigram, &3, &4));
}
