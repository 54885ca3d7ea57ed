use predict::markov_model::{BigramModel, UnigramModel};

#[test]
fn markov_model_test() {
    let mut unigram: UnigramModel<usize> = UnigramModel::new();
    assert_eq!(unigram.total(), 0);
    assert_eq!(unigram.count(&7), 0);
    unigram.increment(&7);
    unigram.increment(&9);
    unigram.increment(&7);
    assert_eq!(unigram.count(&7), 2);
    assert_eq!(unigram.count(&9), 1);
    assert_eq!(unigram.count(&8), 0);
    assert_eq!(unigram.total(), 3);
}

#[test]
fn unigram_total_is_number_of_increments() {
    let mut unigram: UnigramModel<u8> = UnigramModel::new();
    for n in 0..100usize {
        assert_eq!(unigram.total(), n);
        unigram.increment(&((n % 7) as u8));
    }
    assert_eq!(unigram.total(), 100);
    let sum: usize = (0..7u8).map(|key| unigram.count(&key)).sum();
    assert_eq!(sum, 100);
    assert_eq!(unigram.count(&0), 15);
    assert_eq!(unigram.count(&6), 14);
}

#[test]
fn bigram_total_is_number_of_increments() {
    let mut bigram: BigramModel<u8> = BigramModel::new();
    for n in 0..60usize {
        assert_eq!(bigram.total(), n);
        bigram.increment(&((n % 3) as u8), &((n % 5) as u8));
    }
    assert_eq!(bigram.total(), 60);
}

#[test]
fn bigram_counts_pairs_by_their_first_key() {
    let mut bigram: BigramModel<char> = BigramModel::new();
    assert_eq!(bigram.count(&'a'), 0);
    bigram.increment(&'a', &'b');
    bigram.increment(&'a', &'c');
    bigram.increment(&'b', &'a');
    bigram.increment(&'a', &'b');
    assert_eq!(bigram.count(&'a'), 3);
    assert_eq!(bigram.count(&'b'), 1);
    assert_eq!(bigram.count(&'c'), 0);
    assert_eq!(bigram.total(), 4);
}

#[test]
fn models_count_keys_of_any_hashable_kind() {
    let mut unigram: UnigramModel<(u8, bool)> = UnigramModel::new();
    unigram.increment(&(1, true));
    unigram.increment(&(1, false));
    unigram.increment(&(1, true));
    assert_eq!(unigram.count(&(1, true)), 2);
    assert_eq!(unigram.count(&(1, false)), 1);
    assert_eq!(unigram.count(&(2, true)), 0);
    assert_eq!(unigram.total(), 3);
}

#[test]
fn bigram_counts_sum_to_the_total() {
    let mut bigram: BigramModel<usize> = BigramModel::new();
    let keys = [3usize, 1, 4, 1, 5, 9, 2, 6, 5, 3, 5];
    for pair in keys.windows(2) {
        bigram.increment(&pair[0], &pair[1]);
    }
    assert_eq!(bigram.total(), 10);
    let sum: usize = (0..10usize).map(|key| bigram.count(&key)).sum();
    assert_eq!(sum, 10);
    assert_eq!(bigram.count(&5), 2);
    assert_eq!(bigram.count(&1), 2);
    assert_eq!(bigram.count(&3), 2);
}
