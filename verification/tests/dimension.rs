use predict::concept_symbol::Symbol;
use predict::dimension::{Dimension, EpisodicMemory, MemoryHead, SemanticMemory};

fn labels_of(symbols: &[Symbol]) -> Vec<usize> {
    symbols.iter().map(|symbol| symbol.label).collect()
}

#[test]
fn dimension_test() {
    let mut dimension = Dimension::new(0, 4);
    assert_eq!(dimension.level(), 0);
    assert_eq!(dimension.resolution(), 4);

    // the first event falls into no category and founds one
    let percept = dimension.perceive_with(100, &vec![], 1);
    assert_eq!(percept.category, 100);
    assert_eq!(percept.count, 1);
    assert!(percept.segment.is_none());

    // four more events fall into it
    for seen in 2..=5 {
        let percept = dimension.perceive_with(7, &vec![100], 1);
        assert_eq!(percept.category, 100);
        assert_eq!(percept.count, seen);
        assert!(percept.segment.is_none());
    }
    assert_eq!(dimension.subtended(), 5);
    assert_eq!(dimension.current_trajectory(), vec![(100, 1); 5]);

    // the sixth founds a rarer category: the segment of five ends
    let percept = dimension.perceive_with(100, &vec![], 1);
    assert_eq!(percept.category, 101);
    assert_eq!(percept.count, 1);
    let segment = percept.segment.expect("a boundary");
    assert_eq!(segment.signal, vec![100, 100, 100, 100]);
    assert_eq!(segment.length, 5);

    // the symbol that crossed the boundary opens the next segment
    let episodic = dimension.episodic();
    assert_eq!(labels_of(episodic.sequence()), vec![100, 100, 100, 100, 100, 101]);
    assert_eq!(labels_of(episodic.ongoing()), vec![101]);
    assert_eq!(episodic.previous().label, 101);
    assert_eq!(episodic.previous().content, "101");
    assert_eq!(dimension.semantic().labels(), &vec![100, 101]);
    assert_eq!(dimension.unigram().count(&100), 5);
    assert_eq!(dimension.unigram().count(&101), 1);
    assert_eq!(dimension.unigram().total(), 6);
    assert_eq!(dimension.bigram().count(&0), 1);
    assert_eq!(dimension.bigram().count(&100), 5);
    assert_eq!(dimension.bigram().count(&101), 0);
    assert_eq!(dimension.bigram().total(), 6);
}

#[test]
fn new_dimension_is_empty() {
    let dimension = Dimension::new(3, 64);
    assert_eq!(dimension.level(), 3);
    assert_eq!(dimension.resolution(), 64);
    assert!(dimension.episodic().sequence().is_empty());
    assert!(dimension.episodic().ongoing().is_empty());
    assert_eq!(dimension.episodic().previous().label, 0);
    assert_eq!(dimension.episodic().previous().content, "start");
    assert_eq!(dimension.episodic().previous().length, 0);
    assert!(dimension.semantic().labels().is_empty());
    assert_eq!(dimension.unigram().total(), 0);
    assert_eq!(dimension.bigram().total(), 0);
    assert_eq!(dimension.subtended(), 0);
    assert!(dimension.current_trajectory().is_empty());
}

#[test]
fn symbol_shows_the_label_it_was_made_under() {
    let mut dimension = Dimension::new(0, 2);
    dimension.perceive_with(40, &vec![], 3);
    dimension.perceive_with(41, &vec![40], 2);
    let sequence = dimension.episodic().sequence();
    assert_eq!(sequence[0].label, 40);
    assert_eq!(sequence[0].content, "40");
    assert_eq!(sequence[0].length, 3);
    // relabelled to its category, the symbol keeps the text of its own label
    assert_eq!(sequence[1].label, 40);
    assert_eq!(sequence[1].content, "41");
    assert_eq!(sequence[1].length, 2);
    assert_eq!(dimension.subtended(), 5);
}

#[test]
fn new_labels_avoid_the_start_symbol_and_known_categories() {
    let mut dimension = Dimension::new(0, 2);
    // zero is the label of the start symbol
    assert_eq!(dimension.perceive_with(0, &vec![], 1).category, 1);
    assert_eq!(dimension.perceive_with(1, &vec![], 1).category, 2);
    assert_eq!(dimension.perceive_with(1, &vec![], 1).category, 3);
    assert_eq!(dimension.perceive_with(0, &vec![], 1).category, 4);
    // the search goes on from the largest label to the smallest
    assert_eq!(dimension.perceive_with(usize::MAX, &vec![], 1).category, usize::MAX);
    assert_eq!(dimension.perceive_with(usize::MAX, &vec![], 1).category, 5);
    assert_eq!(dimension.semantic().labels(), &vec![1, 2, 3, 4, usize::MAX, 5]);
}

#[test]
fn perceive_draws_a_label_that_is_not_in_use() {
    let mut dimension = Dimension::new(0, 2);
    let mut founded: Vec<usize> = Vec::new();
    for _ in 0..50 {
        let percept = dimension.perceive(&vec![], 1);
        assert_ne!(percept.category, 0);
        assert!(!founded.contains(&percept.category));
        assert_eq!(percept.count, 1);
        founded.push(percept.category);
    }
    assert_eq!(dimension.semantic().labels(), &founded);
    assert_eq!(dimension.unigram().total(), 50);
}

#[test]
fn the_rarest_candidate_is_chosen_and_counted() {
    let mut dimension = Dimension::new(0, 2);
    dimension.perceive_with(10, &vec![], 1);
    dimension.perceive_with(10, &vec![10], 1);
    dimension.perceive_with(20, &vec![], 1);
    // 10 has been seen twice, 20 once
    let percept = dimension.perceive_with(30, &vec![10, 20], 1);
    assert_eq!(percept.category, 20);
    assert_eq!(percept.count, 2);
    // now both have been seen twice: the smaller label wins
    let percept = dimension.perceive_with(30, &vec![20, 10], 1);
    assert_eq!(percept.category, 10);
    assert_eq!(percept.count, 3);
}

#[test]
fn segment_is_the_resampled_trajectory() {
    let mut dimension = Dimension::new(1, 4);
    // three events of one category, of 6 events in all, then one of another
    dimension.perceive_with(10, &vec![], 1);
    dimension.perceive_with(10, &vec![10], 2);
    dimension.perceive_with(20, &vec![], 3);
    // the third moved into a rarer category: the first two are a segment
    assert_eq!(labels_of(dimension.episodic().ongoing()), vec![20]);
    dimension.perceive_with(20, &vec![20], 1);
    dimension.perceive_with(20, &vec![20], 4);
    assert_eq!(dimension.current_trajectory(), vec![(20, 3), (20, 1), (20, 4)]);
    dimension.perceive_with(10, &vec![10], 2);
    // 10 has now been seen three times, as often as 20: no boundary
    assert_eq!(dimension.subtended(), 10);
    let percept = dimension.perceive_with(30, &vec![], 7);
    let segment = percept.segment.expect("a boundary");
    // span 10 in 4 slots: edges at 0, 2.5, 5, 7.5; onsets at 0, 3, 4, 8
    assert_eq!(segment.signal, vec![20, 20, 20, 20]);
    assert_eq!(segment.length, 10);
    assert_eq!(dimension.subtended(), 7);
}

#[test]
fn segment_mixes_the_categories_of_its_symbols() {
    let mut dimension = Dimension::new(0, 4);
    dimension.perceive_with(10, &vec![], 1);
    dimension.perceive_with(10, &vec![10], 1);
    dimension.perceive_with(10, &vec![10], 1);
    dimension.perceive_with(20, &vec![], 1);
    dimension.perceive_with(20, &vec![20], 1);
    dimension.perceive_with(10, &vec![10], 1);
    dimension.perceive_with(10, &vec![10], 1);
    // open segment: 20, 20, 10, 10; the next event founds a category
    let percept = dimension.perceive_with(30, &vec![], 1);
    let segment = percept.segment.expect("a boundary");
    assert_eq!(segment.signal, vec![20, 20, 10, 10]);
    assert_eq!(segment.length, 4);
}

#[test]
fn episodic_memory_appends_and_opens_segments() {
    let mut memory = EpisodicMemory::new();
    assert_eq!(memory.previous().content, "start");
    memory.update(Symbol::new(5, 1));
    memory.update(Symbol::new(6, 2));
    assert_eq!(labels_of(memory.sequence()), vec![5, 6]);
    assert_eq!(labels_of(memory.ongoing()), vec![5, 6]);
    assert_eq!(memory.previous().label, 6);
    memory.open_segment(Symbol::new(7, 1));
    assert_eq!(labels_of(memory.sequence()), vec![5, 6, 7]);
    assert_eq!(labels_of(memory.ongoing()), vec![7]);
    assert_eq!(memory.previous().label, 7);
}

#[test]
fn memory_head_starts_with_the_start_symbol() {
    let head = MemoryHead::new();
    assert_eq!(head.previous.label, 0);
    assert_eq!(head.previous.content, "start");
    assert_eq!(head.previous.length, 0);
    assert!(head.ongoing.is_empty());
}

#[test]
fn semantic_memory_founds_each_category_once() {
    let mut memory = SemanticMemory::new();
    assert!(!memory.contains(&3));
    assert!(memory.update(&3));
    assert!(memory.update(&1));
    assert!(!memory.update(&3));
    assert!(memory.contains(&3));
    assert!(memory.contains(&1));
    assert!(!memory.contains(&2));
    assert_eq!(memory.labels(), &vec![3, 1]);
}
