use predict::abstraction::{interpolate, total_weight};

#[test]
fn abstraction_test() {
    // one event of the first point and three of the second, in four slots
    let signal = interpolate(vec![(7u8, 1usize), (9u8, 3usize)], 4);
    assert_eq!(signal, vec![7, 9, 9, 9]);
}

#[test]
fn interpolate_has_resolution_many_slots() {
    for resolution in [1u16, 2, 3, 4, 8, 64, 1000] {
        let signal = interpolate(vec![('a', 2usize), ('b', 5), ('c', 1)], resolution);
        assert_eq!(signal.len(), resolution as usize);
    }
}

#[test]
fn interpolate_repeats_a_single_point() {
    assert_eq!(interpolate(vec![(42u32, 3usize)], 4), vec![42, 42, 42, 42]);
    assert_eq!(interpolate(vec![(42u32, 1usize)], 1), vec![42]);
    // even a point without weight is held
    assert_eq!(interpolate(vec![(42u32, 0usize)], 3), vec![42, 42, 42]);
}

#[test]
fn interpolate_to_no_slots_is_empty() {
    assert_eq!(interpolate(vec![(1u8, 1usize), (2u8, 1usize)], 0), Vec::<u8>::new());
}

#[test]
fn interpolate_stretches_equal_weights() {
    let signal = interpolate(vec![('a', 1usize), ('b', 1usize)], 4);
    assert_eq!(signal, vec!['a', 'a', 'b', 'b']);
    let signal = interpolate(vec![('a', 5usize), ('b', 5usize)], 6);
    assert_eq!(signal, vec!['a', 'a', 'a', 'b', 'b', 'b']);
}

#[test]
fn interpolate_thins_out_long_trajectories() {
    let path = vec![('a', 1usize), ('b', 1), ('c', 1), ('d', 1)];
    // the left edges of the two slots lie at 0 and at 2
    assert_eq!(interpolate(path, 2), vec!['a', 'c']);
    let path = vec![('a', 1usize), ('b', 1), ('c', 1)];
    // the left edges lie at 0 and at 1.5
    assert_eq!(interpolate(path, 2), vec!['a', 'b']);
}

#[test]
fn interpolate_skips_points_without_weight() {
    let path = vec![('a', 2usize), ('b', 0), ('c', 2)];
    assert_eq!(interpolate(path, 4), vec!['a', 'a', 'c', 'c']);
    let path = vec![('a', 0usize), ('b', 3), ('c', 0)];
    assert_eq!(interpolate(path, 3), vec!['b', 'b', 'b']);
}

#[test]
fn interpolate_follows_the_weights() {
    // span 8 in 4 slots: edges at 0, 2, 4, 6; onsets at 0, 1, 6
    let path = vec![(10u64, 1usize), (20, 5), (30, 2)];
    assert_eq!(interpolate(path, 4), vec![10, 20, 20, 30]);
}

#[test]
fn total_weight_adds_up() {
    assert_eq!(total_weight(&vec![('a', 2usize), ('b', 5), ('c', 1)]), 8);
    assert_eq!(total_weight(&Vec::<(char, usize)>::new()), 0);
}

#[test]
fn interpolate_takes_weights_up_to_the_largest() {
    let path = vec![('a', usize::MAX - 1), ('b', 1usize)];
    // the last event begins after the left edge of even the last slot
    let signal = interpolate(path, u16::MAX);
    assert_eq!(signal.len(), u16::MAX as usize);
    assert!(signal.iter().all(|point| *point == 'a'));
    let path = vec![('a', 1usize), ('b', usize::MAX - 1)];
    let signal = interpolate(path, 4);
    assert_eq!(signal, vec!['a', 'b', 'b', 'b']);
}

#[test]
fn interpolate_gives_each_slot_the_point_that_covers_it() {
    // weights from a small generator, so that the cases are many and fixed
    let mut state: u64 = 0x2545_f491_4f6c_dd1d;
    let mut draw = |bound: u64| {
        state ^= state << 13;
        state ^= state >> 7;
        state ^= state << 17;
        state % bound
    };
    for _ in 0..200 {
        let points = 1 + draw(12) as usize;
        let path: Vec<(usize, usize)> =
            (0..points).map(|index| (index, draw(6) as usize)).collect();
        let resolution = draw(40) as u16;
        let span: u128 = path.iter().map(|(_, weight)| *weight as u128).sum();
        let signal = interpolate(path.clone(), resolution);
        assert_eq!(signal.len(), resolution as usize);
        if span == 0 {
            continue;
        }
        for (slot, index) in signal.iter().enumerate() {
            let onset: u128 = path[..*index].iter().map(|(_, weight)| *weight as u128).sum();
            let edge = slot as u128 * span;
            assert!(onset * resolution as u128 <= edge);
            assert!(edge < (onset + path[*index].1 as u128) * resolution as u128);
        }
    }
}
