use predict::loader::slides;

#[test]
fn loader_test() {
    let samples: Vec<u32> = (0..10).collect();
    let mut windows = slides(&samples, 4, 2);
    let mut seen: Vec<Vec<u32>> = Vec::new();
    while let Some(window) = windows.next() {
        seen.push(window.to_vec());
    }
    assert_eq!(
        seen,
        vec![vec![0, 1, 2, 3], vec![2, 3, 4, 5], vec![4, 5, 6, 7], vec![6, 7, 8, 9]]
    );
    assert!(windows.next().is_none());
}

#[test]
fn slides_wider_than_the_samples_give_nothing() {
    let samples = vec![1u8, 2, 3];
    let mut windows = slides(&samples, 4, 1);
    assert!(windows.next().is_none());
}

#[test]
fn slides_without_overlap_drop_the_remainder() {
    let samples: Vec<u8> = (0..7).collect();
    let mut windows = slides(&samples, 3, 3);
    assert_eq!(windows.next().unwrap(), &[0, 1, 2]);
    assert_eq!(windows.next().unwrap(), &[3, 4, 5]);
    assert!(windows.next().is_none());
}
