use workload_model::rng::{mix, Stream};

#[test]
fn same_label_same_sequence() {
    assert_eq!(Stream::new(1, 2).take_u64(8), Stream::new(1, 2).take_u64(8));
}

#[test]
fn adjacent_labels_decorrelate() {
    // Sibling child indices and consecutive session ids are adjacent labels;
    // if they correlated, trunk shape would show artefacts.
    let a = Stream::new(1, 1000).take_u64(4);
    let b = Stream::new(1, 1001).take_u64(4);
    assert!(a.iter().zip(&b).all(|(x, y)| x != y));
}

#[test]
fn different_seeds_differ() {
    assert_ne!(Stream::new(1, 5).take_u64(4), Stream::new(2, 5).take_u64(4));
}

#[test]
fn split_streams_are_independent() {
    let s = Stream::new(9, 9);
    assert_ne!(s.split(0).take_u64(4), s.split(1).take_u64(4));
}

#[test]
fn uniform_is_in_range_and_unbiased_enough() {
    let mut s = Stream::new(3, 3);
    let mut counts = [0u32; 8];
    for _ in 0..80_000 {
        let v = s.next_below(8);
        assert!(v < 8);
        counts[v as usize] += 1;
    }
    // 10k expected per bucket; a broken generator fails this by miles.
    for c in counts {
        assert!((8_000..12_000).contains(&c), "skewed: {counts:?}");
    }
}

#[test]
fn the_finaliser_fixes_zero() {
    assert_eq!(mix(0), 0);
    assert_ne!(mix(1), 1);
}

#[test]
fn take_is_the_same_draws_as_stepping() {
    let mut s = Stream::new(11, 12);
    let stepped: Vec<u64> = (0..6).map(|_| s.next_u64()).collect();
    assert_eq!(Stream::new(11, 12).take_u64(6), stepped);
}

#[test]
fn a_draw_below_one_is_always_zero() {
    let mut s = Stream::new(5, 6);
    for _ in 0..100 {
        assert_eq!(s.next_below(1), 0);
    }
}

#[test]
fn splitting_leaves_the_parent_untouched() {
    let s = Stream::new(9, 9);
    let before = s.clone().take_u64(3);
    let _child = s.split(4);
    assert_eq!(s.take_u64(3), before);
}
