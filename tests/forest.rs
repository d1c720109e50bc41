use qwt::perf_and_test_utils::gen_sequence;
use wtforest::{TinyWT, WTForest};

#[test]
fn test_build_forest() {
    let s = gen_sequence(200000, 255);
    let forest = WTForest::<1024>::new(&mut s.clone()).unwrap();

    for (i, &s) in s.iter().enumerate() {
        assert_eq!(Some(s), forest.get(i));
    }
}

#[test]
fn block_boundary_delegation() {
    let s: Vec<u8> = (0..130usize).map(|i| ((i * 7 + 3) % 200) as u8).collect();
    let f = WTForest::<64>::new(&mut s.clone()).unwrap();
    assert_eq!(f.get(64), Some(s[64]));
    assert_eq!(f.get(63), Some(s[63]));
    assert_eq!(f.get(128), Some(s[128]));
    assert_eq!(f.get(129), Some(s[129]));
    assert_eq!(f.get_unchecked(129), s[129]);
    assert_eq!(f.get(130), None);
    for (i, &x) in s.iter().enumerate() {
        assert_eq!(f.get(i), Some(x));
    }
}

#[test]
fn forest_exact_multiple_of_block() {
    let s: Vec<u8> = (0..256usize).map(|i| (i % 17) as u8).collect();
    let f = WTForest::<64>::new(&mut s.clone()).unwrap();
    for (i, &x) in s.iter().enumerate() {
        assert_eq!(f.get_unchecked(i), x);
    }
    assert_eq!(f.get(256), None);
}

#[test]
fn forest_of_empty_sequence() {
    let mut buf: Vec<u8> = Vec::new();
    let f = WTForest::<64>::new(&mut buf).unwrap();
    assert_eq!(f.get(0), None);
    assert_eq!(f.space_usage_byte(), 8);
}

#[test]
fn forest_partitions_each_block_in_place() {
    // blocks [9, 3, 5, 1], [8, 2, 7, 7], [0, 4], each partitioned by its
    // bits from the most significant down
    let s: Vec<u8> = vec![9, 3, 5, 1, 8, 2, 7, 7, 0, 4];
    let mut buf = s.clone();
    let f = WTForest::<4>::new(&mut buf).unwrap();
    assert_eq!(buf, vec![1, 9, 5, 3, 8, 2, 7, 7, 0, 4]);
    for (i, &x) in s.iter().enumerate() {
        assert_eq!(f.get(i), Some(x));
    }
}

#[test]
fn forest_space_usage_adds_blocks() {
    let s: Vec<u8> = vec![200; 300];
    let f = WTForest::<128>::new(&mut s.clone()).unwrap();
    assert!(f.space_usage_byte() > 8 + 3 * 16);
}

#[test]
fn forest_space_is_fixed_part_plus_blocks() {
    let s: Vec<u8> = (0..300usize).map(|i| (i % 97) as u8).collect();
    let f = WTForest::<128>::new(&mut s.clone()).unwrap();
    let mut expected = 8;
    for chunk in s.chunks(128) {
        let t = TinyWT::<128>::new(&mut chunk.to_vec()).unwrap();
        expected += t.space_usage_byte();
    }
    assert_eq!(f.space_usage_byte(), expected);
}
