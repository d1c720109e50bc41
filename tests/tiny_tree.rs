use qwt::perf_and_test_utils::gen_sequence;
use wtforest::{CapacityExceeded, TinyWT};

fn naive_rank(s: &[u8], v: u8, i: usize) -> usize {
    s[..i].iter().filter(|&&x| x == v).count()
}

#[test]
fn test_build_tiny() {
    let s = gen_sequence(500, 255);
    let tiny = TinyWT::<512>::new(&mut s.clone()).unwrap();

    for (i, &s) in s.iter().enumerate() {
        assert_eq!(Some(s), tiny.get(i));
    }
}

#[test]
fn round_trip_small_sequence() {
    let s: Vec<u8> = vec![0, 3, 2, 1, 2, 7];
    let t = TinyWT::<8>::new(&mut s.clone()).unwrap();
    assert_eq!(t.len(), 6);
    assert_eq!(t.n_levels(), 3);
    for (i, &x) in s.iter().enumerate() {
        assert_eq!(t.get(i), Some(x));
        assert_eq!(t.get_unchecked(i), x);
    }
}

#[test]
fn round_trip_many_rank_samples() {
    let s: Vec<u8> = (0..2000usize).map(|i| ((i * 37 + i / 7) % 251) as u8).collect();
    let t = TinyWT::<2048>::new(&mut s.clone()).unwrap();
    assert_eq!(t.n_levels(), 8);
    for (i, &x) in s.iter().enumerate() {
        assert_eq!(t.get(i), Some(x));
    }
}

#[test]
fn capacity_boundary_accepts_full_block() {
    let s: Vec<u8> = (0..64u8).collect();
    let t = TinyWT::<64>::new(&mut s.clone()).unwrap();
    assert_eq!(t.len(), 64);
    assert_eq!(t.get(63), Some(63));
}

#[test]
fn capacity_boundary_rejects_one_more() {
    let s: Vec<u8> = (0..65u8).collect();
    let mut buf = s.clone();
    let r = TinyWT::<64>::new(&mut buf);
    assert_eq!(r.err(), Some(CapacityExceeded));
    assert_eq!(buf, s);
}

#[test]
fn empty_sequence() {
    let mut buf: Vec<u8> = Vec::new();
    let t = TinyWT::<64>::new(&mut buf).unwrap();
    assert_eq!(t.len(), 0);
    assert!(t.is_empty());
    assert_eq!(t.n_levels(), 0);
    assert_eq!(t.get(0), None);
    assert_eq!(t.rank(0, 0), Some(0));
    assert_eq!(t.rank(3, 0), Some(0));
    assert_eq!(t.rank(0, 1), None);
}

#[test]
fn rank_example() {
    let s: Vec<u8> = vec![1, 2, 3, 1, 1, 3, 5, 1, 2];
    let t = TinyWT::<64>::new(&mut s.clone()).unwrap();
    assert_eq!(t.rank(1, 9), Some(4));
    assert_eq!(t.rank(2, 9), Some(2));
    assert_eq!(t.rank(3, 9), Some(2));
    assert_eq!(t.rank(5, 9), Some(1));
    assert_eq!(t.rank(1, 0), Some(0));
    assert_eq!(t.rank_unchecked(1, 4), 2);
}

#[test]
fn rank_matches_counting_on_every_prefix() {
    let s: Vec<u8> = (0..1500usize).map(|i| ((i * 13) % 40) as u8).collect();
    let t = TinyWT::<1536>::new(&mut s.clone()).unwrap();
    for v in [0u8, 1, 7, 13, 39] {
        for i in (0..=s.len()).step_by(7) {
            assert_eq!(t.rank(v, i), Some(naive_rank(&s, v, i)));
        }
        assert_eq!(t.rank(v, s.len()), Some(naive_rank(&s, v, s.len())));
    }
}

#[test]
fn rank_of_symbol_wider_than_levels() {
    let s: Vec<u8> = vec![1, 2, 3, 1];
    let t = TinyWT::<8>::new(&mut s.clone()).unwrap();
    assert_eq!(t.n_levels(), 2);
    assert_eq!(t.rank(200, 4), Some(0));
    assert_eq!(t.rank(5, 4), Some(0));
    assert_eq!(t.rank(0, 4), Some(0));
}

#[test]
fn out_of_range_queries_are_absent() {
    let s: Vec<u8> = vec![4, 0, 9, 9, 2];
    let t = TinyWT::<16>::new(&mut s.clone()).unwrap();
    assert_eq!(t.get(5), None);
    assert_eq!(t.get(17), None);
    assert_eq!(t.rank(9, 6), None);
    assert_eq!(t.rank(9, 5), Some(2));
}

#[test]
fn constant_zero_sequence_has_one_level() {
    let s: Vec<u8> = vec![0; 10];
    let t = TinyWT::<16>::new(&mut s.clone()).unwrap();
    assert_eq!(t.n_levels(), 1);
    assert_eq!(t.get(9), Some(0));
    assert_eq!(t.rank(0, 10), Some(10));
}

#[test]
fn levels_follow_largest_symbol() {
    let t = TinyWT::<8>::new(&mut vec![5u8, 1, 0]).unwrap();
    assert_eq!(t.n_levels(), 3);
    let t = TinyWT::<8>::new(&mut vec![255u8, 1]).unwrap();
    assert_eq!(t.n_levels(), 8);
    let t = TinyWT::<8>::new(&mut vec![1u8, 1]).unwrap();
    assert_eq!(t.n_levels(), 1);
    let t = TinyWT::<8>::new(&mut vec![64u8]).unwrap();
    assert_eq!(t.n_levels(), 7);
}

#[test]
fn level_by_level_partition_order() {
    // replay the partitions of construction by hand: the order used for
    // each level must decode back to the input
    let s: Vec<u8> = vec![5, 2, 7, 2, 0, 6, 1];
    let t = TinyWT::<8>::new(&mut s.clone()).unwrap();
    let n_levels = t.n_levels();
    let mut order = s.clone();
    for l in 0..n_levels {
        let k = n_levels - 1 - l;
        let zeros: Vec<u8> = order.iter().copied().filter(|x| (x >> k) & 1 == 0).collect();
        let ones: Vec<u8> = order.iter().copied().filter(|x| (x >> k) & 1 == 1).collect();
        order = zeros.into_iter().chain(ones).collect();
    }
    let mut buf = s.clone();
    TinyWT::<8>::new(&mut buf).unwrap();
    assert_eq!(buf, order);
    for (i, &x) in s.iter().enumerate() {
        assert_eq!(t.get(i), Some(x));
    }
}

#[test]
fn space_usage_counts_the_bits() {
    let t = TinyWT::<512>::new(&mut vec![3u8; 300]).unwrap();
    assert!(t.space_usage_byte() >= 16 + 2 * 512 / 8);
}

#[test]
fn rank_unchecked_of_wide_symbol_is_zero() {
    let s: Vec<u8> = vec![3, 1, 2, 3];
    let t = TinyWT::<8>::new(&mut s.clone()).unwrap();
    assert_eq!(t.rank_unchecked(130, 4), 0);
    assert_eq!(t.rank_unchecked(3, 4), 2);
}

#[test]
fn space_of_equal_trees_is_equal() {
    let a = TinyWT::<64>::new(&mut vec![1u8, 2, 3]).unwrap();
    let b = TinyWT::<64>::new(&mut vec![3u8, 2, 1]).unwrap();
    assert_eq!(a.space_usage_byte(), b.space_usage_byte());
    assert!(a.space_usage_byte() > 16);
}
