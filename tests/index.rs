use three_mul::{
    count_elements_2, count_elements_3, count_elements_4, count_greater, count_zeros,
    index_positions, pair_count, triple_count, FastHashSet, DENSE_KEYS,
};
use three_mul::data_sets::{small_unique_numbers, very_big_numbers, very_small_numbers, SIZE};

#[test]
fn binomials() {
    assert_eq!(pair_count(0), 0);
    assert_eq!(pair_count(1), 0);
    assert_eq!(pair_count(2), 1);
    assert_eq!(pair_count(5), 10);
    assert_eq!(pair_count(0xFFFF_FFFF), 0xFFFF_FFFF * 0xFFFF_FFFE / 2);
    assert_eq!(triple_count(2), 0);
    assert_eq!(triple_count(3), 1);
    assert_eq!(triple_count(6), 20);
    assert_eq!(triple_count(0xFFFF_FFFF), 0xFFFF_FFFFu128 * 0xFFFF_FFFE * 0xFFFF_FFFD / 6);
}

#[test]
fn index_new_is_empty() {
    let index = FastHashSet::new();
    assert!(index.get(0).is_none());
    assert!(index.get(70000).is_none());
}

#[test]
fn index_small_and_large_keys() {
    let mut index = FastHashSet::new();
    index.push_position(5, 1);
    index.push_position(5, 4);
    index.push_position(1 << 40, 2);
    index.push_position(1 << 40, 3);
    assert_eq!(index.get(5), Some(&vec![1, 4]));
    assert_eq!(index.get(1 << 40), Some(&vec![2, 3]));
    assert!(index.get(6).is_none());
    index.remove(5);
    index.remove(1 << 40);
    assert!(index.get(5).is_none());
    assert!(index.get(1 << 40).is_none());
    index.push_position(5, 9);
    assert_eq!(index.get(5), Some(&vec![9]));
}

#[test]
fn index_insert() {
    let mut index = FastHashSet::new();
    index.insert(DENSE_KEYS as u64, Vec::new());
    assert_eq!(index.get(DENSE_KEYS as u64), Some(&vec![]));
    index.insert(3, Vec::new());
    assert!(index.get(3).is_none());
    index.insert(3, vec![7, 8]);
    assert_eq!(index.get(3), Some(&vec![7, 8]));
}

#[test]
fn index_of_a_sequence_is_ascending() {
    let input = [7u64, 1 << 33, 7, 0, 1 << 33, 7];
    let index = index_positions(&input);
    assert_eq!(index.get(7), Some(&vec![0, 2, 5]));
    assert_eq!(index.get(1 << 33), Some(&vec![1, 4]));
    assert_eq!(index.get(0), Some(&vec![3]));
    assert!(index.get(1).is_none());
    for v in input {
        let list = index.get(v).unwrap();
        assert!(list.windows(2).all(|w| w[0] < w[1]));
    }
}

#[test]
fn rank_queries() {
    let l = vec![1, 3, 5, 7];
    assert_eq!(count_greater(&l, 0), 4);
    assert_eq!(count_greater(&l, 4), 2);
    assert_eq!(count_greater(&l, 5), 1);
    assert_eq!(count_greater(&l, 7), 0);
    assert_eq!(count_greater(&vec![], 3), 0);
}

#[test]
fn element_counts() {
    assert_eq!(count_elements_2((&vec![0], &vec![1, 2, 3])), 1);
    assert_eq!(count_elements_2((&vec![0, 1], &vec![1, 2, 3, 4])), 4 + 1);
    assert_eq!(count_elements_3((&vec![0], &vec![1, 2, 3], &vec![4])), 3);
    assert_eq!(count_elements_3((&vec![0, 5], &vec![1, 2, 3], &vec![4, 6])), 6);
    assert_eq!(count_elements_4((&vec![0], &vec![1, 2], &vec![3], &vec![4, 5])), 4);
    assert_eq!(count_elements_4((&vec![0, 3], &vec![1, 2], &vec![3], &vec![4, 5])), 4);
}

#[test]
fn zero_counts() {
    assert_eq!(count_zeros(4, &vec![0, 1]), 1);
    assert_eq!(count_zeros(4, &vec![0]), 0);
    // four zeros in a row of six: C(5, 3) - C(2, 3) for the first, and so on.
    assert_eq!(count_zeros(6, &vec![0, 1, 2, 3]), 10 + 4 + 1 + 0);
}

#[test]
fn generated_sequences() {
    let small = very_small_numbers();
    assert_eq!(small.len(), SIZE as usize);
    assert_eq!(small[0], 0);
    assert_eq!(small[257], 1);
    let unique = small_unique_numbers();
    assert_eq!(unique.len(), SIZE as usize);
    assert_eq!(unique[0], SIZE);
    assert_eq!(unique[SIZE as usize - 1], 1);
    let big = very_big_numbers();
    assert_eq!(big.len(), SIZE as usize);
    assert_eq!(big[0], u64::MAX - 1);
    assert_eq!(big[1], u64::MAX - 1);
    assert_eq!(big[2], u64::MAX - 2);
    assert_eq!(big[SIZE as usize - 1000], 500);
    assert_eq!(big[SIZE as usize - 1], 1);
}
