use three_mul::{quadratic_algorithm, subquadratic_algorithm};

fn both(input: &[u64]) -> (u64, u64) {
    (quadratic_algorithm(input), subquadratic_algorithm(input))
}

/// Counts by trying every quadruple of positions.
fn brute_force(input: &[u64]) -> u64 {
    let n = input.len();
    let mut count = 0;
    for j in 0..n {
        for a in j + 1..n {
            for b in a + 1..n {
                for c in b + 1..n {
                    let p = input[a] as u128 * input[b] as u128 * input[c] as u128;
                    if p == input[j] as u128 {
                        count += 1;
                    }
                }
            }
        }
    }
    count
}

/// A deterministic pseudo-random sequence of `len` values below `modulus`.
fn pseudo_random(seed: u64, len: usize, modulus: u64) -> Vec<u64> {
    let mut state = seed;
    let mut out = Vec::with_capacity(len);
    for _ in 0..len {
        state = state.wrapping_mul(6364136223846793005).wrapping_add(1442695040888963407);
        out.push((state >> 33) % modulus);
    }
    out
}

#[test]
fn eight_and_three_twos() {
    assert_eq!(both(&[8, 2, 2, 2]), (1, 1));
}

#[test]
fn eight_and_four_twos() {
    assert_eq!(both(&[8, 2, 2, 2, 2]), (4, 4));
}

#[test]
fn zeros_and_non_zeros() {
    assert_eq!(both(&[0, 0, 5, 7]), (1, 1));
}

#[test]
fn too_few_positions_after_first() {
    assert_eq!(both(&[4, 2, 2]), (0, 0));
}

#[test]
fn maximum_values_never_match() {
    assert_eq!(both(&[u64::MAX; 4]), (0, 0));
}

#[test]
fn four_ones() {
    assert_eq!(both(&[1, 1, 1, 1]), (1, 1));
}

#[test]
fn short_sequences_count_nothing() {
    assert_eq!(both(&[]), (0, 0));
    assert_eq!(both(&[0]), (0, 0));
    assert_eq!(both(&[0, 0]), (0, 0));
    assert_eq!(both(&[0, 0, 0]), (0, 0));
    assert_eq!(both(&[1, 1, 1]), (0, 0));
    assert_eq!(both(&[8, 2, 2]), (0, 0));
}

#[test]
fn all_zeros() {
    // C(6, 4) quadruples, every one of them valid.
    assert_eq!(both(&[0; 6]), (15, 15));
}

#[test]
fn zero_later_needs_zero_first() {
    assert_eq!(both(&[5, 0, 1, 5]), (0, 0));
    // the zero at position 3 with two of the three other later positions
    assert_eq!(both(&[0, 5, 1, 0, 3]), (3, 3));
}

#[test]
fn two_equal_factors_and_one_other() {
    // 12 = 2 * 2 * 3, with two 2's and one 3 after it.
    assert_eq!(both(&[12, 2, 3, 2]), (1, 1));
    // 12 = 2 * 2 * 3 in 3 ways, and 12 = 1 * ... has no 1 here.
    assert_eq!(both(&[12, 2, 2, 2, 3]), (3, 3));
}

#[test]
fn three_distinct_factors() {
    assert_eq!(both(&[30, 2, 3, 5]), (1, 1));
    assert_eq!(both(&[30, 5, 3, 2, 30, 1]), (1, 1));
}

#[test]
fn large_values_with_ones() {
    let big = u64::MAX - 1;
    assert_eq!(both(&[big, big, 1, 1]), (1, 1));
    assert_eq!(both(&[big, 1, big, 1, 1]), (3, 3));
}

#[test]
fn both_agree_with_brute_force_on_small_values() {
    for seed in 0..20u64 {
        let input = pseudo_random(seed, 30, 9);
        let expected = brute_force(&input);
        assert_eq!(quadratic_algorithm(&input), expected, "seed {}", seed);
        assert_eq!(subquadratic_algorithm(&input), expected, "seed {}", seed);
    }
}

#[test]
fn both_agree_on_divisors_of_a_rich_number() {
    let divisors: Vec<u64> = vec![720, 360, 240, 180, 144, 120, 90, 80, 72, 60, 48, 45, 40, 36, 30, 24, 20, 18, 16, 15, 12, 10, 9, 8, 6, 5, 4, 3, 2, 1];
    let mut input = divisors.clone();
    input.extend(pseudo_random(7, 40, 30).iter().map(|&i| divisors[i as usize]));
    assert_eq!(quadratic_algorithm(&input), brute_force(&input));
    assert_eq!(subquadratic_algorithm(&input), brute_force(&input));
}

#[test]
fn both_agree_on_values_above_dense_range() {
    let base: Vec<u64> = vec![1 << 20, 1 << 10, 1 << 5, 1 << 5, 1 << 10, 1, 1 << 20, 70000, 2, 35000, 1 << 19, 2];
    let expected = brute_force(&base);
    assert_eq!(quadratic_algorithm(&base), expected);
    assert_eq!(subquadratic_algorithm(&base), expected);
}

#[test]
fn both_agree_with_many_zeros() {
    for seed in 0..10u64 {
        let input: Vec<u64> = pseudo_random(seed + 100, 25, 4);
        let expected = brute_force(&input);
        assert_eq!(both(&input), (expected, expected), "seed {}", seed);
    }
}
