use three_mul::{count_triplets, find_dividers, find_first_dividers, find_second_dividers};

fn factors_of(value: u64) -> Vec<(u64, usize)> {
    num_prime::nt_funcs::factorize64(value).into_iter().collect()
}

fn sorted(mut v: Vec<u64>) -> Vec<u64> {
    v.sort();
    v
}

/// Sorted triples `d1 >= d2 >= d3` listed by the divisor engine.
fn engine_triples(value: u64) -> Vec<(u64, u64, u64)> {
    let factors = factors_of(value);
    let mut out = Vec::new();
    for d1 in find_first_dividers(value, &factors) {
        for d2 in find_second_dividers(value, d1, &factors) {
            out.push((d1, d2, value / d1 / d2));
        }
    }
    out.sort();
    out
}

/// Sorted triples `a >= b >= c > 0` with `a * b * c == value`, by search.
fn searched_triples(value: u64) -> Vec<(u64, u64, u64)> {
    let mut out = Vec::new();
    for c in 1..=value {
        if c * c * c > value {
            break;
        }
        if value % c != 0 {
            continue;
        }
        let rest = value / c;
        for b in c..=rest {
            if b * b > rest {
                break;
            }
            if rest % b == 0 {
                out.push((rest / b, b, c));
            }
        }
    }
    out.sort();
    out
}

#[test]
fn dividers_of_twelve() {
    assert_eq!(sorted(find_dividers(12)), vec![1, 2, 3, 4, 6, 12]);
}

#[test]
fn dividers_of_one_and_of_a_prime() {
    assert_eq!(sorted(find_dividers(1)), vec![1]);
    assert_eq!(sorted(find_dividers(97)), vec![1, 97]);
}

#[test]
fn dividers_of_a_large_value() {
    let value = 17952249695732352000u64;
    let divisors = find_dividers(value);
    assert!(divisors.iter().all(|&d| value % d == 0));
    let mut unique = divisors.clone();
    unique.sort();
    unique.dedup();
    assert_eq!(unique.len(), divisors.len());
}

#[test]
fn first_dividers_of_twelve() {
    assert_eq!(sorted(find_first_dividers(12, &factors_of(12))), vec![3, 4, 6, 12]);
}

#[test]
fn first_dividers_of_a_cube() {
    // 27 = 3 * 3 * 3: 3 is exactly the cube root and must be kept.
    assert_eq!(sorted(find_first_dividers(27, &factors_of(27))), vec![3, 9, 27]);
    assert_eq!(sorted(find_first_dividers(1, &factors_of(1))), vec![1]);
}

#[test]
fn second_dividers_of_twelve() {
    let factors = factors_of(12);
    assert_eq!(sorted(find_second_dividers(12, 12, &factors)), vec![1]);
    assert_eq!(sorted(find_second_dividers(12, 6, &factors)), vec![2]);
    assert_eq!(sorted(find_second_dividers(12, 4, &factors)), vec![3]);
    assert_eq!(sorted(find_second_dividers(12, 3, &factors)), vec![2]);
}

#[test]
fn second_dividers_are_middle_factors() {
    // 6 = 3 * 2 * 1: with 3 taken, the middle factor is 2.
    assert_eq!(sorted(find_second_dividers(6, 3, &factors_of(6))), vec![2]);
    // 720 = 12 * d2 * d3 with 12 >= d2 >= d3: (12, 12, 5), (12, 10, 6), (12, 20, 3) is not allowed.
    assert_eq!(sorted(find_second_dividers(720, 12, &factors_of(720))), vec![10, 12]);
}

#[test]
fn triplet_counts() {
    assert_eq!(count_triplets(1), 1);
    assert_eq!(count_triplets(8), 3);
    assert_eq!(count_triplets(12), 4);
    assert_eq!(count_triplets(97), 1);
}

#[test]
fn engine_lists_each_factorization_once() {
    for value in 1..400u64 {
        let triples = engine_triples(value);
        assert_eq!(triples, searched_triples(value), "value {}", value);
        assert_eq!(count_triplets(value), triples.len());
        for (d1, d2, d3) in triples {
            assert!(d1 >= d2 && d2 >= d3 && d3 > 0);
            assert_eq!(d1 * d2 * d3, value);
        }
    }
}

#[test]
fn engine_on_highly_divisible_values() {
    for value in [720u64, 5040, 27720, 1 << 20, 1_000_000] {
        assert_eq!(engine_triples(value), searched_triples(value), "value {}", value);
    }
}
