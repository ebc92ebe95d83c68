//! The reference counter: one pass with a map from pending ratios to counts.
use vstd::prelude::*;
use intmap::IntMap;
use crate::combinatorics::{add_capped, capped, choose2, pair_count};
use crate::int_map::{counter_contents, counters_get, counters_insert, counters_new};
use crate::model::{
    count_quadruples, lemma_occurrences_bound, lemma_occurrences_too_large, occurrences,
    quadruples_at, quadruples_upto, ratio_pairs,
};

verus! {

/// Pairs `j < a < b` with `s[a] != 0` and `s[j] == r * s[a]`.
pub open spec fn nonzero_ratio_pairs(s: Seq<u64>, r: int, b: int) -> nat
    decreases b,
{
    if b <= 0 {
        0
    } else {
        nonzero_ratio_pairs(s, r, b - 1) + if s[b - 1] != 0 {
            occurrences(s, r * s[b - 1], b - 1)
        } else {
            0
        }
    }
}

/// Pairs `j < a < b` with `s[j] == s[a] == 0`.
pub open spec fn zero_pairs(s: Seq<u64>, b: int) -> nat
    decreases b,
{
    if b <= 0 {
        0
    } else {
        zero_pairs(s, b - 1) + if s[b - 1] == 0 {
            occurrences(s, 0, b - 1)
        } else {
            0
        }
    }
}

/// Quadruples `j < a < b < c`, `c < hi`, with a fixed `b` and `s[a] != 0`.
pub open spec fn nonzero_quadruples_at(s: Seq<u64>, b: int, hi: int) -> nat
    decreases hi - b,
{
    if hi <= b + 1 {
        0
    } else {
        nonzero_quadruples_at(s, b, hi - 1) + nonzero_ratio_pairs(s, s[b] * s[hi - 1], b)
    }
}

/// What the pass adds for `b` when `s[b] == 0`: an earlier zero, then the zero at
/// `b` as smallest factor position, then any two later positions.
pub open spec fn zero_term(s: Seq<u64>, b: int) -> nat {
    if s[b] == 0 {
        occurrences(s, 0, b) * choose2(s.len() - 1 - b)
    } else {
        0
    }
}

/// The running total of the pass after positions below `m`.
pub open spec fn pass_total(s: Seq<u64>, m: int) -> nat
    decreases m,
{
    if m <= 0 {
        0
    } else {
        pass_total(s, m - 1) + nonzero_quadruples_at(s, m - 1, s.len() as int) + zero_term(
            s,
            m - 1,
        )
    }
}

/// The map of pending ratios after positions below `i`: each key counts its pairs,
/// and a key that is absent has none.
pub open spec fn ratios_counted(m: Map<u64, u64>, s: Seq<u64>, i: int) -> bool {
    forall|r: u64|
        #![trigger m.contains_key(r)]
        (m.contains_key(r) ==> m[r] == nonzero_ratio_pairs(s, r as int, i)) && (!m.contains_key(r)
            ==> nonzero_ratio_pairs(s, r as int, i) == 0)
}

/// The map while position `i`, holding `x`, is being added: the pairs below `i`
/// and those that end at `i` and start below `j`.
pub open spec fn ratios_in_progress(m: Map<u64, u64>, s: Seq<u64>, i: int, x: int, j: int) -> bool {
    forall|r: u64|
        #![trigger m.contains_key(r)]
        (m.contains_key(r) ==> m[r] == nonzero_ratio_pairs(s, r as int, i) + occurrences(
            s,
            r * x,
            j,
        )) && (!m.contains_key(r) ==> nonzero_ratio_pairs(s, r as int, i) + occurrences(
            s,
            r * x,
            j,
        ) == 0)
}

proof fn lemma_ratio_pairs_split(s: Seq<u64>, r: int, b: int)
    ensures
        ratio_pairs(s, r, b) == nonzero_ratio_pairs(s, r, b) + zero_pairs(s, b),
    decreases b,
{
    if b > 0 {
        lemma_ratio_pairs_split(s, r, b - 1);
        if s[b - 1] == 0 {
            assert(r * s[b - 1] == 0);
        }
    }
}

proof fn lemma_quadruples_at_split(s: Seq<u64>, b: int, hi: int)
    requires
        0 <= b,
    ensures
        quadruples_at(s, b, hi) == nonzero_quadruples_at(s, b, hi) + (if hi > b + 1 {
            (hi - b - 1) * zero_pairs(s, b)
        } else {
            0
        }),
    decreases hi,
{
    if hi > b + 1 {
        lemma_quadruples_at_split(s, b, hi - 1);
        lemma_ratio_pairs_split(s, s[b] * s[hi - 1], b);
        let z = zero_pairs(s, b);
        assert((hi - b - 2) * z + z == (hi - b - 1) * z) by (nonlinear_arith);
        assert(hi - 1 <= b + 1 ==> (hi - b - 2) * z == 0) by (nonlinear_arith)
            requires
                hi > b + 1,
        ;
    }
}

proof fn lemma_pass_total_general(s: Seq<u64>, m: int)
    requires
        0 <= m <= s.len(),
    ensures
        quadruples_upto(s, m) + zero_pairs(s, m) * choose2(s.len() - m) == pass_total(s, m),
    decreases m,
{
    let n = s.len() as int;
    if m > 0 {
        let k = m - 1;
        lemma_pass_total_general(s, k);
        lemma_quadruples_at_split(s, k, n);
        let z = zero_pairs(s, k);
        let c = choose2(n - m);
        assert(choose2(n - k) == c + (n - m)) by {
            reveal_with_fuel(choose2, 2);
        }
        assert((n - k - 1) * z + z * c == z * (c + (n - m))) by (nonlinear_arith)
            requires
                k == m - 1,
        ;
        if s[k] == 0 {
            let f = occurrences(s, 0, k);
            assert(zero_pairs(s, m) == z + f);
            assert((z + f) * c == z * c + f * c) by (nonlinear_arith);
        }
    } else {
        assert(zero_pairs(s, m) == 0);
    }
}

/// The pass adds up exactly the quadruples.
proof fn lemma_pass_total_is_count(s: Seq<u64>)
    ensures
        pass_total(s, s.len() as int) == count_quadruples(s),
{
    lemma_pass_total_general(s, s.len() as int);
    let n = s.len() as int;
    assert(choose2(n - n) == 0);
    let z = zero_pairs(s, n);
    assert(z * choose2(n - n) == 0) by (nonlinear_arith)
        requires
            choose2(n - n) == 0,
    ;
}

proof fn lemma_too_large_ratio(s: Seq<u64>, r: int, b: int)
    requires
        r > u64::MAX,
        b <= s.len(),
    ensures
        nonzero_ratio_pairs(s, r, b) == 0,
    decreases b,
{
    if b > 0 {
        lemma_too_large_ratio(s, r, b - 1);
        if s[b - 1] != 0 {
            assert(r * s[b - 1] >= r) by (nonlinear_arith)
                requires
                    r > 0,
                    s[b - 1] >= 1,
            ;
            lemma_occurrences_too_large(s, r * s[b - 1], b - 1);
        }
    }
}

proof fn lemma_nonzero_ratio_pairs_bound(s: Seq<u64>, r: int, b: int)
    requires
        b >= 0,
    ensures
        nonzero_ratio_pairs(s, r, b) <= b * b,
    decreases b,
{
    if b > 0 {
        lemma_nonzero_ratio_pairs_bound(s, r, b - 1);
        lemma_occurrences_bound(s, r * s[b - 1], b - 1);
        assert((b - 1) * (b - 1) + (b - 1) <= b * b) by (nonlinear_arith)
            requires
                b >= 1,
        ;
    }
}

/// Counts the quadruples `i0 < i1 < i2 < i3` with
/// `input[i0] == input[i1] * input[i2] * input[i3]`, in quadratic time. A
/// count beyond `u64::MAX` is reported as `u64::MAX`.
pub fn quadratic_algorithm(input: &[u64]) -> (r: u64)
    requires
        input@.len() <= 0xFFFF_FFFF,
    ensures
        r == capped(count_quadruples(input@) as int),
{
    let ghost s = input@;
    let n = input.len();
    let mut map: IntMap<u64> = counters_new();
    counters_insert(&mut map, 0, 0);
    let mut zeros: u64 = 0;
    let mut count: u64 = 0;
    proof {
        lemma_pass_total_is_count(s);
    }
    let mut i: usize = 0;
    while i < n
        invariant
            s == input@,
            n == s.len(),
            i <= n,
            n <= 0xFFFF_FFFF,
            pass_total(s, n as int) == count_quadruples(s),
            zeros == occurrences(s, 0, i as int),
            count == capped(pass_total(s, i as int) as int),
            ratios_counted(counter_contents(map), s, i as int),
        decreases n - i,
    {
        let x = input[i];
        let divisor: u64 = if x > 1 {
            x
        } else {
            1
        };
        let limit = u64::MAX / divisor;
        let mut k: usize = i + 1;
        while k < n
            invariant
                s == input@,
                n == s.len(),
                i < n,
                i + 1 <= k <= n,
                x == s[i as int],
                divisor == (if x > 1 { x } else { 1 }),
                limit == u64::MAX / divisor,
                count == capped(pass_total(s, i as int) + nonzero_quadruples_at(s, i as int, k as int) as int),
                ratios_counted(counter_contents(map), s, i as int),
            decreases n - k,
        {
            let y = input[k];
            if y <= limit {
                if x <= 1 {
                    assert(x * y <= y) by (nonlinear_arith)
                        requires
                            x <= 1,
                    ;
                } else {
                    assert(x * y <= u64::MAX) by (nonlinear_arith)
                        requires
                            y <= limit,
                            limit == u64::MAX / x,
                            x > 1,
                    ;
                }
                let v = x * y;
                let c = counters_get(&map, v);
                match c {
                    Some(c) => {
                        count = add_capped(count, c as u128);
                    },
                    None => {},
                }
            } else {
                assert(x * y > u64::MAX) by (nonlinear_arith)
                    requires
                        y > limit,
                        limit == u64::MAX / divisor,
                        divisor >= 1,
                        x <= 1 ==> divisor == 1,
                        x > 1 ==> divisor == x,
                        y <= u64::MAX,
                ;
                proof {
                    lemma_too_large_ratio(s, x * y, i as int);
                }
            }
            k = k + 1;
        }
        if x == 0 {
            let left = (n - i - 1) as u64;
            let c2 = pair_count(left);
            proof {
                lemma_occurrences_bound(s, 0, i as int);
                crate::combinatorics::lemma_choose2_closed(left as int);
                assert(c2 <= 0xFFFF_FFFF * 0xFFFF_FFFF) by (nonlinear_arith)
                    requires
                        2 * c2 == left * (left - 1),
                        left <= 0xFFFF_FFFF,
                ;
            }
            assert(zero_term(s, i as int) == zeros * c2);
            assert(zeros * c2 <= 0xFFFF_FFFF * 0xFFFF_FFFF * 0xFFFF_FFFF) by (nonlinear_arith)
                requires
                    zeros <= 0xFFFF_FFFF,
                    c2 <= 0xFFFF_FFFF * 0xFFFF_FFFF,
            ;
            count = add_capped(count, (zeros as u128) * (c2 as u128));
            zeros = zeros + 1;
            assert(ratios_counted(counter_contents(map), s, i as int + 1));
        } else {
            let mut j: usize = 0;
            while j < i
                invariant
                    s == input@,
                    n == s.len(),
                    i < n,
                    j <= i,
                    n <= 0xFFFF_FFFF,
                    x == s[i as int],
                    x != 0,
                    ratios_in_progress(counter_contents(map), s, i as int, x as int, j as int),
                decreases i - j,
            {
                let w = input[j];
                let ghost before = counter_contents(map);
                if w % x == 0 {
                    let v = w / x;
                    assert(v * x == w) by (nonlinear_arith)
                        requires
                            v == w / x,
                            w % x == 0,
                            x > 0,
                    ;
                    proof {
                        lemma_nonzero_ratio_pairs_bound(s, v as int, i as int + 1);
                        assert((i + 1) * (i + 1) <= 0xFFFF_FFFF * 0xFFFF_FFFF) by (nonlinear_arith)
                            requires
                                i + 1 <= 0xFFFF_FFFF,
                        ;
                        lemma_occurrences_bound(s, v * x, j as int);
                        assert(nonzero_ratio_pairs(s, v as int, i as int + 1)
                            == nonzero_ratio_pairs(s, v as int, i as int) + occurrences(
                            s,
                            v * x,
                            i as int,
                        ));
                        lemma_occurrences_monotone(s, v * x, j as int + 1, i as int);
                    }
                    let c = counters_get(&map, v);
                    match c {
                        Some(c) => {
                            counters_insert(&mut map, v, c + 1);
                        },
                        None => {
                            counters_insert(&mut map, v, 1);
                        },
                    }
                    proof {
                        let m = counter_contents(map);
                        assert forall|r: u64|
                            #![trigger m.contains_key(r)]
                            r != v implies w != r * x by {
                            if w == r * x {
                                assert(r == v) by (nonlinear_arith)
                                    requires
                                        w == r * x,
                                        v * x == w,
                                        x > 0,
                                ;
                            }
                        }
                        assert(ratios_in_progress(m, s, i as int, x as int, j as int + 1));
                    }
                } else {
                    proof {
                        let m = counter_contents(map);
                        assert forall|r: u64| #![trigger m.contains_key(r)] w != r * x by {
                            if w == r * x {
                                assert(w % x == 0) by (nonlinear_arith)
                                    requires
                                        w == r * x,
                                        x > 0,
                                ;
                            }
                        }
                        assert(ratios_in_progress(m, s, i as int, x as int, j as int + 1));
                    }
                }
                j = j + 1;
            }
            assert(ratios_counted(counter_contents(map), s, i as int + 1));
        }
        i = i + 1;
    }
    count
}

proof fn lemma_occurrences_monotone(s: Seq<u64>, v: int, a: int, b: int)
    requires
        a <= b,
    ensures
        occurrences(s, v, a) <= occurrences(s, v, b),
    decreases b - a,
{
    if a < b {
        lemma_occurrences_monotone(s, v, a, b - 1);
    }
}

} // verus!
