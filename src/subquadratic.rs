//! The sub-quadratic counter: for each distinct value, its factorizations
//! into three factors, combined with rank queries on the positional index.
use vstd::prelude::*;
use itertools::Itertools;
use crate::combinatorics::{add_capped, capped, choose2, choose3, pair_count, triple_count};
use crate::divisors::{
    factor_product, factorize, find_first_dividers, find_second_dividers, is_first_divider, is_second_divider,
    lemma_list_sum_range, list_sum, prime_factors, range_sum,
};
use crate::positions::{FastHashSet, index_positions, lemma_positions_of, positions_of, strictly_increasing};

verus! {

/// Largest length of a list handled by the counting helpers.
pub const MAX_LEN: usize = 0xFFFF_FFFF;

/// Number of entries of `l` greater than `p`.
pub open spec fn greater(l: Seq<usize>, p: int) -> nat
    decreases l.len(),
{
    if l.len() == 0 {
        0
    } else {
        greater(l.drop_last(), p) + if l.last() > p {
            1nat
        } else {
            0nat
        }
    }
}

proof fn lemma_greater_bound(l: Seq<usize>, p: int)
    ensures
        greater(l, p) <= l.len(),
    decreases l.len(),
{
    if l.len() > 0 {
        lemma_greater_bound(l.drop_last(), p);
    }
}

/// In a list whose entries below `k` are at most `p` and the others above it,
/// `len - k` entries exceed `p`.
proof fn lemma_greater_split(l: Seq<usize>, p: int, k: int)
    requires
        0 <= k <= l.len(),
        forall|j: int| 0 <= j < k ==> l[j] <= p,
        forall|j: int| k <= j < l.len() ==> l[j] > p,
    ensures
        greater(l, p) == l.len() - k,
    decreases l.len(),
{
    if l.len() > 0 {
        let m = l.len() - 1;
        if k == l.len() {
            lemma_greater_split(l.drop_last(), p, m);
        } else {
            lemma_greater_split(l.drop_last(), p, k);
        }
    }
}

/// The number of entries of the ascending list `l` that exceed `p`, found by
/// binary search.
pub fn count_greater(l: &Vec<usize>, p: usize) -> (r: usize)
    requires
        strictly_increasing(l@),
    ensures
        r == greater(l@, p as int),
{
    let mut lo: usize = 0;
    let mut hi: usize = l.len();
    while lo < hi
        invariant
            0 <= lo <= hi <= l@.len(),
            strictly_increasing(l@),
            forall|j: int| 0 <= j < lo ==> l@[j] <= p,
            forall|j: int| hi <= j < l@.len() ==> l@[j] > p,
        decreases hi - lo,
    {
        let mid = lo + (hi - lo) / 2;
        if l[mid] <= p {
            lo = mid + 1;
        } else {
            hi = mid;
        }
    }
    proof {
        lemma_greater_split(l@, p as int, lo as int);
    }
    l.len() - lo
}

/// Sum, over the positions `p` of `l0`, of `C(g, 3)`, `g` the entries of `l1`
/// above `p`.
pub open spec fn same_factor_sum(l0: Seq<usize>, l1: Seq<usize>) -> nat
    decreases l0.len(),
{
    if l0.len() == 0 {
        0
    } else {
        same_factor_sum(l0.drop_last(), l1) + choose3(greater(l1, l0.last() as int) as int)
    }
}

/// Sum, over the positions `p` of `l0`, of `C(g1, 2) * g2`, `g1` and `g2` the
/// entries of `l1` and `l2` above `p`.
pub open spec fn paired_factor_sum(l0: Seq<usize>, l1: Seq<usize>, l2: Seq<usize>) -> nat
    decreases l0.len(),
{
    if l0.len() == 0 {
        0
    } else {
        paired_factor_sum(l0.drop_last(), l1, l2) + choose2(greater(l1, l0.last() as int) as int) * greater(
            l2,
            l0.last() as int,
        )
    }
}

/// Sum, over the positions `p` of `l0`, of `g1 * g2 * g3`, `gi` the entries
/// of `li` above `p`.
pub open spec fn distinct_factor_sum(
    l0: Seq<usize>,
    l1: Seq<usize>,
    l2: Seq<usize>,
    l3: Seq<usize>,
) -> nat
    decreases l0.len(),
{
    if l0.len() == 0 {
        0
    } else {
        distinct_factor_sum(l0.drop_last(), l1, l2, l3) + greater(l1, l0.last() as int) * greater(
            l2,
            l0.last() as int,
        ) * greater(l3, l0.last() as int)
    }
}

/// Bound of each term of the sums, for lists of at most `MAX_LEN` entries.
pub open spec fn term_bound() -> int {
    0x1_0000_0000_0000_0000_0000_0000
}

proof fn lemma_cube_bound(a: int, b: int, c: int)
    requires
        0 <= a <= MAX_LEN,
        0 <= b <= MAX_LEN,
        0 <= c <= MAX_LEN,
    ensures
        a * b * c < term_bound(),
{
    assert(a * b * c <= 0xFFFF_FFFF * 0xFFFF_FFFF * 0xFFFF_FFFF) by (nonlinear_arith)
        requires
            0 <= a <= 0xFFFF_FFFF,
            0 <= b <= 0xFFFF_FFFF,
            0 <= c <= 0xFFFF_FFFF,
    ;
}

proof fn lemma_sum_step(i: int, acc: int, term: int)
    requires
        0 <= i,
        i + 1 <= MAX_LEN,
        0 <= acc <= i * term_bound(),
        0 <= term < term_bound(),
    ensures
        acc + term <= (i + 1) * term_bound(),
        (i + 1) * term_bound() <= u128::MAX,
{
    assert((i + 1) * term_bound() <= 0xFFFF_FFFF * 0x1_0000_0000_0000_0000_0000_0000) by (nonlinear_arith)
        requires
            i + 1 <= 0xFFFF_FFFF,
    ;
}

/// Counts, for the positions `p` of `lists.0`, the ways to pick three
/// positions after `p` from `lists.1`: the factorizations `(a, a, a)`.
pub fn count_elements_2(lists: (&Vec<usize>, &Vec<usize>)) -> (r: u128)
    requires
        lists.0@.len() <= MAX_LEN,
        lists.1@.len() <= MAX_LEN,
        strictly_increasing(lists.1@),
    ensures
        r == same_factor_sum(lists.0@, lists.1@),
{
    let (l0, l1) = lists;
    let mut count: u128 = 0;
    let mut i: usize = 0;
    while i < l0.len()
        invariant
            i <= l0@.len() <= MAX_LEN,
            l1@.len() <= MAX_LEN,
            strictly_increasing(l1@),
            count == same_factor_sum(l0@.take(i as int), l1@),
            count <= i * term_bound(),
        decreases l0@.len() - i,
    {
        let c1 = count_greater(l1, l0[i]);
        proof {
            lemma_greater_bound(l1@, l0@[i as int] as int);
        }
        let t = triple_count(c1 as u64);
        proof {
            crate::combinatorics::lemma_choose3_closed(c1 as int);
            crate::combinatorics::lemma_choose2_closed(c1 as int);
            lemma_choose3_le_cube(c1 as int);
            lemma_cube_bound(c1 as int, c1 as int, c1 as int);
            lemma_sum_step(i as int, count as int, t as int);
            assert(l0@.take(i as int + 1).drop_last() == l0@.take(i as int));
        }
        count = count + t;
        i = i + 1;
    }
    assert(l0@.take(l0@.len() as int) == l0@);
    count
}

/// Counts, for the positions `p` of `lists.0`, the ways to pick two positions
/// after `p` from `lists.1` and one from `lists.2`: the factorizations
/// `(a, a, b)`.
pub fn count_elements_3(lists: (&Vec<usize>, &Vec<usize>, &Vec<usize>)) -> (r: u128)
    requires
        lists.0@.len() <= MAX_LEN,
        lists.1@.len() <= MAX_LEN,
        lists.2@.len() <= MAX_LEN,
        strictly_increasing(lists.1@),
        strictly_increasing(lists.2@),
    ensures
        r == paired_factor_sum(lists.0@, lists.1@, lists.2@),
{
    let (l0, l1, l2) = lists;
    let mut count: u128 = 0;
    let mut i: usize = 0;
    while i < l0.len()
        invariant
            i <= l0@.len() <= MAX_LEN,
            l1@.len() <= MAX_LEN,
            l2@.len() <= MAX_LEN,
            strictly_increasing(l1@),
            strictly_increasing(l2@),
            count == paired_factor_sum(l0@.take(i as int), l1@, l2@),
            count <= i * term_bound(),
        decreases l0@.len() - i,
    {
        let c1 = count_greater(l1, l0[i]);
        let c2 = count_greater(l2, l0[i]);
        proof {
            lemma_greater_bound(l1@, l0@[i as int] as int);
            lemma_greater_bound(l2@, l0@[i as int] as int);
        }
        let p = pair_count(c1 as u64);
        proof {
            crate::combinatorics::lemma_choose2_closed(c1 as int);
            assert(p <= c1 * c1) by (nonlinear_arith)
                requires
                    2 * p == c1 * (c1 - 1),
                    c1 >= 0,
            ;
            lemma_cube_bound(c1 as int, c1 as int, c2 as int);
            assert(p * c2 <= c1 * c1 * c2) by (nonlinear_arith)
                requires
                    p <= c1 * c1,
                    c2 >= 0,
            ;
        }
        let t: u128 = (p as u128) * (c2 as u128);
        proof {
            lemma_sum_step(i as int, count as int, t as int);
            assert(l0@.take(i as int + 1).drop_last() == l0@.take(i as int));
        }
        count = count + t;
        i = i + 1;
    }
    assert(l0@.take(l0@.len() as int) == l0@);
    count
}

/// Counts, for the positions `p` of `lists.0`, the ways to pick one position
/// after `p` from each of `lists.1`, `lists.2` and `lists.3`: the
/// factorizations `(a, b, c)` with three distinct factors.
pub fn count_elements_4(lists: (&Vec<usize>, &Vec<usize>, &Vec<usize>, &Vec<usize>)) -> (r: u128)
    requires
        lists.0@.len() <= MAX_LEN,
        lists.1@.len() <= MAX_LEN,
        lists.2@.len() <= MAX_LEN,
        lists.3@.len() <= MAX_LEN,
        strictly_increasing(lists.1@),
        strictly_increasing(lists.2@),
        strictly_increasing(lists.3@),
    ensures
        r == distinct_factor_sum(lists.0@, lists.1@, lists.2@, lists.3@),
{
    let (l0, l1, l2, l3) = lists;
    let mut count: u128 = 0;
    let mut i: usize = 0;
    while i < l0.len()
        invariant
            i <= l0@.len() <= MAX_LEN,
            l1@.len() <= MAX_LEN,
            l2@.len() <= MAX_LEN,
            l3@.len() <= MAX_LEN,
            strictly_increasing(l1@),
            strictly_increasing(l2@),
            strictly_increasing(l3@),
            count == distinct_factor_sum(l0@.take(i as int), l1@, l2@, l3@),
            count <= i * term_bound(),
        decreases l0@.len() - i,
    {
        let c1 = count_greater(l1, l0[i]);
        let c2 = count_greater(l2, l0[i]);
        let c3 = count_greater(l3, l0[i]);
        proof {
            lemma_greater_bound(l1@, l0@[i as int] as int);
            lemma_greater_bound(l2@, l0@[i as int] as int);
            lemma_greater_bound(l3@, l0@[i as int] as int);
            lemma_cube_bound(c1 as int, c2 as int, c3 as int);
            assert(c1 * c2 <= 0xFFFF_FFFF * 0xFFFF_FFFF) by (nonlinear_arith)
                requires
                    0 <= c1 <= 0xFFFF_FFFF,
                    0 <= c2 <= 0xFFFF_FFFF,
            ;
        }
        let t: u128 = (c1 as u128) * (c2 as u128) * (c3 as u128);
        proof {
            lemma_sum_step(i as int, count as int, t as int);
            assert(l0@.take(i as int + 1).drop_last() == l0@.take(i as int));
        }
        count = count + t;
        i = i + 1;
    }
    assert(l0@.take(l0@.len() as int) == l0@);
    count
}

proof fn lemma_choose3_le_cube(k: int)
    requires
        k >= 0,
    ensures
        choose3(k) <= k * k * k,
{
    crate::combinatorics::lemma_choose3_closed(k);
    crate::combinatorics::lemma_choose2_closed(k);
    let c2 = choose2(k);
    let c3 = choose3(k);
    assert(c3 <= k * k * k) by (nonlinear_arith)
        requires
            3 * c3 == c2 * (k - 2),
            2 * c2 == k * (k - 1),
            k >= 0,
            c2 >= 0,
            c3 >= 0,
    ;
}

/// For the `k`-th zero position `l[k]` of a sequence of length `len`, the
/// 3-subsets of later positions with at least one zero: one, two or three of
/// the `za` later zeros, and the rest from the `nz` later non-zero positions.
pub open spec fn zero_subsets_at(len: int, l: Seq<usize>, k: int) -> nat {
    let za = l.len() - k - 1;
    let nz = len - l[k] - 1 - za;
    (za * choose2(nz) + choose2(za) * nz + choose3(za)) as nat
}

/// Sum of `zero_subsets_at` over the first `m` zero positions.
pub open spec fn zero_subsets(len: int, l: Seq<usize>, m: int) -> nat
    decreases m,
{
    if m <= 0 {
        0
    } else {
        zero_subsets(len, l, m - 1) + zero_subsets_at(len, l, m - 1)
    }
}

/// Choosing 3 of `za + nz` items: 1, 2 or 3 of the first `za`, or none.
pub proof fn lemma_choose3_split(za: int, nz: int)
    requires
        za >= 0,
        nz >= 0,
    ensures
        choose3(za + nz) == za * choose2(nz) + choose2(za) * nz + choose3(za) + choose3(nz),
{
    crate::combinatorics::lemma_choose3_closed(za + nz);
    crate::combinatorics::lemma_choose3_closed(za);
    crate::combinatorics::lemma_choose3_closed(nz);
    crate::combinatorics::lemma_choose2_closed(za + nz);
    crate::combinatorics::lemma_choose2_closed(za);
    crate::combinatorics::lemma_choose2_closed(nz);
    let (t, a3, b3) = (choose3(za + nz), choose3(za), choose3(nz));
    let (t2, a2, b2) = (choose2(za + nz), choose2(za), choose2(nz));
    assert(6 * t == 6 * (za * b2 + a2 * nz + a3 + b3)) by (nonlinear_arith)
        requires
            3 * t == t2 * (za + nz - 2),
            3 * a3 == a2 * (za - 2),
            3 * b3 == b2 * (nz - 2),
            2 * t2 == (za + nz) * (za + nz - 1),
            2 * a2 == za * (za - 1),
            2 * b2 == nz * (nz - 1),
    ;
}

/// For the `k`-th of the ascending zero positions `l` of a sequence of length
/// `len`, `zero_subsets_at` counts the 3-subsets of the later positions that
/// hold at least one zero: all of them but those drawn from non-zero positions.
pub proof fn lemma_zero_subsets_at(len: int, l: Seq<usize>, k: int)
    requires
        strictly_increasing(l),
        forall|x: int| 0 <= x < l.len() ==> l[x] < len,
        0 <= k < l.len(),
    ensures
        zero_subsets_at(len, l, k) == choose3(len - l[k] - 1) - choose3(len - l[k] - 1 - (l.len() - k
            - 1)),
{
    lemma_room_after(len, l, k, k);
    let za = l.len() - k - 1;
    let nz = len - l[k] - 1 - za;
    lemma_choose3_split(za, nz);
}

/// Entries of an ascending list grow by at least one per index.
proof fn lemma_gap(l: Seq<usize>, k: int, j: int)
    requires
        strictly_increasing(l),
        0 <= k <= j < l.len(),
    ensures
        l[k] + (j - k) <= l[j],
    decreases j - k,
{
    if j > k {
        lemma_gap(l, k, j - 1);
    }
}

/// In an ascending list of positions below `len`, the entries after index `k`
/// fit between `l[k]` and `len`.
proof fn lemma_room_after(len: int, l: Seq<usize>, k: int, j: int)
    requires
        strictly_increasing(l),
        forall|x: int| 0 <= x < l.len() ==> l[x] < len,
        0 <= k <= j < l.len(),
    ensures
        l[k] + (l.len() - 1 - k) < len,
{
    lemma_gap(l, k, l.len() - 1);
}

/// Counts, for each zero position of a sequence of length `len` (ascending in
/// `indexes`), the 3-subsets of later positions that hold at least one zero.
pub fn count_zeros(len: usize, indexes: &Vec<usize>) -> (r: u128)
    requires
        len <= MAX_LEN,
        strictly_increasing(indexes@),
        forall|x: int| 0 <= x < indexes@.len() ==> indexes@[x] < len,
    ensures
        r == zero_subsets(len as int, indexes@, indexes@.len() as int),
{
    let mut count: u128 = 0;
    let mut zeros: usize = 0;
    while zeros < indexes.len()
        invariant
            len <= MAX_LEN,
            strictly_increasing(indexes@),
            forall|x: int| 0 <= x < indexes@.len() ==> indexes@[x] < len,
            zeros <= indexes@.len(),
            count == zero_subsets(len as int, indexes@, zeros as int),
            count <= zeros * term_bound(),
        decreases indexes@.len() - zeros,
    {
        let i = indexes[zeros];
        proof {
            lemma_room_after(len as int, indexes@, zeros as int, zeros as int);
            assert(indexes@.len() <= MAX_LEN) by {
                if indexes@.len() > 0 {
                    lemma_room_after(len as int, indexes@, 0, 0);
                }
            }
        }
        let zeros_after = indexes.len() - zeros - 1;
        let non_zero_after = len - i - 1 - zeros_after;
        let za = zeros_after as u64;
        let nz = non_zero_after as u64;
        let c2_nz = pair_count(nz);
        let c2_za = pair_count(za);
        let c3_za = triple_count(za);
        proof {
            crate::combinatorics::lemma_choose2_closed(nz as int);
            crate::combinatorics::lemma_choose2_closed(za as int);
            lemma_choose3_le_cube(za as int);
            assert(za * c2_nz + c2_za * nz + c3_za <= (za + nz) * (za + nz) * (za + nz)) by (nonlinear_arith)
                requires
                    2 * c2_nz == nz * (nz - 1),
                    2 * c2_za == za * (za - 1),
                    c3_za <= za * za * za,
                    za >= 0,
                    nz >= 0,
                    c2_nz >= 0,
                    c2_za >= 0,
            ;
            lemma_cube_bound(za + nz, za + nz, za + nz);
            assert(za * c2_nz <= (za + nz) * (za + nz) * (za + nz) && c2_za * nz <= (za + nz) * (za
                + nz) * (za + nz)) by (nonlinear_arith)
                requires
                    za * c2_nz + c2_za * nz + c3_za <= (za + nz) * (za + nz) * (za + nz),
                    za * c2_nz >= 0,
                    c2_za * nz >= 0,
                    c3_za >= 0,
            ;
        }
        let t: u128 = (za as u128) * (c2_nz as u128) + (c2_za as u128) * (nz as u128) + c3_za;
        proof {
            lemma_sum_step(zeros as int, count as int, t as int);
        }
        count = count + t;
        zeros = zeros + 1;
    }
    count
}

/// Positions `x` with `p < x < hi` and `s[x] == v`.
pub open spec fn later_occurrences(s: Seq<u64>, v: u64, p: int, hi: int) -> nat
    decreases hi,
{
    if hi <= 0 {
        0
    } else {
        later_occurrences(s, v, p, hi - 1) + if s[hi - 1] == v && hi - 1 > p {
            1nat
        } else {
            0nat
        }
    }
}

/// The rank query on the list of positions of `v` counts its later occurrences.
pub proof fn lemma_greater_positions(s: Seq<u64>, v: u64, p: int, hi: int)
    requires
        0 <= hi <= s.len() <= usize::MAX,
    ensures
        greater(positions_of(s, v, hi), p) == later_occurrences(s, v, p, hi),
    decreases hi,
{
    if hi > 0 {
        lemma_greater_positions(s, v, p, hi - 1);
        if s[hi - 1] == v {
            let prev = positions_of(s, v, hi - 1);
            assert(prev.push((hi - 1) as usize).drop_last() =~= prev);
        }
    }
}

/// Room after `p`: the positions `p + 1 .. hi`, if any.
pub open spec fn room(p: int, hi: int) -> int {
    if hi - 1 - p > 0 {
        hi - 1 - p
    } else {
        0
    }
}

proof fn lemma_later_one(s: Seq<u64>, v1: u64, p: int, hi: int)
    requires
        hi <= s.len(),
    ensures
        later_occurrences(s, v1, p, hi) <= room(p, hi),
    decreases hi,
{
    if hi > 0 {
        lemma_later_one(s, v1, p, hi - 1);
    }
}

proof fn lemma_later_two(s: Seq<u64>, v1: u64, v2: u64, p: int, hi: int)
    requires
        hi <= s.len(),
        v1 != v2,
    ensures
        later_occurrences(s, v1, p, hi) + later_occurrences(s, v2, p, hi) <= room(p, hi),
    decreases hi,
{
    if hi > 0 {
        lemma_later_two(s, v1, v2, p, hi - 1);
    }
}

proof fn lemma_later_three(s: Seq<u64>, v1: u64, v2: u64, v3: u64, p: int, hi: int)
    requires
        hi <= s.len(),
        v1 != v2,
        v1 != v3,
        v2 != v3,
    ensures
        later_occurrences(s, v1, p, hi) + later_occurrences(s, v2, p, hi) + later_occurrences(
            s,
            v3,
            p,
            hi,
        ) <= room(p, hi),
    decreases hi,
{
    if hi > 0 {
        lemma_later_three(s, v1, v2, v3, p, hi - 1);
    }
}

/// Positions of a sequence shorter than 4.
pub open spec fn short_positions(s: Seq<u64>, l: Seq<usize>) -> bool {
    s.len() < 4 && forall|x: int| 0 <= x < l.len() ==> #[trigger] l[x] < s.len()
}

proof fn lemma_same_sum_short(s: Seq<u64>, l0: Seq<usize>, v1: u64)
    requires
        short_positions(s, l0),
    ensures
        same_factor_sum(l0, positions_of(s, v1, s.len() as int)) == 0,
    decreases l0.len(),
{
    if l0.len() > 0 {
        let n = s.len() as int;
        let p = l0.last() as int;
        lemma_same_sum_short(s, l0.drop_last(), v1);
        lemma_greater_positions(s, v1, p, n);
        lemma_later_one(s, v1, p, n);
        let g = greater(positions_of(s, v1, n), p) as int;
        assert(choose3(g) == 0) by {
            reveal_with_fuel(choose3, 3);
        }
    }
}

proof fn lemma_paired_sum_short(s: Seq<u64>, l0: Seq<usize>, v1: u64, v2: u64)
    requires
        short_positions(s, l0),
        v1 != v2,
    ensures
        paired_factor_sum(l0, positions_of(s, v1, s.len() as int), positions_of(s, v2, s.len() as int))
            == 0,
    decreases l0.len(),
{
    if l0.len() > 0 {
        let n = s.len() as int;
        let p = l0.last() as int;
        lemma_paired_sum_short(s, l0.drop_last(), v1, v2);
        lemma_greater_positions(s, v1, p, n);
        lemma_greater_positions(s, v2, p, n);
        lemma_later_two(s, v1, v2, p, n);
        let g1 = greater(positions_of(s, v1, n), p) as int;
        let g2 = greater(positions_of(s, v2, n), p) as int;
        reveal_with_fuel(choose2, 3);
        assert(choose2(g1) * g2 == 0) by (nonlinear_arith)
            requires
                g1 + g2 <= 2,
                g1 >= 0,
                g2 >= 0,
                g1 <= 1 ==> choose2(g1) == 0,
        ;
    }
}

proof fn lemma_distinct_sum_short(s: Seq<u64>, l0: Seq<usize>, v1: u64, v2: u64, v3: u64)
    requires
        short_positions(s, l0),
        v1 != v2,
        v1 != v3,
        v2 != v3,
    ensures
        distinct_factor_sum(
            l0,
            positions_of(s, v1, s.len() as int),
            positions_of(s, v2, s.len() as int),
            positions_of(s, v3, s.len() as int),
        ) == 0,
    decreases l0.len(),
{
    if l0.len() > 0 {
        let n = s.len() as int;
        let p = l0.last() as int;
        lemma_distinct_sum_short(s, l0.drop_last(), v1, v2, v3);
        lemma_greater_positions(s, v1, p, n);
        lemma_greater_positions(s, v2, p, n);
        lemma_greater_positions(s, v3, p, n);
        lemma_later_three(s, v1, v2, v3, p, n);
        let g1 = greater(positions_of(s, v1, n), p) as int;
        let g2 = greater(positions_of(s, v2, n), p) as int;
        let g3 = greater(positions_of(s, v3, n), p) as int;
        assert(g1 * g2 * g3 == 0) by (nonlinear_arith)
            requires
                g1 + g2 + g3 <= 2,
                g1 >= 0,
                g2 >= 0,
                g3 >= 0,
        ;
    }
}

proof fn lemma_zero_subsets_short(len: int, l: Seq<usize>, m: int)
    requires
        len < 4,
        m <= l.len(),
        strictly_increasing(l),
        forall|x: int| 0 <= x < l.len() ==> l[x] < len,
    ensures
        zero_subsets(len, l, m) == 0,
    decreases m,
{
    if m > 0 {
        lemma_zero_subsets_short(len, l, m - 1);
        let k = m - 1;
        lemma_room_after(len, l, k, k);
        let za = l.len() - k - 1;
        let nz = len - l[k] - 1 - za;
        reveal_with_fuel(choose2, 3);
        reveal_with_fuel(choose3, 3);
        assert(za * choose2(nz) + choose2(za) * nz + choose3(za) == 0) by (nonlinear_arith)
            requires
                za >= 0,
                nz >= 0,
                za + nz <= 2,
                nz <= 1 ==> choose2(nz) == 0,
                za <= 1 ==> choose2(za) == 0,
                za <= 2 ==> choose3(za) == 0,
        ;
    }
}

/// Relies on `itertools::Itertools::unique`: each value of `input` once.
#[verifier::external_body]
fn unique_values(input: &[u64]) -> (r: Vec<u64>)
    ensures
        r@.no_duplicates(),
        forall|x: u64| #[trigger] r@.contains(x) <==> input@.contains(x),
{
    input.iter().unique().copied().collect()
}

/// Every list of the index is ascending, with fewer than `n` entries, all
/// below `n`.
pub open spec fn lists_ok(index: Map<u64, Seq<usize>>, n: int) -> bool {
    forall|v: u64|
        #[trigger] index.contains_key(v) ==> strictly_increasing(index[v]) && index[v].len() <= n
            && forall|x: int| 0 <= x < index[v].len() ==> index[v][x] < n
}

/// The ascending positions of `v` in `s`.
pub open spec fn pos(s: Seq<u64>, v: int) -> Seq<usize> {
    positions_of(s, v as u64, s.len() as int)
}

/// For the factorization `v == d1 * d2 * d3`, `d3 = v / d1 / d2`, the ways to
/// pick, after each position of `v`, three positions holding `d1`, `d2` and
/// `d3`, as the number of equal factors asks.
pub open spec fn shape_count(s: Seq<u64>, v: int, d1: int, d2: int) -> nat {
    let d3 = v / d1 / d2;
    if d1 == d2 && d2 == d3 {
        same_factor_sum(pos(s, v), pos(s, d1))
    } else if d1 == d2 {
        paired_factor_sum(pos(s, v), pos(s, d1), pos(s, d3))
    } else if d1 == d3 {
        paired_factor_sum(pos(s, v), pos(s, d1), pos(s, d2))
    } else if d2 == d3 {
        paired_factor_sum(pos(s, v), pos(s, d2), pos(s, d1))
    } else {
        distinct_factor_sum(pos(s, v), pos(s, d1), pos(s, d2), pos(s, d3))
    }
}

/// Sum of `shape_count` over the factorizations `d1 >= d2 >= d3` of `v`.
pub open spec fn value_count(s: Seq<u64>, v: int) -> nat {
    range_sum(
        |d1: int| is_first_divider(v, d1),
        |d1: int| range_sum(|d2: int| is_second_divider(v, d1, d2), |d2: int| shape_count(s, v, d1, d2), d1 + 1),
        v + 1,
    )
}

/// What the zero positions add: for each of them, the 3-subsets of later
/// positions that hold a zero.
pub open spec fn zero_count(s: Seq<u64>) -> nat {
    zero_subsets(s.len() as int, pos(s, 0), pos(s, 0).len() as int)
}

/// The count of the sub-quadratic method: the zero positions, then each
/// non-zero value occurring in `s` with each of its factorizations.
pub open spec fn factorization_count(s: Seq<u64>) -> nat {
    zero_count(s) + range_sum(
        |v: int| s.contains(v as u64),
        |v: int| if v == 0 { 0 } else { value_count(s, v) },
        u64::MAX + 1,
    )
}

proof fn lemma_range_sum_zero(keep: spec_fn(int) -> bool, g: spec_fn(int) -> nat, hi: int)
    requires
        forall|x: int| 0 <= x < hi && #[trigger] keep(x) ==> g(x) == 0,
    ensures
        range_sum(keep, g, hi) == 0,
    decreases hi,
{
    if hi > 0 {
        lemma_range_sum_zero(keep, g, hi - 1);
    }
}

proof fn lemma_empty_lists(l0: Seq<usize>, l: Seq<usize>, e: Seq<usize>)
    requires
        e.len() == 0,
    ensures
        same_factor_sum(l0, e) == 0,
        forall|l2: Seq<usize>, l3: Seq<usize>| #[trigger] distinct_factor_sum(l0, e, l2, l3) == 0,
        forall|l1: Seq<usize>, l3: Seq<usize>| #[trigger] distinct_factor_sum(l0, l1, e, l3) == 0,
        forall|l1: Seq<usize>, l2: Seq<usize>| #[trigger] distinct_factor_sum(l0, l1, l2, e) == 0,
        forall|l2: Seq<usize>| #[trigger] paired_factor_sum(l0, e, l2) == 0,
        forall|l1: Seq<usize>| #[trigger] paired_factor_sum(l0, l1, e) == 0,
    decreases l0.len(),
{
    if l0.len() > 0 {
        lemma_empty_lists(l0.drop_last(), l, e);
        let p = l0.last() as int;
        assert(greater(e, p) == 0);
        assert(choose3(0) == 0);
        assert(choose2(0) == 0);
        assert forall|l2: Seq<usize>, l3: Seq<usize>| #[trigger] distinct_factor_sum(l0, e, l2, l3) == 0 by {
            assert(distinct_factor_sum(l0.drop_last(), e, l2, l3) == 0);
            assert(0 * greater(l2, p) * greater(l3, p) == 0) by (nonlinear_arith);
        }
        assert forall|l1: Seq<usize>, l3: Seq<usize>| #[trigger] distinct_factor_sum(l0, l1, e, l3) == 0 by {
            assert(distinct_factor_sum(l0.drop_last(), l1, e, l3) == 0);
            assert(greater(l1, p) * 0 * greater(l3, p) == 0) by (nonlinear_arith);
        }
        assert forall|l1: Seq<usize>, l2: Seq<usize>| #[trigger] distinct_factor_sum(l0, l1, l2, e) == 0 by {
            assert(distinct_factor_sum(l0.drop_last(), l1, l2, e) == 0);
            assert(greater(l1, p) * greater(l2, p) * 0 == 0) by (nonlinear_arith);
        }
        assert forall|l2: Seq<usize>| #[trigger] paired_factor_sum(l0, e, l2) == 0 by {
            assert(paired_factor_sum(l0.drop_last(), e, l2) == 0);
            assert(choose2(0) * greater(l2, p) == 0) by (nonlinear_arith)
                requires
                    choose2(0) == 0,
            ;
        }
        assert forall|l1: Seq<usize>| #[trigger] paired_factor_sum(l0, l1, e) == 0 by {
            assert(paired_factor_sum(l0.drop_last(), l1, e) == 0);
            assert(choose2(greater(l1, p) as int) * 0 == 0) by (nonlinear_arith);
        }
    }
}

/// Counts the quadruples `i0 < i1 < i2 < i3` with
/// `input[i0] == input[i1] * input[i2] * input[i3]` from the factorizations of
/// each distinct value into three factors: the zero positions in closed form,
/// then, for each non-zero value and each of its factorizations
/// `d1 >= d2 >= d3`, rank queries on the positions of the factors. A total
/// beyond `u64::MAX` is reported as `u64::MAX`.
pub fn subquadratic_algorithm(input: &[u64]) -> (r: u64)
    requires
        input@.len() <= MAX_LEN,
    ensures
        r == capped(factorization_count(input@) as int),
        input@.len() < 4 ==> r == 0,
{
    let ghost s = input@;
    let n = input.len();
    let indexes = index_positions(input);
    proof {
        assert forall|v: u64| #[trigger] indexes@.contains_key(v) implies strictly_increasing(indexes@[v])
            && indexes@[v].len() <= n && forall|x: int| 0 <= x < indexes@[v].len() ==> indexes@[v][x]
            < n by {
            lemma_positions_of(input@, v, n as int);
        }
    }
    let mut count: u64 = 0;
    match indexes.get(0) {
        Some(zeros) => {
            let c = count_zeros(n, zeros);
            proof {
                if n < 4 {
                    lemma_zero_subsets_short(n as int, zeros@, zeros@.len() as int);
                }
            }
            count = add_capped(count, c);
        },
        None => {
            assert(pos(s, 0).len() == 0);
        },
    }
    let ghost gv = |v: int| if v == 0 { 0 } else { value_count(s, v) };
    let values = unique_values(input);
    let mut u: usize = 0;
    while u < values.len()
        invariant
            s == input@,
            n == input@.len() <= MAX_LEN,
            indexes.wf(),
            lists_ok(indexes@, n as int),
            forall|v: u64| #[trigger] indexes@.contains_key(v) ==> indexes@[v] == positions_of(input@, v, n as int),
            forall|v: u64| #[trigger] indexes@.contains_key(v) <==> positions_of(input@, v, n as int).len() > 0,
            forall|x: u64| #[trigger] values@.contains(x) <==> input@.contains(x),
            n < 4 ==> count == 0,
            u <= values@.len(),
            gv == (|v: int| if v == 0 { 0 } else { value_count(s, v) }),
            count == capped((zero_count(s) + list_sum(values@.take(u as int), gv)) as int),
        decreases values@.len() - u,
    {
        let value = values[u];
        let ghost base = zero_count(s) + list_sum(values@.take(u as int), gv);
        proof {
            assert(values@.take(u as int + 1).drop_last() =~= values@.take(u as int));
        }
        if value != 0 {
            let factors = factorize(value);
            let first_dividers = find_first_dividers(value, &factors);
            let ghost v = value as int;
            let ghost g1 = |d1: int|
                range_sum(|d2: int| is_second_divider(v, d1, d2), |d2: int| shape_count(s, v, d1, d2), d1 + 1);
            match indexes.get(value) {
                Some(l0) => {
                    let mut a: usize = 0;
                    while a < first_dividers.len()
                        invariant
                            s == input@,
                            n == input@.len() <= MAX_LEN,
                            value >= 1,
                            v == value,
                            indexes.wf(),
                            lists_ok(indexes@, n as int),
                            forall|v: u64| #[trigger] indexes@.contains_key(v) ==> indexes@[v] == positions_of(input@, v, n as int),
                            forall|v: u64| #[trigger] indexes@.contains_key(v) <==> positions_of(input@, v, n as int).len() > 0,
                            n < 4 ==> count == 0,
                            prime_factors(factors@),
                            factor_product(factors@) == value,
                            indexes@.contains_key(value) && l0@ == indexes@[value],
                            forall|k: int|
                                0 <= k < first_dividers@.len() ==> is_first_divider(
                                    value as int,
                                    #[trigger] first_dividers@[k] as int,
                                ),
                            a <= first_dividers@.len(),
                            g1 == (|d1: int|
                                range_sum(|d2: int| is_second_divider(v, d1, d2), |d2: int| shape_count(s, v, d1, d2), d1 + 1)),
                            count == capped((base + list_sum(first_dividers@.take(a as int), g1)) as int),
                        decreases first_dividers@.len() - a,
                    {
                        let div1 = first_dividers[a];
                        let ghost d1 = div1 as int;
                        let ghost g2 = |d2: int| shape_count(s, v, d1, d2);
                        let ghost keep2 = |d2: int| is_second_divider(v, d1, d2);
                        let ghost mid = base + list_sum(first_dividers@.take(a as int), g1);
                        proof {
                            assert(first_dividers@.take(a as int + 1).drop_last() =~= first_dividers@.take(a as int));
                        }
                        match indexes.get(div1) {
                            Some(l1) => {
                                let value2 = value / div1;
                                let seconds = find_second_dividers(value, div1, &factors);
                                let mut b: usize = 0;
                                while b < seconds.len()
                                    invariant
                                        s == input@,
                                        n == input@.len() <= MAX_LEN,
                                        v == value,
                                        d1 == div1,
                                        value2 == value / div1,
                                        indexes.wf(),
                                        lists_ok(indexes@, n as int),
                                        forall|v: u64| #[trigger] indexes@.contains_key(v) ==> indexes@[v] == positions_of(input@, v, n as int),
                                        forall|v: u64| #[trigger] indexes@.contains_key(v) <==> positions_of(input@, v, n as int).len() > 0,
                                        n < 4 ==> count == 0,
                                        indexes@.contains_key(value) && l0@ == indexes@[value],
                                        indexes@.contains_key(div1) && l1@ == indexes@[div1],
                                        forall|k: int|
                                            0 <= k < seconds@.len() ==> #[trigger] seconds@[k] >= 1,
                                        b <= seconds@.len(),
                                        g2 == (|d2: int| shape_count(s, v, d1, d2)),
                                        count == capped((mid + list_sum(seconds@.take(b as int), g2)) as int),
                                    decreases seconds@.len() - b,
                                {
                                    let div2 = seconds[b];
                                    let div3 = value2 / div2;
                                    proof {
                                        assert(seconds@.take(b as int + 1).drop_last() =~= seconds@.take(b as int));
                                        assert(div3 == v / d1 / (div2 as int));
                                    }
                                    match indexes.get(div2) {
                                        Some(l2) => {
                                            match indexes.get(div3) {
                                                Some(l3) => {
                                                    let c = if div1 == div2 && div2 == div3 {
                                                        count_elements_2((l0, l1))
                                                    } else if div1 == div2 {
                                                        count_elements_3((l0, l1, l3))
                                                    } else if div1 == div3 {
                                                        count_elements_3((l0, l1, l2))
                                                    } else if div2 == div3 {
                                                        count_elements_3((l0, l2, l1))
                                                    } else {
                                                        count_elements_4((l0, l1, l2, l3))
                                                    };
                                                    proof {
                                                        assert(c == g2(div2 as int));
                                                        if n < 4 {
                                                            assert(short_positions(s, l0@));
                                                            if div1 == div2 && div2 == div3 {
                                                                lemma_same_sum_short(s, l0@, div1);
                                                            } else if div1 == div2 {
                                                                lemma_paired_sum_short(s, l0@, div1, div3);
                                                            } else if div1 == div3 {
                                                                lemma_paired_sum_short(s, l0@, div1, div2);
                                                            } else if div2 == div3 {
                                                                lemma_paired_sum_short(s, l0@, div2, div1);
                                                            } else {
                                                                lemma_distinct_sum_short(s, l0@, div1, div2, div3);
                                                            }
                                                        }
                                                    }
                                                    count = add_capped(count, c);
                                                },
                                                None => {
                                                    proof {
                                                        lemma_empty_lists(pos(s, v), pos(s, v), pos(s, div3 as int));
                                                        assert(g2(div2 as int) == 0);
                                                    }
                                                },
                                            }
                                        },
                                        None => {
                                            proof {
                                                lemma_empty_lists(pos(s, v), pos(s, v), pos(s, div2 as int));
                                                assert(g2(div2 as int) == 0);
                                            }
                                        },
                                    }
                                    b = b + 1;
                                }
                                proof {
                                    assert(seconds@.take(b as int) =~= seconds@);
                                    assert forall|k: int| 0 <= k < seconds@.len() implies 0 <= #[trigger] seconds@[k] < d1 + 1
                                        && keep2(seconds@[k] as int) by {
                                        assert(is_second_divider(v, d1, seconds@[k] as int));
                                    }
                                    assert forall|x: int| 0 <= x < d1 + 1 && #[trigger] keep2(x) implies seconds@.contains(x as u64) by {
                                        assert(is_second_divider(v, d1, (x as u64) as int));
                                    }
                                    lemma_list_sum_range(seconds@, keep2, g2, d1 + 1);
                                }
                            },
                            None => {
                                proof {
                                    assert forall|x: int| 0 <= x < d1 + 1 && #[trigger] keep2(x) implies g2(x) == 0 by {
                                        lemma_empty_lists(pos(s, v), pos(s, v), pos(s, d1));
                                    }
                                    lemma_range_sum_zero(keep2, g2, d1 + 1);
                                }
                            },
                        }
                        a = a + 1;
                    }
                    proof {
                        let keep1 = |d1: int| is_first_divider(v, d1);
                        assert(first_dividers@.take(a as int) =~= first_dividers@);
                        assert forall|k: int| 0 <= k < first_dividers@.len() implies 0 <= #[trigger] first_dividers@[k]
                            < v + 1 && keep1(first_dividers@[k] as int) by {
                            let d = first_dividers@[k] as int;
                            assert(is_first_divider(v, d));
                            assert(d <= v) by (nonlinear_arith)
                                requires
                                    d >= 1,
                                    v % d == 0,
                                    v >= 1,
                            ;
                        }
                        assert forall|x: int| 0 <= x < v + 1 && #[trigger] keep1(x) implies first_dividers@.contains(x as u64) by {
                            assert(is_first_divider(v, (x as u64) as int));
                        }
                        lemma_list_sum_range(first_dividers@, keep1, g1, v + 1);
                        assert(gv(v) == value_count(s, v));
                    }
                },
                None => {
                    proof {
                        assert(values@[u as int] == value);
                        assert(values@.contains(value));
                        assert(input@.contains(value));
                        let i = choose|i: int| 0 <= i < input@.len() && input@[i] == value;
                        lemma_positions_of(input@, value, n as int);
                    }
                },
            }
        }
        u = u + 1;
    }
    proof {
        let keepv = |v: int| s.contains(v as u64);
        assert(values@.take(u as int) =~= values@);
        assert forall|k: int| 0 <= k < values@.len() implies 0 <= #[trigger] values@[k] < u64::MAX + 1
            && keepv(values@[k] as int) by {
            assert(values@.contains(values@[k]));
        }
        assert forall|x: int| 0 <= x < u64::MAX + 1 && #[trigger] keepv(x) implies values@.contains(x as u64) by {}
        lemma_list_sum_range(values@, keepv, gv, u64::MAX + 1);
    }
    count
}

} // verus!
