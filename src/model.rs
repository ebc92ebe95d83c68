//! The mathematical count that both counting algorithms compute.
//!
//! A quadruple is `j < a < b < c` with `s[j] == s[a] * s[b] * s[c]` over the
//! integers. The three factor positions are unordered, so listing them in
//! increasing order counts every quadruple once.
use vstd::prelude::*;

verus! {

/// Number of positions `j < hi` holding the value `v`.
pub open spec fn occurrences(s: Seq<u64>, v: int, hi: int) -> nat
    decreases hi,
{
    if hi <= 0 {
        0
    } else {
        occurrences(s, v, hi - 1) + if s[hi - 1] as int == v {
            1nat
        } else {
            0nat
        }
    }
}

/// Number of pairs `j < a < b` with `s[j] == r * s[a]`.
pub open spec fn ratio_pairs(s: Seq<u64>, r: int, b: int) -> nat
    decreases b,
{
    if b <= 0 {
        0
    } else {
        ratio_pairs(s, r, b - 1) + occurrences(s, r * s[b - 1], b - 1)
    }
}

/// Number of quadruples `j < a < b < c` with `c < hi`, for a fixed `b`.
pub open spec fn quadruples_at(s: Seq<u64>, b: int, hi: int) -> nat
    decreases hi - b,
{
    if hi <= b + 1 {
        0
    } else {
        quadruples_at(s, b, hi - 1) + ratio_pairs(s, s[b] * s[hi - 1], b)
    }
}

/// Number of quadruples `j < a < b < c` with `b < m`.
pub open spec fn quadruples_upto(s: Seq<u64>, m: int) -> nat
    decreases m,
{
    if m <= 0 {
        0
    } else {
        quadruples_upto(s, m - 1) + quadruples_at(s, m - 1, s.len() as int)
    }
}

/// Number of quadruples of positions `i0 < i1 < i2 < i3` of `s` with
/// `s[i0] == s[i1] * s[i2] * s[i3]`.
pub open spec fn count_quadruples(s: Seq<u64>) -> nat {
    quadruples_upto(s, s.len() as int)
}

/// No value of the sequence exceeds `u64::MAX`, so a larger target never occurs.
pub proof fn lemma_occurrences_too_large(s: Seq<u64>, v: int, hi: int)
    requires
        v > u64::MAX,
        hi <= s.len(),
    ensures
        occurrences(s, v, hi) == 0,
    decreases hi,
{
    if hi > 0 {
        lemma_occurrences_too_large(s, v, hi - 1);
    }
}

/// At most `hi` positions lie below `hi`.
pub proof fn lemma_occurrences_bound(s: Seq<u64>, v: int, hi: int)
    requires
        hi >= 0,
    ensures
        occurrences(s, v, hi) <= hi,
    decreases hi,
{
    if hi > 0 {
        lemma_occurrences_bound(s, v, hi - 1);
    }
}

/// A sequence of length below four holds no quadruple.
pub proof fn lemma_short_sequences(s: Seq<u64>)
    requires
        s.len() < 4,
    ensures
        count_quadruples(s) == 0,
{
    let n = s.len() as int;
    assert forall|b: int, r: int| 0 <= b < 2 implies ratio_pairs(s, r, b) == 0 by {
        lemma_ratio_pairs_short(s, r, b);
    }
    assert forall|b: int, hi: int| 0 <= b < n && hi <= n implies quadruples_at(s, b, hi) == 0 by {
        lemma_quadruples_at_short(s, b, hi);
    }
    lemma_quadruples_upto_zero(s, n);
}

proof fn lemma_ratio_pairs_short(s: Seq<u64>, r: int, b: int)
    requires
        0 <= b < 2,
    ensures
        ratio_pairs(s, r, b) == 0,
{
    reveal_with_fuel(ratio_pairs, 3);
    reveal_with_fuel(occurrences, 3);
}

proof fn lemma_quadruples_at_short(s: Seq<u64>, b: int, hi: int)
    requires
        0 <= b < s.len() < 4,
        hi <= s.len(),
        forall|b2: int, r: int| 0 <= b2 < 2 ==> ratio_pairs(s, r, b2) == 0,
    ensures
        quadruples_at(s, b, hi) == 0,
    decreases hi,
{
    if hi > b + 1 {
        lemma_quadruples_at_short(s, b, hi - 1);
        assert(b < 2);
    }
}

proof fn lemma_quadruples_upto_zero(s: Seq<u64>, m: int)
    requires
        m <= s.len(),
        forall|b: int, hi: int| 0 <= b < s.len() && hi <= s.len() ==> quadruples_at(s, b, hi) == 0,
    ensures
        quadruples_upto(s, m) == 0,
    decreases m,
{
    if m > 0 {
        lemma_quadruples_upto_zero(s, m - 1);
    }
}

} // verus!
