//! Euclid's lemma and what follows from it for products of prime powers.
use vstd::prelude::*;
use vstd::arithmetic::div_mod::{
    lemma_fundamental_div_mod, lemma_mod_multiples_basic, lemma_mul_mod_noop_left,
};
use vstd::arithmetic::power::{lemma_pow_adds, lemma_pow_positive, pow};
use crate::divisors::{exponents_within, is_prime, power_product, prefix_product, prime_factors};

verus! {

proof fn lemma_euclid_below(p: int, c: int, b: int)
    requires
        is_prime(p),
        1 <= c < p,
        (c * b) % p == 0,
    ensures
        b % p == 0,
    decreases c,
{
    if c > 1 {
        let t = p / c;
        let r = p % c;
        lemma_fundamental_div_mod(p, c);
        assert(p % c != 0);
        let m = (c * b) / p;
        lemma_fundamental_div_mod(c * b, p);
        let k = b - t * m;
        assert(r * b == k * p) by (nonlinear_arith)
            requires
                p == c * t + r,
                c * b == p * m + 0,
                k == b - t * m,
        ;
        lemma_mod_multiples_basic(k, p);
        lemma_euclid_below(p, r, b);
    } else {
        assert(c * b == b) by (nonlinear_arith)
            requires
                c == 1,
        ;
    }
}

/// Euclid's lemma: a prime that divides a product of two integers divides
/// one of them.
pub proof fn lemma_euclid(p: int, a: int, b: int)
    requires
        is_prime(p),
        a % p != 0,
        (a * b) % p == 0,
    ensures
        b % p == 0,
{
    lemma_mul_mod_noop_left(a, b, p);
    lemma_euclid_below(p, a % p, b);
}

/// A prime that divides neither of two integers does not divide their product.
pub proof fn lemma_prime_not_divides_product(q: int, y: int, z: int)
    requires
        is_prime(q),
        y % q != 0,
        z % q != 0,
    ensures
        (y * z) % q != 0,
{
    if (y * z) % q == 0 {
        lemma_euclid(q, y, z);
    }
}

/// A prime does not divide a power of another prime.
pub proof fn lemma_prime_power_coprime(q: int, p: int, j: nat)
    requires
        is_prime(q),
        is_prime(p),
        q != p,
    ensures
        pow(p, j) % q != 0,
    decreases j,
{
    if j == 0 {
        assert(pow(p, 0) == 1) by {
            reveal(pow);
        }
        assert(1int % q == 1) by (nonlinear_arith)
            requires
                q >= 2,
        ;
    } else {
        lemma_prime_power_coprime(q, p, (j - 1) as nat);
        assert(pow(p, j) == p * pow(p, (j - 1) as nat)) by {
            reveal(pow);
        }
        if q < p {
            assert(p % q != 0);
        } else {
            assert(p % q == p) by (nonlinear_arith)
                requires
                    0 <= p < q,
            ;
        }
        lemma_prime_not_divides_product(q, p, pow(p, (j - 1) as nat));
    }
}

/// A positive power of `p` is a multiple of `p`.
pub proof fn lemma_power_multiple(y: int, p: int, j: nat)
    requires
        p >= 1,
        j >= 1,
    ensures
        (y * pow(p, j)) % p == 0,
{
    assert(pow(p, j) == p * pow(p, (j - 1) as nat)) by {
        reveal(pow);
    }
    assert(y * pow(p, j) == (y * pow(p, (j - 1) as nat)) * p) by (nonlinear_arith)
        requires
            pow(p, j) == p * pow(p, (j - 1) as nat),
    ;
    lemma_mod_multiples_basic(y * pow(p, (j - 1) as nat), p);
}

/// Two numbers not divisible by `p`, times different powers of `p`, differ.
pub proof fn lemma_valuation_distinct(p: int, y1: int, j1: nat, y2: int, j2: nat)
    requires
        p >= 2,
        y1 % p != 0,
        j1 < j2,
    ensures
        y1 * pow(p, j1) != y2 * pow(p, j2),
{
    let d = (j2 - j1) as nat;
    lemma_pow_adds(p, j1, d);
    lemma_pow_positive(p, j1);
    let a = pow(p, j1);
    let b = pow(p, d);
    if y1 * a == y2 * pow(p, j2) {
        assert(y1 == y2 * b) by (nonlinear_arith)
            requires
                y1 * a == y2 * (a * b),
                a > 0,
        ;
        lemma_power_multiple(y2, p, d);
    }
}

/// Multiplying by the same positive number keeps different numbers different.
pub proof fn lemma_cancel(y1: int, y2: int, c: int)
    requires
        c > 0,
        y1 != y2,
    ensures
        y1 * c != y2 * c,
{
    assert(y1 * c != y2 * c) by (nonlinear_arith)
        requires
            c > 0,
            y1 != y2,
    ;
}

/// Divides out `p^n` from `y * k == a * p^n` when `p` does not divide `y`.
proof fn lemma_strip_power(p: int, y: int, k: int, a: int, n: nat) -> (k2: int)
    requires
        is_prime(p),
        y % p != 0,
        y * k == a * pow(p, n),
    ensures
        y * k2 == a,
    decreases n,
{
    if n == 0 {
        assert(pow(p, 0) == 1) by {
            reveal(pow);
        }
        k
    } else {
        assert(pow(p, n) == p * pow(p, (n - 1) as nat)) by {
            reveal(pow);
        }
        let b = a * pow(p, (n - 1) as nat);
        assert(y * k == b * p) by (nonlinear_arith)
            requires
                y * k == a * pow(p, n),
                pow(p, n) == p * pow(p, (n - 1) as nat),
                b == a * pow(p, (n - 1) as nat),
        ;
        lemma_mod_multiples_basic(b, p);
        lemma_euclid(p, y, k);
        let k1 = k / p;
        lemma_fundamental_div_mod(k, p);
        assert(y * k1 == b) by (nonlinear_arith)
            requires
                y * k == b * p,
                k == p * k1 + 0,
                p >= 2,
        ;
        lemma_strip_power(p, y, k1, a, (n - 1) as nat)
    }
}

/// The largest `g <= e` with `p^g` dividing `x`.
pub open spec fn valuation(x: int, p: int, e: nat) -> nat
    decreases e,
{
    if e == 0 {
        0
    } else if x % pow(p, e) == 0 {
        e
    } else {
        valuation(x, p, (e - 1) as nat)
    }
}

proof fn lemma_valuation(x: int, p: int, e: nat)
    requires
        p >= 2,
        x >= 1,
    ensures
        valuation(x, p, e) <= e,
        x % pow(p, valuation(x, p, e)) == 0,
        valuation(x, p, e) < e ==> x % pow(p, valuation(x, p, e) + 1) != 0,
    decreases e,
{
    if e == 0 {
        assert(pow(p, 0) == 1) by {
            reveal(pow);
        }
        assert(x % 1 == 0) by (nonlinear_arith);
    } else if x % pow(p, e) != 0 {
        lemma_valuation(x, p, (e - 1) as nat);
    }
}

pub proof fn lemma_power_product_prefix(factors: Seq<(u64, usize)>, a: Seq<nat>, b: Seq<nat>, m: int)
    requires
        forall|i: int| 0 <= i < m ==> a[i] == b[i],
    ensures
        power_product(factors, a, m) == power_product(factors, b, m),
    decreases m,
{
    if m > 0 {
        lemma_power_product_prefix(factors, a, b, m - 1);
    }
}

/// Every positive divisor of a product of prime powers is a product of the
/// same primes with exponents at most those of the product.
pub proof fn lemma_divisor_exponents(factors: Seq<(u64, usize)>, m: int, x: int) -> (exps: Seq<nat>)
    requires
        prime_factors(factors),
        0 <= m <= factors.len(),
        x >= 1,
        prefix_product(factors, m) % x == 0,
    ensures
        exponents_within(factors, exps, m),
        power_product(factors, exps, m) == x,
    decreases m,
{
    if m == 0 {
        assert(x == 1) by (nonlinear_arith)
            requires
                1int % x == 0,
                x >= 1,
        ;
        Seq::empty()
    } else {
        let p = factors[m - 1].0 as int;
        let e = factors[m - 1].1 as nat;
        assert(is_prime(p));
        let rest = prefix_product(factors, m - 1);
        let whole = prefix_product(factors, m);
        lemma_valuation(x, p, e);
        let g = valuation(x, p, e);
        let pg = pow(p, g);
        lemma_pow_positive(p, g);
        let y = x / pg;
        lemma_fundamental_div_mod(x, pg);
        assert(x == pg * y);
        let k = whole / x;
        lemma_fundamental_div_mod(whole, x);
        lemma_pow_adds(p, g, (e - g) as nat);
        let pr = pow(p, (e - g) as nat);
        assert(y * k == rest * pr) by (nonlinear_arith)
            requires
                whole == x * k + 0,
                whole == rest * pow(p, e),
                pow(p, e) == pg * pr,
                x == pg * y,
                pg > 0,
        ;
        lemma_pow_positive(p, e);
        assert(y >= 1) by (nonlinear_arith)
            requires
                x == pg * y,
                x >= 1,
                pg > 0,
        ;
        let k2 = if g < e {
            assert(y % p != 0) by {
                if y % p == 0 {
                    let y1 = y / p;
                    lemma_fundamental_div_mod(y, p);
                    assert(pow(p, g + 1) == p * pg) by {
                        reveal(pow);
                    }
                    assert(x == pow(p, g + 1) * y1) by (nonlinear_arith)
                        requires
                            x == pg * y,
                            y == p * y1 + 0,
                            pow(p, g + 1) == p * pg,
                    ;
                    lemma_pow_positive(p, g + 1);
                    lemma_mod_multiples_basic(y1, pow(p, g + 1));
                    assert(x % pow(p, g + 1) == 0) by (nonlinear_arith)
                        requires
                            x == pow(p, g + 1) * y1,
                            (y1 * pow(p, g + 1)) % pow(p, g + 1) == 0,
                    ;
                }
            }
            lemma_strip_power(p, y, k, rest, (e - g) as nat)
        } else {
            assert(pr == 1) by {
                reveal(pow);
            }
            k
        };
        assert(rest % y == 0) by {
            assert(rest == y * k2);
            lemma_mod_multiples_basic(k2, y);
            assert(k2 * y == y * k2) by (nonlinear_arith);
        }
        let sub = lemma_divisor_exponents(factors, m - 1, y);
        let exps = sub.push(g);
        lemma_power_product_prefix(factors, exps, sub, m - 1);
        assert(power_product(factors, exps, m) == y * pg) by (nonlinear_arith)
            requires
                power_product(factors, exps, m) == power_product(factors, exps, m - 1) * pow(p, exps[m - 1]),
                power_product(factors, exps, m - 1) == y,
                exps[m - 1] == g,
                pg == pow(p, g),
        ;
        assert(y * pg == x) by (nonlinear_arith)
            requires
                x == pg * y,
        ;
        assert(exponents_within(factors, exps, m));
        exps
    }
}

/// A product of powers of primes is positive.
pub proof fn lemma_power_product_positive(factors: Seq<(u64, usize)>, exps: Seq<nat>, m: int)
    requires
        prime_factors(factors),
        m <= factors.len(),
    ensures
        power_product(factors, exps, m) >= 1,
    decreases m,
{
    if m > 0 {
        lemma_power_product_positive(factors, exps, m - 1);
        let p = factors[m - 1].0 as int;
        assert(is_prime(p));
        lemma_pow_positive(p, exps[m - 1]);
        let a = power_product(factors, exps, m - 1);
        let b = pow(p, exps[m - 1]);
        assert(a * b >= 1) by (nonlinear_arith)
            requires
                a >= 1,
                b >= 1,
        ;
    }
}

/// One more pair: the product over `f + 1` pairs is that over `f` pairs times
/// `p^k`, with `k` the exponent of pair `f`; the first `f` exponents alone are
/// within bounds and give the same product over `f` pairs.
pub proof fn lemma_extend_exponents(factors: Seq<(u64, usize)>, exps: Seq<nat>, f: int)
    requires
        prime_factors(factors),
        0 <= f < factors.len(),
        exponents_within(factors, exps, f + 1),
    ensures
        exponents_within(factors, exps.take(f), f),
        power_product(factors, exps.take(f), f) == power_product(factors, exps, f),
        power_product(factors, exps, f + 1) == power_product(factors, exps, f) * pow(
            factors[f].0 as int,
            exps[f],
        ),
        power_product(factors, exps, f) >= 1,
        power_product(factors, exps, f + 1) >= pow(factors[f].0 as int, exps[f]),
{
    let sub = exps.take(f);
    assert forall|i: int| 0 <= i < f implies #[trigger] sub[i] <= factors[i].1 by {
        assert(sub[i] == exps[i]);
        assert(exps[i] <= factors[i].1);
    }
    lemma_power_product_prefix(factors, sub, exps, f);
    lemma_power_product_positive(factors, exps, f);
    assert(is_prime(factors[f].0 as int));
    lemma_pow_positive(factors[f].0 as int, exps[f]);
    let a = power_product(factors, exps, f);
    let b = pow(factors[f].0 as int, exps[f]);
    assert(a * b >= b) by (nonlinear_arith)
        requires
            a >= 1,
            b >= 0,
    ;
    assert(is_prime(factors[f].0 as int));
    lemma_pow_positive(factors[f].0 as int, exps[f]);
}

/// A value kept in a list stays in it when another is appended.
pub proof fn lemma_push_keeps(s: Seq<u64>, v: u64)
    ensures
        forall|x: u64| s.contains(x) ==> #[trigger] s.push(v).contains(x),
        s.push(v).contains(v),
{
    assert forall|x: u64| s.contains(x) implies #[trigger] s.push(v).contains(x) by {
        let i = choose|i: int| 0 <= i < s.len() && s[i] == x;
        assert(s.push(v)[i] == x);
    }
    assert(s.push(v)[s.len() as int] == v);
}

/// Taking out the power of the prime at index `i`: the rest, with exponent 0
/// there, times `p_i^{exps[i]}`.
pub proof fn lemma_split_out(factors: Seq<(u64, usize)>, exps: Seq<nat>, m: int, i: int)
    requires
        0 <= i < m <= exps.len(),
    ensures
        power_product(factors, exps, m) == power_product(factors, exps.update(i, 0), m) * pow(
            factors[i].0 as int,
            exps[i],
        ),
    decreases m,
{
    let upd = exps.update(i, 0);
    let pi = pow(factors[i].0 as int, exps[i]);
    if m - 1 == i {
        lemma_power_product_prefix(factors, upd, exps, m - 1);
        assert(pow(factors[i].0 as int, 0) == 1) by {
            reveal(pow);
        }
        assert(upd[i] == 0);
        let a = power_product(factors, upd, m - 1);
        assert(a * 1 == a) by (nonlinear_arith);
    } else {
        lemma_split_out(factors, exps, m - 1, i);
        assert(upd[m - 1] == exps[m - 1]);
        let a = power_product(factors, upd, m - 1);
        let b = pow(factors[m - 1].0 as int, exps[m - 1]);
        assert((a * pi) * b == (a * b) * pi) by (nonlinear_arith);
    }
}

/// A product of powers with exponent 0 at index `i` is free of the prime there.
pub proof fn lemma_free_of_prime(factors: Seq<(u64, usize)>, exps: Seq<nat>, m: int, i: int)
    requires
        prime_factors(factors),
        0 <= i < factors.len(),
        m <= factors.len(),
        i < m ==> exps[i] == 0,
    ensures
        power_product(factors, exps, m) % (factors[i].0 as int) != 0,
    decreases m,
{
    let q = factors[i].0 as int;
    assert(is_prime(q));
    if m <= 0 {
        assert(1int % q == 1) by (nonlinear_arith)
            requires
                q >= 2,
        ;
    } else {
        lemma_free_of_prime(factors, exps, m - 1, i);
        let j = m - 1;
        let pj = factors[j].0 as int;
        assert(is_prime(pj));
        if j == i {
            assert(pow(pj, 0) == 1) by {
                reveal(pow);
            }
            let a = power_product(factors, exps, m - 1);
            assert(a * 1 == a) by (nonlinear_arith);
        } else {
            if j < i {
                assert(factors[j].0 < factors[i].0);
            } else {
                assert(factors[i].0 < factors[j].0);
            }
            lemma_prime_power_coprime(q, pj, exps[j]);
            lemma_prime_not_divides_product(q, power_product(factors, exps, m - 1), pow(pj, exps[j]));
        }
    }
}

/// In a product of powers of the primes of `factors`, the power `p_i^k`
/// divides exactly when `k` is at most the exponent of `p_i`.
pub proof fn lemma_power_divides(factors: Seq<(u64, usize)>, exps: Seq<nat>, m: int, i: int, k: nat)
    requires
        prime_factors(factors),
        0 <= i < m <= factors.len(),
        exps.len() >= m,
    ensures
        power_product(factors, exps, m) % pow(factors[i].0 as int, k) == 0 <==> k <= exps[i],
{
    let p = factors[i].0 as int;
    assert(is_prime(p));
    let a = exps[i];
    let upd = exps.update(i, 0);
    lemma_split_out(factors, exps, m, i);
    lemma_free_of_prime(factors, upd, m, i);
    let r = power_product(factors, upd, m);
    let d = power_product(factors, exps, m);
    lemma_pow_positive(p, k);
    lemma_pow_positive(p, a);
    if k <= a {
        lemma_pow_adds(p, k, (a - k) as nat);
        let c = r * pow(p, (a - k) as nat);
        assert(d == c * pow(p, k)) by (nonlinear_arith)
            requires
                d == r * pow(p, a),
                pow(p, a) == pow(p, k) * pow(p, (a - k) as nat),
                c == r * pow(p, (a - k) as nat),
        ;
        lemma_mod_multiples_basic(c, pow(p, k));
    } else {
        if d % pow(p, k) == 0 {
            let w = d / pow(p, k);
            lemma_fundamental_div_mod(d, pow(p, k));
            lemma_pow_adds(p, a, (k - a) as nat);
            let pa = pow(p, a);
            let pd = pow(p, (k - a) as nat);
            assert(r == w * pd) by (nonlinear_arith)
                requires
                    d == pow(p, k) * w + 0,
                    d == r * pa,
                    pow(p, k) == pa * pd,
                    pa > 0,
            ;
            lemma_power_multiple(w, p, (k - a) as nat);
        }
    }
}

/// Multiplying products of powers adds the exponents.
pub proof fn lemma_power_product_mul(factors: Seq<(u64, usize)>, a: Seq<nat>, b: Seq<nat>, c: Seq<nat>, m: int)
    requires
        forall|i: int| 0 <= i < m ==> #[trigger] c[i] == a[i] + b[i],
    ensures
        power_product(factors, a, m) * power_product(factors, b, m) == power_product(factors, c, m),
    decreases m,
{
    if m > 0 {
        lemma_power_product_mul(factors, a, b, c, m - 1);
        let p = factors[m - 1].0 as int;
        lemma_pow_adds(p, a[m - 1], b[m - 1]);
        assert(c[m - 1] == a[m - 1] + b[m - 1]);
        let (x, y, z) = (power_product(factors, a, m - 1), power_product(factors, b, m - 1), power_product(factors, c, m - 1));
        let (pa, pb) = (pow(p, a[m - 1]), pow(p, b[m - 1]));
        assert((x * pa) * (y * pb) == (x * y) * (pa * pb)) by (nonlinear_arith);
    }
}

} // verus!
