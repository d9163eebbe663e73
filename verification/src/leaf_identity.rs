//! Why the Lagarias-Miller-Odlyzko sums count the primes: Legendre's
//! recurrence for phi, its expansion into ordinary and special leaves, and
//! Meissel's formula `pi(x) = phi(x, a) + a - 1 - P2(x, y)`.

use vstd::prelude::*;
use vstd::arithmetic::div_mod::*;
use crate::number_theory::{is_prime, prime_count, lemma_euclid, lemma_divides_transitive};
use crate::special_leaves::{prime_table, coprime_first, phi_first, lemma_prime_table};
use crate::tables::{
    mobius, mobius_upto, lemma_mobius_stable, least_prime_factor, lemma_least_prime_factor, NO_FACTOR,
    phi_tiny_spec, tiny_prime_spec,
};
use crate::special_leaves::{
    leaf_term, leaf_row, leaf_rows, s2_spec, lemma_tiny_coprime, lemma_tiny_primes_in_table,
};
use crate::leaves::{s1_term, s1_sum};
use crate::p2::{p2_terms, p2_spec};

verus! {

/// The sum of `f(i)` over `lo <= i < hi`.
pub open spec fn sum_to(f: spec_fn(int) -> int, lo: int, hi: int) -> int
    decreases hi - lo,
{
    if hi <= lo {
        0
    } else {
        sum_to(f, lo, hi - 1) + f(hi - 1)
    }
}

/// Sums add termwise.
pub proof fn lemma_sum_add(f: spec_fn(int) -> int, g: spec_fn(int) -> int, h: spec_fn(int) -> int, lo: int, hi: int)
    requires
        forall|i: int| lo <= i < hi ==> #[trigger] f(i) == g(i) + h(i),
    ensures
        sum_to(f, lo, hi) == sum_to(g, lo, hi) + sum_to(h, lo, hi),
    decreases hi - lo,
{
    if hi > lo {
        lemma_sum_add(f, g, h, lo, hi - 1);
        assert(f(hi - 1) == g(hi - 1) + h(hi - 1));
    }
}

/// Equal terms give equal sums.
pub proof fn lemma_sum_ext(f: spec_fn(int) -> int, g: spec_fn(int) -> int, lo: int, hi: int)
    requires
        forall|i: int| lo <= i < hi ==> #[trigger] f(i) == g(i),
    ensures
        sum_to(f, lo, hi) == sum_to(g, lo, hi),
    decreases hi - lo,
{
    if hi > lo {
        lemma_sum_ext(f, g, lo, hi - 1);
        assert(f(hi - 1) == g(hi - 1));
    }
}

/// A sum of zeros is zero.
pub proof fn lemma_sum_zero(f: spec_fn(int) -> int, lo: int, hi: int)
    requires
        forall|i: int| lo <= i < hi ==> #[trigger] f(i) == 0,
    ensures
        sum_to(f, lo, hi) == 0,
    decreases hi - lo,
{
    if hi > lo {
        lemma_sum_zero(f, lo, hi - 1);
        assert(f(hi - 1) == 0);
    }
}

/// A sum with one term that may be nonzero is that term.
pub proof fn lemma_sum_single(f: spec_fn(int) -> int, lo: int, hi: int, j: int)
    requires
        lo <= j < hi,
        forall|i: int| lo <= i < hi && i != j ==> #[trigger] f(i) == 0,
    ensures
        sum_to(f, lo, hi) == f(j),
    decreases hi - lo,
{
    if hi - 1 == j {
        lemma_sum_zero(f, lo, hi - 1);
    } else {
        lemma_sum_single(f, lo, hi - 1, j);
        assert(f(hi - 1) == 0);
    }
}

/// `d` divides `n`.
pub open spec fn divides(d: int, n: int) -> bool {
    n % d == 0
}

/// `m * d` is a multiple of `m`, with quotient `d`.
pub proof fn lemma_multiple(m: int, d: int)
    requires
        m > 0,
    ensures
        divides(m, m * d),
        (m * d) / m == d,
{
    lemma_mod_multiples_basic(d, m);
    assert(d * m == m * d) by (nonlinear_arith);
    lemma_div_multiples_vanish(d, m);
}

/// A multiple of `m` is `m` times its quotient.
pub proof fn lemma_exact(n: int, m: int)
    requires
        m > 0,
        divides(m, n),
    ensures
        n == m * (n / m),
{
    lemma_fundamental_div_mod(n, m);
}

/// Once `mu_k` is 0 it stays 0.
proof fn lemma_mobius_upto_zero(n: int, q: int, k: int)
    requires
        q <= k,
        mobius_upto(n, q) == 0,
    ensures
        mobius_upto(n, k) == 0,
    decreases k - q,
{
    if k > q {
        lemma_mobius_upto_zero(n, q, k - 1);
    }
}

/// `mu(n) = 0` when the square of a prime divides `n >= 1`.
pub proof fn lemma_mobius_square(n: int, q: int)
    requires
        n >= 1,
        q >= 2,
        is_prime(q as nat),
        divides(q * q, n),
    ensures
        mobius(n) == 0,
{
    assert(q * q >= 4) by (nonlinear_arith)
        requires
            q >= 2,
    ;
    lemma_exact(n, q * q);
    let t = n / (q * q);
    assert(q <= n) by (nonlinear_arith)
        requires
            n == (q * q) * t,
            n >= 1,
            q >= 2,
    ;
    assert(mobius_upto(n, q) == 0);
    lemma_mobius_upto_zero(n, q, n);
}

/// A prime `k` other than the prime `p` divides `m * p` (or its square
/// does) exactly when it divides `m` (or its square does).
proof fn lemma_other_prime_divides(m: int, p: int, k: int)
    requires
        m >= 1,
        p >= 2,
        k >= 2,
        is_prime(p as nat),
        is_prime(k as nat),
        k != p,
    ensures
        divides(k, m * p) == divides(k, m),
        divides(k * k, m * p) == divides(k * k, m),
{
    assert(m * p >= 1) by (nonlinear_arith)
        requires
            m >= 1,
            p >= 2,
    ;
    assert(k * k > 0) by (nonlinear_arith)
        requires
            k >= 2,
    ;
    // k does not divide the prime p
    assert(!divides(k, p)) by {
        if k < p {
            assert((p as nat) % (k as nat) != 0);
        } else {
            lemma_small_mod(p as nat, k as nat);
        }
    }
    if divides(k, m * p) {
        lemma_euclid(k, m, p);
    }
    if divides(k, m) {
        lemma_exact(m, k);
        assert(m * p == k * ((m / k) * p)) by (nonlinear_arith)
            requires
                m == k * (m / k),
        ;
        lemma_multiple(k, (m / k) * p);
    }
    if divides(k * k, m * p) {
        lemma_exact(m * p, k * k);
        assert(m * p == k * (k * ((m * p) / (k * k)))) by (nonlinear_arith)
            requires
                m * p == (k * k) * ((m * p) / (k * k)),
        ;
        lemma_multiple(k, k * ((m * p) / (k * k)));
        lemma_euclid(k, m, p);
        lemma_exact(m, k);
        let m1 = m / k;
        assert(m1 >= 1) by (nonlinear_arith)
            requires
                m == k * m1,
                m >= 1,
                k >= 2,
        ;
        // k * k | k * m1 * p, so k | m1 * p, so k | m1
        lemma_exact(m * p, k * k);
        let t = (m * p) / (k * k);
        assert(m1 * p == k * t) by (nonlinear_arith)
            requires
                m * p == (k * k) * t,
                m == k * m1,
                k >= 2,
        ;
        lemma_multiple(k, t);
        lemma_euclid(k, m1, p);
        lemma_exact(m1, k);
        assert(m == (k * k) * (m1 / k)) by (nonlinear_arith)
            requires
                m == k * m1,
                m1 == k * (m1 / k),
        ;
        lemma_multiple(k * k, m1 / k);
    }
    if divides(k * k, m) {
        lemma_exact(m, k * k);
        assert(m * p == (k * k) * ((m / (k * k)) * p)) by (nonlinear_arith)
            requires
                m == (k * k) * (m / (k * k)),
        ;
        lemma_multiple(k * k, (m / (k * k)) * p);
    }
}

/// Multiplying by a new prime flips `mu` over the primes up to `k`.
proof fn lemma_mobius_upto_times_prime(m: int, p: int, k: int)
    requires
        m >= 1,
        p >= 2,
        is_prime(p as nat),
        !divides(p, m),
    ensures
        mobius_upto(m * p, k) == if k >= p { -mobius_upto(m, k) } else { mobius_upto(m, k) },
    decreases k,
{
    if k >= 2 {
        lemma_mobius_upto_times_prime(m, p, k - 1);
        if is_prime(k as nat) {
            if k == p {
                assert(p * p > 0) by (nonlinear_arith)
                    requires
                        p >= 2,
                ;
                lemma_multiple(m, p);
                assert(m * p == p * m) by (nonlinear_arith);
                lemma_multiple(p, m);
                assert(!divides(p * p, m * p)) by {
                    if divides(p * p, m * p) {
                        lemma_exact(m * p, p * p);
                        let t = (m * p) / (p * p);
                        assert(m == p * t) by (nonlinear_arith)
                            requires
                                m * p == (p * p) * t,
                                p >= 2,
                        ;
                        lemma_multiple(p, t);
                    }
                }
                assert(!divides(p * p, m)) by {
                    if divides(p * p, m) {
                        lemma_exact(m, p * p);
                        assert(m == p * (p * (m / (p * p)))) by (nonlinear_arith)
                            requires
                                m == (p * p) * (m / (p * p)),
                        ;
                        lemma_multiple(p, p * (m / (p * p)));
                    }
                }
            } else {
                lemma_other_prime_divides(m, p, k);
            }
        }
    }
}

/// `mu(m * p) = -mu(m)` for a prime `p` that does not divide `m >= 1`.
pub proof fn lemma_mobius_times_prime(m: int, p: int)
    requires
        m >= 1,
        p >= 2,
        is_prime(p as nat),
        !divides(p, m),
    ensures
        mobius(m * p) == -mobius(m),
{
    assert(m <= m * p && p <= m * p) by (nonlinear_arith)
        requires
            m >= 1,
            p >= 2,
    ;
    lemma_mobius_upto_times_prime(m, p, m * p);
    lemma_mobius_stable(m, m * p);
}

/// Legendre's recurrence: the numbers up to `v` free of the first `k`
/// primes are those free of the first `k - 1`, less the multiples of `p_k`
/// among them, which are `p_k` times the numbers up to `v / p_k` free of the
/// first `k - 1`.
pub proof fn lemma_phi_recurrence(primes: Seq<u32>, y: int, v: int, k: int)
    requires
        prime_table(primes, y),
        1 <= k < primes.len(),
        v >= 0,
    ensures
        phi_first(v, primes, k) == phi_first(v, primes, k - 1) - phi_first(v / (primes[k] as int), primes, k - 1),
    decreases v,
{
    lemma_prime_table(primes, y);
    let p = primes[k] as int;
    if v > 0 {
        lemma_phi_recurrence(primes, y, v - 1, k);
        lemma_fundamental_div_mod(v, p);
        lemma_fundamental_div_mod(v - 1, p);
        assert(coprime_first(v, primes, k) == (coprime_first(v, primes, k - 1) && v % p != 0)) by {
            if coprime_first(v, primes, k) {
                assert(v % (primes[k] as int) != 0);
                assert forall|i: int| 1 <= i <= k - 1 implies #[trigger] (v % (primes[i] as int)) != 0 by {
                    assert(v % (primes[i] as int) != 0);
                }
            }
            if coprime_first(v, primes, k - 1) && v % p != 0 {
                assert forall|i: int| 1 <= i <= k implies #[trigger] (v % (primes[i] as int)) != 0 by {
                    if i < k {
                        assert(v % (primes[i] as int) != 0);
                    }
                }
            }
        }
        if v % p == 0 {
            let w = v / p;
            assert((v - 1) / p == w - 1) by {
                assert(v - 1 == (w - 1) * p + (p - 1)) by (nonlinear_arith)
                    requires
                        v == p * w + v % p,
                        v % p == 0,
                ;
                lemma_fundamental_div_mod_converse(v - 1, p, w - 1, p - 1);
            }
            assert(w >= 1) by (nonlinear_arith)
                requires
                    v == p * w + v % p,
                    v % p == 0,
                    v >= 1,
                    p >= 2,
            ;
            // a multiple of p_k is free of the first k - 1 primes with its cofactor
            assert(coprime_first(v, primes, k - 1) == coprime_first(w, primes, k - 1)) by {
                assert forall|i: int| 1 <= i <= k - 1 implies ((v % (primes[i] as int)) == 0) == ((w % (primes[i]
                    as int)) == 0) by {
                    let q = primes[i] as int;
                    assert(primes[i] < primes[k]);
                    if v % q == 0 {
                        assert(v == p * w);
                        lemma_euclid(q, p, w);
                        if p % q == 0 {
                            assert((p as nat) % (q as nat) != 0);
                        }
                    }
                    if w % q == 0 {
                        assert(v == w * p) by (nonlinear_arith)
                            requires
                                v == p * w,
                        ;
                        lemma_mod_multiples_basic(p, w);
                        lemma_divides_transitive(q, w, v);
                    }
                }
                if coprime_first(w, primes, k - 1) {
                    assert forall|i: int| 1 <= i <= k - 1 implies #[trigger] (v % (primes[i] as int)) != 0 by {
                        assert(w % (primes[i] as int) != 0);
                    }
                }
                if coprime_first(v, primes, k - 1) {
                    assert forall|i: int| 1 <= i <= k - 1 implies #[trigger] (w % (primes[i] as int)) != 0 by {
                        assert(v % (primes[i] as int) != 0);
                    }
                }
            }
        } else {
            assert((v - 1) / p == v / p) by {
                assert(v - 1 == (v / p) * p + (v % p - 1)) by (nonlinear_arith)
                    requires
                        v == p * (v / p) + v % p,
                ;
                lemma_fundamental_div_mod_converse(v - 1, p, v / p, v % p - 1);
            }
        }
    }
}


/// Every prime of the table that divides `d` has its index in `(lo, hi]`.
pub open spec fn factors_within(ps: Seq<u32>, d: int, lo: int, hi: int) -> bool {
    forall|i: int| 1 <= i < ps.len() && #[trigger] divides(ps[i] as int, d) ==> lo < i <= hi
}

/// Some prime divides every `d >= 2`.
pub proof fn lemma_prime_divisor(d: int) -> (r: int)
    requires
        d >= 2,
    ensures
        2 <= r <= d,
        is_prime(r as nat),
        divides(r, d),
{
    if is_prime(d as nat) {
        lemma_mod_self_0(d);
        d
    } else {
        let r = crate::number_theory::lemma_composite_has_small_prime_factor(d as nat);
        assert(r <= d) by (nonlinear_arith)
            requires
                r * r <= d,
                r >= 2,
        ;
        r as int
    }
}

/// A number in `[1, y]` that no prime of the table divides is 1.
pub proof fn lemma_no_table_factor(ps: Seq<u32>, y: int, d: int, lo: int)
    requires
        prime_table(ps, y),
        1 <= d <= y,
        factors_within(ps, d, lo, lo),
    ensures
        d == 1,
{
    if d >= 2 {
        lemma_prime_table(ps, y);
        let r = lemma_prime_divisor(d);
        let i = prime_count(r as nat) as int;
        assert(ps[i] == r);
        assert(i != 0);
        assert(divides(ps[i] as int, d));
    }
}

/// An entry of the table that divides another is that entry.
pub proof fn lemma_table_divides(ps: Seq<u32>, y: int, i: int, k: int)
    requires
        prime_table(ps, y),
        1 <= i < ps.len(),
        1 <= k < ps.len(),
        divides(ps[i] as int, ps[k] as int),
    ensures
        i == k,
{
    lemma_prime_table(ps, y);
    let q = ps[i] as int;
    let p = ps[k] as int;
    assert(is_prime(p as nat));
    if q < p {
        assert((p as nat) % (q as nat) != 0);
    } else if q > p {
        lemma_small_mod(p as nat, q as nat);
    }
    if i < k {
        assert(ps[i] < ps[k]);
    } else if k < i {
        assert(ps[k] < ps[i]);
    }
}

/// Below a node `m` free of `p_k`, a squarefree `n` whose cofactor `n / m`
/// has its table primes in `(p_lo, p_k]` either has them in
/// `(p_lo, p_(k-1)]`, or is a multiple of `m * p_k` whose cofactor has them
/// there, and not both.
pub proof fn lemma_factor_split(ps: Seq<u32>, y: int, m: int, lo: int, k: int, n: int)
    requires
        prime_table(ps, y),
        0 <= lo < k < ps.len(),
        m >= 1,
        !divides(ps[k] as int, m),
        n >= 1,
        mobius(n) != 0,
    ensures
        ({
            let p = ps[k] as int;
            let a = divides(m, n) && factors_within(ps, n / m, lo, k);
            let b = divides(m, n) && factors_within(ps, n / m, lo, k - 1);
            let c = divides(m * p, n) && factors_within(ps, n / (m * p), lo, k - 1);
            (a == (b || c)) && !(b && c)
        }),
{
    lemma_prime_table(ps, y);
    let p = ps[k] as int;
    assert(p >= 2 && is_prime(p as nat));
    assert(m * p >= 1) by (nonlinear_arith)
        requires
            m >= 1,
            p >= 2,
    ;
    if !divides(m, n) {
        if divides(m * p, n) {
            lemma_exact(n, m * p);
            let t = n / (m * p);
            assert(n == m * (p * t)) by (nonlinear_arith)
                requires
                    n == (m * p) * t,
            ;
            lemma_multiple(m, p * t);
        }
    } else {
        lemma_exact(n, m);
        let d = n / m;
        assert(d >= 1) by (nonlinear_arith)
            requires
                n == m * d,
                n >= 1,
                m >= 1,
        ;
        if divides(p, d) {
            lemma_exact(d, p);
            let e = d / p;
            assert(e >= 1) by (nonlinear_arith)
                requires
                    d == p * e,
                    d >= 1,
                    p >= 2,
            ;
            assert(n == (m * p) * e) by (nonlinear_arith)
                requires
                    n == m * d,
                    d == p * e,
            ;
            lemma_multiple(m * p, e);
            assert(!divides(p, e)) by {
                if divides(p, e) {
                    lemma_exact(e, p);
                    assert(n == (p * p) * (m * (e / p))) by (nonlinear_arith)
                        requires
                            n == (m * p) * e,
                            e == p * (e / p),
                    ;
                    assert(p * p > 0) by (nonlinear_arith)
                        requires
                            p >= 2,
                    ;
                    lemma_multiple(p * p, m * (e / p));
                    lemma_mobius_square(n, p);
                }
            }
            assert(divides(ps[k] as int, d));
            assert(e * p == d) by (nonlinear_arith)
                requires
                    d == p * e,
            ;
            lemma_multiple(e, p);
            assert(factors_within(ps, d, lo, k) == factors_within(ps, e, lo, k - 1)) by {
                if factors_within(ps, d, lo, k) {
                    assert forall|i: int| 1 <= i < ps.len() && #[trigger] divides(ps[i] as int, e) implies lo < i <= k
                        - 1 by {
                        lemma_divides_transitive(ps[i] as int, e, d);
                        assert(divides(ps[i] as int, d));
                    }
                }
                if factors_within(ps, e, lo, k - 1) {
                    assert forall|i: int| 1 <= i < ps.len() && #[trigger] divides(ps[i] as int, d) implies lo < i
                        <= k by {
                        lemma_euclid(ps[i] as int, p, e);
                        if divides(ps[i] as int, p) {
                            lemma_table_divides(ps, y, i, k);
                        } else {
                            assert(divides(ps[i] as int, e));
                        }
                    }
                }
            }
        } else {
            if divides(m * p, n) {
                lemma_exact(n, m * p);
                let t = n / (m * p);
                assert(n == m * (p * t)) by (nonlinear_arith)
                    requires
                        n == (m * p) * t,
                ;
                lemma_multiple(m, p * t);
                lemma_multiple(p, t);
            }
            assert(factors_within(ps, d, lo, k) == factors_within(ps, d, lo, k - 1)) by {
                if factors_within(ps, d, lo, k) {
                    assert forall|i: int| 1 <= i < ps.len() && #[trigger] divides(ps[i] as int, d) implies lo < i <= k
                        - 1 by {
                        if i == k {
                            assert(divides(ps[k] as int, d));
                        }
                    }
                }
            }
        }
    }
}


/// The ordinary leaf `n` under the node `m` of depth `k`: `mu(n) * phi(x / n, c)`
/// when `n <= y` is a squarefree multiple of `m` whose cofactor has its table
/// primes in `(p_c, p_k]`; 0 otherwise.
pub open spec fn ordinary_term(x: int, y: int, ps: Seq<u32>, c: int, m: int, k: int, n: int) -> int {
    if 1 <= n <= y && divides(m, n) && mobius(n) != 0 && factors_within(ps, n / m, c, k) {
        mobius(n) * phi_first(x / n, ps, c)
    } else {
        0
    }
}

pub open spec fn ordinary_terms(x: int, y: int, ps: Seq<u32>, c: int, m: int, k: int) -> spec_fn(int) -> int {
    |n: int| ordinary_term(x, y, ps, c, m, k, n)
}

/// The ordinary leaves under the node `m` of depth `k`.
pub open spec fn ordinary_sum(x: int, y: int, ps: Seq<u32>, c: int, m: int, k: int) -> int {
    sum_to(ordinary_terms(x, y, ps, c, m, k), 1, y + 1)
}

/// The special leaf `(b, j)` under the node `m` of depth `k`:
/// `-mu(j) * phi(x / (p_b * j), b - 1)` when `j <= y < p_b * j` is a
/// squarefree multiple of `m` whose cofactor has its table primes in
/// `(p_b, p_k]`; 0 otherwise.
pub open spec fn special_term(x: int, y: int, ps: Seq<u32>, m: int, b: int, k: int, j: int) -> int {
    if 1 <= j <= y && divides(m, j) && mobius(j) != 0 && factors_within(ps, j / m, b, k) && y < (ps[b] as int) * j {
        -mobius(j) * phi_first(x / ((ps[b] as int) * j), ps, b - 1)
    } else {
        0
    }
}

pub open spec fn special_terms(x: int, y: int, ps: Seq<u32>, m: int, b: int, k: int) -> spec_fn(int) -> int {
    |j: int| special_term(x, y, ps, m, b, k, j)
}

/// The special leaves of `p_b` under the node `m` of depth `k`.
pub open spec fn special_row(x: int, y: int, ps: Seq<u32>, m: int, b: int, k: int) -> int {
    sum_to(special_terms(x, y, ps, m, b, k), 1, y + 1)
}

pub open spec fn special_rows(x: int, y: int, ps: Seq<u32>, m: int, k: int) -> spec_fn(int) -> int {
    |b: int| special_row(x, y, ps, m, b, k)
}

/// The special leaves of `p_(c+1)` up to `p_k` under the node `m` of depth `k`.
pub open spec fn special_sum(x: int, y: int, ps: Seq<u32>, c: int, m: int, k: int) -> int {
    sum_to(special_rows(x, y, ps, m, k), c + 1, k + 1)
}

/// Under a node beyond `y` there are no leaves up to `y`.
proof fn lemma_node_beyond_y(x: int, y: int, ps: Seq<u32>, c: int, m: int, k: int)
    requires
        m > y,
    ensures
        ordinary_sum(x, y, ps, c, m, k) == 0,
        special_sum(x, y, ps, c, m, k) == 0,
{
    assert forall|n: int| 1 <= n < y + 1 implies #[trigger] ordinary_terms(x, y, ps, c, m, k)(n) == 0 by {
        if divides(m, n) {
            lemma_small_mod(n as nat, m as nat);
        }
    }
    lemma_sum_zero(ordinary_terms(x, y, ps, c, m, k), 1, y + 1);
    assert forall|b: int| c + 1 <= b < k + 1 implies #[trigger] special_rows(x, y, ps, m, k)(b) == 0 by {
        assert forall|j: int| 1 <= j < y + 1 implies #[trigger] special_terms(x, y, ps, m, b, k)(j) == 0 by {
            if divides(m, j) {
                lemma_small_mod(j as nat, m as nat);
            }
        }
        lemma_sum_zero(special_terms(x, y, ps, m, b, k), 1, y + 1);
    }
    lemma_sum_zero(special_rows(x, y, ps, m, k), c + 1, k + 1);
}

/// The row of `p_k` under a node of depth `k` holds at most the node itself.
proof fn lemma_own_row(x: int, y: int, ps: Seq<u32>, m: int, k: int)
    requires
        prime_table(ps, y),
        1 <= k < ps.len(),
        1 <= m <= y,
    ensures
        special_row(x, y, ps, m, k, k) == if y < (ps[k] as int) * m {
            -mobius(m) * phi_first(x / ((ps[k] as int) * m), ps, k - 1)
        } else {
            0
        },
{
    let f = special_terms(x, y, ps, m, k, k);
    assert forall|j: int| 1 <= j < y + 1 && j != m implies #[trigger] f(j) == 0 by {
        if divides(m, j) && factors_within(ps, j / m, k, k) {
            lemma_exact(j, m);
            assert(j / m >= 1 && j / m <= j) by (nonlinear_arith)
                requires
                    j == m * (j / m),
                    j >= 1,
                    m >= 1,
            ;
            lemma_no_table_factor(ps, y, j / m, k);
        }
    }
    lemma_sum_single(f, 1, y + 1, m);
    lemma_mod_self_0(m);
    lemma_div_by_self(m);
    assert(factors_within(ps, 1, k, k)) by {
        lemma_prime_table(ps, y);
        assert forall|i: int| 1 <= i < ps.len() && #[trigger] divides(ps[i] as int, 1) implies k < i <= k by {
            lemma_small_mod(1, ps[i] as nat);
        }
    }
    assert(special_row(x, y, ps, m, k, k) == special_term(x, y, ps, m, k, k, m));
    let t = phi_first(x / ((ps[k] as int) * m), ps, k - 1);
    if mobius(m) == 0 {
        assert(-mobius(m) * t == 0) by (nonlinear_arith)
            requires
                mobius(m) == 0,
        ;
    }
}

/// The leaf tree: for a node `m <= y` free of the first `k` primes,
/// `mu(m) * phi(x / m, k)` is the sum of its ordinary leaves (depth `c`) and
/// of its special leaves, by Legendre's recurrence applied down to depth `c`.
pub proof fn lemma_leaf_tree(x: int, y: int, ps: Seq<u32>, c: int, m: int, k: int)
    requires
        prime_table(ps, y),
        0 <= c <= k < ps.len(),
        x >= 0,
        1 <= m <= y,
        forall|i: int| 1 <= i <= k ==> !#[trigger] divides(ps[i] as int, m),
    ensures
        mobius(m) * phi_first(x / m, ps, k) == ordinary_sum(x, y, ps, c, m, k) + special_sum(x, y, ps, c, m, k),
    decreases k,
{
    lemma_prime_table(ps, y);
    if k == c {
        let f = ordinary_terms(x, y, ps, c, m, k);
        assert forall|n: int| 1 <= n < y + 1 && n != m implies #[trigger] f(n) == 0 by {
            if divides(m, n) && factors_within(ps, n / m, c, c) {
                lemma_exact(n, m);
                assert(n / m >= 1 && n / m <= n) by (nonlinear_arith)
                    requires
                        n == m * (n / m),
                        n >= 1,
                        m >= 1,
                ;
                lemma_no_table_factor(ps, y, n / m, c);
            }
        }
        lemma_sum_single(f, 1, y + 1, m);
        lemma_mod_self_0(m);
        lemma_div_by_self(m);
        assert(factors_within(ps, 1, c, c)) by {
            assert forall|i: int| 1 <= i < ps.len() && #[trigger] divides(ps[i] as int, 1) implies c < i <= c by {
                lemma_small_mod(1, ps[i] as nat);
            }
        }
    } else {
        let p = ps[k] as int;
        assert(p >= 2 && is_prime(p as nat));
        let v = x / m;
        lemma_div_pos_is_pos(x, m);
        lemma_phi_recurrence(ps, y, v, k);
        lemma_leaf_tree(x, y, ps, c, m, k - 1);
        let mp = m * p;
        assert(mp >= m) by (nonlinear_arith)
            requires
                m >= 1,
                p >= 2,
                mp == m * p,
        ;
        assert(!divides(p, m));
        // ordinary leaves split between the node and its child m * p_k
        assert forall|n: int| 1 <= n < y + 1 implies #[trigger] ordinary_terms(x, y, ps, c, m, k)(n)
            == ordinary_terms(x, y, ps, c, m, k - 1)(n) + ordinary_terms(x, y, ps, c, mp, k - 1)(n) by {
            if mobius(n) != 0 {
                lemma_factor_split(ps, y, m, c, k, n);
            }
        }
        lemma_sum_add(
            ordinary_terms(x, y, ps, c, m, k),
            ordinary_terms(x, y, ps, c, m, k - 1),
            ordinary_terms(x, y, ps, c, mp, k - 1),
            1,
            y + 1,
        );
        // so do the special leaves of the primes before p_k
        assert forall|b: int| c + 1 <= b < k implies #[trigger] special_rows(x, y, ps, m, k)(b)
            == special_rows(x, y, ps, m, k - 1)(b) + special_rows(x, y, ps, mp, k - 1)(b) by {
            assert forall|j: int| 1 <= j < y + 1 implies #[trigger] special_terms(x, y, ps, m, b, k)(j)
                == special_terms(x, y, ps, m, b, k - 1)(j) + special_terms(x, y, ps, mp, b, k - 1)(j) by {
                if mobius(j) != 0 {
                    lemma_factor_split(ps, y, m, b, k, j);
                }
            }
            lemma_sum_add(
                special_terms(x, y, ps, m, b, k),
                special_terms(x, y, ps, m, b, k - 1),
                special_terms(x, y, ps, mp, b, k - 1),
                1,
                y + 1,
            );
        }
        lemma_sum_add(
            special_rows(x, y, ps, m, k),
            special_rows(x, y, ps, m, k - 1),
            special_rows(x, y, ps, mp, k - 1),
            c + 1,
            k,
        );
        lemma_own_row(x, y, ps, m, k);
        lemma_div_denominator(x, m, p);
        if mp <= y {
            assert forall|i: int| 1 <= i <= k - 1 implies !#[trigger] divides(ps[i] as int, mp) by {
                if divides(ps[i] as int, mp) {
                    assert(!divides(ps[i] as int, m));
                    assert(ps[i] >= 2);
                    lemma_euclid(ps[i] as int, m, p);
                    if divides(ps[i] as int, p) {
                        lemma_table_divides(ps, y, i, k);
                    }
                }
            }
            lemma_leaf_tree(x, y, ps, c, mp, k - 1);
            lemma_mobius_times_prime(m, p);
            assert(p * m == mp) by (nonlinear_arith)
                requires
                    mp == m * p,
            ;
            assert(special_row(x, y, ps, m, k, k) == 0);
            assert(mobius(mp) * phi_first(x / mp, ps, k - 1) == -(mobius(m) * phi_first(v / p, ps, k - 1))) by (
            nonlinear_arith)
                requires
                    mobius(mp) == -mobius(m),
                    x / mp == v / p,
            ;
        } else {
            lemma_node_beyond_y(x, y, ps, c, mp, k - 1);
            assert(p * m == mp) by (nonlinear_arith)
                requires
                    mp == m * p,
            ;
            assert(special_row(x, y, ps, m, k, k) == -(mobius(m) * phi_first(v / p, ps, k - 1))) by (
            nonlinear_arith)
                requires
                    special_row(x, y, ps, m, k, k) == -mobius(m) * phi_first(x / mp, ps, k - 1),
                    x / mp == v / p,
            ;
        }
        assert(mobius(m) * phi_first(v, ps, k) == mobius(m) * phi_first(v, ps, k - 1) - mobius(m) * phi_first(
            v / p,
            ps,
            k - 1,
        )) by (nonlinear_arith)
            requires
                phi_first(v, ps, k) == phi_first(v, ps, k - 1) - phi_first(v / p, ps, k - 1),
        ;
        assert(special_sum(x, y, ps, c, m, k) == special_sum(x, y, ps, c, m, k - 1) + special_sum(
            x,
            y,
            ps,
            c,
            mp,
            k - 1,
        ) + special_row(x, y, ps, m, k, k));
    }
}


/// Over a table of the primes up to `y`, the table primes of `1 <= n <= y`
/// lie beyond `p_b` exactly when its least prime factor does.
pub proof fn lemma_factors_lpf(ps: Seq<u32>, y: int, n: int, b: int)
    requires
        prime_table(ps, y),
        1 <= n <= y < NO_FACTOR,
        0 <= b < ps.len(),
    ensures
        factors_within(ps, n, b, ps.len() - 1) == (least_prime_factor(n) > ps[b]),
{
    lemma_prime_table(ps, y);
    if n == 1 {
        assert(least_prime_factor(1) == NO_FACTOR as int);
        assert forall|i: int| 1 <= i < ps.len() && #[trigger] divides(ps[i] as int, n) implies b < i <= ps.len()
            - 1 by {
            lemma_small_mod(1, ps[i] as nat);
        }
    } else {
        lemma_least_prime_factor(n);
        let r = least_prime_factor(n);
        if factors_within(ps, n, b, ps.len() - 1) {
            let i = prime_count(r as nat) as int;
            assert(ps[i] == r);
            assert(i != 0);
            assert(divides(ps[i] as int, n));
            if b >= 1 && r <= ps[b] {
                assert(ps[b] < ps[i]);
            }
        }
        if r > ps[b] {
            assert forall|i: int| 1 <= i < ps.len() && #[trigger] divides(ps[i] as int, n) implies b < i <= ps.len()
                - 1 by {
                if ps[i] < r {
                    assert(n % (ps[i] as int) != 0);
                }
                if i <= b && b >= 1 {
                    if i < b {
                        assert(ps[i] < ps[b]);
                    }
                }
            }
        }
    }
}

/// Legendre's phi of the first six table primes is the small phi of the
/// first six primes.
pub proof fn lemma_phi_six(ps: Seq<u32>, y: int, v: int)
    requires
        prime_table(ps, y),
        ps.len() > 6,
    ensures
        phi_first(v, ps, 6) == phi_tiny_spec(v, 6),
    decreases v,
{
    if v > 0 {
        lemma_phi_six(ps, y, v - 1);
        assert forall|i: int| 1 <= i <= 6 implies #[trigger] ps[i] == tiny_prime_spec(i) by {
            lemma_tiny_primes_in_table(ps, y, i);
        }
        lemma_tiny_coprime(ps, 6, v);
    }
}

pub open spec fn s1_terms(x: int, c: int, pc: int) -> spec_fn(int) -> int {
    |n: int| s1_term(x, n, c, pc)
}

proof fn lemma_s1_as_sum(x: int, m: int, c: int, pc: int)
    requires
        m >= 0,
    ensures
        s1_sum(x, m, c, pc) == sum_to(s1_terms(x, c, pc), 1, m + 1),
    decreases m,
{
    if m > 0 {
        lemma_s1_as_sum(x, m - 1, c, pc);
    }
}

/// The ordinary leaves of the root are S1: the squarefree `n <= y` whose
/// least prime factor exceeds 13, each with `mu(n) * phi(x / n, 6)`.
pub proof fn lemma_root_ordinary(x: int, y: int, ps: Seq<u32>)
    requires
        prime_table(ps, y),
        ps.len() > 6,
        x >= 0,
        1 <= y < NO_FACTOR,
    ensures
        ordinary_sum(x, y, ps, 6, 1, ps.len() - 1) == s1_sum(x, y, 6, 13),
{
    assert forall|n: int| 1 <= n < y + 1 implies #[trigger] ordinary_terms(x, y, ps, 6, 1, ps.len() - 1)(n)
        == s1_terms(x, 6, 13)(n) by {
        lemma_small_mod(0, 1);
        lemma_fundamental_div_mod(n, 1);
        assert(divides(1, n));
        assert(n / 1 == n);
        lemma_tiny_primes_in_table(ps, y, 6);
        lemma_factors_lpf(ps, y, n, 6);
        lemma_div_pos_is_pos(x, n);
        lemma_phi_six(ps, y, x / n);
    }
    lemma_sum_ext(ordinary_terms(x, y, ps, 6, 1, ps.len() - 1), s1_terms(x, 6, 13), 1, y + 1);
    lemma_s1_as_sum(x, y, 6, 13);
}

/// `y / p < j` exactly when `y < p * j`.
proof fn lemma_div_lt(y: int, p: int, j: int)
    requires
        y >= 0,
        p >= 1,
    ensures
        (y / p < j) == (y < p * j),
{
    lemma_fundamental_div_mod(y, p);
    let q = y / p;
    let r = y % p;
    assert((q < j) == (y < p * j)) by (nonlinear_arith)
        requires
            y == p * q + r,
            0 <= r < p,
    ;
}

proof fn lemma_leaf_row_as_sum(x: int, y: int, ps: Seq<u32>, b: int, e: int)
    requires
        prime_table(ps, y),
        1 <= b < ps.len(),
        0 <= e <= y,
        x >= 0,
        y < NO_FACTOR,
    ensures
        leaf_row(x, y, ps, b, 0, e, 0, x + 1) == sum_to(special_terms(x, y, ps, 1, b, ps.len() - 1), 1, e + 1),
    decreases e,
{
    if e > 0 {
        lemma_leaf_row_as_sum(x, y, ps, b, e - 1);
        lemma_prime_table(ps, y);
        let p = ps[b] as int;
        lemma_fundamental_div_mod(e, 1);
        lemma_small_mod(0, 1);
        assert(divides(1, e));
        assert(e / 1 == e);
        lemma_factors_lpf(ps, y, e, b);
        lemma_div_lt(y, p, e);
        lemma_div_denominator(x, p, e);
        assert(p * e >= 1) by (nonlinear_arith)
            requires
                p >= 2,
                e >= 1,
        ;
        lemma_div_is_ordered_by_denominator(x, 1, p * e);
        lemma_div_pos_is_pos(x, p * e);
        assert(leaf_term(x, y, ps, b, e, 0, x + 1) == special_terms(x, y, ps, 1, b, ps.len() - 1)(e));
    }
}

proof fn lemma_leaf_rows_as_sum(x: int, y: int, ps: Seq<u32>, c: int, bmax: int)
    requires
        prime_table(ps, y),
        0 <= c <= bmax < ps.len(),
        x >= 0,
        1 <= y < NO_FACTOR,
    ensures
        leaf_rows(x, y, ps, c, bmax, 0, x + 1) == sum_to(special_rows(x, y, ps, 1, ps.len() - 1), c + 1, bmax + 1),
    decreases bmax - c,
{
    if bmax > c {
        lemma_leaf_rows_as_sum(x, y, ps, c, bmax - 1);
        lemma_leaf_row_as_sum(x, y, ps, bmax, y);
    }
}

/// The special leaves of the root are S2.
pub proof fn lemma_root_special(x: int, y: int, ps: Seq<u32>, c: int)
    requires
        prime_table(ps, y),
        0 <= c < ps.len() - 1,
        x >= 0,
        1 <= y < NO_FACTOR,
    ensures
        special_sum(x, y, ps, c, 1, ps.len() - 1) == s2_spec(x, y, ps, c),
{
    let a = ps.len() - 1;
    lemma_prime_table(ps, y);
    lemma_leaf_rows_as_sum(x, y, ps, c, a - 1);
    lemma_own_row(x, y, ps, 1, a);
    assert(special_sum(x, y, ps, c, 1, a) == sum_to(special_rows(x, y, ps, 1, a), c + 1, a) + special_row(
        x,
        y,
        ps,
        1,
        a,
        a,
    ));
}


/// A prime that divides a prime is that prime.
pub proof fn lemma_prime_divides_prime(p: int, q: int)
    requires
        p >= 2,
        q >= 2,
        is_prime(p as nat),
        is_prime(q as nat),
        divides(p, q),
    ensures
        p == q,
{
    if p < q {
        assert((q as nat) % (p as nat) != 0);
    } else if p > q {
        lemma_small_mod(q as nat, p as nat);
    }
}

/// The primes `p > y` with `p * p <= X` that divide `X` with a prime
/// cofactor: the ways to write `X = p * q` with primes `y < p <= q`.
pub open spec fn semi_term(xx: int, y: int, p: int) -> int {
    if y < p && 2 <= p && is_prime(p as nat) && p * p <= xx && divides(p, xx) && is_prime((xx / p) as nat) {
        1
    } else {
        0
    }
}

pub open spec fn semi_terms(xx: int, y: int) -> spec_fn(int) -> int {
    |p: int| semi_term(xx, y, p)
}

/// `(X - 1) / s` is `X / s - 1` at a multiple of `s`, else `X / s`.
proof fn lemma_div_step(xx: int, s: int)
    requires
        xx >= 1,
        s >= 1,
    ensures
        divides(s, xx) ==> (xx - 1) / s == xx / s - 1 && xx / s >= 1,
        !divides(s, xx) ==> (xx - 1) / s == xx / s,
{
    lemma_fundamental_div_mod(xx, s);
    let q = xx / s;
    let r = xx % s;
    if r == 0 {
        assert(xx - 1 == (q - 1) * s + (s - 1)) by (nonlinear_arith)
            requires
                xx == s * q + r,
                r == 0,
        ;
        lemma_fundamental_div_mod_converse(xx - 1, s, q - 1, s - 1);
        assert(q >= 1) by (nonlinear_arith)
            requires
                xx == s * q,
                xx >= 1,
                s >= 1,
        ;
    } else {
        assert(xx - 1 == q * s + (r - 1)) by (nonlinear_arith)
            requires
                xx == s * q + r,
        ;
        lemma_fundamental_div_mod_converse(xx - 1, s, q, r - 1);
    }
}

/// Going from `X - 1` to `X`, the P2 sum grows by the number of ways to
/// write `X` as `p * q` with primes `y < p <= q`, `p <= s`.
pub proof fn lemma_p2_step(xx: int, y: int, s: int)
    requires
        xx >= 1,
        y >= 0,
        s >= 0,
    ensures
        p2_terms(xx, y, s) - p2_terms(xx - 1, y, s) == sum_to(semi_terms(xx, y), 1, s + 1),
    decreases s,
{
    if s <= y || s < 2 {
        assert forall|p: int| 1 <= p < s + 1 implies #[trigger] semi_terms(xx, y)(p) == 0 by {}
        lemma_sum_zero(semi_terms(xx, y), 1, s + 1);
    } else {
        lemma_p2_step(xx, y, s - 1);
        if is_prime(s as nat) {
            lemma_div_step(xx, s);
            if s * s <= xx - 1 {
                if divides(s, xx) {
                    assert(prime_count((xx / s) as nat) == prime_count(((xx / s) - 1) as nat) + if is_prime(
                        (xx / s) as nat,
                    ) {
                        1nat
                    } else {
                        0nat
                    });
                }
            } else if s * s == xx {
                lemma_multiple(s, s);
            } else {
                if divides(s, xx) && s * s <= xx {
                    assert(false);
                }
            }
        }
    }
}

/// Over a table of the primes up to `y` and below `(y + 1)^3`, the numbers
/// free of every table prime are 1, the primes beyond `y`, and the products
/// `p * q` of primes `y < p <= q`, each such product in one way.
pub proof fn lemma_free_classes(ps: Seq<u32>, y: int, xx: int)
    requires
        prime_table(ps, y),
        y >= 1,
        1 <= xx < (y + 1) * (y + 1) * (y + 1),
    ensures
        (if coprime_first(xx, ps, ps.len() - 1) { 1int } else { 0int }) == (if xx == 1 { 1int } else { 0int }) + (
        if is_prime(xx as nat) && xx > y {
            1int
        } else {
            0int
        }) + sum_to(semi_terms(xx, y), 1, xx + 1),
{
    lemma_prime_table(ps, y);
    let a = ps.len() - 1;
    let f = semi_terms(xx, y);
    if !coprime_first(xx, ps, a) {
        let i = choose|i: int| 1 <= i <= a && !(#[trigger] (xx % (ps[i] as int)) != 0);
        let t = ps[i] as int;
        assert(divides(t, xx));
        if xx == 1 {
            lemma_small_mod(1, t as nat);
        }
        if is_prime(xx as nat) {
            lemma_prime_divides_prime(t, xx);
        }
        assert forall|p: int| 1 <= p < xx + 1 implies #[trigger] f(p) == 0 by {
            if semi_term(xx, y, p) == 1 {
                let q = xx / p;
                lemma_exact(xx, p);
                lemma_euclid(t, p, q);
                if divides(t, p) {
                    lemma_prime_divides_prime(t, p);
                } else {
                    lemma_prime_divides_prime(t, q);
                    assert(p * p <= p * q) by (nonlinear_arith)
                        requires
                            p * p <= xx,
                            xx == p * q,
                    ;
                    assert(p <= q) by (nonlinear_arith)
                        requires
                            p * p <= p * q,
                            p >= 2,
                    ;
                }
            }
        }
        lemma_sum_zero(f, 1, xx + 1);
    } else if xx == 1 {
        assert forall|p: int| 1 <= p < xx + 1 implies #[trigger] f(p) == 0 by {}
        lemma_sum_zero(f, 1, xx + 1);
    } else if is_prime(xx as nat) {
        if xx <= y {
            let i = prime_count(xx as nat) as int;
            assert(ps[i] == xx);
            lemma_mod_self_0(xx);
            assert(xx % (ps[i] as int) == 0);
        }
        assert forall|p: int| 1 <= p < xx + 1 implies #[trigger] f(p) == 0 by {
            if semi_term(xx, y, p) == 1 {
                lemma_prime_divides_prime(p, xx);
                lemma_div_by_self(xx);
            }
        }
        lemma_sum_zero(f, 1, xx + 1);
    } else {
        // xx = r * q with primes y < r <= q
        let r = crate::number_theory::lemma_composite_has_small_prime_factor(xx as nat) as int;
        let q = xx / r;
        lemma_exact(xx, r);
        assert(r > y) by {
            if r <= y {
                let i = prime_count(r as nat) as int;
                assert(ps[i] == r);
                assert(xx % (ps[i] as int) != 0);
            }
        }
        assert(r <= q) by (nonlinear_arith)
            requires
                r * r <= xx,
                xx == r * q,
                r >= 2,
        ;
        assert(is_prime(q as nat)) by {
            if !is_prime(q as nat) {
                let s2 = crate::number_theory::lemma_composite_has_small_prime_factor(q as nat) as int;
                let t2 = q / s2;
                lemma_exact(q, s2);
                assert(xx == s2 * (r * t2)) by (nonlinear_arith)
                    requires
                        xx == r * q,
                        q == s2 * t2,
                ;
                lemma_multiple(s2, r * t2);
                assert(s2 > y) by {
                    if s2 <= y {
                        let i = prime_count(s2 as nat) as int;
                        assert(ps[i] == s2);
                        assert(xx % (ps[i] as int) != 0);
                    }
                }
                assert(s2 <= t2) by (nonlinear_arith)
                    requires
                        s2 * s2 <= q,
                        q == s2 * t2,
                        s2 >= 2,
                ;
                assert(xx >= (y + 1) * (y + 1) * (y + 1)) by (nonlinear_arith)
                    requires
                        xx == r * q,
                        q == s2 * t2,
                        r >= y + 1,
                        s2 >= y + 1,
                        t2 >= s2,
                        y >= 1,
                ;
            }
        }
        assert forall|p: int| 1 <= p < xx + 1 && p != r implies #[trigger] f(p) == 0 by {
            if semi_term(xx, y, p) == 1 {
                lemma_euclid(p, r, q);
                if divides(p, r) {
                    lemma_prime_divides_prime(p, r);
                } else {
                    lemma_prime_divides_prime(p, q);
                    assert(false) by (nonlinear_arith)
                        requires
                            p * p <= xx,
                            xx == r * q,
                            p == q,
                            r <= q,
                            r != p,
                            r >= 2,
                    ;
                }
            }
        }
        lemma_multiple(r, q);
        assert(f(r) == 1);
        lemma_sum_single(f, 1, xx + 1, r);
    }
}


/// Meissel's count below `(y + 1)^3`: the numbers up to `X` free of the
/// primes up to `y` are 1, the primes in `(y, X]` and the P2 products.
pub proof fn lemma_meissel(ps: Seq<u32>, y: int, xx: int)
    requires
        prime_table(ps, y),
        y >= 1,
        0 <= xx < (y + 1) * (y + 1) * (y + 1),
    ensures
        phi_first(xx, ps, ps.len() - 1) == (if xx >= 1 { 1int } else { 0int }) + prime_count(xx as nat) - prime_count(
            (if xx <= y { xx } else { y }) as nat,
        ) + p2_terms(xx, y, xx),
    decreases xx,
{
    if xx >= 1 {
        lemma_meissel(ps, y, xx - 1);
        lemma_p2_step(xx, y, xx);
        lemma_free_classes(ps, y, xx);
        if xx > y && xx >= 2 {
            assert(xx * xx > xx - 1) by (nonlinear_arith)
                requires
                    xx >= 2,
            ;
            assert(p2_terms(xx - 1, y, xx) == p2_terms(xx - 1, y, xx - 1));
        } else {
            assert(p2_terms(xx - 1, y, xx) == 0);
            assert(p2_terms(xx - 1, y, xx - 1) == 0);
        }
    }
}

/// Legendre, the leaf tree and Meissel together: with the first `c`
/// primes pre-sieved, `S1 + S2 + pi(y) - 1 - P2(x, y) = pi(x)` for every
/// `y < x < (y + 1)^3` whose table holds more than `c` primes.
pub proof fn lemma_lmo_identity(x: int, y: int, ps: Seq<u32>)
    requires
        prime_table(ps, y),
        7 < ps.len(),
        1 <= y < NO_FACTOR,
        y <= x < (y + 1) * (y + 1) * (y + 1),
    ensures
        s1_sum(x, y, 6, 13) + s2_spec(x, y, ps, 6) + (ps.len() - 1) - 1 - p2_spec(x, y) == prime_count(x as nat),
{
    let a = ps.len() - 1;
    assert forall|i: int| 1 <= i <= a implies !#[trigger] divides(ps[i] as int, 1) by {
        lemma_prime_table(ps, y);
        lemma_small_mod(1, ps[i] as nat);
    }
    lemma_div_by_self(1);
    lemma_leaf_tree(x, y, ps, 6, 1, a);
    assert(mobius(1) == 1);
    lemma_root_ordinary(x, y, ps);
    lemma_root_special(x, y, ps, 6);
    lemma_meissel(ps, y, x);
    crate::special_leaves::lemma_prime_table_floor(ps, y, y);
    assert(prime_count(y as nat) == a) by {
        lemma_prime_table(ps, y);
    }
}

} // verus!
