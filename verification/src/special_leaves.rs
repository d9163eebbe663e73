//! The special leaves of the Lagarias-Miller-Odlyzko decomposition: the
//! table of the primes up to `y`, Legendre's phi over its first primes, and
//! the sum `S2` over the leaves `(b, m)` with `p_b * m > y`.

use vstd::prelude::*;
use vstd::arithmetic::div_mod::*;
use crate::number_theory::{is_prime, prime_count, lemma_prime_count_monotone};
use crate::tables::{mobius, least_prime_factor, lemma_least_prime_factor, NO_FACTOR, coprime_to_tiny, tiny_prime_spec};

verus! {

/// `primes[1..]` lists the primes up to `y` in increasing order (so
/// `primes[b]` is the `b`-th prime), and `primes[0]` is 0.
pub open spec fn prime_table(primes: Seq<u32>, y: int) -> bool {
    &&& y >= 0
    &&& primes.len() == prime_count(y as nat) + 1
    &&& primes[0] == 0
    &&& forall|b: int|
        1 <= b < primes.len() ==> is_prime(#[trigger] primes[b] as nat) && prime_count(primes[b] as nat) == b
}

/// pi(q) = pi(q - 1) + 1 at a prime `q`.
proof fn lemma_prime_count_at_prime(q: nat)
    requires
        is_prime(q),
    ensures
        prime_count(q) == prime_count((q - 1) as nat) + 1,
{
}

/// A prime above `a` has a larger pi than `a`.
pub proof fn lemma_prime_count_above(a: nat, q: nat)
    requires
        is_prime(q),
        a < q,
    ensures
        prime_count(a) < prime_count(q),
{
    lemma_prime_count_monotone(a, (q - 1) as nat);
}

/// The entries of a prime table increase, lie in `[2, y]`, and the prime
/// `q <= y` stands at index pi(q).
pub proof fn lemma_prime_table(primes: Seq<u32>, y: int)
    requires
        prime_table(primes, y),
    ensures
        forall|b1: int, b2: int| 1 <= b1 < b2 < primes.len() ==> #[trigger] primes[b1] < #[trigger] primes[b2],
        forall|b: int| 1 <= b < primes.len() ==> 2 <= #[trigger] primes[b] <= y,
        forall|q: int| 2 <= q <= y && is_prime(q as nat) ==> #[trigger] prime_count(q as nat) < primes.len()
            && primes[prime_count(q as nat) as int] == q,
{
    assert forall|b1: int, b2: int| 1 <= b1 < b2 < primes.len() implies #[trigger] primes[b1] < #[trigger] primes[b2] by {
        let p1 = primes[b1] as nat;
        let p2 = primes[b2] as nat;
        if p2 <= p1 {
            lemma_prime_count_monotone(p2, p1);
        }
    }
    assert forall|b: int| 1 <= b < primes.len() implies 2 <= #[trigger] primes[b] <= y by {
        let p = primes[b] as nat;
        if p > y {
            lemma_prime_count_above(y as nat, p);
        }
    }
    assert forall|q: int| 2 <= q <= y && is_prime(q as nat) implies #[trigger] prime_count(q as nat) < primes.len()
        && primes[prime_count(q as nat) as int] == q by {
        lemma_prime_count_monotone(q as nat, y as nat);
        lemma_prime_count_at_prime(q as nat);
        let k = prime_count(q as nat) as int;
        assert(k >= 1);
        let r = primes[k] as nat;
        assert(prime_count(r) == k);
        if r < q {
            lemma_prime_count_above(r, q as nat);
        } else if r > q {
            lemma_prime_count_above(q as nat, r);
        }
    }
}

/// `primes[pi(n)]` is the largest prime up to `n <= y` (0 when there is
/// none), and the next entry lies beyond `n`.
pub proof fn lemma_prime_table_floor(primes: Seq<u32>, y: int, n: int)
    requires
        prime_table(primes, y),
        0 <= n <= y,
    ensures
        prime_count(n as nat) < primes.len(),
        primes[prime_count(n as nat) as int] <= n,
        prime_count(n as nat) + 1 < primes.len() ==> primes[prime_count(n as nat) + 1int] > n,
{
    lemma_prime_count_monotone(n as nat, y as nat);
    let l = prime_count(n as nat) as int;
    if l >= 1 {
        let p = primes[l] as nat;
        if p > n {
            lemma_prime_count_above(n as nat, p);
        }
    }
    if l + 1 < primes.len() {
        let q = primes[l + 1] as nat;
        if q <= n {
            lemma_prime_count_monotone(q, n as nat);
        }
    }
}

/// `j` is divisible by none of `primes[1..=k]`.
pub open spec fn coprime_first(j: int, primes: Seq<u32>, k: int) -> bool {
    forall|i: int| 1 <= i <= k ==> #[trigger] (j % (primes[i] as int)) != 0
}

/// phi(n, k): how many of `1..=n` are divisible by none of `primes[1..=k]`;
/// over a prime table, Legendre's function of the first `k` primes.
pub open spec fn phi_first(n: int, primes: Seq<u32>, k: int) -> int
    decreases n,
{
    if n <= 0 {
        0
    } else {
        phi_first(n - 1, primes, k) + if coprime_first(n, primes, k) {
            1int
        } else {
            0int
        }
    }
}

pub proof fn lemma_phi_first_bounds(n: int, primes: Seq<u32>, k: int)
    ensures
        0 <= phi_first(n, primes, k),
        n >= 0 ==> phi_first(n, primes, k) <= n,
    decreases n,
{
    if n > 0 {
        lemma_phi_first_bounds(n - 1, primes, k);
    }
}

pub proof fn lemma_phi_first_monotone(a: int, n: int, primes: Seq<u32>, k: int)
    requires
        a <= n,
    ensures
        phi_first(a, primes, k) <= phi_first(n, primes, k),
    decreases n - a,
{
    if a < n {
        lemma_phi_first_monotone(a, n - 1, primes, k);
    }
}

/// `n` of the leaf `(b, m)`: `x / (p_b * m)`, computed as `(x / p_b) / m`.
pub open spec fn leaf_n(x: int, primes: Seq<u32>, b: int, m: int) -> int {
    (x / (primes[b] as int)) / m
}

/// `(b, m)` is a special leaf: `m <= y` is squarefree with every prime
/// factor above `p_b`, and `p_b * m > y`.
pub open spec fn is_special_leaf(y: int, primes: Seq<u32>, b: int, m: int) -> bool {
    &&& 1 <= m <= y
    &&& y / (primes[b] as int) < m
    &&& mobius(m) != 0
    &&& least_prime_factor(m) > primes[b]
}

/// What the leaf `(b, m)` adds to S2 when its `n` lies in `[lo, hi)`:
/// `-mu(m) * phi(n, b - 1)`; 0 otherwise.
pub open spec fn leaf_term(x: int, y: int, primes: Seq<u32>, b: int, m: int, lo: int, hi: int) -> int {
    if is_special_leaf(y, primes, b, m) && lo <= leaf_n(x, primes, b, m) < hi {
        -mobius(m) * phi_first(leaf_n(x, primes, b, m), primes, b - 1)
    } else {
        0
    }
}

/// The weight `-mu(m)` of the leaf `(b, m)` when its `n` lies in `[lo, hi)`;
/// 0 otherwise.
pub open spec fn leaf_weight(y: int, primes: Seq<u32>, x: int, b: int, m: int, lo: int, hi: int) -> int {
    if is_special_leaf(y, primes, b, m) && lo <= leaf_n(x, primes, b, m) < hi {
        -mobius(m)
    } else {
        0
    }
}

/// The leaves of `p_b` with `m` in `(a, e]` and `n` in `[lo, hi)`.
pub open spec fn leaf_row(x: int, y: int, primes: Seq<u32>, b: int, a: int, e: int, lo: int, hi: int) -> int
    decreases e - a,
{
    if e <= a {
        0
    } else {
        leaf_row(x, y, primes, b, a, e - 1, lo, hi) + leaf_term(x, y, primes, b, e, lo, hi)
    }
}

/// The summed weights of the same leaves.
pub open spec fn weight_row(x: int, y: int, primes: Seq<u32>, b: int, a: int, e: int, lo: int, hi: int) -> int
    decreases e - a,
{
    if e <= a {
        0
    } else {
        weight_row(x, y, primes, b, a, e - 1, lo, hi) + leaf_weight(y, primes, x, b, e, lo, hi)
    }
}

/// The leaves of `p_b` for `b` in `(c, bmax]`, `m` in `[1, y]`, `n` in
/// `[lo, hi)`.
pub open spec fn leaf_rows(x: int, y: int, primes: Seq<u32>, c: int, bmax: int, lo: int, hi: int) -> int
    decreases bmax - c,
{
    if bmax <= c {
        0
    } else {
        leaf_rows(x, y, primes, c, bmax - 1, lo, hi) + leaf_row(x, y, primes, bmax, 0, y, lo, hi)
    }
}

/// S2: the special leaves `(b, m)` of the primes `p_b` after the first `c`,
/// up to the last but one prime up to `y`, summed as
/// `-mu(m) * phi(x / (p_b * m), b - 1)`.
pub open spec fn s2_spec(x: int, y: int, primes: Seq<u32>, c: int) -> int {
    leaf_rows(x, y, primes, c, primes.len() - 2, 0, x + 1)
}

/// Splitting the range of `n` at `mid` splits a row.
pub proof fn lemma_row_split_n(x: int, y: int, primes: Seq<u32>, b: int, a: int, e: int, lo: int, mid: int, hi: int)
    requires
        lo <= mid <= hi,
    ensures
        leaf_row(x, y, primes, b, a, e, lo, hi) == leaf_row(x, y, primes, b, a, e, lo, mid) + leaf_row(
            x,
            y,
            primes,
            b,
            a,
            e,
            mid,
            hi,
        ),
        weight_row(x, y, primes, b, a, e, lo, hi) == weight_row(x, y, primes, b, a, e, lo, mid) + weight_row(
            x,
            y,
            primes,
            b,
            a,
            e,
            mid,
            hi,
        ),
    decreases e - a,
{
    if e > a {
        lemma_row_split_n(x, y, primes, b, a, e - 1, lo, mid, hi);
    }
}

/// Splitting the range of `n` at `mid` splits a sum of rows.
pub proof fn lemma_rows_split_n(x: int, y: int, primes: Seq<u32>, c: int, bmax: int, lo: int, mid: int, hi: int)
    requires
        lo <= mid <= hi,
    ensures
        leaf_rows(x, y, primes, c, bmax, lo, hi) == leaf_rows(x, y, primes, c, bmax, lo, mid) + leaf_rows(
            x,
            y,
            primes,
            c,
            bmax,
            mid,
            hi,
        ),
    decreases bmax - c,
{
    if bmax > c {
        lemma_rows_split_n(x, y, primes, c, bmax - 1, lo, mid, hi);
        lemma_row_split_n(x, y, primes, bmax, 0, y, lo, mid, hi);
    }
}

/// A row over `(a, e]` is the row over `(a, d]` plus the row over `(d, e]`.
pub proof fn lemma_row_concat(x: int, y: int, primes: Seq<u32>, b: int, a: int, d: int, e: int, lo: int, hi: int)
    requires
        a <= d <= e,
    ensures
        leaf_row(x, y, primes, b, a, e, lo, hi) == leaf_row(x, y, primes, b, a, d, lo, hi) + leaf_row(
            x,
            y,
            primes,
            b,
            d,
            e,
            lo,
            hi,
        ),
        weight_row(x, y, primes, b, a, e, lo, hi) == weight_row(x, y, primes, b, a, d, lo, hi) + weight_row(
            x,
            y,
            primes,
            b,
            d,
            e,
            lo,
            hi,
        ),
    decreases e - d,
{
    if e > d {
        lemma_row_concat(x, y, primes, b, a, d, e - 1, lo, hi);
    }
}

/// A row whose leaves all lie outside `[lo, hi)` or have `n = 0` is 0.
pub proof fn lemma_row_zero(x: int, y: int, primes: Seq<u32>, b: int, a: int, e: int, lo: int, hi: int)
    requires
        forall|m: int|
            a < m <= e && #[trigger] is_special_leaf(y, primes, b, m) && lo <= leaf_n(x, primes, b, m) < hi
                ==> leaf_n(x, primes, b, m) <= 0 && lo > 0,
    ensures
        leaf_row(x, y, primes, b, a, e, lo, hi) == 0,
        weight_row(x, y, primes, b, a, e, lo, hi) == 0,
    decreases e - a,
{
    if e > a {
        lemma_row_zero(x, y, primes, b, a, e - 1, lo, hi);
        assert(is_special_leaf(y, primes, b, e) && lo <= leaf_n(x, primes, b, e) < hi ==> false);
    }
}

/// A row whose leaves with `n` in `[lo, hi)` all have `n <= 0` adds
/// nothing, though their weights may count.
pub proof fn lemma_row_zero_n(x: int, y: int, primes: Seq<u32>, b: int, a: int, e: int, lo: int, hi: int)
    requires
        forall|m: int|
            a < m <= e && #[trigger] is_special_leaf(y, primes, b, m) && lo <= leaf_n(x, primes, b, m) < hi
                ==> leaf_n(x, primes, b, m) <= 0,
    ensures
        leaf_row(x, y, primes, b, a, e, lo, hi) == 0,
    decreases e - a,
{
    if e > a {
        lemma_row_zero_n(x, y, primes, b, a, e - 1, lo, hi);
        if is_special_leaf(y, primes, b, e) && lo <= leaf_n(x, primes, b, e) < hi {
            assert(phi_first(leaf_n(x, primes, b, e), primes, b - 1) == 0);
        }
    }
}

/// Rows that are 0 beyond `bstop` leave the sum of rows unchanged.
pub proof fn lemma_rows_tail_zero(x: int, y: int, primes: Seq<u32>, c: int, bstop: int, bmax: int, lo: int, hi: int)
    requires
        c <= bstop <= bmax,
        forall|b: int| bstop < b <= bmax ==> #[trigger] leaf_row(x, y, primes, b, 0, y, lo, hi) == 0,
    ensures
        leaf_rows(x, y, primes, c, bmax, lo, hi) == leaf_rows(x, y, primes, c, bstop, lo, hi),
    decreases bmax - bstop,
{
    if bmax > bstop {
        lemma_rows_tail_zero(x, y, primes, c, bstop, bmax - 1, lo, hi);
        assert(leaf_row(x, y, primes, bmax, 0, y, lo, hi) == 0);
    }
}

/// Each leaf adds at most `x` in size, and weighs at most 1.
pub proof fn lemma_leaf_term_bound(x: int, y: int, primes: Seq<u32>, b: int, m: int, lo: int, hi: int)
    requires
        x >= 0,
        primes[b] >= 1,
    ensures
        -x <= leaf_term(x, y, primes, b, m, lo, hi) <= x,
        -1 <= leaf_weight(y, primes, x, b, m, lo, hi) <= 1,
{
    crate::tables::lemma_mobius_range_pub(m);
    if is_special_leaf(y, primes, b, m) && lo <= leaf_n(x, primes, b, m) < hi {
        let p = primes[b] as int;
        let n = leaf_n(x, primes, b, m);
        lemma_div_is_ordered_by_denominator(x, 1, p);
        lemma_div_is_ordered_by_denominator(x / p, 1, m);
        assert(0 <= n <= x) by {
            lemma_div_pos_is_pos(x, p);
            lemma_div_pos_is_pos(x / p, m);
        }
        lemma_phi_first_bounds(n, primes, b - 1);
        let f = phi_first(n, primes, b - 1);
        let mu = mobius(m);
        assert(-x <= -mu * f <= x) by (nonlinear_arith)
            requires
                -1 <= mu <= 1,
                0 <= f <= x,
        ;
    }
}

/// A row over `(a, e]` is at most `(e - a) * x` in size, its weights at
/// most `e - a`.
pub proof fn lemma_row_bound(x: int, y: int, primes: Seq<u32>, b: int, a: int, e: int, lo: int, hi: int)
    requires
        x >= 0,
        a <= e,
        primes[b] >= 1,
    ensures
        -(e - a) * x <= leaf_row(x, y, primes, b, a, e, lo, hi) <= (e - a) * x,
        -(e - a) <= weight_row(x, y, primes, b, a, e, lo, hi) <= e - a,
    decreases e - a,
{
    if e > a {
        lemma_row_bound(x, y, primes, b, a, e - 1, lo, hi);
        lemma_leaf_term_bound(x, y, primes, b, e, lo, hi);
        assert((e - a) * x == (e - 1 - a) * x + x) by (nonlinear_arith);
        assert(-(e - a) * x == -((e - 1 - a) * x) - x) by (nonlinear_arith);
        assert(-(e - 1 - a) * x == -((e - 1 - a) * x)) by (nonlinear_arith);
    } else {
        assert((e - a) * x == 0) by (nonlinear_arith)
            requires
                e == a,
        ;
    }
}

/// A sum of rows over `b` in `(c, bmax]` is at most `(bmax - c) * y * x` in
/// size.
pub proof fn lemma_rows_bound(x: int, y: int, primes: Seq<u32>, c: int, bmax: int, lo: int, hi: int)
    requires
        x >= 0,
        y >= 0,
        c <= bmax,
        forall|b: int| c < b <= bmax ==> #[trigger] primes[b] >= 1,
    ensures
        -(bmax - c) * y * x <= leaf_rows(x, y, primes, c, bmax, lo, hi) <= (bmax - c) * y * x,
    decreases bmax - c,
{
    if bmax > c {
        lemma_rows_bound(x, y, primes, c, bmax - 1, lo, hi);
        assert(primes[bmax] >= 1);
        lemma_row_bound(x, y, primes, bmax, 0, y, lo, hi);
        assert((bmax - c) * y * x == (bmax - 1 - c) * y * x + (y - 0) * x) by (nonlinear_arith);
        assert(-(bmax - c) * y * x == -((bmax - 1 - c) * y * x) - (y - 0) * x) by (nonlinear_arith);
        assert(-(bmax - 1 - c) * y * x == -((bmax - 1 - c) * y * x)) by (nonlinear_arith);
        assert(-(y - 0) * x == -((y - 0) * x)) by (nonlinear_arith);
    } else {
        assert((bmax - c) * y * x == 0) by (nonlinear_arith)
            requires
                bmax == c,
        ;
    }
}

/// Every special leaf has `n <= x / y`, so the leaves with `n` in
/// `[0, hi)` for any `hi > x / y` are all of them.
pub proof fn lemma_leaf_n_le_z(x: int, y: int, primes: Seq<u32>, b: int, m: int)
    requires
        x >= 0,
        y >= 1,
        primes[b] >= 1,
        is_special_leaf(y, primes, b, m),
    ensures
        0 <= leaf_n(x, primes, b, m) <= x / y,
{
    let p = primes[b] as int;
    lemma_fundamental_div_mod(y, p);
    assert(p * m >= y + 1) by (nonlinear_arith)
        requires
            y / p < m,
            y == p * (y / p) + y % p,
            0 <= y % p < p,
    ;
    lemma_div_denominator(x, p, m);
    lemma_div_is_ordered_by_denominator(x, y, p * m);
    lemma_div_pos_is_pos(x, p * m);
}

/// The leaves with `n` below any `hi > x / y` are all the leaves.
pub proof fn lemma_rows_all_below(x: int, y: int, primes: Seq<u32>, c: int, bmax: int, hi: int)
    requires
        x >= 0,
        y >= 1,
        hi > x / y,
        forall|b: int| c < b <= bmax ==> #[trigger] primes[b] >= 1,
    ensures
        leaf_rows(x, y, primes, c, bmax, 0, hi) == leaf_rows(x, y, primes, c, bmax, 0, x + 1),
    decreases bmax - c,
{
    if bmax > c {
        lemma_rows_all_below(x, y, primes, c, bmax - 1, hi);
        assert(primes[bmax] >= 1);
        lemma_row_all_below(x, y, primes, bmax, 0, y, hi);
    }
}

pub proof fn lemma_row_all_below(x: int, y: int, primes: Seq<u32>, b: int, a: int, e: int, hi: int)
    requires
        x >= 0,
        y >= 1,
        hi > x / y,
        primes[b] >= 1,
    ensures
        leaf_row(x, y, primes, b, a, e, 0, hi) == leaf_row(x, y, primes, b, a, e, 0, x + 1),
    decreases e - a,
{
    if e > a {
        lemma_row_all_below(x, y, primes, b, a, e - 1, hi);
        if is_special_leaf(y, primes, b, e) {
            lemma_leaf_n_le_z(x, y, primes, b, e);
            lemma_div_is_ordered_by_denominator(x, 1, y);
        }
    }
}

/// A composite `m >= 2` is at least the square of its least prime factor.
pub proof fn lemma_composite_lpf_square(m: int)
    requires
        2 <= m < NO_FACTOR,
        !is_prime(m as nat),
    ensures
        least_prime_factor(m) * least_prime_factor(m) <= m,
{
    lemma_least_prime_factor(m);
    let d = least_prime_factor(m);
    lemma_fundamental_div_mod(m, d);
    let k = m / d;
    assert(m == d * k);
    if k < 2 {
        assert(m == d) by (nonlinear_arith)
            requires
                m == d * k,
                m >= 2,
                d >= 2,
                k < 2,
        ;
    }
    assert(m % k == 0) by {
        lemma_mod_multiples_basic(d, k);
        assert(d * k == k * d) by (nonlinear_arith);
    }
    if k < d {
        assert(m % k != 0);
    }
    assert(d * d <= d * k) by (nonlinear_arith)
        requires
            d <= k,
            d >= 0,
    ;
}

/// The Moebius function of a prime is -1.
pub proof fn lemma_mobius_prime(q: int)
    requires
        q >= 2,
        is_prime(q as nat),
    ensures
        mobius(q) == -1,
{
    lemma_mobius_upto_below_prime(q, q - 1);
    lemma_mod_self_0(q);
    assert(q < q * q) by (nonlinear_arith)
        requires
            q >= 2,
    ;
    lemma_small_mod(q as nat, (q * q) as nat);
}

proof fn lemma_mobius_upto_below_prime(q: int, k: int)
    requires
        q >= 2,
        is_prime(q as nat),
        k < q,
    ensures
        crate::tables::mobius_upto(q, k) == 1,
    decreases k,
{
    if k >= 2 {
        lemma_mobius_upto_below_prime(q, k - 1);
        if is_prime(k as nat) {
            assert((q as nat) % (k as nat) != 0);
            assert(k * k >= 4) by (nonlinear_arith)
                requires
                    k >= 2,
            ;
            if q % (k * k) == 0 {
                lemma_fundamental_div_mod(q, k * k);
                let t = q / (k * k);
                assert(q == k * (k * t)) by (nonlinear_arith)
                    requires
                        q == (k * k) * t + q % (k * k),
                        q % (k * k) == 0,
                ;
                lemma_mod_multiples_basic(k * t, k);
                assert((k * t) * k == k * (k * t)) by (nonlinear_arith);
            }
        }
    }
}

/// Above the prime `p_b` with `p_b * p_b > y`, the special leaves of `p_b`
/// are exactly the primes in `(p_b, y]`, each of weight 1.
pub proof fn lemma_easy_leaf(y: int, primes: Seq<u32>, b: int, m: int)
    requires
        prime_table(primes, y),
        y < NO_FACTOR,
        1 <= b < primes.len(),
        (primes[b] as int) * (primes[b] as int) > y,
    ensures
        is_special_leaf(y, primes, b, m) <==> (is_prime(m as nat) && primes[b] < m <= y),
        is_special_leaf(y, primes, b, m) ==> mobius(m) == -1,
{
    lemma_prime_table(primes, y);
    let p = primes[b] as int;
    if is_special_leaf(y, primes, b, m) {
        if m == 1 {
            lemma_div_is_ordered(p, y, p);
            lemma_div_by_self(p);
        }
        lemma_least_prime_factor(m);
        let d = least_prime_factor(m);
        if !is_prime(m as nat) {
            lemma_composite_lpf_square(m);
            assert(d * d > p * p) by (nonlinear_arith)
                requires
                    d > p,
                    p >= 0,
            ;
        }
        crate::tables::lemma_least_prime_factor_of_prime(m);
        lemma_mobius_prime(m);
    }
    if is_prime(m as nat) && p < m <= y {
        crate::tables::lemma_least_prime_factor_of_prime(m);
        lemma_mobius_prime(m);
        lemma_fundamental_div_mod(y, p);
        assert(y / p < m) by (nonlinear_arith)
            requires
                y == p * (y / p) + y % p,
                0 <= y % p,
                p * p > y,
                m > p,
                p >= 2,
        ;
    }
}

/// No leaf `m` of `p_b` lies at or below `p_b`.
pub proof fn lemma_leaf_above_prime(y: int, primes: Seq<u32>, b: int, m: int)
    requires
        prime_table(primes, y),
        y < NO_FACTOR,
        1 <= b < primes.len(),
        is_special_leaf(y, primes, b, m),
    ensures
        m > primes[b],
{
    lemma_prime_table(primes, y);
    let p = primes[b] as int;
    if m == 1 {
        lemma_div_is_ordered(p, y, p);
        lemma_div_by_self(p);
    } else {
        lemma_least_prime_factor(m);
    }
}

/// The positions below `len` of a sieve of the numbers from `low` hold
/// whether the number is positive and divisible by none of `primes[1..=k]`.
pub open spec fn sieve_holds(bits: Seq<u64>, len: int, low: int, primes: Seq<u32>, k: int) -> bool {
    forall|i: int|
        0 <= i < len ==> (#[trigger] crate::pi_sieve::flat_bit(bits, i) <==> (low + i != 0 && coprime_first(
            low + i,
            primes,
            k,
        )))
}

/// Such a sieve counts phi over its stretch.
pub proof fn lemma_sieve_counts_phi(bits: Seq<u64>, len: int, low: int, primes: Seq<u32>, k: int, j: int)
    requires
        sieve_holds(bits, len, low, primes, k),
        low >= 0,
        0 <= j <= len,
    ensures
        crate::pi_sieve::flat_ones(bits, j) == phi_first(low + j - 1, primes, k) - phi_first(low - 1, primes, k),
    decreases j,
{
    if j > 0 {
        lemma_sieve_counts_phi(bits, len, low, primes, k, j - 1);
        assert(crate::pi_sieve::flat_bit(bits, j - 1) <==> (low + j - 1 != 0 && coprime_first(low + j - 1, primes, k)));
    }
}

/// `start` is the position of the first positive multiple of `p` from `low`.
pub open spec fn first_multiple_at(low: int, p: int, start: int) -> bool {
    &&& start >= 0
    &&& (low + start) % p == 0
    &&& low + start >= 1
    &&& (start < p || low + start <= p)
}

/// Crossing off the positions `start, start + p, ...` strikes exactly the
/// positive multiples of `p`; with `p = primes[k]` the sieve then holds
/// the numbers divisible by none of `primes[1..=k]`.
pub proof fn lemma_cross_off_holds(
    old_bits: Seq<u64>,
    new_bits: Seq<u64>,
    len: int,
    low: int,
    primes: Seq<u32>,
    k: int,
    start: int,
)
    requires
        k >= 1,
        primes[k] >= 1,
        low >= 0,
        first_multiple_at(low, primes[k] as int, start),
        sieve_holds(old_bits, len, low, primes, k - 1),
        forall|i: int|
            0 <= i < len ==> #[trigger] crate::pi_sieve::flat_bit(new_bits, i) == (crate::pi_sieve::flat_bit(
                old_bits,
                i,
            ) && !(start <= i && (i - start) % (primes[k] as int) == 0)),
    ensures
        sieve_holds(new_bits, len, low, primes, k),
{
    let p = primes[k] as int;
    assert forall|i: int| 0 <= i < len implies (#[trigger] crate::pi_sieve::flat_bit(new_bits, i) <==> (low + i != 0
        && coprime_first(low + i, primes, k))) by {
        let j = low + i;
        let struck = start <= i && (i - start) % p == 0;
        assert(struck <==> (j % p == 0 && j >= 1)) by {
            if struck {
                lemma_fundamental_div_mod(i - start, p);
                let t = (i - start) / p;
                assert(j == (low + start) + p * t);
                lemma_mod_multiples_vanish(t, low + start, p);
                assert(p * t >= 0) by (nonlinear_arith)
                    requires
                        p >= 1,
                        i - start == p * t + (i - start) % p,
                        (i - start) % p == 0,
                        i - start >= 0,
                ;
            }
            if j % p == 0 && j >= 1 {
                if i < start {
                    crate::tables::lemma_multiples_apart(low + start, j, p);
                }
                lemma_fundamental_div_mod(j, p);
                lemma_fundamental_div_mod(low + start, p);
                let t = j / p - (low + start) / p;
                assert(i - start == p * t) by (nonlinear_arith)
                    requires
                        j == p * (j / p),
                        low + start == p * ((low + start) / p),
                        t == j / p - (low + start) / p,
                        i - start == j - (low + start),
                ;
                lemma_mod_multiples_basic(t, p);
                assert(t * p == p * t) by (nonlinear_arith);
            }
        }
        if coprime_first(j, primes, k) {
            assert(j % (primes[k] as int) != 0);
        }
        if coprime_first(j, primes, k - 1) && j % p != 0 {
            assert forall|i2: int| 1 <= i2 <= k implies #[trigger] (j % (primes[i2] as int)) != 0 by {
                if i2 < k {
                    assert(j % (primes[i2] as int) != 0);
                }
            }
        }
        if coprime_first(j, primes, k) {
            assert forall|i2: int| 1 <= i2 <= k - 1 implies #[trigger] (j % (primes[i2] as int)) != 0 by {
                assert(j % (primes[i2] as int) != 0);
            }
        }
    }
}

/// `max(low, 1)`: the least number a segment from `low` counts.
pub open spec fn low1(low: int) -> int {
    if low > 1 {
        low
    } else {
        1
    }
}

/// The largest `m` whose leaf of `p_b` can lie in the segment from `low`:
/// `min(x / p_b / max(low, 1), y)`.
pub open spec fn seg_max_m(x: int, y: int, primes: Seq<u32>, b: int, low: int) -> int {
    let v = (x / (primes[b] as int)) / low1(low);
    if v < y {
        v
    } else {
        y
    }
}

/// No leaf of `p_b` (nor of any later prime) lies in the segment from
/// `low`: the prime is the last, or its square exceeds `x / max(low, 1)`,
/// or it reaches the largest `m`, or, above `sqrt(y)` where the leaves are
/// primes, it reaches the largest prime up to that `m`.
pub open spec fn segment_done(x: int, y: int, primes: Seq<u32>, pi_sqrty: int, b: int, low: int) -> bool {
    ||| b >= primes.len() - 1
    ||| (primes[b] as int) * (primes[b] as int) > x / low1(low)
    ||| primes[b] >= seg_max_m(x, y, primes, b, low)
    ||| (b > pi_sqrty && primes[b] >= primes[prime_count(seg_max_m(x, y, primes, b, low) as nat) as int])
}

/// The bounds that tie `pi_sqrty` to `y`.
pub open spec fn sqrt_bounds(y: int, s_y: int, pi_sqrty: int) -> bool {
    &&& 0 <= s_y
    &&& s_y * s_y <= y < (s_y + 1) * (s_y + 1)
    &&& pi_sqrty == prime_count(s_y as nat)
}

/// A leaf of a prime that is done in the segment from `low` has its `n`
/// below `max(low, 1)`.
pub proof fn lemma_done_leaf_below(x: int, y: int, primes: Seq<u32>, s_y: int, pi_sqrty: int, b: int, low: int, m: int)
    requires
        prime_table(primes, y),
        y < NO_FACTOR,
        x >= 0,
        low >= 0,
        sqrt_bounds(y, s_y, pi_sqrty),
        1 <= b <= primes.len() - 2,
        segment_done(x, y, primes, pi_sqrty, b, low),
        is_special_leaf(y, primes, b, m),
    ensures
        leaf_n(x, primes, b, m) < low1(low),
{
    lemma_prime_table(primes, y);
    lemma_leaf_above_prime(y, primes, b, m);
    let p = primes[b] as int;
    let l1 = low1(low);
    let xp = x / p;
    let mm = seg_max_m(x, y, primes, b, low);
    if p * p > x / l1 {
        lemma_fundamental_div_mod(x, l1);
        lemma_fundamental_div_mod(x, p);
        lemma_div_pos_is_pos(x, p);
        lemma_div_pos_is_pos(xp, m);
        lemma_fundamental_div_mod(xp, m);
        assert(xp / m < l1) by (nonlinear_arith)
            requires
                p * p >= x / l1 + 1,
                x == l1 * (x / l1) + x % l1,
                x % l1 < l1,
                x == p * xp + x % p,
                x % p >= 0,
                xp == m * (xp / m) + xp % m,
                xp % m >= 0,
                m > p,
                p >= 2,
                l1 >= 1,
                xp / m >= 0,
        ;
    } else if p >= mm {
        assert(m > (x / p) / l1);
        lemma_beyond_max_m(x, p, l1, m);
    } else {
        assert(b > pi_sqrty);
        assert(s_y <= y) by (nonlinear_arith)
            requires
                s_y * s_y <= y,
                s_y >= 0,
        ;
        assert(p >= primes[prime_count(mm as nat) as int]);
        // above sqrt(y) the leaf is a prime
        assert(s_y < p) by {
            lemma_prime_table_floor(primes, y, s_y);
            if p <= s_y {
                lemma_prime_count_monotone(p as nat, s_y as nat);
            }
        }
        assert(p * p > y) by (nonlinear_arith)
            requires
                p >= s_y + 1,
                y < (s_y + 1) * (s_y + 1),
                s_y >= 0,
        ;
        lemma_easy_leaf(y, primes, b, m);
        assert(0 <= mm) by {
            lemma_div_pos_is_pos(x, p);
            lemma_div_pos_is_pos(xp, l1);
        }
        if m <= mm {
            lemma_prime_table_floor(primes, y, mm);
            lemma_prime_count_monotone(m as nat, mm as nat);
            let lm = prime_count(m as nat) as int;
            let lmm = prime_count(mm as nat) as int;
            assert(primes[lm] == m);
            if lm < lmm {
                assert(primes[lm] < primes[lmm]);
            }
        }
        assert(m > (x / p) / l1);
        lemma_beyond_max_m(x, p, l1, m);
    }
}

/// `m` beyond `x / p / l1` has `x / p / m` below `l1`.
proof fn lemma_beyond_max_m(x: int, p: int, l1: int, m: int)
    requires
        x >= 0,
        p >= 1,
        l1 >= 1,
        m > (x / p) / l1,
    ensures
        (x / p) / m < l1,
{
    let xp = x / p;
    lemma_div_pos_is_pos(x, p);
    lemma_fundamental_div_mod(xp, l1);
    assert(xp < m * l1) by (nonlinear_arith)
        requires
            m >= xp / l1 + 1,
            xp == l1 * (xp / l1) + xp % l1,
            xp % l1 < l1,
            l1 >= 1,
    ;
    lemma_div_pos_is_pos(xp, m);
    lemma_fundamental_div_mod(xp, m);
    assert(xp / m < l1) by (nonlinear_arith)
        requires
            xp < m * l1,
            xp == m * (xp / m) + xp % m,
            xp % m >= 0,
            m >= 1,
    ;
}

/// Numbers below `max(low, 1)` lie in `[low, high)` only as `n = 0`, which
/// adds nothing; with `low >= 1`, or with `y * y <= x` (every leaf then
/// having `n >= 1`), none lie there at all.
pub proof fn lemma_done_row_zero(x: int, y: int, primes: Seq<u32>, s_y: int, pi_sqrty: int, b: int, low: int, high: int)
    requires
        prime_table(primes, y),
        y < NO_FACTOR,
        x >= 0,
        low >= 0,
        sqrt_bounds(y, s_y, pi_sqrty),
        1 <= b <= primes.len() - 2,
        segment_done(x, y, primes, pi_sqrty, b, low),
    ensures
        leaf_row(x, y, primes, b, 0, y, low, high) == 0,
        low >= 1 || y * y <= x ==> weight_row(x, y, primes, b, 0, y, low, high) == 0,
{
    assert forall|m: int|
        0 < m <= y && #[trigger] is_special_leaf(y, primes, b, m) && low <= leaf_n(x, primes, b, m) < high
            implies leaf_n(x, primes, b, m) <= 0 by {
        lemma_done_leaf_below(x, y, primes, s_y, pi_sqrty, b, low, m);
    }
    lemma_row_zero_n(x, y, primes, b, 0, y, low, high);
    if low >= 1 || y * y <= x {
        assert forall|m: int|
            0 < m <= y && #[trigger] is_special_leaf(y, primes, b, m) && low <= leaf_n(x, primes, b, m) < high
                implies leaf_n(x, primes, b, m) <= 0 && low > 0 by {
            lemma_done_leaf_below(x, y, primes, s_y, pi_sqrty, b, low, m);
            if low < 1 {
                lemma_leaf_n_positive(x, y, primes, b, m);
            }
        }
        lemma_row_zero(x, y, primes, b, 0, y, low, high);
    }
}

/// With `y * y <= x` every leaf has `n >= 1`.
pub proof fn lemma_leaf_n_positive(x: int, y: int, primes: Seq<u32>, b: int, m: int)
    requires
        prime_table(primes, y),
        y * y <= x,
        1 <= b < primes.len(),
        is_special_leaf(y, primes, b, m),
    ensures
        leaf_n(x, primes, b, m) >= 1,
{
    lemma_prime_table(primes, y);
    let p = primes[b] as int;
    assert(p * m <= x) by (nonlinear_arith)
        requires
            1 <= p <= y,
            1 <= m <= y,
            y * y <= x,
    ;
    lemma_div_denominator(x, p, m);
    lemma_div_is_ordered(p * m, x, p * m);
    lemma_div_by_self(p * m);
}

/// Being done persists to later primes and later segments.
pub proof fn lemma_done_monotone(
    x: int,
    y: int,
    primes: Seq<u32>,
    pi_sqrty: int,
    b: int,
    b2: int,
    low: int,
    low2: int,
)
    requires
        prime_table(primes, y),
        x >= 0,
        1 <= b <= b2,
        0 <= low <= low2,
        segment_done(x, y, primes, pi_sqrty, b, low),
    ensures
        segment_done(x, y, primes, pi_sqrty, b2, low2),
{
    lemma_prime_table(primes, y);
    if b2 < primes.len() - 1 && b < primes.len() - 1 {
        let p = primes[b] as int;
        let p2 = primes[b2] as int;
        assert(p <= p2) by {
            if b < b2 {
                assert(primes[b] < primes[b2]);
            }
        }
        lemma_div_is_ordered_by_denominator(x, low1(low), low1(low2));
        if p * p > x / low1(low) {
            assert(p2 * p2 >= p * p) by (nonlinear_arith)
                requires
                    p2 >= p,
                    p >= 0,
            ;
        }
        let mm = seg_max_m(x, y, primes, b, low);
        let mm2 = seg_max_m(x, y, primes, b2, low2);
        assert(0 <= mm2 <= mm) by {
            lemma_div_is_ordered_by_denominator(x, p, p2);
            lemma_div_pos_is_pos(x, p2);
            lemma_div_is_ordered(x / p2, x / p, low1(low2));
            lemma_div_is_ordered_by_denominator(x / p, low1(low), low1(low2));
            lemma_div_pos_is_pos(x / p2, low1(low2));
        }
        if b > pi_sqrty && p >= primes[prime_count(mm as nat) as int] {
            lemma_prime_table_floor(primes, y, mm);
            lemma_prime_table_floor(primes, y, mm2);
            lemma_prime_count_monotone(mm2 as nat, mm as nat);
            let i2 = prime_count(mm2 as nat) as int;
            let i1 = prime_count(mm as nat) as int;
            if 1 <= i2 && i2 < i1 {
                assert(primes[i2] < primes[i1]);
            }
        }
    }
}

/// The value of the leaf with the `l`-th prime as `m`, when its `n` lies
/// in `[lo, hi)`: `phi(n, b - 1)`.
pub open spec fn easy_term(x: int, primes: Seq<u32>, b: int, l: int, lo: int, hi: int) -> int {
    let n = leaf_n(x, primes, b, primes[l] as int);
    if lo <= n < hi {
        phi_first(n, primes, b - 1)
    } else {
        0
    }
}

/// Those leaves for `l` in `(a, e]`.
pub open spec fn easy_row(x: int, primes: Seq<u32>, b: int, a: int, e: int, lo: int, hi: int) -> int
    decreases e - a,
{
    if e <= a {
        0
    } else {
        easy_row(x, primes, b, a, e - 1, lo, hi) + easy_term(x, primes, b, e, lo, hi)
    }
}

/// How many of them have `n` in `[lo, hi)`.
pub open spec fn easy_count(x: int, primes: Seq<u32>, b: int, a: int, e: int, lo: int, hi: int) -> int
    decreases e - a,
{
    if e <= a {
        0
    } else {
        easy_count(x, primes, b, a, e - 1, lo, hi) + if lo <= leaf_n(x, primes, b, primes[e] as int) < hi {
            1int
        } else {
            0int
        }
    }
}

/// Above `sqrt(y)` the row of `p_b` over `m` in `(primes[l1], primes[l2]]`
/// is the sum over the primes `primes[l1 + 1..=l2]`.
pub proof fn lemma_easy_rows(x: int, y: int, primes: Seq<u32>, b: int, l1: int, l2: int, lo: int, hi: int)
    requires
        prime_table(primes, y),
        y < NO_FACTOR,
        1 <= b <= l1 <= l2 < primes.len(),
        (primes[b] as int) * (primes[b] as int) > y,
    ensures
        leaf_row(x, y, primes, b, primes[l1] as int, primes[l2] as int, lo, hi) == easy_row(x, primes, b, l1, l2, lo, hi),
        weight_row(x, y, primes, b, primes[l1] as int, primes[l2] as int, lo, hi) == easy_count(
            x,
            primes,
            b,
            l1,
            l2,
            lo,
            hi,
        ),
    decreases l2 - l1,
{
    lemma_prime_table(primes, y);
    if l2 > l1 {
        lemma_easy_rows(x, y, primes, b, l1, l2 - 1, lo, hi);
        let q0 = primes[l2 - 1] as int;
        let q = primes[l2] as int;
        assert(primes[l1] as int <= q0) by {
            if l1 < l2 - 1 {
                assert(primes[l1] < primes[l2 - 1]);
            }
        }
        assert(q0 < q);
        lemma_row_concat(x, y, primes, b, primes[l1] as int, q0, q, lo, hi);
        assert forall|m: int| q0 < m <= q - 1 && #[trigger] is_special_leaf(y, primes, b, m) && lo <= leaf_n(
            x,
            primes,
            b,
            m,
        ) < hi implies leaf_n(x, primes, b, m) <= 0 && lo > 0 by {
            lemma_easy_leaf(y, primes, b, m);
            lemma_prime_count_above(q0 as nat, m as nat);
            lemma_prime_count_above(m as nat, q as nat);
        }
        lemma_row_zero(x, y, primes, b, q0, q - 1, lo, hi);
        assert(b < l2);
        assert(primes[b] < primes[l2]);
        lemma_easy_leaf(y, primes, b, q);
        assert(mobius(q) == -1);
        let f = phi_first(leaf_n(x, primes, b, q), primes, b - 1);
        assert(-mobius(q) * f == f) by (nonlinear_arith)
            requires
                mobius(q) == -1,
        ;
        assert(leaf_term(x, y, primes, b, q, lo, hi) == easy_term(x, primes, b, l2, lo, hi));
        assert(leaf_row(x, y, primes, b, q0, q, lo, hi) == leaf_row(x, y, primes, b, q0, q - 1, lo, hi) + leaf_term(
            x,
            y,
            primes,
            b,
            q,
            lo,
            hi,
        ));
    }
}

/// A sum over `l` in `(a, e]` is the sum over `(a, d]` plus that over
/// `(d, e]`.
pub proof fn lemma_easy_row_concat(x: int, primes: Seq<u32>, b: int, a: int, d: int, e: int, lo: int, hi: int)
    requires
        a <= d <= e,
    ensures
        easy_row(x, primes, b, a, e, lo, hi) == easy_row(x, primes, b, a, d, lo, hi) + easy_row(x, primes, b, d, e, lo, hi),
        easy_count(x, primes, b, a, e, lo, hi) == easy_count(x, primes, b, a, d, lo, hi) + easy_count(
            x,
            primes,
            b,
            d,
            e,
            lo,
            hi,
        ),
    decreases e - d,
{
    if e > d {
        lemma_easy_row_concat(x, primes, b, a, d, e - 1, lo, hi);
    }
}

/// Such a sum is at most `(e - a) * x`, and its count at most `e - a`.
pub proof fn lemma_easy_row_bound(x: int, primes: Seq<u32>, b: int, a: int, e: int, lo: int, hi: int)
    requires
        x >= 0,
        a <= e,
        primes[b] >= 1,
        forall|l: int| a < l <= e ==> #[trigger] primes[l] >= 1,
    ensures
        0 <= easy_row(x, primes, b, a, e, lo, hi) <= (e - a) * x,
        0 <= easy_count(x, primes, b, a, e, lo, hi) <= e - a,
    decreases e - a,
{
    if e > a {
        lemma_easy_row_bound(x, primes, b, a, e - 1, lo, hi);
        let p = primes[b] as int;
        let q = primes[e] as int;
        let n = leaf_n(x, primes, b, q);
        lemma_div_is_ordered_by_denominator(x, 1, p);
        lemma_div_pos_is_pos(x, p);
        lemma_div_is_ordered_by_denominator(x / p, 1, q);
        lemma_div_pos_is_pos(x / p, q);
        lemma_phi_first_bounds(n, primes, b - 1);
        assert((e - a) * x == (e - 1 - a) * x + x) by (nonlinear_arith);
    } else {
        assert((e - a) * x == 0) by (nonlinear_arith)
            requires
                e == a,
        ;
    }
}

/// A leaf of `p_b` with `n` in `[lo, hi)` has `m` in the window
/// `(max(x / p_b / hi, y / p_b), min(x / p_b / max(lo, 1), y)]`, unless its
/// `n` is 0.
pub proof fn lemma_hard_window_leaf(x: int, y: int, primes: Seq<u32>, b: int, lo: int, hi: int, min_m: int, max_m: int, m: int)
    requires
        x >= 0,
        y >= 1,
        0 <= lo < hi,
        primes[b] >= 1,
        min_m == (if (x / (primes[b] as int)) / hi > y / (primes[b] as int) {
            (x / (primes[b] as int)) / hi
        } else {
            y / (primes[b] as int)
        }),
        max_m == seg_max_m(x, y, primes, b, lo),
        is_special_leaf(y, primes, b, m),
        lo <= leaf_n(x, primes, b, m) < hi,
    ensures
        (min_m < m <= max_m) || leaf_n(x, primes, b, m) <= 0,
{
    let p = primes[b] as int;
    let xp = x / p;
    lemma_div_pos_is_pos(x, p);
    if m <= xp / hi {
        lemma_fundamental_div_mod(xp, hi);
        lemma_fundamental_div_mod(xp, m);
        assert(xp / m >= hi) by (nonlinear_arith)
            requires
                m <= xp / hi,
                xp == hi * (xp / hi) + xp % hi,
                0 <= xp % hi,
                xp == m * (xp / m) + xp % m,
                0 <= xp % m < m,
                hi >= 1,
                m >= 1,
        ;
    }
    if m > max_m {
        assert(m > xp / low1(lo));
        lemma_beyond_max_m_pub(x, p, low1(lo), m);
    }
}

/// `m` beyond `x / p / l1` has `x / p / m` below `l1`.
pub proof fn lemma_beyond_max_m_pub(x: int, p: int, l1: int, m: int)
    requires
        x >= 0,
        p >= 1,
        l1 >= 1,
        m > (x / p) / l1,
    ensures
        (x / p) / m < l1,
{
    lemma_beyond_max_m(x, p, l1, m);
}

/// The row of `p_b` in a segment is its part over the window of `m`.
pub proof fn lemma_hard_window(x: int, y: int, primes: Seq<u32>, b: int, lo: int, hi: int, min_m: int, max_m: int)
    requires
        x >= 0,
        y >= 1,
        0 <= lo < hi,
        primes[b] >= 1,
        min_m == (if (x / (primes[b] as int)) / hi > y / (primes[b] as int) {
            (x / (primes[b] as int)) / hi
        } else {
            y / (primes[b] as int)
        }),
        max_m == seg_max_m(x, y, primes, b, lo),
    ensures
        leaf_row(x, y, primes, b, 0, y, lo, hi) == leaf_row(x, y, primes, b, min_m, max_m, lo, hi),
        (lo >= 1 || (forall|m: int| #[trigger] is_special_leaf(y, primes, b, m) ==> leaf_n(x, primes, b, m) >= 1))
            ==> weight_row(x, y, primes, b, 0, y, lo, hi) == weight_row(x, y, primes, b, min_m, max_m, lo, hi),
{
    let p = primes[b] as int;
    lemma_div_pos_is_pos(x, p);
    lemma_div_pos_is_pos(x / p, hi);
    lemma_div_pos_is_pos(y, p);
    lemma_div_pos_is_pos(x / p, low1(lo));
    let strong = lo >= 1 || (forall|m: int| #[trigger] is_special_leaf(y, primes, b, m) ==> leaf_n(x, primes, b, m) >= 1);
    assert forall|m: int| 0 < m <= y && #[trigger] is_special_leaf(y, primes, b, m) && lo <= leaf_n(x, primes, b, m) < hi
        && !(min_m < m <= max_m) implies leaf_n(x, primes, b, m) <= 0 && (strong ==> lo > 0) by {
        lemma_hard_window_leaf(x, y, primes, b, lo, hi, min_m, max_m, m);
    }
    if min_m < max_m {
        assert(0 <= min_m && max_m <= y);
        lemma_row_concat(x, y, primes, b, 0, min_m, y, lo, hi);
        lemma_row_concat(x, y, primes, b, min_m, max_m, y, lo, hi);
        lemma_row_zero_n(x, y, primes, b, 0, min_m, lo, hi);
        lemma_row_zero_n(x, y, primes, b, max_m, y, lo, hi);
        if strong {
            lemma_row_zero(x, y, primes, b, 0, min_m, lo, hi);
            lemma_row_zero(x, y, primes, b, max_m, y, lo, hi);
        }
    } else {
        lemma_row_zero_n(x, y, primes, b, 0, y, lo, hi);
        if strong {
            lemma_row_zero(x, y, primes, b, 0, y, lo, hi);
        }
        assert(leaf_row(x, y, primes, b, min_m, max_m, lo, hi) == 0);
        assert(weight_row(x, y, primes, b, min_m, max_m, lo, hi) == 0);
    }
}

/// Above `sqrt(y)`, the row of `p_b` in a segment is the sum over the
/// primes `primes[s + 1..=l]`, where `l` indexes the largest prime up to the
/// largest `m` and the walk down from it stopped at `s`, at the first prime
/// not above `max(x / p_b / hi, p_b)`.
pub proof fn lemma_easy_window(
    x: int,
    y: int,
    primes: Seq<u32>,
    b: int,
    lo: int,
    hi: int,
    min_m: int,
    s: int,
    l: int,
)
    requires
        prime_table(primes, y),
        y < NO_FACTOR,
        x >= 0,
        y >= 1,
        0 <= lo < hi,
        1 <= b < primes.len(),
        (primes[b] as int) * (primes[b] as int) > y,
        min_m == (if (x / (primes[b] as int)) / hi > primes[b] as int {
            (x / (primes[b] as int)) / hi
        } else {
            primes[b] as int
        }),
        l == prime_count(seg_max_m(x, y, primes, b, lo) as nat),
        b <= s <= l,
        primes[s] <= min_m,
        forall|k: int| s < k <= l ==> #[trigger] primes[k] > min_m,
    ensures
        leaf_row(x, y, primes, b, 0, y, lo, hi) == easy_row(x, primes, b, s, l, lo, hi),
        (lo >= 1 || (forall|m: int| #[trigger] is_special_leaf(y, primes, b, m) ==> leaf_n(x, primes, b, m) >= 1))
            ==> weight_row(x, y, primes, b, 0, y, lo, hi) == easy_count(x, primes, b, s, l, lo, hi),
{
    lemma_prime_table(primes, y);
    let p = primes[b] as int;
    let xp = x / p;
    lemma_div_pos_is_pos(x, p);
    lemma_div_pos_is_pos(xp, hi);
    lemma_div_pos_is_pos(y, p);
    lemma_div_pos_is_pos(xp, low1(lo));
    let hard_min = if xp / hi > y / p {
        xp / hi
    } else {
        y / p
    };
    let mm = seg_max_m(x, y, primes, b, lo);
    assert(0 <= mm <= y);
    lemma_prime_table_floor(primes, y, mm);
    let ps = primes[s] as int;
    let pl = primes[l] as int;
    assert(ps <= pl) by {
        if s < l {
            assert(primes[s] < primes[l]);
        }
    }
    let strong = lo >= 1 || (forall|m: int| #[trigger] is_special_leaf(y, primes, b, m) ==> leaf_n(x, primes, b, m) >= 1);
    assert forall|m: int| 0 < m <= ps && #[trigger] is_special_leaf(y, primes, b, m) && lo <= leaf_n(x, primes, b, m) < hi
        implies leaf_n(x, primes, b, m) <= 0 && (strong ==> lo > 0) by {
        lemma_hard_window_leaf(x, y, primes, b, lo, hi, hard_min, mm, m);
        lemma_leaf_above_prime(y, primes, b, m);
    }
    assert forall|m: int| pl < m <= y && #[trigger] is_special_leaf(y, primes, b, m) && lo <= leaf_n(x, primes, b, m) < hi
        implies leaf_n(x, primes, b, m) <= 0 && (strong ==> lo > 0) by {
        lemma_hard_window_leaf(x, y, primes, b, lo, hi, hard_min, mm, m);
        lemma_easy_leaf(y, primes, b, m);
        if m <= mm {
            lemma_prime_count_monotone(m as nat, mm as nat);
            let lm = prime_count(m as nat) as int;
            assert(primes[lm] == m);
            if lm < l {
                assert(primes[lm] < primes[l]);
            }
        }
    }
    lemma_row_concat(x, y, primes, b, 0, ps, y, lo, hi);
    lemma_row_concat(x, y, primes, b, ps, pl, y, lo, hi);
    lemma_row_zero_n(x, y, primes, b, 0, ps, lo, hi);
    lemma_row_zero_n(x, y, primes, b, pl, y, lo, hi);
    lemma_easy_rows(x, y, primes, b, s, l, lo, hi);
    if strong {
        lemma_row_zero(x, y, primes, b, 0, ps, lo, hi);
        lemma_row_zero(x, y, primes, b, pl, y, lo, hi);
    }
}

/// The window of `lemma_easy_window`, with the leaves counted only from
/// `rl >= lo` on: the row of `p_b` over `n` in `[rl, hi)` is the sum over the
/// primes that the walk from `l` down to `s` visits.
pub proof fn lemma_easy_window_from(
    x: int,
    y: int,
    primes: Seq<u32>,
    b: int,
    lo: int,
    rl: int,
    hi: int,
    min_m: int,
    s: int,
    l: int,
)
    requires
        prime_table(primes, y),
        y < NO_FACTOR,
        x >= 0,
        y >= 1,
        0 <= lo < hi,
        lo <= rl,
        1 <= b < primes.len(),
        (primes[b] as int) * (primes[b] as int) > y,
        min_m == (if (x / (primes[b] as int)) / hi > primes[b] as int {
            (x / (primes[b] as int)) / hi
        } else {
            primes[b] as int
        }),
        l == prime_count(seg_max_m(x, y, primes, b, lo) as nat),
        b <= s <= l,
        primes[s] <= min_m,
        forall|k: int| s < k <= l ==> #[trigger] primes[k] > min_m,
    ensures
        leaf_row(x, y, primes, b, 0, y, rl, hi) == easy_row(x, primes, b, s, l, rl, hi),
{
    lemma_prime_table(primes, y);
    let p = primes[b] as int;
    let xp = x / p;
    lemma_div_pos_is_pos(x, p);
    lemma_div_pos_is_pos(xp, hi);
    lemma_div_pos_is_pos(y, p);
    lemma_div_pos_is_pos(xp, low1(lo));
    let hard_min = if xp / hi > y / p {
        xp / hi
    } else {
        y / p
    };
    let mm = seg_max_m(x, y, primes, b, lo);
    assert(0 <= mm <= y);
    lemma_prime_table_floor(primes, y, mm);
    let ps = primes[s] as int;
    let pl = primes[l] as int;
    assert(ps <= pl) by {
        if s < l {
            assert(primes[s] < primes[l]);
        }
    }
    assert forall|m: int| 0 < m <= ps && #[trigger] is_special_leaf(y, primes, b, m) && rl <= leaf_n(x, primes, b, m) < hi
        implies leaf_n(x, primes, b, m) <= 0 by {
        lemma_hard_window_leaf(x, y, primes, b, lo, hi, hard_min, mm, m);
        lemma_leaf_above_prime(y, primes, b, m);
    }
    assert forall|m: int| pl < m <= y && #[trigger] is_special_leaf(y, primes, b, m) && rl <= leaf_n(x, primes, b, m) < hi
        implies leaf_n(x, primes, b, m) <= 0 by {
        lemma_hard_window_leaf(x, y, primes, b, lo, hi, hard_min, mm, m);
        lemma_easy_leaf(y, primes, b, m);
        if m <= mm {
            lemma_prime_count_monotone(m as nat, mm as nat);
            let lm = prime_count(m as nat) as int;
            assert(primes[lm] == m);
            if lm < l {
                assert(primes[lm] < primes[l]);
            }
        }
    }
    lemma_row_concat(x, y, primes, b, 0, ps, y, rl, hi);
    lemma_row_concat(x, y, primes, b, ps, pl, y, rl, hi);
    lemma_row_zero_n(x, y, primes, b, 0, ps, rl, hi);
    lemma_row_zero_n(x, y, primes, b, pl, y, rl, hi);
    lemma_easy_rows(x, y, primes, b, s, l, rl, hi);
}

/// Over a table that starts with the first `c` primes, coprimality to
/// those is coprimality to the table's first `c` entries.
pub proof fn lemma_tiny_coprime(primes: Seq<u32>, c: int, j: int)
    requires
        forall|i: int| 1 <= i <= c ==> #[trigger] primes[i] == tiny_prime_spec(i),
    ensures
        coprime_to_tiny(j, c) == coprime_first(j, primes, c),
{
    if coprime_to_tiny(j, c) {
        assert forall|i: int| 1 <= i <= c implies #[trigger] (j % (primes[i] as int)) != 0 by {
            assert(j % tiny_prime_spec(i) != 0);
        }
    }
    if coprime_first(j, primes, c) {
        assert forall|i: int| 1 <= i <= c implies #[trigger] (j % tiny_prime_spec(i)) != 0 by {
            assert(j % (primes[i] as int) != 0);
        }
    }
}

/// A prime beyond `max_b = min(pi(min(isqrt(x / max(low, 1)), y)), pi(y) - 1)`
/// is done in the segment from `low`.
pub proof fn lemma_beyond_max_b(x: int, y: int, primes: Seq<u32>, pi_sqrty: int, b: int, low: int, s: int)
    requires
        prime_table(primes, y),
        x >= 0,
        low >= 0,
        0 <= s,
        s * s <= x / low1(low) < (s + 1) * (s + 1),
        b >= 1,
        b > (if prime_count((if s < y {
            s
        } else {
            y
        }) as nat) < primes.len() - 2 {
            prime_count((if s < y {
                s
            } else {
                y
            }) as nat) as int
        } else {
            primes.len() - 2
        }),
    ensures
        segment_done(x, y, primes, pi_sqrty, b, low),
{
    lemma_prime_table(primes, y);
    if b < primes.len() - 1 {
        let n0 = if s < y {
            s
        } else {
            y
        };
        lemma_prime_table_floor(primes, y, n0);
        let k = prime_count(n0 as nat) as int;
        assert(b >= k + 1);
        let p = primes[b] as int;
        assert(p > n0) by {
            if b > k + 1 {
                assert(primes[k + 1] < primes[b]);
            }
        }
        assert(p <= y);
        assert(p * p > x / low1(low)) by (nonlinear_arith)
            requires
                p >= s + 1,
                x / low1(low) < (s + 1) * (s + 1),
                s >= 0,
        ;
    }
}

/// The least multiple of `p` that is at least `n`.
pub open spec fn next_multiple(n: int, p: int) -> int {
    ((n + p - 1) / p) * p
}

/// It is a multiple of `p`, at least `n`, and less than `n + p`; and it is
/// the only such number.
pub proof fn lemma_next_multiple(n: int, p: int, v: int)
    requires
        n >= 1,
        p >= 1,
    ensures
        next_multiple(n, p) % p == 0,
        n <= next_multiple(n, p) < n + p,
        (v % p == 0 && n <= v < n + p) ==> v == next_multiple(n, p),
{
    let q = (n + p - 1) / p;
    lemma_fundamental_div_mod(n + p - 1, p);
    lemma_mod_multiples_basic(q, p);
    assert(n <= q * p < n + p) by (nonlinear_arith)
        requires
            n + p - 1 == p * q + (n + p - 1) % p,
            0 <= (n + p - 1) % p < p,
    ;
    if v % p == 0 && n <= v < n + p {
        lemma_fundamental_div_mod(v, p);
        let w = v / p;
        assert(v == p * w);
        assert(w == q) by (nonlinear_arith)
            requires
                v == p * w,
                n <= q * p < n + p,
                n <= v < n + p,
                p >= 1,
        ;
    }
}

/// The first multiple from `max(low, 1)` is where the stride of a segment
/// from `low` starts.
pub proof fn lemma_next_multiple_start(low: int, p: int)
    requires
        low >= 0,
        p >= 1,
    ensures
        next_multiple(low1(low), p) >= low,
        first_multiple_at(low, p, next_multiple(low1(low), p) - low),
{
    lemma_next_multiple(low1(low), p, 0);
}

/// A prime up to `max_b` has its square within `x / max(low, 1)`.
pub proof fn lemma_within_max_b(x: int, y: int, primes: Seq<u32>, b: int, low: int, s: int)
    requires
        prime_table(primes, y),
        low >= 0,
        0 <= s,
        s * s <= x / low1(low),
        1 <= b <= prime_count((if s < y {
            s
        } else {
            y
        }) as nat),
    ensures
        (primes[b] as int) * (primes[b] as int) <= x / low1(low),
{
    lemma_prime_table(primes, y);
    let n0 = if s < y {
        s
    } else {
        y
    };
    lemma_prime_table_floor(primes, y, n0);
    let k = prime_count(n0 as nat) as int;
    let p = primes[b] as int;
    assert(p <= n0) by {
        if b < k {
            assert(primes[b] < primes[k]);
        }
    }
    assert(p * p <= s * s) by (nonlinear_arith)
        requires
            0 <= p <= s,
    ;
}

/// The stride end `low + k` is the next multiple of `p` from `high`.
pub proof fn lemma_stride_end(low: int, high: int, p: int, start: int, k: int)
    requires
        p >= 1,
        0 <= low < high,
        first_multiple_at(low, p, start),
        k >= start,
        (k - start) % p == 0,
        low + k >= high,
        k == start || low + k < high + p,
    ensures
        low + k == next_multiple(high, p),
{
    lemma_fundamental_div_mod(k - start, p);
    let t = (k - start) / p;
    lemma_mod_multiples_vanish(t, low + start, p);
    assert(low + k == (low + start) + p * t);
    lemma_next_multiple(high, p, low + k);
}

/// Below the square of the next prime, phi counts 1 and the primes past
/// the first `k`: `phi(n, k) = 1 + max(pi(n) - k, 0)` for
/// `1 <= n < p_(k+1)^2`.
pub proof fn lemma_phi_small(primes: Seq<u32>, y: int, k: int, n: int)
    requires
        prime_table(primes, y),
        0 <= k,
        k + 1 < primes.len(),
        1 <= n < (primes[k + 1] as int) * (primes[k + 1] as int),
    ensures
        phi_first(n, primes, k) == 1 + (if prime_count(n as nat) >= k {
            prime_count(n as nat) - k
        } else {
            0
        }),
    decreases n,
{
    lemma_prime_table(primes, y);
    crate::number_theory::lemma_prime_count_small();
    let pk = primes[k] as int;
    let pk1 = primes[k + 1] as int;
    assert(prime_count(pk as nat) == k) by {
        if k == 0 {
            assert(pk == 0);
        }
    }
    if n == 1 {
        assert(coprime_first(1, primes, k)) by {
            assert forall|i: int| 1 <= i <= k implies #[trigger] (1int % (primes[i] as int)) != 0 by {
                lemma_small_mod(1, primes[i] as nat);
            }
        }
        assert(phi_first(0, primes, k) == 0);
    } else {
        lemma_phi_small(primes, y, k, n - 1);
        assert(coprime_first(n, primes, k) <==> (is_prime(n as nat) && n > pk)) by {
            if is_prime(n as nat) && n > pk {
                assert forall|i: int| 1 <= i <= k implies #[trigger] (n % (primes[i] as int)) != 0 by {
                    if i < k {
                        assert(primes[i] < primes[k]);
                    }
                    assert((n as nat) % (primes[i] as nat) != 0);
                }
            }
            if coprime_first(n, primes, k) {
                if !is_prime(n as nat) {
                    let q = crate::number_theory::lemma_composite_has_small_prime_factor(n as nat) as int;
                    assert(q < pk1) by (nonlinear_arith)
                        requires
                            q * q <= n,
                            n < pk1 * pk1,
                            q >= 0,
                            pk1 >= 0,
                    ;
                    let iq = prime_count(q as nat) as int;
                    assert(primes[iq] == q);
                    if iq >= k + 1 {
                        if iq > k + 1 {
                            assert(primes[k + 1] < primes[iq]);
                        }
                    }
                    assert(n % (primes[iq] as int) != 0);
                }
                if n <= pk {
                    assert(k >= 1);
                    let i_n = prime_count(n as nat) as int;
                    assert(primes[i_n] == n);
                    lemma_prime_count_monotone(n as nat, pk as nat);
                    lemma_mod_self_0(n);
                    assert(n % (primes[i_n] as int) != 0);
                }
            }
        }
        if is_prime(n as nat) && n > pk {
            lemma_prime_count_monotone(pk as nat, (n - 1) as nat);
        }
        if is_prime(n as nat) && n <= pk {
            lemma_prime_count_monotone(n as nat, pk as nat);
        }
    }
}

/// The weights of the rows of `b` in `(c, bmax]` over `[lo, hi)`, each
/// times `phi(clo - 1, b - 1)`: what counting phi from `clo` rather than
/// from 0 leaves out of those rows.
pub open spec fn base_rows(x: int, y: int, primes: Seq<u32>, c: int, bmax: int, clo: int, lo: int, hi: int) -> int
    decreases bmax - c,
{
    if bmax <= c {
        0
    } else {
        base_rows(x, y, primes, c, bmax - 1, clo, lo, hi) + phi_first(clo - 1, primes, bmax - 1) * weight_row(
            x,
            y,
            primes,
            bmax,
            0,
            y,
            lo,
            hi,
        )
    }
}

/// Splitting the range of `n` at `mid` splits those weights.
pub proof fn lemma_base_rows_split_n(x: int, y: int, primes: Seq<u32>, c: int, bmax: int, clo: int, lo: int, mid: int, hi: int)
    requires
        lo <= mid <= hi,
    ensures
        base_rows(x, y, primes, c, bmax, clo, lo, hi) == base_rows(x, y, primes, c, bmax, clo, lo, mid) + base_rows(
            x,
            y,
            primes,
            c,
            bmax,
            clo,
            mid,
            hi,
        ),
    decreases bmax - c,
{
    if bmax > c {
        lemma_base_rows_split_n(x, y, primes, c, bmax - 1, clo, lo, mid, hi);
        lemma_row_split_n(x, y, primes, bmax, 0, y, lo, mid, hi);
        let f = phi_first(clo - 1, primes, bmax - 1);
        let w1 = weight_row(x, y, primes, bmax, 0, y, lo, mid);
        let w2 = weight_row(x, y, primes, bmax, 0, y, mid, hi);
        assert(f * (w1 + w2) == f * w1 + f * w2) by (nonlinear_arith);
    }
}

/// Rows of zero weight beyond `bstop` add nothing to those weights.
pub proof fn lemma_base_rows_tail_zero(x: int, y: int, primes: Seq<u32>, c: int, bstop: int, bmax: int, clo: int, lo: int, hi: int)
    requires
        c <= bstop <= bmax,
        forall|b: int| bstop < b <= bmax ==> #[trigger] weight_row(x, y, primes, b, 0, y, lo, hi) == 0,
    ensures
        base_rows(x, y, primes, c, bmax, clo, lo, hi) == base_rows(x, y, primes, c, bstop, clo, lo, hi),
    decreases bmax - bstop,
{
    if bmax > bstop {
        lemma_base_rows_tail_zero(x, y, primes, c, bstop, bmax - 1, clo, lo, hi);
        assert(weight_row(x, y, primes, bmax, 0, y, lo, hi) == 0);
        let f = phi_first(clo - 1, primes, bmax - 1);
        assert(f * 0 == 0);
    }
}

/// Those weights are at most `(bmax - c) * y * clo` in size.
pub proof fn lemma_base_rows_bound(x: int, y: int, primes: Seq<u32>, c: int, bmax: int, clo: int, lo: int, hi: int)
    requires
        x >= 0,
        y >= 0,
        clo >= 0,
        c <= bmax,
        forall|b: int| c < b <= bmax ==> #[trigger] primes[b] >= 1,
    ensures
        -(bmax - c) * y * clo <= base_rows(x, y, primes, c, bmax, clo, lo, hi) <= (bmax - c) * y * clo,
    decreases bmax - c,
{
    if bmax > c {
        lemma_base_rows_bound(x, y, primes, c, bmax - 1, clo, lo, hi);
        assert(primes[bmax] >= 1);
        lemma_row_bound(x, y, primes, bmax, 0, y, lo, hi);
        lemma_phi_first_bounds(clo - 1, primes, bmax - 1);
        let f = phi_first(clo - 1, primes, bmax - 1);
        let w = weight_row(x, y, primes, bmax, 0, y, lo, hi);
        assert(-(y * clo) <= f * w <= y * clo) by (nonlinear_arith)
            requires
                0 <= f <= clo,
                -(y - 0) <= w <= y - 0,
                y >= 0,
        ;
        assert((bmax - c) * y * clo == (bmax - 1 - c) * y * clo + y * clo) by (nonlinear_arith);
        assert(-(bmax - c) * y * clo == -((bmax - 1 - c) * y * clo) - y * clo) by (nonlinear_arith);
        assert(-(bmax - 1 - c) * y * clo == -((bmax - 1 - c) * y * clo)) by (nonlinear_arith);
    } else {
        assert((bmax - c) * y * clo == 0) by (nonlinear_arith)
            requires
                bmax == c,
        ;
    }
}

/// The next multiple of `p` from `max(low, p)` is the next one from
/// `max(low, 1)`.
pub proof fn lemma_next_multiple_from_p(low: int, p: int)
    requires
        low >= 0,
        p >= 1,
    ensures
        next_multiple(if low > p { low } else { p }, p) == next_multiple(low1(low), p),
{
    let a = if low > p {
        low
    } else {
        p
    };
    lemma_next_multiple(a, p, 0);
    lemma_next_multiple(low1(low), p, 0);
    let v = next_multiple(a, p);
    if low <= p {
        lemma_mod_self_0(p);
        lemma_next_multiple(p, p, p);
        lemma_next_multiple(low1(low), p, p);
    } else {
        lemma_next_multiple(low1(low), p, v);
    }
}

/// Leaves whose `n` lies in `[0, hi)` and has `phi(n, b - 1) = 1` sum to
/// their number.
pub proof fn lemma_easy_row_ones(x: int, primes: Seq<u32>, b: int, a: int, e: int, hi: int)
    requires
        a <= e,
        forall|l: int|
            a < l <= e ==> 0 <= #[trigger] leaf_n(x, primes, b, primes[l] as int) < hi && phi_first(
                leaf_n(x, primes, b, primes[l] as int),
                primes,
                b - 1,
            ) == 1,
    ensures
        easy_row(x, primes, b, a, e, 0, hi) == e - a,
        easy_count(x, primes, b, a, e, 0, hi) == e - a,
    decreases e - a,
{
    if e > a {
        lemma_easy_row_ones(x, primes, b, a, e - 1, hi);
        assert(0 <= leaf_n(x, primes, b, primes[e] as int) < hi);
    }
}

/// phi grows by at most the length of a stretch.
pub proof fn lemma_phi_first_count_le(a: int, n: int, primes: Seq<u32>, k: int)
    requires
        a <= n,
    ensures
        phi_first(n, primes, k) - phi_first(a, primes, k) <= n - a,
    decreases n - a,
{
    if a < n {
        lemma_phi_first_count_le(a, n - 1, primes, k);
        if n <= 0 {
        }
    }
}

/// The primes up to 17 and the values of pi there.
pub proof fn lemma_small_primes()
    ensures
        is_prime(2),
        is_prime(3),
        is_prime(5),
        is_prime(7),
        is_prime(11),
        is_prime(13),
        is_prime(17),
        prime_count(2) == 1,
        prime_count(3) == 2,
        prime_count(5) == 3,
        prime_count(7) == 4,
        prime_count(11) == 5,
        prime_count(13) == 6,
        prime_count(17) == 7,
        prime_count(1) == 0,
        prime_count(4) == 2,
        prime_count(6) == 3,
        prime_count(10) == 4,
        prime_count(12) == 5,
        prime_count(16) == 6,
{
    assert(!is_prime(0nat));
    assert(!is_prime(1nat));
    assert(is_prime(2nat)) by {
        assert forall|d: nat| 2 <= d < 2 implies #[trigger] (2nat % d) != 0 by {
            assert(d == 2);
        }
    }
    assert(is_prime(3nat)) by {
        assert forall|d: nat| 2 <= d < 3 implies #[trigger] (3nat % d) != 0 by {
            assert(d == 2);
        }
    }
    assert(is_prime(5nat)) by {
        assert forall|d: nat| 2 <= d < 5 implies #[trigger] (5nat % d) != 0 by {
            if d == 2 {
            } else if d == 3 {
            } else if d == 4 {
            }
        }
    }
    assert(is_prime(7nat)) by {
        assert forall|d: nat| 2 <= d < 7 implies #[trigger] (7nat % d) != 0 by {
            if d == 2 {
            } else if d == 3 {
            } else if d == 4 {
            } else if d == 5 {
            } else if d == 6 {
            }
        }
    }
    assert(is_prime(11nat)) by {
        assert forall|d: nat| 2 <= d < 11 implies #[trigger] (11nat % d) != 0 by {
            if d == 2 {
            } else if d == 3 {
            } else if d == 4 {
            } else if d == 5 {
            } else if d == 6 {
            } else if d == 7 {
            } else if d == 8 {
            } else if d == 9 {
            } else if d == 10 {
            }
        }
    }
    assert(is_prime(13nat)) by {
        assert forall|d: nat| 2 <= d < 13 implies #[trigger] (13nat % d) != 0 by {
            if d == 2 {
            } else if d == 3 {
            } else if d == 4 {
            } else if d == 5 {
            } else if d == 6 {
            } else if d == 7 {
            } else if d == 8 {
            } else if d == 9 {
            } else if d == 10 {
            } else if d == 11 {
            } else if d == 12 {
            }
        }
    }
    assert(is_prime(17nat)) by {
        assert forall|d: nat| 2 <= d < 17 implies #[trigger] (17nat % d) != 0 by {
            if d == 2 {
            } else if d == 3 {
            } else if d == 4 {
            } else if d == 5 {
            } else if d == 6 {
            } else if d == 7 {
            } else if d == 8 {
            } else if d == 9 {
            } else if d == 10 {
            } else if d == 11 {
            } else if d == 12 {
            } else if d == 13 {
            } else if d == 14 {
            } else if d == 15 {
            } else if d == 16 {
            }
        }
    }
    assert(!is_prime(4nat)) by {
        assert(4nat % 2nat == 0);
    }
    assert(!is_prime(6nat)) by {
        assert(6nat % 2nat == 0);
    }
    assert(!is_prime(8nat)) by {
        assert(8nat % 2nat == 0);
    }
    assert(!is_prime(9nat)) by {
        assert(9nat % 3nat == 0);
    }
    assert(!is_prime(10nat)) by {
        assert(10nat % 2nat == 0);
    }
    assert(!is_prime(12nat)) by {
        assert(12nat % 2nat == 0);
    }
    assert(!is_prime(14nat)) by {
        assert(14nat % 2nat == 0);
    }
    assert(!is_prime(15nat)) by {
        assert(15nat % 3nat == 0);
    }
    assert(!is_prime(16nat)) by {
        assert(16nat % 2nat == 0);
    }
    reveal_with_fuel(prime_count, 18);
}

/// A table of the primes up to `y` starts with the first seven primes, as
/// far as it reaches.
pub proof fn lemma_tiny_primes_in_table(primes: Seq<u32>, y: int, i: int)
    requires
        prime_table(primes, y),
        1 <= i <= 7,
        i < primes.len(),
    ensures
        primes[i] == tiny_prime_spec(i),
{
    lemma_small_primes();
    lemma_prime_table(primes, y);
    let q = tiny_prime_spec(i);
    assert(is_prime(q as nat) && prime_count(q as nat) == i && prime_count((q - 1) as nat) == i - 1);
    if y < q {
        lemma_prime_count_monotone(y as nat, (q - 1) as nat);
    }
    assert(primes[prime_count(q as nat) as int] == q);
}

/// There is one table of the primes up to `y`.
pub proof fn lemma_prime_table_unique(a: Seq<u32>, b: Seq<u32>, y: int)
    requires
        prime_table(a, y),
        prime_table(b, y),
    ensures
        a == b,
{
    assert forall|i: int| 0 <= i < a.len() implies #[trigger] a[i] == b[i] by {
        if i >= 1 {
            let p = a[i] as nat;
            let q = b[i] as nat;
            if p < q {
                lemma_prime_count_above(p, q);
            } else if q < p {
                lemma_prime_count_above(q, p);
            }
        }
    }
    assert(a =~= b);
}

/// pi does not change over a stretch without primes.
pub proof fn lemma_prime_count_flat(a: nat, b: nat)
    requires
        a <= b,
        forall|q: int| a < q <= b ==> !#[trigger] is_prime(q as nat),
    ensures
        prime_count(b) == prime_count(a),
    decreases b - a,
{
    if a < b {
        lemma_prime_count_flat(a, (b - 1) as nat);
        let q: int = b as int;
        assert(a < q <= b);
        assert(!is_prime(q as nat));
    }
}

} // verus!
