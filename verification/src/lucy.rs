//! The Lucy_Hedgehog combinatorial prime counter: pi(N) from the sieve counts
//! `S(v)` of the O(sqrt N) values `v = floor(N / j)` and `v <= sqrt N`.

use vstd::prelude::*;
use vstd::arithmetic::div_mod::*;
use crate::number_theory::{
    is_prime, prime_count, sieve_count, lemma_sieve_count_prime_step, lemma_sieve_count_initial,
    lemma_sieve_count_nonneg_le, lemma_sieve_count_no_prime_between, lemma_sieve_count_primes,
    lemma_prime_count_small,
};
use crate::roots::isqrt;
use crate::small_sieve::{sieve_past, sieve_primes_from, sieve_bound, lemma_no_prime_gap};

verus! {

/// The largest input the counter accepts: its 64-bit reciprocal divisions
/// are exact up to here.
pub const LUCY_MAX: u64 = 10_000_000_000_000;

/// Division through a rounded-up reciprocal: if `r * d` exceeds `2^s` by at
/// most `d` and `x * d < 2^s`, the high part of `x * r` is `x / d`.
pub proof fn lemma_reciprocal_division(x: int, d: int, r: int, m: int)
    requires
        x >= 0,
        d > 0,
        m > 0,
        r * d >= m,
        r * d - m <= d,
        x * d < m,
    ensures
        (x * r) / m == x / d,
{
    let e = r * d - m;
    let q = x / d;
    lemma_fundamental_div_mod(x, d);
    lemma_fundamental_div_mod(x * r, m);
    let t = (x * r) / m;
    assert(x * r * d == x * m + x * e) by (nonlinear_arith)
        requires
            e == r * d - m,
    ;
    assert(x * e < m) by (nonlinear_arith)
        requires
            x * d < m,
            0 <= e <= d,
            x >= 0,
    ;
    assert(q * d <= x < (q + 1) * d) by (nonlinear_arith)
        requires
            x == d * q + x % d,
            0 <= x % d < d,
    ;
    assert(x * r >= q * m) by (nonlinear_arith)
        requires
            x * r * d == x * m + x * e,
            x * e >= 0,
            q * d <= x,
            d > 0,
            m > 0,
            q >= 0,
    ;
    assert(x * r < (q + 1) * m) by (nonlinear_arith)
        requires
            x * r * d == x * m + x * e,
            x * e < m,
            x + 1 <= (q + 1) * d,
            d > 0,
            m > 0,
    ;
    assert(t == q) by (nonlinear_arith)
        requires
            x * r >= q * m,
            x * r < (q + 1) * m,
            x * r == m * t + (x * r) % m,
            0 <= (x * r) % m < m,
            m > 0,
    ;
}

/// One Lucy_Hedgehog update, seen from index `j`: for `j * p * p <= n`,
/// `S(n / j, p) = S(n / j, p - 1) - (S(n / (j p), p - 1) - S(p - 1, p - 1))`,
/// and `n / (j p)` is both `(n / j) / p` and `(n / p) / j`.
pub proof fn lemma_lucy_step(n: int, j: int, p: int)
    requires
        p > 1,
        is_prime(p as nat),
        j >= 1,
        j * p * p <= n,
    ensures
        (n / j) / p == n / (j * p),
        (n / p) / j == n / (j * p),
        n / j >= p * p,
        sieve_count(n / j, p) == sieve_count(n / j, p - 1) - (sieve_count(n / (j * p), p - 1)
            - sieve_count(p - 1, p - 1)),
{
    lemma_div_denominator(n, j, p);
    lemma_div_denominator(n, p, j);
    vstd::arithmetic::mul::lemma_mul_is_commutative(j, p);
    assert(n / j >= p * p) by {
        vstd::arithmetic::mul::lemma_mul_is_associative(j, p, p);
        lemma_div_is_ordered(j * (p * p), n, j);
        vstd::arithmetic::div_mod::lemma_div_multiples_vanish(p * p, j);
    }
    lemma_sieve_count_prime_step(n / j, p);
}

/// Beyond `n / (p * p)` the values `n / j` are below `p * p` and the step
/// changes nothing.
pub proof fn lemma_lucy_no_step(n: int, j: int, p: int)
    requires
        p > 1,
        is_prime(p as nat),
        j >= 1,
        n >= 0,
        j * p * p > n,
    ensures
        sieve_count(n / j, p) == sieve_count(n / j, p - 1),
{
    lemma_fundamental_div_mod(n, j);
    assert(n / j < p * p) by (nonlinear_arith)
        requires
            j * p * p > n,
            n == j * (n / j) + n % j,
            n % j >= 0,
            j >= 1,
    ;
    lemma_div_pos_is_pos(n, j);
    lemma_sieve_count_prime_step(n / j, p);
}

/// The state of the counter between two primes: `small[j] = S(j, m)` and
/// `large[j] = S(n / j, m)` for `1 <= j <= v`.
pub open spec fn lucy_state(n: int, v: int, m: int, small: Seq<i32>, large: Seq<i64>) -> bool {
    &&& small.len() == v + 1
    &&& large.len() == v + 1
    &&& forall|j: int| 1 <= j <= v ==> #[trigger] small[j] == sieve_count(j, m)
    &&& forall|j: int| 1 <= j <= v ==> #[trigger] large[j] == sieve_count(n / j, m)
}

/// The reciprocal table `recip[j] = floor(2^64 / j) + 1`.
pub open spec fn recip_ok(recip: Seq<u64>, v: int) -> bool {
    &&& recip.len() == v + 1
    &&& forall|j: int|
        2 <= j <= v ==> #[trigger] recip[j] == 0x1_0000_0000_0000_0000int / j + 1
}

/// Shared bounds of the counter.
pub open spec fn lucy_bounds(n: int, v: int) -> bool {
    &&& 5 <= n <= LUCY_MAX
    &&& v * v <= n < (v + 1) * (v + 1)
    &&& 2 <= v <= 3_162_277
}

proof fn lemma_recip_exact(x: int, j: int, r: int)
    requires
        j >= 2,
        r == 0x1_0000_0000_0000_0000int / j + 1,
        x >= 0,
        x * j < 0x1_0000_0000_0000_0000int,
    ensures
        (x * r) / 0x1_0000_0000_0000_0000int == x / j,
        r < 0x1_0000_0000_0000_0000int,
{
    let m = 0x1_0000_0000_0000_0000int;
    lemma_fundamental_div_mod(m, j);
    assert(r * j >= m && r * j - m <= j) by (nonlinear_arith)
        requires
            r == m / j + 1,
            m == j * (m / j) + m % j,
            0 <= m % j < j,
    ;
    lemma_div_is_ordered_by_denominator(m, 2, j);
    lemma_reciprocal_division(x, j, r, m);
}

/// `floor(n / p) * j` stays below 2^64 for the indices the counter uses.
proof fn lemma_lucy_product_bound(n: int, v: int, p: int, j: int)
    requires
        lucy_bounds(n, v),
        p >= 2,
        1 <= j <= v,
    ensures
        (n / p) * j < 0x1_0000_0000_0000_0000int,
        n / p <= 5_000_000_000_000,
{
    lemma_div_is_ordered_by_denominator(n, 2, p);
    lemma_div_is_ordered(n, 10_000_000_000_000, 2);
    assert((n / p) * j < 0x1_0000_0000_0000_0000int) by (nonlinear_arith)
        requires
            n / p <= 5_000_000_000_000,
            n / p >= 0,
            j <= 3_162_277,
            j >= 1,
    ;
}

/// Sets up `small[j] = j - 1`, `large[j] = n / j - 1` and the reciprocals.
pub fn lucy_init(n: u64, v: usize) -> (res: (Vec<i32>, Vec<i64>, Vec<u64>))
    requires
        lucy_bounds(n as int, v as int),
    ensures
        lucy_state(n as int, v as int, 1, res.0@, res.1@),
        recip_ok(res.2@, v as int),
{
    let mut small: Vec<i32> = Vec::new();
    let mut large: Vec<i64> = Vec::new();
    let mut recip: Vec<u64> = Vec::new();
    small.push(0);
    large.push(0);
    recip.push(0);
    let mut j: usize = 1;
    while j <= v
        invariant
            lucy_bounds(n as int, v as int),
            1 <= j <= v + 1,
            small.len() == j,
            large.len() == j,
            recip.len() == j,
            forall|k: int| 1 <= k < j ==> #[trigger] small@[k] == sieve_count(k, 1),
            forall|k: int| 1 <= k < j ==> #[trigger] large@[k] == sieve_count(n as int / k, 1),
            forall|k: int| 2 <= k < j ==> #[trigger] recip@[k] == 0x1_0000_0000_0000_0000int / k + 1,
        decreases v + 1 - j,
    {
        proof {
            lemma_sieve_count_initial(j as int);
            lemma_div_is_ordered_by_denominator(n as int, j as int, v as int);
            lemma_div_pos_is_pos(n as int, v as int);
            assert(n as int / v as int >= 1) by {
                lemma_div_is_ordered(v as int * v as int, n as int, v as int);
                lemma_div_multiples_vanish(v as int, v as int);
            }
            lemma_sieve_count_initial(n as int / j as int);
            lemma_div_is_ordered(n as int, LUCY_MAX as int, j as int);
        }
        small.push(j as i32 - 1);
        large.push((n / j as u64) as i64 - 1);
        let r = (0x1_0000_0000_0000_0000u128 / (j as u128) + 1) as u64;
        proof {
            if j >= 2 {
                lemma_div_is_ordered_by_denominator(0x1_0000_0000_0000_0000int, 2, j as int);
                assert(r == 0x1_0000_0000_0000_0000int / (j as int) + 1);
            }
        }
        recip.push(r);
        j += 1;
    }
    (small, large, recip)
}


/// What every update of the pass for the prime `p` may rely on.
pub open spec fn pass_pre(n: int, v: int, p: int, small: Seq<i32>, pcnt: int) -> bool {
    &&& lucy_bounds(n, v)
    &&& 2 <= p <= v
    &&& is_prime(p as nat)
    &&& p * p <= n
    &&& small.len() == v + 1
    &&& forall|q: int| 1 <= q <= v ==> #[trigger] small[q] == sieve_count(q, p - 1)
    &&& pcnt == sieve_count(p - 1, p - 1)
}

/// `large` during the pass for `p`: indices below `lo` are updated to
/// `S(n / k, p)`, the others still hold `S(n / k, p - 1)`.
pub open spec fn large_mid(n: int, v: int, p: int, large: Seq<i64>, lo: int) -> bool {
    &&& large.len() == v + 1
    &&& forall|k: int|
        1 <= k <= v ==> #[trigger] large[k] == sieve_count(n / k, if k < lo { p } else { p - 1 })
}

proof fn lemma_counts_bounded(n: int, v: int, p: int, k: int)
    requires
        lucy_bounds(n, v),
        1 <= k <= v,
        p >= 2,
    ensures
        0 <= sieve_count(n / k, p) <= n,
        0 <= sieve_count(n / k, p - 1) <= n,
        0 <= sieve_count(k, p - 1) <= v,
{
    lemma_div_pos_is_pos(n, k);
    lemma_div_is_ordered_by_denominator(n, 1, k);
    lemma_sieve_count_nonneg_le(n / k, p);
    lemma_sieve_count_nonneg_le(n / k, p - 1);
    lemma_sieve_count_nonneg_le(k, p - 1);
}

/// Applies the update at index `j`, given `x = S(n / (j p), p - 1)`.
fn lucy_update_at(
    large: &mut Vec<i64>,
    j: usize,
    x: i64,
    pcnt: i64,
    Ghost(n): Ghost<int>,
    Ghost(v): Ghost<int>,
    Ghost(p): Ghost<int>,
    Ghost(small): Ghost<Seq<i32>>,
)
    requires
        pass_pre(n, v, p, small, pcnt as int),
        large_mid(n, v, p, old(large)@, j as int),
        1 <= j <= v,
        j * p * p <= n,
        x == sieve_count(n / (j * p), p - 1),
    ensures
        large_mid(n, v, p, final(large)@, j + 1),
{
    proof {
        lemma_lucy_step(n, j as int, p);
        lemma_counts_bounded(n, v, p, j as int);
        assert(j * p >= 1) by (nonlinear_arith)
            requires
                j >= 1,
                p >= 2,
        ;
        lemma_div_pos_is_pos(n, j * p);
        lemma_sieve_count_nonneg_le(n / (j * p), p - 1);
        lemma_div_is_ordered_by_denominator(n, 1, j * p);
        lemma_sieve_count_nonneg_le(p - 1, p - 1);
    }
    let cur = large[j];
    large.set(j, cur - (x - pcnt));
}

/// Branch 1: for `j * p <= v` the value `S(n / (j p))` sits in `large[j * p]`.
fn lucy_branch1(
    large: &mut Vec<i64>,
    p: usize,
    pcnt: i64,
    branch1_end: usize,
    Ghost(n): Ghost<int>,
    Ghost(v): Ghost<int>,
    Ghost(small): Ghost<Seq<i32>>,
)
    requires
        pass_pre(n, v, p as int, small, pcnt as int),
        large_mid(n, v, p as int, old(large)@, 1),
        branch1_end * p <= v,
        branch1_end * p * p <= n,
    ensures
        large_mid(n, v, p as int, final(large)@, branch1_end + 1),
{
    let mut j: usize = 1;
    while j <= branch1_end
        invariant
            pass_pre(n, v, p as int, small, pcnt as int),
            branch1_end * p <= v,
            branch1_end * p * p <= n,
            1 <= j <= branch1_end + 1,
            large_mid(n, v, p as int, large@, j as int),
        decreases branch1_end + 1 - j,
    {
        proof {
            assert(j * p <= branch1_end * p && j * p * p <= branch1_end * p * p && j * p > j)
                by (nonlinear_arith)
                requires
                    j <= branch1_end,
                    p >= 2,
                    j >= 1,
            ;
        }
        let x = large[j * p];
        lucy_update_at(large, j, x, pcnt, Ghost(n), Ghost(v), Ghost(p as int), Ghost(small));
        j += 1;
    }
}

/// Phase A: for `v / p < j <= phase_a_end` each `j` gets its own quotient
/// `q = (n / p) / j <= v`, read from `small[q]`; the division goes through the
/// reciprocal table.
fn lucy_phase_a(
    large: &mut Vec<i64>,
    small: &Vec<i32>,
    recip: &Vec<u64>,
    p: usize,
    pcnt: i64,
    n_div_p: u64,
    crossover: usize,
    phase_a_end: usize,
    Ghost(n): Ghost<int>,
    Ghost(v): Ghost<int>,
)
    requires
        pass_pre(n, v, p as int, small@, pcnt as int),
        recip_ok(recip@, v),
        n_div_p == n / (p as int),
        crossover == v / (p as int),
        large_mid(n, v, p as int, old(large)@, crossover + 1),
        phase_a_end <= v,
        phase_a_end * p * p <= n,
    ensures
        large_mid(n, v, p as int, final(large)@, if phase_a_end > crossover { phase_a_end + 1 } else { crossover + 1 }),
{
    let mut j: usize = crossover + 1;
    while j <= phase_a_end
        invariant
            pass_pre(n, v, p as int, small@, pcnt as int),
            recip_ok(recip@, v),
            n_div_p == n / (p as int),
            crossover == v / (p as int),
            phase_a_end <= v,
            phase_a_end * p * p <= n,
            crossover + 1 <= j,
            j <= phase_a_end + 1 || j == crossover + 1,
            large_mid(n, v, p as int, large@, j as int),
        decreases phase_a_end + 1 - j,
    {
        proof {
            lemma_fundamental_div_mod(v, p as int);
            assert(j >= 2) by (nonlinear_arith)
                requires
                    j >= crossover + 1,
                    v == (p as int) * crossover + v % (p as int),
                    0 <= v % (p as int) < p,
                    v >= p,
            ;
            assert(j * p >= v + 1) by (nonlinear_arith)
                requires
                    j >= crossover + 1,
                    v == (p as int) * crossover + v % (p as int),
                    v % (p as int) < p,
            ;
            assert(j * p * p <= n) by (nonlinear_arith)
                requires
                    j <= phase_a_end,
                    phase_a_end * p * p <= n,
            ;
            lemma_lucy_product_bound(n, v, p as int, j as int);
            lemma_recip_exact(n_div_p as int, j as int, recip@[j as int] as int);
            lemma_lucy_step(n, j as int, p as int);
            // q = n / (j p) is at most v
            lemma_div_is_ordered_by_denominator(n, v + 1, j * p);
            lemma_fundamental_div_mod(n, v + 1);
            assert(n / (v + 1) <= v) by (nonlinear_arith)
                requires
                    n < (v + 1) * (v + 1),
                    n == (v + 1) * (n / (v + 1)) + n % (v + 1),
                    n % (v + 1) >= 0,
                    v >= 0,
            ;
            assert(n / (j * p) >= p) by {
                lemma_div_is_ordered(j * p * p, n, j * p);
                lemma_div_multiples_vanish(p as int, j * p);
                vstd::arithmetic::mul::lemma_mul_is_commutative(j * p, p as int);
            }
        }
        let prod = n_div_p as u128 * recip[j] as u128;
        let q = (prod >> 64) as usize;
        proof {
            crate::wheel::lemma_shr64_pub(prod);
        }
        let x = small[q] as i64;
        lucy_update_at(large, j, x, pcnt, Ghost(n), Ghost(v), Ghost(p as int), Ghost(small@));
        j += 1;
    }
}


/// What phase B may rely on: the indices `[first_j0, j_end]` all lie beyond
/// `v / p`, their quotients `(n / p) / j` run from `q_start` down to `q_end`.
pub open spec fn phase_b_pre(
    n: int,
    v: int,
    p: int,
    n_div_p: int,
    first_j0: int,
    j_end: int,
    q_start: int,
    q_end: int,
) -> bool {
    &&& n_div_p == n / p
    &&& first_j0 >= 0
    &&& first_j0 * p >= v + 1
    &&& first_j0 <= j_end <= v
    &&& j_end * p * p <= n
    &&& q_start == n_div_p / first_j0
    &&& q_end == n_div_p / j_end
}

proof fn lemma_phase_b_facts(n: int, v: int, p: int, n_div_p: int, first_j0: int, j_end: int, q_start: int, q_end: int)
    requires
        lucy_bounds(n, v),
        2 <= p <= v,
        phase_b_pre(n, v, p, n_div_p, first_j0, j_end, q_start, q_end),
    ensures
        q_start <= v,
        q_end >= p,
        q_end <= q_start,
        first_j0 >= 1,
{
    assert(first_j0 >= 1) by (nonlinear_arith)
        requires
            first_j0 * p >= v + 1,
            p >= 2,
            first_j0 >= 0,
            v >= 2,
    ;
    // q_start = n / (first_j0 p) <= n / (v + 1) <= v
    lemma_div_denominator(n, p, first_j0);
    vstd::arithmetic::mul::lemma_mul_is_commutative(p, first_j0);
    lemma_div_is_ordered_by_denominator(n, v + 1, first_j0 * p);
    lemma_fundamental_div_mod(n, v + 1);
    assert(n / (v + 1) <= v) by (nonlinear_arith)
        requires
            n < (v + 1) * (v + 1),
            n == (v + 1) * (n / (v + 1)) + n % (v + 1),
            n % (v + 1) >= 0,
            v >= 0,
    ;
    // q_end = n / (j_end p) >= p
    lemma_div_denominator(n, p, j_end);
    vstd::arithmetic::mul::lemma_mul_is_commutative(p, j_end);
    lemma_div_is_ordered(j_end * p * p, n, j_end * p);
    assert(j_end * p >= 1) by (nonlinear_arith)
        requires
            j_end >= 1,
            p >= 2,
    ;
    vstd::arithmetic::mul::lemma_mul_is_commutative(j_end * p, p);
    lemma_div_multiples_vanish(p, j_end * p);
    lemma_div_is_ordered_by_denominator(n_div_p, first_j0, j_end);
}

/// Quotient facts for an index `jj` in `[first_j, last_j]` with
/// `last_j <= n_div_p / q` and `n_div_p / first_j <= q`.
proof fn lemma_same_quotient(n_div_p: int, first_j: int, last_j: int, jj: int, q: int)
    requires
        n_div_p >= 0,
        1 <= first_j <= jj <= last_j,
        q >= 1,
        last_j <= n_div_p / q,
        n_div_p / first_j <= q,
    ensures
        n_div_p / jj == q,
{
    lemma_div_is_ordered_by_denominator(n_div_p, first_j, jj);
    lemma_fundamental_div_mod(n_div_p, q);
    lemma_fundamental_div_mod(n_div_p, jj);
    assert(jj * q <= n_div_p) by (nonlinear_arith)
        requires
            jj <= n_div_p / q,
            n_div_p == q * (n_div_p / q) + n_div_p % q,
            n_div_p % q >= 0,
            q >= 1,
            jj >= 0,
    ;
    assert(n_div_p / jj >= q) by (nonlinear_arith)
        requires
            jj * q <= n_div_p,
            n_div_p == jj * (n_div_p / jj) + n_div_p % jj,
            0 <= n_div_p % jj < jj,
            jj >= 1,
    ;
}

/// Past `n_div_p / q`, the quotient drops below `q`.
proof fn lemma_quotient_drops(n_div_p: int, j: int, q: int)
    requires
        n_div_p >= 0,
        q >= 1,
        j >= 1,
        j > n_div_p / q,
    ensures
        n_div_p / j <= q - 1,
{
    lemma_fundamental_div_mod(n_div_p, q);
    lemma_fundamental_div_mod(n_div_p, j);
    assert(j * q > n_div_p) by (nonlinear_arith)
        requires
            j >= n_div_p / q + 1,
            n_div_p == q * (n_div_p / q) + n_div_p % q,
            n_div_p % q < q,
            q >= 1,
    ;
    assert(n_div_p / j < q) by (nonlinear_arith)
        requires
            j * q > n_div_p,
            n_div_p == j * (n_div_p / j) + n_div_p % j,
            n_div_p % j >= 0,
            j >= 1,
    ;
}

/// Subtracts `S(q, p - 1) - pcnt` at every index of `[first_j, last_j]`, all
/// of which have the quotient `(n / p) / jj == q`.
fn lucy_block_update(
    large: &mut Vec<i64>,
    small: &Vec<i32>,
    q: usize,
    first_j: usize,
    last_j: usize,
    pcnt: i64,
    n_div_p: u64,
    j_end: usize,
    Ghost(n): Ghost<int>,
    Ghost(v): Ghost<int>,
    Ghost(p): Ghost<int>,
)
    requires
        pass_pre(n, v, p, small@, pcnt as int),
        n_div_p == n / p,
        large_mid(n, v, p, old(large)@, first_j as int),
        1 <= first_j,
        last_j <= j_end <= v,
        j_end * p * p <= n,
        1 <= q <= v,
        last_j <= (n_div_p as int) / (q as int),
        first_j <= last_j ==> (n_div_p as int) / (first_j as int) <= q,
    ensures
        large_mid(n, v, p, final(large)@, if first_j <= last_j { last_j + 1 } else { first_j as int }),
{
    let x = small[q] as i64;
    let mut jj = first_j;
    while jj <= last_j
        invariant
            pass_pre(n, v, p, small@, pcnt as int),
            n_div_p == n / p,
            1 <= first_j <= jj,
            jj <= last_j + 1 || jj == first_j,
            last_j <= j_end <= v,
            j_end * p * p <= n,
            1 <= q <= v,
            x == small@[q as int],
            last_j <= (n_div_p as int) / (q as int),
            first_j <= last_j ==> (n_div_p as int) / (first_j as int) <= q,
            large_mid(n, v, p, large@, jj as int),
        decreases last_j + 1 - jj,
    {
        proof {
            lemma_same_quotient(n_div_p as int, first_j as int, last_j as int, jj as int, q as int);
            assert(jj * p * p <= n) by (nonlinear_arith)
                requires
                    jj <= j_end,
                    j_end * p * p <= n,
                    p >= 0,
            ;
            lemma_lucy_step(n, jj as int, p);
        }
        lucy_update_at(large, jj, x, pcnt, Ghost(n), Ghost(v), Ghost(p), Ghost(small@));
        jj += 1;
    }
}

/// Phase B with the reciprocal table: for each quotient `q` from `q_start`
/// down, the indices with `(n / p) / j == q` end at `min((n / p) / q, j_end)`.
fn lucy_phase_b_recip(
    large: &mut Vec<i64>,
    small: &Vec<i32>,
    recip: &Vec<u64>,
    p: usize,
    pcnt: i64,
    n_div_p: u64,
    first_j0: usize,
    j_end: usize,
    q_start: usize,
    q_end: usize,
    Ghost(n): Ghost<int>,
    Ghost(v): Ghost<int>,
)
    requires
        pass_pre(n, v, p as int, small@, pcnt as int),
        recip_ok(recip@, v),
        phase_b_pre(n, v, p as int, n_div_p as int, first_j0 as int, j_end as int, q_start as int, q_end as int),
        large_mid(n, v, p as int, old(large)@, first_j0 as int),
    ensures
        large_mid(n, v, p as int, final(large)@, j_end + 1),
{
    proof {
        lemma_phase_b_facts(n, v, p as int, n_div_p as int, first_j0 as int, j_end as int, q_start as int, q_end as int);
    }
    let mut first_j = first_j0;
    let mut q = q_start;
    let mut done = false;
    while q >= q_end && !done
        invariant
            pass_pre(n, v, p as int, small@, pcnt as int),
            recip_ok(recip@, v),
            phase_b_pre(n, v, p as int, n_div_p as int, first_j0 as int, j_end as int, q_start as int, q_end as int),
            q_start <= v,
            q_end >= p,
            1 <= q <= q_start,
            first_j0 <= first_j <= j_end + 1,
            done <==> first_j > j_end,
            !done ==> (n_div_p as int) / (first_j as int) <= q,
            large_mid(n, v, p as int, large@, first_j as int),
        decreases q, if done { 0int } else { 1int },
    {
        proof {
            lemma_lucy_product_bound(n, v, p as int, q as int);
            lemma_recip_exact(n_div_p as int, q as int, recip@[q as int] as int);
        }
        let prod = n_div_p as u128 * recip[q] as u128;
        proof {
            crate::wheel::lemma_shr64_pub(prod);
        }
        let lj = (prod >> 64) as u64;
        let last_j = if lj < j_end as u64 {
            lj as usize
        } else {
            j_end
        };
        if first_j <= last_j {
            lucy_block_update(large, small, q, first_j, last_j, pcnt, n_div_p, j_end, Ghost(n), Ghost(v), Ghost(p as int));
            first_j = last_j + 1;
        }
        proof {
            if first_j <= j_end {
                lemma_quotient_drops(n_div_p as int, first_j as int, q as int);
            }
        }
        if first_j > j_end {
            done = true;
        } else {
            proof {
                if q - 1 < q_end {
                    lemma_div_is_ordered_by_denominator(n_div_p as int, first_j as int, j_end as int);
                }
            }
            q -= 1;
        }
    }
    proof {
        if !done {
            lemma_div_is_ordered_by_denominator(n_div_p as int, first_j as int, j_end as int);
        }
    }
}

/// Phase B for the smallest primes: the end of each block is found by
/// stepping `last_j` forward while `(last_j + 1) * (q - 1) <= n / p`.
fn lucy_phase_b_step(
    large: &mut Vec<i64>,
    small: &Vec<i32>,
    p: usize,
    pcnt: i64,
    n_div_p: u64,
    first_j0: usize,
    j_end: usize,
    q_start: usize,
    q_end: usize,
    Ghost(n): Ghost<int>,
    Ghost(v): Ghost<int>,
)
    requires
        pass_pre(n, v, p as int, small@, pcnt as int),
        phase_b_pre(n, v, p as int, n_div_p as int, first_j0 as int, j_end as int, q_start as int, q_end as int),
        large_mid(n, v, p as int, old(large)@, first_j0 as int),
    ensures
        large_mid(n, v, p as int, final(large)@, j_end + 1),
{
    proof {
        lemma_phase_b_facts(n, v, p as int, n_div_p as int, first_j0 as int, j_end as int, q_start as int, q_end as int);
        lemma_div_pos_is_pos(n_div_p as int, q_start as int);
    }
    let mut first_j = first_j0;
    let lj0 = n_div_p / q_start as u64;
    let mut last_j = if lj0 < j_end as u64 {
        lj0 as usize
    } else {
        j_end
    };
    proof {
        lemma_fundamental_div_mod(n_div_p as int, first_j0 as int);
        lemma_fundamental_div_mod(n_div_p as int, q_start as int);
        assert(first_j0 <= (n_div_p as int) / (q_start as int)) by (nonlinear_arith)
            requires
                q_start == (n_div_p as int) / (first_j0 as int),
                n_div_p == first_j0 * q_start + (n_div_p as int) % (first_j0 as int),
                (n_div_p as int) % (first_j0 as int) >= 0,
                n_div_p == q_start * ((n_div_p as int) / (q_start as int)) + (n_div_p as int) % (q_start as int),
                (n_div_p as int) % (q_start as int) < q_start,
                q_start >= 1,
        ;
    }
    let mut q = q_start;
    let mut done = false;
    while q >= q_end && !done
        invariant
            pass_pre(n, v, p as int, small@, pcnt as int),
            phase_b_pre(n, v, p as int, n_div_p as int, first_j0 as int, j_end as int, q_start as int, q_end as int),
            q_start <= v,
            q_end >= p,
            1 <= q <= q_start,
            first_j0 <= first_j <= j_end + 1,
            first_j <= last_j + 1,
            last_j <= j_end,
            !done ==> last_j == (if (n_div_p as int) / (q as int) < j_end { (n_div_p as int) / (q as int) } else { j_end as int }),
            done <==> first_j > j_end,
            !done ==> (n_div_p as int) / (first_j as int) <= q,
            large_mid(n, v, p as int, large@, first_j as int),
        decreases q, if done { 0int } else { 1int },
    {
        lucy_block_update(large, small, q, first_j, last_j, pcnt, n_div_p, j_end, Ghost(n), Ghost(v), Ghost(p as int));
        first_j = last_j + 1;
        proof {
            if first_j <= j_end {
                lemma_quotient_drops(n_div_p as int, first_j as int, q as int);
            }
        }
        if first_j > j_end {
            done = true;
        } else {
            proof {
                if q - 1 < q_end {
                    lemma_div_is_ordered_by_denominator(n_div_p as int, first_j as int, j_end as int);
                }
            }
            if q > q_end {
                let qm1 = (q - 1) as u64;
                proof {
                    lemma_div_is_ordered_by_denominator(n_div_p as int, (q - 1) as int, q as int);
                    lemma_fundamental_div_mod(n_div_p as int, qm1 as int);
                    lemma_fundamental_div_mod(n_div_p as int, q as int);
                    assert(last_j * qm1 <= n_div_p) by (nonlinear_arith)
                        requires
                            last_j <= (n_div_p as int) / (q as int),
                            (n_div_p as int) / (q as int) <= (n_div_p as int) / (qm1 as int),
                            n_div_p == qm1 * ((n_div_p as int) / (qm1 as int)) + (n_div_p as int) % (qm1 as int),
                            (n_div_p as int) % (qm1 as int) >= 0,
                            qm1 >= 1,
                            last_j >= 0,
                    ;
                }
                proof {
                    lemma_lucy_product_bound(n, v, p as int, 1);
                }
                let mut lj: u64 = last_j as u64;
                proof {
                    assert((lj + 1) * qm1 <= n_div_p + qm1) by (nonlinear_arith)
                        requires
                            lj * qm1 <= n_div_p,
                    ;
                    assert(lj <= n_div_p) by (nonlinear_arith)
                        requires
                            lj * qm1 <= n_div_p,
                            qm1 >= 1,
                    ;
                }
                while (lj + 1) * qm1 <= n_div_p
                    invariant
                        1 <= qm1 <= 3_162_277,
                        n_div_p <= 5_000_000_000_000,
                        lj <= n_div_p,
                        lj * qm1 <= n_div_p,
                        (lj + 1) * qm1 <= n_div_p + qm1,
                    decreases n_div_p - lj,
                {
                    proof {
                        assert(lj < n_div_p) by (nonlinear_arith)
                            requires
                                (lj + 1) * qm1 <= n_div_p,
                                qm1 >= 1,
                        ;
                        assert((lj + 2) * qm1 <= n_div_p + qm1) by (nonlinear_arith)
                            requires
                                (lj + 1) * qm1 <= n_div_p,
                        ;
                    }
                    lj += 1;
                }
                proof {
                    lemma_fundamental_div_mod(n_div_p as int, qm1 as int);
                    assert(lj == (n_div_p as int) / (qm1 as int)) by (nonlinear_arith)
                        requires
                            lj * qm1 <= n_div_p,
                            (lj + 1) * qm1 > n_div_p,
                            n_div_p == qm1 * ((n_div_p as int) / (qm1 as int)) + (n_div_p as int) % (qm1 as int),
                            0 <= (n_div_p as int) % (qm1 as int) < qm1,
                            qm1 >= 1,
                    ;
                }
                last_j = if lj > j_end as u64 {
                    j_end
                } else {
                    lj as usize
                };
            }
            q -= 1;
        }
    }
    proof {
        if !done {
            lemma_div_is_ordered_by_denominator(n_div_p as int, first_j as int, j_end as int);
        }
    }
}


/// `x >> 40` is `x / 2^40`.
proof fn lemma_shr40(x: u64)
    ensures
        x >> 40u64 == x / 0x100_0000_0000,
{
    assert(x >> 40u64 == x / 0x100_0000_0000) by (bit_vector);
}

/// `j >> 1` is `j / 2`.
proof fn lemma_shr1(j: usize)
    ensures
        j >> 1usize == j / 2,
{
    assert(j >> 1usize == j / 2) by (bit_vector);
}

/// `j / p` through the 40-bit reciprocal `ceil(2^40 / p)`, exact for the
/// indices of the small table.
proof fn lemma_recip40(j: int, p: int, r: int)
    requires
        2 <= p,
        p * p <= 3_162_277,
        0 <= j <= 3_162_277,
        r == (0x100_0000_0000int + p - 1) / p,
    ensures
        (j * r) / 0x100_0000_0000int == j / p,
        j * r < 0x1_0000_0000_0000_0000int,
{
    let m = 0x100_0000_0000int;
    lemma_fundamental_div_mod(m + p - 1, p);
    assert(r * p >= m && r * p - m <= p) by (nonlinear_arith)
        requires
            m + p - 1 == p * r + (m + p - 1) % p,
            0 <= (m + p - 1) % p < p,
    ;
    assert(p <= 1779) by (nonlinear_arith)
        requires
            p * p <= 3_162_277,
            p >= 2,
    ;
    assert(j * p <= 3_162_277 * 1779) by (nonlinear_arith)
        requires
            0 <= j <= 3_162_277,
            2 <= p <= 1779,
    ;
    lemma_reciprocal_division(j, p, r, m);
    assert(r <= m / 2 + 1) by (nonlinear_arith)
        requires
            r * p - m <= p,
            p >= 2,
            m == 0x100_0000_0000int,
    ;
    assert(j * r < 0x1_0000_0000_0000_0000int) by (nonlinear_arith)
        requires
            0 <= j <= 3_162_277,
            0 <= r <= 0x80_0000_0001int,
    ;
}

/// Brings the table of small values from `S(., p - 1)` to `S(., p)`: from the
/// top down, `small[j] -= small[j / p] - pcnt` for `j >= p * p`, so that
/// `small[j / p]` is still read before its own update.
fn lucy_update_small(
    small: &mut Vec<i32>,
    p: usize,
    pcnt: i32,
    Ghost(n): Ghost<int>,
    Ghost(v): Ghost<int>,
)
    requires
        pass_pre(n, v, p as int, old(small)@, pcnt as int),
        p * p <= v,
    ensures
        final(small)@.len() == v + 1,
        forall|q: int| 1 <= q <= v ==> #[trigger] final(small)@[q] == sieve_count(q, p as int),
{
    let pp = p * p;
    let mut j: usize = small.len() - 1;
    let recip_p: u64 = if p == 2 {
        0
    } else {
        (0x100_0000_0000u64 + p as u64 - 1) / p as u64
    };
    proof {
        assert(pp >= 4) by (nonlinear_arith)
            requires
                pp == p * p,
                p >= 2,
        ;
    }
    while j >= pp
        invariant
            lucy_bounds(n, v),
            2 <= p <= v,
            is_prime(p as nat),
            pp == p * p,
            4 <= pp <= v,
            pcnt == sieve_count(p - 1, p - 1),
            p != 2 ==> recip_p == (0x100_0000_0000int + p - 1) / (p as int),
            small.len() == v + 1,
            pp - 1 <= j <= v,
            forall|k: int| 1 <= k <= j ==> #[trigger] small@[k] == sieve_count(k, p - 1),
            forall|k: int| j < k <= v ==> #[trigger] small@[k] == sieve_count(k, p as int),
        decreases j,
    {
        let q: usize = if p == 2 {
            proof {
                lemma_shr1(j);
            }
            j >> 1
        } else {
            proof {
                lemma_recip40(j as int, p as int, recip_p as int);
                lemma_shr40((j as u64 * recip_p) as u64);
            }
            ((j as u64 * recip_p) >> 40) as usize
        };
        proof {
            assert(q == (j as int) / (p as int));
            lemma_div_pos_is_pos(j as int, p as int);
            assert(1 <= q < j) by (nonlinear_arith)
                requires
                    q == (j as int) / (p as int),
                    j >= p * p,
                    p >= 2,
            ;
            lemma_sieve_count_prime_step(j as int, p as int);
            lemma_sieve_count_nonneg_le(j as int, p - 1);
            lemma_sieve_count_nonneg_le(j as int, p as int);
            lemma_sieve_count_nonneg_le(q as int, p - 1);
            lemma_sieve_count_nonneg_le(p - 1, p - 1);
        }
        let x = small[q];
        let cur = small[j];
        small.set(j, cur - (x - pcnt));
        j -= 1;
    }
    proof {
        assert forall|k: int| 1 <= k <= v implies #[trigger] small@[k] == sieve_count(k, p as int) by {
            if k <= j {
                lemma_sieve_count_prime_step(k, p as int);
            }
        }
    }
}


/// Once the indices up to `j_end = min(v, n / (p * p))` are updated, the
/// whole table holds `S(n / k, p)`: beyond `j_end` the step changes nothing.
proof fn lemma_large_done(n: int, v: int, p: int, large: Seq<i64>, j_end: int)
    requires
        lucy_bounds(n, v),
        2 <= p <= v,
        is_prime(p as nat),
        large_mid(n, v, p, large, j_end + 1),
        j_end == (if n / (p * p) < v { n / (p * p) } else { v }),
    ensures
        forall|k: int| 1 <= k <= v ==> #[trigger] large[k] == sieve_count(n / k, p),
{
    assert forall|k: int| 1 <= k <= v implies #[trigger] large[k] == sieve_count(n / k, p) by {
        if k > j_end {
            assert(p * p > 0) by (nonlinear_arith)
                requires
                    p >= 2,
            ;
            lemma_fundamental_div_mod(n, p * p);
            assert(k * p * p > n) by (nonlinear_arith)
                requires
                    k >= n / (p * p) + 1,
                    n == (p * p) * (n / (p * p)) + n % (p * p),
                    n % (p * p) < p * p,
                    p * p > 0,
            ;
            lemma_lucy_no_step(n, k, p);
        }
    }
}

/// The pass for one prime `p <= v`: every `S(n / j)` and every `S(j)` goes
/// from sieving by the numbers below `p` to sieving by `p` as well.
fn lucy_pass(
    small: &mut Vec<i32>,
    large: &mut Vec<i64>,
    recip: &Vec<u64>,
    n: u64,
    v: usize,
    p: usize,
)
    requires
        lucy_bounds(n as int, v as int),
        2 <= p <= v,
        is_prime(p as nat),
        lucy_state(n as int, v as int, p - 1, old(small)@, old(large)@),
        recip_ok(recip@, v as int),
    ensures
        lucy_state(n as int, v as int, p as int, final(small)@, final(large)@),
{
    let ghost ni = n as int;
    let ghost vi = v as int;
    let ghost pi = p as int;
    proof {
        assert(p * p <= n && p * p >= 4) by (nonlinear_arith)
            requires
                2 <= p <= v,
                v * v <= n,
        ;
        lemma_sieve_count_nonneg_le(pi - 1, pi - 1);
    }
    let pcnt32 = small[p - 1];
    let pcnt = pcnt32 as i64;
    let pp: u64 = p as u64 * p as u64;
    let je = n / pp;
    let j_end: usize = if je < v as u64 {
        je as usize
    } else {
        v
    };
    let crossover = v / p;
    let n_div_p = n / p as u64;
    let branch1_end = if crossover < j_end {
        crossover
    } else {
        j_end
    };
    proof {
        assert(pass_pre(ni, vi, pi, small@, pcnt as int));
        lemma_fundamental_div_mod(vi, pi);
        lemma_fundamental_div_mod(ni, pi * pi);
        assert(j_end * pi * pi <= ni) by (nonlinear_arith)
            requires
                j_end <= ni / (pi * pi),
                ni == (pi * pi) * (ni / (pi * pi)) + ni % (pi * pi),
                ni % (pi * pi) >= 0,
                j_end >= 0,
        ;
        assert(branch1_end * pi <= vi && branch1_end * pi * pi <= ni) by (nonlinear_arith)
            requires
                branch1_end <= crossover,
                branch1_end <= j_end,
                vi == pi * crossover + vi % pi,
                vi % pi >= 0,
                j_end * pi * pi <= ni,
                pi >= 2,
                branch1_end >= 0,
        ;
    }
    lucy_branch1(large, p, pcnt, branch1_end, Ghost(ni), Ghost(vi), Ghost(small@));
    if crossover < j_end {
        let sqrt_x = isqrt(n_div_p);
        proof {
            lemma_lucy_product_bound(ni, vi, pi, 1);
            // crossover * crossover <= n / p, so crossover <= sqrt_x
            lemma_fundamental_div_mod(ni, pi);
            assert(crossover * crossover * pi <= ni) by (nonlinear_arith)
                requires
                    vi == pi * crossover + vi % pi,
                    vi % pi >= 0,
                    crossover >= 0,
                    vi * vi <= ni,
                    pi >= 2,
            ;
            assert(crossover * crossover <= n_div_p) by (nonlinear_arith)
                requires
                    crossover * crossover * pi <= ni,
                    ni == pi * (ni / pi) + ni % pi,
                    ni % pi < pi,
                    n_div_p == ni / pi,
                    pi >= 2,
            ;
            if crossover > sqrt_x {
                assert(crossover * crossover >= (sqrt_x + 1) * (sqrt_x + 1)) by (nonlinear_arith)
                    requires
                        crossover >= sqrt_x + 1,
                ;
            }
        }
        let phase_a_end: usize = if sqrt_x < j_end as u64 {
            sqrt_x as usize
        } else {
            j_end
        };
        proof {
            assert(phase_a_end * pi * pi <= ni) by (nonlinear_arith)
                requires
                    phase_a_end <= j_end,
                    j_end * pi * pi <= ni,
                    pi >= 0,
            ;
        }
        if crossover < phase_a_end {
            lucy_phase_a(large, small, recip, p, pcnt, n_div_p, crossover, phase_a_end, Ghost(ni), Ghost(vi));
        }
        if phase_a_end < j_end {
            let q_start_u: u64 = if phase_a_end >= crossover + 1 {
                n_div_p / (phase_a_end + 1) as u64
            } else {
                n_div_p / (crossover + 1) as u64
            };
            let q_end_u: u64 = n_div_p / j_end as u64;
            let first_j = phase_a_end + 1;
            proof {
                assert(first_j * pi >= vi + 1) by (nonlinear_arith)
                    requires
                        first_j >= crossover + 1,
                        vi == pi * crossover + vi % pi,
                        vi % pi < pi,
                ;
                assert(phase_b_pre(ni, vi, pi, n_div_p as int, first_j as int, j_end as int, q_start_u as int, q_end_u as int));
                lemma_phase_b_facts(ni, vi, pi, n_div_p as int, first_j as int, j_end as int, q_start_u as int, q_end_u as int);
            }
            let q_start = q_start_u as usize;
            let q_end = q_end_u as usize;
            if p <= 7 {
                lucy_phase_b_step(large, small, p, pcnt, n_div_p, first_j, j_end, q_start, q_end, Ghost(ni), Ghost(vi));
            } else {
                lucy_phase_b_recip(large, small, recip, p, pcnt, n_div_p, first_j, j_end, q_start, q_end, Ghost(ni), Ghost(vi));
            }
        }
    }
    proof {
        lemma_large_done(ni, vi, pi, large@, j_end as int);
    }
    if pp <= v as u64 {
        lucy_update_small(small, p, pcnt32, Ghost(ni), Ghost(vi));
    } else {
        proof {
            assert forall|q: int| 1 <= q <= vi implies #[trigger] small@[q] == sieve_count(q, pi) by {
                lemma_sieve_count_prime_step(q, pi);
            }
        }
    }
}

/// pi(n) by the Lucy_Hedgehog method: starting from `S(x, 1) = x - 1`, one
/// pass for each prime `p <= sqrt n`, and `S(n, sqrt n) = pi(n)`.
pub fn count_primes_lucy(n: u64) -> (count: u64)
    requires
        n <= LUCY_MAX,
    ensures
        count == prime_count(n as nat),
{
    proof {
        lemma_prime_count_small();
    }
    if n < 2 {
        return 0;
    }
    if n < 3 {
        return 1;
    }
    if n < 5 {
        return 2;
    }
    let r = isqrt(n);
    proof {
        assert(2 <= r <= 3_162_277) by (nonlinear_arith)
            requires
                r * r <= n,
                n < (r + 1) * (r + 1),
                5 <= n <= 10_000_000_000_000,
        ;
    }
    let v = r as usize;
    let ghost ni = n as int;
    let ghost vi = v as int;
    let (mut small, mut large, recip) = lucy_init(n, v);
    let sieve = sieve_past(v);
    let primes = sieve_primes_from(&sieve, 2);
    let ghost bound = sieve_bound(sieve) as int;
    let mut i: usize = 0;
    let mut done = false;
    let ghost mut m: int = 1;
    while i < primes.len() && !done
        invariant
            lucy_bounds(ni, vi),
            ni == n,
            vi == v,
            recip_ok(recip@, vi),
            vi <= bound,
            forall|a: int, b: int| 0 <= a < b < primes.len() ==> primes@[a] < primes@[b],
            forall|a: int|
                0 <= a < primes.len() ==> is_prime(#[trigger] primes@[a] as nat) && 2 <= primes@[a] <= bound,
            forall|q: usize| 2 <= q <= bound && is_prime(q as nat) ==> #[trigger] primes@.contains(q),
            0 <= i <= primes.len(),
            i == 0 ==> m == 1,
            i > 0 ==> m == primes@[i - 1],
            1 <= m <= vi,
            lucy_state(ni, vi, m, small@, large@),
            done ==> i < primes.len() && primes@[i as int] > v,
        decreases primes.len() - i + (if done { 0int } else { 1int }),
    {
        let p = primes[i];
        if p > v {
            done = true;
        } else {
            proof {
                lemma_no_prime_gap(primes@, bound, 2, i as int, m, p - 1);
                assert forall|k: int| 1 <= k <= vi implies #[trigger] small@[k] == sieve_count(k, p - 1) by {
                    lemma_sieve_count_no_prime_between(k, m, p - 1);
                }
                assert forall|k: int| 1 <= k <= vi implies #[trigger] large@[k] == sieve_count(ni / k, p - 1) by {
                    lemma_sieve_count_no_prime_between(ni / k, m, p - 1);
                }
            }
            lucy_pass(&mut small, &mut large, &recip, n, v, p);
            proof {
                m = p as int;
            }
            i += 1;
        }
    }
    proof {
        lemma_no_prime_gap(primes@, bound, 2, i as int, m, vi);
        lemma_sieve_count_no_prime_between(ni, m, vi);
        lemma_sieve_count_primes(ni, vi);
        assert(large@[1] == sieve_count(ni / 1, m));
    }
    large[1] as u64
}

} // verus!
