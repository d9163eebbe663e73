//! The special leaves of the Lagarias-Miller-Odlyzko method, summed over a
//! segmented sieve of `[0, x / y]`, and the prime count that rests on them.

use vstd::prelude::*;
use vstd::arithmetic::div_mod::*;
use crate::pi_sieve::{flat_bit, flat_ones, lemma_clear_bit, lemma_stride_step};
use crate::bit_sieve::{BitSieve, PreSieveTemplate};
use crate::roots::{isqrt, icbrt};
use crate::small_sieve::{sieve_past, sieve_prime_pi, sieve_primes_from, sieve_bound, lemma_no_prime_gap};
use crate::tables::{generate_lpf, generate_mu, generate_pi, PhiTinyCache};
use crate::leaves::{compute_s1, s1_sum};
use crate::p2::{compute_p2, p2_spec};
use primal::Sieve;
use crate::wheel::{fast_div, two_pow_64};
use crate::number_theory::{is_prime, prime_count, survives, lemma_survives_composite_step};
use crate::tables::{mobius, least_prime_factor, NO_FACTOR, lemma_mobius_range_pub};
use crate::special_leaves::{
    prime_table, phi_first, coprime_first, leaf_n, is_special_leaf, leaf_term, leaf_weight, leaf_row, weight_row,
    leaf_rows, s2_spec, sieve_holds, first_multiple_at, low1, seg_max_m, segment_done, sqrt_bounds, easy_term,
    easy_row, easy_count, lemma_phi_first_bounds, lemma_phi_first_monotone, lemma_row_concat, lemma_row_bound,
    lemma_leaf_term_bound, lemma_sieve_counts_phi, lemma_easy_row_concat, lemma_easy_row_bound, lemma_prime_table,
    lemma_prime_table_floor, lemma_tiny_coprime, lemma_beyond_max_b, lemma_within_max_b, next_multiple,
    lemma_next_multiple, lemma_next_multiple_start, lemma_stride_end, lemma_cross_off_holds, lemma_hard_window,
    lemma_easy_window, lemma_done_monotone, lemma_done_row_zero, lemma_rows_tail_zero, lemma_rows_bound,
    lemma_row_split_n, lemma_rows_split_n, lemma_rows_all_below, base_rows, lemma_next_multiple_from_p,
    lemma_phi_small, lemma_easy_row_ones,
};
use crate::tables::tiny_prime_spec;
use crate::wheel_sieve::current_num_threads;
use vstd::arithmetic::power2::{pow2, lemma_pow2_unfold};

verus! {

/// Below `len`, `cur` is `orig` with the positions `start, start + p, ...`
/// below `k` cleared.
pub open spec fn struck_below(orig: Seq<u64>, cur: Seq<u64>, len: int, start: int, p: int, k: int) -> bool {
    forall|i: int|
        0 <= i < len ==> #[trigger] flat_bit(cur, i) == (flat_bit(orig, i) && !(start <= i < k && (i - start) % p
            == 0))
}

/// Clearing one bit lowers a prefix count by that bit when it lies inside.
proof fn lemma_flat_ones_clear_one(old: Seq<u64>, new: Seq<u64>, k: int, n: int)
    requires
        0 <= n,
        forall|i: int| 0 <= i < n ==> #[trigger] flat_bit(new, i) == (flat_bit(old, i) && i != k),
    ensures
        flat_ones(new, n) == flat_ones(old, n) - (if 0 <= k < n && flat_bit(old, k) {
            1int
        } else {
            0int
        }),
    decreases n,
{
    if n > 0 {
        lemma_flat_ones_clear_one(old, new, k, n - 1);
        assert(flat_bit(new, n - 1) == (flat_bit(old, n - 1) && n - 1 != k));
    }
}

/// Clears position `k` of the stride and says whether it was set.
fn strike(bits: &mut Vec<u64>, k: usize, p: usize, Ghost(orig): Ghost<Seq<u64>>, Ghost(len): Ghost<int>, Ghost(start): Ghost<int>) -> (was: i64)
    requires
        p >= 1,
        start <= k < len <= 64 * old(bits).len(),
        (k - start) % (p as int) == 0,
        old(bits)@.len() == orig.len(),
        struck_below(orig, old(bits)@, len, start, p as int, k as int),
    ensures
        final(bits)@.len() == orig.len(),
        struck_below(orig, final(bits)@, len, start, p as int, k + p),
        flat_ones(final(bits)@, len) == flat_ones(old(bits)@, len) - was,
        0 <= was <= 1,
{
    let w = k / 64;
    let b = k % 64;
    let word = bits[w];
    let bit = (word >> (b as u64)) & 1u64;
    assert(bit <= 1u64) by (bit_vector)
        requires
            bit == (word >> (b as u64)) & 1u64,
    ;
    let was = bit as i64;
    let ghost before = bits@;
    bits.set(w, word & !(1u64 << (b as u64)));
    proof {
        lemma_fundamental_div_mod(k as int, 64);
        assert forall|i: int| 0 <= i < 64 * before.len() implies #[trigger] flat_bit(bits@, i) == (flat_bit(before, i) && i
            != k) by {
            lemma_clear_bit(before, bits@, w as int, b as int, i);
        }
        lemma_flat_ones_clear_one(before, bits@, k as int, len);
        assert(was == 1 <==> flat_bit(before, k as int));
        assert forall|i: int| 0 <= i < len implies #[trigger] flat_bit(bits@, i) == (flat_bit(orig, i) && !(start <= i < k
            + p && (i - start) % (p as int) == 0)) by {
            lemma_stride_step(i, k as int, start, p as int);
            assert(flat_bit(before, i) == (flat_bit(orig, i) && !(start <= i < k && (i - start) % (p as int) == 0)));
        }
    }
    was
}

/// Clears the positions `start, start + p, start + 2p, ...` below the
/// sieve's length, keeping its count, and returns the first position of the
/// stride at or past the length.
pub fn cross_off(sieve: &mut BitSieve, p: usize, start: usize) -> (end: usize)
    requires
        old(sieve).wf(),
        p >= 1,
        start <= old(sieve).len + p,
        old(sieve).len as int + 8 * p <= usize::MAX,
    ensures
        final(sieve).wf(),
        final(sieve).len == old(sieve).len,
        final(sieve).bits@.len() == old(sieve).bits@.len(),
        forall|i: int|
            0 <= i < old(sieve).len ==> #[trigger] flat_bit(final(sieve).bits@, i) == (flat_bit(old(sieve).bits@, i)
                && !(start <= i && (i - start) % (p as int) == 0)),
        end >= start,
        (end - start) % (p as int) == 0,
        end >= old(sieve).len,
        end == start || end < old(sieve).len + p,
{
    let seg_len = sieve.len;
    let ghost orig = sieve.bits@;
    let ghost len = seg_len as int;
    let ghost st = start as int;
    let mut k = start;
    let mut delta: i64 = 0;
    proof {
        lemma_mod_self_0(p as int);
        lemma_small_mod(0, p as nat);
        lemma_flat_ones_le(orig, len);
    }
    while k + p * 3 < seg_len
        invariant
            seg_len == sieve.len,
            seg_len <= 64 * sieve.bits@.len(),
            sieve.bits@.len() == orig.len(),
            p >= 1,
            start <= k,
            k <= seg_len + 4 * p,
            seg_len as int + 8 * p <= usize::MAX,
            (k - start) % (p as int) == 0,
            k == start || k < seg_len + p,
            struck_below(orig, sieve.bits@, len, st, p as int, k as int),
            flat_ones(sieve.bits@, len) == flat_ones(orig, len) - delta,
            0 <= delta <= flat_ones(orig, len),
            flat_ones(orig, len) <= len,
            len < 0x1_0000_0000_0000,
            sieve.total == flat_ones(orig, len),
            len == seg_len,
            st == start,
        decreases seg_len + 4 * p - k,
    {
        let w0 = strike(&mut sieve.bits, k, p, Ghost(orig), Ghost(len), Ghost(st));
        proof {
            lemma_stride_next(k as int, st, p as int);
        }
        let w1 = strike(&mut sieve.bits, k + p, p, Ghost(orig), Ghost(len), Ghost(st));
        proof {
            lemma_stride_next((k + p) as int, st, p as int);
        }
        let w2 = strike(&mut sieve.bits, k + 2 * p, p, Ghost(orig), Ghost(len), Ghost(st));
        proof {
            lemma_stride_next((k + 2 * p) as int, st, p as int);
        }
        let w3 = strike(&mut sieve.bits, k + 3 * p, p, Ghost(orig), Ghost(len), Ghost(st));
        proof {
            lemma_stride_next((k + 3 * p) as int, st, p as int);
        }
        delta += w0 + w1 + w2 + w3;
        k += p * 4;
    }
    while k < seg_len
        invariant
            seg_len == sieve.len,
            seg_len <= 64 * sieve.bits@.len(),
            sieve.bits@.len() == orig.len(),
            p >= 1,
            start <= k,
            k <= seg_len + 4 * p,
            seg_len as int + 8 * p <= usize::MAX,
            (k - start) % (p as int) == 0,
            k == start || k < seg_len + p,
            struck_below(orig, sieve.bits@, len, st, p as int, k as int),
            flat_ones(sieve.bits@, len) == flat_ones(orig, len) - delta,
            0 <= delta <= flat_ones(orig, len),
            flat_ones(orig, len) <= len,
            len < 0x1_0000_0000_0000,
            sieve.total == flat_ones(orig, len),
            len == seg_len,
            st == start,
        decreases seg_len + 4 * p - k,
    {
        let w = strike(&mut sieve.bits, k, p, Ghost(orig), Ghost(len), Ghost(st));
        proof {
            lemma_stride_next(k as int, st, p as int);
        }
        delta += w;
        k += p;
    }
    sieve.total = sieve.total - delta;
    k
}

/// A prefix of `n` positions holds at most `n` set bits.
pub proof fn lemma_flat_ones_le(words: Seq<u64>, n: int)
    requires
        n >= 0,
    ensures
        flat_ones(words, n) <= n,
    decreases n,
{
    if n > 0 {
        lemma_flat_ones_le(words, n - 1);
    }
}

/// The next position of a stride stays on it.
proof fn lemma_stride_next(k: int, start: int, p: int)
    requires
        p >= 1,
        k >= start,
        (k - start) % p == 0,
    ensures
        (k + p - start) % p == 0,
{
    lemma_mod_add_multiples_vanish(k - start, p);
}


/// The reciprocals `floor(2^64 / p)` of the primes of a table (0 for its
/// leading 0).
pub fn prime_reciprocals(primes: &Vec<u32>) -> (prime_recip: Vec<u64>)
    requires
        forall|b: int| 1 <= b < primes.len() ==> 2 <= #[trigger] primes@[b],
    ensures
        prime_recip.len() == primes.len(),
        forall|l: int| 1 <= l < primes.len() ==> #[trigger] prime_recip@[l] == floor_recip(primes@[l] as int),
{
    let ghost ps = primes@;
    let nprimes = primes.len();
    let mut prime_recip: Vec<u64> = Vec::new();
    let mut i: usize = 0;
    while i < nprimes
        invariant
            nprimes == ps.len(),
            ps == primes@,
            forall|b: int| 1 <= b < ps.len() ==> 2 <= #[trigger] ps[b],
            i <= nprimes,
            prime_recip.len() == i,
            forall|l: int| 1 <= l < i ==> #[trigger] prime_recip@[l] == floor_recip(ps[l] as int),
        decreases nprimes - i,
    {
        let p = primes[i];
        let r: u64 = if p == 0 {
            0
        } else {
            proof {
                assert(0x1_0000_0000_0000_0000int / (p as int) <= 0x1_0000_0000_0000_0000int / 1) by {
                    lemma_div_is_ordered_by_denominator(0x1_0000_0000_0000_0000int, 1, p as int);
                }
                if p >= 2 {
                    lemma_div_is_ordered_by_denominator(0x1_0000_0000_0000_0000int, 2, p as int);
                }
            }
            (0x1_0000_0000_0000_0000u128 / p as u128) as u64
        };
        prime_recip.push(r);
        i = i + 1;
    }
    prime_recip
}

/// The reciprocal `floor(2^64 / p)` of the special-leaf computations.
pub open spec fn floor_recip(p: int) -> int {
    two_pow_64() / p
}

/// Division by `d` through its reciprocal `floor(2^64 / d)`, corrected by
/// one step: exactly `n / d`.
pub fn fast_div_floor(n: u64, d: u64, recip: u64) -> (q: u64)
    requires
        d >= 2,
        recip == floor_recip(d as int),
    ensures
        q == n / d,
{
    let t = fast_div(n, recip);
    proof {
        let m = two_pow_64();
        let p = d as int;
        let r = recip as int;
        let nn = n as int;
        let qq = nn / p;
        lemma_fundamental_div_mod(m, p);
        lemma_fundamental_div_mod(nn, p);
        lemma_fundamental_div_mod(nn * r, m);
        assert(r * p <= m && r * p > m - p) by (nonlinear_arith)
            requires
                r == m / p,
                m == p * (m / p) + m % p,
                0 <= m % p < p,
        ;
        assert(nn * r * p <= nn * m) by (nonlinear_arith)
            requires
                r * p <= m,
                nn >= 0,
        ;
        assert(t <= qq) by (nonlinear_arith)
            requires
                nn * r * p <= nn * m,
                t == (nn * r) / m,
                nn * r == m * t + (nn * r) % m,
                0 <= (nn * r) % m < m,
                nn == p * qq + nn % p,
                0 <= nn % p < p,
                p > 0,
                m > 0,
                t >= 0,
        ;
        assert(nn * r * p >= nn * m - nn * (p - 1)) by (nonlinear_arith)
            requires
                r * p >= m - p + 1,
                nn >= 0,
        ;
        assert(t >= qq - 1) by (nonlinear_arith)
            requires
                nn * r * p >= nn * m - nn * (p - 1),
                nn * r == m * t + (nn * r) % m,
                0 <= (nn * r) % m < m,
                nn == p * qq + nn % p,
                0 <= nn % p < p,
                0 <= nn < m,
                p >= 2,
                m > 0,
        ;
        assert(t * p <= nn) by (nonlinear_arith)
            requires
                t <= qq,
                nn == p * qq + nn % p,
                0 <= nn % p,
                p > 0,
                t >= 0,
        ;
    }
    let rem = n - t * d;
    if rem >= d {
        proof {
            assert(t == (n as int) / (d as int) - 1) by (nonlinear_arith)
                requires
                    rem == n - t * d,
                    rem >= d,
                    t >= (n as int) / (d as int) - 1,
                    t <= (n as int) / (d as int),
                    (n as int) == (d as int) * ((n as int) / (d as int)) + (n as int) % (d as int),
                    (n as int) % (d as int) < d,
            ;
        }
        t + 1
    } else {
        proof {
            assert(t == (n as int) / (d as int)) by (nonlinear_arith)
                requires
                    rem == n - t * d,
                    rem < d,
                    t >= (n as int) / (d as int) - 1,
                    t <= (n as int) / (d as int),
                    (n as int) == (d as int) * ((n as int) / (d as int)) + (n as int) % (d as int),
                    (n as int) % (d as int) >= 0,
            ;
        }
        t
    }
}


/// The leaves of `p_b = prime` with `m` in `(min_m, max_m]` whose
/// `n = x_div_prime / m` lies in the sieve's segment `[low, low + len)`:
/// the sum of `-mu(m) * (phi_b + count)`, where `count` is the sieve's count
/// up to `n` and `phi_b` its count below the segment less `base`, and the
/// sum of the weights `-mu(m)`.
pub(crate) fn hard_leaves(
    x_div_prime: u64,
    prime: u64,
    min_m: u64,
    max_m: usize,
    low: usize,
    mu: &Vec<i8>,
    lpf: &Vec<i32>,
    sieve: &BitSieve,
    phi_b: i64,
    Ghost(x): Ghost<int>,
    Ghost(y): Ghost<int>,
    Ghost(primes): Ghost<Seq<u32>>,
    Ghost(b): Ghost<int>,
    Ghost(base): Ghost<int>,
) -> (r: (i128, i64))
    requires
        0 <= x < 0x8000_0000_0000_0000,
        1 <= y < NO_FACTOR,
        1 <= b < primes.len(),
        prime == primes[b],
        2 <= prime <= y,
        x_div_prime == x / (prime as int),
        min_m >= y / (prime as int),
        max_m <= y,
        mu.len() > y,
        lpf.len() > y,
        forall|m: int| 0 <= m <= y ==> #[trigger] mu@[m] == mobius(m),
        forall|m: int| 0 <= m <= y ==> #[trigger] lpf@[m] == least_prime_factor(m),
        sieve.wf(),
        low <= x,
        low + sieve.len < 0x4000_0000_0000_0000,
        low + sieve.len <= usize::MAX,
        sieve_holds(sieve.bits@, sieve.len as int, low as int, primes, b - 1),
        0 <= base <= phi_first(low - 1, primes, b - 1),
        phi_b == phi_first(low - 1, primes, b - 1) - base,
    ensures
        r.0 == leaf_row(x, y, primes, b, min_m as int, max_m as int, low as int, low + sieve.len) - base * weight_row(
            x,
            y,
            primes,
            b,
            min_m as int,
            max_m as int,
            low as int,
            low + sieve.len,
        ),
        r.1 == weight_row(x, y, primes, b, min_m as int, max_m as int, low as int, low + sieve.len),
{
    let high = low + sieve.len;
    let ghost lo = low as int;
    let ghost hi = high as int;
    let mut acc: i128 = 0;
    let mut coeff: i64 = 0;
    let mut prev_pos: Option<usize> = None;
    let mut running: i64 = 0;
    let mut m = max_m;
    proof {
        lemma_phi_first_bounds(low - 1, primes, b - 1);
        assert(leaf_row(x, y, primes, b, max_m as int, max_m as int, lo, hi) == 0);
        assert(weight_row(x, y, primes, b, max_m as int, max_m as int, lo, hi) == 0);
        assert(base * 0 == 0);
    }
    while m as u64 > min_m
        invariant
            0 <= x < 0x8000_0000_0000_0000,
            1 <= y < NO_FACTOR,
            1 <= b < primes.len(),
            prime == primes[b],
            2 <= prime <= y,
            x_div_prime == x / (prime as int),
            min_m >= y / (prime as int),
            m <= max_m <= y,
            min_m <= m || m == max_m,
            mu.len() > y,
            lpf.len() > y,
            forall|k: int| 0 <= k <= y ==> #[trigger] mu@[k] == mobius(k),
            forall|k: int| 0 <= k <= y ==> #[trigger] lpf@[k] == least_prime_factor(k),
            sieve.wf(),
            low <= x,
            high == low + sieve.len,
            lo == low,
            hi == high,
            high < 0x4000_0000_0000_0000,
            sieve_holds(sieve.bits@, sieve.len as int, lo, primes, b - 1),
            0 <= base <= phi_first(lo - 1, primes, b - 1),
            phi_first(lo - 1, primes, b - 1) <= x,
            phi_b == phi_first(lo - 1, primes, b - 1) - base,
            acc == leaf_row(x, y, primes, b, m as int, max_m as int, lo, hi) - base * weight_row(
                x,
                y,
                primes,
                b,
                m as int,
                max_m as int,
                lo,
                hi,
            ),
            coeff == weight_row(x, y, primes, b, m as int, max_m as int, lo, hi),
            match prev_pos {
                Some(pp) => pp < sieve.len && running == flat_ones(sieve.bits@, pp + 1) && (m >= 1 ==> low + pp
                    <= (x_div_prime as int) / (m as int)),
                None => true,
            },
        decreases m,
    {
        proof {
            lemma_row_concat(x, y, primes, b, m - 1, m as int, max_m as int, lo, hi);
            assert(min_m < m <= max_m);
            lemma_row_bound(x, y, primes, b, m as int, max_m as int, lo, hi);
            lemma_leaf_term_bound(x, y, primes, b, m as int, lo, hi);
            lemma_mobius_range_pub(m as int);
            assert(leaf_row(x, y, primes, b, m - 1, m - 1, lo, hi) == 0);
            assert(weight_row(x, y, primes, b, m - 1, m - 1, lo, hi) == 0);
            assert(leaf_row(x, y, primes, b, m - 1, m as int, lo, hi) == leaf_term(x, y, primes, b, m as int, lo, hi));
            assert(weight_row(x, y, primes, b, m - 1, m as int, lo, hi) == leaf_weight(y, primes, x, b, m as int, lo, hi));
            assert((max_m - m) * x <= y * x) by (nonlinear_arith)
                requires
                    0 <= max_m - m <= y,
                    x >= 0,
            ;
            assert(y * x < 0x8000_0000 * 0x8000_0000_0000_0000) by (nonlinear_arith)
                requires
                    y < 0x8000_0000,
                    0 <= x < 0x8000_0000_0000_0000,
            ;
            assert(-(max_m - m) * x == -((max_m - m) * x)) by (nonlinear_arith);
            let wr = weight_row(x, y, primes, b, m as int, max_m as int, lo, hi);
            assert(-(x * y) <= base * wr <= x * y) by (nonlinear_arith)
                requires
                    0 <= base <= x,
                    -(max_m - m) <= wr <= max_m - m,
                    max_m - m <= y,
            ;
            let lw = leaf_weight(y, primes, x, b, m as int, lo, hi);
            assert(base * (lw + wr) == base * lw + base * wr) by (nonlinear_arith);
        }
        let mv = mu[m];
        if mv != 0 && (prime as i32) < lpf[m] {
            let xpm64 = x_div_prime / m as u64;
            proof {
                lemma_div_is_ordered_by_denominator(x_div_prime as int, 1, m as int);
            }
            if xpm64 >= low as u64 && xpm64 < high as u64 {
                let xpm = xpm64 as usize;
                let pos = xpm - low;
                proof {
                    lemma_flat_ones_le(sieve.bits@, pos + 1);
                }
                let count = match prev_pos {
                    None => {
                        running = sieve.count(pos);
                        running
                    },
                    Some(pp) => {
                        running = running + sieve.count_delta(pp, pos);
                        running
                    },
                };
                proof {
                    lemma_sieve_counts_phi(sieve.bits@, sieve.len as int, lo, primes, b - 1, pos + 1);
                    lemma_phi_first_bounds(xpm as int, primes, b - 1);
                    lemma_phi_first_monotone(lo - 1, xpm as int, primes, b - 1);
                    assert(is_special_leaf(y, primes, b, m as int));
                    assert(leaf_n(x, primes, b, m as int) == xpm);
                }
                let v = phi_b + count;
                proof {
                    assert(v == phi_first(xpm as int, primes, b - 1) - base);
                    assert(mv == mobius(m as int));
                    let f = phi_first(xpm as int, primes, b - 1);
                    assert(-(mv as int) * (v as int) == -mobius(m as int) * f - base * (-mobius(m as int))) by (nonlinear_arith)
                        requires
                            v == f - base,
                            mv == mobius(m as int),
                    ;
                    assert(-0x8000_0000_0000_0000 <= (mv as int) * (v as int) <= 0x8000_0000_0000_0000) by (nonlinear_arith)
                        requires
                            -1 <= mv <= 1,
                            0 <= v <= x,
                            x < 0x8000_0000_0000_0000,
                    ;
                }
                let ghost acc_old = acc as int;
                acc = acc - (mv as i128) * (v as i128);
                coeff = coeff - mv as i64;
                prev_pos = Some(pos);
                proof {
                    let f = phi_first(xpm as int, primes, b - 1);
                    let lt = leaf_term(x, y, primes, b, m as int, lo, hi);
                    let lw = leaf_weight(y, primes, x, b, m as int, lo, hi);
                    let lr = leaf_row(x, y, primes, b, m as int, max_m as int, lo, hi);
                    let wr = weight_row(x, y, primes, b, m as int, max_m as int, lo, hi);
                    assert(lt == -mobius(m as int) * f);
                    assert(lw == -mobius(m as int));
                    assert(acc_old - (mv as int) * (v as int) == (lr + lt) - base * (wr + lw)) by (nonlinear_arith)
                        requires
                            lt == -mobius(m as int) * f,
                            lw == -mobius(m as int),
                            mv == mobius(m as int),
                            v == f - base,
                            acc_old == lr - base * wr,
                    ;
                }
            } else {
                proof {
                    assert(leaf_term(x, y, primes, b, m as int, lo, hi) == 0);
                }
            }
        } else {
            proof {
                assert(!is_special_leaf(y, primes, b, m as int));
            }
        }
        proof {
            if m >= 2 {
                lemma_div_is_ordered_by_denominator(x_div_prime as int, (m - 1) as int, m as int);
            }
        }
        m = m - 1;
    }
    (acc, coeff)
}


/// The leaves of `p_b = prime` whose `m` is a prime `primes[l]`, for `l`
/// from `l_start` down while `primes[l] > min_m`, with `n` in the sieve's
/// segment: the sum of `phi_b + count` and the number of such leaves; the
/// index where the walk stopped comes third.
fn easy_leaves(
    x_div_prime: u64,
    l_start: usize,
    min_m: u64,
    low: usize,
    primes: &Vec<u32>,
    prime_recip: &Vec<u64>,
    sieve: &BitSieve,
    phi_b: i64,
    Ghost(x): Ghost<int>,
    Ghost(y): Ghost<int>,
    Ghost(b): Ghost<int>,
    Ghost(base): Ghost<int>,
) -> (r: (i128, i64, usize))
    requires
        0 <= x < 0x8000_0000_0000_0000,
        1 <= y < NO_FACTOR,
        prime_table(primes@, y),
        1 <= b < primes.len(),
        x_div_prime == x / (primes@[b] as int),
        l_start < primes.len(),
        prime_recip.len() == primes.len(),
        forall|l: int| 1 <= l < primes.len() ==> #[trigger] prime_recip@[l] == floor_recip(primes@[l] as int),
        sieve.wf(),
        low <= x,
        low + sieve.len < 0x4000_0000_0000_0000,
        low + sieve.len <= usize::MAX,
        sieve_holds(sieve.bits@, sieve.len as int, low as int, primes@, b - 1),
        0 <= base <= phi_first(low - 1, primes@, b - 1),
        phi_b == phi_first(low - 1, primes@, b - 1) - base,
    ensures
        r.2 <= l_start,
        r.2 == 0 || primes@[r.2 as int] <= min_m,
        forall|l: int| r.2 < l <= l_start ==> #[trigger] primes@[l] > min_m,
        r.0 == easy_row(x, primes@, b, r.2 as int, l_start as int, low as int, low + sieve.len) - base * easy_count(
            x,
            primes@,
            b,
            r.2 as int,
            l_start as int,
            low as int,
            low + sieve.len,
        ),
        r.1 == easy_count(x, primes@, b, r.2 as int, l_start as int, low as int, low + sieve.len),
{
    let high = low + sieve.len;
    let ghost lo = low as int;
    let ghost hi = high as int;
    let ghost ps = primes@;
    let nprimes = primes.len();
    let mut acc: i128 = 0;
    let mut coeff: i64 = 0;
    let mut prev_pos: Option<usize> = None;
    let mut running: i64 = 0;
    let mut l = l_start;
    proof {
        lemma_prime_table(ps, y);
        crate::number_theory::lemma_prime_count_le(y as nat);
        lemma_phi_first_bounds(low - 1, ps, b - 1);
        assert(easy_row(x, ps, b, l_start as int, l_start as int, lo, hi) == 0);
        assert(easy_count(x, ps, b, l_start as int, l_start as int, lo, hi) == 0);
        assert(base * 0 == 0);
    }
    while l > 0 && l < nprimes && primes[l] as u64 > min_m
        invariant
            0 <= x < 0x8000_0000_0000_0000,
            1 <= y < NO_FACTOR,
            prime_table(ps, y),
            ps == primes@,
            nprimes == primes.len(),
            forall|k: int| 1 <= k < ps.len() ==> 2 <= #[trigger] ps[k] <= y,
            1 <= b < ps.len(),
            x_div_prime == x / (ps[b] as int),
            l <= l_start < ps.len(),
            ps.len() <= y + 1,
            forall|k: int| l < k <= l_start ==> #[trigger] ps[k] > min_m,
            prime_recip.len() == ps.len(),
            forall|k: int| 1 <= k < ps.len() ==> #[trigger] prime_recip@[k] == floor_recip(ps[k] as int),
            sieve.wf(),
            low <= x,
            high == low + sieve.len,
            lo == low,
            hi == high,
            high < 0x4000_0000_0000_0000,
            sieve_holds(sieve.bits@, sieve.len as int, lo, ps, b - 1),
            0 <= base <= phi_first(lo - 1, ps, b - 1),
            phi_first(lo - 1, ps, b - 1) <= x,
            phi_b == phi_first(lo - 1, ps, b - 1) - base,
            acc == easy_row(x, ps, b, l as int, l_start as int, lo, hi) - base * easy_count(x, ps, b, l as int, l_start as int, lo, hi),
            coeff == easy_count(x, ps, b, l as int, l_start as int, lo, hi),
            match prev_pos {
                Some(pp) => pp < sieve.len && running == flat_ones(sieve.bits@, pp + 1),
                None => true,
            },
        decreases l,
    {
        let q = primes[l] as u64;
        proof {
            lemma_easy_row_concat(x, ps, b, l - 1, l as int, l_start as int, lo, hi);
            lemma_easy_row_bound(x, ps, b, l as int, l_start as int, lo, hi);
            assert(easy_row(x, ps, b, l - 1, l - 1, lo, hi) == 0);
            assert(easy_count(x, ps, b, l - 1, l - 1, lo, hi) == 0);
            let er = easy_row(x, ps, b, l as int, l_start as int, lo, hi);
            let ec = easy_count(x, ps, b, l as int, l_start as int, lo, hi);
            assert(er <= y * x) by (nonlinear_arith)
                requires
                    er <= (l_start - l) * x,
                    0 <= l_start - l <= y,
                    x >= 0,
            ;
            assert(y * x < 0x8000_0000 * 0x8000_0000_0000_0000) by (nonlinear_arith)
                requires
                    y < 0x8000_0000,
                    0 <= x < 0x8000_0000_0000_0000,
            ;
            assert(0 <= base * ec <= x * y) by (nonlinear_arith)
                requires
                    0 <= base <= x,
                    0 <= ec <= l_start - l,
                    l_start - l <= y,
            ;
            let tc = if lo <= leaf_n(x, ps, b, ps[l as int] as int) < hi { 1int } else { 0int };
            assert(base * (tc + ec) == base * tc + base * ec) by (nonlinear_arith);
        }
        let xpq64 = fast_div_floor(x_div_prime, q, prime_recip[l]);
        if xpq64 >= low as u64 && xpq64 < high as u64 {
            let xpq = xpq64 as usize;
            let pos = xpq - low;
            proof {
                lemma_flat_ones_le(sieve.bits@, pos + 1);
            }
            let count = match prev_pos {
                Some(pp) if pos == pp => running,
                Some(pp) if pos > pp => {
                    running = running + sieve.count_delta(pp, pos);
                    running
                },
                _ => {
                    running = sieve.count(pos);
                    running
                },
            };
            proof {
                lemma_sieve_counts_phi(sieve.bits@, sieve.len as int, lo, ps, b - 1, pos + 1);
                lemma_phi_first_bounds(xpq as int, ps, b - 1);
                lemma_phi_first_monotone(lo - 1, xpq as int, ps, b - 1);
                assert(leaf_n(x, ps, b, ps[l as int] as int) == xpq);
            }
            let v = phi_b + count;
            let ghost acc_old = acc as int;
            acc = acc + v as i128;
            coeff = coeff + 1;
            prev_pos = Some(pos);
            proof {
                let f = phi_first(xpq as int, ps, b - 1);
                assert(v == f - base);
                assert(easy_term(x, ps, b, l as int, lo, hi) == f);
            }
        }
        l = l - 1;
    }
    (acc, coeff, l)
}


/// The shared setting of the special-leaf sums: `x`, the table of the primes
/// up to `y` with `pi_y = pi(y)` of them, the first `c` of which the
/// template pre-sieves, the tables of `mu`, least prime factors and `pi` up
/// to `y`, `pi_sqrty = pi(isqrt(y))`, and the reciprocals of the primes.
pub open spec fn leaf_setting(
    x: u64,
    y: usize,
    c: usize,
    primes: Seq<u32>,
    lpf: Seq<i32>,
    mu: Seq<i8>,
    pi: Seq<u32>,
    pi_sqrty: usize,
    pi_y: usize,
    template: PreSieveTemplate,
    prime_recip: Seq<u64>,
) -> bool {
    &&& x < 0x8000_0000_0000_0000
    &&& 1 <= y < NO_FACTOR
    &&& prime_table(primes, y as int)
    &&& pi_y == primes.len() - 1
    &&& pi_y >= 1
    &&& c <= pi_y
    &&& template.wf()
    &&& template.period >= 64
    &&& template.c@ == c
    &&& forall|i: int| 1 <= i <= c ==> #[trigger] primes[i] == tiny_prime_spec(i)
    &&& lpf.len() == y + 1
    &&& mu.len() == y + 1
    &&& pi.len() == y + 1
    &&& forall|m: int| 0 <= m <= y ==> #[trigger] mu[m] == mobius(m)
    &&& forall|m: int| 0 <= m <= y ==> #[trigger] lpf[m] == least_prime_factor(m)
    &&& forall|n: int| 0 <= n <= y ==> #[trigger] pi[n] == prime_count(n as nat)
    &&& exists|s: int| sqrt_bounds(y as int, s, pi_sqrty as int)
    &&& prime_recip.len() == primes.len()
    &&& forall|l: int| 1 <= l < primes.len() ==> #[trigger] prime_recip[l] == floor_recip(primes[l] as int)
}

/// `k * y * x` with `k <= y < 2^31` and `x < 2^63` fits in an `i128`.
pub(crate) proof fn lemma_s2_bound(x: int, y: int, k: int)
    requires
        0 <= x < 0x8000_0000_0000_0000,
        0 <= y < 0x8000_0000,
        0 <= k <= y + 1,
    ensures
        k * y * x < 0x4000_0000_0000_0000_0000_0000_0000_0000,
        -(k * y * x) > -0x4000_0000_0000_0000_0000_0000_0000_0000,
        -k * y * x == -(k * y * x),
{
    assert(k * y * x < 0x4000_0000_0000_0000_0000_0000_0000_0000) by (nonlinear_arith)
        requires
            0 <= x < 0x8000_0000_0000_0000,
            0 <= y < 0x8000_0000,
            0 <= k <= y + 1,
    ;
    assert(-k * y * x == -(k * y * x)) by (nonlinear_arith);
}

/// The per-prime state at a segment from `low`: for the primes `b` in
/// `[from, upto)`, `phi[b]` counts the numbers below `low` with no factor
/// among the first `b - 1` primes, and `next[b]` is the next multiple of
/// `p_b` from `max(low, 1)`.
pub open spec fn phi_state(primes: Seq<u32>, phi: Seq<i64>, next: Seq<usize>, from: int, upto: int, low: int) -> bool {
    &&& phi.len() == primes.len()
    &&& next.len() == primes.len()
    &&& forall|b: int| from <= b < upto ==> #[trigger] phi[b] == phi_first(low - 1, primes, b - 1)
    &&& forall|b: int| from <= b < upto ==> #[trigger] next[b] == next_multiple(low1(low), primes[b] as int)
}


/// One segment `[low, high)` of the serial sum: pre-sieves it, then for
/// `b = c + 1, ...` adds the leaves of `p_b` whose `n` lies in it (with
/// `m` over the window of the segment up to `sqrt(y)`, over the primes
/// beyond), advances `phi[b]` and crosses off the multiples of `p_b`, until
/// the first prime that has no leaf in this segment nor any later one.
/// Returns the leaves' sum and, as a ghost, that first prime's index.
#[verifier::spinoff_prover]
#[verifier::rlimit(60)]
fn serial_segment(
    x: u64,
    y: usize,
    c: usize,
    primes: &Vec<u32>,
    lpf: &Vec<i32>,
    mu: &Vec<i8>,
    pi: &Vec<u32>,
    pi_sqrty: usize,
    pi_y: usize,
    low: usize,
    high: usize,
    template: &PreSieveTemplate,
    prime_recip: &Vec<u64>,
    sieve: &mut BitSieve,
    phi: &mut Vec<i64>,
    next: &mut Vec<usize>,
    Ghost(valid): Ghost<int>,
    Ghost(prev_low): Ghost<int>,
) -> (r: (i128, Ghost<int>))
    requires
        leaf_setting(x, y, c, primes@, lpf@, mu@, pi@, pi_sqrty, pi_y, *template, prime_recip@),
        low < high,
        high <= (x as int) / (y as int) + 1,
        high < 0x4000_0000_0000_0000,
        high + 8 * y + 64 <= usize::MAX,
        old(sieve).wf(),
        high - low <= 64 * old(sieve).bits@.len(),
        c + 1 <= valid <= pi_y + 1,
        0 <= prev_low <= low,
        segment_done(x as int, y as int, primes@, pi_sqrty as int, valid, prev_low),
        phi_state(primes@, old(phi)@, old(next)@, c + 1, valid, low as int),
    ensures
        r.0 == leaf_rows(x as int, y as int, primes@, c as int, pi_y - 1, low as int, high as int),
        c + 1 <= r.1@ <= valid,
        segment_done(x as int, y as int, primes@, pi_sqrty as int, r.1@, low as int),
        phi_state(primes@, final(phi)@, final(next)@, c + 1, r.1@, high as int),
        final(sieve).wf(),
        final(sieve).bits@.len() == old(sieve).bits@.len(),
{
    let ghost ps = primes@;
    let ghost xi = x as int;
    let ghost yi = y as int;
    let ghost lo = low as int;
    let ghost hi = high as int;
    let ghost s_y = choose|s: int| sqrt_bounds(y as int, s, pi_sqrty as int);
    let seg_len = high - low;
    let low1v: usize = if low > 1 {
        low
    } else {
        1
    };
    let ghost orig_words = sieve.bits@.len();
    template.init_sieve(sieve, low, seg_len);
    proof {
        lemma_prime_table(ps, yi);
        crate::number_theory::lemma_prime_count_le(y as nat);
        assert forall|i: int| 0 <= i < seg_len implies (#[trigger] flat_bit(sieve.bits@, i) <==> (lo + i != 0
            && coprime_first(lo + i, ps, c as int))) by {
            lemma_tiny_coprime(ps, c as int, lo + i);
        }
        assert(sieve_holds(sieve.bits@, seg_len as int, lo, ps, c as int));
        lemma_div_is_ordered_by_denominator(xi, 1, yi);
    }
    let sq = isqrt(x / low1v as u64);
    let n0: usize = if sq < y as u64 {
        sq as usize
    } else {
        y
    };
    let max_b0 = pi[n0] as usize;
    let max_b = if max_b0 < pi_y - 1 {
        max_b0
    } else {
        pi_y - 1
    };
    let mut b = c + 1;
    let mut s2: i128 = 0;
    let bound_hard = if pi_sqrty < max_b {
        pi_sqrty
    } else {
        max_b
    };
    // the primes up to sqrt(y): leaves over the window of m
    while b <= bound_hard && b < primes.len()
        invariant
            leaf_setting(x, y, c, ps, lpf@, mu@, pi@, pi_sqrty, pi_y, *template, prime_recip@),
            ps == primes@,
            sqrt_bounds(yi, s_y, pi_sqrty as int),
            xi == x,
            yi == y,
            lo == low,
            hi == high,
            forall|k: int| 1 <= k < ps.len() ==> 2 <= #[trigger] ps[k] <= yi,
            ps.len() <= yi + 1,
            low < high,
            seg_len == high - low,
            high <= xi / yi + 1,
            xi / yi <= xi,
            high < 0x4000_0000_0000_0000,
            high + 8 * y + 64 <= usize::MAX,
            low1v == low1(lo),
            sq * sq <= xi / low1(lo) < (sq + 1) * (sq + 1),
            n0 == (if sq < yi { sq as int } else { yi }),
            max_b0 == prime_count(n0 as nat),
            max_b == (if max_b0 < pi_y - 1 { max_b0 as int } else { pi_y - 1 }),
            bound_hard == (if pi_sqrty < max_b { pi_sqrty as int } else { max_b as int }),
            c + 1 <= b <= valid,
            b <= pi_y || b == c + 1,
            valid <= pi_y + 1,
            0 <= prev_low <= low,
            segment_done(xi, yi, ps, pi_sqrty as int, valid, prev_low),
            sieve.wf(),
            sieve.len == seg_len,
            sieve.bits@.len() == orig_words,
            seg_len <= 64 * sieve.bits@.len(),
            sieve_holds(sieve.bits@, seg_len as int, lo, ps, b - 1),
            phi_state(ps, phi@, next@, c + 1, b as int, hi),
            phi_state(ps, phi@, next@, b as int, valid, lo),
            s2 == leaf_rows(xi, yi, ps, c as int, b - 1, lo, hi),
        ensures
            b > bound_hard || b >= primes.len() || segment_done(xi, yi, ps, pi_sqrty as int, b as int, lo),
        decreases pi_y + 1 - b,
    {
        let prime = primes[b] as u64;
        let x_div_prime = x / prime;
        let mq = x_div_prime / high as u64;
        let yq = y as u64 / prime;
        let min_m: u64 = if mq > yq {
            mq
        } else {
            yq
        };
        let mm = x_div_prime / low1v as u64;
        let max_m: usize = if mm < y as u64 {
            mm as usize
        } else {
            y
        };
        if prime as usize >= max_m {
            proof {
                assert(max_m == seg_max_m(xi, yi, ps, b as int, lo));
            }
            break;
        }
        proof {
            if b == valid {
                lemma_done_monotone(xi, yi, ps, pi_sqrty as int, valid, b as int, prev_low, lo);
                lemma_within_max_b(xi, yi, ps, b as int, lo, sq as int);
                assert(false);
            }
            lemma_phi_first_bounds(lo - 1, ps, b - 1);
        }
        let r = hard_leaves(x_div_prime, prime, min_m, max_m, low, mu, lpf, sieve, phi[b],
            Ghost(xi), Ghost(yi), Ghost(ps), Ghost(b as int), Ghost(0int));
        proof {
            lemma_hard_window(xi, yi, ps, b as int, lo, hi, min_m as int, max_m as int);
            assert(0int * weight_row(xi, yi, ps, b as int, min_m as int, max_m as int, lo, hi) == 0);
            assert(leaf_rows(xi, yi, ps, c as int, b as int, lo, hi) == s2 + r.0);
            lemma_rows_bound(xi, yi, ps, c as int, b as int, lo, hi);
            lemma_s2_bound(xi, yi, b - c);
        }
        s2 = s2 + r.0;
        let total = sieve.count_total();
        proof {
            lemma_sieve_counts_phi(sieve.bits@, seg_len as int, lo, ps, b - 1, seg_len as int);
            lemma_phi_first_bounds(hi - 1, ps, b - 1);
        }
        phi.set(b, phi[b] + total);
        let p = prime as usize;
        let nb = next[b];
        proof {
            lemma_next_multiple_start(lo, p as int);
        }
        let start = if nb >= low {
            nb - low
        } else {
            let rem = (low - nb) % p;
            if rem == 0 {
                0
            } else {
                p - rem
            }
        };
        let ghost before = sieve.bits@;
        let k = cross_off(sieve, p, start);
        proof {
            lemma_cross_off_holds(before, sieve.bits@, seg_len as int, lo, ps, b as int, start as int);
            lemma_stride_end(lo, hi, p as int, start as int, k as int);
        }
        next.set(b, low + k);
        b = b + 1;
    }
    proof {
        if b <= pi_sqrty && b < primes.len() && !segment_done(xi, yi, ps, pi_sqrty as int, b as int, lo) {
            assert(b > max_b);
            lemma_beyond_max_b(xi, yi, ps, pi_sqrty as int, b as int, lo, sq as int);
        }
    }
    // beyond sqrt(y) the leaves of p_b are the primes in (p_b, y]
    while b <= max_b && b < primes.len()
        invariant
            leaf_setting(x, y, c, ps, lpf@, mu@, pi@, pi_sqrty, pi_y, *template, prime_recip@),
            ps == primes@,
            sqrt_bounds(yi, s_y, pi_sqrty as int),
            xi == x,
            yi == y,
            lo == low,
            hi == high,
            forall|k: int| 1 <= k < ps.len() ==> 2 <= #[trigger] ps[k] <= yi,
            ps.len() <= yi + 1,
            low < high,
            seg_len == high - low,
            high <= xi / yi + 1,
            xi / yi <= xi,
            high < 0x4000_0000_0000_0000,
            high + 8 * y + 64 <= usize::MAX,
            low1v == low1(lo),
            sq * sq <= xi / low1(lo) < (sq + 1) * (sq + 1),
            n0 == (if sq < yi { sq as int } else { yi }),
            max_b0 == prime_count(n0 as nat),
            max_b == (if max_b0 < pi_y - 1 { max_b0 as int } else { pi_y - 1 }),
            c + 1 <= b <= valid,
            b <= pi_y || b == c + 1,
            valid <= pi_y + 1,
            0 <= prev_low <= low,
            segment_done(xi, yi, ps, pi_sqrty as int, valid, prev_low),
            b >= primes.len() || b > pi_sqrty || segment_done(xi, yi, ps, pi_sqrty as int, b as int, lo),
            sieve.wf(),
            sieve.len == seg_len,
            sieve.bits@.len() == orig_words,
            seg_len <= 64 * sieve.bits@.len(),
            sieve_holds(sieve.bits@, seg_len as int, lo, ps, b - 1),
            phi_state(ps, phi@, next@, c + 1, b as int, hi),
            phi_state(ps, phi@, next@, b as int, valid, lo),
            s2 == leaf_rows(xi, yi, ps, c as int, b - 1, lo, hi),
        ensures
            b > max_b || b >= primes.len() || segment_done(xi, yi, ps, pi_sqrty as int, b as int, lo),
        decreases pi_y + 1 - b,
    {
        let prime = primes[b] as u64;
        let x_div_prime = x / prime;
        let mm = x_div_prime / low1v as u64;
        let l_max: usize = if mm < y as u64 {
            mm as usize
        } else {
            y
        };
        let l = pi[l_max] as usize;
        let mq = x_div_prime / high as u64;
        let min_m: u64 = if mq > prime {
            mq
        } else {
            prime
        };
        proof {
            assert(l_max == seg_max_m(xi, yi, ps, b as int, lo));
            lemma_prime_table_floor(ps, yi, l_max as int);
        }
        if l < primes.len() && prime as usize >= primes[l] as usize {
            proof {
                if b <= pi_sqrty {
                    assert(segment_done(xi, yi, ps, pi_sqrty as int, b as int, lo));
                }
            }
            break;
        }
        proof {
            lemma_within_max_b(xi, yi, ps, b as int, lo, sq as int);
            if b == valid {
                lemma_done_monotone(xi, yi, ps, pi_sqrty as int, valid, b as int, prev_low, lo);
                assert(false);
            }
            if b <= pi_sqrty {
                assert(false);
            }
            lemma_phi_first_bounds(lo - 1, ps, b - 1);
            let p = ps[b as int] as int;
            assert(s_y < p) by {
                assert(s_y <= yi) by (nonlinear_arith)
                    requires
                        s_y * s_y <= yi,
                        s_y >= 0,
                ;
                lemma_prime_table_floor(ps, yi, s_y);
                if p <= s_y {
                    crate::number_theory::lemma_prime_count_monotone(p as nat, s_y as nat);
                }
            }
            assert(p * p > yi) by (nonlinear_arith)
                requires
                    p >= s_y + 1,
                    yi < (s_y + 1) * (s_y + 1),
                    s_y >= 0,
            ;
        }
        let r = easy_leaves(x_div_prime, l, min_m, low, primes, prime_recip, sieve, phi[b],
            Ghost(xi), Ghost(yi), Ghost(b as int), Ghost(0int));
        proof {
            let stop = r.2 as int;
            lemma_prime_table(ps, yi);
            if l < b && l >= 1 {
                assert(ps[l as int] < ps[b as int]);
            }
            assert(b <= l);
            if stop < b {
                assert(ps[b as int] > min_m);
            }
            lemma_easy_window(xi, yi, ps, b as int, lo, hi, min_m as int, stop, l as int);
            assert(0int * easy_count(xi, ps, b as int, stop, l as int, lo, hi) == 0);
            assert(leaf_rows(xi, yi, ps, c as int, b as int, lo, hi) == s2 + r.0);
            lemma_rows_bound(xi, yi, ps, c as int, b as int, lo, hi);
            lemma_s2_bound(xi, yi, b - c);
        }
        s2 = s2 + r.0;
        let total = sieve.count_total();
        proof {
            lemma_sieve_counts_phi(sieve.bits@, seg_len as int, lo, ps, b - 1, seg_len as int);
            lemma_phi_first_bounds(hi - 1, ps, b - 1);
        }
        phi.set(b, phi[b] + total);
        let p = prime as usize;
        let nb = next[b];
        proof {
            lemma_next_multiple_start(lo, p as int);
        }
        let start = if nb >= low {
            nb - low
        } else {
            let rem = (low - nb) % p;
            if rem == 0 {
                0
            } else {
                p - rem
            }
        };
        let ghost before = sieve.bits@;
        let k = cross_off(sieve, p, start);
        proof {
            lemma_cross_off_holds(before, sieve.bits@, seg_len as int, lo, ps, b as int, start as int);
            lemma_stride_end(lo, hi, p as int, start as int, k as int);
        }
        next.set(b, low + k);
        b = b + 1;
    }
    proof {
        if !segment_done(xi, yi, ps, pi_sqrty as int, b as int, lo) {
            assert(b > max_b);
            lemma_beyond_max_b(xi, yi, ps, pi_sqrty as int, b as int, lo, sq as int);
        }
        assert forall|b2: int| b - 1 < b2 <= pi_y - 1 implies #[trigger] leaf_row(xi, yi, ps, b2, 0, yi, lo, hi) == 0 by {
            lemma_done_monotone(xi, yi, ps, pi_sqrty as int, b as int, b2, lo, lo);
            lemma_done_row_zero(xi, yi, ps, s_y, pi_sqrty as int, b2, lo, hi);
        }
        if b - 1 <= pi_y - 1 {
            lemma_rows_tail_zero(xi, yi, ps, c as int, b - 1, pi_y - 1, lo, hi);
        }
    }
    (s2, Ghost(b as int))
}


/// S2 of the Lagarias-Miller-Odlyzko method, one segment of `segment_size`
/// numbers of `[0, z]` after another (`z = x / y`), carrying `phi[b]` and
/// the next multiple of each prime from segment to segment.
pub fn compute_s2_serial(
    x: u64,
    y: usize,
    c: usize,
    primes: &Vec<u32>,
    lpf: &Vec<i32>,
    mu: &Vec<i8>,
    pi: &Vec<u32>,
    z: usize,
    pi_sqrty: usize,
    pi_y: usize,
    segment_size: usize,
    template: &PreSieveTemplate,
    prime_recip: &Vec<u64>,
) -> (s2: i128)
    requires
        leaf_setting(x, y, c, primes@, lpf@, mu@, pi@, pi_sqrty, pi_y, *template, prime_recip@),
        z == x / (y as u64),
        1 <= segment_size < 0x1_0000_0000_0000 - 64,
        z + segment_size + 8 * y + 64 < 0x4000_0000_0000_0000,
        z + segment_size + 8 * y + 64 <= usize::MAX,
    ensures
        s2 == s2_spec(x as int, y as int, primes@, c as int),
{
    let ghost ps = primes@;
    let ghost xi = x as int;
    let ghost yi = y as int;
    let nprimes = primes.len();
    let mut phi: Vec<i64> = Vec::new();
    let mut next: Vec<usize> = Vec::new();
    let mut i: usize = 0;
    while i < nprimes
        invariant
            nprimes == primes.len(),
            i <= nprimes,
            phi.len() == i,
            next.len() == i,
            forall|b: int| 0 <= b < i ==> #[trigger] phi@[b] == 0,
            forall|b: int| 0 <= b < i ==> #[trigger] next@[b] == primes@[b],
        decreases nprimes - i,
    {
        phi.push(0);
        next.push(primes[i] as usize);
        i = i + 1;
    }
    let mut sieve = BitSieve::new(segment_size);
    let mut s2: i128 = 0;
    let mut low: usize = 0;
    let ghost mut valid: int = pi_y + 1;
    let ghost mut prev_low: int = 0;
    proof {
        lemma_prime_table(ps, yi);
        crate::number_theory::lemma_prime_count_le(y as nat);
        assert forall|b: int| c + 1 <= b < valid implies #[trigger] next@[b] == next_multiple(low1(0), ps[b] as int) by {
            lemma_next_multiple(1, ps[b] as int, ps[b] as int);
            lemma_mod_self_0(ps[b] as int);
        }
        assert(leaf_rows(xi, yi, ps, c as int, pi_y - 1, 0, 0) == 0) by {
            lemma_rows_empty(xi, yi, ps, c as int, pi_y - 1, 0);
        }
        lemma_div_is_ordered_by_denominator(xi, 1, yi);
    }
    while low <= z
        invariant
            leaf_setting(x, y, c, ps, lpf@, mu@, pi@, pi_sqrty, pi_y, *template, prime_recip@),
            ps == primes@,
            xi == x,
            yi == y,
            z == xi / yi,
            z <= xi,
            forall|k: int| 1 <= k < ps.len() ==> 2 <= #[trigger] ps[k] <= yi,
            ps.len() <= yi + 1,
            1 <= segment_size < 0x1_0000_0000_0000 - 64,
            z + segment_size + 8 * y + 64 < 0x4000_0000_0000_0000,
            z + segment_size + 8 * y + 64 <= usize::MAX,
            low <= z + segment_size,
            sieve.wf(),
            segment_size <= 64 * sieve.bits@.len(),
            c + 1 <= valid <= pi_y + 1,
            0 <= prev_low <= low,
            segment_done(xi, yi, ps, pi_sqrty as int, valid, prev_low),
            low <= z ==> phi_state(ps, phi@, next@, c + 1, valid, low as int),
            s2 == leaf_rows(xi, yi, ps, c as int, pi_y - 1, 0, low as int),
        decreases z + segment_size - low,
    {
        let high = if low + segment_size < z + 1 {
            low + segment_size
        } else {
            z + 1
        };
        let r = serial_segment(x, y, c, primes, lpf, mu, pi, pi_sqrty, pi_y, low, high, template, prime_recip,
            &mut sieve, &mut phi, &mut next, Ghost(valid), Ghost(prev_low));
        proof {
            lemma_rows_split_n(xi, yi, ps, c as int, pi_y - 1, 0, low as int, high as int);
            if c <= pi_y - 1 {
                lemma_rows_bound(xi, yi, ps, c as int, pi_y - 1, 0, high as int);
                lemma_s2_bound(xi, yi, pi_y - 1 - c);
            }
        }
        s2 = s2 + r.0;
        proof {
            valid = r.1@;
            prev_low = low as int;
            if low + segment_size > z {
                lemma_rows_all_below(xi, yi, ps, c as int, pi_y - 1, high as int);
                lemma_rows_all_below(xi, yi, ps, c as int, pi_y - 1, low + segment_size);
            }
        }
        low = low + segment_size;
    }
    proof {
        lemma_rows_all_below(xi, yi, ps, c as int, pi_y - 1, low as int);
    }
    s2
}

/// No `n` lies in an empty range.
pub(crate) proof fn lemma_rows_empty(x: int, y: int, primes: Seq<u32>, c: int, bmax: int, lo: int)
    ensures
        leaf_rows(x, y, primes, c, bmax, lo, lo) == 0,
    decreases bmax - c,
{
    if bmax > c {
        lemma_rows_empty(x, y, primes, c, bmax - 1, lo);
        lemma_row_empty(x, y, primes, bmax, 0, y, lo);
    }
}

pub(crate) proof fn lemma_row_empty(x: int, y: int, primes: Seq<u32>, b: int, a: int, e: int, lo: int)
    ensures
        leaf_row(x, y, primes, b, a, e, lo, lo) == 0,
    decreases e - a,
{
    if e > a {
        lemma_row_empty(x, y, primes, b, a, e - 1, lo);
    }
}


/// Marking the multiples of the prime `p` from `p * p` on takes the
/// survivors of the sieve by `[2, p - 1]` to those by `[2, p]`.
proof fn lemma_mark_from_square(k: int, p: int)
    requires
        p >= 2,
        k >= 2,
    ensures
        survives(k, p) == (survives(k, p - 1) && !(k % p == 0 && k >= p * p)),
{
    if survives(k, p - 1) && k % p == 0 && p < k && k < p * p {
        lemma_fundamental_div_mod(k, p);
        let t = k / p;
        assert(2 <= t < p) by (nonlinear_arith)
            requires
                k == p * t,
                p < k,
                k < p * p,
                p >= 2,
        ;
        assert(k % t == 0) by {
            lemma_mod_multiples_basic(p, t);
            assert(p * t == t * p) by (nonlinear_arith);
        }
        assert(t < k) by (nonlinear_arith)
            requires
                k == p * t,
                t >= 2,
                p >= 2,
        ;
    }
    if survives(k, p - 1) && k % p == 0 && k >= p * p {
        assert(p < k) by (nonlinear_arith)
            requires
                k >= p * p,
                p >= 2,
        ;
    }
}

/// The table `pi(0..=n)` from a sieve of Eratosthenes of `[0, n]`.
pub fn small_pi_table(n: usize) -> (tab: Vec<u32>)
    requires
        n < 0x1_0000_0000,
        n + 0x2_0000 <= usize::MAX,
    ensures
        tab.len() == n + 1,
        forall|k: int| 0 <= k <= n ==> #[trigger] tab@[k] == prime_count(k as nat),
{
    let mut is_p: Vec<bool> = Vec::new();
    let mut i: usize = 0;
    while i <= n
        invariant
            n + 0x2_0000 <= usize::MAX,
            i <= n + 1,
            is_p.len() == i,
            forall|k: int| 0 <= k < i ==> #[trigger] is_p@[k],
        decreases n + 1 - i,
    {
        is_p.push(true);
        i = i + 1;
    }
    is_p.set(0, false);
    if n > 0 {
        is_p.set(1, false);
    }
    let r = isqrt(n as u64);
    proof {
        assert(r < 0x1_0000) by (nonlinear_arith)
            requires
                r * r <= n,
                n < 0x1_0000_0000,
        ;
        assert(r <= n) by (nonlinear_arith)
            requires
                r * r <= n,
        ;
    }
    let sqrtn = r as usize;
    proof {
        assert forall|k: int| 2 <= k <= n implies #[trigger] is_p@[k] == survives(k, 1) by {}
    }
    let mut p: usize = 2;
    while p <= sqrtn
        invariant
            n < 0x1_0000_0000,
            n + 0x2_0000 <= usize::MAX,
            sqrtn < 0x1_0000,
            sqrtn * sqrtn <= n,
            n < (sqrtn + 1) * (sqrtn + 1),
            sqrtn <= n,
            2 <= p <= sqrtn + 2,
            p <= 0x1_0002,
            is_p.len() == n + 1,
            !is_p@[0],
            n >= 1 ==> !is_p@[1],
            forall|k: int| 2 <= k <= n ==> #[trigger] is_p@[k] == survives(k, p - 1),
        decreases sqrtn + 1 - p,
    {
        if is_p[p] {
            assert(p * p <= n) by (nonlinear_arith)
                requires
                    p <= sqrtn,
                    sqrtn * sqrtn <= n,
            ;
            let ghost before = is_p@;
            let mut k = p * p;
            proof {
                lemma_mod_multiples_basic(p as int, p as int);
            }
            while k <= n
                invariant
                    n + 0x2_0000 <= usize::MAX,
                    2 <= p <= 0x1_0001,
                    p * p <= k <= n + p,
                    k % p == 0,
                    is_p.len() == n + 1,
                    before.len() == n + 1,
                    forall|j: int| 0 <= j <= n ==> #[trigger] is_p@[j] == (before[j] && !(j % (p as int) == 0 && p * p
                        <= j < k)),
                decreases n + p - k,
            {
                is_p.set(k, false);
                proof {
                    lemma_mod_add_multiples_vanish(k as int, p as int);
                    assert forall|j: int| 0 <= j <= n implies #[trigger] is_p@[j] == (before[j] && !(j % (p as int) == 0
                        && p * p <= j < k + p)) by {
                        if j % (p as int) == 0 && k < j < k + p {
                            crate::tables::lemma_multiples_apart(j, k as int, p as int);
                        }
                    }
                }
                k = k + p;
            }
            proof {
                assert forall|j: int| 2 <= j <= n implies #[trigger] is_p@[j] == survives(j, p as int) by {
                    lemma_mark_from_square(j, p as int);
                    if j % (p as int) == 0 && j >= p * p {
                        assert(j < k);
                    }
                }
            }
        } else {
            proof {
                if is_prime(p as nat) {
                    assert forall|d: int| 2 <= d <= p - 1 && d < p implies #[trigger] ((p as int) % d) != 0 by {
                        assert((p as nat) % (d as nat) != 0);
                    }
                    assert(survives(p as int, p - 1));
                    assert(false);
                }
                assert forall|j: int| 2 <= j <= n implies #[trigger] is_p@[j] == survives(j, p as int) by {
                    lemma_survives_composite_step(j, p as int);
                }
            }
        }
        p = p + 1;
    }
    proof {
        assert forall|k: int| 2 <= k <= n implies #[trigger] is_p@[k] == is_prime(k as nat) by {
            if is_prime(k as nat) {
                assert forall|d: int| 2 <= d <= p - 1 && d < k implies #[trigger] (k % d) != 0 by {
                    assert((k as nat) % (d as nat) != 0);
                }
            } else {
                let q = crate::number_theory::lemma_composite_has_small_prime_factor(k as nat);
                assert(q <= sqrtn) by (nonlinear_arith)
                    requires
                        q * q <= k,
                        k <= n,
                        n < (sqrtn + 1) * (sqrtn + 1),
                        sqrtn >= 0,
                ;
                assert(q < k) by (nonlinear_arith)
                    requires
                        q * q <= k,
                        q >= 2,
                ;
                assert(k % (q as int) == 0);
                assert(!survives(k, p - 1));
            }
        }
    }
    let mut tab: Vec<u32> = Vec::new();
    tab.push(0);
    let mut j: usize = 1;
    proof {
        crate::number_theory::lemma_prime_count_small();
    }
    while j <= n
        invariant
            n < 0x1_0000_0000,
            n + 0x2_0000 <= usize::MAX,
            1 <= j <= n + 1,
            tab.len() == j,
            is_p.len() == n + 1,
            !is_p@[0],
            n >= 1 ==> !is_p@[1],
            forall|k: int| 2 <= k <= n ==> #[trigger] is_p@[k] == is_prime(k as nat),
            forall|k: int| 0 <= k < j ==> #[trigger] tab@[k] == prime_count(k as nat),
        decreases n + 1 - j,
    {
        proof {
            crate::number_theory::lemma_prime_count_le((j - 1) as nat);
            crate::number_theory::lemma_prime_count_small();
        }
        let prev = tab[j - 1];
        let add: u32 = if is_p[j] {
            1
        } else {
            0
        };
        tab.push(prev + add);
        j = j + 1;
    }
    tab
}


/// For the primes `b` in `[from, upto)`, `phi[b]` counts the numbers in
/// `[clo, low)` with no factor among the first `b - 1` primes.
pub open spec fn rel_phi_state(primes: Seq<u32>, phi: Seq<i64>, from: int, upto: int, low: int, clo: int) -> bool {
    &&& phi.len() == primes.len()
    &&& forall|b: int|
        from <= b < upto ==> #[trigger] phi[b] == phi_first(low - 1, primes, b - 1) - phi_first(clo - 1, primes, b - 1)
}

/// `coeff[b]` holds the summed weights of the leaves of `p_b` with `n` in
/// `[clo, low)`, for the primes after the first `c` and before the last;
/// 0 elsewhere.
pub open spec fn coeff_state(x: int, y: int, primes: Seq<u32>, coeff: Seq<i64>, c: int, pi_y: int, clo: int, low: int) -> bool {
    &&& coeff.len() == primes.len()
    &&& forall|b: int| c < b <= pi_y - 1 ==> #[trigger] coeff[b] == weight_row(x, y, primes, b, 0, y, clo, low)
    &&& forall|b: int| 0 <= b < primes.len() && !(c < b <= pi_y - 1) ==> #[trigger] coeff[b] == 0
}

/// Adding the row of `b` to a chunk's sum stays within an `i128`.
proof fn lemma_chunk_step_bound(x: int, y: int, primes: Seq<u32>, c: int, b: int, clo: int, lo: int, hi: int, s2: int, r: int)
    requires
        prime_table(primes, y),
        0 <= x < 0x8000_0000_0000_0000,
        1 <= y < 0x7fff_ffff,
        0 <= clo <= x,
        0 <= c < b < primes.len(),
        s2 == leaf_rows(x, y, primes, c, b - 1, lo, hi) - base_rows(x, y, primes, c, b - 1, clo, lo, hi),
        r == leaf_row(x, y, primes, b, 0, y, lo, hi) - phi_first(clo - 1, primes, b - 1) * weight_row(x, y, primes, b, 0, y, lo, hi),
    ensures
        s2 + r == leaf_rows(x, y, primes, c, b, lo, hi) - base_rows(x, y, primes, c, b, clo, lo, hi),
        -0x7fff_ffff_ffff_ffff_ffff_ffff_ffff_ffff <= s2 + r <= 0x7fff_ffff_ffff_ffff_ffff_ffff_ffff_ffff,
{
    lemma_prime_table(primes, y);
    crate::number_theory::lemma_prime_count_le(y as nat);
    lemma_rows_bound(x, y, primes, c, b, lo, hi);
    crate::special_leaves::lemma_base_rows_bound(x, y, primes, c, b, clo, lo, hi);
    lemma_s2_bound(x, y, b - c);
    assert((b - c) * y * clo <= (b - c) * y * x) by (nonlinear_arith)
        requires
            0 <= clo <= x,
            b - c >= 0,
            y >= 0,
    ;
    assert(-(b - c) * y * clo == -((b - c) * y * clo)) by (nonlinear_arith);
}


/// One segment `[low, high)` of a chunk that starts at `clo`: as a
/// segment of the serial sum, but with `phi[b]` counted from `clo`, the
/// weights of the leaves summed into `coeff[b]`, the largest `max_b`
/// recorded, and each stride started afresh from the first multiple.
#[verifier::spinoff_prover]
#[verifier::rlimit(60)]
fn chunk_segment(
    x: u64,
    y: usize,
    c: usize,
    primes: &Vec<u32>,
    lpf: &Vec<i32>,
    mu: &Vec<i8>,
    pi: &Vec<u32>,
    pi_sqrty: usize,
    pi_y: usize,
    low: usize,
    high: usize,
    template: &PreSieveTemplate,
    prime_recip: &Vec<u64>,
    global_pi: &Vec<u32>,
    use_pi_formula: bool,
    sieve: &mut BitSieve,
    phi: &mut Vec<i64>,
    coeff: &mut Vec<i64>,
    max_b_seen: &mut usize,
    Ghost(clo): Ghost<int>,
    Ghost(valid): Ghost<int>,
    Ghost(prev_low): Ghost<int>,
) -> (r: (i128, Ghost<int>))
    requires
        leaf_setting(x, y, c, primes@, lpf@, mu@, pi@, pi_sqrty, pi_y, *template, prime_recip@),
        (y as int) * (y as int) <= x,
        0 <= clo <= low < high,
        use_pi_formula ==> low == 0 && clo == 0 && global_pi.len() >= high,
        forall|n: int| 0 <= n < global_pi.len() ==> #[trigger] global_pi@[n] == prime_count(n as nat),
        high <= (x as int) / (y as int) + 1,
        high < 0x4000_0000_0000_0000,
        high + 8 * y + 64 <= usize::MAX,
        old(sieve).wf(),
        high - low <= 64 * old(sieve).bits@.len(),
        c + 1 <= valid <= pi_y + 1,
        0 <= prev_low <= low,
        segment_done(x as int, y as int, primes@, pi_sqrty as int, valid, prev_low),
        rel_phi_state(primes@, old(phi)@, c + 1, valid, low as int, clo),
        coeff_state(x as int, y as int, primes@, old(coeff)@, c as int, pi_y as int, clo, low as int),
    ensures
        r.0 == leaf_rows(x as int, y as int, primes@, c as int, pi_y - 1, low as int, high as int) - base_rows(
            x as int,
            y as int,
            primes@,
            c as int,
            pi_y - 1,
            clo,
            low as int,
            high as int,
        ),
        c + 1 <= r.1@ <= valid,
        segment_done(x as int, y as int, primes@, pi_sqrty as int, r.1@, low as int),
        forall|b: int| c < b < r.1@ ==> !segment_done(x as int, y as int, primes@, pi_sqrty as int, b, low as int),
        rel_phi_state(primes@, final(phi)@, c + 1, r.1@, high as int, clo),
        forall|b: int| 0 <= b < primes.len() && !(c + 1 <= b < r.1@) ==> #[trigger] final(phi)@[b] == old(phi)@[b],
        coeff_state(x as int, y as int, primes@, final(coeff)@, c as int, pi_y as int, clo, high as int),
        *final(max_b_seen) >= *old(max_b_seen),
        *old(max_b_seen) < primes.len() ==> *final(max_b_seen) < primes.len(),
        r.1@ <= c + 1 || r.1@ - 1 <= *final(max_b_seen),
        final(sieve).wf(),
        final(sieve).bits@.len() == old(sieve).bits@.len(),
{
    let ghost ps = primes@;
    let ghost xi = x as int;
    let ghost yi = y as int;
    let ghost lo = low as int;
    let ghost hi = high as int;
    let ghost s_y = choose|s: int| sqrt_bounds(y as int, s, pi_sqrty as int);
    let seg_len = high - low;
    let low1v: usize = if low > 1 {
        low
    } else {
        1
    };
    let ghost orig_words = sieve.bits@.len();
    template.init_sieve(sieve, low, seg_len);
    proof {
        lemma_prime_table(ps, yi);
        crate::number_theory::lemma_prime_count_le(y as nat);
        assert forall|i: int| 0 <= i < seg_len implies (#[trigger] flat_bit(sieve.bits@, i) <==> (lo + i != 0
            && coprime_first(lo + i, ps, c as int))) by {
            lemma_tiny_coprime(ps, c as int, lo + i);
        }
        assert(sieve_holds(sieve.bits@, seg_len as int, lo, ps, c as int));
        lemma_div_is_ordered_by_denominator(xi, 1, yi);
    }
    let sq = isqrt(x / low1v as u64);
    let n0: usize = if sq < y as u64 {
        sq as usize
    } else {
        y
    };
    let max_b0 = pi[n0] as usize;
    let max_b = if max_b0 < pi_y - 1 {
        max_b0
    } else {
        pi_y - 1
    };
    if max_b > *max_b_seen {
        *max_b_seen = max_b;
    }
    let mut b = c + 1;
    proof {
        assert(leaf_rows(xi, yi, ps, c as int, c as int, lo, hi) == 0);
        assert(base_rows(xi, yi, ps, c as int, c as int, clo, lo, hi) == 0);
    }
    let mut s2: i128 = 0;
    let bound_hard = if pi_sqrty < max_b {
        pi_sqrty
    } else {
        max_b
    };
    // the primes up to sqrt(y): leaves over the window of m
    while b <= bound_hard && b < primes.len()
        invariant
            leaf_setting(x, y, c, ps, lpf@, mu@, pi@, pi_sqrty, pi_y, *template, prime_recip@),
            ps == primes@,
            sqrt_bounds(yi, s_y, pi_sqrty as int),
            xi == x,
            yi == y,
            lo == low,
            hi == high,
            forall|k: int| 1 <= k < ps.len() ==> 2 <= #[trigger] ps[k] <= yi,
            ps.len() <= yi + 1,
            low < high,
            seg_len == high - low,
            high <= xi / yi + 1,
            xi / yi <= xi,
            high < 0x4000_0000_0000_0000,
            high + 8 * y + 64 <= usize::MAX,
            low1v == low1(lo),
            sq * sq <= xi / low1(lo) < (sq + 1) * (sq + 1),
            n0 == (if sq < yi { sq as int } else { yi }),
            max_b0 == prime_count(n0 as nat),
            max_b == (if max_b0 < pi_y - 1 { max_b0 as int } else { pi_y - 1 }),
            max_b <= *max_b_seen,
            *old(max_b_seen) < ps.len() ==> *max_b_seen < ps.len(),
            bound_hard == (if pi_sqrty < max_b { pi_sqrty as int } else { max_b as int }),
            c + 1 <= b <= valid,
            b <= pi_y || b == c + 1,
            valid <= pi_y + 1,
            0 <= prev_low <= low,
            segment_done(xi, yi, ps, pi_sqrty as int, valid, prev_low),
            sieve.wf(),
            sieve.len == seg_len,
            sieve.bits@.len() == orig_words,
            seg_len <= 64 * sieve.bits@.len(),
            sieve_holds(sieve.bits@, seg_len as int, lo, ps, b - 1),
            xi >= yi * yi,
            0 <= clo <= lo,
            use_pi_formula ==> lo == 0 && clo == 0 && global_pi.len() >= high,
            forall|n: int| 0 <= n < global_pi.len() ==> #[trigger] global_pi@[n] == prime_count(n as nat),
            rel_phi_state(ps, phi@, c + 1, b as int, hi, clo),
            phi@.len() == old(phi)@.len(),
            forall|b2: int| 0 <= b2 < ps.len() && !(c + 1 <= b2 < b) ==> #[trigger] phi@[b2] == old(phi)@[b2],
            rel_phi_state(ps, phi@, b as int, valid, lo, clo),
            forall|b2: int| c < b2 < b ==> !segment_done(xi, yi, ps, pi_sqrty as int, b2, lo),
            b <= c + 1 || b - 1 <= *max_b_seen,
            *max_b_seen >= *old(max_b_seen),
            coeff.len() == ps.len(),
            forall|b2: int| c < b2 < b && b2 <= pi_y - 1 ==> #[trigger] coeff@[b2] == weight_row(xi, yi, ps, b2, 0, yi, clo, hi),
            forall|b2: int| b <= b2 <= pi_y - 1 ==> #[trigger] coeff@[b2] == weight_row(xi, yi, ps, b2, 0, yi, clo, lo),
            forall|b2: int| 0 <= b2 < ps.len() && !(c < b2 <= pi_y - 1) ==> #[trigger] coeff@[b2] == 0,
            s2 == leaf_rows(xi, yi, ps, c as int, b - 1, lo, hi) - base_rows(xi, yi, ps, c as int, b - 1, clo, lo, hi),
        ensures
            b > bound_hard || b >= primes.len() || segment_done(xi, yi, ps, pi_sqrty as int, b as int, lo),
        decreases pi_y + 1 - b,
    {
        let prime = primes[b] as u64;
        let x_div_prime = x / prime;
        let mq = x_div_prime / high as u64;
        let yq = y as u64 / prime;
        let min_m: u64 = if mq > yq {
            mq
        } else {
            yq
        };
        let mm = x_div_prime / low1v as u64;
        let max_m: usize = if mm < y as u64 {
            mm as usize
        } else {
            y
        };
        if prime as usize >= max_m {
            proof {
                assert(max_m == seg_max_m(xi, yi, ps, b as int, lo));
            }
            break;
        }
        proof {
            if b == valid {
                lemma_done_monotone(xi, yi, ps, pi_sqrty as int, valid, b as int, prev_low, lo);
                lemma_within_max_b(xi, yi, ps, b as int, lo, sq as int);
                assert(false);
            }
            lemma_phi_first_bounds(lo - 1, ps, b - 1);
            lemma_phi_first_monotone(clo - 1, lo - 1, ps, b - 1);
            lemma_phi_first_bounds(clo - 1, ps, b - 1);
            lemma_within_max_b(xi, yi, ps, b as int, lo, sq as int);
            assert(!segment_done(xi, yi, ps, pi_sqrty as int, b as int, lo));
        }
        let ghost base = phi_first(clo - 1, ps, b - 1);
        let r = hard_leaves(x_div_prime, prime, min_m, max_m, low, mu, lpf, sieve, phi[b],
            Ghost(xi), Ghost(yi), Ghost(ps), Ghost(b as int), Ghost(base));
        proof {
            assert forall|m: int| #[trigger] is_special_leaf(yi, ps, b as int, m) implies leaf_n(xi, ps, b as int, m) >= 1 by {
                crate::special_leaves::lemma_leaf_n_positive(xi, yi, ps, b as int, m);
            }
            lemma_hard_window(xi, yi, ps, b as int, lo, hi, min_m as int, max_m as int);
            lemma_chunk_step_bound(xi, yi, ps, c as int, b as int, clo, lo, hi, s2 as int, r.0 as int);
        }
        s2 = s2 + r.0;
        proof {
            lemma_row_split_n(xi, yi, ps, b as int, 0, yi, clo, lo, hi);
            lemma_row_bound(xi, yi, ps, b as int, 0, yi, clo, hi);
        }
        coeff.set(b, coeff[b] + r.1);
        let total = sieve.count_total();
        proof {
            lemma_sieve_counts_phi(sieve.bits@, seg_len as int, lo, ps, b - 1, seg_len as int);
            lemma_phi_first_bounds(hi - 1, ps, b - 1);
        }
        phi.set(b, phi[b] + total);
        let p = prime as usize;
        let from = if low > p {
            low
        } else {
            p
        };
        proof {
            let nn = (from + p - 1) as int;
            lemma_fundamental_div_mod(nn, p as int);
            assert((nn / (p as int)) * (p as int) <= nn) by (nonlinear_arith)
                requires
                    nn == (p as int) * (nn / (p as int)) + nn % (p as int),
                    nn % (p as int) >= 0,
            ;
        }
        let first_mul = ((from + p - 1) / p) * p;
        proof {
            lemma_next_multiple_from_p(lo, p as int);
            lemma_next_multiple_start(lo, p as int);
            lemma_next_multiple(from as int, p as int, 0);
        }
        let start = if first_mul >= high {
            seg_len
        } else {
            first_mul - low
        };
        let ghost before = sieve.bits@;
        let k = cross_off(sieve, p, start);
        proof {
            let s0 = first_mul - low;
            assert forall|i: int| 0 <= i < seg_len implies #[trigger] flat_bit(sieve.bits@, i) == (flat_bit(before, i) && !(s0
                <= i && (i - s0) % (p as int) == 0)) by {}
            lemma_cross_off_holds(before, sieve.bits@, seg_len as int, lo, ps, b as int, s0);
        }
        b = b + 1;
    }
    proof {
        if b <= pi_sqrty && b < primes.len() && !segment_done(xi, yi, ps, pi_sqrty as int, b as int, lo) {
            assert(b > max_b);
            lemma_beyond_max_b(xi, yi, ps, pi_sqrty as int, b as int, lo, sq as int);
        }
    }
    // beyond sqrt(y) the leaves of p_b are the primes in (p_b, y]
    while b <= max_b && b < primes.len()
        invariant
            leaf_setting(x, y, c, ps, lpf@, mu@, pi@, pi_sqrty, pi_y, *template, prime_recip@),
            ps == primes@,
            sqrt_bounds(yi, s_y, pi_sqrty as int),
            xi == x,
            yi == y,
            lo == low,
            hi == high,
            forall|k: int| 1 <= k < ps.len() ==> 2 <= #[trigger] ps[k] <= yi,
            ps.len() <= yi + 1,
            low < high,
            seg_len == high - low,
            high <= xi / yi + 1,
            xi / yi <= xi,
            high < 0x4000_0000_0000_0000,
            high + 8 * y + 64 <= usize::MAX,
            low1v == low1(lo),
            sq * sq <= xi / low1(lo) < (sq + 1) * (sq + 1),
            n0 == (if sq < yi { sq as int } else { yi }),
            max_b0 == prime_count(n0 as nat),
            max_b == (if max_b0 < pi_y - 1 { max_b0 as int } else { pi_y - 1 }),
            max_b <= *max_b_seen,
            *old(max_b_seen) < ps.len() ==> *max_b_seen < ps.len(),
            c + 1 <= b <= valid,
            b <= pi_y || b == c + 1,
            valid <= pi_y + 1,
            0 <= prev_low <= low,
            segment_done(xi, yi, ps, pi_sqrty as int, valid, prev_low),
            b >= primes.len() || b > pi_sqrty || segment_done(xi, yi, ps, pi_sqrty as int, b as int, lo),
            sieve.wf(),
            sieve.len == seg_len,
            sieve.bits@.len() == orig_words,
            seg_len <= 64 * sieve.bits@.len(),
            sieve_holds(sieve.bits@, seg_len as int, lo, ps, b - 1),
            xi >= yi * yi,
            0 <= clo <= lo,
            use_pi_formula ==> lo == 0 && clo == 0 && global_pi.len() >= high,
            forall|n: int| 0 <= n < global_pi.len() ==> #[trigger] global_pi@[n] == prime_count(n as nat),
            rel_phi_state(ps, phi@, c + 1, b as int, hi, clo),
            phi@.len() == old(phi)@.len(),
            forall|b2: int| 0 <= b2 < ps.len() && !(c + 1 <= b2 < b) ==> #[trigger] phi@[b2] == old(phi)@[b2],
            rel_phi_state(ps, phi@, b as int, valid, lo, clo),
            forall|b2: int| c < b2 < b ==> !segment_done(xi, yi, ps, pi_sqrty as int, b2, lo),
            b <= c + 1 || b - 1 <= *max_b_seen,
            *max_b_seen >= *old(max_b_seen),
            coeff.len() == ps.len(),
            forall|b2: int| c < b2 < b && b2 <= pi_y - 1 ==> #[trigger] coeff@[b2] == weight_row(xi, yi, ps, b2, 0, yi, clo, hi),
            forall|b2: int| b <= b2 <= pi_y - 1 ==> #[trigger] coeff@[b2] == weight_row(xi, yi, ps, b2, 0, yi, clo, lo),
            forall|b2: int| 0 <= b2 < ps.len() && !(c < b2 <= pi_y - 1) ==> #[trigger] coeff@[b2] == 0,
            s2 == leaf_rows(xi, yi, ps, c as int, b - 1, lo, hi) - base_rows(xi, yi, ps, c as int, b - 1, clo, lo, hi),
        ensures
            b > max_b || b >= primes.len() || segment_done(xi, yi, ps, pi_sqrty as int, b as int, lo),
        decreases pi_y + 1 - b,
    {
        let prime = primes[b] as u64;
        let x_div_prime = x / prime;
        let mm = x_div_prime / low1v as u64;
        let l_max: usize = if mm < y as u64 {
            mm as usize
        } else {
            y
        };
        let l = pi[l_max] as usize;
        let mq = x_div_prime / high as u64;
        let min_m: u64 = if mq > prime {
            mq
        } else {
            prime
        };
        proof {
            assert(l_max == seg_max_m(xi, yi, ps, b as int, lo));
            lemma_prime_table_floor(ps, yi, l_max as int);
        }
        if l < primes.len() && prime as usize >= primes[l] as usize {
            proof {
                if b <= pi_sqrty {
                    assert(segment_done(xi, yi, ps, pi_sqrty as int, b as int, lo));
                }
            }
            break;
        }
        proof {
            lemma_within_max_b(xi, yi, ps, b as int, lo, sq as int);
            if b == valid {
                lemma_done_monotone(xi, yi, ps, pi_sqrty as int, valid, b as int, prev_low, lo);
                assert(false);
            }
            if b <= pi_sqrty {
                assert(false);
            }
            lemma_phi_first_bounds(lo - 1, ps, b - 1);
            lemma_phi_first_monotone(clo - 1, lo - 1, ps, b - 1);
            lemma_phi_first_bounds(clo - 1, ps, b - 1);
            let p = ps[b as int] as int;
            assert(s_y < p) by {
                assert(s_y <= yi) by (nonlinear_arith)
                    requires
                        s_y * s_y <= yi,
                        s_y >= 0,
                ;
                lemma_prime_table_floor(ps, yi, s_y);
                if p <= s_y {
                    crate::number_theory::lemma_prime_count_monotone(p as nat, s_y as nat);
                }
            }
            assert(p * p > yi) by (nonlinear_arith)
                requires
                    p >= s_y + 1,
                    yi < (s_y + 1) * (s_y + 1),
                    s_y >= 0,
            ;
        }
        proof {
            assert(!segment_done(xi, yi, ps, pi_sqrty as int, b as int, lo));
        }
        let ghost base = phi_first(clo - 1, ps, b - 1);
        let r = chunk_easy_leaves(x, x_div_prime, prime, b, l, min_m, low, high, y, pi_y, primes, pi, prime_recip,
            global_pi, use_pi_formula, sieve, phi[b], Ghost(base));
        proof {
            let stop = r.2@;
            lemma_prime_table(ps, yi);
            if l < b && l >= 1 {
                assert(ps[l as int] < ps[b as int]);
            }
            assert(b <= l);
            if stop < b {
                assert(ps[b as int] > min_m);
            }
            assert forall|m: int| #[trigger] is_special_leaf(yi, ps, b as int, m) implies leaf_n(xi, ps, b as int, m) >= 1 by {
                crate::special_leaves::lemma_leaf_n_positive(xi, yi, ps, b as int, m);
            }
            lemma_easy_window(xi, yi, ps, b as int, lo, hi, min_m as int, stop, l as int);
            lemma_chunk_step_bound(xi, yi, ps, c as int, b as int, clo, lo, hi, s2 as int, r.0 as int);
        }
        s2 = s2 + r.0;
        proof {
            lemma_row_split_n(xi, yi, ps, b as int, 0, yi, clo, lo, hi);
            lemma_row_bound(xi, yi, ps, b as int, 0, yi, clo, hi);
        }
        coeff.set(b, coeff[b] + r.1);
        let total = sieve.count_total();
        proof {
            lemma_sieve_counts_phi(sieve.bits@, seg_len as int, lo, ps, b - 1, seg_len as int);
            lemma_phi_first_bounds(hi - 1, ps, b - 1);
        }
        phi.set(b, phi[b] + total);
        let p = prime as usize;
        let from = if low > p {
            low
        } else {
            p
        };
        proof {
            let nn = (from + p - 1) as int;
            lemma_fundamental_div_mod(nn, p as int);
            assert((nn / (p as int)) * (p as int) <= nn) by (nonlinear_arith)
                requires
                    nn == (p as int) * (nn / (p as int)) + nn % (p as int),
                    nn % (p as int) >= 0,
            ;
        }
        let first_mul = ((from + p - 1) / p) * p;
        proof {
            lemma_next_multiple_from_p(lo, p as int);
            lemma_next_multiple_start(lo, p as int);
            lemma_next_multiple(from as int, p as int, 0);
        }
        let start = if first_mul >= high {
            seg_len
        } else {
            first_mul - low
        };
        let ghost before = sieve.bits@;
        let k = cross_off(sieve, p, start);
        proof {
            let s0 = first_mul - low;
            assert forall|i: int| 0 <= i < seg_len implies #[trigger] flat_bit(sieve.bits@, i) == (flat_bit(before, i) && !(s0
                <= i && (i - s0) % (p as int) == 0)) by {}
            lemma_cross_off_holds(before, sieve.bits@, seg_len as int, lo, ps, b as int, s0);
        }
        b = b + 1;
    }
    proof {
        if !segment_done(xi, yi, ps, pi_sqrty as int, b as int, lo) {
            assert(b > max_b);
            lemma_beyond_max_b(xi, yi, ps, pi_sqrty as int, b as int, lo, sq as int);
        }
        assert forall|b2: int| b - 1 < b2 <= pi_y - 1 implies #[trigger] leaf_row(xi, yi, ps, b2, 0, yi, lo, hi) == 0 by {
            lemma_done_monotone(xi, yi, ps, pi_sqrty as int, b as int, b2, lo, lo);
            lemma_done_row_zero(xi, yi, ps, s_y, pi_sqrty as int, b2, lo, hi);
        }
        assert forall|b2: int| b - 1 < b2 <= pi_y - 1 implies #[trigger] weight_row(xi, yi, ps, b2, 0, yi, lo, hi) == 0 by {
            lemma_done_monotone(xi, yi, ps, pi_sqrty as int, b as int, b2, lo, lo);
            lemma_done_row_zero(xi, yi, ps, s_y, pi_sqrty as int, b2, lo, hi);
        }
        if b - 1 <= pi_y - 1 {
            lemma_rows_tail_zero(xi, yi, ps, c as int, b - 1, pi_y - 1, lo, hi);
            crate::special_leaves::lemma_base_rows_tail_zero(xi, yi, ps, c as int, b - 1, pi_y - 1, clo, lo, hi);
        }
        assert forall|b2: int| b <= b2 <= pi_y - 1 implies #[trigger] coeff@[b2] == weight_row(xi, yi, ps, b2, 0, yi, clo, hi) by {
            lemma_row_split_n(xi, yi, ps, b2, 0, yi, clo, lo, hi);
        }
    }
    (s2, Ghost(b as int))
}


/// In the first segment from 0, where `p_(b-1)^2` reaches past the
/// segment, the easy leaves of `p_b` read phi off pi:
/// `phi(n, b - 1) = 1 + max(pi(n) - (b - 1), 0)`. When `p_b^3 >= x` every
/// leaf has `n < p_b` and phi 1; otherwise the leaves with
/// `q > x / p_b / p_(b-1)` have phi 1 and are counted at once, and the
/// rest look pi up in `global_pi`. Returns the sum, the number of leaves and
/// (as a ghost) where the walk down from `l_start` stopped.
#[verifier::spinoff_prover]
#[verifier::rlimit(40)]
fn easy_leaves_pi(
    x: u64,
    x_div_prime: u64,
    prime: u64,
    b: usize,
    l_start: usize,
    min_m: u64,
    y: usize,
    pi_y: usize,
    primes: &Vec<u32>,
    pi: &Vec<u32>,
    prime_recip: &Vec<u64>,
    global_pi: &Vec<u32>,
    high: usize,
) -> (r: (i128, i64, Ghost<int>))
    requires
        x < 0x8000_0000_0000_0000,
        1 <= y < NO_FACTOR,
        (y as int) * (y as int) <= x,
        prime_table(primes@, y as int),
        pi_y == primes.len() - 1,
        2 <= b < primes.len(),
        prime == primes@[b as int],
        x_div_prime == x / prime,
        min_m == (if x_div_prime / (high as u64) > prime { x_div_prime / (high as u64) } else { prime }),
        (primes@[b - 1] as int) * (primes@[b - 1] as int) >= high,
        1 <= high,
        l_start < primes.len(),
        pi.len() == y + 1,
        forall|n: int| 0 <= n <= y ==> #[trigger] pi@[n] == prime_count(n as nat),
        prime_recip.len() == primes.len(),
        forall|l: int| 1 <= l < primes.len() ==> #[trigger] prime_recip@[l] == floor_recip(primes@[l] as int),
        global_pi.len() >= high,
        forall|n: int| 0 <= n < global_pi.len() ==> #[trigger] global_pi@[n] == prime_count(n as nat),
    ensures
        r.2@ <= l_start,
        r.2@ == 0 || primes@[r.2@] <= min_m,
        forall|l: int| r.2@ < l <= l_start ==> #[trigger] primes@[l] > min_m,
        r.0 == easy_row(x as int, primes@, b as int, r.2@, l_start as int, 0, high as int),
        r.1 == easy_count(x as int, primes@, b as int, r.2@, l_start as int, 0, high as int),
{
    let ghost ps = primes@;
    let ghost xi = x as int;
    let ghost yi = y as int;
    let ghost hi = high as int;
    let ghost pb = prime as int;
    let nprimes = primes.len();
    let bm1 = b - 1;
    proof {
        lemma_prime_table(ps, yi);
        crate::number_theory::lemma_prime_count_le(y as nat);
        assert(ps[b - 1] < ps[b as int]);
    }
    let l_end_bound: usize = if min_m <= y as u64 {
        pi[min_m as usize] as usize
    } else {
        pi_y
    };
    proof {
        if min_m <= y as u64 {
            lemma_prime_table_floor(ps, yi, min_m as int);
        }
    }
    let mut l = l_start;
    let mut s: i128 = 0;
    let mut cnt: i64 = 0;
    // every leaf walked has n < high, and n >= 1 since y * y <= x
    let ghost leaf_ok = forall|k: int|
        0 < k < ps.len() && ps[k] > min_m ==> 1 <= #[trigger] leaf_n(xi, ps, b as int, ps[k] as int) < hi;
    proof {
        assert forall|k: int| 0 < k < ps.len() && ps[k] > min_m implies 1 <= #[trigger] leaf_n(
            xi,
            ps,
            b as int,
            ps[k] as int,
        ) < hi by {
            let q = ps[k] as int;
            lemma_div_pos_is_pos(xi, pb);
            crate::special_leaves::lemma_beyond_max_m_pub(xi, pb, hi, q);
            assert(pb * q <= xi) by (nonlinear_arith)
                requires
                    1 <= pb <= yi,
                    1 <= q <= yi,
                    yi * yi <= xi,
            ;
            lemma_div_denominator(xi, pb, q);
            lemma_div_is_ordered(pb * q, xi, pb * q);
            lemma_div_by_self(pb * q);
        }
    }
    proof {
        assert((prime as int) * (prime as int) * (prime as int) < 0x1_0000_0000_0000_0000_0000_0000) by (nonlinear_arith)
            requires
                0 <= prime < 0x8000_0000,
        ;
        assert((prime as int) * (prime as int) < 0x1_0000_0000_0000_0000) by (nonlinear_arith)
            requires
                0 <= prime < 0x8000_0000,
        ;
    }
    let p3 = (prime as u128) * (prime as u128) * (prime as u128);
    if p3 >= x as u128 {
        // p^3 >= x: every leaf has n < p_b, so phi = 1
        let total: usize = if l > l_end_bound {
            l - l_end_bound
        } else {
            0
        };
        proof {
            let e = l_start as int;
            let a = if l_start > l_end_bound { l_end_bound as int } else { l_start as int };
            assert forall|k: int| a < k <= e implies 0 <= #[trigger] leaf_n(xi, ps, b as int, ps[k] as int) < hi
                && phi_first(leaf_n(xi, ps, b as int, ps[k] as int), ps, b - 1) == 1 by {
                if min_m <= y as u64 {
                    if k <= l_end_bound {
                        assert(false);
                    }
                    assert(ps[k] > min_m) by {
                        if k > l_end_bound + 1 {
                            assert(ps[l_end_bound + 1] < ps[k]);
                        }
                    }
                } else {
                    assert(false);
                }
                let q = ps[k] as int;
                let n = leaf_n(xi, ps, b as int, q);
                assert(q > pb);
                lemma_div_denominator(xi, pb, q);
                lemma_fundamental_div_mod(xi, pb * q);
                assert(n < pb) by (nonlinear_arith)
                    requires
                        n == xi / (pb * q),
                        xi == (pb * q) * n + xi % (pb * q),
                        xi % (pb * q) >= 0,
                        xi <= pb * pb * pb,
                        q > pb,
                        pb >= 2,
                ;
                assert(n < pb * pb) by (nonlinear_arith)
                    requires
                        n < pb,
                        pb >= 2,
                ;
                assert(1 <= leaf_n(xi, ps, b as int, ps[k] as int));
                lemma_phi_small(ps, yi, b - 1, n);
                crate::number_theory::lemma_prime_count_monotone(n as nat, (pb - 1) as nat);
                assert(prime_count((pb - 1) as nat) == b - 1);
            }
            lemma_easy_row_ones(xi, ps, b as int, a, e, hi);
        }
        s = total as i128;
        cnt = total as i64;
        let stop = if l > l_end_bound {
            l_end_bound
        } else {
            l
        };
        proof {
            assert forall|k: int| stop < k <= l_start implies #[trigger] ps[k] > min_m by {
                if min_m <= y as u64 {
                    if k > l_end_bound + 1 {
                        assert(ps[l_end_bound + 1] < ps[k]);
                    }
                }
            }
            if stop >= 1 {
                if min_m <= y as u64 {
                    if stop < l_end_bound {
                        assert(ps[stop as int] < ps[l_end_bound as int]);
                    }
                }
            }
        }
        return (s, cnt, Ghost(stop as int));
    }
    let ghost batch_hi = l as int;
    let ghost batch_lo = l as int;
    let threshold_q = x_div_prime / primes[b - 1] as u64;
    let l_phi1_bound: usize = if threshold_q <= y as u64 {
        pi[threshold_q as usize] as usize
    } else {
        pi_y
    };
    let l_batch_stop = if l_phi1_bound > l_end_bound {
        l_phi1_bound
    } else {
        l_end_bound
    };
    if l > l_batch_stop && l_batch_stop > 0 {
        // the leaves with q > x / p_b / p_(b-1) have n < p_(b-1), so phi = 1
        let batch = l - l_batch_stop;
        proof {
            if threshold_q <= y as u64 {
                lemma_prime_table_floor(ps, yi, threshold_q as int);
            }
            assert forall|k: int| l_batch_stop < k <= l_start implies 0 <= #[trigger] leaf_n(xi, ps, b as int, ps[k] as int)
                < hi && phi_first(leaf_n(xi, ps, b as int, ps[k] as int), ps, b - 1) == 1 by {
                assert(ps[k] > min_m) by {
                    if min_m <= y as u64 {
                        if k > l_end_bound + 1 {
                            assert(ps[l_end_bound + 1] < ps[k]);
                        }
                    }
                }
                let q = ps[k] as int;
                let pb1 = ps[b - 1] as int;
                assert(q > threshold_q) by {
                    if threshold_q <= y as u64 {
                        if k > l_phi1_bound + 1 {
                            assert(ps[l_phi1_bound + 1] < ps[k]);
                        }
                    }
                }
                let n = leaf_n(xi, ps, b as int, q);
                let xp = xi / pb;
                lemma_div_pos_is_pos(xi, pb);
                crate::special_leaves::lemma_beyond_max_m_pub(xi, pb, pb1, q);
                assert(n < pb1);
                assert(n < pb1 * pb1) by (nonlinear_arith)
                    requires
                        n < pb1,
                        pb1 >= 2,
                ;
                assert(pb1 * pb1 < pb * pb) by (nonlinear_arith)
                    requires
                        2 <= pb1 < pb,
                ;
                lemma_phi_small(ps, yi, b - 1, n);
                crate::number_theory::lemma_prime_count_monotone(n as nat, (pb1 - 1) as nat);
                assert(prime_count(pb1 as nat) == b - 1);
            }
            lemma_easy_row_ones(xi, ps, b as int, l_batch_stop as int, l_start as int, hi);
        }
        s = batch as i128;
        cnt = batch as i64;
        l = l_batch_stop;
    }
    proof {
        assert forall|k: int| l < k <= l_start implies #[trigger] ps[k] > min_m by {
            if min_m <= y as u64 {
                if k > l_end_bound + 1 {
                    assert(ps[l_end_bound + 1] < ps[k]);
                }
            }
        }
        assert(s == easy_row(xi, ps, b as int, l as int, l_start as int, 0, hi));
        assert(cnt == easy_count(xi, ps, b as int, l as int, l_start as int, 0, hi));
        assert(xi >= 1) by (nonlinear_arith)
            requires
                yi * yi <= xi,
                yi >= 1,
        ;
        assert(l_start - l <= (l_start - l) * xi) by (nonlinear_arith)
            requires
                xi >= 1,
                l_start - l >= 0,
        ;
    }
    // the rest: phi from pi
    while l > 0 && l < nprimes && primes[l] as u64 > min_m
        invariant
            x < 0x8000_0000_0000_0000,
            1 <= y < NO_FACTOR,
            yi * yi <= xi,
            xi == x,
            yi == y,
            hi == high,
            pb == prime,
            prime_table(ps, yi),
            ps == primes@,
            nprimes == primes.len(),
            forall|k: int| 1 <= k < ps.len() ==> 2 <= #[trigger] ps[k] <= yi,
            ps.len() <= yi + 1,
            2 <= b < ps.len(),
            bm1 == b - 1,
            prime == ps[b as int],
            x_div_prime == xi / pb,
            (ps[b - 1] as int) * (ps[b - 1] as int) >= hi,
            ps[b - 1] < ps[b as int],
            l <= l_start < ps.len(),
            forall|k: int| l < k <= l_start ==> #[trigger] ps[k] > min_m,
            forall|k: int| 0 < k < ps.len() && ps[k] > min_m ==> 1 <= #[trigger] leaf_n(xi, ps, b as int, ps[k] as int) < hi,
            prime_recip.len() == ps.len(),
            forall|k: int| 1 <= k < ps.len() ==> #[trigger] prime_recip@[k] == floor_recip(ps[k] as int),
            global_pi.len() >= high,
            forall|n: int| 0 <= n < global_pi.len() ==> #[trigger] global_pi@[n] == prime_count(n as nat),
            s == easy_row(xi, ps, b as int, l as int, l_start as int, 0, hi),
            cnt == easy_count(xi, ps, b as int, l as int, l_start as int, 0, hi),
            0 <= s <= (l_start - l) * xi,
            0 <= cnt <= l_start - l,
        decreases l,
    {
        let q = primes[l] as u64;
        let xpq = fast_div_floor(x_div_prime, q, prime_recip[l]) as usize;
        proof {
            assert(1 <= leaf_n(xi, ps, b as int, ps[l as int] as int) < hi);
        }
        let pi_n = global_pi[xpq];
        let d: i64 = pi_n as i64 - bm1 as i64;
        let v: i64 = 1 + if d > 0 {
            d
        } else {
            0
        };
        proof {
            let n = xpq as int;
            let pb1 = ps[b - 1] as int;
            assert(n < pb * pb) by (nonlinear_arith)
                requires
                    n < hi,
                    pb1 * pb1 >= hi,
                    2 <= pb1 < pb,
            ;
            lemma_phi_small(ps, yi, b - 1, n);
            lemma_easy_row_concat(xi, ps, b as int, l - 1, l as int, l_start as int, 0, hi);
            assert(easy_row(xi, ps, b as int, l - 1, l - 1, 0, hi) == 0);
            assert(easy_count(xi, ps, b as int, l - 1, l - 1, 0, hi) == 0);
            crate::special_leaves::lemma_phi_first_bounds(n, ps, b - 1);
            assert((l_start - l + 1) * xi == (l_start - l) * xi + xi) by (nonlinear_arith);
            assert((l_start - l) * xi <= yi * xi) by (nonlinear_arith)
                requires
                    0 <= l_start - l <= yi,
                    xi >= 0,
            ;
            assert(yi * xi < 0x8000_0000 * 0x8000_0000_0000_0000) by (nonlinear_arith)
                requires
                    yi < 0x8000_0000,
                    0 <= xi < 0x8000_0000_0000_0000,
            ;
        }
        s = s + v as i128;
        cnt = cnt + 1;
        l = l - 1;
    }
    (s, cnt, Ghost(l as int))
}


/// The easy leaves of `p_b` in a chunk's segment: read off pi in the first
/// segment from 0 where `p_(b-1)^2` reaches past it, else counted on the
/// sieve.
fn chunk_easy_leaves(
    x: u64,
    x_div_prime: u64,
    prime: u64,
    b: usize,
    l_start: usize,
    min_m: u64,
    low: usize,
    high: usize,
    y: usize,
    pi_y: usize,
    primes: &Vec<u32>,
    pi: &Vec<u32>,
    prime_recip: &Vec<u64>,
    global_pi: &Vec<u32>,
    use_pi_formula: bool,
    sieve: &BitSieve,
    phi_b: i64,
    Ghost(base): Ghost<int>,
) -> (r: (i128, i64, Ghost<int>))
    requires
        x < 0x8000_0000_0000_0000,
        1 <= y < NO_FACTOR,
        (y as int) * (y as int) <= x,
        prime_table(primes@, y as int),
        pi_y == primes.len() - 1,
        1 <= b < primes.len(),
        prime == primes@[b as int],
        x_div_prime == x / prime,
        min_m == (if x_div_prime / (high as u64) > prime { x_div_prime / (high as u64) } else { prime }),
        low < high,
        high == low + sieve.len,
        l_start < primes.len(),
        pi.len() == y + 1,
        forall|n: int| 0 <= n <= y ==> #[trigger] pi@[n] == prime_count(n as nat),
        prime_recip.len() == primes.len(),
        forall|l: int| 1 <= l < primes.len() ==> #[trigger] prime_recip@[l] == floor_recip(primes@[l] as int),
        use_pi_formula ==> low == 0 && base == 0 && global_pi.len() >= high,
        forall|n: int| 0 <= n < global_pi.len() ==> #[trigger] global_pi@[n] == prime_count(n as nat),
        sieve.wf(),
        low <= x,
        high < 0x4000_0000_0000_0000,
        sieve_holds(sieve.bits@, sieve.len as int, low as int, primes@, b - 1),
        0 <= base <= phi_first(low - 1, primes@, b - 1),
        phi_b == phi_first(low - 1, primes@, b - 1) - base,
    ensures
        r.2@ <= l_start,
        r.2@ == 0 || primes@[r.2@] <= min_m,
        forall|l: int| r.2@ < l <= l_start ==> #[trigger] primes@[l] > min_m,
        r.0 == easy_row(x as int, primes@, b as int, r.2@, l_start as int, low as int, high as int) - base
            * easy_count(x as int, primes@, b as int, r.2@, l_start as int, low as int, high as int),
        r.1 == easy_count(x as int, primes@, b as int, r.2@, l_start as int, low as int, high as int),
{
    proof {
        lemma_prime_table(primes@, y as int);
        if b > 1 {
            let q = primes@[b - 1] as int;
            assert(q * q < 0x1_0000_0000_0000_0000) by (nonlinear_arith)
                requires
                    0 <= q < 0x8000_0000,
            ;
        }
    }
    if use_pi_formula && b > 1 && (primes[b - 1] as u64) * (primes[b - 1] as u64) >= high as u64 {
        let rp = easy_leaves_pi(x, x_div_prime, prime, b, l_start, min_m, y, pi_y, primes, pi, prime_recip, global_pi,
            high);
        proof {
            let e = easy_count(x as int, primes@, b as int, rp.2@, l_start as int, low as int, high as int);
            assert(base * e == 0);
        }
        rp
    } else {
        let re = easy_leaves(x_div_prime, l_start, min_m, low, primes, prime_recip, sieve, phi_b,
            Ghost(x as int), Ghost(y as int), Ghost(b as int), Ghost(base));
        (re.0, re.1, Ghost(re.2 as int))
    }
}


/// The segmentation of `[0, z]` that the parallel S2 works on: segments of
/// `segment_size` numbers, `num_segments` of them, dealt to `nchunks`
/// chunks of consecutive segments.
pub struct S2Plan {
    pub x: u64,
    pub y: usize,
    pub c: usize,
    pub z: usize,
    pub pi_sqrty: usize,
    pub pi_y: usize,
    pub segment_size: usize,
    pub num_segments: usize,
    pub nchunks: usize,
    pub template: PreSieveTemplate,
    pub prime_recip: Vec<u64>,
}

impl S2Plan {
    /// The plan fits the tables: the setting of the sums holds, `z = x / y`,
    /// the segments cover `[0, z]`, and the sizes stay clear of overflow.
    pub open spec fn wf(&self, primes: Seq<u32>, lpf: Seq<i32>, mu: Seq<i8>, pi: Seq<u32>) -> bool {
        &&& leaf_setting(
            self.x,
            self.y,
            self.c,
            primes,
            lpf,
            mu,
            pi,
            self.pi_sqrty,
            self.pi_y,
            self.template,
            self.prime_recip@,
        )
        &&& (self.y as int) * (self.y as int) <= self.x
        &&& self.z == self.x / (self.y as u64)
        &&& 1 <= self.segment_size <= 0x8000_0000
        &&& self.num_segments >= 1
        &&& self.num_segments * self.segment_size > self.z
        &&& self.num_segments <= self.z + 1
        &&& 1 <= self.nchunks <= self.num_segments
        &&& self.nchunks * self.num_segments <= usize::MAX
        &&& self.num_segments * self.segment_size <= self.z + self.segment_size
        &&& self.z + 2 * self.segment_size + 8 * self.y + 64 < 0x4000_0000_0000_0000
        &&& self.z + 2 * self.segment_size + 8 * self.y + 64 <= usize::MAX
    }

    /// The first segment of chunk `tid`.
    pub open spec fn seg_start(&self, tid: int) -> int {
        tid * self.num_segments / (self.nchunks as int)
    }

    /// The first number of chunk `tid`.
    pub open spec fn chunk_lo(&self, tid: int) -> int {
        self.seg_start(tid) * self.segment_size
    }

    /// The end of the numbers of chunk `tid`: its segments, cut at `z + 1`.
    pub open spec fn chunk_hi(&self, tid: int) -> int {
        let lo = self.chunk_lo(tid);
        let e = self.seg_start(tid + 1) * self.segment_size;
        if lo > self.z {
            lo
        } else if e < self.z + 1 {
            e
        } else {
            self.z + 1
        }
    }
}

/// What a chunk of the parallel S2 hands back: its sum with phi counted from
/// the chunk's start, phi over the chunk, the weights of its leaves and
/// the largest `max_b` it met.
pub struct S2Chunk {
    pub s2_local: i128,
    pub phi: Vec<i64>,
    pub coeff: Vec<i64>,
    pub max_b_seen: usize,
}

/// What chunk `tid` hands back: its sum with phi counted from the chunk's
/// start `lo`, the summed weights of its leaves, and, for every prime that
/// still has leaves at the chunk's end `hi`, phi over `[lo, hi)` and
/// `max_b_seen` at least its index; phi stays within the chunk's length,
/// and an empty chunk hands back zeros.
pub open spec fn chunk_ok(plan: S2Plan, primes: Seq<u32>, tid: int, r: S2Chunk) -> bool {
    let x = plan.x as int;
    let y = plan.y as int;
    let lo = plan.chunk_lo(tid);
    let hi = plan.chunk_hi(tid);
    &&& r.s2_local == leaf_rows(x, y, primes, plan.c as int, plan.pi_y - 1, lo, hi) - base_rows(
        x,
        y,
        primes,
        plan.c as int,
        plan.pi_y - 1,
        lo,
        lo,
        hi,
    )
    &&& coeff_state(x, y, primes, r.coeff@, plan.c as int, plan.pi_y as int, lo, hi)
    &&& r.phi@.len() == primes.len()
    &&& forall|b: int|
        plan.c < b < primes.len() && !segment_done(x, y, primes, plan.pi_sqrty as int, b, hi - 1) ==> #[trigger] r.phi@[b]
            == phi_first(hi - 1, primes, b - 1) - phi_first(lo - 1, primes, b - 1) && (lo < hi ==> b <= r.max_b_seen)
    &&& forall|b: int| 0 <= b < primes.len() && #[trigger] r.coeff@[b] != 0 ==> b <= r.max_b_seen
    &&& forall|b: int| 0 <= b < primes.len() ==> 0 <= #[trigger] r.phi@[b] <= hi - lo
    &&& lo <= hi
    &&& lo == hi ==> forall|b: int| 0 <= b < primes.len() ==> #[trigger] r.phi@[b] == 0 && r.coeff@[b] == 0
    &&& r.max_b_seen < primes.len()
}

/// One chunk of the parallel S2: its segments in turn, with a fresh sieve
/// and phi and weights counted from the chunk's first number; the first
/// segment from 0 reads phi off `global_pi` where it can.
#[verifier::spinoff_prover]
#[verifier::rlimit(40)]
pub fn s2_chunk(
    plan: &S2Plan,
    primes: &Vec<u32>,
    lpf: &Vec<i32>,
    mu: &Vec<i8>,
    pi: &Vec<u32>,
    global_pi: &Vec<u32>,
    tid: usize,
) -> (r: S2Chunk)
    requires
        plan.wf(primes@, lpf@, mu@, pi@),
        tid < plan.nchunks,
        global_pi.len() == plan.segment_size + 1,
        forall|n: int| 0 <= n < global_pi.len() ==> #[trigger] global_pi@[n] == prime_count(n as nat),
    ensures
        chunk_ok(*plan, primes@, tid as int, r),
{
    let ghost xi = plan.x as int;
    let ghost yi = plan.y as int;
    let ghost ps = primes@;
    let c = plan.c;
    let pi_y = plan.pi_y;
    let z = plan.z;
    let segment_size = plan.segment_size;
    let nprimes = primes.len();
    proof {
        lemma_prime_table(ps, yi);
        crate::number_theory::lemma_prime_count_le(plan.y as nat);
        assert(tid * plan.num_segments <= plan.nchunks * plan.num_segments) by (nonlinear_arith)
            requires
                tid < plan.nchunks,
        ;
        assert((tid + 1) * plan.num_segments <= plan.nchunks * plan.num_segments) by (nonlinear_arith)
            requires
                tid < plan.nchunks,
        ;
        assert(plan.nchunks * plan.num_segments <= plan.num_segments * plan.num_segments) by (nonlinear_arith)
            requires
                plan.nchunks <= plan.num_segments,
        ;
        assert(tid * plan.num_segments <= (tid + 1) * plan.num_segments) by (nonlinear_arith);
        lemma_div_is_ordered(tid * plan.num_segments, (tid + 1) * plan.num_segments, plan.nchunks as int);
        lemma_div_is_ordered((tid + 1) * plan.num_segments, plan.nchunks * plan.num_segments, plan.nchunks as int);
        lemma_div_multiples_vanish(plan.num_segments as int, plan.nchunks as int);
    }
    let seg_start = tid * plan.num_segments / plan.nchunks;
    let seg_end = (tid + 1) * plan.num_segments / plan.nchunks;
    let mut sieve = BitSieve::new(segment_size);
    let mut phi: Vec<i64> = Vec::new();
    let mut coeff: Vec<i64> = Vec::new();
    let mut i: usize = 0;
    while i < nprimes
        invariant
            nprimes == primes.len(),
            i <= nprimes,
            phi.len() == i,
            coeff.len() == i,
            forall|b: int| 0 <= b < i ==> #[trigger] phi@[b] == 0,
            forall|b: int| 0 <= b < i ==> #[trigger] coeff@[b] == 0,
        decreases nprimes - i,
    {
        phi.push(0);
        coeff.push(0);
        i = i + 1;
    }
    let mut s2_local: i128 = 0;
    let mut max_b_seen: usize = 0;
    let ghost lo_c = seg_start * segment_size;
    let ghost mut done_hi: int = lo_c;
    let ghost mut valid: int = pi_y + 1;
    let ghost mut prev_low: int = 0;
    let ghost mut started = false;
    let mut seg_idx = seg_start;
    proof {
        assert(seg_start * segment_size <= plan.num_segments * segment_size) by (nonlinear_arith)
            requires
                seg_start <= plan.num_segments,
        ;
        assert(leaf_rows(xi, yi, ps, c as int, pi_y - 1, lo_c, lo_c) == 0) by {
            lemma_rows_empty(xi, yi, ps, c as int, pi_y - 1, lo_c);
        }
        assert(base_rows(xi, yi, ps, c as int, pi_y - 1, lo_c, lo_c, lo_c) == 0) by {
            lemma_base_rows_empty(xi, yi, ps, c as int, pi_y - 1, lo_c, lo_c);
        }
        assert forall|b: int| c < b <= pi_y - 1 implies #[trigger] coeff@[b] == weight_row(xi, yi, ps, b, 0, yi, lo_c, lo_c) by {
            lemma_row_empty_w(xi, yi, ps, b, 0, yi, lo_c);
        }
    }
    while seg_idx < seg_end
        invariant
            plan.wf(primes@, lpf@, mu@, pi@),
            ps == primes@,
            xi == plan.x,
            yi == plan.y,
            c == plan.c,
            pi_y == plan.pi_y,
            z == plan.z,
            segment_size == plan.segment_size,
            nprimes == primes.len(),
            forall|k: int| 1 <= k < ps.len() ==> 2 <= #[trigger] ps[k] <= yi,
            ps.len() <= yi + 1,
            global_pi.len() == segment_size + 1,
            forall|n: int| 0 <= n < global_pi.len() ==> #[trigger] global_pi@[n] == prime_count(n as nat),
            seg_start == tid * plan.num_segments / (plan.nchunks as int),
            seg_end == (tid + 1) * plan.num_segments / (plan.nchunks as int),
            seg_start <= seg_idx <= seg_end <= plan.num_segments,
            lo_c == seg_start * segment_size,
            lo_c <= seg_idx * segment_size,
            seg_idx * segment_size <= plan.num_segments * segment_size,
            sieve.wf(),
            segment_size <= 64 * sieve.bits@.len(),
            lo_c <= done_hi <= z + 1 || (done_hi == lo_c && lo_c > z),
            seg_idx * segment_size <= z ==> done_hi == seg_idx * segment_size,
            seg_idx * segment_size > z ==> (done_hi == z + 1 || (done_hi == lo_c && lo_c > z)),
            started <==> lo_c < done_hi,
            c + 1 <= valid <= pi_y + 1,
            0 <= prev_low,
            started ==> prev_low < done_hi,
            !started ==> prev_low == 0,
            segment_done(xi, yi, ps, plan.pi_sqrty as int, valid, prev_low),
            rel_phi_state(ps, phi@, c + 1, valid, done_hi, lo_c),
            !started ==> done_hi == lo_c && forall|b: int| 0 <= b < ps.len() ==> #[trigger] phi@[b] == 0,
            phi@.len() == ps.len(),
            forall|b: int| 0 <= b < ps.len() ==> 0 <= #[trigger] phi@[b] <= done_hi - lo_c,
            coeff_state(xi, yi, ps, coeff@, c as int, pi_y as int, lo_c, done_hi),
            started ==> (valid <= c + 1 || valid - 1 <= max_b_seen),
            forall|b: int| 0 <= b < ps.len() && #[trigger] coeff@[b] != 0 ==> b <= max_b_seen,
            max_b_seen < ps.len(),
            s2_local == leaf_rows(xi, yi, ps, c as int, pi_y - 1, lo_c, done_hi) - base_rows(
                xi,
                yi,
                ps,
                c as int,
                pi_y - 1,
                lo_c,
                lo_c,
                done_hi,
            ),
        ensures
            seg_idx == seg_end || seg_idx * segment_size > z,
        decreases seg_end - seg_idx,
    {
        proof {
            assert(seg_idx * segment_size + segment_size == (seg_idx + 1) * segment_size) by (nonlinear_arith);
            assert((seg_idx + 1) * segment_size <= plan.num_segments * segment_size) by (nonlinear_arith)
                requires
                    seg_idx + 1 <= plan.num_segments,
            ;
        }
        let low = seg_idx * segment_size;
        if low > z {
            break;
        }
        let high = if low + segment_size < z + 1 {
            low + segment_size
        } else {
            z + 1
        };
        let use_pi_formula = low == 0 && seg_idx == seg_start;
        let ghost old_coeff = coeff@;
        let ghost old_phi = phi@;
        let ghost old_mbs = max_b_seen;
        proof {
            lemma_div_is_ordered_by_denominator(xi, 1, yi);
            lemma_phi_first_bounds(lo_c - 1, ps, 0);
        }
        let r = chunk_segment(plan.x, plan.y, c, primes, lpf, mu, pi, plan.pi_sqrty, pi_y, low, high, &plan.template,
            &plan.prime_recip, global_pi, use_pi_formula, &mut sieve, &mut phi, &mut coeff, &mut max_b_seen,
            Ghost(lo_c), Ghost(valid), Ghost(prev_low));
        proof {
            crate::special_leaves::lemma_rows_split_n(xi, yi, ps, c as int, pi_y - 1, lo_c, low as int, high as int);
            crate::special_leaves::lemma_base_rows_split_n(xi, yi, ps, c as int, pi_y - 1, lo_c, lo_c, low as int, high as int);
            lemma_chunk_total_bound(xi, yi, ps, c as int, pi_y as int, lo_c, high as int);
            assert forall|b: int| 0 <= b < ps.len() && #[trigger] coeff@[b] != 0 implies b <= max_b_seen by {
                if coeff@[b] != old_coeff[b] {
                    if c < b <= pi_y - 1 {
                        if b >= r.1@ {
                            lemma_done_monotone(xi, yi, ps, plan.pi_sqrty as int, r.1@, b, low as int, low as int);
                            let s_y = choose|s: int| sqrt_bounds(yi, s, plan.pi_sqrty as int);
                            lemma_done_row_zero(xi, yi, ps, s_y, plan.pi_sqrty as int, b, low as int, high as int);
                            lemma_row_split_n(xi, yi, ps, b, 0, yi, lo_c, low as int, high as int);
                        }
                    }
                }
            }
            assert forall|b: int| 0 <= b < ps.len() implies 0 <= #[trigger] phi@[b] <= high - lo_c by {
                if c + 1 <= b < r.1@ {
                    lemma_phi_first_monotone(lo_c - 1, high - 1, ps, b - 1);
                    crate::special_leaves::lemma_phi_first_count_le(lo_c - 1, high - 1, ps, b - 1);
                } else {
                    assert(phi@[b] == old_phi[b]);
                }
            }
            valid = r.1@;
            prev_low = low as int;
            done_hi = high as int;
            started = true;
        }
        s2_local = s2_local + r.0;
        seg_idx = seg_idx + 1;
    }
    proof {
        let hi = plan.chunk_hi(tid as int);
        assert(plan.seg_start(tid + 1) == seg_end);
        assert(seg_idx * segment_size <= seg_end * segment_size) by (nonlinear_arith)
            requires
                seg_idx <= seg_end,
        ;
        assert(plan.chunk_lo(tid as int) == lo_c);
        assert(done_hi == hi);
        if !started {
            assert forall|b: int| 0 <= b < ps.len() implies #[trigger] phi@[b] == 0 && coeff@[b] == 0 by {
                if c < b <= pi_y - 1 {
                    lemma_row_empty_w(xi, yi, ps, b, 0, yi, lo_c);
                }
            }
        }
        assert forall|b: int| c < b < ps.len() && !segment_done(xi, yi, ps, plan.pi_sqrty as int, b, hi - 1) implies #[trigger] phi@[b]
            == phi_first(hi - 1, ps, b - 1) - phi_first(lo_c - 1, ps, b - 1) && (lo_c < hi ==> b <= max_b_seen) by {
            if started {
                if segment_done(xi, yi, ps, plan.pi_sqrty as int, b, prev_low) {
                    lemma_done_monotone(xi, yi, ps, plan.pi_sqrty as int, b, b, prev_low, hi - 1);
                }
                if b >= valid {
                    lemma_done_monotone(xi, yi, ps, plan.pi_sqrty as int, valid, b, prev_low, prev_low);
                }
            }
        }
    }
    let r = S2Chunk { s2_local, phi, coeff, max_b_seen };
    proof {
        let hi = plan.chunk_hi(tid as int);
        assert(r.phi@ == phi@ && r.coeff@ == coeff@);
        assert(forall|b: int| 0 <= b < ps.len() ==> 0 <= #[trigger] r.phi@[b] <= hi - lo_c);
        assert(lo_c == hi ==> forall|b: int| 0 <= b < ps.len() ==> #[trigger] r.phi@[b] == 0 && r.coeff@[b] == 0);
        assert(forall|b: int| 0 <= b < ps.len() && #[trigger] r.coeff@[b] != 0 ==> b <= r.max_b_seen);
        assert(coeff_state(xi, yi, ps, r.coeff@, c as int, pi_y as int, lo_c, hi));
        assert(r.s2_local == leaf_rows(xi, yi, ps, c as int, pi_y - 1, lo_c, hi) - base_rows(xi, yi, ps, c as int, pi_y
            - 1, lo_c, lo_c, hi));
        assert(forall|b: int|
            c < b < ps.len() && !segment_done(xi, yi, ps, plan.pi_sqrty as int, b, hi - 1) ==> #[trigger] r.phi@[b]
                == phi_first(hi - 1, ps, b - 1) - phi_first(lo_c - 1, ps, b - 1) && (lo_c < hi ==> b <= r.max_b_seen));
        assert(lo_c <= hi);
        assert(chunk_ok(*plan, primes@, tid as int, r));
    }
    r
}

/// No `n` lies in an empty range, weights neither.
proof fn lemma_row_empty_w(x: int, y: int, primes: Seq<u32>, b: int, a: int, e: int, lo: int)
    ensures
        weight_row(x, y, primes, b, a, e, lo, lo) == 0,
    decreases e - a,
{
    if e > a {
        lemma_row_empty_w(x, y, primes, b, a, e - 1, lo);
    }
}

proof fn lemma_base_rows_empty(x: int, y: int, primes: Seq<u32>, c: int, bmax: int, clo: int, lo: int)
    ensures
        base_rows(x, y, primes, c, bmax, clo, lo, lo) == 0,
    decreases bmax - c,
{
    if bmax > c {
        lemma_base_rows_empty(x, y, primes, c, bmax - 1, clo, lo);
        lemma_row_empty_w(x, y, primes, bmax, 0, y, lo);
        let f = phi_first(clo - 1, primes, bmax - 1);
        assert(f * 0 == 0);
    }
}

/// A chunk's sum stays within an `i128`.
proof fn lemma_chunk_total_bound(x: int, y: int, primes: Seq<u32>, c: int, pi_y: int, clo: int, hi: int)
    requires
        prime_table(primes, y),
        pi_y == primes.len() - 1,
        0 <= c <= pi_y,
        0 <= x < 0x8000_0000_0000_0000,
        1 <= y < 0x7fff_ffff,
        0 <= clo <= x,
    ensures
        -0x7fff_ffff_ffff_ffff_ffff_ffff_ffff_ffff <= leaf_rows(x, y, primes, c, pi_y - 1, clo, hi) - base_rows(
            x,
            y,
            primes,
            c,
            pi_y - 1,
            clo,
            clo,
            hi,
        ) <= 0x7fff_ffff_ffff_ffff_ffff_ffff_ffff_ffff,
{
    lemma_prime_table(primes, y);
    crate::number_theory::lemma_prime_count_le(y as nat);
    if c <= pi_y - 1 {
        lemma_rows_bound(x, y, primes, c, pi_y - 1, clo, hi);
        crate::special_leaves::lemma_base_rows_bound(x, y, primes, c, pi_y - 1, clo, clo, hi);
        lemma_s2_bound(x, y, pi_y - 1 - c);
        assert((pi_y - 1 - c) * y * clo <= (pi_y - 1 - c) * y * x) by (nonlinear_arith)
            requires
                0 <= clo <= x,
                pi_y - 1 - c >= 0,
                y >= 0,
        ;
        assert(-(pi_y - 1 - c) * y * clo == -((pi_y - 1 - c) * y * clo)) by (nonlinear_arith);
    }
}


/// `sum over b < j of prefix[b] * coeff[b]`.
pub open spec fn dot_prefix(prefix: Seq<i64>, coeff: Seq<i64>, j: int) -> int
    decreases j,
{
    if j <= 0 {
        0
    } else {
        dot_prefix(prefix, coeff, j - 1) + prefix[j - 1] * coeff[j - 1]
    }
}

/// The chunks' first segments increase with the chunk, and the last chunk
/// ends at the last segment.
proof fn lemma_seg_start_monotone(plan: S2Plan, k1: int, k2: int)
    requires
        plan.nchunks >= 1,
        0 <= k1 <= k2,
        plan.num_segments >= 0,
    ensures
        plan.seg_start(k1) <= plan.seg_start(k2),
        plan.chunk_lo(k1) <= plan.chunk_lo(k2),
        plan.seg_start(plan.nchunks as int) == plan.num_segments,
        plan.seg_start(k1) >= 0,
{
    assert(k1 * plan.num_segments <= k2 * plan.num_segments) by (nonlinear_arith)
        requires
            k1 <= k2,
            plan.num_segments >= 0,
    ;
    lemma_div_is_ordered(k1 * plan.num_segments, k2 * plan.num_segments, plan.nchunks as int);
    assert(k1 * plan.num_segments >= 0) by (nonlinear_arith)
        requires
            k1 >= 0,
            plan.num_segments >= 0,
    ;
    lemma_div_pos_is_pos(k1 * plan.num_segments, plan.nchunks as int);
    assert(plan.seg_start(k1) * plan.segment_size <= plan.seg_start(k2) * plan.segment_size) by (nonlinear_arith)
        requires
            plan.seg_start(k1) <= plan.seg_start(k2),
    ;
    lemma_div_multiples_vanish(plan.num_segments as int, plan.nchunks as int);
    assert(plan.nchunks * plan.num_segments == (plan.nchunks as int) * plan.num_segments);
}

/// The products of the prefix counts and the weights add up to the weights
/// of the rows times phi at `lo - 1`.
proof fn lemma_dot_base(x: int, y: int, primes: Seq<u32>, prefix: Seq<i64>, coeff: Seq<i64>, c: int, pi_y: int, lo: int, hi: int, j: int)
    requires
        0 <= c,
        0 <= j <= coeff.len(),
        forall|b: int|
            0 <= b < j && c < b <= pi_y - 1 ==> #[trigger] coeff[b] == weight_row(x, y, primes, b, 0, y, lo, hi)
                && prefix[b] * coeff[b] == phi_first(lo - 1, primes, b - 1) * weight_row(x, y, primes, b, 0, y, lo, hi),
        forall|b: int| 0 <= b < j && !(c < b <= pi_y - 1) ==> #[trigger] coeff[b] == 0,
    ensures
        dot_prefix(prefix, coeff, j) == base_rows(x, y, primes, c, if j - 1 < pi_y - 1 { j - 1 } else { pi_y - 1 }, lo, lo, hi),
    decreases j,
{
    if j > 0 {
        lemma_dot_base(x, y, primes, prefix, coeff, c, pi_y, lo, hi, j - 1);
        let b = j - 1;
        if c < b <= pi_y - 1 {
            assert(prefix[b] * coeff[b] == phi_first(lo - 1, primes, b - 1) * weight_row(x, y, primes, b, 0, y, lo, hi));
        } else {
            assert(coeff[b] == 0);
            assert(prefix[b] * coeff[b] == 0) by (nonlinear_arith)
                requires
                    coeff[b] == 0,
            ;
        }
    }
}

/// Puts the chunks together in order: the first chunk's sum as it is, and
/// each later one's with the weights of its leaves times phi up to its
/// start, which the running prefix sums of the chunks' phi supply.
pub fn combine_s2_chunks(
    plan: &S2Plan,
    primes: &Vec<u32>,
    lpf: &Vec<i32>,
    mu: &Vec<i8>,
    pi: &Vec<u32>,
    results: &Vec<S2Chunk>,
) -> (s2: i128)
    requires
        plan.wf(primes@, lpf@, mu@, pi@),
        results.len() == plan.nchunks,
        forall|k: int| 0 <= k < results.len() ==> chunk_ok(*plan, primes@, k, #[trigger] results@[k]),
    ensures
        s2 == s2_spec(plan.x as int, plan.y as int, primes@, plan.c as int),
{
    let ghost xi = plan.x as int;
    let ghost yi = plan.y as int;
    let ghost ps = primes@;
    let ghost c = plan.c as int;
    let ghost pi_y = plan.pi_y as int;
    let ghost z = plan.z as int;
    let nprimes = primes.len();
    proof {
        lemma_prime_table(ps, yi);
        crate::number_theory::lemma_prime_count_le(plan.y as nat);
        lemma_div_is_ordered_by_denominator(xi, 1, yi);
        assert(chunk_ok(*plan, ps, 0, results@[0]));
        lemma_seg_start_monotone(*plan, 0, 1);
    }
    let first = &results[0];
    let mut s2: i128 = first.s2_local;
    let mut prefix_phi: Vec<i64> = Vec::new();
    let mut i: usize = 0;
    while i < nprimes
        invariant
            nprimes == ps.len(),
            first.phi@.len() == ps.len(),
            i <= nprimes,
            prefix_phi.len() == i,
            forall|b: int| 0 <= b < i ==> #[trigger] prefix_phi@[b] == first.phi@[b],
        decreases nprimes - i,
    {
        prefix_phi.push(first.phi[i]);
        i = i + 1;
    }
    let ghost mut pk: int = if plan.chunk_lo(1) <= z { plan.chunk_lo(1) } else { z + 1 };
    proof {
        assert(plan.chunk_lo(0) == 0) by {
            assert(0 * plan.num_segments == 0);
            assert(0int / (plan.nchunks as int) == 0);
            assert(0 * plan.segment_size == 0);
        }
        assert(plan.chunk_hi(0) == pk);
        assert(base_rows(xi, yi, ps, c, pi_y - 1, 0, 0, pk) == 0) by {
            lemma_base_rows_zero_phi(xi, yi, ps, c, pi_y - 1, 0, pk);
        }
    }
    let mut k: usize = 1;
    while k < results.len()
        invariant
            plan.wf(primes@, lpf@, mu@, pi@),
            results.len() == plan.nchunks,
            forall|k2: int| 0 <= k2 < results.len() ==> chunk_ok(*plan, ps, k2, #[trigger] results@[k2]),
            ps == primes@,
            xi == plan.x,
            yi == plan.y,
            c == plan.c,
            pi_y == plan.pi_y,
            z == plan.z,
            z == xi / yi,
            z <= xi,
            nprimes == ps.len(),
            forall|b: int| 1 <= b < ps.len() ==> 2 <= #[trigger] ps[b] <= yi,
            ps.len() <= yi + 1,
            1 <= k <= results.len(),
            pk == (if plan.chunk_lo(k as int) <= z { plan.chunk_lo(k as int) } else { z + 1 }),
            0 <= pk <= z + 1,
            s2 == leaf_rows(xi, yi, ps, c, pi_y - 1, 0, pk),
            prefix_phi.len() == nprimes,
            forall|b: int|
                c < b < ps.len() && !segment_done(xi, yi, ps, plan.pi_sqrty as int, b, pk - 1) ==> #[trigger] prefix_phi@[b]
                    == phi_first(pk - 1, ps, b - 1),
            forall|b: int| 0 <= b < ps.len() ==> 0 <= #[trigger] prefix_phi@[b] <= pk,
        decreases results.len() - k,
    {
        let res = &results[k];
        proof {
            assert(chunk_ok(*plan, ps, k as int, results@[k as int]));
            lemma_seg_start_monotone(*plan, 1, k as int);
            lemma_seg_start_monotone(*plan, k as int, k + 1);
        }
 let ghost lo = plan.chunk_lo(k as int);
        let ghost hi = plan.chunk_hi(k as int);
        proof {
            assert(0 <= lo);
            assert(lo <= hi);
            assert(hi <= z + 1 || hi == lo);
        }
        let limit = if res.max_b_seen + 1 < nprimes {
            res.max_b_seen + 1
        } else {
            nprimes
        };
        let mut correction: i128 = 0;
        let mut b: usize = 0;
        while b < limit
            invariant
                chunk_ok(*plan, ps, k as int, *res),
                nprimes == ps.len(),
                prefix_phi.len() == nprimes,
                limit <= nprimes,
                ps == primes@,
                xi == plan.x,
                yi == plan.y,
                c == plan.c,
                pi_y == plan.pi_y,
                lo == plan.chunk_lo(k as int),
                hi == plan.chunk_hi(k as int),
                0 <= lo <= hi,
                forall|b2: int| 1 <= b2 < ps.len() ==> 2 <= #[trigger] ps[b2] <= yi,
                ps.len() <= yi + 1,
                yi < 0x8000_0000,
                z + 2 <= 0x4000_0000_0000_0000,
                0 <= pk <= z + 1,
                forall|b2: int| 0 <= b2 < ps.len() ==> 0 <= #[trigger] prefix_phi@[b2] <= pk,
                b <= limit,
                correction == dot_prefix(prefix_phi@, res.coeff@, b as int),
                -(b as int) * 0x2000_0000_0000_0000_0000_0000 <= correction <= (b as int) * 0x2000_0000_0000_0000_0000_0000,
            decreases limit - b,
        {
            proof {
                let cb = res.coeff@[b as int];
                let pb = prefix_phi@[b as int];
                if c < b <= pi_y - 1 {
                    crate::special_leaves::lemma_row_bound(xi, yi, ps, b as int, 0, yi, lo, hi);
                }
                assert(-0x8000_0000 <= cb <= 0x8000_0000);
                assert(-0x2000_0000_0000_0000_0000_0000 <= pb * cb <= 0x2000_0000_0000_0000_0000_0000) by (nonlinear_arith)
                    requires
                        0 <= pb <= 0x4000_0000_0000_0000,
                        -0x8000_0000 <= cb <= 0x8000_0000,
                ;
                assert((b + 1) * 0x2000_0000_0000_0000_0000_0000 == b * 0x2000_0000_0000_0000_0000_0000 + 0x2000_0000_0000_0000_0000_0000) by (nonlinear_arith);
                assert(-(b + 1) * 0x2000_0000_0000_0000_0000_0000 == -(b * 0x2000_0000_0000_0000_0000_0000) - 0x2000_0000_0000_0000_0000_0000) by (nonlinear_arith);
                assert(-(b as int) * 0x2000_0000_0000_0000_0000_0000 == -(b * 0x2000_0000_0000_0000_0000_0000)) by (nonlinear_arith);
                assert(b * 0x2000_0000_0000_0000_0000_0000 <= 0x8000_0000 * 0x2000_0000_0000_0000_0000_0000) by (nonlinear_arith)
                    requires
                        b <= 0x8000_0000,
                ;
            }
            correction = correction + (prefix_phi[b] as i128) * (res.coeff[b] as i128);
            b = b + 1;
        }
        proof {
            // the correction is phi up to the chunk's start times its weights
            if lo <= z {
                assert(pk == lo);
                assert(lo >= 1) by {
                    lemma_seg_start_monotone(*plan, 1, k as int);
                    assert(plan.seg_start(1) >= 1) by {
                        lemma_div_is_ordered(plan.nchunks as int, plan.num_segments as int, plan.nchunks as int);
                        lemma_div_by_self(plan.nchunks as int);
                    }
                    assert(plan.seg_start(k as int) * plan.segment_size >= 1) by (nonlinear_arith)
                        requires
                            plan.seg_start(k as int) >= 1,
                            plan.segment_size >= 1,
                    ;
                }
                let s_y = choose|s: int| sqrt_bounds(yi, s, plan.pi_sqrty as int);
                assert forall|b2: int| 0 <= b2 < limit && c < b2 <= pi_y - 1 implies #[trigger] res.coeff@[b2] == weight_row(
                    xi,
                    yi,
                    ps,
                    b2,
                    0,
                    yi,
                    lo,
                    hi,
                ) && prefix_phi@[b2] * res.coeff@[b2] == phi_first(lo - 1, ps, b2 - 1) * weight_row(xi, yi, ps, b2, 0, yi, lo, hi) by {
                    if res.coeff@[b2] != 0 {
                        if segment_done(xi, yi, ps, plan.pi_sqrty as int, b2, lo) {
                            lemma_done_row_zero(xi, yi, ps, s_y, plan.pi_sqrty as int, b2, lo, hi);
                        }
                        if segment_done(xi, yi, ps, plan.pi_sqrty as int, b2, lo - 1) {
                            lemma_done_monotone(xi, yi, ps, plan.pi_sqrty as int, b2, b2, lo - 1, lo);
                        }
                    }
                }
                lemma_dot_base(xi, yi, ps, prefix_phi@, res.coeff@, c, pi_y, lo, hi, limit as int);
                let top = if limit - 1 < pi_y - 1 { limit - 1 } else { pi_y - 1 };
                if top >= c {
                    assert forall|b2: int| top < b2 <= pi_y - 1 implies #[trigger] weight_row(xi, yi, ps, b2, 0, yi, lo, hi) == 0 by {
                        assert(res.coeff@[b2] == 0);
                    }
                    crate::special_leaves::lemma_base_rows_tail_zero(xi, yi, ps, c, top, pi_y - 1, lo, lo, hi);
                } else if c <= pi_y - 1 {
                    assert forall|b2: int| c < b2 <= pi_y - 1 implies #[trigger] weight_row(xi, yi, ps, b2, 0, yi, lo, hi) == 0 by {
                        assert(res.coeff@[b2] == 0);
                    }
                    crate::special_leaves::lemma_base_rows_tail_zero(xi, yi, ps, c, c, pi_y - 1, lo, lo, hi);
                }
                crate::special_leaves::lemma_rows_split_n(xi, yi, ps, c, pi_y - 1, 0, lo, hi);
                lemma_chunk_total_bound(xi, yi, ps, c, pi_y, 0, hi);
                if c <= pi_y - 1 {
                    lemma_rows_bound(xi, yi, ps, c, pi_y - 1, lo, hi);
                    lemma_s2_bound(xi, yi, pi_y - 1 - c);
                }
                assert(base_rows(xi, yi, ps, c, pi_y - 1, 0, 0, hi) == 0) by {
                    lemma_base_rows_zero_phi(xi, yi, ps, c, pi_y - 1, 0, hi);
                }
            } else {
                assert(lo == hi);
                assert forall|b2: int| 0 <= b2 < limit implies #[trigger] res.coeff@[b2] == 0 by {
                    assert(res.phi@[b2] == 0);
                }
                assert(correction == 0) by {
                    lemma_dot_zero(prefix_phi@, res.coeff@, limit as int);
                }
                lemma_rows_empty(xi, yi, ps, c, pi_y - 1, lo);
                lemma_base_rows_empty(xi, yi, ps, c, pi_y - 1, lo, lo);
            }
        }
        s2 = s2 + (res.s2_local + correction);
        let ghost old_prefix = prefix_phi@;
        let mut b: usize = 0;
        while b < limit
            invariant
                chunk_ok(*plan, ps, k as int, *res),
                nprimes == ps.len(),
                prefix_phi.len() == nprimes,
                limit <= nprimes,
                b <= limit,
                z + 2 <= 0x4000_0000_0000_0000,
                0 <= pk <= z + 1,
                lo == plan.chunk_lo(k as int),
                hi == plan.chunk_hi(k as int),
                0 <= lo <= hi,
                hi <= z + 1 || hi == lo,
                forall|b2: int| 0 <= b2 < ps.len() ==> 0 <= #[trigger] old_prefix[b2] <= pk,
                forall|b2: int| 0 <= b2 < b ==> #[trigger] prefix_phi@[b2] == old_prefix[b2] + res.phi@[b2],
                forall|b2: int| b <= b2 < ps.len() ==> #[trigger] prefix_phi@[b2] == old_prefix[b2],
            decreases limit - b,
        {
            let v = prefix_phi[b] + res.phi[b];
            prefix_phi.set(b, v);
            b = b + 1;
        }
        proof {
            let pk2 = if plan.chunk_lo(k + 1) <= z { plan.chunk_lo(k + 1) } else { z + 1 };
            assert(plan.seg_start(k + 1) * plan.segment_size == plan.chunk_lo(k + 1));
            if lo <= z {
                assert(pk2 == hi);
            } else {
                assert(pk2 == z + 1);
            }
            assert forall|b2: int| c < b2 < ps.len() && !segment_done(xi, yi, ps, plan.pi_sqrty as int, b2, pk2 - 1) implies #[trigger] prefix_phi@[b2]
                == phi_first(pk2 - 1, ps, b2 - 1) by {
                if segment_done(xi, yi, ps, plan.pi_sqrty as int, b2, pk - 1) {
                    lemma_done_monotone(xi, yi, ps, plan.pi_sqrty as int, b2, b2, pk - 1, pk2 - 1);
                }
                if lo < hi {
                    assert(res.phi@[b2] == phi_first(hi - 1, ps, b2 - 1) - phi_first(lo - 1, ps, b2 - 1));
                    assert(b2 <= res.max_b_seen);
                }
            }
            pk = pk2;
        }
        k = k + 1;
    }
    proof {
        lemma_seg_start_monotone(*plan, k as int, k as int);
        assert(plan.chunk_lo(k as int) == plan.num_segments * plan.segment_size);
        assert(pk == z + 1);
        lemma_rows_all_below(xi, yi, ps, c, pi_y - 1, z + 1);
    }
    s2
}

/// With phi counted from 0 nothing is left out.
proof fn lemma_base_rows_zero_phi(x: int, y: int, primes: Seq<u32>, c: int, bmax: int, lo: int, hi: int)
    ensures
        base_rows(x, y, primes, c, bmax, 0, lo, hi) == 0,
    decreases bmax - c,
{
    if bmax > c {
        lemma_base_rows_zero_phi(x, y, primes, c, bmax - 1, lo, hi);
        let w = weight_row(x, y, primes, bmax, 0, y, lo, hi);
        assert(phi_first(-1, primes, bmax - 1) == 0);
        assert(0 * w == 0);
    }
}

/// With no weights the products vanish.
proof fn lemma_dot_zero(prefix: Seq<i64>, coeff: Seq<i64>, j: int)
    requires
        forall|b: int| 0 <= b < j ==> #[trigger] coeff[b] == 0,
    ensures
        dot_prefix(prefix, coeff, j) == 0,
    decreases j,
{
    if j > 0 {
        lemma_dot_zero(prefix, coeff, j - 1);
        assert(coeff[j - 1] == 0);
        assert(prefix[j - 1] * coeff[j - 1] == 0) by (nonlinear_arith)
            requires
                coeff[j - 1] == 0,
        ;
    }
}


/// The least power of two that is at least `v`.
pub fn next_power_of_two(v: usize) -> (s: usize)
    requires
        2 * v <= usize::MAX,
    ensures
        exists|k: nat| s == pow2(k),
        v <= s,
        s == 1 || s / 2 < v,
{
    let mut s: usize = 1;
    let ghost mut k: nat = 0;
    proof {
        vstd::arithmetic::power2::lemma2_to64();
    }
    while s < v
        invariant
            2 * v <= usize::MAX,
            s == pow2(k),
            1 <= s,
            s == 1 || s / 2 < v,
        decreases 2 * v - s,
    {
        proof {
            lemma_pow2_unfold(k + 1);
        }
        s = s * 2;
        proof {
            k = k + 1;
        }
    }
    s
}

/// The largest segment the parallel S2 uses: the pi table of its first
/// segment then keeps to 32-bit counts.
pub const MAX_SEGMENT: usize = 0x8000_0000;

/// The sizes the S2 of `x` needs to stay clear of overflow: `x / y` with
/// room for a segment and the strides of the primes up to `y` beyond it.
pub open spec fn s2_sizes(x: u64, y: usize) -> bool {
    &&& (x as int) / (y as int) + 2 * 0x8000_0000 + 8 * y + 64 < 0x4000_0000_0000_0000
    &&& (x as int) / (y as int) + 2 * 0x8000_0000 + 8 * y + 64 <= usize::MAX
    &&& 4 * ((x as int) / (y as int)) + 0x10_0000 <= usize::MAX
}

/// The tables the S2 of `x` reads: the primes up to `y` in a table whose
/// first `c` (between 4 and 7) the template pre-sieves, `mu`, least prime
/// factors and `pi` up to `y`, with `y * y <= x`.
pub open spec fn s2_tables(x: u64, y: usize, c: usize, primes: Seq<u32>, lpf: Seq<i32>, mu: Seq<i8>, pi: Seq<u32>) -> bool {
    &&& x < 0x8000_0000_0000_0000
    &&& 1 <= y < NO_FACTOR
    &&& (y as int) * (y as int) <= x
    &&& prime_table(primes, y as int)
    &&& 4 <= c <= 7
    &&& c < primes.len()
    &&& lpf.len() == y + 1
    &&& mu.len() == y + 1
    &&& pi.len() == y + 1
    &&& forall|m: int| 0 <= m <= y ==> #[trigger] mu[m] == mobius(m)
    &&& forall|m: int| 0 <= m <= y ==> #[trigger] lpf[m] == least_prime_factor(m)
    &&& forall|n: int| 0 <= n <= y ==> #[trigger] pi[n] == prime_count(n as nat)
}

/// Plans the parallel S2 for `threads` threads: `z = x / y`, pi at
/// `isqrt(y)` and at `y`, segments of the power of two at least
/// `max(z / (32 threads), 2^17)` (capped at `MAX_SEGMENT`), the pre-sieve
/// template of the first `c` primes, the reciprocals of the primes, and up
/// to `6 threads` chunks.
pub fn plan_s2(
    x: u64,
    y: usize,
    c: usize,
    primes: &Vec<u32>,
    lpf: &Vec<i32>,
    mu: &Vec<i8>,
    pi: &Vec<u32>,
    threads: usize,
) -> (plan: S2Plan)
    requires
        s2_tables(x, y, c, primes@, lpf@, mu@, pi@),
        s2_sizes(x, y),
        1 <= threads <= 0xffff,
    ensures
        plan.wf(primes@, lpf@, mu@, pi@),
        plan.x == x,
        plan.y == y,
        plan.c == c,
{
    let ghost ps = primes@;
    proof {
        lemma_prime_table(ps, y as int);
        crate::number_theory::lemma_prime_count_le(y as nat);
    }
    let z = (x / y as u64) as usize;
    let sqrt_y = isqrt(y as u64) as usize;
    proof {
        assert(sqrt_y <= y) by (nonlinear_arith)
            requires
                sqrt_y * sqrt_y <= y,
                sqrt_y >= 0,
        ;
    }
    let pi_sqrty = pi[sqrt_y] as usize;
    let pi_y = pi[y] as usize;
    let target_segs = threads * 32;
    let per = z / target_segs;
    let base: usize = if per > 0x2_0000 {
        per
    } else {
        0x2_0000
    };
    proof {
        lemma_div_is_ordered_by_denominator(z as int, 1, target_segs as int);
    }
    let pow = next_power_of_two(base);
    let segment_size = if pow < MAX_SEGMENT {
        pow
    } else {
        MAX_SEGMENT
    };
    proof {
        assert forall|i: int| 1 <= i <= c implies #[trigger] ps[i] == tiny_prime_spec(i) by {
            crate::special_leaves::lemma_tiny_primes_in_table(ps, y as int, i);
        }
        crate::tables::lemma_tiny_product_values();
    }
    let template = PreSieveTemplate::new(primes, c);
    let nprimes = primes.len();
    let prime_recip = prime_reciprocals(primes);
    let num_segments = if z == 0 {
        1
    } else {
        z / segment_size + 1
    };
    let max_chunks = threads * 6;
    let nchunks = if num_segments < max_chunks {
        num_segments
    } else {
        max_chunks
    };
    proof {
        lemma_fundamental_div_mod(z as int, segment_size as int);
        assert(num_segments * segment_size > z && num_segments * segment_size <= z + segment_size) by (nonlinear_arith)
            requires
                z == segment_size * (z / segment_size) + z % segment_size,
                0 <= z % segment_size < segment_size,
                num_segments == (if z == 0 { 1 } else { z / segment_size + 1 }),
                segment_size >= 1,
        ;
        assert(num_segments <= z + 1) by {
            lemma_div_is_ordered_by_denominator(z as int, 1, segment_size as int);
        }
        assert(segment_size >= 0x2_0000);
        lemma_div_is_ordered_by_denominator(z as int, 0x2_0000, segment_size as int);
        assert(num_segments <= z / 0x2_0000 + 1);
        assert(nchunks * num_segments <= 0x8_0000 * num_segments) by (nonlinear_arith)
            requires
                nchunks <= max_chunks,
                max_chunks <= 0x8_0000,
                num_segments >= 0,
        ;
        assert(0x8_0000 * num_segments <= 4 * z + 0x8_0000) by (nonlinear_arith)
            requires
                num_segments <= z / 0x2_0000 + 1,
                0x2_0000 * (z / 0x2_0000) <= z,
        ;
        let s_y = sqrt_y as int;
        assert(sqrt_bounds(y as int, s_y, pi_sqrty as int));
        lemma_div_is_ordered_by_denominator(x as int, 1, y as int);
    }
    S2Plan {
        x,
        y,
        c,
        z,
        pi_sqrty,
        pi_y,
        segment_size,
        num_segments,
        nchunks,
        template,
        prime_recip,
    }
}

/// S2 of the Lagarias-Miller-Odlyzko method: serially for at most two
/// segments, else chunk by chunk, the chunks put together with the
/// weights of their leaves.
pub fn compute_s2(
    x: u64,
    y: usize,
    c: usize,
    primes: &Vec<u32>,
    lpf: &Vec<i32>,
    mu: &Vec<i8>,
    pi: &Vec<u32>,
) -> (s2: i128)
    requires
        s2_tables(x, y, c, primes@, lpf@, mu@, pi@),
        s2_sizes(x, y),
    ensures
        s2 == s2_spec(x as int, y as int, primes@, c as int),
{
    let plan = plan_s2(x, y, c, primes, lpf, mu, pi, current_num_threads());
    if plan.num_segments <= 2 {
        return compute_s2_serial(x, y, c, primes, lpf, mu, pi, plan.z, plan.pi_sqrty, plan.pi_y, plan.segment_size,
            &plan.template, &plan.prime_recip);
    }
    let global_pi = small_pi_table(plan.segment_size);
    let mut results: Vec<S2Chunk> = Vec::new();
    let mut tid: usize = 0;
    while tid < plan.nchunks
        invariant
            plan.wf(primes@, lpf@, mu@, pi@),
            global_pi.len() == plan.segment_size + 1,
            forall|n: int| 0 <= n < global_pi.len() ==> #[trigger] global_pi@[n] == prime_count(n as nat),
            tid <= plan.nchunks,
            results.len() == tid,
            forall|k: int| 0 <= k < tid ==> chunk_ok(plan, primes@, k, #[trigger] results@[k]),
        decreases plan.nchunks - tid,
    {
        let r = s2_chunk(&plan, primes, lpf, mu, pi, &global_pi, tid);
        results.push(r);
        tid = tid + 1;
    }
    combine_s2_chunks(&plan, primes, lpf, mu, pi, &results)
}


/// The table of the primes up to `y`: 0, then the primes in increasing
/// order, taken from the sieve.
pub fn prime_table_from_sieve(sieve: &Sieve, y: usize) -> (primes: Vec<u32>)
    requires
        5 <= sieve_bound(*sieve),
        y < sieve_bound(*sieve),
        y < 0x1_0000_0000,
    ensures
        prime_table(primes@, y as int),
{
    let all = sieve_primes_from(sieve, 2);
    let ghost bound = sieve_bound(*sieve) as int;
    let mut primes: Vec<u32> = Vec::new();
    primes.push(0);
    let mut i: usize = 0;
    proof {
        crate::number_theory::lemma_prime_count_small();
    }
    while i < all.len() && all[i] <= y
        invariant
            2 <= bound,
            bound == sieve_bound(*sieve),
            y <= bound,
            y < 0x1_0000_0000,
            forall|a: int, b: int| 0 <= a < b < all.len() ==> all@[a] < all@[b],
            forall|a: int| 0 <= a < all.len() ==> is_prime(#[trigger] all@[a] as nat) && 2 <= all@[a] <= bound,
            forall|q: usize| 2 <= q <= bound && is_prime(q as nat) ==> #[trigger] all@.contains(q),
            i <= all.len(),
            i > 0 ==> all@[i - 1] <= y,
            primes.len() == i + 1,
            primes@[0] == 0,
            forall|b: int| 1 <= b <= i ==> #[trigger] primes@[b] == all@[b - 1],
            forall|b: int| 1 <= b <= i ==> prime_count(#[trigger] all@[b - 1] as nat) == b,
        decreases all.len() - i,
    {
        let p = all[i];
        proof {
            let lo = if i == 0 { 1int } else { all@[i - 1] as int };
            if i > 0 {
                assert(all@[i - 1] < all@[i as int]);
                assert(prime_count(all@[i - 1] as nat) == i);
            }
            assert(is_prime(p as nat));
            crate::number_theory::lemma_prime_count_small();
            lemma_no_prime_gap(all@, bound, 2, i as int, lo, p - 1);
            crate::special_leaves::lemma_prime_count_flat(lo as nat, (p - 1) as nat);
            assert(prime_count(p as nat) == prime_count((p - 1) as nat) + 1);
            assert(prime_count(all@[i as int] as nat) == i + 1);
        }
        primes.push(p as u32);
        i = i + 1;
    }
    proof {
        let lo = if i == 0 { 1int } else { all@[i - 1] as int };
        lemma_no_prime_gap(all@, bound, 2, i as int, lo, y as int);
        if lo <= y {
            crate::special_leaves::lemma_prime_count_flat(lo as nat, y as nat);
        } else {
            assert(y < 2);
        }
    }
    primes
}

/// `r >= 0` is the integer cube root of `x`: `r^3 <= x < (r + 1)^3`.
pub open spec fn is_cube_root(x: int, r: int) -> bool {
    0 <= r && r * r * r <= x < (r + 1) * (r + 1) * (r + 1)
}

/// The integer cube root of `x`.
pub open spec fn cube_root(x: int) -> int {
    choose|r: int| is_cube_root(x, r)
}

/// Cubes increase on the naturals: the integer cube root is unique.
pub proof fn lemma_cube_root(x: int, r: int)
    requires
        0 <= r,
        r * r * r <= x < (r + 1) * (r + 1) * (r + 1),
    ensures
        cube_root(x) == r,
{
    assert(is_cube_root(x, r));
    let c = cube_root(x);
    assert(is_cube_root(x, c));
    if c < r {
        assert((c + 1) * (c + 1) * (c + 1) <= r * r * r) by (nonlinear_arith)
            requires
                0 <= c + 1 <= r,
        ;
    } else if r < c {
        assert((r + 1) * (r + 1) * (r + 1) <= c * c * c) by (nonlinear_arith)
            requires
                0 <= r + 1 <= c,
        ;
    }
}

/// `y` of the counting of `x`: `alpha * cbrt(x)` with `alpha = 2.2`, taken
/// as `22 / 10` and floored, and at least 1.
pub open spec fn lmo_y(x: int) -> int {
    let v = cube_root(x) * 22 / 10;
    if v > 1 {
        v
    } else {
        1
    }
}

/// The table of the primes up to `y`.
pub open spec fn primes_upto(y: int) -> Seq<u32> {
    choose|ps: Seq<u32>| prime_table(ps, y)
}

/// The Lagarias-Miller-Odlyzko value for `x`: with `y = lmo_y(x)` and the
/// first `c = 6` primes, `S1 + S2 + pi(y) - 1 - P2(x, y)`.
pub open spec fn lmo_value(x: int) -> int {
    let y = lmo_y(x);
    let ps = primes_upto(y);
    s1_sum(x, y, 6, 13) + s2_spec(x, y, ps, 6) + (ps.len() - 1) - 1 - p2_spec(x, y)
}

/// The largest `x` this counter takes: its sums then stay within 64- and
/// 128-bit integers.
pub const LMO_MAX: u64 = 0x7fff_ffff_ffff_ffff;

/// Counts the primes up to `x` by the Lagarias-Miller-Odlyzko method: up to
/// 10000 straight from a sieve; beyond, with `y = 2.2 cbrt(x)` and the
/// first six primes pre-sieved, `S1 + S2 + pi(y) - 1 - P2`.
pub fn count_primes(x: u64) -> (r: u64)
    requires
        x <= LMO_MAX,
        usize::BITS == 64,
    ensures
        r == prime_count(x as nat),
        x > 10_000 ==> r == lmo_value(x as int),
{
    if x < 2 {
        proof {
            crate::number_theory::lemma_prime_count_small();
        }
        return 0;
    }
    let cr = icbrt(x);
    proof {
        assert(cr < 0x20_0000) by (nonlinear_arith)
            requires
                cr * cr * cr <= x,
                x <= 0x7fff_ffff_ffff_ffff,
                cr >= 0,
        ;
    }
    let yv = cr * 22 / 10;
    let y: usize = if yv > 1 {
        yv as usize
    } else {
        1
    };
    if x <= 10_000 {
        let s = sieve_past(x as usize);
        return sieve_prime_pi(&s, x as usize) as u64;
    }
    proof {
        lemma_cube_root(x as int, cr as int);
        assert(cr >= 21) by (nonlinear_arith)
            requires
                x > 10_000,
                x < (cr + 1) * (cr + 1) * (cr + 1),
                cr >= 0,
        ;
        assert(cr < 0x20_0000) by (nonlinear_arith)
            requires
                cr * cr * cr <= x,
                x <= 0x7fff_ffff_ffff_ffff,
                cr >= 0,
        ;
        assert(y == lmo_y(x as int));
        assert(y >= 46 && y < 0x48_0000);
        assert((y as int) * (y as int) <= x) by (nonlinear_arith)
            requires
                y <= cr * 22 / 10,
                cr * cr * cr <= x,
                cr >= 21,
                y >= 1,
        ;
    }
    let prime_sieve = sieve_past(y);
    let primes = prime_table_from_sieve(&prime_sieve, y);
    let pi_y = primes.len() - 1;
    proof {
        lemma_prime_table(primes@, y as int);
        crate::special_leaves::lemma_small_primes();
        crate::number_theory::lemma_prime_count_monotone(17, y as nat);
        crate::special_leaves::lemma_tiny_primes_in_table(primes@, y as int, 6);
    }
    let c: usize = if pi_y < 6 {
        pi_y
    } else {
        6
    };
    let phi_cache = PhiTinyCache::new(c);
    let lpf = generate_lpf(y);
    let mu = generate_mu(y);
    proof {
        crate::number_theory::lemma_prime_count_le(y as nat);
    }
    let pi = generate_pi(y, &prime_sieve);
    // S1: the ordinary leaves
    let pc = primes[c] as u64;
    proof {
        crate::tables::lemma_tiny_product_values();
    }
    let s1 = compute_s1(x, y, pc, &mu, &lpf, &phi_cache);
    // S2: the special leaves
    proof {
        lemma_div_is_ordered_by_denominator(x as int, 46, y as int);
    }
    let s2 = compute_s2(x, y, c, &primes, &lpf, &mu, &pi);
    // P2
    proof {
        lemma_div_is_ordered_by_denominator(x as int, 46, y as int + 1);
    }
    let p2 = compute_p2(x, y, pi_y);
    proof {
        let ps = primes@;
        assert(exists|t: Seq<u32>| prime_table(t, y as int));
        crate::special_leaves::lemma_prime_table_unique(ps, primes_upto(y as int), y as int);
        let sx = isqrt_witness(x);
        crate::p2::lemma_p2_bound(x as int, y as int, sx);
        crate::leaves::lemma_s1_bound(x as int, y as int, 6, 13);
        lemma_rows_bound(x as int, y as int, ps, 6, pi_y - 1, 0, x as int + 1);
        lemma_s2_bound(x as int, y as int, pi_y - 1 - 6);
        assert(sx * (x as int) <= 0x1_0000_0000 * 0x8000_0000_0000_0000) by (nonlinear_arith)
            requires
                sx * sx <= x,
                sx >= 0,
                x < 0x8000_0000_0000_0000,
        ;
        assert((y as int) * (x as int) <= 0x48_0000 * 0x8000_0000_0000_0000) by (nonlinear_arith)
            requires
                0 <= y < 0x48_0000,
                0 <= x < 0x8000_0000_0000_0000,
        ;
        assert(-((pi_y - 1 - 6) * (y as int) * (x as int)) > -0x4000_0000_0000_0000_0000_0000_0000_0000);
        // the sums count the primes
        assert((x as int) < (y as int + 1) * (y as int + 1) * (y as int + 1)) by (nonlinear_arith)
            requires
                x < (cr + 1) * (cr + 1) * (cr + 1),
                y >= cr + 1,
                cr >= 0,
        ;
        assert(y <= x) by (nonlinear_arith)
            requires
                (y as int) * (y as int) <= x,
                y >= 1,
        ;
        crate::leaf_identity::lemma_lmo_identity(x as int, y as int, ps);
        crate::number_theory::lemma_prime_count_le(x as nat);
    }
    let result = s1 + s2 + pi_y as i128 - 1 - p2;
    result as u64
}

/// `s >= 0` is the integer square root of `x`.
pub open spec fn is_sqrt(x: int, s: int) -> bool {
    s >= 0 && s * s <= x < (s + 1) * (s + 1)
}

/// The integer square root exists.
pub(crate) proof fn isqrt_witness(x: u64) -> (s: int)
    ensures
        s >= 0,
        s * s <= x < (s + 1) * (s + 1),
{
    lemma_isqrt_exists(x as int, 0);
    let s = choose|s: int| is_sqrt(x as int, s);
    s
}

proof fn lemma_isqrt_exists(x: int, a: int)
    requires
        x >= 0,
        0 <= a,
        a * a <= x,
    ensures
        exists|s: int| is_sqrt(x, s),
    decreases x - a,
{
    if (a + 1) * (a + 1) > x {
        assert(is_sqrt(x, a));
    } else {
        assert(a + 1 <= x) by (nonlinear_arith)
            requires
                (a + 1) * (a + 1) <= x,
                a >= 0,
        ;
        lemma_isqrt_exists(x, a + 1);
    }
}

} // verus!
