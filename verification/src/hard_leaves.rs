//! S2_hard of the Deleglise-Rivat method: the special leaves that the easy
//! sums leave out, summed over a segmented sieve of `[0, x / y]`.

use vstd::prelude::*;
use vstd::arithmetic::div_mod::*;
use crate::pi_sieve::{flat_bit, flat_ones};
use crate::bit_sieve::{BitSieve, PreSieveTemplate};
use crate::roots::isqrt;
use crate::number_theory::prime_count;
use crate::tables::{mobius, least_prime_factor, NO_FACTOR};
use crate::special_leaves::{
    prime_table, phi_first, leaf_n, leaf_row, leaf_rows, weight_row, sieve_holds, low1, seg_max_m, segment_done, sqrt_bounds,
    easy_term, easy_row, easy_count, lemma_phi_first_bounds, lemma_phi_first_monotone, lemma_row_bound,
    lemma_sieve_counts_phi, lemma_easy_row_concat, lemma_easy_row_bound, lemma_prime_table, lemma_prime_table_floor,
    lemma_tiny_coprime, lemma_beyond_max_b, lemma_within_max_b, next_multiple, lemma_next_multiple,
    lemma_next_multiple_start, lemma_stride_end, lemma_cross_off_holds, lemma_hard_window, lemma_easy_window_from,
    lemma_done_monotone, lemma_done_row_zero, lemma_row_split_n, lemma_row_all_below, coprime_first,
};
use crate::lmo::{
    cross_off, fast_div_floor, floor_recip, leaf_setting, phi_state, hard_leaves, lemma_s2_bound, lemma_flat_ones_le,
    is_sqrt, plan_s2, s2_tables, s2_sizes,
};
use crate::easy_leaves::{s2_hard_spec, hard_rows, easy_min_b};
use crate::wheel_sieve::current_num_threads;

verus! {

/// The row of `p_b` among the hard leaves with `n` in `[lo, hi)`: every leaf
/// for the primes up to `sqrt(y)` (index `pi_sqrty`), only those with
/// `n >= y` beyond.
pub open spec fn dr_row(x: int, y: int, ps: Seq<u32>, pi_sqrty: int, b: int, lo: int, hi: int) -> int {
    if b <= pi_sqrty {
        leaf_row(x, y, ps, b, 0, y, lo, hi)
    } else {
        leaf_row(x, y, ps, b, 0, y, if lo < y { y } else { lo }, hi)
    }
}

/// Those rows for `b` in `(c, bmax]`.
pub open spec fn dr_rows(x: int, y: int, ps: Seq<u32>, c: int, pi_sqrty: int, bmax: int, lo: int, hi: int) -> int
    decreases bmax - c,
{
    if bmax <= c {
        0
    } else {
        dr_rows(x, y, ps, c, pi_sqrty, bmax - 1, lo, hi) + dr_row(x, y, ps, pi_sqrty, bmax, lo, hi)
    }
}

/// No `n` lies in `[lo, hi)` when `hi <= lo`.
proof fn lemma_row_void(x: int, y: int, ps: Seq<u32>, b: int, a: int, e: int, lo: int, hi: int)
    requires
        hi <= lo,
    ensures
        leaf_row(x, y, ps, b, a, e, lo, hi) == 0,
    decreases e - a,
{
    if e > a {
        lemma_row_void(x, y, ps, b, a, e - 1, lo, hi);
    }
}

proof fn lemma_dr_rows_void(x: int, y: int, ps: Seq<u32>, c: int, pi_sqrty: int, bmax: int, lo: int, hi: int)
    requires
        hi <= lo,
        y >= 0,
    ensures
        dr_rows(x, y, ps, c, pi_sqrty, bmax, lo, hi) == 0,
    decreases bmax - c,
{
    if bmax > c {
        lemma_dr_rows_void(x, y, ps, c, pi_sqrty, bmax - 1, lo, hi);
        lemma_row_void(x, y, ps, bmax, 0, y, lo, hi);
        lemma_row_void(x, y, ps, bmax, 0, y, if lo < y { y } else { lo }, hi);
    }
}

/// The rows are bounded as the full rows are.
proof fn lemma_dr_rows_bound(x: int, y: int, ps: Seq<u32>, c: int, pi_sqrty: int, bmax: int, lo: int, hi: int)
    requires
        x >= 0,
        y >= 0,
        c <= bmax,
        forall|b: int| c < b <= bmax ==> #[trigger] ps[b] >= 1,
    ensures
        -(bmax - c) * y * x <= dr_rows(x, y, ps, c, pi_sqrty, bmax, lo, hi) <= (bmax - c) * y * x,
    decreases bmax - c,
{
    if bmax > c {
        lemma_dr_rows_bound(x, y, ps, c, pi_sqrty, bmax - 1, lo, hi);
        assert(ps[bmax] >= 1);
        lemma_row_bound(x, y, ps, bmax, 0, y, lo, hi);
        lemma_row_bound(x, y, ps, bmax, 0, y, if lo < y { y } else { lo }, hi);
        assert((bmax - c) * y * x == (bmax - 1 - c) * y * x + (y - 0) * x) by (nonlinear_arith);
        assert(-(bmax - c) * y * x == -((bmax - 1 - c) * y * x) - (y - 0) * x) by (nonlinear_arith);
        assert(-(bmax - 1 - c) * y * x == -((bmax - 1 - c) * y * x)) by (nonlinear_arith);
        assert(-(y - 0) * x == -((y - 0) * x)) by (nonlinear_arith);
    } else {
        assert((bmax - c) * y * x == 0) by (nonlinear_arith)
            requires
                bmax == c,
        ;
        assert(-(bmax - c) * y * x == 0) by (nonlinear_arith)
            requires
                bmax == c,
        ;
    }
}

/// Rows that are 0 beyond `bstop` leave the sum unchanged.
proof fn lemma_dr_rows_tail_zero(x: int, y: int, ps: Seq<u32>, c: int, pi_sqrty: int, bstop: int, bmax: int, lo: int, hi: int)
    requires
        c <= bstop <= bmax,
        forall|b: int| bstop < b <= bmax ==> #[trigger] dr_row(x, y, ps, pi_sqrty, b, lo, hi) == 0,
    ensures
        dr_rows(x, y, ps, c, pi_sqrty, bmax, lo, hi) == dr_rows(x, y, ps, c, pi_sqrty, bstop, lo, hi),
    decreases bmax - bstop,
{
    if bmax > bstop {
        lemma_dr_rows_tail_zero(x, y, ps, c, pi_sqrty, bstop, bmax - 1, lo, hi);
        assert(dr_row(x, y, ps, pi_sqrty, bmax, lo, hi) == 0);
    }
}

/// Splitting the range of `n` at `mid` splits the rows.
proof fn lemma_dr_rows_split_n(x: int, y: int, ps: Seq<u32>, c: int, pi_sqrty: int, bmax: int, lo: int, mid: int, hi: int)
    requires
        lo <= mid <= hi,
        y >= 0,
    ensures
        dr_rows(x, y, ps, c, pi_sqrty, bmax, lo, hi) == dr_rows(x, y, ps, c, pi_sqrty, bmax, lo, mid) + dr_rows(
            x,
            y,
            ps,
            c,
            pi_sqrty,
            bmax,
            mid,
            hi,
        ),
    decreases bmax - c,
{
    if bmax > c {
        lemma_dr_rows_split_n(x, y, ps, c, pi_sqrty, bmax - 1, lo, mid, hi);
        lemma_row_split_n(x, y, ps, bmax, 0, y, lo, mid, hi);
        let rlo = if lo < y { y } else { lo };
        let rmid = if mid < y { y } else { mid };
        if mid < y {
            lemma_row_void(x, y, ps, bmax, 0, y, rlo, mid);
        } else {
            lemma_row_split_n(x, y, ps, bmax, 0, y, rlo, mid, hi);
        }
    }
}

/// Past `x / y` no leaf is left, with `y * y <= x`.
proof fn lemma_dr_rows_all_below(x: int, y: int, ps: Seq<u32>, c: int, pi_sqrty: int, bmax: int, hi: int)
    requires
        x >= 0,
        y >= 1,
        y * y <= x,
        hi > x / y,
        forall|b: int| c < b <= bmax ==> #[trigger] ps[b] >= 1,
    ensures
        dr_rows(x, y, ps, c, pi_sqrty, bmax, 0, hi) == dr_rows(x, y, ps, c, pi_sqrty, bmax, 0, x + 1),
    decreases bmax - c,
{
    if bmax > c {
        lemma_dr_rows_all_below(x, y, ps, c, pi_sqrty, bmax - 1, hi);
        assert(ps[bmax] >= 1);
        lemma_row_all_below(x, y, ps, bmax, 0, y, hi);
        assert(y <= x / y) by {
            lemma_div_is_ordered(y * y, x, y);
            lemma_div_multiples_vanish(y, y);
        }
        lemma_row_split_n(x, y, ps, bmax, 0, y, 0, y, hi);
        lemma_row_split_n(x, y, ps, bmax, 0, y, 0, y, x + 1);
    }
}

/// Over all of `[0, x]` the rows are S2_hard with `min_b = max(c, pi_sqrty) + 1`.
proof fn lemma_dr_rows_hard(x: int, y: int, ps: Seq<u32>, c: int, pi_sqrty: int, bmax: int)
    requires
        y >= 1,
    ensures
        dr_rows(x, y, ps, c, pi_sqrty, bmax, 0, x + 1) == leaf_rows(
            x,
            y,
            ps,
            c,
            if (if c > pi_sqrty { c } else { pi_sqrty }) < bmax { if c > pi_sqrty { c } else { pi_sqrty } } else { bmax },
            0,
            x + 1,
        ) + hard_rows(x, y, ps, (if c > pi_sqrty { c } else { pi_sqrty }) + 1, bmax),
    decreases bmax - c,
{
    if bmax > c {
        lemma_dr_rows_hard(x, y, ps, c, pi_sqrty, bmax - 1);
    }
}

/// The leaves of `p_b = prime` whose `m` is a prime `primes[l]`, for `l`
/// from `l_start` down while `primes[l] > min_m`, with `n` in the sieve's
/// segment and at least `row_low`: the sum of `phi_b + count` and the number
/// of such leaves; the index where the walk stopped comes third.
fn prime_leaves_from(
    x_div_prime: u64,
    l_start: usize,
    min_m: u64,
    low: usize,
    row_low: usize,
    primes: &Vec<u32>,
    prime_recip: &Vec<u64>,
    sieve: &BitSieve,
    phi_b: i64,
    Ghost(x): Ghost<int>,
    Ghost(y): Ghost<int>,
    Ghost(b): Ghost<int>,
    Ghost(base): Ghost<int>,
) -> (r: (i128, i64, usize))
    requires
        0 <= x < 0x8000_0000_0000_0000,
        1 <= y < NO_FACTOR,
        prime_table(primes@, y),
        1 <= b < primes.len(),
        x_div_prime == x / (primes@[b] as int),
        l_start < primes.len(),
        prime_recip.len() == primes.len(),
        forall|l: int| 1 <= l < primes.len() ==> #[trigger] prime_recip@[l] == floor_recip(primes@[l] as int),
        sieve.wf(),
        low <= x,
        low <= row_low,
        low + sieve.len < 0x4000_0000_0000_0000,
        low + sieve.len <= usize::MAX,
        sieve_holds(sieve.bits@, sieve.len as int, low as int, primes@, b - 1),
        0 <= base <= phi_first(low - 1, primes@, b - 1),
        phi_b == phi_first(low - 1, primes@, b - 1) - base,
    ensures
        r.2 <= l_start,
        r.2 == 0 || primes@[r.2 as int] <= min_m,
        forall|l: int| r.2 < l <= l_start ==> #[trigger] primes@[l] > min_m,
        r.0 == easy_row(x, primes@, b, r.2 as int, l_start as int, row_low as int, low + sieve.len) - base * easy_count(
            x,
            primes@,
            b,
            r.2 as int,
            l_start as int,
            row_low as int,
            low + sieve.len,
        ),
        r.1 == easy_count(x, primes@, b, r.2 as int, l_start as int, row_low as int, low + sieve.len),
{
    let high = low + sieve.len;
    let ghost lo = low as int;
    let ghost rl = row_low as int;
    let ghost hi = high as int;
    let ghost ps = primes@;
    let nprimes = primes.len();
    let mut acc: i128 = 0;
    let mut coeff: i64 = 0;
    let mut prev_pos: Option<usize> = None;
    let mut running: i64 = 0;
    let mut l = l_start;
    proof {
        lemma_prime_table(ps, y);
        crate::number_theory::lemma_prime_count_le(y as nat);
        lemma_phi_first_bounds(low - 1, ps, b - 1);
        assert(easy_row(x, ps, b, l_start as int, l_start as int, rl, hi) == 0);
        assert(easy_count(x, ps, b, l_start as int, l_start as int, rl, hi) == 0);
        assert(base * 0 == 0);
    }
    while l > 0 && l < nprimes && primes[l] as u64 > min_m
        invariant
            0 <= x < 0x8000_0000_0000_0000,
            1 <= y < NO_FACTOR,
            prime_table(ps, y),
            ps == primes@,
            nprimes == primes.len(),
            forall|k: int| 1 <= k < ps.len() ==> 2 <= #[trigger] ps[k] <= y,
            1 <= b < ps.len(),
            x_div_prime == x / (ps[b] as int),
            l <= l_start < ps.len(),
            ps.len() <= y + 1,
            forall|k: int| l < k <= l_start ==> #[trigger] ps[k] > min_m,
            prime_recip.len() == ps.len(),
            forall|k: int| 1 <= k < ps.len() ==> #[trigger] prime_recip@[k] == floor_recip(ps[k] as int),
            sieve.wf(),
            low <= x,
            high == low + sieve.len,
            lo == low,
            rl == row_low,
            low <= row_low,
            hi == high,
            high < 0x4000_0000_0000_0000,
            sieve_holds(sieve.bits@, sieve.len as int, lo, ps, b - 1),
            0 <= base <= phi_first(lo - 1, ps, b - 1),
            phi_first(lo - 1, ps, b - 1) <= x,
            phi_b == phi_first(lo - 1, ps, b - 1) - base,
            acc == easy_row(x, ps, b, l as int, l_start as int, rl, hi) - base * easy_count(x, ps, b, l as int, l_start as int, rl, hi),
            coeff == easy_count(x, ps, b, l as int, l_start as int, rl, hi),
            match prev_pos {
                Some(pp) => pp < sieve.len && running == flat_ones(sieve.bits@, pp + 1),
                None => true,
            },
        decreases l,
    {
        let q = primes[l] as u64;
        proof {
            lemma_easy_row_concat(x, ps, b, l - 1, l as int, l_start as int, rl, hi);
            lemma_easy_row_bound(x, ps, b, l as int, l_start as int, rl, hi);
            assert(easy_row(x, ps, b, l - 1, l - 1, rl, hi) == 0);
            assert(easy_count(x, ps, b, l - 1, l - 1, rl, hi) == 0);
            let er = easy_row(x, ps, b, l as int, l_start as int, rl, hi);
            let ec = easy_count(x, ps, b, l as int, l_start as int, rl, hi);
            assert(er <= y * x) by (nonlinear_arith)
                requires
                    er <= (l_start - l) * x,
                    0 <= l_start - l <= y,
                    x >= 0,
            ;
            assert(y * x < 0x8000_0000 * 0x8000_0000_0000_0000) by (nonlinear_arith)
                requires
                    y < 0x8000_0000,
                    0 <= x < 0x8000_0000_0000_0000,
            ;
            assert(0 <= base * ec <= x * y) by (nonlinear_arith)
                requires
                    0 <= base <= x,
                    0 <= ec <= l_start - l,
                    l_start - l <= y,
            ;
            let tc = if rl <= leaf_n(x, ps, b, ps[l as int] as int) < hi { 1int } else { 0int };
            assert(base * (tc + ec) == base * tc + base * ec) by (nonlinear_arith);
        }
        let xpq64 = fast_div_floor(x_div_prime, q, prime_recip[l]);
        if xpq64 >= row_low as u64 && xpq64 < high as u64 {
            let xpq = xpq64 as usize;
            let pos = xpq - low;
            proof {
                lemma_flat_ones_le(sieve.bits@, pos + 1);
            }
            let count = match prev_pos {
                Some(pp) if pos == pp => running,
                Some(pp) if pos > pp => {
                    running = running + sieve.count_delta(pp, pos);
                    running
                },
                _ => {
                    running = sieve.count(pos);
                    running
                },
            };
            proof {
                lemma_sieve_counts_phi(sieve.bits@, sieve.len as int, lo, ps, b - 1, pos + 1);
                lemma_phi_first_bounds(xpq as int, ps, b - 1);
                lemma_phi_first_monotone(lo - 1, xpq as int, ps, b - 1);
                assert(leaf_n(x, ps, b, ps[l as int] as int) == xpq);
            }
            let v = phi_b + count;
            let ghost acc_old = acc as int;
            acc = acc + v as i128;
            coeff = coeff + 1;
            prev_pos = Some(pos);
            proof {
                let f = phi_first(xpq as int, ps, b - 1);
                assert(v == f - base);
                assert(easy_term(x, ps, b, l as int, rl, hi) == f);
            }
        }
        l = l - 1;
    }
    (acc, coeff, l)
}


/// One segment `[low, high)` of the hard leaves: pre-sieves it, then for
/// `b = c + 1, ...` adds the leaves of `p_b` whose `n` lies in it (with `m`
/// over the window of the segment up to `sqrt(y)`; beyond, over the primes,
/// and only the leaves with `n >= y`), advances `phi[b]` and crosses off the
/// multiples of `p_b`, until the first prime that has no leaf in this
/// segment nor any later one. Returns the leaves' sum and, as a ghost, that
/// first prime's index.
#[verifier::spinoff_prover]
#[verifier::rlimit(60)]
fn hard_segment(
    x: u64,
    y: usize,
    c: usize,
    primes: &Vec<u32>,
    lpf: &Vec<i32>,
    mu: &Vec<i8>,
    pi: &Vec<u32>,
    pi_sqrty: usize,
    pi_y: usize,
    low: usize,
    high: usize,
    template: &PreSieveTemplate,
    prime_recip: &Vec<u64>,
    sieve: &mut BitSieve,
    phi: &mut Vec<i64>,
    next: &mut Vec<usize>,
    Ghost(valid): Ghost<int>,
    Ghost(prev_low): Ghost<int>,
) -> (r: (i128, Ghost<int>))
    requires
        leaf_setting(x, y, c, primes@, lpf@, mu@, pi@, pi_sqrty, pi_y, *template, prime_recip@),
        low < high,
        high <= (x as int) / (y as int) + 1,
        high < 0x4000_0000_0000_0000,
        high + 8 * y + 64 <= usize::MAX,
        old(sieve).wf(),
        high - low <= 64 * old(sieve).bits@.len(),
        c + 1 <= valid <= pi_y + 1,
        0 <= prev_low <= low,
        segment_done(x as int, y as int, primes@, pi_sqrty as int, valid, prev_low),
        phi_state(primes@, old(phi)@, old(next)@, c + 1, valid, low as int),
    ensures
        r.0 == dr_rows(x as int, y as int, primes@, c as int, pi_sqrty as int, pi_y - 1, low as int, high as int),
        c + 1 <= r.1@ <= valid,
        segment_done(x as int, y as int, primes@, pi_sqrty as int, r.1@, low as int),
        phi_state(primes@, final(phi)@, final(next)@, c + 1, r.1@, high as int),
        final(sieve).wf(),
        final(sieve).bits@.len() == old(sieve).bits@.len(),
{
    let ghost ps = primes@;
    let ghost xi = x as int;
    let ghost yi = y as int;
    let ghost lo = low as int;
    let ghost hi = high as int;
    let ghost s_y = choose|s: int| sqrt_bounds(y as int, s, pi_sqrty as int);
    let seg_len = high - low;
    let low1v: usize = if low > 1 {
        low
    } else {
        1
    };
    let ghost orig_words = sieve.bits@.len();
    template.init_sieve(sieve, low, seg_len);
    proof {
        lemma_prime_table(ps, yi);
        crate::number_theory::lemma_prime_count_le(y as nat);
        assert forall|i: int| 0 <= i < seg_len implies (#[trigger] flat_bit(sieve.bits@, i) <==> (lo + i != 0
            && coprime_first(lo + i, ps, c as int))) by {
            lemma_tiny_coprime(ps, c as int, lo + i);
        }
        assert(sieve_holds(sieve.bits@, seg_len as int, lo, ps, c as int));
        lemma_div_is_ordered_by_denominator(xi, 1, yi);
    }
    let sq = isqrt(x / low1v as u64);
    let n0: usize = if sq < y as u64 {
        sq as usize
    } else {
        y
    };
    let max_b0 = pi[n0] as usize;
    let max_b = if max_b0 < pi_y - 1 {
        max_b0
    } else {
        pi_y - 1
    };
    let mut b = c + 1;
    let mut s2: i128 = 0;
    let bound_hard = if pi_sqrty < max_b {
        pi_sqrty
    } else {
        max_b
    };
    // the primes up to sqrt(y): leaves over the window of m
    while b <= bound_hard && b < primes.len()
        invariant
            leaf_setting(x, y, c, ps, lpf@, mu@, pi@, pi_sqrty, pi_y, *template, prime_recip@),
            ps == primes@,
            sqrt_bounds(yi, s_y, pi_sqrty as int),
            xi == x,
            yi == y,
            lo == low,
            hi == high,
            forall|k: int| 1 <= k < ps.len() ==> 2 <= #[trigger] ps[k] <= yi,
            ps.len() <= yi + 1,
            low < high,
            seg_len == high - low,
            high <= xi / yi + 1,
            xi / yi <= xi,
            high < 0x4000_0000_0000_0000,
            high + 8 * y + 64 <= usize::MAX,
            low1v == low1(lo),
            sq * sq <= xi / low1(lo) < (sq + 1) * (sq + 1),
            n0 == (if sq < yi { sq as int } else { yi }),
            max_b0 == prime_count(n0 as nat),
            max_b == (if max_b0 < pi_y - 1 { max_b0 as int } else { pi_y - 1 }),
            bound_hard == (if pi_sqrty < max_b { pi_sqrty as int } else { max_b as int }),
            c + 1 <= b <= valid,
            b <= pi_y || b == c + 1,
            valid <= pi_y + 1,
            0 <= prev_low <= low,
            segment_done(xi, yi, ps, pi_sqrty as int, valid, prev_low),
            sieve.wf(),
            sieve.len == seg_len,
            sieve.bits@.len() == orig_words,
            seg_len <= 64 * sieve.bits@.len(),
            sieve_holds(sieve.bits@, seg_len as int, lo, ps, b - 1),
            phi_state(ps, phi@, next@, c + 1, b as int, hi),
            phi_state(ps, phi@, next@, b as int, valid, lo),
            s2 == dr_rows(xi, yi, ps, c as int, pi_sqrty as int, b - 1, lo, hi),
        ensures
            b > bound_hard || b >= primes.len() || segment_done(xi, yi, ps, pi_sqrty as int, b as int, lo),
        decreases pi_y + 1 - b,
    {
        let prime = primes[b] as u64;
        let x_div_prime = x / prime;
        let mq = x_div_prime / high as u64;
        let yq = y as u64 / prime;
        let min_m: u64 = if mq > yq {
            mq
        } else {
            yq
        };
        let mm = x_div_prime / low1v as u64;
        let max_m: usize = if mm < y as u64 {
            mm as usize
        } else {
            y
        };
        if prime as usize >= max_m {
            proof {
                assert(max_m == seg_max_m(xi, yi, ps, b as int, lo));
            }
            break;
        }
        proof {
            if b == valid {
                lemma_done_monotone(xi, yi, ps, pi_sqrty as int, valid, b as int, prev_low, lo);
                lemma_within_max_b(xi, yi, ps, b as int, lo, sq as int);
                assert(false);
            }
            lemma_phi_first_bounds(lo - 1, ps, b - 1);
        }
        let r = hard_leaves(x_div_prime, prime, min_m, max_m, low, mu, lpf, sieve, phi[b],
            Ghost(xi), Ghost(yi), Ghost(ps), Ghost(b as int), Ghost(0int));
        proof {
            lemma_hard_window(xi, yi, ps, b as int, lo, hi, min_m as int, max_m as int);
            assert(0int * weight_row(xi, yi, ps, b as int, min_m as int, max_m as int, lo, hi) == 0);
            assert(dr_rows(xi, yi, ps, c as int, pi_sqrty as int, b as int, lo, hi) == s2 + r.0);
            lemma_dr_rows_bound(xi, yi, ps, c as int, pi_sqrty as int, b as int, lo, hi);
            lemma_s2_bound(xi, yi, b - c);
        }
        s2 = s2 + r.0;
        let total = sieve.count_total();
        proof {
            lemma_sieve_counts_phi(sieve.bits@, seg_len as int, lo, ps, b - 1, seg_len as int);
            lemma_phi_first_bounds(hi - 1, ps, b - 1);
        }
        phi.set(b, phi[b] + total);
        let p = prime as usize;
        let nb = next[b];
        proof {
            lemma_next_multiple_start(lo, p as int);
        }
        let start = if nb >= low {
            nb - low
        } else {
            let rem = (low - nb) % p;
            if rem == 0 {
                0
            } else {
                p - rem
            }
        };
        let ghost before = sieve.bits@;
        let k = cross_off(sieve, p, start);
        proof {
            lemma_cross_off_holds(before, sieve.bits@, seg_len as int, lo, ps, b as int, start as int);
            lemma_stride_end(lo, hi, p as int, start as int, k as int);
        }
        next.set(b, low + k);
        b = b + 1;
    }
    proof {
        if b <= pi_sqrty && b < primes.len() && !segment_done(xi, yi, ps, pi_sqrty as int, b as int, lo) {
            assert(b > max_b);
            lemma_beyond_max_b(xi, yi, ps, pi_sqrty as int, b as int, lo, sq as int);
        }
    }
    // beyond sqrt(y) the leaves of p_b are the primes in (p_b, y]
    while b <= max_b && b < primes.len()
        invariant
            leaf_setting(x, y, c, ps, lpf@, mu@, pi@, pi_sqrty, pi_y, *template, prime_recip@),
            ps == primes@,
            sqrt_bounds(yi, s_y, pi_sqrty as int),
            xi == x,
            yi == y,
            lo == low,
            hi == high,
            forall|k: int| 1 <= k < ps.len() ==> 2 <= #[trigger] ps[k] <= yi,
            ps.len() <= yi + 1,
            low < high,
            seg_len == high - low,
            high <= xi / yi + 1,
            xi / yi <= xi,
            high < 0x4000_0000_0000_0000,
            high + 8 * y + 64 <= usize::MAX,
            low1v == low1(lo),
            sq * sq <= xi / low1(lo) < (sq + 1) * (sq + 1),
            n0 == (if sq < yi { sq as int } else { yi }),
            max_b0 == prime_count(n0 as nat),
            max_b == (if max_b0 < pi_y - 1 { max_b0 as int } else { pi_y - 1 }),
            c + 1 <= b <= valid,
            b <= pi_y || b == c + 1,
            valid <= pi_y + 1,
            0 <= prev_low <= low,
            segment_done(xi, yi, ps, pi_sqrty as int, valid, prev_low),
            b >= primes.len() || b > pi_sqrty || segment_done(xi, yi, ps, pi_sqrty as int, b as int, lo),
            sieve.wf(),
            sieve.len == seg_len,
            sieve.bits@.len() == orig_words,
            seg_len <= 64 * sieve.bits@.len(),
            sieve_holds(sieve.bits@, seg_len as int, lo, ps, b - 1),
            phi_state(ps, phi@, next@, c + 1, b as int, hi),
            phi_state(ps, phi@, next@, b as int, valid, lo),
            s2 == dr_rows(xi, yi, ps, c as int, pi_sqrty as int, b - 1, lo, hi),
        ensures
            b > max_b || b >= primes.len() || segment_done(xi, yi, ps, pi_sqrty as int, b as int, lo),
        decreases pi_y + 1 - b,
    {
        let prime = primes[b] as u64;
        let x_div_prime = x / prime;
        let mm = x_div_prime / low1v as u64;
        let l_max: usize = if mm < y as u64 {
            mm as usize
        } else {
            y
        };
        let l = pi[l_max] as usize;
        let mq = x_div_prime / high as u64;
        let min_m: u64 = if mq > prime {
            mq
        } else {
            prime
        };
        proof {
            assert(l_max == seg_max_m(xi, yi, ps, b as int, lo));
            lemma_prime_table_floor(ps, yi, l_max as int);
        }
        if l < primes.len() && prime as usize >= primes[l] as usize {
            proof {
                if b <= pi_sqrty {
                    assert(segment_done(xi, yi, ps, pi_sqrty as int, b as int, lo));
                }
            }
            break;
        }
        proof {
            lemma_within_max_b(xi, yi, ps, b as int, lo, sq as int);
            if b == valid {
                lemma_done_monotone(xi, yi, ps, pi_sqrty as int, valid, b as int, prev_low, lo);
                assert(false);
            }
            if b <= pi_sqrty {
                assert(false);
            }
            lemma_phi_first_bounds(lo - 1, ps, b - 1);
            let p = ps[b as int] as int;
            assert(s_y < p) by {
                assert(s_y <= yi) by (nonlinear_arith)
                    requires
                        s_y * s_y <= yi,
                        s_y >= 0,
                ;
                lemma_prime_table_floor(ps, yi, s_y);
                if p <= s_y {
                    crate::number_theory::lemma_prime_count_monotone(p as nat, s_y as nat);
                }
            }
            assert(p * p > yi) by (nonlinear_arith)
                requires
                    p >= s_y + 1,
                    yi < (s_y + 1) * (s_y + 1),
                    s_y >= 0,
            ;
        }
        let row_low: usize = if low < y {
            y
        } else {
            low
        };
        let r = prime_leaves_from(x_div_prime, l, min_m, low, row_low, primes, prime_recip, sieve, phi[b],
            Ghost(xi), Ghost(yi), Ghost(b as int), Ghost(0int));
        proof {
            let stop = r.2 as int;
            lemma_prime_table(ps, yi);
            if l < b && l >= 1 {
                assert(ps[l as int] < ps[b as int]);
            }
            assert(b <= l);
            if stop < b {
                assert(ps[b as int] > min_m);
            }
            lemma_easy_window_from(xi, yi, ps, b as int, lo, row_low as int, hi, min_m as int, stop, l as int);
            assert(0int * easy_count(xi, ps, b as int, stop, l as int, row_low as int, hi) == 0);
            assert(dr_rows(xi, yi, ps, c as int, pi_sqrty as int, b as int, lo, hi) == s2 + r.0);
            lemma_dr_rows_bound(xi, yi, ps, c as int, pi_sqrty as int, b as int, lo, hi);
            lemma_s2_bound(xi, yi, b - c);
        }
        s2 = s2 + r.0;
        let total = sieve.count_total();
        proof {
            lemma_sieve_counts_phi(sieve.bits@, seg_len as int, lo, ps, b - 1, seg_len as int);
            lemma_phi_first_bounds(hi - 1, ps, b - 1);
        }
        phi.set(b, phi[b] + total);
        let p = prime as usize;
        let nb = next[b];
        proof {
            lemma_next_multiple_start(lo, p as int);
        }
        let start = if nb >= low {
            nb - low
        } else {
            let rem = (low - nb) % p;
            if rem == 0 {
                0
            } else {
                p - rem
            }
        };
        let ghost before = sieve.bits@;
        let k = cross_off(sieve, p, start);
        proof {
            lemma_cross_off_holds(before, sieve.bits@, seg_len as int, lo, ps, b as int, start as int);
            lemma_stride_end(lo, hi, p as int, start as int, k as int);
        }
        next.set(b, low + k);
        b = b + 1;
    }
    proof {
        if !segment_done(xi, yi, ps, pi_sqrty as int, b as int, lo) {
            assert(b > max_b);
            lemma_beyond_max_b(xi, yi, ps, pi_sqrty as int, b as int, lo, sq as int);
        }
        assert forall|b2: int| b - 1 < b2 <= pi_y - 1 implies #[trigger] dr_row(xi, yi, ps, pi_sqrty as int, b2, lo, hi) == 0 by {
            let rl = if lo < yi { yi } else { lo };
            lemma_done_monotone(xi, yi, ps, pi_sqrty as int, b as int, b2, lo, lo);
            lemma_done_row_zero(xi, yi, ps, s_y, pi_sqrty as int, b2, lo, hi);
            lemma_done_monotone(xi, yi, ps, pi_sqrty as int, b as int, b2, lo, rl);
            lemma_done_row_zero(xi, yi, ps, s_y, pi_sqrty as int, b2, rl, hi);
        }
        if b - 1 <= pi_y - 1 {
            lemma_dr_rows_tail_zero(xi, yi, ps, c as int, pi_sqrty as int, b - 1, pi_y - 1, lo, hi);
        }
    }
    (s2, Ghost(b as int))
}


/// S2_hard of the Deleglise-Rivat method, one segment of `segment_size`
/// numbers of `[0, z]` after another (`z = x / y`), carrying `phi[b]` and
/// the next multiple of each prime from segment to segment: every special
/// leaf of the primes up to `sqrt(y)`, and beyond them the leaves with
/// `n >= y`.
pub fn compute_s2_hard_serial(
    x: u64,
    y: usize,
    c: usize,
    primes: &Vec<u32>,
    lpf: &Vec<i32>,
    mu: &Vec<i8>,
    pi: &Vec<u32>,
    z: usize,
    pi_sqrty: usize,
    pi_y: usize,
    segment_size: usize,
    template: &PreSieveTemplate,
    prime_recip: &Vec<u64>,
) -> (s2: i128)
    requires
        leaf_setting(x, y, c, primes@, lpf@, mu@, pi@, pi_sqrty, pi_y, *template, prime_recip@),
        z == x / (y as u64),
        (y as int) * (y as int) <= x,
        1 <= segment_size < 0x1_0000_0000_0000 - 64,
        z + segment_size + 8 * y + 64 < 0x4000_0000_0000_0000,
        z + segment_size + 8 * y + 64 <= usize::MAX,
    ensures
        s2 == s2_hard_spec(x as int, y as int, primes@, c as int, easy_min_b(y as int, c as int)),
{
    let ghost ps = primes@;
    let ghost xi = x as int;
    let ghost yi = y as int;
    let nprimes = primes.len();
    let mut phi: Vec<i64> = Vec::new();
    let mut next: Vec<usize> = Vec::new();
    let mut i: usize = 0;
    while i < nprimes
        invariant
            nprimes == primes.len(),
            i <= nprimes,
            phi.len() == i,
            next.len() == i,
            forall|b: int| 0 <= b < i ==> #[trigger] phi@[b] == 0,
            forall|b: int| 0 <= b < i ==> #[trigger] next@[b] == primes@[b],
        decreases nprimes - i,
    {
        phi.push(0);
        next.push(primes[i] as usize);
        i = i + 1;
    }
    let mut sieve = BitSieve::new(segment_size);
    let mut s2: i128 = 0;
    let mut low: usize = 0;
    let ghost mut valid: int = pi_y + 1;
    let ghost mut prev_low: int = 0;
    proof {
        lemma_prime_table(ps, yi);
        crate::number_theory::lemma_prime_count_le(y as nat);
        assert forall|b: int| c + 1 <= b < valid implies #[trigger] next@[b] == next_multiple(low1(0), ps[b] as int) by {
            lemma_next_multiple(1, ps[b] as int, ps[b] as int);
            lemma_mod_self_0(ps[b] as int);
        }
        assert(dr_rows(xi, yi, ps, c as int, pi_sqrty as int, pi_y - 1, 0, 0) == 0) by {
            lemma_dr_rows_void(xi, yi, ps, c as int, pi_sqrty as int, pi_y - 1, 0, 0);
        }
        lemma_div_is_ordered_by_denominator(xi, 1, yi);
    }
    while low <= z
        invariant
            leaf_setting(x, y, c, ps, lpf@, mu@, pi@, pi_sqrty, pi_y, *template, prime_recip@),
            ps == primes@,
            xi == x,
            yi == y,
            z == xi / yi,
            z <= xi,
            forall|k: int| 1 <= k < ps.len() ==> 2 <= #[trigger] ps[k] <= yi,
            ps.len() <= yi + 1,
            1 <= segment_size < 0x1_0000_0000_0000 - 64,
            z + segment_size + 8 * y + 64 < 0x4000_0000_0000_0000,
            z + segment_size + 8 * y + 64 <= usize::MAX,
            yi * yi <= xi,
            low <= z + segment_size,
            sieve.wf(),
            segment_size <= 64 * sieve.bits@.len(),
            c + 1 <= valid <= pi_y + 1,
            0 <= prev_low <= low,
            segment_done(xi, yi, ps, pi_sqrty as int, valid, prev_low),
            low <= z ==> phi_state(ps, phi@, next@, c + 1, valid, low as int),
            s2 == dr_rows(xi, yi, ps, c as int, pi_sqrty as int, pi_y - 1, 0, low as int),
        decreases z + segment_size - low,
    {
        let high = if low + segment_size < z + 1 {
            low + segment_size
        } else {
            z + 1
        };
        let r = hard_segment(x, y, c, primes, lpf, mu, pi, pi_sqrty, pi_y, low, high, template, prime_recip,
            &mut sieve, &mut phi, &mut next, Ghost(valid), Ghost(prev_low));
        proof {
            lemma_dr_rows_split_n(xi, yi, ps, c as int, pi_sqrty as int, pi_y - 1, 0, low as int, high as int);
            if c <= pi_y - 1 {
                lemma_dr_rows_bound(xi, yi, ps, c as int, pi_sqrty as int, pi_y - 1, 0, high as int);
                lemma_s2_bound(xi, yi, pi_y - 1 - c);
            }
        }
        s2 = s2 + r.0;
        proof {
            valid = r.1@;
            prev_low = low as int;
            if low + segment_size > z {
                lemma_dr_rows_all_below(xi, yi, ps, c as int, pi_sqrty as int, pi_y - 1, high as int);
                lemma_dr_rows_all_below(xi, yi, ps, c as int, pi_sqrty as int, pi_y - 1, low + segment_size);
            }
        }
        low = low + segment_size;
    }
    proof {
        lemma_dr_rows_all_below(xi, yi, ps, c as int, pi_sqrty as int, pi_y - 1, low as int);
        let s_y = choose|s: int| sqrt_bounds(yi, s, pi_sqrty as int);
        let r = choose|r: int| is_sqrt(yi, r);
        assert(is_sqrt(yi, s_y));
        crate::roots::lemma_sqrt_unique(yi, r, s_y);
        lemma_dr_rows_hard(xi, yi, ps, c as int, pi_sqrty as int, pi_y - 1);
    }
    s2
}

/// S2_hard of the Deleglise-Rivat method for `x` and `y` with `z = x / y`:
/// every special leaf of the primes up to `sqrt(y)` after the first `c`, and
/// beyond them the leaves with `n >= y`; the segments are sized as for S2.
pub fn compute_s2_hard(
    x: u64,
    y: usize,
    z: usize,
    c: usize,
    primes: &Vec<u32>,
    lpf: &Vec<i32>,
    mu: &Vec<i8>,
    pi: &Vec<u32>,
) -> (r: i128)
    requires
        s2_tables(x, y, c, primes@, lpf@, mu@, pi@),
        s2_sizes(x, y),
        z == x / (y as u64),
    ensures
        r == s2_hard_spec(x as int, y as int, primes@, c as int, easy_min_b(y as int, c as int)),
{
    let plan = plan_s2(x, y, c, primes, lpf, mu, pi, current_num_threads());
    compute_s2_hard_serial(x, y, c, primes, lpf, mu, pi, plan.z, plan.pi_sqrty, plan.pi_y, plan.segment_size,
        &plan.template, &plan.prime_recip)
}

} // verus!
