//! The easy special leaves of the Deleglise-Rivat split: the leaves
//! `(b, p_l)` with `p_b > sqrt(y)` and `x / (p_b * p_l) < y`, whose
//! `phi(n, b - 1)` follows from a table of pi: 1 below `p_b`, else
//! `pi(n) - b + 2`.

use vstd::prelude::*;
use vstd::arithmetic::div_mod::*;
use crate::number_theory::{is_prime, prime_count, lemma_prime_count_monotone};
use crate::tables::NO_FACTOR;
use crate::special_leaves::{
    prime_table, phi_first, leaf_n, easy_row, leaf_row, leaf_rows, s2_spec, lemma_prime_table, lemma_prime_table_floor, lemma_phi_small,
    lemma_easy_row_concat, lemma_easy_row_bound, lemma_beyond_max_m_pub, lemma_phi_first_bounds,
};
use crate::lmo::{fast_div_floor, floor_recip, prime_reciprocals, is_sqrt};
use crate::roots::isqrt;

verus! {

/// The last `l` before the easy leaves of `p_b`: `max(pi(min(z / p_b, y)), b)`.
pub open spec fn easy_first(y: int, z: int, ps: Seq<u32>, b: int) -> int {
    let t = z / (ps[b] as int);
    let e = prime_count((if t <= y { t } else { y }) as nat) as int;
    if e > b {
        e
    } else {
        b
    }
}

/// S2_easy over `b` in `[lo_b, hi_b]`: for each `b`, `phi(x / (p_b * p_l), b - 1)`
/// summed over the `l` in `(easy_first(b), pi(y)]`.
pub open spec fn s2_easy_spec(x: int, y: int, z: int, ps: Seq<u32>, lo_b: int, hi_b: int) -> int
    decreases hi_b + 1 - lo_b,
{
    if hi_b < lo_b {
        0
    } else {
        s2_easy_spec(x, y, z, ps, lo_b, hi_b - 1) + easy_row(x, ps, hi_b, easy_first(y, z, ps, hi_b), ps.len() - 1, 0, x + 1)
    }
}

/// What the callers of the easy sums hold: `y <= sqrt(x)`, `z = x / y`, a
/// table of the primes up to `y` with pi and the reciprocals of its primes.
pub open spec fn easy_setting(x: u64, y: usize, z: usize, primes: Seq<u32>, pi: Seq<u32>, recip: Seq<u64>) -> bool {
    &&& x < 0x8000_0000_0000_0000
    &&& 1 <= y < NO_FACTOR
    &&& (y as int) * (y as int) <= x
    &&& z == x / (y as u64)
    &&& prime_table(primes, y as int)
    &&& pi.len() == y + 1
    &&& forall|n: int| 0 <= n <= y ==> #[trigger] pi[n] == prime_count(n as nat)
    &&& recip.len() == primes.len()
    &&& forall|l: int| 1 <= l < primes.len() ==> #[trigger] recip[l] == floor_recip(primes[l] as int)
}

/// Leaves whose terms all equal `v` sum to their number times `v`.
proof fn lemma_easy_row_const(x: int, ps: Seq<u32>, b: int, a: int, e: int, v: int)
    requires
        a <= e,
        forall|l: int|
            a < l <= e ==> 0 <= #[trigger] leaf_n(x, ps, b, ps[l] as int) < x + 1 && phi_first(
                leaf_n(x, ps, b, ps[l] as int),
                ps,
                b - 1,
            ) == v,
    ensures
        easy_row(x, ps, b, a, e, 0, x + 1) == (e - a) * v,
    decreases e - a,
{
    if e > a {
        lemma_easy_row_const(x, ps, b, a, e - 1, v);
        assert(0 <= leaf_n(x, ps, b, ps[e] as int) < x + 1);
        assert((e - a) * v == (e - 1 - a) * v + v) by (nonlinear_arith);
    } else {
        assert((e - a) * v == 0) by (nonlinear_arith)
            requires
                e == a,
        ;
    }
}

/// `n` of a leaf of `p_b <= y` with `p_l <= y` lies in `[1, x]`.
proof fn lemma_leaf_n_range(x: int, y: int, ps: Seq<u32>, b: int, l: int)
    requires
        prime_table(ps, y),
        1 <= b < ps.len(),
        1 <= l < ps.len(),
        y * y <= x,
    ensures
        1 <= leaf_n(x, ps, b, ps[l] as int) <= x,
{
    lemma_prime_table(ps, y);
    let p = ps[b] as int;
    let q = ps[l] as int;
    assert(p * q <= x) by (nonlinear_arith)
        requires
            1 <= p <= y,
            1 <= q <= y,
            y * y <= x,
    ;
    lemma_div_denominator(x, p, q);
    lemma_div_is_ordered(p * q, x, p * q);
    lemma_div_by_self(p * q);
    lemma_div_is_ordered_by_denominator(x, 1, p * q);
}

#[verifier::spinoff_prover]
/// The easy leaves of `p_b` for `l` in `(a, e]`, all with `n < y`: those
/// with `p_l > x / p_b^2` have `phi = 1`; the others have
/// `phi = pi(n) - b + 2`, taken in runs of `l` that share `pi(n)`.
pub fn easy_span(
    x: u64,
    y: usize,
    z: usize,
    b: usize,
    a: usize,
    e: usize,
    primes: &Vec<u32>,
    pi: &Vec<u32>,
    recip: &Vec<u64>,
) -> (s: i128)
    requires
        easy_setting(x, y, z, primes@, pi@, recip@),
        1 <= b <= a,
        e < primes.len(),
        a >= easy_first(y as int, z as int, primes@, b as int),
        (primes@[b as int] as int) * (primes@[b as int] as int) > y,
    ensures
        a >= e ==> s == 0,
        a < e ==> s == easy_row(x as int, primes@, b as int, a as int, e as int, 0, x + 1),
{
    if a >= e {
        return 0;
    }
    let ghost ps = primes@;
    let ghost xi = x as int;
    let ghost yi = y as int;
    let prime = primes[b] as u64;
    let xp = x / prime;
    let ghost pb = prime as int;
    proof {
        lemma_prime_table(ps, yi);
        crate::number_theory::lemma_prime_count_le(y as nat);
        lemma_div_pos_is_pos(xi, pb);
    }
    let xpp_full = xp / prime;
    let xpp: usize = if xpp_full <= y as u64 {
        xpp_full as usize
    } else {
        y
    };
    let nte = pi[xpp] as usize;
    proof {
        lemma_prime_table_floor(ps, yi, xpp as int);
    }
    // every leaf walked has n < y, and n >= p_b exactly up to nte
    let ghost zt = (z as int) / pb;
    proof {
        assert forall|k: int| a < k < ps.len() implies #[trigger] leaf_n(xi, ps, b as int, ps[k] as int) < yi by {
            let t = if zt <= yi { zt } else { yi };
            lemma_prime_table_floor(ps, yi, t);
            if k > prime_count(t as nat) + 1 {
                assert(ps[prime_count(t as nat) + 1int] < ps[k]);
            }
            assert(ps[k] > zt);
            lemma_div_denominator(xi, yi, pb);
            lemma_div_denominator(xi, pb, yi);
            assert(yi * pb == pb * yi) by (nonlinear_arith);
            lemma_beyond_max_m_pub(xi, pb, yi, ps[k] as int);
        }
    }
    let ts = if nte > a {
        nte
    } else {
        a
    };
    let mut s: i128 = 0;
    if e > ts {
        proof {
            assert forall|k: int| ts < k <= e implies 0 <= #[trigger] leaf_n(xi, ps, b as int, ps[k] as int) < xi + 1
                && phi_first(leaf_n(xi, ps, b as int, ps[k] as int), ps, b - 1) == 1 by {
                lemma_leaf_n_range(xi, yi, ps, b as int, k);
                let q = ps[k] as int;
                if k > nte + 1 {
                    assert(ps[nte + 1] < ps[k]);
                }
                assert(q > xpp);
                assert(q > (xi / pb) / pb);
                lemma_beyond_max_m_pub(xi, pb, pb, q);
                let n = leaf_n(xi, ps, b as int, q);
                assert(n < pb * pb) by (nonlinear_arith)
                    requires
                        n < pb,
                        pb >= 2,
                ;
                lemma_phi_small(ps, yi, b - 1, n);
                lemma_prime_count_monotone(n as nat, (pb - 1) as nat);
                assert(prime_count((pb - 1) as nat) == b - 1);
            }
            lemma_easy_row_const(xi, ps, b as int, ts as int, e as int, 1);
        }
        s = (e - ts) as i128;
    }
    let l0: usize = if nte < e {
        nte
    } else {
        e
    };
    let mut l: usize = if l0 > a {
        l0
    } else {
        a
    };
    let nprimes = primes.len();
    proof {
        if e > ts {
            if l0 <= a {
                assert(ts == a);
            }
        }
        lemma_easy_row_bound(xi, ps, b as int, l as int, e as int, 0, xi + 1);
    }
    while l > a && l < nprimes
        invariant
            easy_setting(x, y, z, ps, pi@, recip@),
            ps == primes@,
            xi == x,
            yi == y,
            pb == prime,
            nprimes == primes.len(),
            1 <= b <= a,
            prime == ps[b as int],
            xp == xi / pb,
            pb * pb > yi,
            forall|k: int| 1 <= k < ps.len() ==> 2 <= #[trigger] ps[k] <= yi,
            ps.len() <= yi + 1,
            forall|k: int| a < k < ps.len() ==> #[trigger] leaf_n(xi, ps, b as int, ps[k] as int) < yi,
            nte as int == prime_count(xpp as nat),
            xpp == (if (xi / pb) / pb <= yi { (xi / pb) / pb } else { yi }),
            l > a ==> l <= nte,
            e < ps.len(),
            a <= l <= e,
            s == easy_row(xi, ps, b as int, l as int, e as int, 0, xi + 1),
            0 <= s <= (e - l) * xi,
        decreases l,
    {
        proof {
            lemma_prime_table(ps, yi);
            assert(recip@[l as int] == floor_recip(ps[l as int] as int));
        }
        let q = primes[l] as u64;
        let xpq = fast_div_floor(xp, q, recip[l]) as usize;
        let ghost ql = q as int;
        proof {
            lemma_leaf_n_range(xi, yi, ps, b as int, l as int);
            assert(xpq < yi);
        }
        let idx = if xpq < y {
            xpq
        } else {
            y
        };
        let pi_xpq = pi[idx] as usize;
        let ghost n = xpq as int;
        proof {
            crate::number_theory::lemma_prime_count_le(idx as nat);
            // n >= p_b: the leaf is not trivial
            lemma_prime_table_floor(ps, yi, xpp as int);
            assert(ql <= xpp) by {
                if l < nte {
                    assert(ps[l as int] < ps[nte as int]);
                }
            }
            lemma_div_is_ordered_by_denominator(xi / pb, 1, ql);
            assert(ql <= (xi / pb) / pb);
            lemma_fundamental_div_mod(xi / pb, pb);
            lemma_fundamental_div_mod(xi / pb, ql);
            assert(n >= pb) by (nonlinear_arith)
                requires
                    ql <= (xi / pb) / pb,
                    xi / pb == pb * ((xi / pb) / pb) + (xi / pb) % pb,
                    (xi / pb) % pb >= 0,
                    xi / pb == ql * n + (xi / pb) % ql,
                    (xi / pb) % ql < ql,
                    ql >= 1,
                    pb >= 1,
            ;
            lemma_prime_count_monotone(pb as nat, n as nat);
            assert(prime_count(pb as nat) == b);
            assert(n < pb * pb);
            lemma_phi_small(ps, yi, b - 1, n);
        }
        let phi_val: i128 = pi_xpq as i128 - b as i128 + 2;
        let next_pi = pi_xpq + 1;
        let mut batched = false;
        if next_pi < nprimes && primes[next_pi] as usize <= y {
            let pn = primes[next_pi] as u64;
            let threshold = fast_div_floor(xp, pn, recip[next_pi]);
            let tidx: usize = if threshold <= y as u64 {
                threshold as usize
            } else {
                y
            };
            let lt = pi[tidx] as usize;
            let lmin = if lt > a {
                lt
            } else {
                a
            };
            if lmin < l {
                proof {
                    lemma_prime_table_floor(ps, yi, n);
                    lemma_prime_table_floor(ps, yi, tidx as int);
                    let pnext = pn as int;
                    assert(prime_count(pnext as nat) == next_pi);
                    assert forall|t: int| n < t <= pnext - 1 implies !#[trigger] is_prime(t as nat) by {
                        if is_prime(t as nat) {
                            crate::special_leaves::lemma_prime_count_above(n as nat, t as nat);
                            crate::special_leaves::lemma_prime_count_above(t as nat, pnext as nat);
                        }
                    }
                    crate::special_leaves::lemma_prime_count_flat(n as nat, (pnext - 1) as nat);
                    assert forall|k: int| lmin < k <= l implies 0 <= #[trigger] leaf_n(xi, ps, b as int, ps[k] as int)
                        < xi + 1 && phi_first(leaf_n(xi, ps, b as int, ps[k] as int), ps, b - 1) == phi_val by {
                        lemma_leaf_n_range(xi, yi, ps, b as int, k);
                        let qk = ps[k] as int;
                        let nk = leaf_n(xi, ps, b as int, qk);
                        if k < l {
                            assert(ps[k] < ps[l as int]);
                        }
                        lemma_div_is_ordered_by_denominator(xi / pb, qk, ql);
                        assert(nk >= n);
                        if k > lt + 1 {
                            assert(ps[lt + 1] < ps[k]);
                        }
                        assert(qk > tidx);
                        assert(qk > (xi / pb) / pnext);
                        lemma_beyond_max_m_pub(xi, pb, pnext, qk);
                        lemma_prime_count_monotone(n as nat, nk as nat);
                        lemma_prime_count_monotone(nk as nat, (pnext - 1) as nat);
                        assert(nk < pb * pb);
                        lemma_prime_count_monotone(pb as nat, nk as nat);
                        lemma_phi_small(ps, yi, b - 1, nk);
                    }
                    lemma_phi_first_bounds(n, ps, b - 1);
                    assert(yi <= xi) by (nonlinear_arith)
                        requires
                            yi * yi <= xi,
                            yi >= 1,
                    ;
                    lemma_easy_row_const(xi, ps, b as int, lmin as int, l as int, phi_val as int);
                    assert((l - lmin) * phi_val == phi_val * ((l - lmin) as i128)) by (nonlinear_arith);
                    lemma_easy_row_concat(xi, ps, b as int, lmin as int, l as int, e as int, 0, xi + 1);
                    lemma_easy_row_bound(xi, ps, b as int, lmin as int, e as int, 0, xi + 1);
                    assert(0 <= phi_val * ((l - lmin) as i128) <= (l - lmin) * xi) by (nonlinear_arith)
                        requires
                            0 <= phi_val <= xi,
                            l - lmin >= 0,
                    ;
                    assert((l - lmin) * xi <= yi * xi) by (nonlinear_arith)
                        requires
                            0 <= l - lmin <= yi,
                            xi >= 0,
                    ;
                    assert((e - l) * xi <= yi * xi) by (nonlinear_arith)
                        requires
                            0 <= e - l <= yi,
                            xi >= 0,
                    ;
                    assert(yi * xi < 0x8000_0000 * 0x8000_0000_0000_0000) by (nonlinear_arith)
                        requires
                            yi < 0x8000_0000,
                            0 <= xi < 0x8000_0000_0000_0000,
                    ;
                }
                s = s + phi_val * ((l - lmin) as i128);
                l = lmin;
                batched = true;
                assert(s == easy_row(xi, ps, b as int, l as int, e as int, 0, xi + 1));
                assert(0 <= s <= (e - l) * xi);
            }
        }
        if !batched {
            proof {
                lemma_easy_row_concat(xi, ps, b as int, l - 1, l as int, e as int, 0, xi + 1);
                assert(easy_row(xi, ps, b as int, l - 1, l - 1, 0, xi + 1) == 0);
                lemma_phi_first_bounds(n, ps, b - 1);
                lemma_easy_row_bound(xi, ps, b as int, l - 1, e as int, 0, xi + 1);
                assert((e - l) * xi <= yi * xi) by (nonlinear_arith)
                    requires
                        0 <= e - l <= yi,
                        xi >= 0,
                ;
                assert(yi * xi < 0x8000_0000 * 0x8000_0000_0000_0000) by (nonlinear_arith)
                    requires
                        yi < 0x8000_0000,
                        0 <= xi < 0x8000_0000_0000_0000,
                ;
            }
            s = s + phi_val;
            l = l - 1;
            assert(s == easy_row(xi, ps, b as int, l as int, e as int, 0, xi + 1));
            assert(0 <= s <= (e - l) * xi);
        }
    }
    s
}


/// The primes from `p_b` on lie above `sqrt(y)` once `p_b` does.
proof fn lemma_above_sqrt(ps: Seq<u32>, y: int, b0: int, b: int)
    requires
        prime_table(ps, y),
        1 <= b0 <= b < ps.len(),
        (ps[b0] as int) * (ps[b0] as int) > y,
    ensures
        (ps[b] as int) * (ps[b] as int) > y,
{
    lemma_prime_table(ps, y);
    if b0 < b {
        assert(ps[b0] < ps[b]);
        let p0 = ps[b0] as int;
        let p = ps[b] as int;
        assert(p * p >= p0 * p0) by (nonlinear_arith)
            requires
                0 <= p0 <= p,
        ;
    }
}

/// The easy leaves of `p_b`: `phi(x / (p_b * p_l), b - 1)` over the `l` in
/// `(easy_first(b), pi(y)]`.
pub fn s2_easy_row(
    x: u64,
    y: usize,
    z: usize,
    b: usize,
    primes: &Vec<u32>,
    pi: &Vec<u32>,
    recip: &Vec<u64>,
) -> (s: i128)
    requires
        easy_setting(x, y, z, primes@, pi@, recip@),
        1 <= b < primes.len(),
        (primes@[b as int] as int) * (primes@[b as int] as int) > y,
    ensures
        s == easy_row(x as int, primes@, b as int, easy_first(y as int, z as int, primes@, b as int), primes.len() - 1, 0, x + 1),
        0 <= s <= (primes.len() - 1) * x,
{
    let ghost ps = primes@;
    proof {
        lemma_prime_table(ps, y as int);
    }
    let pi_y = primes.len() - 1;
    let prime = primes[b] as usize;
    let z_over_p = z / prime;
    let zi: usize = if z_over_p < y {
        z_over_p
    } else {
        y
    };
    let easy_start_l = pi[zi] as usize;
    let min_l = if easy_start_l > b {
        easy_start_l
    } else {
        b
    };
    proof {
        assert(min_l == easy_first(y as int, z as int, ps, b as int));
        if min_l < pi_y {
            lemma_easy_row_bound(x as int, ps, b as int, min_l as int, pi_y as int, 0, x + 1);
            assert((pi_y - min_l) * x <= pi_y * x) by (nonlinear_arith)
                requires
                    0 <= min_l,
                    min_l < pi_y,
                    x >= 0,
            ;
        } else {
            assert(pi_y * x >= 0) by (nonlinear_arith)
                requires
                    pi_y >= 0,
                    x >= 0,
            ;
        }
    }
    easy_span(x, y, z, b, min_l, pi_y, primes, pi, recip)
}

/// S2_easy over the primes `p_b`, `b` in `[min_b, pi(y)]`, all above
/// `sqrt(y)`, each row on its own.
pub fn compute_s2_easy_direct(
    x: u64,
    y: usize,
    z: usize,
    primes: &Vec<u32>,
    pi: &Vec<u32>,
    min_b: usize,
    recip: &Vec<u64>,
) -> (s: i128)
    requires
        easy_setting(x, y, z, primes@, pi@, recip@),
        1 <= min_b,
        min_b < primes.len() ==> (primes@[min_b as int] as int) * (primes@[min_b as int] as int) > y,
    ensures
        s == s2_easy_spec(x as int, y as int, z as int, primes@, min_b as int, primes.len() - 1),
{
    let ghost ps = primes@;
    let ghost xi = x as int;
    let ghost yi = y as int;
    proof {
        lemma_prime_table(ps, yi);
        crate::number_theory::lemma_prime_count_le(y as nat);
    }
    let pi_y = primes.len() - 1;
    let mut sum: i128 = 0;
    let mut b = min_b;
    while b <= pi_y
        invariant
            easy_setting(x, y, z, ps, pi@, recip@),
            ps == primes@,
            xi == x,
            yi == y,
            pi_y == ps.len() - 1,
            ps.len() <= yi + 1,
            1 <= min_b <= b,
            b <= pi_y + 1 || b == min_b,
            min_b < ps.len() ==> (ps[min_b as int] as int) * (ps[min_b as int] as int) > yi,
            sum == s2_easy_spec(xi, yi, z as int, ps, min_b as int, b - 1),
            0 <= sum <= (b - min_b) * (pi_y * xi),
        decreases pi_y + 1 - b,
    {
        proof {
            lemma_above_sqrt(ps, yi, min_b as int, b as int);
        }
        let r = s2_easy_row(x, y, z, b, primes, pi, recip);
        proof {
            assert((b + 1 - min_b) * (pi_y * xi) == (b - min_b) * (pi_y * xi) + pi_y * xi) by (nonlinear_arith);
            assert((b + 1 - min_b) * (pi_y * xi) <= yi * (yi * xi)) by (nonlinear_arith)
                requires
                    0 <= b + 1 - min_b <= yi,
                    0 <= pi_y <= yi,
                    xi >= 0,
            ;
            assert(yi * (yi * xi) < 0x8000_0000 * (0x8000_0000 * 0x8000_0000_0000_0000)) by (nonlinear_arith)
                requires
                    0 <= yi < 0x8000_0000,
                    0 <= xi < 0x8000_0000_0000_0000,
            ;
        }
        assert(sum + r <= yi * (yi * xi));
        sum = sum + r;
        b = b + 1;
    }
    sum
}


/// S2_easy over `b` in `[lo_b, hi_b]`, keeping the leaves with `n` in `[lo, hi)`.
pub open spec fn s2_easy_window(x: int, y: int, z: int, ps: Seq<u32>, lo_b: int, hi_b: int, lo: int, hi: int) -> int
    decreases hi_b + 1 - lo_b,
{
    if hi_b < lo_b {
        0
    } else {
        s2_easy_window(x, y, z, ps, lo_b, hi_b - 1, lo, hi) + easy_row(
            x,
            ps,
            hi_b,
            easy_first(y, z, ps, hi_b),
            ps.len() - 1,
            lo,
            hi,
        )
    }
}

/// The leaves of `l` in `(a, e]` whose `n` lies in `[lo, hi)` are those of
/// the band `(u, v]`: their sum is the full sum over the band's part of
/// `(a, e]`.
proof fn lemma_easy_row_band(x: int, ps: Seq<u32>, b: int, a: int, e: int, lo: int, hi: int, u: int, v: int)
    requires
        a <= e,
        x >= 0,
        forall|l: int| a < l <= e ==> 0 <= #[trigger] leaf_n(x, ps, b, ps[l] as int) <= x,
        forall|l: int| a < l <= e ==> (lo <= #[trigger] leaf_n(x, ps, b, ps[l] as int) < hi) == (u < l <= v),
    ensures
        easy_row(x, ps, b, a, e, lo, hi) == if (if a > u { a } else { u }) < (if e < v { e } else { v }) {
            easy_row(x, ps, b, if a > u { a } else { u }, if e < v { e } else { v }, 0, x + 1)
        } else {
            0
        },
    decreases e - a,
{
    if e > a {
        lemma_easy_row_band(x, ps, b, a, e - 1, lo, hi, u, v);
        let n = leaf_n(x, ps, b, ps[e] as int);
        assert(0 <= n <= x);
        assert((lo <= n < hi) == (u < e <= v));
        let c = if a > u { a } else { u };
        if u < e <= v {
            assert(easy_row(x, ps, b, a, e, lo, hi) == easy_row(x, ps, b, a, e - 1, lo, hi) + phi_first(n, ps, b - 1));
            assert(c < e);
            assert(easy_row(x, ps, b, c, e, 0, x + 1) == easy_row(x, ps, b, c, e - 1, 0, x + 1) + phi_first(n, ps, b - 1));
        } else {
            assert(easy_row(x, ps, b, a, e, lo, hi) == easy_row(x, ps, b, a, e - 1, lo, hi));
        }
    }
}

/// A sum over `n` in `[lo, hi)` splits at `mid`.
proof fn lemma_easy_row_split_n(x: int, ps: Seq<u32>, b: int, a: int, e: int, lo: int, mid: int, hi: int)
    requires
        lo <= mid <= hi,
    ensures
        easy_row(x, ps, b, a, e, lo, hi) == easy_row(x, ps, b, a, e, lo, mid) + easy_row(x, ps, b, a, e, mid, hi),
    decreases e - a,
{
    if e > a {
        lemma_easy_row_split_n(x, ps, b, a, e - 1, lo, mid, hi);
    }
}

/// So does the window sum.
proof fn lemma_window_split(x: int, y: int, z: int, ps: Seq<u32>, lo_b: int, hi_b: int, lo: int, mid: int, hi: int)
    requires
        lo <= mid <= hi,
    ensures
        s2_easy_window(x, y, z, ps, lo_b, hi_b, lo, hi) == s2_easy_window(x, y, z, ps, lo_b, hi_b, lo, mid)
            + s2_easy_window(x, y, z, ps, lo_b, hi_b, mid, hi),
    decreases hi_b + 1 - lo_b,
{
    if hi_b >= lo_b {
        lemma_window_split(x, y, z, ps, lo_b, hi_b - 1, lo, mid, hi);
        lemma_easy_row_split_n(x, ps, hi_b, easy_first(y, z, ps, hi_b), ps.len() - 1, lo, mid, hi);
    }
}

/// Rows that hold nothing in the window leave the window sum unchanged.
proof fn lemma_window_tail(x: int, y: int, z: int, ps: Seq<u32>, lo_b: int, mid_b: int, hi_b: int, lo: int, hi: int)
    requires
        lo_b - 1 <= mid_b <= hi_b,
        forall|b: int|
            mid_b < b <= hi_b ==> #[trigger] easy_row(x, ps, b, easy_first(y, z, ps, b), ps.len() - 1, lo, hi) == 0,
    ensures
        s2_easy_window(x, y, z, ps, lo_b, hi_b, lo, hi) == s2_easy_window(x, y, z, ps, lo_b, mid_b, lo, hi),
    decreases hi_b - mid_b,
{
    if hi_b > mid_b {
        lemma_window_tail(x, y, z, ps, lo_b, mid_b, hi_b - 1, lo, hi);
        assert(easy_row(x, ps, hi_b, easy_first(y, z, ps, hi_b), ps.len() - 1, lo, hi) == 0);
    }
}

/// Each easy row holds at most `y` leaves of at most `x` each.
proof fn lemma_window_bound(x: int, y: int, z: int, ps: Seq<u32>, lo_b: int, hi_b: int, lo: int, hi: int)
    requires
        prime_table(ps, y),
        x >= 0,
        1 <= lo_b,
        lo_b - 1 <= hi_b < ps.len(),
    ensures
        0 <= s2_easy_window(x, y, z, ps, lo_b, hi_b, lo, hi) <= (hi_b + 1 - lo_b) * (y * x),
    decreases hi_b + 1 - lo_b,
{
    lemma_prime_table(ps, y);
    crate::number_theory::lemma_prime_count_le(y as nat);
    if hi_b >= lo_b {
        lemma_window_bound(x, y, z, ps, lo_b, hi_b - 1, lo, hi);
        let a = easy_first(y, z, ps, hi_b);
        let e = ps.len() - 1;
        if a < e {
            lemma_easy_row_bound(x, ps, hi_b, a, e, lo, hi);
            assert((e - a) * x <= y * x) by (nonlinear_arith)
                requires
                    0 <= e - a <= y,
                    x >= 0,
            ;
        }
        assert((hi_b + 1 - lo_b) * (y * x) == (hi_b - lo_b) * (y * x) + y * x) by (nonlinear_arith);
    } else {
        assert((hi_b + 1 - lo_b) * (y * x) == 0) by (nonlinear_arith)
            requires
                hi_b + 1 == lo_b,
        ;
    }
}

/// The whole window `[0, x + 1)` is S2_easy.
proof fn lemma_window_full(x: int, y: int, z: int, ps: Seq<u32>, lo_b: int, hi_b: int)
    ensures
        s2_easy_window(x, y, z, ps, lo_b, hi_b, 0, x + 1) == s2_easy_spec(x, y, z, ps, lo_b, hi_b),
    decreases hi_b + 1 - lo_b,
{
    if hi_b >= lo_b {
        lemma_window_full(x, y, z, ps, lo_b, hi_b - 1);
    }
}

/// For `q >= 1` and `t >= 1`: `q <= a / t` exactly when `a / q >= t`.
proof fn lemma_floor_swap(a: int, q: int, t: int)
    requires
        a >= 0,
        q >= 1,
        t >= 1,
    ensures
        (q <= a / t) == (a / q >= t),
{
    lemma_fundamental_div_mod(a, t);
    lemma_fundamental_div_mod(a, q);
    let d1 = a / t;
    let d2 = a / q;
    assert((q <= d1) == (d2 >= t)) by (nonlinear_arith)
        requires
            a == t * d1 + a % t,
            0 <= a % t < t,
            a == q * d2 + a % q,
            0 <= a % q < q,
            q >= 1,
            t >= 1,
    ;
}

/// `l <= pi(t)` exactly when `p_l <= t`, over a table of the primes up to `y >= t`.
proof fn lemma_index_le(ps: Seq<u32>, y: int, l: int, t: int)
    requires
        prime_table(ps, y),
        1 <= l < ps.len(),
        0 <= t <= y,
    ensures
        (l <= prime_count(t as nat)) == (ps[l] <= t),
{
    lemma_prime_table(ps, y);
    lemma_prime_table_floor(ps, y, t);
    let k = prime_count(t as nat) as int;
    if l <= k {
        if l < k {
            assert(ps[l] < ps[k]);
        }
    } else {
        if l > k + 1 {
            assert(ps[k + 1] < ps[l]);
        }
    }
}

/// The `l` bounds of the window `[lo, hi)` for `p_b`: `n` lies in it exactly
/// for `l` in `(l_lo, l_hi]`.
proof fn lemma_window_band(x: int, y: int, ps: Seq<u32>, b: int, l: int, lo: int, hi: int, l_lo: int, l_hi: int)
    requires
        prime_table(ps, y),
        1 <= y,
        y * y <= x,
        1 <= b < ps.len(),
        1 <= l < ps.len(),
        0 <= lo < hi,
        l_hi == (if lo == 0 {
            ps.len() - 1
        } else {
            let t = (x / (ps[b] as int)) / lo;
            prime_count((if t <= y { t } else { y }) as nat) as int
        }),
        l_lo == (if hi > x / (ps[b] as int) {
            0
        } else {
            let t = (x / (ps[b] as int)) / hi;
            prime_count((if t <= y { t } else { y }) as nat) as int
        }),
    ensures
        (lo <= leaf_n(x, ps, b, ps[l] as int) < hi) == (l_lo < l <= l_hi),
{
    lemma_prime_table(ps, y);
    let p = ps[b] as int;
    let q = ps[l] as int;
    let xp = x / p;
    lemma_div_pos_is_pos(x, p);
    let n = leaf_n(x, ps, b, q);
    if lo > 0 {
        let t = xp / lo;
        lemma_div_pos_is_pos(xp, lo);
        lemma_floor_swap(xp, q, lo);
        lemma_index_le(ps, y, l, if t <= y { t } else { y });
    }
    if hi <= xp {
        let t = xp / hi;
        lemma_div_pos_is_pos(xp, hi);
        lemma_floor_swap(xp, q, hi);
        lemma_index_le(ps, y, l, if t <= y { t } else { y });
    } else {
        lemma_div_is_ordered_by_denominator(xp, 1, q);
    }
}


/// An easy leaf of `p_b` has `n < y`.
proof fn lemma_easy_below_y(x: int, y: int, z: int, ps: Seq<u32>, b: int, l: int)
    requires
        prime_table(ps, y),
        1 <= y,
        x >= 0,
        z == x / y,
        1 <= b < ps.len(),
        easy_first(y, z, ps, b) < l < ps.len(),
    ensures
        leaf_n(x, ps, b, ps[l] as int) < y,
{
    lemma_prime_table(ps, y);
    let pb = ps[b] as int;
    let zt = z / pb;
    let t = if zt <= y { zt } else { y };
    lemma_div_pos_is_pos(x, y);
    lemma_div_pos_is_pos(z, pb);
    lemma_prime_table_floor(ps, y, t);
    if l > prime_count(t as nat) + 1 {
        assert(ps[prime_count(t as nat) + 1int] < ps[l]);
    }
    assert(ps[l] > zt);
    lemma_div_denominator(x, y, pb);
    lemma_div_denominator(x, pb, y);
    assert(y * pb == pb * y) by (nonlinear_arith);
    lemma_beyond_max_m_pub(x, pb, y, ps[l] as int);
}

/// Past `pi(min(isqrt(x / lo), y))` the easy leaves have `n < lo`.
proof fn lemma_beyond_segment(x: int, y: int, z: int, ps: Seq<u32>, b: int, lo: int, r: int, l: int)
    requires
        prime_table(ps, y),
        1 <= y,
        y * y <= x,
        lo >= 1,
        r >= 0,
        r * r <= x / lo < (r + 1) * (r + 1),
        b > prime_count((if r <= y { r } else { y }) as nat),
        1 <= b < ps.len(),
        easy_first(y, z, ps, b) < l < ps.len(),
    ensures
        leaf_n(x, ps, b, ps[l] as int) < lo,
{
    lemma_prime_table(ps, y);
    let p = ps[b] as int;
    let q = ps[l] as int;
    lemma_index_le(ps, y, b, if r <= y { r } else { y });
    assert(p > r);
    assert(ps[b] < ps[l]);
    let a = x / lo;
    lemma_div_pos_is_pos(x, lo);
    assert(a < p * p) by (nonlinear_arith)
        requires
            a < (r + 1) * (r + 1),
            p >= r + 1,
            r >= 0,
    ;
    lemma_div_denominator(x, p, lo);
    lemma_div_denominator(x, lo, p);
    assert(p * lo == lo * p) by (nonlinear_arith);
    lemma_fundamental_div_mod(a, p);
    assert(a / p < p) by (nonlinear_arith)
        requires
            a == p * (a / p) + a % p,
            a % p >= 0,
            a < p * p,
            p >= 1,
    ;
    lemma_beyond_max_m_pub(x, p, lo, q);
}

/// A row whose leaves all fall outside the window adds nothing to it.
proof fn lemma_row_outside(x: int, y: int, z: int, ps: Seq<u32>, b: int, lo: int, hi: int)
    requires
        prime_table(ps, y),
        1 <= y,
        y * y <= x,
        1 <= b < ps.len(),
        easy_first(y, z, ps, b) <= ps.len() - 1,
        forall|l: int| easy_first(y, z, ps, b) < l < ps.len() ==> !(lo <= #[trigger] leaf_n(x, ps, b, ps[l] as int) < hi),
    ensures
        easy_row(x, ps, b, easy_first(y, z, ps, b), ps.len() - 1, lo, hi) == 0,
{
    let a = easy_first(y, z, ps, b);
    let e = ps.len() - 1;
    assert forall|l: int| a < l <= e implies 0 <= #[trigger] leaf_n(x, ps, b, ps[l] as int) <= x by {
        lemma_leaf_n_range(x, y, ps, b, l);
    }
    lemma_easy_row_band(x, ps, b, a, e, lo, hi, e, e);
}

/// S2_easy over `b` in `[min_b, pi(y)]` taken window by window of `n`:
/// each window `[seg_low, seg_high)` of `seg_size` numbers below `y + 1`
/// gets, for each `p_b` whose leaves can reach it, the `l` whose `n` lies in
/// it.
pub fn compute_s2_easy_segmented(
    x: u64,
    y: usize,
    z: usize,
    primes: &Vec<u32>,
    pi: &Vec<u32>,
    min_b: usize,
    recip: &Vec<u64>,
    seg_size: usize,
) -> (s: i128)
    requires
        easy_setting(x, y, z, primes@, pi@, recip@),
        1 <= min_b,
        min_b < primes.len() ==> (primes@[min_b as int] as int) * (primes@[min_b as int] as int) > y,
        min_b <= primes.len(),
        seg_size >= 1,
        y + seg_size <= usize::MAX,
    ensures
        s == s2_easy_spec(x as int, y as int, z as int, primes@, min_b as int, primes.len() - 1),
{
    let ghost ps = primes@;
    let ghost xi = x as int;
    let ghost yi = y as int;
    let ghost zi = z as int;
    proof {
        lemma_prime_table(ps, yi);
        crate::number_theory::lemma_prime_count_le(y as nat);
        assert(yi <= xi) by (nonlinear_arith)
            requires
                yi * yi <= xi,
                yi >= 1,
        ;
    }
    let pi_y = primes.len() - 1;
    let num_segments = (y + seg_size) / seg_size;
    let mut total: i128 = 0;
    let mut seg_idx: usize = 0;
    proof {
        let tt = (y + seg_size) as int;
        let sg = seg_size as int;
        lemma_fundamental_div_mod(tt, sg);
        let rr = tt % sg;
        assert(tt == sg * num_segments + rr);
        assert(num_segments * sg <= tt && num_segments * sg > yi) by (nonlinear_arith)
            requires
                tt == sg * num_segments + rr,
                0 <= rr < sg,
                tt == yi + sg,
        ;
        assert(s2_easy_window(xi, yi, zi, ps, min_b as int, pi_y as int, 0, 0) == 0) by {
            lemma_window_split(xi, yi, zi, ps, min_b as int, pi_y as int, 0, 0, 0);
        }
    }
    while seg_idx < num_segments
        invariant
            easy_setting(x, y, z, ps, pi@, recip@),
            ps == primes@,
            xi == x,
            yi == y,
            zi == z,
            yi <= xi,
            pi_y == ps.len() - 1,
            ps.len() <= yi + 1,
            1 <= min_b,
            min_b < ps.len() ==> (ps[min_b as int] as int) * (ps[min_b as int] as int) > yi,
            seg_size >= 1,
            y + seg_size <= usize::MAX,
            num_segments * seg_size > yi,
            num_segments * seg_size <= y + seg_size,
            seg_idx <= num_segments,
            total == s2_easy_window(
                xi,
                yi,
                zi,
                ps,
                min_b as int,
                pi_y as int,
                0,
                if seg_idx * seg_size <= yi + 1 { seg_idx * seg_size } else { yi + 1 },
            ),
            min_b <= ps.len(),
        decreases num_segments - seg_idx,
    {
        proof {
            assert(seg_idx * seg_size <= yi) by (nonlinear_arith)
                requires
                    seg_idx + 1 <= num_segments,
                    num_segments * seg_size <= yi + seg_size,
                    seg_size >= 1,
                    seg_idx >= 0,
            ;
        }
        let seg_low = seg_idx * seg_size;
        let seg_high = if seg_low + seg_size < y + 1 {
            seg_low + seg_size
        } else {
            y + 1
        };
        let root: u64 = if seg_low > 0 {
            isqrt(x / seg_low as u64)
        } else {
            0
        };
        let max_b_seg: usize = if seg_low > 0 {
            let bi: usize = if root < y as u64 {
                root as usize
            } else {
                y
            };
            let mb = pi[bi] as usize;
            if mb < pi_y {
                mb
            } else {
                pi_y
            }
        } else {
            pi_y
        };
        let ghost r_root: int = root as int;
        let mut local: i128 = 0;
        let mut b = min_b;
        while b <= max_b_seg
            invariant
                easy_setting(x, y, z, ps, pi@, recip@),
                ps == primes@,
                xi == x,
                yi == y,
                zi == z,
                yi <= xi,
                pi_y == ps.len() - 1,
                ps.len() <= yi + 1,
                1 <= min_b <= b,
                b <= max_b_seg + 1 || b == min_b,
                max_b_seg <= pi_y,
                min_b < ps.len() ==> (ps[min_b as int] as int) * (ps[min_b as int] as int) > yi,
                0 <= seg_low < seg_high <= yi + 1,
                local == s2_easy_window(xi, yi, zi, ps, min_b as int, b - 1, seg_low as int, seg_high as int),
                min_b <= ps.len(),
            decreases max_b_seg + 1 - b,
        {
            proof {
                lemma_above_sqrt(ps, yi, min_b as int, b as int);
            }
            let prime = primes[b] as u64;
            let xp = x / prime;
            let l_hi: usize = if seg_low == 0 {
                pi_y
            } else {
                let t = xp / seg_low as u64;
                let ti: usize = if t < y as u64 {
                    t as usize
                } else {
                    y
                };
                pi[ti] as usize
            };
            let l_lo: usize = if seg_high as u64 > xp {
                0
            } else {
                let t = xp / seg_high as u64;
                let ti: usize = if t < y as u64 {
                    t as usize
                } else {
                    y
                };
                pi[ti] as usize
            };
            let z_over_p = z / prime as usize;
            let zi_p: usize = if z_over_p < y {
                z_over_p
            } else {
                y
            };
            let easy_start_l = pi[zi_p] as usize;
            let min_l_b = if easy_start_l > b {
                easy_start_l
            } else {
                b
            };
            let eff_lo = if l_lo > min_l_b {
                l_lo
            } else {
                min_l_b
            };
            let eff_hi = if l_hi < pi_y {
                l_hi
            } else {
                pi_y
            };
            let ghost a = min_l_b as int;
            proof {
                assert(a == easy_first(yi, zi, ps, b as int));
                let e = pi_y as int;
                assert forall|l: int| a < l <= e implies 0 <= #[trigger] leaf_n(xi, ps, b as int, ps[l] as int) <= xi by {
                    lemma_leaf_n_range(xi, yi, ps, b as int, l);
                }
                assert forall|l: int| a < l <= e implies (seg_low <= #[trigger] leaf_n(xi, ps, b as int, ps[l] as int)
                    < seg_high) == (l_lo < l <= l_hi) by {
                    lemma_window_band(xi, yi, ps, b as int, l, seg_low as int, seg_high as int, l_lo as int, l_hi as int);
                }
                if a <= e {
                    lemma_easy_row_band(xi, ps, b as int, a, e, seg_low as int, seg_high as int, l_lo as int, l_hi as int);
                }
            }
            if eff_lo < eff_hi {
                let r = easy_span(x, y, z, b, eff_lo, eff_hi, primes, pi, recip);
                proof {
                    lemma_window_bound(xi, yi, zi, ps, min_b as int, b as int, seg_low as int, seg_high as int);
                    assert((b + 1 - min_b) * (yi * xi) <= yi * (yi * xi)) by (nonlinear_arith)
                        requires
                            0 <= b + 1 - min_b <= yi,
                            yi * xi >= 0,
                    ;
                    assert(yi * (yi * xi) < 0x8000_0000 * (0x8000_0000 * 0x8000_0000_0000_0000)) by (nonlinear_arith)
                        requires
                            0 <= yi < 0x8000_0000,
                            0 <= xi < 0x8000_0000_0000_0000,
                    ;
                }
                local = local + r;
            }
            b = b + 1;
        }
        // the rows past max_b_seg have no leaves in the window
        proof {
            let last = if b - 1 < min_b - 1 { min_b - 1 } else { b - 1 };
            assert forall|bb: int| last < bb <= pi_y implies #[trigger] easy_row(
                xi,
                ps,
                bb,
                easy_first(yi, zi, ps, bb),
                ps.len() - 1,
                seg_low as int,
                seg_high as int,
            ) == 0 by {
                if easy_first(yi, zi, ps, bb) <= ps.len() - 1 {
                    assert forall|l: int| easy_first(yi, zi, ps, bb) < l < ps.len() implies !(seg_low <= #[trigger] leaf_n(
                        xi,
                        ps,
                        bb,
                        ps[l] as int,
                    ) < seg_high) by {
                        lemma_beyond_segment(xi, yi, zi, ps, bb, seg_low as int, r_root, l);
                    }
                    lemma_row_outside(xi, yi, zi, ps, bb, seg_low as int, seg_high as int);
                }
            }
            lemma_window_tail(xi, yi, zi, ps, min_b as int, last, pi_y as int, seg_low as int, seg_high as int);
            lemma_window_split(xi, yi, zi, ps, min_b as int, pi_y as int, 0, seg_low as int, seg_high as int);
            lemma_window_bound(xi, yi, zi, ps, min_b as int, pi_y as int, 0, seg_high as int);
            lemma_window_bound(xi, yi, zi, ps, min_b as int, pi_y as int, 0, seg_low as int);
            lemma_window_bound(xi, yi, zi, ps, min_b as int, pi_y as int, seg_low as int, seg_high as int);
            assert((pi_y + 1 - min_b) * (yi * xi) <= yi * (yi * xi)) by (nonlinear_arith)
                requires
                    0 <= pi_y + 1 - min_b <= yi,
                    yi * xi >= 0,
            ;
            assert(yi * (yi * xi) < 0x8000_0000 * (0x8000_0000 * 0x8000_0000_0000_0000)) by (nonlinear_arith)
                requires
                    0 <= yi < 0x8000_0000,
                    0 <= xi < 0x8000_0000_0000_0000,
            ;
        }
        proof {
            assert((seg_idx + 1) * seg_size == seg_low + seg_size) by (nonlinear_arith)
                requires
                    seg_low == seg_idx * seg_size,
            ;
        }
        total = total + local;
        seg_idx = seg_idx + 1;
    }
    proof {
        assert forall|bb: int| min_b - 1 < bb <= pi_y implies #[trigger] easy_row(
            xi,
            ps,
            bb,
            easy_first(yi, zi, ps, bb),
            ps.len() - 1,
            yi + 1,
            xi + 1,
        ) == 0 by {
            if easy_first(yi, zi, ps, bb) <= ps.len() - 1 {
                assert forall|l: int| easy_first(yi, zi, ps, bb) < l < ps.len() implies !(yi + 1 <= #[trigger] leaf_n(
                    xi,
                    ps,
                    bb,
                    ps[l] as int,
                ) < xi + 1) by {
                    lemma_easy_below_y(xi, yi, zi, ps, bb, l);
                }
                lemma_row_outside(xi, yi, zi, ps, bb, yi + 1, xi + 1);
            }
        }
        lemma_window_tail(xi, yi, zi, ps, min_b as int, min_b - 1, pi_y as int, yi + 1, xi + 1);
        assert(s2_easy_window(xi, yi, zi, ps, min_b as int, min_b - 1, yi + 1, xi + 1) == 0);
        lemma_window_split(xi, yi, zi, ps, min_b as int, pi_y as int, 0, yi + 1, xi + 1);
        lemma_window_full(xi, yi, zi, ps, min_b as int, pi_y as int);
    }
    total
}


/// The first `b` of the easy leaves with the first `c` primes pre-sieved:
/// `max(c, pi(isqrt(y))) + 1`.
pub open spec fn easy_min_b(y: int, c: int) -> int {
    let r = choose|r: int| is_sqrt(y, r);
    let k = prime_count(r as nat) as int;
    (if c > k { c } else { k }) + 1
}

/// The cache size below which the pi table is read directly.
pub const L3_BYTES: u64 = 36 * 1024 * 1024;

/// S2_easy: the easy leaves of the primes above `sqrt(y)` and past the
/// first `c`, read straight from the pi table when it fits in `L3_BYTES`,
/// else window by window of `seg_size` numbers.
pub fn compute_s2_easy(
    x: u64,
    y: usize,
    z: usize,
    c: usize,
    primes: &Vec<u32>,
    pi: &Vec<u32>,
    seg_size: usize,
) -> (s: i128)
    requires
        x < 0x8000_0000_0000_0000,
        1 <= y < NO_FACTOR,
        (y as int) * (y as int) <= x,
        z == x / (y as u64),
        prime_table(primes@, y as int),
        pi.len() == y + 1,
        forall|n: int| 0 <= n <= y ==> #[trigger] pi@[n] == prime_count(n as nat),
        c < primes.len(),
        (y as int + 1) * 4 > L3_BYTES ==> seg_size >= 1 && y + seg_size <= usize::MAX,
    ensures
        s == s2_easy_spec(x as int, y as int, z as int, primes@, easy_min_b(y as int, c as int), primes.len() - 1),
{
    let ghost ps = primes@;
    proof {
        lemma_prime_table(ps, y as int);
        crate::number_theory::lemma_prime_count_le(y as nat);
    }
    let pi_y = pi[y] as usize;
    let sqrt_y = isqrt(y as u64);
    proof {
        assert(sqrt_y <= y) by (nonlinear_arith)
            requires
                sqrt_y * sqrt_y <= y,
                y >= 1,
        ;
        assert(is_sqrt(y as int, sqrt_y as int));
        let r = choose|r: int| is_sqrt(y as int, r);
        crate::roots::lemma_sqrt_unique(y as int, r, sqrt_y as int);
        crate::number_theory::lemma_prime_count_le(sqrt_y as nat);
    }
    let pi_sqrty = pi[sqrt_y as usize] as usize;
    let min_b = (if c > pi_sqrty {
        c
    } else {
        pi_sqrty
    }) + 1;
    if min_b > pi_y {
        return 0;
    }
    proof {
        lemma_index_le(ps, y as int, min_b as int, sqrt_y as int);
        let p = ps[min_b as int] as int;
        assert(p * p > y) by (nonlinear_arith)
            requires
                p >= sqrt_y + 1,
                y < (sqrt_y + 1) * (sqrt_y + 1),
                sqrt_y >= 0,
        ;
    }
    let recip = prime_reciprocals(primes);
    let pi_table_bytes = (y as u64 + 1) * 4;
    if pi_table_bytes <= L3_BYTES {
        compute_s2_easy_direct(x, y, z, primes, pi, min_b, &recip)
    } else {
        compute_s2_easy_segmented(x, y, z, primes, pi, min_b, &recip, seg_size)
    }
}


/// The special leaves of `p_b`, `b` in `[lo_b, hi_b]`, with `n >= y`.
pub open spec fn hard_rows(x: int, y: int, ps: Seq<u32>, lo_b: int, hi_b: int) -> int
    decreases hi_b + 1 - lo_b,
{
    if hi_b < lo_b {
        0
    } else {
        hard_rows(x, y, ps, lo_b, hi_b - 1) + leaf_row(x, y, ps, hi_b, 0, y, y, x + 1)
    }
}

/// S2_hard with the first `c` primes pre-sieved: every special leaf of the
/// primes up to `sqrt(y)`, and beyond them the leaves with `n >= y`.
pub open spec fn s2_hard_spec(x: int, y: int, ps: Seq<u32>, c: int, min_b: int) -> int {
    let a = ps.len() - 1;
    leaf_rows(x, y, ps, c, if min_b - 1 < a - 1 { min_b - 1 } else { a - 1 }, 0, x + 1) + hard_rows(
        x,
        y,
        ps,
        min_b,
        a - 1,
    )
}

/// Sums of rows over `b` concatenate.
proof fn lemma_rows_concat(x: int, y: int, ps: Seq<u32>, c: int, d: int, e: int)
    requires
        c <= d <= e,
    ensures
        leaf_rows(x, y, ps, c, e, 0, x + 1) == leaf_rows(x, y, ps, c, d, 0, x + 1) + leaf_rows(x, y, ps, d, e, 0, x + 1),
    decreases e - d,
{
    if e > d {
        lemma_rows_concat(x, y, ps, c, d, e - 1);
    }
}

/// Above `sqrt(y)`, the leaves of `p_b` with `n < y` are its easy leaves.
pub proof fn lemma_easy_row_is_leaves(x: int, y: int, z: int, ps: Seq<u32>, b: int)
    requires
        prime_table(ps, y),
        1 <= y < NO_FACTOR,
        y * y <= x,
        z == x / y,
        1 <= b < ps.len(),
        (ps[b] as int) * (ps[b] as int) > y,
    ensures
        leaf_row(x, y, ps, b, 0, y, 0, y) == easy_row(x, ps, b, easy_first(y, z, ps, b), ps.len() - 1, 0, x + 1),
{
    lemma_prime_table(ps, y);
    let a = ps.len() - 1;
    let p = ps[b] as int;
    let pa = ps[a] as int;
    let ef = easy_first(y, z, ps, b);
    // the row lives on the primes p_(b+1) .. p_a
    crate::special_leaves::lemma_easy_rows(x, y, ps, b, b, a, 0, y);
    if b < a {
        assert(ps[b] < ps[a]);
    }
    crate::special_leaves::lemma_row_concat(x, y, ps, b, 0, p, y, 0, y);
    crate::special_leaves::lemma_row_concat(x, y, ps, b, p, pa, y, 0, y);
    assert forall|m: int| 0 < m <= p && #[trigger] crate::special_leaves::is_special_leaf(y, ps, b, m) && 0 <= leaf_n(
        x,
        ps,
        b,
        m,
    ) < y implies leaf_n(x, ps, b, m) <= 0 && 0 > 0 by {
        crate::special_leaves::lemma_easy_leaf(y, ps, b, m);
    }
    crate::special_leaves::lemma_row_zero(x, y, ps, b, 0, p, 0, y);
    assert forall|m: int| pa < m <= y && #[trigger] crate::special_leaves::is_special_leaf(y, ps, b, m) && 0 <= leaf_n(
        x,
        ps,
        b,
        m,
    ) < y implies leaf_n(x, ps, b, m) <= 0 && 0 > 0 by {
        crate::special_leaves::lemma_easy_leaf(y, ps, b, m);
        lemma_prime_table_floor(ps, y, y);
        let k = prime_count(m as nat) as int;
        assert(ps[k] == m);
        if k < a {
            assert(ps[k] < ps[a]);
        }
    }
    crate::special_leaves::lemma_row_zero(x, y, ps, b, pa, y, 0, y);
    // among them, n < y exactly past easy_first
    assert forall|l: int| b < l <= a implies 0 <= #[trigger] leaf_n(x, ps, b, ps[l] as int) <= x by {
        lemma_leaf_n_range(x, y, ps, b, l);
    }
    assert forall|l: int| b < l <= a implies (0 <= #[trigger] leaf_n(x, ps, b, ps[l] as int) < y) == (ef < l <= a) by {
        lemma_leaf_n_range(x, y, ps, b, l);
        if l > ef {
            lemma_easy_below_y(x, y, z, ps, b, l);
        } else {
            let q = ps[l] as int;
            let zt = z / p;
            let t = if zt <= y { zt } else { y };
            lemma_div_pos_is_pos(x, y);
            lemma_div_pos_is_pos(z, p);
            lemma_index_le(ps, y, l, t);
            assert(q <= zt);
            lemma_div_denominator(x, y, p);
            lemma_div_denominator(x, p, y);
            assert(y * p == p * y) by (nonlinear_arith);
            lemma_div_pos_is_pos(x, p);
            lemma_floor_swap(x / p, q, y);
        }
    }
    lemma_easy_row_band(x, ps, b, b, a, 0, y, ef, a);
}

/// The Deleglise-Rivat split of S2: with `min_b = max(c, pi(sqrt(y))) + 1`,
/// the special leaves are the hard ones and the easy ones, each once.
pub proof fn lemma_s2_split(x: int, y: int, z: int, ps: Seq<u32>, c: int)
    requires
        prime_table(ps, y),
        1 <= y < NO_FACTOR,
        y * y <= x,
        z == x / y,
        0 <= c < ps.len(),
    ensures
        s2_spec(x, y, ps, c) == s2_hard_spec(x, y, ps, c, easy_min_b(y, c)) + s2_easy_spec(
            x,
            y,
            z,
            ps,
            easy_min_b(y, c),
            ps.len() - 1,
        ),
{
    lemma_prime_table(ps, y);
    let a = ps.len() - 1;
    let min_b = easy_min_b(y, c);
    lemma_isqrt_exists(y, 0);
    let r = choose|r: int| is_sqrt(y, r);
    assert(is_sqrt(y, r));
    assert(r <= y) by (nonlinear_arith)
        requires
            r * r <= y,
            r >= 0,
            y >= 1,
    ;
    crate::number_theory::lemma_prime_count_le(r as nat);
    if min_b - 1 < a - 1 {
        lemma_rows_concat(x, y, ps, c, min_b - 1, a - 1);
        lemma_split_from(x, y, z, ps, min_b, a - 1, r);
        // the last prime has no easy leaves
        assert(s2_easy_spec(x, y, z, ps, min_b, a) == s2_easy_spec(x, y, z, ps, min_b, a - 1));
    } else {
        assert(hard_rows(x, y, ps, min_b, a - 1) == 0);
        lemma_easy_spec_empty(x, y, z, ps, min_b, a);
    }
}

/// No `b` past the last prime but one has easy leaves.
proof fn lemma_easy_spec_empty(x: int, y: int, z: int, ps: Seq<u32>, lo_b: int, hi_b: int)
    requires
        hi_b == ps.len() - 1,
        lo_b >= hi_b,
    ensures
        s2_easy_spec(x, y, z, ps, lo_b, hi_b) == 0,
{
    if lo_b == hi_b {
        assert(s2_easy_spec(x, y, z, ps, lo_b, hi_b - 1) == 0);
    }
}

/// For `b` in `[lo_b, hi_b]` above `sqrt(y)`, each row is its hard part plus
/// its easy part.
proof fn lemma_split_from(x: int, y: int, z: int, ps: Seq<u32>, lo_b: int, hi_b: int, r: int)
    requires
        prime_table(ps, y),
        1 <= y < NO_FACTOR,
        y * y <= x,
        z == x / y,
        is_sqrt(y, r),
        lo_b > prime_count(r as nat),
        1 <= lo_b,
        lo_b - 1 <= hi_b < ps.len() - 1,
    ensures
        leaf_rows(x, y, ps, lo_b - 1, hi_b, 0, x + 1) == hard_rows(x, y, ps, lo_b, hi_b) + s2_easy_spec(
            x,
            y,
            z,
            ps,
            lo_b,
            hi_b,
        ),
    decreases hi_b + 1 - lo_b,
{
    if hi_b >= lo_b {
        lemma_split_from(x, y, z, ps, lo_b, hi_b - 1, r);
        assert(r <= y) by (nonlinear_arith)
            requires
                r * r <= y,
                r >= 0,
                y >= 1,
        ;
        lemma_index_le(ps, y, hi_b, r);
        let p = ps[hi_b] as int;
        assert(p * p > y) by (nonlinear_arith)
            requires
                p >= r + 1,
                y < (r + 1) * (r + 1),
                r >= 0,
        ;
        assert(y <= x) by (nonlinear_arith)
            requires
                y * y <= x,
                y >= 1,
        ;
        crate::special_leaves::lemma_row_split_n(x, y, ps, hi_b, 0, y, 0, y, x + 1);
        lemma_easy_row_is_leaves(x, y, z, ps, hi_b);
    }
}

proof fn lemma_isqrt_exists(y: int, a: int)
    requires
        y >= 0,
        0 <= a,
        a * a <= y,
    ensures
        exists|s: int| is_sqrt(y, s),
    decreases y - a,
{
    if (a + 1) * (a + 1) > y {
        assert(is_sqrt(y, a));
    } else {
        assert(a + 1 <= y) by (nonlinear_arith)
            requires
                (a + 1) * (a + 1) <= y,
                a >= 0,
        ;
        lemma_isqrt_exists(y, a + 1);
    }
}

} // verus!
