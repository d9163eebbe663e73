//! C1 of Gourdon's decomposition: for the primes `p_b` from
//! `max(k, pi(cbrt(x / z))) + 1` up to `pi(sqrt(z))`, the squarefree
//! `y`-smooth `m` made of primes past `p_b` with `min_m < m <= max_m`, each
//! adding `-mu(m) * (pi(x / (p_b * m)) - b + 2)`.

use vstd::prelude::*;
use vstd::arithmetic::div_mod::*;
use crate::number_theory::{prime_count, lemma_euclid};
use crate::special_leaves::{prime_table, lemma_prime_table};
use crate::tables::mobius;
use crate::odd_sieve::CompactPi;
use crate::roots::{isqrt, icbrt};
use crate::lmo::{is_sqrt, cube_root, lemma_cube_root};
use crate::leaf_identity::{sum_to, divides, lemma_mobius_times_prime, lemma_table_divides};
use crate::squarefree_tree::{
    node_sum, node_children, lemma_node_split, lemma_node_child, lemma_node_beyond, lemma_node_bounds,
    lemma_sum_tail_zero,
};

verus! {

/// The value C1 gives a product `m` of the prime `p_b`: past `min_m`,
/// `phi(x / (p_b * m), b - 1)` taken as `pi(x / (p_b * m)) - b + 2`, with pi
/// read up to `lim`.
pub open spec fn c1_values(xp: int, b: int, min_m: int, lim: int) -> spec_fn(int) -> int {
    |m: int|
        if m > min_m {
            prime_count((if xp / m <= lim { xp / m } else { lim }) as nat) - b + 2
        } else {
            0
        }
}

/// The largest `m` of the prime `p_b`: `min(x / p_b^2, z)`.
pub open spec fn c1_max_m(x: int, z: int, p: int) -> int {
    let t = (x / p) / p;
    if t <= z {
        t
    } else {
        z
    }
}

/// The bound that `m` of the prime `p_b` exceeds: `max(x / p_b^3, z / p_b)`,
/// at most `c1_max_m`.
pub open spec fn c1_min_m(x: int, z: int, p: int) -> int {
    let a = (x / p) / (p * p);
    let c = z / p;
    let t = if a > c { a } else { c };
    let mm = c1_max_m(x, z, p);
    if t <= mm {
        t
    } else {
        mm
    }
}

/// The C1 terms of the prime `p_b`, summed.
pub open spec fn c1_row(x: int, y: int, z: int, ps: Seq<u32>, lim: int, b: int) -> int {
    let p = ps[b] as int;
    node_sum(y, c1_max_m(x, z, p), ps, c1_values(x / p, b, c1_min_m(x, z, p), lim), 1, b)
}

pub open spec fn c1_rows(x: int, y: int, z: int, ps: Seq<u32>, lim: int) -> spec_fn(int) -> int {
    |b: int| c1_row(x, y, z, ps, lim, b)
}

/// The first prime of C1: `max(k, pi(cbrt(x / z))) + 1`, with pi read up
/// to `lim`.
pub open spec fn c1_first_b(x: int, z: int, k: int, lim: int) -> int {
    let c = cube_root(x / z);
    let t = prime_count((if c <= lim { c } else { lim }) as nat) as int;
    (if k > t { k } else { t }) + 1
}

/// The end of the primes of C1: one past `min(pi(sqrt(z)), pi(y))`, with pi
/// read up to `lim`.
pub open spec fn c1_end_b(z: int, ps: Seq<u32>, lim: int) -> int {
    let s = choose|s: int| is_sqrt(z, s);
    let t = prime_count((if s <= lim { s } else { lim }) as nat) as int;
    if t + 1 < ps.len() {
        t + 1
    } else {
        ps.len() as int
    }
}

/// The values are at most the table's reach plus `b + 2` in size.
proof fn lemma_c1_values_bound(xp: int, b: int, min_m: int, lim: int, z: int)
    requires
        xp >= 0,
        lim >= 0,
        b >= 0,
    ensures
        forall|t: int| 1 <= t <= z ==> -(lim + b + 2) <= #[trigger] c1_values(xp, b, min_m, lim)(t) <= lim + b + 2,
{
    assert forall|t: int| 1 <= t <= z implies -(lim + b + 2) <= #[trigger] c1_values(xp, b, min_m, lim)(t) <= lim + b
        + 2 by {
        lemma_div_pos_is_pos(xp, t);
        let u = if xp / t <= lim { xp / t } else { lim };
        crate::number_theory::lemma_prime_count_le(u as nat);
    }
}

/// The products below the node `m` of depth `i` for the prime `p_b`, as
/// products `m * p_j * ...` of increasing primes up to `max_m`, each past
/// `min_m` adding `mu * (pi(xp / m) - b + 2)`; `mu_sign` is `mu` of the
/// children.
fn c1_recursive(
    xp: u64,
    b: usize,
    i: usize,
    pi_y: usize,
    m: u64,
    min_m: usize,
    max_m: usize,
    mu_sign: i64,
    primes: &Vec<u32>,
    pi: &CompactPi,
    Ghost(y): Ghost<int>,
) -> (r: i128)
    requires
        prime_table(primes@, y),
        1 <= y < 0x8000_0000,
        pi.wf(),
        pi_y + 1 == primes.len(),
        max_m < 0x4000_0000_0000_0000,
        1 <= m,
        b <= pi_y,
        i < primes.len(),
        forall|t: int| i < t < primes.len() ==> !#[trigger] divides(primes@[t] as int, m as int),
        mu_sign == -mobius(m as int),
    ensures
        r == node_sum(
            y,
            max_m as int,
            primes@,
            c1_values(xp as int, b as int, min_m as int, pi.limit as int),
            m as int,
            i as int,
        ),
    decreases primes.len() - i,
{
    let ghost ps = primes@;
    let ghost zi = max_m as int;
    let ghost sf = m as int;
    let ghost v = c1_values(xp as int, b as int, min_m as int, pi.limit as int);
    let ghost bound = pi.limit + b + 2;
    proof {
        lemma_prime_table(ps, y);
        crate::number_theory::lemma_prime_count_le(y as nat);
        lemma_node_split(y, zi, ps, v, sf, i as int);
        crate::tables::lemma_mobius_range_pub(sf);
        lemma_c1_values_bound(xp as int, b as int, min_m as int, pi.limit as int, zi);
        assert(0 <= zi * bound < 0x4000_0000_0000_0000 * 0x2_0000_0000) by (nonlinear_arith)
            requires
                0 <= zi < 0x4000_0000_0000_0000,
                0 <= bound < 0x2_0000_0000,
        ;
        assert(-zi * bound == -(zi * bound)) by (nonlinear_arith);
    }
    let mut sum: i128 = 0;
    let y_limit = pi.len() - 1;
    let mut j = i + 1;
    while j <= pi_y
        invariant
            prime_table(ps, y),
            ps == primes@,
            1 <= y < 0x8000_0000,
            ps.len() <= y + 1,
            pi.wf(),
            y_limit == pi.limit,
            pi_y + 1 == primes.len(),
            zi == max_m,
            sf == m,
            v == c1_values(xp as int, b as int, min_m as int, pi.limit as int),
            bound == pi.limit + b + 2,
            forall|t: int| 1 <= t <= zi ==> -bound <= #[trigger] v(t) <= bound,
            0 <= zi * bound < 0x4000_0000_0000_0000 * 0x2_0000_0000,
            -zi * bound == -(zi * bound),
            max_m < 0x4000_0000_0000_0000,
            1 <= m,
            b <= pi_y,
            i < primes.len(),
            forall|t: int| i < t < ps.len() ==> !#[trigger] divides(ps[t] as int, sf),
            mu_sign == -mobius(sf),
            -1 <= mu_sign <= 1,
            i + 1 <= j <= pi_y + 1,
            sum == sum_to(node_children(y, zi, ps, v, sf), i + 1, j as int),
            node_sum(y, zi, ps, v, sf, i as int) == sum_to(node_children(y, zi, ps, v, sf), i + 1, ps.len() as int),
        decreases pi_y + 1 - j,
    {
        let q = primes[j];
        proof {
            assert(ps[j as int] >= 2);
            assert((m as int) * (q as int) <= 0xffff_ffff_ffff_ffff * 0xffff_ffff) by (nonlinear_arith)
                requires
                    m <= 0xffff_ffff_ffff_ffff,
                    q <= 0xffff_ffff,
            ;
        }
        let next = m as u128 * q as u128;
        if next > max_m as u128 {
            proof {
                lemma_prime_table(ps, y);
                assert forall|t: int| j <= t < ps.len() implies #[trigger] node_children(y, zi, ps, v, sf)(t) == 0 by {
                    let qt = ps[t] as int;
                    if t > j {
                        assert(ps[j as int] < ps[t]);
                    }
                    assert(sf * qt >= sf * (q as int)) by (nonlinear_arith)
                        requires
                            qt >= q,
                            sf >= 1,
                    ;
                    lemma_node_child(y, zi, ps, v, sf, t);
                    lemma_node_beyond(y, zi, ps, v, sf * qt, t);
                }
                lemma_sum_tail_zero(node_children(y, zi, ps, v, sf), i + 1, j as int, ps.len() as int);
            }
            return sum;
        }
        let next = next as u64;
        let ghost mm = next as int;
        proof {
            assert(mm >= 2) by (nonlinear_arith)
                requires
                    mm == sf * (q as int),
                    sf >= 1,
                    q >= 2,
            ;
            lemma_node_child(y, zi, ps, v, sf, j as int);
            assert(!divides(q as int, sf));
            lemma_mobius_times_prime(sf, q as int);
            crate::tables::lemma_mobius_range_pub(mm);
            assert forall|t: int| j < t < ps.len() implies !#[trigger] divides(ps[t] as int, mm) by {
                if divides(ps[t] as int, mm) {
                    assert(!divides(ps[t] as int, sf));
                    lemma_euclid(ps[t] as int, sf, q as int);
                    if divides(ps[t] as int, q as int) {
                        lemma_table_divides(ps, y, t, j as int);
                    }
                }
            }
            lemma_node_bounds(y, zi, ps, v, sf, i as int, j as int, bound);
            lemma_node_bounds(y, zi, ps, v, mm, j as int, j as int + 1, bound);
        }
        let mut own: i128 = 0;
        if next as usize > min_m {
            let xpm = xp / next;
            let idx: usize = if xpm < y_limit as u64 {
                xpm as usize
            } else {
                y_limit
            };
            let phi_xpm = pi.get(idx) as i64 - b as i64 + 2;
            proof {
                assert(-0x1_0000_0000 <= phi_xpm <= 0x1_0000_0002);
                assert(-0x1_0000_0002 <= phi_xpm * mu_sign <= 0x1_0000_0002) by (nonlinear_arith)
                    requires
                        -0x1_0000_0000 <= phi_xpm <= 0x1_0000_0002,
                        -1 <= mu_sign <= 1,
                ;
            }
            own = phi_xpm as i128 * mu_sign as i128;
            proof {
                assert(v(mm) == phi_xpm);
                assert(own == mobius(mm) * v(mm)) by (nonlinear_arith)
                    requires
                        own == phi_xpm * mu_sign,
                        mu_sign == mobius(mm),
                        v(mm) == phi_xpm,
                ;
            }
        } else {
            proof {
                assert(v(mm) == 0);
                assert(mobius(mm) * v(mm) == 0) by (nonlinear_arith)
                    requires
                        v(mm) == 0,
                ;
            }
        }
        proof {
            assert(-bound <= v(mm) <= bound);
            crate::tables::lemma_mobius_range_pub(mm);
            assert(-bound <= mobius(mm) * v(mm) <= bound) by (nonlinear_arith)
                requires
                    -1 <= mobius(mm) <= 1,
                    -bound <= v(mm) <= bound,
            ;
        }
        let below = c1_recursive(xp, b, j, pi_y, next, min_m, max_m, -mu_sign, primes, pi, Ghost(y));
        sum = sum + own;
        sum = sum + below;
        j = j + 1;
    }
    sum
}


/// C1: for each prime `p_b` from `c1_first_b` to `c1_end_b`, with
/// `max_m = min(x / p_b^2, z)` and `min_m = min(max(x / p_b^3, z / p_b), max_m)`,
/// minus the products below `p_b`.
pub fn compute_c1(x: u64, y: usize, z: usize, k: usize, primes: &Vec<u32>, pi: &CompactPi) -> (r: i128)
    requires
        prime_table(primes@, y as int),
        1 <= y < 0x8000_0000,
        pi.wf(),
        y <= pi.limit,
        1 <= z < 0x4000_0000_0000_0000,
        k < 0x8000_0000,
    ensures
        r == -sum_to(
            c1_rows(x as int, y as int, z as int, primes@, pi.limit as int),
            c1_first_b(x as int, z as int, k as int, pi.limit as int),
            c1_end_b(z as int, primes@, pi.limit as int),
        ),
{
    let ghost ps = primes@;
    let ghost lim = pi.limit as int;
    proof {
        lemma_prime_table(ps, y as int);
        crate::number_theory::lemma_prime_count_le(y as nat);
        crate::number_theory::lemma_prime_count_le(pi.limit as nat);
    }
    let pi_limit = pi.len() - 1;
    let sqrt_z = isqrt(z as u64);
    proof {
        assert(sqrt_z <= z) by (nonlinear_arith)
            requires
                sqrt_z * sqrt_z <= z,
                z >= 1,
        ;
        assert(is_sqrt(z as int, sqrt_z as int));
        let s0 = choose|s: int| is_sqrt(z as int, s);
        crate::roots::lemma_sqrt_unique(z as int, s0, sqrt_z as int);
    }
    let pi_y = pi.get(y) as usize;
    let si: usize = if sqrt_z < pi_limit as u64 {
        sqrt_z as usize
    } else {
        pi_limit
    };
    let pi_sqrtz = pi.get(si) as usize;
    let w = x / z as u64;
    let cr = icbrt(w);
    proof {
        lemma_cube_root(w as int, cr as int);
    }
    let ci: usize = if cr < pi_limit as u64 {
        cr as usize
    } else {
        pi_limit
    };
    let pi_root3_xz = pi.get(ci) as usize;
    proof {
        crate::number_theory::lemma_prime_count_le(ci as nat);
        crate::number_theory::lemma_prime_count_le(si as nat);
    }
    let min_c1_b = (if k > pi_root3_xz {
        k
    } else {
        pi_root3_xz
    }) + 1;
    let nprimes = primes.len();
    let end_b = if pi_sqrtz + 1 < nprimes {
        pi_sqrtz + 1
    } else {
        nprimes
    };
    let ghost first = min_c1_b as int;
    let ghost bound = pi.limit + ps.len() + 2;
    proof {
        assert(first == c1_first_b(x as int, z as int, k as int, lim));
        assert(end_b == c1_end_b(z as int, ps, lim));
        assert(0 <= (z as int) * bound < 0x4000_0000_0000_0000 * 0x2_0000_0000) by (nonlinear_arith)
            requires
                0 <= z < 0x4000_0000_0000_0000,
                0 <= bound < 0x2_0000_0000,
        ;
    }
    let mut total: i128 = 0;
    let mut b = min_c1_b;
    while b < end_b
        invariant
            prime_table(ps, y as int),
            ps == primes@,
            1 <= y < 0x8000_0000,
            ps.len() <= y + 1,
            pi.wf(),
            lim == pi.limit,
            pi_y == ps.len() - 1,
            nprimes == ps.len(),
            1 <= z < 0x4000_0000_0000_0000,
            end_b <= nprimes,
            1 <= first <= b,
            b <= end_b || b == first,
            bound == pi.limit + ps.len() + 2,
            0 <= (z as int) * bound < 0x4000_0000_0000_0000 * 0x2_0000_0000,
            total == -sum_to(c1_rows(x as int, y as int, z as int, ps, lim), first, b as int),
            -(b - first) * ((z as int) * bound) <= total <= (b - first) * ((z as int) * bound),
        decreases end_b - b,
    {
        let prime = primes[b] as u64;
        let ghost p = prime as int;
        proof {
            lemma_prime_table(ps, y as int);
            assert(2 <= p <= y);
            assert(4 <= p * p < 0x4000_0000_0000_0000) by (nonlinear_arith)
                requires
                    2 <= p < 0x8000_0000,
            ;
        }
        let xp = x / prime;
        let t = xp / prime;
        let max_m: usize = if t < z as u64 {
            t as usize
        } else {
            z
        };
        let a = xp / (prime * prime);
        let c = z / prime as usize;
        let mx: u64 = if a > c as u64 {
            a
        } else {
            c as u64
        };
        let min_m_val: usize = if mx < max_m as u64 {
            mx as usize
        } else {
            max_m
        };
        proof {
            assert(max_m == c1_max_m(x as int, z as int, p));
            assert(min_m_val == c1_min_m(x as int, z as int, p));
            assert forall|t2: int| b < t2 < ps.len() implies !#[trigger] divides(ps[t2] as int, 1) by {
                lemma_small_mod(1, ps[t2] as nat);
            }
            assert(mobius(1) == 1);
            lemma_c1_values_bound(xp as int, b as int, min_m_val as int, lim, max_m as int);
            let v = c1_values(xp as int, b as int, min_m_val as int, lim);
            assert forall|t2: int| 1 <= t2 <= max_m implies -bound <= #[trigger] v(t2) <= bound by {}
            lemma_node_bounds(y as int, max_m as int, ps, v, 1, b as int, b as int + 1, bound);
            assert((max_m as int) * bound <= (z as int) * bound) by (nonlinear_arith)
                requires
                    max_m <= z,
                    bound >= 0,
            ;
            assert(-(max_m as int) * bound == -((max_m as int) * bound)) by (nonlinear_arith);
            assert((b + 1 - first) * ((z as int) * bound) == (b - first) * ((z as int) * bound) + (z as int) * bound)
                by (nonlinear_arith);
            assert((b + 1 - first) * ((z as int) * bound) <= 0x8000_0000 * (0x4000_0000_0000_0000 * 0x2_0000_0000)) by (
            nonlinear_arith)
                requires
                    0 <= b + 1 - first <= 0x8000_0000,
                    0 <= (z as int) * bound < 0x4000_0000_0000_0000 * 0x2_0000_0000,
            ;
            assert(-(b + 1 - first) * ((z as int) * bound) == -((b + 1 - first) * ((z as int) * bound))) by (
            nonlinear_arith);
            assert(-(b - first) * ((z as int) * bound) == -((b - first) * ((z as int) * bound))) by (nonlinear_arith);
        }
        let row = c1_recursive(xp, b, b, pi_y, 1, min_m_val, max_m, -1, primes, pi, Ghost(y as int));
        total = total - row;
        b = b + 1;
    }
    total
}

} // verus!
