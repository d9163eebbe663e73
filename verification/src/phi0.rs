//! Phi0 of Gourdon's decomposition: the ordinary leaves up to `z`, that is
//! `mu(n) * phi(x / n, k)` over the squarefree `y`-smooth `n <= z` free of
//! the first `k` primes, enumerated as products of increasing primes of a
//! table of the primes up to `y`.

use vstd::prelude::*;
use vstd::arithmetic::div_mod::*;
use crate::number_theory::lemma_euclid;
use crate::special_leaves::{prime_table, lemma_prime_table};
use crate::tables::{mobius, phi_tiny_spec, y_smooth_spec, PhiTinyCache};
use crate::leaf_identity::{
    sum_to, divides, factors_within, lemma_sum_add, lemma_sum_single, lemma_mobius_times_prime, lemma_table_divides,
};
use crate::squarefree_tree::{
    node_terms, node_sum, node_children, lemma_node_split, lemma_node_child, lemma_node_beyond, lemma_node_none,
    lemma_node_bounds, lemma_sum_tail_zero,
};

verus! {

/// `phi(x / n, k)` as a function of `n`.
pub open spec fn phi_values(x: int, k: int) -> spec_fn(int) -> int {
    |n: int| phi_tiny_spec(x / n, k)
}

/// `phi(x / n, k)` lies in `[0, x]`.
proof fn lemma_phi_values_bound(x: int, k: int, z: int)
    requires
        x >= 0,
    ensures
        forall|t: int| 1 <= t <= z ==> -x <= #[trigger] phi_values(x, k)(t) <= x,
{
    assert forall|t: int| 1 <= t <= z implies -x <= #[trigger] phi_values(x, k)(t) <= x by {
        lemma_div_pos_is_pos(x, t);
        lemma_div_is_ordered_by_denominator(x, 1, t);
        crate::tables::lemma_phi_tiny_le(x / t, k);
    }
}

/// The term of `n` in Phi0.
pub open spec fn phi0_flat_term(x: int, y: int, z: int, ps: Seq<u32>, k: int, n: int) -> int {
    if 1 <= n <= z && mobius(n) != 0 && factors_within(ps, n, k, ps.len() - 1) && y_smooth_spec(n, y) {
        mobius(n) * phi_tiny_spec(x / n, k)
    } else {
        0
    }
}

pub open spec fn phi0_flat_terms(x: int, y: int, z: int, ps: Seq<u32>, k: int) -> spec_fn(int) -> int {
    |n: int| phi0_flat_term(x, y, z, ps, k, n)
}

/// Phi0(x, z, k): `mu(n) * phi(x / n, k)` summed over the squarefree
/// `y`-smooth `n <= z` free of the first `k` primes.
pub open spec fn phi0_spec(x: int, y: int, z: int, ps: Seq<u32>, k: int) -> int {
    sum_to(phi0_flat_terms(x, y, z, ps, k), 1, z + 1)
}

/// The value of a leaf is at most `x` in size.
proof fn lemma_leaf_value(x: int, k: int, n: int)
    requires
        x >= 0,
        n >= 1,
    ensures
        -x <= mobius(n) * phi_tiny_spec(x / n, k) <= x,
{
    crate::tables::lemma_mobius_range_pub(n);
    lemma_div_pos_is_pos(x, n);
    lemma_div_is_ordered_by_denominator(x, 1, n);
    crate::tables::lemma_phi_tiny_le(x / n, k);
    let f = phi_tiny_spec(x / n, k);
    assert(-x <= mobius(n) * f <= x) by (nonlinear_arith)
        requires
            -1 <= mobius(n) <= 1,
            0 <= f <= x,
    ;
}

/// The leaves below the node `square_free` of depth `b`, as products
/// `square_free * p_i * ...` of increasing primes up to `z`; `mu_sign` is
/// `mu` of the children.
fn phi0_recursive(
    x: u64,
    z: usize,
    b: usize,
    k: usize,
    square_free: u64,
    mu_sign: i64,
    primes: &Vec<u32>,
    phi_cache: &PhiTinyCache,
    Ghost(y): Ghost<int>,
) -> (r: i128)
    requires
        prime_table(primes@, y),
        1 <= y,
        x <= i64::MAX,
        z < 0x4000_0000_0000_0000,
        phi_cache.wf(),
        phi_cache.c@ == k,
        1 <= square_free <= z,
        b < primes.len(),
        forall|i: int| b < i < primes.len() ==> !#[trigger] divides(primes@[i] as int, square_free as int),
        mu_sign == -mobius(square_free as int),
    ensures
        r == node_sum(y, z as int, primes@, phi_values(x as int, k as int), square_free as int, b as int),
    decreases primes.len() - b,
{
    let ghost ps = primes@;
    let ghost xi = x as int;
    let ghost zi = z as int;
    let ghost sf = square_free as int;
    proof {
        lemma_prime_table(ps, y);
        lemma_node_split(y, zi, ps, phi_values(xi, k as int), sf, b as int);
        crate::tables::lemma_mobius_range_pub(sf);
    }
    let mut result: i128 = 0;
    let pi_limit = primes.len() - 1;
    let mut i = b + 1;
    while i <= pi_limit
        invariant
            prime_table(ps, y),
            ps == primes@,
            1 <= y,
            xi == x,
            zi == z,
            sf == square_free,
            x <= i64::MAX,
            z < 0x4000_0000_0000_0000,
            phi_cache.wf(),
            phi_cache.c@ == k,
            1 <= square_free <= z,
            b < primes.len(),
            pi_limit == ps.len() - 1,
            forall|t: int| b < t < ps.len() ==> !#[trigger] divides(ps[t] as int, sf),
            mu_sign == -mobius(sf),
            -1 <= mu_sign <= 1,
            b + 1 <= i <= pi_limit + 1,
            result == sum_to(node_children(y, zi, ps, phi_values(xi, k as int), sf), b + 1, i as int),
            node_sum(y, zi, ps, phi_values(xi, k as int), sf, b as int) == sum_to(
                node_children(y, zi, ps, phi_values(xi, k as int), sf),
                b + 1,
                ps.len() as int,
            ),
        decreases pi_limit + 1 - i,
    {
        let q = primes[i];
        proof {
            assert(ps[i as int] >= 2);
            assert((square_free as int) * (q as int) <= 0xffff_ffff_ffff_ffff * 0xffff_ffff) by (nonlinear_arith)
                requires
                    square_free <= 0xffff_ffff_ffff_ffff,
                    q <= 0xffff_ffff,
            ;
        }
        let next = square_free as u128 * q as u128;
        if next > z as u128 {
            proof {
                lemma_prime_table(ps, y);
                assert forall|t: int| i <= t < ps.len() implies #[trigger] node_children(y, zi, ps, phi_values(xi, k as int), sf)(t)
                    == 0 by {
                    let qt = ps[t] as int;
                    if t > i {
                        assert(ps[i as int] < ps[t]);
                    }
                    assert(sf * qt >= sf * (q as int)) by (nonlinear_arith)
                        requires
                            qt >= q,
                            sf >= 1,
                    ;
                    lemma_node_child(y, zi, ps, phi_values(xi, k as int), sf, t);
                    lemma_node_beyond(y, zi, ps, phi_values(xi, k as int), sf * qt, t);
                }
                lemma_sum_tail_zero(node_children(y, zi, ps, phi_values(xi, k as int), sf), b + 1, i as int, ps.len() as int);
            }
            return result;
        }
        let next = next as u64;
        let ghost m = next as int;
        proof {
            assert(m >= 2) by (nonlinear_arith)
                requires
                    m == sf * (q as int),
                    sf >= 1,
                    q >= 2,
            ;
            lemma_node_child(y, zi, ps, phi_values(xi, k as int), sf, i as int);
            assert(!divides(q as int, sf));
            lemma_mobius_times_prime(sf, q as int);
            crate::tables::lemma_mobius_range_pub(m);
            assert forall|t: int| i < t < ps.len() implies !#[trigger] divides(ps[t] as int, m) by {
                if divides(ps[t] as int, m) {
                    assert(!divides(ps[t] as int, sf));
                    lemma_euclid(ps[t] as int, sf, q as int);
                    if divides(ps[t] as int, q as int) {
                        lemma_table_divides(ps, y, t, i as int);
                    }
                }
            }
            lemma_div_is_ordered_by_denominator(xi, 1, m);
            lemma_phi_values_bound(xi, k as int, zi);
            lemma_node_bounds(y, zi, ps, phi_values(xi, k as int), sf, b as int, i as int, xi);
            lemma_phi_values_bound(xi, k as int, zi);
            lemma_node_bounds(y, zi, ps, phi_values(xi, k as int), m, i as int, i as int + 1, xi);
            lemma_leaf_value(xi, k as int, m);
            assert(0 <= zi * xi < 0x4000_0000_0000_0000 * 0x8000_0000_0000_0000) by (nonlinear_arith)
                requires
                    0 <= zi < 0x4000_0000_0000_0000,
                    0 <= xi < 0x8000_0000_0000_0000,
            ;
            assert(-zi * xi == -(zi * xi)) by (nonlinear_arith);
        }
        let ph = phi_cache.phi(x / next);
        let own = mu_sign as i128 * ph as i128;
        let below = phi0_recursive(x, z, i, k, next, -mu_sign, primes, phi_cache, Ghost(y));
        proof {
            assert(own == mobius(m) * phi_tiny_spec(xi / m, k as int));
        }
        result = result + own;
        result = result + below;
        i = i + 1;
    }
    result
}

/// Phi0 is `phi(x, k)` for `n = 1` and the leaves below the root.
proof fn lemma_phi0_root(x: int, y: int, z: int, ps: Seq<u32>, k: int)
    requires
        prime_table(ps, y),
        1 <= y,
        z >= 1,
        x >= 0,
    ensures
        phi0_spec(x, y, z, ps, k) == phi_tiny_spec(x, k) + node_sum(y, z, ps, phi_values(x, k), 1, k),
{
    lemma_prime_table(ps, y);
    let one = |n: int| if n == 1 { phi_tiny_spec(x, k) } else { 0 };
    assert forall|n: int| 1 <= n < z + 1 implies #[trigger] phi0_flat_terms(x, y, z, ps, k)(n) == one(n) + node_terms(
        y,
        z,
        ps,
        phi_values(x, k),
        1,
        k,
    )(n) by {
        lemma_small_mod(0, 1);
        lemma_fundamental_div_mod(n, 1);
        assert(divides(1, n));
        assert(n / 1 == n);
        if n == 1 {
            assert(mobius(1) == 1);
            assert forall|i: int| 1 <= i < ps.len() && #[trigger] divides(ps[i] as int, 1) implies k < i <= ps.len()
                - 1 by {
                lemma_small_mod(1, ps[i] as nat);
            }
        }
    }
    lemma_sum_add(phi0_flat_terms(x, y, z, ps, k), one, node_terms(y, z, ps, phi_values(x, k), 1, k), 1, z + 1);
    assert forall|n: int| 1 <= n < z + 1 && n != 1 implies #[trigger] one(n) == 0 by {}
    lemma_sum_single(one, 1, z + 1, 1);
}

/// Phi0 of Gourdon's decomposition: `phi(x, k)` for `n = 1`, and for each
/// prime `p_b` past the first `k`, `-phi(x / p_b, k)` and the leaves below
/// it.
pub fn compute_phi0(x: u64, y: usize, z: usize, k: usize, primes: &Vec<u32>, phi_cache: &PhiTinyCache) -> (r: i128)
    requires
        prime_table(primes@, y as int),
        1 <= y <= z,
        z < 0x4000_0000_0000_0000,
        x <= i64::MAX,
        phi_cache.wf(),
        phi_cache.c@ == k,
    ensures
        r == phi0_spec(x as int, y as int, z as int, primes@, k as int),
{
    let ghost ps = primes@;
    let ghost xi = x as int;
    let ghost yi = y as int;
    let ghost zi = z as int;
    proof {
        lemma_prime_table(ps, yi);
        lemma_phi0_root(xi, yi, zi, ps, k as int);
        crate::tables::lemma_phi_tiny_le(xi, k as int);
    }
    let pi_y = primes.len() - 1;
    if pi_y <= k {
        proof {
            lemma_node_none(yi, zi, ps, phi_values(xi, k as int), 1, k as int);
        }
        return phi_cache.phi(x) as i128;
    }
    let phi0_base = phi_cache.phi(x);
    let mut sum: i128 = 0;
    let mut b = k + 1;
    proof {
        lemma_node_split(yi, zi, ps, phi_values(xi, k as int), 1, k as int);
        assert(0 <= zi * xi < 0x4000_0000_0000_0000 * 0x8000_0000_0000_0000) by (nonlinear_arith)
            requires
                0 <= zi < 0x4000_0000_0000_0000,
                0 <= xi < 0x8000_0000_0000_0000,
        ;
        assert(-zi * xi == -(zi * xi)) by (nonlinear_arith);
    }
    while b <= pi_y
        invariant
            prime_table(ps, yi),
            ps == primes@,
            xi == x,
            yi == y,
            zi == z,
            1 <= y <= z,
            z < 0x4000_0000_0000_0000,
            x <= i64::MAX,
            phi_cache.wf(),
            phi_cache.c@ == k,
            pi_y == ps.len() - 1,
            pi_y + 1 == primes.len(),
            k < pi_y,
            k + 1 <= b <= pi_y + 1,
            sum == sum_to(node_children(yi, zi, ps, phi_values(xi, k as int), 1), k + 1, b as int),
            0 <= zi * xi < 0x4000_0000_0000_0000 * 0x8000_0000_0000_0000,
            -zi * xi == -(zi * xi),
        decreases pi_y + 1 - b,
    {
        let p = primes[b];
        let ghost pb = p as int;
        proof {
            lemma_prime_table(ps, yi);
            assert(2 <= pb <= yi);
            lemma_node_child(yi, zi, ps, phi_values(xi, k as int), 1, b as int);
            assert(1 * pb == pb);
            crate::special_leaves::lemma_mobius_prime(pb);
            assert forall|t: int| b < t < ps.len() implies !#[trigger] divides(ps[t] as int, pb) by {
                if divides(ps[t] as int, pb) {
                    lemma_table_divides(ps, yi, t, b as int);
                }
            }
            lemma_div_is_ordered_by_denominator(xi, 1, pb);
            lemma_div_pos_is_pos(xi, pb);
            crate::tables::lemma_phi_tiny_le(xi / pb, k as int);
            lemma_phi_values_bound(xi, k as int, zi);
            lemma_node_bounds(yi, zi, ps, phi_values(xi, k as int), 1, k as int, b as int, xi);
            lemma_phi_values_bound(xi, k as int, zi);
            lemma_node_bounds(yi, zi, ps, phi_values(xi, k as int), pb, b as int, b as int + 1, xi);
        }
        let mut local: i128 = -(phi_cache.phi(x / p as u64) as i128);
        let below = phi0_recursive(x, z, b, k, p as u64, 1, primes, phi_cache, Ghost(yi));
        local = local + below;
        proof {
            assert(-phi_tiny_spec(xi / pb, k as int) == mobius(pb) * phi_tiny_spec(xi / pb, k as int));
        }
        sum = sum + local;
        b = b + 1;
    }
    proof {
        lemma_phi_values_bound(xi, k as int, zi);
            lemma_node_bounds(yi, zi, ps, phi_values(xi, k as int), 1, k as int, ps.len() as int, xi);
    }
    phi0_base as i128 + sum
}

} // verus!
