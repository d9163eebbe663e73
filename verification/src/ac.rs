//! A and C2 of Gourdon's decomposition: for the primes `p_b` up to
//! `pi(x*)` (C2) and from there to `pi(cbrt(x))` (A), sums of
//! `pi(x / (p_b * p_l))` over the primes `p_l` of a window, pi read from the
//! table of the odd primes up to `sqrt(x)`.

use vstd::prelude::*;
use vstd::arithmetic::div_mod::*;
use crate::number_theory::prime_count;
use crate::special_leaves::{prime_table, lemma_prime_table, lemma_prime_table_floor};
use crate::odd_sieve::CompactPi;
use crate::big_pi::BigPiTable;
use crate::roots::{isqrt, icbrt, lemma_sqrt_unique};
use crate::lmo::{is_sqrt, cube_root, lemma_cube_root, fast_div_floor, floor_recip};
use crate::sigma::{pi_capped, floor_sqrt};

verus! {

/// The C2 term of `(b, l)`: `pi(x / (p_b p_l)) - b + 2`.
pub open spec fn c2_term(x: int, ps: Seq<u32>, b: int, l: int) -> int {
    prime_count(((x / (ps[b] as int)) / (ps[l] as int)) as nat) - b + 2
}

/// The A term of `(b, l)`: `pi(x / (p_b p_l))`, twice past the index `yb`.
pub open spec fn a_term(x: int, ps: Seq<u32>, b: int, yb: int, l: int) -> int {
    let v = prime_count(((x / (ps[b] as int)) / (ps[l] as int)) as nat) as int;
    if l <= yb {
        v
    } else {
        2 * v
    }
}

/// The C2 terms of `p_b` for `l` in `[lo, hi]`.
pub open spec fn c2_sum(x: int, ps: Seq<u32>, b: int, lo: int, hi: int) -> int
    decreases hi + 1 - lo,
{
    if hi < lo {
        0
    } else {
        c2_sum(x, ps, b, lo, hi - 1) + c2_term(x, ps, b, hi)
    }
}

/// The A terms of `p_b` for `l` in `[lo, hi]`.
pub open spec fn a_sum(x: int, ps: Seq<u32>, b: int, yb: int, lo: int, hi: int) -> int
    decreases hi + 1 - lo,
{
    if hi < lo {
        0
    } else {
        a_sum(x, ps, b, yb, lo, hi - 1) + a_term(x, ps, b, yb, hi)
    }
}

/// The window of `m` for the C2 row of `p_b`: `max_m = min(x / p_b^2, y)`
/// and `min_m = min(max(x / p_b^3, p_b), max_m)`.
pub open spec fn c2_max_m(x: int, y: int, p: int) -> int {
    if (x / p) / p < y {
        (x / p) / p
    } else {
        y
    }
}

pub open spec fn c2_min_m(x: int, y: int, p: int) -> int {
    let t = if (x / p) / (p * p) > p {
        (x / p) / (p * p)
    } else {
        p
    };
    if t < c2_max_m(x, y, p) {
        t
    } else {
        c2_max_m(x, y, p)
    }
}

/// The C2 row of `p_b`: the primes `p_l` with `min_m < p_l <= max_m`.
pub open spec fn c2_row(x: int, y: int, ps: Seq<u32>, lim: int, b: int) -> int {
    let p = ps[b] as int;
    let max_m = c2_max_m(x, y, p);
    let min_m = c2_min_m(x, y, p);
    if max_m <= min_m {
        0
    } else {
        let l_max = pi_capped(max_m, lim);
        let hi = if l_max < ps.len() - 1 {
            l_max
        } else {
            ps.len() - 1
        };
        c2_sum(x, ps, b, pi_capped(min_m, lim) + 1, hi)
    }
}

/// The A row of `p_b`: the primes `p_l` with `p_b < p_l <= min(sqrt(x / p_b), y)`,
/// those with `p_l > x / (p_b y)` counted twice.
pub open spec fn a_row(x: int, y: int, ps: Seq<u32>, lim: int, b: int) -> int {
    let p = ps[b] as int;
    let xp = x / p;
    let s = floor_sqrt(xp);
    let max_2nd = if s < y {
        s
    } else {
        y
    };
    if max_2nd <= p {
        0
    } else {
        let max_i = pi_capped(max_2nd, lim);
        let yb = pi_capped(if xp / y < max_2nd { xp / y } else { max_2nd }, lim);
        let hi = if max_i < ps.len() - 1 {
            max_i
        } else {
            ps.len() - 1
        };
        a_sum(x, ps, b, yb, pi_capped(p, lim) + 1, hi)
    }
}

pub open spec fn c2_rows(x: int, y: int, ps: Seq<u32>, lim: int, lo: int, hi: int) -> int
    decreases hi + 1 - lo,
{
    if hi < lo {
        0
    } else {
        c2_rows(x, y, ps, lim, lo, hi - 1) + c2_row(x, y, ps, lim, hi)
    }
}

pub open spec fn a_rows(x: int, y: int, ps: Seq<u32>, lim: int, lo: int, hi: int) -> int
    decreases hi + 1 - lo,
{
    if hi < lo {
        0
    } else {
        a_rows(x, y, ps, lim, lo, hi - 1) + a_row(x, y, ps, lim, hi)
    }
}

/// The first prime of C2: `max(k, pi(cbrt(x / y)), pi(sqrt(z))) + 1`.
pub open spec fn c2_first_b(x: int, y: int, z: int, k: int, lim: int) -> int {
    let a = pi_capped(cube_root(x / y), lim);
    let s = pi_capped(floor_sqrt(z), lim);
    let m = if a > s {
        a
    } else {
        s
    };
    (if k > m {
        k
    } else {
        m
    }) + 1
}

/// C2 + A: the C2 rows of the primes from `c2_first_b` to `pi(x*)`, and the A
/// rows from there to `pi(cbrt(x))`, within the table of the primes up to `y`.
pub open spec fn ac_spec(x: int, y: int, z: int, k: int, x_star: int, ps: Seq<u32>, lim: int) -> int {
    let last = ps.len() - 1;
    let pxs = pi_capped(x_star, lim);
    let px13 = pi_capped(cube_root(x), lim);
    c2_rows(x, y, ps, lim, c2_first_b(x, y, z, k, lim), if pxs < last { pxs } else { last }) + a_rows(
        x,
        y,
        ps,
        lim,
        pxs + 1,
        if px13 < last { px13 } else { last },
    )
}

/// A prime of the table past index `pi(n)` exceeds `n`.
proof fn lemma_index_above(ps: Seq<u32>, y: int, n: int, b: int)
    requires
        prime_table(ps, y),
        0 <= n <= y,
        prime_count(n as nat) < b < ps.len(),
    ensures
        ps[b] > n,
{
    lemma_prime_table(ps, y);
    lemma_prime_table_floor(ps, y, n);
    let l = prime_count(n as nat) as int + 1;
    if l < b {
        assert(ps[l] < ps[b]);
    }
}

/// pi read from the compact table, capped at its limit.
fn pi_at(pi: &CompactPi, n: u64) -> (r: usize)
    requires
        pi.wf(),
    ensures
        r == pi_capped(n as int, pi.limit as int),
        r <= pi.limit,
{
    let m: usize = if n < pi.limit as u64 {
        n as usize
    } else {
        pi.limit
    };
    proof {
        crate::number_theory::lemma_prime_count_le(m as nat);
    }
    pi.get(m) as usize
}

/// `x / (p q)` with `p q` past `sqrt(x)` is at most `sqrt(x)`.
proof fn lemma_quotient_below_root(x: int, xp: int, p: int, q: int, v: int, s: int)
    requires
        x >= 0,
        p >= 1,
        q >= 1,
        xp == x / p,
        v == xp / q,
        s >= 0,
        s * s <= x < (s + 1) * (s + 1),
        x < (p * q) * (p * q),
    ensures
        0 <= v <= s,
{
    lemma_fundamental_div_mod(x, p);
    lemma_fundamental_div_mod(xp, q);
    lemma_div_pos_is_pos(x, p);
    lemma_div_pos_is_pos(xp, q);
    let pq = p * q;
    assert(pq >= 1) by (nonlinear_arith)
        requires
            p >= 1,
            q >= 1,
            pq == p * q,
    ;
    assert(v * q <= xp);
    assert(p * xp <= x);
    assert(v * pq <= x) by (nonlinear_arith)
        requires
            v * q <= xp,
            p * xp <= x,
            p >= 1,
            v >= 0,
            pq == p * q,
    ;
    if v > s {
        assert(v * v > v * pq) by (nonlinear_arith)
            requires
                v >= s + 1,
                s >= 0,
                x < (s + 1) * (s + 1),
                v * pq <= x,
        ;
        assert(v > pq) by (nonlinear_arith)
            requires
                v * v > v * pq,
                v >= 1,
        ;
        assert(false) by (nonlinear_arith)
            requires
                v > pq,
                pq >= 1,
                v * pq <= x,
                x < pq * pq,
        ;
    }
}

/// The shared facts of the rows: `x` and its square root `s` within the
/// big table, the prime table and the reciprocals of its primes.
pub open spec fn ac_setting(
    x: u64,
    y: usize,
    primes: Seq<u32>,
    pi: CompactPi,
    big_pi: BigPiTable,
    recip: Seq<u64>,
    s: int,
) -> bool {
    &&& x <= 0x7fff_ffff_ffff_ffff
    &&& 1 <= y < 0x8000_0000
    &&& prime_table(primes, y as int)
    &&& pi.wf()
    &&& y <= pi.limit
    &&& big_pi.wf()
    &&& 0 <= s <= big_pi.limit@
    &&& s * s <= x < (s + 1) * (s + 1)
    &&& recip.len() == primes.len()
    &&& forall|l: int| 1 <= l < primes.len() ==> #[trigger] recip[l] == floor_recip(primes[l] as int)
}

/// The C2 row of `p_b`.
fn c2_row_exec(
    x: u64,
    y: usize,
    b: usize,
    primes: &Vec<u32>,
    pi: &CompactPi,
    big_pi: &BigPiTable,
    recip: &Vec<u64>,
    Ghost(s): Ghost<int>,
) -> (r: i128)
    requires
        ac_setting(x, y, primes@, *pi, *big_pi, recip@, s),
        1 <= b < primes.len(),
    ensures
        r == c2_row(x as int, y as int, primes@, pi.limit as int, b as int),
        -0x2_0000_0000_0000_0000 <= r <= 0x2_0000_0000_0000_0000,
{
    let ghost ps = primes@;
    let ghost xi = x as int;
    let ghost lim = pi.limit as int;
    proof {
        lemma_prime_table(ps, y as int);
        crate::number_theory::lemma_prime_count_le(y as nat);
    }
    let p = primes[b] as u64;
    let xp = x / p;
    let t = xp / p;
    let max_m: u64 = if t < y as u64 {
        t
    } else {
        y as u64
    };
    proof {
        assert(4 <= p * p < 0x4000_0000_0000_0000) by (nonlinear_arith)
            requires
                2 <= p < 0x8000_0000,
        ;
    }
    let t2 = xp / (p * p);
    let mv0 = if t2 > p {
        t2
    } else {
        p
    };
    let min_m = if mv0 < max_m {
        mv0
    } else {
        max_m
    };
    proof {
        assert(max_m == c2_max_m(xi, y as int, p as int));
        assert(min_m == c2_min_m(xi, y as int, p as int));
    }
    if max_m <= min_m {
        return 0;
    }
    let l_max = pi_at(pi, max_m);
    let l_min = pi_at(pi, min_m) + 1;
    let last = primes.len() - 1;
    let hi = if l_max < last {
        l_max
    } else {
        last
    };
    proof {
        lemma_div_denominator(xi, p as int, (p * p) as int);
        assert(p * (p * p) == (p * p) * p) by (nonlinear_arith);
        assert(min_m as int == mv0 as int);
        assert(min_m <= y);
    }
    let mut acc: i128 = 0;
    let mut l = l_min;
    while l <= hi
        invariant
            ac_setting(x, y, ps, *pi, *big_pi, recip@, s),
            ps == primes@,
            xi == x,
            lim == pi.limit,
            1 <= b < ps.len(),
            p == ps[b as int],
            2 <= p <= y,
            xp == x / p,
            t2 == xi / (p * (p * p)),
            mv0 >= p,
            mv0 >= t2,
            mv0 <= y,
            l_min == prime_count(mv0 as nat) + 1,
            hi < ps.len(),
            l_min <= l,
            l <= hi + 1 || l == l_min,
            ps.len() <= y + 1,
            acc == c2_sum(xi, ps, b as int, l_min as int, l - 1),
            -(l - l_min) * 0x2_0000_0000 <= acc <= (l - l_min) * 0x2_0000_0000,
        decreases hi + 1 - l,
    {
        proof {
            lemma_index_above(ps, y as int, mv0 as int, l as int);
            lemma_prime_table(ps, y as int);
        }
        let q = primes[l] as u64;
        let xpq = fast_div_floor(xp, q, recip[l]);
        proof {
            let qi = q as int;
            let pi_ = p as int;
            // p q is past sqrt(x): q > x / p^3 and q > p
            assert(pi_ * (pi_ * pi_) > 0) by (nonlinear_arith)
                requires
                    pi_ >= 2,
            ;
            lemma_fundamental_div_mod(xi, pi_ * (pi_ * pi_));
            assert(xi < (pi_ * qi) * (pi_ * qi)) by (nonlinear_arith)
                requires
                    qi >= t2 + 1,
                    qi > pi_,
                    pi_ >= 2,
                    xi == (pi_ * (pi_ * pi_)) * t2 + xi % (pi_ * (pi_ * pi_)),
                    xi % (pi_ * (pi_ * pi_)) < pi_ * (pi_ * pi_),
            ;
            lemma_quotient_below_root(xi, xp as int, pi_, qi, xpq as int, s);
        }
        let v = big_pi.pi(xpq as usize);
        proof {
            crate::number_theory::lemma_prime_count_le(xpq as nat);
            assert(s < 0x1_0000_0000) by (nonlinear_arith)
                requires
                    s * s <= xi,
                    xi <= 0x7fff_ffff_ffff_ffff,
                    s >= 0,
            ;
        }
        acc = acc + (v as i128 + 2 - b as i128);
        l = l + 1;
    }
    acc
}

/// The A row of `p_b`, for `p_b` past `x*` with `x < (x* + 1)^4`.
fn a_row_exec(
    x: u64,
    y: usize,
    b: usize,
    primes: &Vec<u32>,
    pi: &CompactPi,
    big_pi: &BigPiTable,
    recip: &Vec<u64>,
    Ghost(s): Ghost<int>,
    Ghost(x_star): Ghost<int>,
) -> (r: i128)
    requires
        ac_setting(x, y, primes@, *pi, *big_pi, recip@, s),
        1 <= b < primes.len(),
        x_star >= 0,
        primes@[b as int] > x_star,
        (x as int) < (x_star + 1) * (x_star + 1) * (x_star + 1) * (x_star + 1),
    ensures
        r == a_row(x as int, y as int, primes@, pi.limit as int, b as int),
        0 <= r <= 0x2_0000_0000_0000_0000,
{
    let ghost ps = primes@;
    let ghost xi = x as int;
    let ghost lim = pi.limit as int;
    proof {
        lemma_prime_table(ps, y as int);
        crate::number_theory::lemma_prime_count_le(y as nat);
    }
    let p = primes[b] as u64;
    let xp = x / p;
    let sq = isqrt(xp);
    proof {
        assert(is_sqrt(xp as int, sq as int));
        let f = floor_sqrt(xp as int);
        assert(is_sqrt(xp as int, f));
        lemma_sqrt_unique(xp as int, f, sq as int);
    }
    let max_2nd: u64 = if sq < y as u64 {
        sq
    } else {
        y as u64
    };
    if max_2nd <= p {
        return 0;
    }
    let max_i = pi_at(pi, max_2nd);
    let min_i = pi_at(pi, p) + 1;
    let xpy = xp / y as u64;
    let yb = pi_at(pi, if xpy < max_2nd {
        xpy
    } else {
        max_2nd
    });
    let last = primes.len() - 1;
    let hi = if max_i < last {
        max_i
    } else {
        last
    };
    proof {
        assert(p <= y);
        assert(min_i == prime_count(p as nat) + 1);
    }
    let mut acc: i128 = 0;
    let mut l = min_i;
    while l <= hi
        invariant
            ac_setting(x, y, ps, *pi, *big_pi, recip@, s),
            ps == primes@,
            xi == x,
            lim == pi.limit,
            1 <= b < ps.len(),
            p == ps[b as int],
            2 <= p <= y,
            p > x_star,
            x_star >= 0,
            xi < (x_star + 1) * (x_star + 1) * (x_star + 1) * (x_star + 1),
            xp == x / p,
            min_i == prime_count(p as nat) + 1,
            hi < ps.len(),
            min_i <= l,
            l <= hi + 1 || l == min_i,
            ps.len() <= y + 1,
            acc == a_sum(xi, ps, b as int, yb as int, min_i as int, l - 1),
            0 <= acc <= (l - min_i) * 0x2_0000_0000,
        decreases hi + 1 - l,
    {
        proof {
            lemma_index_above(ps, y as int, p as int, l as int);
        }
        let q = primes[l] as u64;
        let xpq = fast_div_floor(xp, q, recip[l]);
        proof {
            let qi = q as int;
            let pi_ = p as int;
            let xs = x_star;
            assert(xi < (pi_ * qi) * (pi_ * qi)) by (nonlinear_arith)
                requires
                    qi > pi_,
                    pi_ >= xs + 1,
                    xs >= 0,
                    xi < (xs + 1) * (xs + 1) * (xs + 1) * (xs + 1),
            ;
            lemma_quotient_below_root(xi, xp as int, pi_, qi, xpq as int, s);
        }
        let v = big_pi.pi(xpq as usize);
        proof {
            crate::number_theory::lemma_prime_count_le(xpq as nat);
            assert(s < 0x1_0000_0000) by (nonlinear_arith)
                requires
                    s * s <= xi,
                    xi <= 0x7fff_ffff_ffff_ffff,
                    s >= 0,
            ;
        }
        if l <= yb {
            acc = acc + v as i128;
        } else {
            acc = acc + 2 * (v as i128);
        }
        l = l + 1;
    }
    acc
}

/// C2 + A: the C2 rows of the primes from `max(k, pi(cbrt(x / y)),
/// pi(sqrt(z))) + 1` to `pi(x*)`, and the A rows from there to
/// `pi(cbrt(x))`, `pi(x / (p_b p_l))` read from the big table.
pub fn compute_ac(
    x: u64,
    y: usize,
    z: usize,
    k: usize,
    x_star: usize,
    primes: &Vec<u32>,
    pi: &CompactPi,
    big_pi: &BigPiTable,
    recip: &Vec<u64>,
) -> (r: i128)
    requires
        x <= 0x7fff_ffff_ffff_ffff,
        1 <= y < 0x8000_0000,
        k < 0x8000_0000,
        prime_table(primes@, y as int),
        pi.wf(),
        y <= pi.limit,
        big_pi.wf(),
        (x as int) < (big_pi.limit@ + 1) * (big_pi.limit@ + 1),
        (x as int) < (x_star + 1) * (x_star + 1) * (x_star + 1) * (x_star + 1),
        recip.len() == primes.len(),
        forall|l: int| 1 <= l < primes.len() ==> #[trigger] recip@[l] == floor_recip(primes@[l] as int),
    ensures
        r == ac_spec(x as int, y as int, z as int, k as int, x_star as int, primes@, pi.limit as int),
{
    let ghost ps = primes@;
    let ghost xi = x as int;
    let ghost lim = pi.limit as int;
    let sx = isqrt(x);
    proof {
        lemma_prime_table(ps, y as int);
        crate::number_theory::lemma_prime_count_le(y as nat);
        let bl = big_pi.limit@;
        assert(sx <= bl) by (nonlinear_arith)
            requires
                sx * sx <= xi,
                xi < (bl + 1) * (bl + 1),
                bl >= 0,
        ;
    }
    let ghost s = sx as int;
    let x13 = icbrt(x);
    let sqrt_z = isqrt(z as u64);
    proof {
        lemma_cube_root(xi, x13 as int);
        assert(is_sqrt(z as int, sqrt_z as int));
        let f = floor_sqrt(z as int);
        assert(is_sqrt(z as int, f));
        lemma_sqrt_unique(z as int, f, sqrt_z as int);
    }
    let pi_sqrtz = pi_at(pi, sqrt_z);
    let pi_x_star = pi_at(pi, x_star as u64);
    let pi_x13 = pi_at(pi, x13);
    let r3 = icbrt(x / y as u64);
    proof {
        lemma_cube_root(xi / (y as int), r3 as int);
    }
    let pi_root3_xy = pi_at(pi, r3);
    let m1 = if pi_root3_xy > pi_sqrtz {
        pi_root3_xy
    } else {
        pi_sqrtz
    };
    let min_c2_b = (if k > m1 {
        k
    } else {
        m1
    }) + 1;
    let last = primes.len() - 1;
    let c2_end = if pi_x_star < last {
        pi_x_star
    } else {
        last
    };
    proof {
        assert(min_c2_b == c2_first_b(xi, y as int, z as int, k as int, lim));
    }
    let mut c2: i128 = 0;
    let mut b = min_c2_b;
    while b <= c2_end
        invariant
            ac_setting(x, y, ps, *pi, *big_pi, recip@, s),
            ps == primes@,
            xi == x,
            lim == pi.limit,
            c2_end < ps.len(),
            1 <= min_c2_b <= b,
            b <= c2_end + 1 || b == min_c2_b,
            ps.len() <= y + 1,
            c2 == c2_rows(xi, y as int, ps, lim, min_c2_b as int, b - 1),
            -(b - min_c2_b) * 0x2_0000_0000_0000_0000 <= c2 <= (b - min_c2_b) * 0x2_0000_0000_0000_0000,
        decreases c2_end + 1 - b,
    {
        let r = c2_row_exec(x, y, b, primes, pi, big_pi, recip, Ghost(s));
        c2 = c2 + r;
        b = b + 1;
    }
    let a_end = if pi_x13 < last {
        pi_x13
    } else {
        last
    };
    let a_first = pi_x_star + 1;
    let mut a: i128 = 0;
    let mut b = a_first;
    while b <= a_end
        invariant
            ac_setting(x, y, ps, *pi, *big_pi, recip@, s),
            ps == primes@,
            xi == x,
            lim == pi.limit,
            a_end < ps.len(),
            a_first == pi_capped(x_star as int, lim) + 1,
            1 <= a_first <= b,
            b <= a_end + 1 || b == a_first,
            ps.len() <= y + 1,
            xi < (x_star + 1) * (x_star + 1) * (x_star + 1) * (x_star + 1),
            a == a_rows(xi, y as int, ps, lim, a_first as int, b - 1),
            0 <= a <= (b - a_first) * 0x2_0000_0000_0000_0000,
        decreases a_end + 1 - b,
    {
        proof {
            // p_b past pi(x*) is past x*
            lemma_prime_table(ps, y as int);
            if x_star <= lim {
                if x_star <= y {
                    lemma_index_above(ps, y as int, x_star as int, b as int);
                } else {
                    crate::number_theory::lemma_prime_count_monotone(y as nat, x_star as nat);
                    assert(false);
                }
            } else {
                crate::number_theory::lemma_prime_count_monotone(y as nat, lim as nat);
                assert(false);
            }
        }
        let r = a_row_exec(x, y, b, primes, pi, big_pi, recip, Ghost(s), Ghost(x_star as int));
        a = a + r;
        b = b + 1;
    }
    c2 + a
}

} // verus!
