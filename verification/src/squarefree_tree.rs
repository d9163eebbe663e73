//! Sums over the squarefree products of the primes of a table, taken as a
//! tree: the node `sf` of depth `b` has the children `sf * p_i`, `i > b`,
//! and below it lie the products `sf * d` with `d >= 2` squarefree,
//! `y`-smooth and made of primes past `p_b`. The sum of `mu(n) * v(n)` below
//! a node is the sum over its children of their own term and what lies
//! below them.

use vstd::prelude::*;
use vstd::arithmetic::div_mod::*;
use crate::number_theory::{is_prime, prime_count, lemma_euclid, lemma_divides_transitive};
use crate::special_leaves::{prime_table, lemma_prime_table};
use crate::tables::{mobius, y_smooth_spec};
use crate::leaf_identity::{
    sum_to, divides, factors_within, lemma_sum_add, lemma_sum_ext, lemma_sum_zero, lemma_sum_single,
    lemma_mobius_square, lemma_multiple, lemma_exact, lemma_prime_divisor, lemma_table_divides, lemma_prime_divides_prime,
};

verus! {

/// The term of `n` below the node `sf` of depth `b`: `mu(n) * v(n)` when
/// `n <= z` is `sf * d` with `d >= 2` squarefree, `y`-smooth and with its
/// table primes in `(p_b, p_a]`; 0 otherwise.
pub open spec fn node_term(y: int, z: int, ps: Seq<u32>, v: spec_fn(int) -> int, sf: int, b: int, n: int) -> int {
    if 1 <= n <= z && divides(sf, n) && n / sf >= 2 && mobius(n) != 0 && factors_within(ps, n / sf, b, ps.len() - 1)
        && y_smooth_spec(n / sf, y) {
        mobius(n) * v(n)
    } else {
        0
    }
}

pub open spec fn node_terms(y: int, z: int, ps: Seq<u32>, v: spec_fn(int) -> int, sf: int, b: int) -> spec_fn(int) -> int {
    |n: int| node_term(y, z, ps, v, sf, b, n)
}

/// What lies below the node `sf` of depth `b`.
pub open spec fn node_sum(y: int, z: int, ps: Seq<u32>, v: spec_fn(int) -> int, sf: int, b: int) -> int {
    sum_to(node_terms(y, z, ps, v, sf, b), 1, z + 1)
}

/// What the child `sf * p_i` of the node `sf` contributes at `n`: its own
/// term, and the terms below it.
pub open spec fn node_part(y: int, z: int, ps: Seq<u32>, v: spec_fn(int) -> int, sf: int, i: int, n: int) -> int {
    (if 1 <= n <= z && n == sf * (ps[i] as int) {
        mobius(n) * v(n)
    } else {
        0
    }) + node_term(y, z, ps, v, sf * (ps[i] as int), i, n)
}

pub open spec fn node_parts_at(y: int, z: int, ps: Seq<u32>, v: spec_fn(int) -> int, sf: int, n: int) -> spec_fn(int) -> int {
    |i: int| node_part(y, z, ps, v, sf, i, n)
}

pub open spec fn node_parts_of(y: int, z: int, ps: Seq<u32>, v: spec_fn(int) -> int, sf: int, i: int) -> spec_fn(int) -> int {
    |n: int| node_part(y, z, ps, v, sf, i, n)
}

/// All that the child `sf * p_i` contributes.
pub open spec fn node_child(y: int, z: int, ps: Seq<u32>, v: spec_fn(int) -> int, sf: int, i: int) -> int {
    sum_to(node_parts_of(y, z, ps, v, sf, i), 1, z + 1)
}

pub open spec fn node_children(y: int, z: int, ps: Seq<u32>, v: spec_fn(int) -> int, sf: int) -> spec_fn(int) -> int {
    |i: int| node_child(y, z, ps, v, sf, i)
}

pub open spec fn node_rows(y: int, z: int, ps: Seq<u32>, v: spec_fn(int) -> int, sf: int, lo_i: int, hi_i: int) -> spec_fn(int) -> int {
    |n: int| sum_to(node_parts_at(y, z, ps, v, sf, n), lo_i, hi_i)
}

/// The double sum over children and numbers may be taken in either order.
proof fn lemma_node_swap(y: int, z: int, ps: Seq<u32>, v: spec_fn(int) -> int, sf: int, lo_i: int, hi_i: int, hi_n: int)
    requires
        hi_n >= 1,
    ensures
        sum_to(node_rows(y, z, ps, v, sf, lo_i, hi_i), 1, hi_n) == sum_to(
            |i: int| sum_to(node_parts_of(y, z, ps, v, sf, i), 1, hi_n),
            lo_i,
            hi_i,
        ),
    decreases hi_n,
{
    let rhs = |i: int| sum_to(node_parts_of(y, z, ps, v, sf, i), 1, hi_n);
    if hi_n == 1 {
        assert forall|i: int| lo_i <= i < hi_i implies #[trigger] rhs(i) == 0 by {}
        lemma_sum_zero(rhs, lo_i, hi_i);
    } else {
        lemma_node_swap(y, z, ps, v, sf, lo_i, hi_i, hi_n - 1);
        let prev = |i: int| sum_to(node_parts_of(y, z, ps, v, sf, i), 1, hi_n - 1);
        let last = node_parts_at(y, z, ps, v, sf, hi_n - 1);
        assert forall|i: int| lo_i <= i < hi_i implies #[trigger] rhs(i) == prev(i) + last(i) by {}
        lemma_sum_add(rhs, prev, last, lo_i, hi_i);
    }
}

/// Some prime of the table divides a `y`-smooth `d >= 2`; the least index
/// that does.
proof fn lemma_least_index(ps: Seq<u32>, y: int, d: int, lo: int) -> (j: int)
    requires
        prime_table(ps, y),
        1 <= y,
        d >= 2,
        y_smooth_spec(d, y),
        factors_within(ps, d, lo, ps.len() - 1),
    ensures
        lo < j < ps.len(),
        divides(ps[j] as int, d),
        forall|i: int| 1 <= i < j ==> !#[trigger] divides(ps[i] as int, d),
{
    lemma_prime_table(ps, y);
    let r = lemma_prime_divisor(d);
    assert(r <= y) by {
        if r > y {
            assert(d % r != 0);
        }
    }
    let i0 = prime_count(r as nat) as int;
    assert(ps[i0] == r);
    assert(i0 != 0);
    assert(divides(ps[i0] as int, d));
    let j = lemma_first_index(ps, d, i0);
    assert(divides(ps[j] as int, d));
    j
}

/// The least index `j <= i0` whose prime divides `d`.
proof fn lemma_first_index(ps: Seq<u32>, d: int, i0: int) -> (j: int)
    requires
        1 <= i0 < ps.len(),
        divides(ps[i0] as int, d),
    ensures
        1 <= j <= i0,
        divides(ps[j] as int, d),
        forall|i: int| 1 <= i < j ==> !#[trigger] divides(ps[i] as int, d),
    decreases i0,
{
    if i0 == 1 {
        1
    } else if exists|i: int| 1 <= i < i0 && #[trigger] divides(ps[i] as int, d) {
        let i1 = choose|i: int| 1 <= i < i0 && #[trigger] divides(ps[i] as int, d);
        lemma_first_index(ps, d, i1)
    } else {
        i0
    }
}

/// A divisor of a `y`-smooth number is `y`-smooth.
proof fn lemma_smooth_divisor(d: int, e: int, y: int)
    requires
        y >= 1,
        y_smooth_spec(d, y),
        e >= 1,
        divides(e, d),
    ensures
        y_smooth_spec(e, y),
{
    assert forall|p: int| y < p <= e && is_prime(p as nat) implies #[trigger] (e % p) != 0 by {
        if e % p == 0 {
            lemma_divides_transitive(p, e, d);
            lemma_exact(d, e);
            assert(e <= d) by (nonlinear_arith)
                requires
                    d == e * (d / e),
                    d >= 1,
                    e >= 1,
            ;
            assert(d % p != 0);
        }
    }
}

/// A prime of the table is `y`-smooth, with only itself among the table
/// primes dividing it.
pub proof fn lemma_table_prime_smooth(ps: Seq<u32>, y: int, i: int)
    requires
        prime_table(ps, y),
        1 <= i < ps.len(),
    ensures
        y_smooth_spec(ps[i] as int, y),
        factors_within(ps, ps[i] as int, i - 1, i),
{
    lemma_prime_table(ps, y);
    assert forall|t: int| 1 <= t < ps.len() && #[trigger] divides(ps[t] as int, ps[i] as int) implies i - 1 < t <= i by {
        lemma_table_divides(ps, y, t, i);
    }
}

/// At each `n`, at most the child `j` of `sf` contributes, and it gives the
/// term of `n` below `sf` if there is one.
proof fn lemma_node_point(y: int, z: int, ps: Seq<u32>, v: spec_fn(int) -> int, sf: int, b: int, n: int) -> (j: int)
    requires
        prime_table(ps, y),
        1 <= y,
        sf >= 1,
        0 <= b < ps.len(),
        1 <= n <= z,
    ensures
        forall|i: int| b < i < ps.len() && i != j ==> #[trigger] node_part(y, z, ps, v, sf, i, n) == 0,
        b < j < ps.len() ==> node_part(y, z, ps, v, sf, j, n) == node_term(y, z, ps, v, sf, b, n),
        !(b < j < ps.len()) ==> node_term(y, z, ps, v, sf, b, n) == 0,
{
    lemma_prime_table(ps, y);
    let a = ps.len() - 1;
    let cond = divides(sf, n) && n / sf >= 2 && mobius(n) != 0 && factors_within(ps, n / sf, b, a) && y_smooth_spec(
        n / sf,
        y,
    );
    if cond {
        let d = n / sf;
        lemma_exact(n, sf);
        let j = lemma_least_index(ps, y, d, b);
        let p = ps[j] as int;
        lemma_exact(d, p);
        let e = d / p;
        assert(e >= 1) by (nonlinear_arith)
            requires
                d == p * e,
                d >= 2,
                p >= 2,
        ;
        assert(n == (sf * p) * e) by (nonlinear_arith)
            requires
                n == sf * d,
                d == p * e,
        ;
        assert(sf * p >= 1) by (nonlinear_arith)
            requires
                sf >= 1,
                p >= 2,
        ;
        lemma_multiple(sf * p, e);
        // the child j
        if e == 1 {
            assert(n == sf * p) by (nonlinear_arith)
                requires
                    n == (sf * p) * e,
                    e == 1,
            ;
        } else {
            assert(n != sf * p) by (nonlinear_arith)
                requires
                    n == (sf * p) * e,
                    e >= 2,
                    sf * p >= 1,
            ;
            assert(d == e * p) by (nonlinear_arith)
                requires
                    d == p * e,
            ;
            lemma_multiple(e, p);
            assert(!divides(p, e)) by {
                if divides(p, e) {
                    lemma_exact(e, p);
                    assert(n == (p * p) * (sf * (e / p))) by (nonlinear_arith)
                        requires
                            n == (sf * p) * e,
                            e == p * (e / p),
                    ;
                    assert(p * p > 0) by (nonlinear_arith)
                        requires
                            p >= 2,
                    ;
                    lemma_multiple(p * p, sf * (e / p));
                    lemma_mobius_square(n, p);
                }
            }
            assert forall|i: int| 1 <= i < ps.len() && #[trigger] divides(ps[i] as int, e) implies j < i <= a by {
                lemma_divides_transitive(ps[i] as int, e, d);
                assert(divides(ps[i] as int, d));
                if i == j {
                    assert(divides(p, e));
                }
            }
            lemma_smooth_divisor(d, e, y);
        }
        assert(node_part(y, z, ps, v, sf, j, n) == node_term(y, z, ps, v, sf, b, n));
        // no other child
        assert forall|i: int| b < i < ps.len() && i != j implies #[trigger] node_part(y, z, ps, v, sf, i, n) == 0 by {
            let q = ps[i] as int;
            assert(sf * q >= 1) by (nonlinear_arith)
                requires
                    sf >= 1,
                    q >= 2,
            ;
            if n == sf * q {
                lemma_multiple(sf, q);
                assert(d == q);
                lemma_table_divides(ps, y, j, i);
            }
            if node_term(y, z, ps, v, sf * q, i, n) != 0 {
                let e2 = n / (sf * q);
                lemma_exact(n, sf * q);
                assert(n == sf * (q * e2)) by (nonlinear_arith)
                    requires
                        n == (sf * q) * e2,
                ;
                lemma_multiple(sf, q * e2);
                assert(d == q * e2);
                lemma_multiple(q, e2);
                assert(divides(ps[i] as int, d));
                assert(j <= i);
                lemma_euclid(p, q, e2);
                if divides(p, q) {
                    lemma_table_divides(ps, y, j, i);
                } else {
                    assert(divides(ps[j] as int, e2));
                }
            }
        }
        j
    } else {
        assert forall|i: int| b < i < ps.len() implies #[trigger] node_part(y, z, ps, v, sf, i, n) == 0 by {
            let q = ps[i] as int;
            assert(sf * q >= 1) by (nonlinear_arith)
                requires
                    sf >= 1,
                    q >= 2,
            ;
            if n == sf * q && mobius(n) != 0 {
                lemma_multiple(sf, q);
                lemma_table_prime_smooth(ps, y, i);
                assert forall|t: int| 1 <= t < ps.len() && #[trigger] divides(ps[t] as int, q) implies b < t <= a by {
                    lemma_table_divides(ps, y, t, i);
                }
                assert(false);
            }
            if n == sf * q && mobius(n) == 0 {
                let f = v(n);
                assert(mobius(n) * f == 0) by (nonlinear_arith)
                    requires
                        mobius(n) == 0,
                ;
            }
            if node_term(y, z, ps, v, sf * q, i, n) != 0 {
                let e2 = n / (sf * q);
                lemma_exact(n, sf * q);
                assert(n == sf * (q * e2)) by (nonlinear_arith)
                    requires
                        n == (sf * q) * e2,
                ;
                lemma_multiple(sf, q * e2);
                assert(q * e2 >= 2) by (nonlinear_arith)
                    requires
                        q >= 2,
                        e2 >= 2,
                ;
                assert forall|t: int| 1 <= t < ps.len() && #[trigger] divides(ps[t] as int, q * e2) implies b < t
                    <= a by {
                    lemma_euclid(ps[t] as int, q, e2);
                    if divides(ps[t] as int, q) {
                        lemma_table_divides(ps, y, t, i);
                    } else {
                        assert(divides(ps[t] as int, e2));
                    }
                }
                assert(y_smooth_spec(q * e2, y)) by {
                    assert forall|r: int| y < r <= q * e2 && is_prime(r as nat) implies #[trigger] ((q * e2) % r) != 0 by {
                        if (q * e2) % r == 0 {
                            lemma_euclid(r, q, e2);
                            if q % r == 0 {
                                lemma_prime_divides_prime(r, q);
                            } else {
                                lemma_exact(e2, r);
                                assert(r <= e2) by (nonlinear_arith)
                                    requires
                                        e2 == r * (e2 / r),
                                        e2 >= 1,
                                        r >= 1,
                                ;
                                assert(e2 % r != 0);
                            }
                        }
                    }
                }
                assert(false);
            }
        }
        b
    }
}

/// The children of a node make up what lies below it.
pub proof fn lemma_node_split(y: int, z: int, ps: Seq<u32>, v: spec_fn(int) -> int, sf: int, b: int)
    requires
        prime_table(ps, y),
        1 <= y,
        z >= 0,
        sf >= 1,
        0 <= b < ps.len(),
    ensures
        node_sum(y, z, ps, v, sf, b) == sum_to(node_children(y, z, ps, v, sf), b + 1, ps.len() as int),
{
    let rows = node_rows(y, z, ps, v, sf, b + 1, ps.len() as int);
    assert forall|n: int| 1 <= n < z + 1 implies #[trigger] node_terms(y, z, ps, v, sf, b)(n) == rows(n) by {
        let j = lemma_node_point(y, z, ps, v, sf, b, n);
        let f = node_parts_at(y, z, ps, v, sf, n);
        if b < j < ps.len() {
            assert forall|i: int| b + 1 <= i < ps.len() && i != j implies #[trigger] f(i) == 0 by {}
            lemma_sum_single(f, b + 1, ps.len() as int, j);
        } else {
            assert forall|i: int| b + 1 <= i < ps.len() implies #[trigger] f(i) == 0 by {}
            lemma_sum_zero(f, b + 1, ps.len() as int);
        }
    }
    lemma_sum_ext(node_terms(y, z, ps, v, sf, b), rows, 1, z + 1);
    lemma_node_swap(y, z, ps, v, sf, b + 1, ps.len() as int, z + 1);
    let sw = |i: int| sum_to(node_parts_of(y, z, ps, v, sf, i), 1, z + 1);
    assert forall|i: int| b + 1 <= i < ps.len() implies #[trigger] sw(i) == node_children(y, z, ps, v, sf)(i) by {}
    lemma_sum_ext(sw, node_children(y, z, ps, v, sf), b + 1, ps.len() as int);
}

/// A child of `sf`: the node `sf * p_i` itself, when it is at most `z`, and
/// what lies below it.
pub proof fn lemma_node_child(y: int, z: int, ps: Seq<u32>, v: spec_fn(int) -> int, sf: int, i: int)
    requires
        prime_table(ps, y),
        sf >= 1,
        1 <= i < ps.len(),
        z >= 0,
    ensures
        node_child(y, z, ps, v, sf, i) == (if sf * (ps[i] as int) <= z {
            mobius(sf * (ps[i] as int)) * v(sf * (ps[i] as int))
        } else {
            0
        }) + node_sum(y, z, ps, v, sf * (ps[i] as int), i),
{
    lemma_prime_table(ps, y);
    let q = ps[i] as int;
    let m = sf * q;
    assert(m >= 2) by (nonlinear_arith)
        requires
            sf >= 1,
            q >= 2,
            m == sf * q,
    ;
    let own = |n: int| if 1 <= n <= z && n == m { mobius(n) * v(n) } else { 0 };
    assert forall|n: int| 1 <= n < z + 1 implies #[trigger] node_parts_of(y, z, ps, v, sf, i)(n) == own(n)
        + node_terms(y, z, ps, v, m, i)(n) by {}
    lemma_sum_add(node_parts_of(y, z, ps, v, sf, i), own, node_terms(y, z, ps, v, m, i), 1, z + 1);
    if m <= z {
        assert forall|n: int| 1 <= n < z + 1 && n != m implies #[trigger] own(n) == 0 by {}
        lemma_sum_single(own, 1, z + 1, m);
    } else {
        assert forall|n: int| 1 <= n < z + 1 implies #[trigger] own(n) == 0 by {}
        lemma_sum_zero(own, 1, z + 1);
    }
}

/// Below a node beyond `z` there is nothing.
pub proof fn lemma_node_beyond(y: int, z: int, ps: Seq<u32>, v: spec_fn(int) -> int, sf: int, b: int)
    requires
        sf > z,
    ensures
        node_sum(y, z, ps, v, sf, b) == 0,
{
    assert forall|n: int| 1 <= n < z + 1 implies #[trigger] node_terms(y, z, ps, v, sf, b)(n) == 0 by {
        if divides(sf, n) {
            lemma_small_mod(n as nat, sf as nat);
        }
    }
    lemma_sum_zero(node_terms(y, z, ps, v, sf, b), 1, z + 1);
}

/// A sum of terms at most `m` in size is at most `(hi - lo) * m` in size.
proof fn lemma_sum_abs(f: spec_fn(int) -> int, lo: int, hi: int, m: int)
    requires
        lo <= hi,
        forall|i: int| lo <= i < hi ==> -m <= #[trigger] f(i) <= m,
    ensures
        -(hi - lo) * m <= sum_to(f, lo, hi) <= (hi - lo) * m,
    decreases hi - lo,
{
    if hi > lo {
        lemma_sum_abs(f, lo, hi - 1, m);
        assert(-m <= f(hi - 1) <= m);
        assert((hi - lo) * m == (hi - 1 - lo) * m + m) by (nonlinear_arith);
        assert(-(hi - lo) * m == -(hi - 1 - lo) * m - m) by (nonlinear_arith);
    } else {
        assert((hi - lo) * m == 0 && -(hi - lo) * m == 0) by (nonlinear_arith)
            requires
                hi == lo,
        ;
    }
}

/// A sum whose terms from `mid` on vanish stops at `mid`.
pub proof fn lemma_sum_tail_zero(f: spec_fn(int) -> int, lo: int, mid: int, hi: int)
    requires
        lo <= mid <= hi,
        forall|i: int| mid <= i < hi ==> #[trigger] f(i) == 0,
    ensures
        sum_to(f, lo, hi) == sum_to(f, lo, mid),
    decreases hi - mid,
{
    if hi > mid {
        lemma_sum_tail_zero(f, lo, mid, hi - 1);
        assert(f(hi - 1) == 0);
    }
}

/// The value of a node is at most `bound` in size when `v` is.
proof fn lemma_node_term_bound(y: int, z: int, ps: Seq<u32>, v: spec_fn(int) -> int, sf: int, b: int, n: int, bound: int)
    requires
        bound >= 0,
        forall|t: int| 1 <= t <= z ==> -bound <= #[trigger] v(t) <= bound,
    ensures
        -bound <= node_term(y, z, ps, v, sf, b, n) <= bound,
{
    if node_term(y, z, ps, v, sf, b, n) != 0 {
        crate::tables::lemma_mobius_range_pub(n);
        let f = v(n);
        assert(-bound <= mobius(n) * f <= bound) by (nonlinear_arith)
            requires
                -1 <= mobius(n) <= 1,
                -bound <= f <= bound,
        ;
    }
}

/// The leaves below a node, and any run of its children, are at most
/// `z * bound` in size when `v` is at most `bound`.
pub proof fn lemma_node_bounds(y: int, z: int, ps: Seq<u32>, v: spec_fn(int) -> int, sf: int, b: int, i: int, bound: int)
    requires
        prime_table(ps, y),
        1 <= y,
        z >= 0,
        bound >= 0,
        sf >= 1,
        0 <= b < ps.len(),
        b + 1 <= i <= ps.len(),
        forall|t: int| 1 <= t <= z ==> -bound <= #[trigger] v(t) <= bound,
    ensures
        -z * bound <= node_sum(y, z, ps, v, sf, b) <= z * bound,
        -z * bound <= sum_to(node_children(y, z, ps, v, sf), b + 1, i) <= z * bound,
{
    assert forall|n: int| 1 <= n < z + 1 implies -bound <= #[trigger] node_terms(y, z, ps, v, sf, b)(n) <= bound by {
        lemma_node_term_bound(y, z, ps, v, sf, b, n, bound);
    }
    lemma_sum_abs(node_terms(y, z, ps, v, sf, b), 1, z + 1, bound);
    let rows = node_rows(y, z, ps, v, sf, b + 1, i);
    assert forall|n: int| 1 <= n < z + 1 implies -bound <= #[trigger] rows(n) <= bound by {
        let j = lemma_node_point(y, z, ps, v, sf, b, n);
        lemma_node_term_bound(y, z, ps, v, sf, b, n, bound);
        let f = node_parts_at(y, z, ps, v, sf, n);
        if b + 1 <= j < i {
            assert forall|t: int| b + 1 <= t < i && t != j implies #[trigger] f(t) == 0 by {}
            lemma_sum_single(f, b + 1, i, j);
        } else {
            assert forall|t: int| b + 1 <= t < i implies #[trigger] f(t) == 0 by {}
            lemma_sum_zero(f, b + 1, i);
        }
    }
    lemma_sum_abs(rows, 1, z + 1, bound);
    lemma_node_swap(y, z, ps, v, sf, b + 1, i, z + 1);
    let sw = |t: int| sum_to(node_parts_of(y, z, ps, v, sf, t), 1, z + 1);
    assert forall|t: int| b + 1 <= t < i implies #[trigger] sw(t) == node_children(y, z, ps, v, sf)(t) by {}
    lemma_sum_ext(sw, node_children(y, z, ps, v, sf), b + 1, i);
}

/// Past the last prime of the table nothing lies below a node.
pub proof fn lemma_node_none(y: int, z: int, ps: Seq<u32>, v: spec_fn(int) -> int, sf: int, b: int)
    requires
        prime_table(ps, y),
        1 <= y,
        sf >= 1,
        b >= ps.len() - 1,
    ensures
        node_sum(y, z, ps, v, sf, b) == 0,
{
    assert forall|n: int| 1 <= n < z + 1 implies #[trigger] node_terms(y, z, ps, v, sf, b)(n) == 0 by {
        if node_term(y, z, ps, v, sf, b, n) != 0 {
            lemma_least_index(ps, y, n / sf, b);
        }
    }
    lemma_sum_zero(node_terms(y, z, ps, v, sf, b), 1, z + 1);
}

} // verus!
