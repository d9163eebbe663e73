//! Mathematical model: primality, the prime-counting function and the
//! facts about divisors that every counting method relies on.

use vstd::prelude::*;

verus! {

/// `n` is prime: at least 2 and without a divisor strictly between 1 and `n`.
pub open spec fn is_prime(n: nat) -> bool {
    &&& n >= 2
    &&& forall|d: nat| 2 <= d < n ==> #[trigger] (n % d) != 0
}

/// pi(n): the number of primes in [1, n].
pub open spec fn prime_count(n: nat) -> nat
    decreases n,
{
    if n == 0 {
        0
    } else {
        prime_count((n - 1) as nat) + if is_prime(n) { 1nat } else { 0nat }
    }
}

/// pi is non-decreasing.
pub proof fn lemma_prime_count_monotone(a: nat, b: nat)
    requires
        a <= b,
    ensures
        prime_count(a) <= prime_count(b),
    decreases b - a,
{
    if a < b {
        lemma_prime_count_monotone(a, (b - 1) as nat);
    }
}

/// pi(n) <= n.
pub proof fn lemma_prime_count_le(n: nat)
    ensures
        prime_count(n) <= n,
    decreases n,
{
    if n > 0 {
        lemma_prime_count_le((n - 1) as nat);
    }
}

/// A number with a divisor strictly between 1 and itself is not prime.
pub proof fn lemma_divisor_not_prime(n: nat, d: nat)
    requires
        2 <= d < n,
        n % d == 0,
    ensures
        !is_prime(n),
{
}

/// The smallest divisor (at least 2) of a number at least 2 is prime.
pub proof fn lemma_least_divisor_prime(n: nat, d: nat)
    requires
        n >= 2,
        2 <= d <= n,
        n % d == 0,
        forall|e: nat| 2 <= e < d ==> #[trigger] (n % e) != 0,
    ensures
        is_prime(d),
{
    assert forall|e: nat| 2 <= e < d implies #[trigger] (d % e) != 0 by {
        if d % e == 0 {
            // e | d and d | n give e | n
            let a = d / e;
            let b = n / d;
            vstd::arithmetic::div_mod::lemma_fundamental_div_mod(d as int, e as int);
            vstd::arithmetic::div_mod::lemma_fundamental_div_mod(n as int, d as int);
            assert(n == (e * a) * b);
            vstd::arithmetic::mul::lemma_mul_is_associative(e as int, a as int, b as int);
            vstd::arithmetic::div_mod::lemma_mod_multiples_basic((a * b) as int, e as int);
            vstd::arithmetic::mul::lemma_mul_is_commutative(e as int, (a * b) as int);
        }
    }
}

/// A composite number `n` has a prime factor `p` with `p * p <= n`.
pub proof fn lemma_composite_has_small_prime_factor(n: nat) -> (p: nat)
    requires
        n >= 2,
        !is_prime(n),
    ensures
        is_prime(p),
        n % p == 0,
        p * p <= n,
{
    // the least divisor d of n in [2, n)
    let d = choose|d: nat| 2 <= d < n && #[trigger] (n % d) == 0;
    let p = lemma_least_divisor_below(n, d);
    lemma_least_divisor_prime(n, p);
    // n = p * q with q >= p, since q is also a divisor >= 2
    let q = n / p;
    vstd::arithmetic::div_mod::lemma_fundamental_div_mod(n as int, p as int);
    assert(n == p * q);
    if q < p {
        if q < 2 {
            assert(q == 0 || q == 1);
            assert(p * q <= p) by (nonlinear_arith)
                requires
                    q <= 1,
            ;
        }
        vstd::arithmetic::mul::lemma_mul_is_commutative(p as int, q as int);
        vstd::arithmetic::div_mod::lemma_mod_multiples_basic(p as int, q as int);
        assert(n % q == 0);
        assert(false);
    }
    assert(p * p <= p * q) by (nonlinear_arith)
        requires
            p <= q,
    ;
    p
}

/// Among divisors in [2, d] of `n` there is a least one.
proof fn lemma_least_divisor_below(n: nat, d: nat) -> (m: nat)
    requires
        2 <= d,
        n % d == 0,
    ensures
        2 <= m <= d,
        n % m == 0,
        forall|e: nat| 2 <= e < m ==> #[trigger] (n % e) != 0,
    decreases d,
{
    if exists|e: nat| 2 <= e < d && #[trigger] (n % e) == 0 {
        let e = choose|e: nat| 2 <= e < d && #[trigger] (n % e) == 0;
        lemma_least_divisor_below(n, e)
    } else {
        d
    }
}

/// A number without a prime factor `p` with `p * p <= n` is prime (for n >= 2).
pub proof fn lemma_no_small_factor_prime(n: nat)
    requires
        n >= 2,
        forall|p: nat| is_prime(p) && p * p <= n ==> #[trigger] (n % p) != 0,
    ensures
        is_prime(n),
{
    if !is_prime(n) {
        let p = lemma_composite_has_small_prime_factor(n);
        assert(n % p != 0);
    }
}


/// Euclid's lemma, for a multiplier reduced below the prime: if `q` divides
/// `r * b` with `0 < r < q`, then `q` divides `b`.
proof fn lemma_euclid_reduced(q: int, r: int, b: int)
    requires
        q > 1,
        is_prime(q as nat),
        0 < r < q,
        b >= 0,
        (r * b) % q == 0,
    ensures
        b % q == 0,
    decreases r,
{
    if r > 1 {
        let s = q % r;
        let t = q / r;
        vstd::arithmetic::div_mod::lemma_fundamental_div_mod(q, r);
        assert(q % r != 0);
        assert(0 < s < r);
        // s * b = q * b - t * (r * b)
        assert(s * b == q * b - t * (r * b)) by (nonlinear_arith)
            requires
                q == r * t + s,
        ;
        let m = (r * b) / q;
        vstd::arithmetic::div_mod::lemma_fundamental_div_mod(r * b, q);
        assert(s * b == q * (b - t * m)) by (nonlinear_arith)
            requires
                s * b == q * b - t * (r * b),
                r * b == q * m + (r * b) % q,
                (r * b) % q == 0,
        ;
        vstd::arithmetic::mul::lemma_mul_is_commutative(q, b - t * m);
        vstd::arithmetic::div_mod::lemma_mod_multiples_basic(b - t * m, q);
        lemma_euclid_reduced(q, s, b);
    } else {
        assert(r * b == b) by (nonlinear_arith)
            requires
                r == 1,
        ;
    }
}

/// Euclid's lemma: a prime dividing a product divides one of the factors.
pub proof fn lemma_euclid(q: int, a: int, b: int)
    requires
        q > 1,
        is_prime(q as nat),
        a >= 0,
        b >= 0,
        (a * b) % q == 0,
    ensures
        a % q == 0 || b % q == 0,
{
    let r = a % q;
    if r != 0 {
        vstd::arithmetic::div_mod::lemma_mul_mod_noop_left(a, b, q);
        lemma_euclid_reduced(q, r, b);
    }
}

/// `k` survives sieving by every `d` in `[2, m]`: it is at least 2 and no
/// such `d` below `k` divides it.
pub open spec fn survives(k: int, m: int) -> bool {
    &&& k >= 2
    &&& forall|d: int| 2 <= d <= m && d < k ==> #[trigger] (k % d) != 0
}

/// The Legendre-style sieve count `S(v, m)`: the numbers in `[2, v]` that
/// survive sieving by `[2, m]`.
pub open spec fn sieve_count(v: int, m: int) -> int
    decreases v,
{
    if v < 2 {
        0
    } else {
        sieve_count(v - 1, m) + if survives(v, m) {
            1int
        } else {
            0int
        }
    }
}

pub proof fn lemma_sieve_count_nonneg_le(v: int, m: int)
    ensures
        0 <= sieve_count(v, m),
        v >= 1 ==> sieve_count(v, m) <= v - 1,
    decreases v,
{
    if v >= 2 {
        lemma_sieve_count_nonneg_le(v - 1, m);
    }
}

/// Before any sieving every number from 2 survives: `S(v, 1) = v - 1`.
pub proof fn lemma_sieve_count_initial(v: int)
    requires
        v >= 1,
    ensures
        sieve_count(v, 1) == v - 1,
    decreases v,
{
    if v >= 2 {
        lemma_sieve_count_initial(v - 1);
    }
}

/// Sieving by a non-prime changes nothing.
pub proof fn lemma_survives_composite_step(k: int, m: int)
    requires
        m >= 2,
        !is_prime(m as nat),
    ensures
        survives(k, m) == survives(k, m - 1),
{
    if survives(k, m - 1) && k >= 2 && m < k && k % m == 0 {
        // a prime factor of m, below m, divides k
        let p = lemma_composite_has_small_prime_factor(m as nat);
        assert(p < m) by (nonlinear_arith)
            requires
                p * p <= m,
                p >= 2,
        ;
        lemma_divides_transitive(p as int, m, k);
        assert(k % (p as int) != 0);
    }
}

/// Divisibility is transitive.
pub proof fn lemma_divides_transitive(a: int, b: int, c: int)
    requires
        a > 0,
        b > 0,
        c >= 0,
        b % a == 0,
        c % b == 0,
    ensures
        c % a == 0,
{
    vstd::arithmetic::div_mod::lemma_fundamental_div_mod(b, a);
    vstd::arithmetic::div_mod::lemma_fundamental_div_mod(c, b);
    let x = b / a;
    let y = c / b;
    assert(c == a * (x * y)) by (nonlinear_arith)
        requires
            b == a * x + b % a,
            b % a == 0,
            c == b * y + c % b,
            c % b == 0,
    ;
    vstd::arithmetic::mul::lemma_mul_is_commutative(a, x * y);
    vstd::arithmetic::div_mod::lemma_mod_multiples_basic(x * y, a);
}

/// `S(v, m)` does not change over a stretch without primes.
pub proof fn lemma_sieve_count_no_prime_between(v: int, a: int, b: int)
    requires
        1 <= a <= b,
        forall|m: int| a < m <= b ==> !#[trigger] is_prime(m as nat),
    ensures
        sieve_count(v, a) == sieve_count(v, b),
    decreases b - a,
{
    if a < b {
        lemma_sieve_count_no_prime_between(v, a, b - 1);
        lemma_sieve_count_composite_step(v, b);
    }
}

proof fn lemma_sieve_count_composite_step(v: int, m: int)
    requires
        m >= 2,
        !is_prime(m as nat),
    ensures
        sieve_count(v, m) == sieve_count(v, m - 1),
    decreases v,
{
    if v >= 2 {
        lemma_sieve_count_composite_step(v - 1, m);
        lemma_survives_composite_step(v, m);
    }
}

/// Once `m` reaches the square root of `v`, the survivors are the primes.
pub proof fn lemma_sieve_count_primes(v: int, m: int)
    requires
        v >= 0,
        m >= 1,
        v < (m + 1) * (m + 1),
    ensures
        sieve_count(v, m) == prime_count(v as nat),
    decreases v,
{
    if v >= 1 {
        lemma_sieve_count_primes(v - 1, m);
        assert((v - 1) < (m + 1) * (m + 1));
        if v >= 2 {
            if is_prime(v as nat) {
                assert forall|d: int| 2 <= d <= m && d < v implies #[trigger] (v % d) != 0 by {
                    assert((v as nat) % (d as nat) != 0);
                }
            } else {
                let p = lemma_composite_has_small_prime_factor(v as nat);
                assert(p <= m) by (nonlinear_arith)
                    requires
                        p * p <= v,
                        v < (m + 1) * (m + 1),
                        m >= 1,
                ;
                assert(p < v) by (nonlinear_arith)
                    requires
                        p * p <= v,
                        p >= 2,
                ;
                assert(!survives(v, m));
            }
        }
    }
}


/// Sieving by the prime `p` removes exactly the multiples `p * t` with
/// `t >= p` and `t` surviving the smaller sieve.
proof fn lemma_removed_by_prime(k: int, p: int)
    requires
        p > 1,
        is_prime(p as nat),
        k >= 2,
    ensures
        (survives(k, p - 1) && !survives(k, p)) <==> (k % p == 0 && k / p >= p && survives(k / p, p - 1)),
{
    vstd::arithmetic::div_mod::lemma_fundamental_div_mod(k, p);
    let t = k / p;
    if survives(k, p - 1) && !survives(k, p) {
        let d = choose|d: int| 2 <= d <= p && d < k && #[trigger] (k % d) == 0;
        assert(d == p);
        assert(k == p * t);
        assert(t >= 2) by (nonlinear_arith)
            requires
                k == p * t,
                p < k,
                p > 1,
        ;
        assert forall|e: int| 2 <= e <= p - 1 && e < t implies #[trigger] (t % e) != 0 by {
            if t % e == 0 {
                vstd::arithmetic::mul::lemma_mul_is_commutative(p, t);
                vstd::arithmetic::div_mod::lemma_mod_multiples_basic(p, t);
                lemma_divides_transitive(e, t, k);
                assert(e < k);
            }
        }
        if t < p {
            vstd::arithmetic::mul::lemma_mul_is_commutative(p, t);
            vstd::arithmetic::div_mod::lemma_mod_multiples_basic(p, t);
            assert(t < k);
            assert(k % t == 0);
        }
    }
    if k % p == 0 && t >= p && survives(t, p - 1) {
        assert(k == p * t);
        assert(p < k) by (nonlinear_arith)
            requires
                k == p * t,
                t >= p,
                p > 1,
        ;
        assert(!survives(k, p));
        assert forall|d: int| 2 <= d <= p - 1 && d < k implies #[trigger] (k % d) != 0 by {
            if k % d == 0 {
                // the least divisor q of d is prime and divides p * t
                let q = lemma_least_divisor_below(d as nat, d as nat);
                lemma_least_divisor_prime(d as nat, q);
                lemma_divides_transitive(q as int, d, k);
                assert((p * t) % (q as int) == 0);
                lemma_euclid(q as int, p, t);
                if p % (q as int) == 0 {
                    assert(!is_prime(p as nat)) by {
                        lemma_divisor_not_prime(p as nat, q);
                    }
                } else {
                    assert(q < t);
                    assert(t % (q as int) != 0);
                }
            }
        }
    }
}

proof fn lemma_sieve_count_monotone_m(v: int, p: int)
    ensures
        sieve_count(v, p) <= sieve_count(v, p - 1),
    decreases v,
{
    if v >= 2 {
        lemma_sieve_count_monotone_m(v - 1, p);
    }
}

/// The removed count up to `v`.
pub open spec fn removed_count(v: int, p: int) -> int
    decreases v,
{
    if v < 2 {
        0
    } else {
        removed_count(v - 1, p) + if survives(v, p - 1) && !survives(v, p) {
            1int
        } else {
            0int
        }
    }
}

proof fn lemma_removed_count_diff(v: int, p: int)
    ensures
        removed_count(v, p) == sieve_count(v, p - 1) - sieve_count(v, p),
    decreases v,
{
    if v >= 2 {
        lemma_removed_count_diff(v - 1, p);
    }
}

/// One Lucy_Hedgehog step: sieving by the prime `p` lowers `S(v, .)` by
/// `S(v / p, p - 1) - S(p - 1, p - 1)` once `v >= p * p - 1`, and leaves it
/// unchanged below `p * p`.
pub proof fn lemma_sieve_count_prime_step(v: int, p: int)
    requires
        p > 1,
        is_prime(p as nat),
        v >= 0,
    ensures
        v < p * p ==> sieve_count(v, p) == sieve_count(v, p - 1),
        v >= p * p - 1 ==> sieve_count(v, p) == sieve_count(v, p - 1) - (sieve_count(v / p, p - 1)
            - sieve_count(p - 1, p - 1)),
    decreases v,
{
    assert(p * p >= 4) by (nonlinear_arith)
        requires
            p > 1,
    ;
    lemma_removed_count_diff(v, p);
    if v >= 2 {
        lemma_sieve_count_prime_step(v - 1, p);
        lemma_removed_count_diff(v - 1, p);
        lemma_removed_by_prime(v, p);
    }
    if v < p * p {
        if v >= 2 && survives(v, p - 1) && !survives(v, p) {
            vstd::arithmetic::div_mod::lemma_fundamental_div_mod(v, p);
            assert(v >= p * p) by (nonlinear_arith)
                requires
                    v / p >= p,
                    v == p * (v / p) + v % p,
                    v % p >= 0,
                    p > 0,
            ;
        }
    }
    if v == p * p - 1 {
        assert(v / p == p - 1) by {
            assert(v == (p - 1) * p + (p - 1)) by (nonlinear_arith)
                requires
                    v == p * p - 1,
            ;
            vstd::arithmetic::div_mod::lemma_fundamental_div_mod_converse(v, p, p - 1, p - 1);
        }
    }
    if v >= p * p {
        assert(removed_count(v, p) == removed_count(v - 1, p) + if survives(v, p - 1) && !survives(
            v,
            p,
        ) {
            1int
        } else {
            0int
        });
        lemma_sieve_count_prime_step(v - 1, p);
        lemma_removed_count_diff(v - 1, p);
        assert(v - 1 >= p * p - 1);
        assert(sieve_count(v - 1, p) == sieve_count(v - 1, p - 1) - (sieve_count((v - 1) / p, p - 1)
            - sieve_count(p - 1, p - 1)));
        assert(removed_count(v - 1, p) == sieve_count((v - 1) / p, p - 1) - sieve_count(p - 1, p - 1));
        // v / p and (v - 1) / p
        vstd::arithmetic::div_mod::lemma_fundamental_div_mod(v, p);
        vstd::arithmetic::div_mod::lemma_fundamental_div_mod(v - 1, p);
        if v % p == 0 {
            assert((v - 1) / p == v / p - 1) by {
                assert(v - 1 == (v / p - 1) * p + (p - 1)) by (nonlinear_arith)
                    requires
                        v == p * (v / p) + v % p,
                        v % p == 0,
                ;
                vstd::arithmetic::div_mod::lemma_fundamental_div_mod_converse(v - 1, p, v / p - 1, p - 1);
            }
            assert(v / p >= p) by (nonlinear_arith)
                requires
                    v >= p * p,
                    v == p * (v / p),
                    p > 0,
            ;
            assert(v / p >= 2);
            assert(sieve_count(v / p, p - 1) == sieve_count(v / p - 1, p - 1) + if survives(
                v / p,
                p - 1,
            ) {
                1int
            } else {
                0int
            });
        } else {
            assert((v - 1) / p == v / p) by {
                assert(v - 1 == (v / p) * p + (v % p - 1)) by (nonlinear_arith)
                    requires
                        v == p * (v / p) + v % p,
                ;
                vstd::arithmetic::div_mod::lemma_fundamental_div_mod_converse(v - 1, p, v / p, v % p - 1);
            }
        }
    }
}

/// pi(n) for n below 5.
pub proof fn lemma_prime_count_small()
    ensures
        prime_count(0) == 0,
        prime_count(1) == 0,
        prime_count(2) == 1,
        prime_count(3) == 2,
        prime_count(4) == 2,
{
    assert(!is_prime(0));
    assert(!is_prime(1));
    assert(is_prime(2));
    assert(is_prime(3)) by {
        assert forall|d: nat| 2 <= d < 3 implies #[trigger] (3nat % d) != 0 by {
            assert(d == 2);
        }
    }
    assert(!is_prime(4)) by {
        assert(4nat % 2nat == 0);
    }
    reveal_with_fuel(prime_count, 5);
}

} // verus!
