//! B of Gourdon's decomposition: the sum of `pi(x / p)` over the odd primes
//! `y < p <= sqrt(x)`, pi read from the big table up to `sqrt(x)` and past
//! it counted along a stream of the primes above `sqrt(x)`.

use vstd::prelude::*;
use vstd::arithmetic::div_mod::*;
use crate::number_theory::{is_prime, prime_count};
use crate::big_pi::{BigPiTable, lemma_next_prime_counts_one_more, lemma_no_prime_in_gap};
use crate::pi_sieve::{flat_bit, odd_of};
use crate::roots::{isqrt, lemma_sqrt_unique};
use crate::lmo::is_sqrt;
use crate::sigma::floor_sqrt;
use crate::leaf_identity::sum_to;
use crate::small_sieve::{sieve_past, sieve_primes_from, sieve_bound, lemma_no_prime_gap};

verus! {

/// The term of `n` in B: `pi(x / n)` for an odd prime `n`.
pub open spec fn b_terms(x: int) -> spec_fn(int) -> int {
    |n: int|
        if n % 2 == 1 && is_prime(n as nat) {
            prime_count((x / n) as nat) as int
        } else {
            0
        }
}

/// B: `pi(x / p)` summed over the odd primes `y < p <= sqrt(x)`.
pub open spec fn b_spec(x: int, y: int) -> int {
    sum_to(b_terms(x), y + 1, floor_sqrt(x) + 1)
}

/// `pi(x / ns[i])` for `i < k`.
pub open spec fn b_list_sum(x: int, ns: Seq<u64>, k: int) -> int
    decreases k,
{
    if k <= 0 {
        0
    } else {
        b_list_sum(x, ns, k - 1) + prime_count((x / (ns[k - 1] as int)) as nat)
    }
}

proof fn lemma_sum_prepend(f: spec_fn(int) -> int, lo: int, hi: int)
    requires
        lo < hi,
    ensures
        sum_to(f, lo, hi) == f(lo) + sum_to(f, lo + 1, hi),
    decreases hi - lo,
{
    assert(sum_to(f, lo, hi) == sum_to(f, lo, hi - 1) + f(hi - 1));
    if hi - 1 > lo {
        lemma_sum_prepend(f, lo, hi - 1);
        assert(sum_to(f, lo + 1, hi) == sum_to(f, lo + 1, hi - 1) + f(hi - 1));
    } else {
        assert(sum_to(f, lo, hi - 1) == 0);
        assert(sum_to(f, lo + 1, hi) == 0);
    }
}

/// Bit `(n - 1) / 2` of the big table, read off its word.
fn odd_bit(big_pi: &BigPiTable, n: usize) -> (r: bool)
    requires
        big_pi.wf(),
        big_pi.limit@ >= 3,
        3 <= n <= big_pi.limit@,
        n % 2 == 1,
    ensures
        r == is_prime(n as nat),
{
    let i = (n - 1) / 2;
    proof {
        assert(odd_of(i as int) == n);
        assert(i < 64 * big_pi.bits@.len());
        lemma_fundamental_div_mod(i as int, 64);
    }
    let w = big_pi.bits_word(i / 64);
    let bit = (i % 64) as u64;
    proof {
        assert(flat_bit(big_pi.bits@, i as int) == is_prime(n as nat));
    }
    (w >> bit) & 1 == 1
}

/// B for `x` and `y`: the odd primes `p` of `(y, sqrt(x)]` from the largest
/// down, so that `x / p` rises; `pi(x / p)` from the big table while
/// `x / p <= sqrt(x)`, beyond by counting the primes above `sqrt(x)` up to
/// `x / p` in one increasing pass.
pub fn compute_b(x: u64, y: usize, big_pi: &BigPiTable) -> (r: i128)
    requires
        x <= 0x7fff_ffff_ffff_ffff,
        usize::BITS == 64,
        big_pi.wf(),
        (x as int) < (big_pi.limit@ + 1) * (big_pi.limit@ + 1),
    ensures
        r == b_spec(x as int, y as int),
{
    let ghost xi = x as int;
    let sx = isqrt(x);
    proof {
        assert(is_sqrt(xi, sx as int));
        let f = floor_sqrt(xi);
        assert(is_sqrt(xi, f));
        lemma_sqrt_unique(xi, f, sx as int);
        let bl = big_pi.limit@;
        assert(sx <= bl) by (nonlinear_arith)
            requires
                sx * sx <= xi,
                xi < (bl + 1) * (bl + 1),
                bl >= 0,
        ;
        assert(sx < 0x1_0000_0000) by (nonlinear_arith)
            requires
                sx * sx <= xi,
                xi <= 0x7fff_ffff_ffff_ffff,
        ;
    }
    let s = sx as usize;
    if y >= s {
        return 0;
    }
    // the odd primes of (y, s], largest first
    let mut ns: Vec<u64> = Vec::new();
    let mut n = s;
    let ghost bt = b_terms(xi);
    while n > y
        invariant
            big_pi.wf(),
            s <= big_pi.limit@,
            s < 0x1_0000_0000,
            y <= n <= s,
            bt == b_terms(xi),
            forall|i: int| 0 <= i < ns.len() ==> n < #[trigger] ns@[i] <= s,
            forall|i: int, j: int| 0 <= i < j < ns.len() ==> ns@[i] > ns@[j],
            forall|i: int| 0 <= i < ns.len() ==> is_prime(#[trigger] ns@[i] as nat),
            ns.len() <= s - n,
            sum_to(bt, n + 1, s + 1) == b_list_sum(xi, ns@, ns.len() as int),
        decreases n,
    {
        proof {
            lemma_sum_prepend(bt, n as int, s + 1);
        }
        if n % 2 == 1 && n >= 3 && odd_bit(big_pi, n) {
            let ghost before = ns@;
            ns.push(n as u64);
            proof {
                assert(b_list_sum(xi, ns@, ns.len() as int) == b_list_sum(xi, ns@, ns.len() - 1) + prime_count(
                    (xi / (n as int)) as nat,
                ));
                lemma_list_sum_stable(xi, ns@, before, before.len() as int);
            }
        } else {
            proof {
                if n % 2 == 1 && n < 3 {
                    assert(n == 1);
                    assert(!is_prime(1));
                }
                assert(bt(n as int) == 0);
            }
        }
        n -= 1;
    }
    // pi(x / p) for x / p rising
    let mut total: i128 = 0;
    let mut i: usize = 0;
    let base = big_pi.pi(s);
    let mut stream: Vec<usize> = Vec::new();
    let mut started = false;
    let mut j: usize = 0;
    let mut running: u64 = 0;
    let ghost mut bound: int = 0;
    let ghost mut last: int = s as int;
    while i < ns.len()
        invariant
            usize::BITS == 64,
            big_pi.wf(),
            s <= big_pi.limit@,
            s < 0x1_0000_0000,
            (s as int) * (s as int) <= xi < (s + 1) * (s + 1),
            xi == x,
            xi <= 0x7fff_ffff_ffff_ffff,
            base == prime_count(s as nat),
            forall|k: int| 0 <= k < ns.len() ==> y < #[trigger] ns@[k] <= s,
            forall|a: int, b: int| 0 <= a < b < ns.len() ==> ns@[a] > ns@[b],
            ns.len() <= s,
            i <= ns.len(),
            total == b_list_sum(xi, ns@, i as int),
            0 <= total <= i * 0x8000_0000_0000_0000,
            started ==> {
                &&& bound > xi / (ns@[ns.len() - 1] as int)
                &&& forall|a: int, b: int| 0 <= a < b < stream.len() ==> stream@[a] < stream@[b]
                &&& forall|a: int|
                    0 <= a < stream.len() ==> is_prime(#[trigger] stream@[a] as nat) && s + 1 <= stream@[a] <= bound
                &&& forall|q: usize| s + 1 <= q <= bound && is_prime(q as nat) ==> #[trigger] stream@.contains(q)
                &&& j <= stream.len()
                &&& (j == 0 ==> last == s)
                &&& (j > 0 ==> last == stream@[j - 1])
                &&& s <= last
                &&& (i > 0 ==> last <= xi / (ns@[i - 1] as int))
                &&& running == prime_count(last as nat) - prime_count(s as nat)
                &&& running <= last
            },
            !started ==> i == 0 || xi / (ns@[i - 1] as int) <= s,
            started ==> i > 0,
        decreases ns.len() - i,
    {
        let p = ns[i];
        let v = x / p;
        proof {
            if i > 0 {
                assert(ns@[i - 1] > p);
                lemma_div_is_ordered_by_denominator(xi, p as int, ns@[i - 1] as int);
            }
            if i < ns.len() - 1 {
                assert(ns@[i as int] > ns@[ns.len() - 1]);
            }
            lemma_div_is_ordered_by_denominator(xi, ns@[ns.len() - 1] as int, p as int);
        }
        if v <= s as u64 {
            let c = big_pi.pi(v as usize);
            proof {
                crate::number_theory::lemma_prime_count_le(v as nat);
            }
            total = total + c as i128;
        } else {
            if !started {
                // the primes above sqrt(x) up to the largest x / p
                let top = x / ns[ns.len() - 1];
                let sv = sieve_past(top as usize);
                stream = sieve_primes_from(&sv, s + 1);
                proof {
                    bound = sieve_bound(sv) as int;
                    last = s as int;
                }
                started = true;
                j = 0;
                running = 0;
            }
            while j < stream.len() && stream[j] as u64 <= v
                invariant
                    xi == x,
                    v == xi / (p as int),
                    v > s,
                    bound > v,
                    forall|a: int, b: int| 0 <= a < b < stream.len() ==> stream@[a] < stream@[b],
                    forall|a: int|
                        0 <= a < stream.len() ==> is_prime(#[trigger] stream@[a] as nat) && s + 1 <= stream@[a] <= bound,
                    forall|q: usize| s + 1 <= q <= bound && is_prime(q as nat) ==> #[trigger] stream@.contains(q),
                    j <= stream.len(),
                    j == 0 ==> last == s,
                    j > 0 ==> last == stream@[j - 1],
                    s <= last <= v,
                    running == prime_count(last as nat) - prime_count(s as nat),
                    running <= last,
                decreases stream.len() - j,
            {
                proof {
                    lemma_no_prime_gap(stream@, bound, s + 1, j as int, last, stream@[j as int] - 1);
                    lemma_next_prime_counts_one_more(last, stream@[j as int] as int);
                }
                running = running + 1;
                proof {
                    last = stream@[j as int] as int;
                }
                j = j + 1;
            }
            proof {
                lemma_no_prime_gap(stream@, bound, s + 1, j as int, last, v as int);
                lemma_no_prime_in_gap(last, v as int);
                crate::number_theory::lemma_prime_count_le(v as nat);
                crate::number_theory::lemma_prime_count_le(s as nat);
            }
            total = total + (base as i128 + running as i128);
        }
        i += 1;
    }
    proof {
        assert(n == y);
    }
    total
}

/// Two sequences that agree below `k` have the same sum there.
proof fn lemma_list_sum_stable(x: int, a: Seq<u64>, b: Seq<u64>, k: int)
    requires
        0 <= k <= a.len(),
        k <= b.len(),
        forall|i: int| 0 <= i < k ==> a[i] == b[i],
    ensures
        b_list_sum(x, a, k) == b_list_sum(x, b, k),
    decreases k,
{
    if k > 0 {
        lemma_list_sum_stable(x, a, b, k - 1);
    }
}

} // verus!
