//! What the live display shows: the running prime count and the most recent
//! primes, read back from a sieved segment or from the bootstrap sieve.

use vstd::prelude::*;
use vstd::arithmetic::div_mod::*;
use crate::number_theory::{is_prime, prime_count, lemma_divisor_not_prime, lemma_prime_count_le};
use crate::wheel::{bit_set, wheel_offset, wheel_offset_at, wheel_bit, is_wheel_residue,
    lemma_wheel_offset_facts, lemma_non_wheel_residue_divisible};
use crate::wheel_sieve::{segment_marked, trial_is_prime};
use crate::small_sieve::{sieve_bound, sieve_is_prime, sieve_upper_bound};
use primal::Sieve;

verus! {

/// The largest `k` primes in `[lo, hi]` (all of them when there are fewer),
/// in increasing order.
pub open spec fn recent_primes(lo: int, hi: int, k: nat) -> Seq<int>
    decreases (if hi >= lo { hi - lo + 1 } else { 0 }),
{
    if k == 0 || hi < lo {
        Seq::empty()
    } else if is_prime(hi as nat) {
        recent_primes(lo, hi - 1, (k - 1) as nat).push(hi)
    } else {
        recent_primes(lo, hi - 1, k)
    }
}

/// Over a stretch without primes the recent primes stay the same.
pub proof fn lemma_recent_gap(lo: int, a: int, b: int, k: nat)
    requires
        lo - 1 <= a <= b,
        forall|q: int| a < q <= b ==> !#[trigger] is_prime(q as nat),
    ensures
        recent_primes(lo, b, k) == recent_primes(lo, a, k),
    decreases b - a,
{
    if b > a {
        lemma_recent_gap(lo, a, b - 1, k);
        assert(!is_prime(b as nat));
    }
}

/// The number of bit `k` of byte `j` of a segment from `s`.
pub open spec fn flat_number(s: int, f: int) -> int {
    s + 30 * (f / 8) + wheel_offset(f % 8)
}

/// Where the backward walk over the bits of a segment stands with `f` bits
/// left: the number of the highest bit left (one below the segment when none
/// is), capped at `top`.
pub open spec fn walk_top(s: int, f: int, top: int) -> int {
    let cur = if f == 0 {
        s - 1
    } else {
        flat_number(s, f - 1)
    };
    if cur <= top {
        cur
    } else {
        top
    }
}

/// Between the numbers of two neighbouring bits (or below the first bit) of
/// a segment from a multiple of 30 no prime lies.
proof fn lemma_no_prime_between_bits(s: int, f: int)
    requires
        s % 30 == 0,
        s >= 30,
        0 <= f,
    ensures
        forall|q: int|
            (if f == 0 { s - 1 } else { flat_number(s, f - 1) }) < q < flat_number(s, f) ==> !#[trigger] is_prime(
                q as nat,
            ),
{
    let j = f / 8;
    let b = f % 8;
    lemma_fundamental_div_mod(f, 8);
    lemma_wheel_offset_facts(b);
    let base = s + 30 * j;
    assert(base % 30 == 0) by {
        lemma_mod_multiples_vanish(j, s, 30);
    }
    if f > 0 {
        if b > 0 {
            assert((f - 1) / 8 == j && (f - 1) % 8 == b - 1) by {
                lemma_fundamental_div_mod_converse(f - 1, 8, j, b - 1);
            }
        } else {
            assert((f - 1) / 8 == j - 1 && (f - 1) % 8 == 7) by {
                lemma_fundamental_div_mod_converse(f - 1, 8, j - 1, 7);
            }
        }
    }
    assert forall|q: int|
        (if f == 0 { s - 1 } else { flat_number(s, f - 1) }) < q < flat_number(s, f) implies !#[trigger] is_prime(
        q as nat,
    ) by {
        // q lies in the block of `base` or just below it, off the residues
        let r = q % 30;
        lemma_fundamental_div_mod(q, 30);
        if b > 0 {
            lemma_wheel_offset_facts(b - 1);
            assert(base < q < base + 30);
            assert(q / 30 == base / 30) by {
                lemma_fundamental_div_mod(base, 30);
                lemma_fundamental_div_mod_converse(q, 30, base / 30, q - base);
            }
            assert(r == q - base);
            assert(wheel_offset(b - 1) < r < wheel_offset(b));
            lemma_between_residues(b, r);
        } else {
            // q is the multiple of 30 `base`
            lemma_wheel_offset_facts(7);
            assert(q == base);
            assert(r == 0) by {
                lemma_fundamental_div_mod(base, 30);
            }
        }
        assert(!is_wheel_residue(r));
        lemma_non_wheel_residue_divisible(q);
        if q % 2 == 0 {
            lemma_divisor_not_prime(q as nat, 2);
        } else if q % 3 == 0 {
            lemma_divisor_not_prime(q as nat, 3);
        } else {
            lemma_divisor_not_prime(q as nat, 5);
        }
    }
}

/// Strictly between two neighbouring residues there is no residue.
proof fn lemma_between_residues(b: int, r: int)
    requires
        1 <= b < 8,
        wheel_offset(b - 1) < r < wheel_offset(b),
    ensures
        !is_wheel_residue(r),
{
}

/// Reads back the last `k` primes up to `limit` of a marked segment from
/// `seg_start`, walking its bits from the top: the largest `k` primes of the
/// segment's numbers up to `limit`, in increasing order.
pub fn extract_recent(sieve: &Vec<u8>, len: usize, seg_start: u64, limit: u64, k: usize) -> (recent: Vec<u64>)
    requires
        1 <= len <= crate::wheel_sieve::MAX_SEG_BYTES,
        seg_start % 30 == 0,
        seg_start >= 30,
        seg_start + 30 * len < 0x1_0000_0000_0000_0000,
        seg_start + 30 * (len - 1) <= limit,
        segment_marked(sieve@, seg_start as int, len as int, limit as int),
    ensures
        recent@.len() == recent_primes(
            seg_start as int,
            if seg_start + 30 * len - 1 <= limit { seg_start + 30 * len - 1 } else { limit as int },
            k as nat,
        ).len(),
        forall|i: int|
            0 <= i < recent@.len() ==> #[trigger] recent@[i] == recent_primes(
                seg_start as int,
                if seg_start + 30 * len - 1 <= limit { seg_start + 30 * len - 1 } else { limit as int },
                k as nat,
            )[i],
{
    let ghost s = seg_start as int;
    let ghost top: int = if seg_start + 30 * len - 1 <= limit { seg_start + 30 * len - 1 } else { limit as int };
    let mut desc: Vec<u64> = Vec::new();
    let mut f: usize = 8 * len;
    proof {
        assert(flat_number(s, f - 1) == s + 30 * len - 1) by {
            lemma_fundamental_div_mod_converse(f - 1, 8, len - 1, 7);
            lemma_wheel_offset_facts(7);
        }
    }
    while f > 0 && desc.len() < k
        invariant
            1 <= len,
            seg_start % 30 == 0,
            seg_start >= 30,
            seg_start + 30 * len < 0x1_0000_0000_0000_0000,
            seg_start + 30 * (len - 1) <= limit,
            segment_marked(sieve@, s, len as int, limit as int),
            s == seg_start,
            top == (if seg_start + 30 * len - 1 <= limit { seg_start + 30 * len - 1 } else { limit as int }),
            f <= 8 * len,
            desc.len() <= k,
            forall|i: int| 0 <= i < desc.len() ==> s <= #[trigger] desc@[i] <= top,
            recent_primes(s, top, k as nat) == recent_primes(s, walk_top(s, f as int, top), (k - desc.len()) as nat)
                + desc@.map_values(|v: u64| v as int).reverse(),
        decreases f,
    {
        let fi = f - 1;
        let j = fi / 8;
        let b = fi % 8;
        proof {
            lemma_wheel_offset_facts(b as int);
            lemma_no_prime_between_bits(s, fi as int);
            assert(j < len);
        }
        let n = seg_start + 30 * (j as u64) + wheel_offset_at(b) as u64;
        let byte = sieve[j];
        let bit = wheel_bit(b);
        proof {
            let kk = b as u8;
            assert((byte & bit == 0u8) <==> !((byte >> kk) & 1u8 == 1u8)) by (bit_vector)
                requires
                    bit == 1u8 << kk,
                    kk < 8,
            ;
            assert(n == flat_number(s, fi as int));
            assert(bit_set(sieve@[j as int], b as int) == ((byte >> kk) & 1u8 == 1u8));
            if n <= limit {
                assert(bit_set(sieve@[j as int], b as int) <==> !is_prime((s + 30 * j + wheel_offset(b as int)) as nat));
            }
        }
        let ghost old_desc = desc@;
        let ghost kk_rem = (k - desc.len()) as nat;
        if byte & bit == 0 && n <= limit {
            // n is prime
            proof {
                assert(is_prime(n as nat));
                assert(n <= top);
                let cur_next = if fi == 0 { s - 1 } else { flat_number(s, fi - 1) };
                assert(cur_next < n);
                lemma_recent_gap(s, cur_next, n - 1, (kk_rem - 1) as nat);
                assert(recent_primes(s, n as int, kk_rem) == recent_primes(s, n - 1, (kk_rem - 1) as nat).push(n as int));
            }
            desc.push(n);
            proof {
                let cur_next = if fi == 0 { s - 1 } else { flat_number(s, fi - 1) };
                let a = recent_primes(s, cur_next, (kk_rem - 1) as nat);
                let d_old = old_desc.map_values(|v: u64| v as int).reverse();
                let d_new = desc@.map_values(|v: u64| v as int).reverse();
                assert(d_new =~= seq![n as int] + d_old);
                assert(a.push(n as int) + d_old =~= a + d_new);
            }
        } else {
            proof {
                let cur = if n <= top { n as int } else { top };
                let cur_next = if fi == 0 { s - 1 } else { flat_number(s, fi - 1) };
                let eff_next = if cur_next <= top { cur_next } else { top };
                if n <= limit {
                    assert(!is_prime(n as nat));
                    lemma_recent_gap(s, eff_next, n as int, kk_rem);
                } else {
                    lemma_recent_gap(s, eff_next, top, kk_rem);
                }
            }
        }
        f = fi;
    }
    proof {
        assert(recent_primes(s, walk_top(s, f as int, top), (k - desc.len()) as nat) =~= Seq::<int>::empty());
    }
    let mut recent: Vec<u64> = Vec::new();
    let mut i: usize = desc.len();
    while i > 0
        invariant
            i <= desc.len(),
            recent.len() == desc.len() - i,
            forall|t: int| 0 <= t < recent.len() ==> #[trigger] recent@[t] == desc@[desc.len() - 1 - t],
        decreases i,
    {
        i -= 1;
        recent.push(desc[i]);
    }
    proof {
        assert forall|t: int| 0 <= t < recent@.len() implies #[trigger] recent@[t] == recent_primes(s, top, k as nat)[t] by {
            assert(recent_primes(s, top, k as nat) =~= desc@.map_values(|v: u64| v as int).reverse());
        }
    }
    recent
}

/// The count of the primes up to `hi` and the last `k` of them, for the
/// numbers below the first segment; each number is tested against the
/// bootstrap sieve, or by trial division beyond its bound.
pub fn leading_primes(hi: u64, small: &Sieve, k: usize) -> (r: (u64, Vec<u64>))
    requires
        hi < 0x1_0000_0000,
    ensures
        r.0 == prime_count(hi as nat),
        r.1@.len() == recent_primes(2, hi as int, k as nat).len(),
        forall|i: int| 0 <= i < r.1@.len() ==> #[trigger] r.1@[i] == recent_primes(2, hi as int, k as nat)[i],
{
    let ub = sieve_upper_bound(small);
    let mut desc: Vec<u64> = Vec::new();
    let mut count: u64 = 0;
    let mut n: u64 = hi;
    while n >= 2
        invariant
            hi < 0x1_0000_0000,
            n <= hi,
            ub == sieve_bound(*small),
            desc.len() <= k,
            count + prime_count(n as nat) == prime_count(hi as nat),
            forall|i: int| 0 <= i < desc.len() ==> 2 <= #[trigger] desc@[i] <= hi,
            recent_primes(2, hi as int, k as nat) == recent_primes(2, n as int, (k - desc.len()) as nat)
                + desc@.map_values(|v: u64| v as int).reverse(),
        decreases n,
    {
        let is_p = if (n as usize) <= ub {
            sieve_is_prime(small, n as usize)
        } else {
            trial_is_prime(n)
        };
        let ghost old_desc = desc@;
        let ghost kk_rem = (k - desc.len()) as nat;
        proof {
            lemma_prime_count_le(n as nat);
            lemma_prime_count_le(hi as nat);
            crate::number_theory::lemma_prime_count_monotone(n as nat, hi as nat);
        }
        if is_p {
            count += 1;
            if desc.len() < k {
                desc.push(n);
                proof {
                    let a = recent_primes(2, n - 1, (kk_rem - 1) as nat);
                    let d_old = old_desc.map_values(|v: u64| v as int).reverse();
                    let d_new = desc@.map_values(|v: u64| v as int).reverse();
                    assert(d_new =~= seq![n as int] + d_old);
                    assert(a.push(n as int) + d_old =~= a + d_new);
                }
            } else {
                proof {
                    assert(recent_primes(2, n as int, 0) =~= Seq::<int>::empty());
                    assert(recent_primes(2, (n - 1) as int, 0) =~= Seq::<int>::empty());
                }
            }
        }
        n -= 1;
    }
    proof {
        crate::number_theory::lemma_prime_count_small();
        assert(prime_count(n as nat) == 0);
        assert(recent_primes(2, n as int, (k - desc.len()) as nat) =~= Seq::<int>::empty());
    }
    let mut recent: Vec<u64> = Vec::new();
    let mut i: usize = desc.len();
    while i > 0
        invariant
            i <= desc.len(),
            recent.len() == desc.len() - i,
            forall|t: int| 0 <= t < recent.len() ==> #[trigger] recent@[t] == desc@[desc.len() - 1 - t],
        decreases i,
    {
        i -= 1;
        recent.push(desc[i]);
    }
    proof {
        assert forall|t: int| 0 <= t < recent@.len() implies #[trigger] recent@[t] == recent_primes(2, hi as int, k as nat)[t] by {
            assert(recent_primes(2, hi as int, k as nat) =~= desc@.map_values(|v: u64| v as int).reverse());
        }
    }
    (count, recent)
}

} // verus!
