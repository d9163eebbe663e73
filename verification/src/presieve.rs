//! The pre-sieve pattern: the wheel positions divisible by 7, 11, 13, 17 or
//! 19, one period of 7 * 11 * 13 * 17 * 19 bytes, tiled into each segment.

use vstd::prelude::*;
use vstd::arithmetic::div_mod::*;
use crate::wheel::{
    bit_set, wheel_offset, target_k, wheel_index, is_wheel_residue, precompute_target_k_mod,
    p_mod_to_idx, lemma_wheel_multiple, lemma_wheel_residue_facts,
};
use crate::marking::{mark_progression, on_progression};

verus! {

/// The number of bytes in one period of the pattern.
pub const PRESIEVE_PERIOD: usize = 323323;

/// `PRESIEVE_PRIMES[k]`.
pub open spec fn presieve_prime_spec(k: int) -> int {
    if k == 0 {
        7
    } else if k == 1 {
        11
    } else if k == 2 {
        13
    } else if k == 3 {
        17
    } else {
        19
    }
}

/// `n` is divisible by one of the first `k` pre-sieve primes.
pub open spec fn hit_first(k: int, n: int) -> bool
    decreases k,
{
    if k <= 0 {
        false
    } else {
        hit_first(k - 1, n) || n % presieve_prime_spec(k - 1) == 0
    }
}

/// The wheel position `30 * b + wheel_offset(i)` is divisible by 7, 11, 13,
/// 17 or 19.
pub open spec fn presieve_hit(b: int, i: int) -> bool {
    hit_first(5, 30 * b + wheel_offset(i))
}

/// The pattern marks exactly the pre-sieve hits of each position.
pub open spec fn presieve_ok(pat: Seq<u8>) -> bool {
    &&& pat.len() == PRESIEVE_PERIOD
    &&& forall|b: int, i: int|
        0 <= b < PRESIEVE_PERIOD && 0 <= i < 8 ==> (#[trigger] bit_set(pat[b], i) <==> presieve_hit(
            b,
            i,
        ))
}

/// `PRESIEVE_PRIMES[k]`: 7, 11, 13, 17, 19.
pub fn presieve_prime(k: usize) -> (p: u64)
    requires
        k < 5,
    ensures
        p == presieve_prime_spec(k as int),
{
    match k {
        0 => 7,
        1 => 11,
        2 => 13,
        3 => 17,
        _ => 19,
    }
}

/// `hit_first(5, n)` spelled out.
pub proof fn lemma_presieve_hit_unfold(n: int)
    ensures
        hit_first(5, n) <==> (n % 7 == 0 || n % 11 == 0 || n % 13 == 0 || n % 17 == 0 || n % 19
            == 0),
{
    reveal_with_fuel(hit_first, 6);
}

/// The pre-sieve hits repeat with the period of the pattern.
pub proof fn lemma_presieve_periodic(b: int, i: int)
    requires
        b >= 0,
        0 <= i < 8,
    ensures
        presieve_hit(b, i) <==> presieve_hit(b % (PRESIEVE_PERIOD as int), i),
{
    let per = PRESIEVE_PERIOD as int;
    let r = b % per;
    let q = b / per;
    lemma_fundamental_div_mod(b, per);
    let n = 30 * b + wheel_offset(i);
    let m = 30 * r + wheel_offset(i);
    lemma_presieve_hit_unfold(n);
    lemma_presieve_hit_unfold(m);
    assert(n == m + 30 * per * q) by (nonlinear_arith)
        requires
            b == per * q + r,
            n == 30 * b + wheel_offset(i),
            m == 30 * r + wheel_offset(i),
    ;
    assert(30 * per * q == 7 * (30 * 46189 * q)) by (nonlinear_arith)
        requires
            per == 323323,
    ;
    assert(30 * per * q == 11 * (30 * 29393 * q)) by (nonlinear_arith)
        requires
            per == 323323,
    ;
    assert(30 * per * q == 13 * (30 * 24871 * q)) by (nonlinear_arith)
        requires
            per == 323323,
    ;
    assert(30 * per * q == 17 * (30 * 19019 * q)) by (nonlinear_arith)
        requires
            per == 323323,
    ;
    assert(30 * per * q == 19 * (30 * 17017 * q)) by (nonlinear_arith)
        requires
            per == 323323,
    ;
    lemma_mod_multiples_vanish(30 * 46189 * q, m, 7);
    lemma_mod_multiples_vanish(30 * 29393 * q, m, 11);
    lemma_mod_multiples_vanish(30 * 24871 * q, m, 13);
    lemma_mod_multiples_vanish(30 * 19019 * q, m, 17);
    lemma_mod_multiples_vanish(30 * 17017 * q, m, 19);
}

/// Builds one period of the pattern: bit `i` of byte `b` is set exactly when
/// `30 * b + wheel_offset(i)` is divisible by 7, 11, 13, 17 or 19.
pub fn build_presieve() -> (pattern: Vec<u8>)
    ensures
        presieve_ok(pattern@),
{
    let tk = precompute_target_k_mod();
    let mut pattern: Vec<u8> = Vec::new();
    while pattern.len() < PRESIEVE_PERIOD
        invariant
            pattern.len() <= PRESIEVE_PERIOD,
            forall|b: int| 0 <= b < pattern.len() ==> #[trigger] pattern@[b] == 0u8,
        decreases PRESIEVE_PERIOD - pattern.len(),
    {
        pattern.push(0u8);
    }
    proof {
        assert forall|b: int, i: int| 0 <= b < PRESIEVE_PERIOD && 0 <= i < 8 implies !#[trigger] bit_set(
            pattern@[b],
            i,
        ) by {
            let ii = i as u8;
            assert((0u8 >> ii) & 1u8 == 0u8) by (bit_vector);
        }
    }
    let mut k: usize = 0;
    while k < 5
        invariant
            k <= 5,
            pattern.len() == PRESIEVE_PERIOD,
            tk.len() == 64,
            forall|a: int, i: int| 0 <= a < 8 && 0 <= i < 8 ==> #[trigger] tk@[a * 8 + i] == target_k(a, i),
            forall|b: int, i: int|
                0 <= b < PRESIEVE_PERIOD && 0 <= i < 8 ==> (#[trigger] bit_set(pattern@[b], i)
                    <==> hit_first(k as int, 30 * b + wheel_offset(i))),
        decreases 5 - k,
    {
        let p = presieve_prime(k);
        let p_idx = p_mod_to_idx((p % 30) as u32) as usize;
        proof {
            assert(is_wheel_residue((p % 30) as int));
            lemma_wheel_residue_facts((p % 30) as int);
        }
        let mut i: usize = 0;
        while i < 8
            invariant
                k < 5,
                i <= 8,
                p == presieve_prime_spec(k as int),
                p_idx == wheel_index((p % 30) as int),
                p_idx < 8,
                is_wheel_residue((p % 30) as int),
                pattern.len() == PRESIEVE_PERIOD,
                tk.len() == 64,
                forall|a: int, i: int|
                    0 <= a < 8 && 0 <= i < 8 ==> #[trigger] tk@[a * 8 + i] == target_k(a, i),
                forall|b: int, j: int|
                    0 <= b < PRESIEVE_PERIOD && 0 <= j < 8 ==> (#[trigger] bit_set(pattern@[b], j)
                        <==> (hit_first(k as int, 30 * b + wheel_offset(j)) || (j < i && (30 * b
                        + wheel_offset(j)) % (p as int) == 0))),
            decreases 8 - i,
        {
            assert(p_idx * 8 + i < 64) by (nonlinear_arith)
                requires
                    p_idx < 8,
                    i < 8,
            ;
            let target = tk[p_idx * 8 + i];
            proof {
                assert(target == target_k(p_idx as int, i as int));
                assert(0 <= target < 30);
            }
            let byte_idx = ((target * p) / 30) as usize;
            let ghost pat0 = pattern@;
            let _ = mark_progression(&mut pattern, PRESIEVE_PERIOD, byte_idx, p as usize, i);
            proof {
                assert forall|b: int, j: int|
                    0 <= b < PRESIEVE_PERIOD && 0 <= j < 8 implies (#[trigger] bit_set(
                        pattern@[b],
                        j,
                    ) <==> (hit_first(k as int, 30 * b + wheel_offset(j)) || (j < i + 1 && (30 * b
                        + wheel_offset(j)) % (p as int) == 0))) by {
                    assert(bit_set(pat0[b], j) <==> (hit_first(k as int, 30 * b + wheel_offset(j))
                        || (j < i && (30 * b + wheel_offset(j)) % (p as int) == 0)));
                    if j == i {
                        assert((target as int - 30) * (p as int) < 0) by (nonlinear_arith)
                            requires
                                target < 30,
                                p > 0,
                        ;
                        lemma_small_mod(target as nat, 30);
                        lemma_wheel_multiple(0, p as int, i as int, target as int, b);
                        assert(byte_idx == (target * p - 0) / 30);
                    }
                }
            }
            i += 1;
        }
        k += 1;
    }
    proof {
        assert forall|b: int, i: int|
            0 <= b < PRESIEVE_PERIOD && 0 <= i < 8 implies (#[trigger] bit_set(pattern@[b], i)
                <==> presieve_hit(b, i)) by {
        }
    }
    pattern
}

/// The pre-sieve pattern. The parallel sieve caches it once per process; here
/// it is built on demand.
pub fn get_presieve() -> (pattern: Vec<u8>)
    ensures
        presieve_ok(pattern@),
{
    build_presieve()
}

/// Tiles the pattern into `sieve[0..len]`, starting at pattern byte
/// `offset_in_pattern`: afterwards `sieve[j] == presieve[(offset + j) % period]`.
pub fn apply_presieve(sieve: &mut Vec<u8>, len: usize, offset_in_pattern: usize, presieve: &Vec<u8>)
    requires
        len <= old(sieve).len(),
        offset_in_pattern < PRESIEVE_PERIOD,
        presieve.len() == PRESIEVE_PERIOD,
    ensures
        final(sieve).len() == old(sieve).len(),
        forall|j: int|
            0 <= j < len ==> #[trigger] final(sieve)@[j] == presieve@[(offset_in_pattern + j)
                % (PRESIEVE_PERIOD as int)],
        forall|j: int| len <= j < old(sieve).len() ==> #[trigger] final(sieve)@[j] == old(sieve)@[j],
{
    let per = PRESIEVE_PERIOD;
    let mut dst: usize = 0;
    // the rest of the pattern from the offset
    let first_chunk = if per - offset_in_pattern < len {
        per - offset_in_pattern
    } else {
        len
    };
    while dst < first_chunk
        invariant
            dst <= first_chunk <= len <= sieve.len(),
            first_chunk <= per - offset_in_pattern,
            per == PRESIEVE_PERIOD,
            offset_in_pattern < per,
            presieve.len() == per,
            sieve.len() == old(sieve).len(),
            forall|j: int|
                0 <= j < dst ==> #[trigger] sieve@[j] == presieve@[(offset_in_pattern + j) % (per as int)],
            forall|j: int| dst <= j < sieve.len() ==> #[trigger] sieve@[j] == old(sieve)@[j],
        decreases first_chunk - dst,
    {
        proof {
            lemma_small_mod((offset_in_pattern + dst) as nat, per as nat);
        }
        sieve.set(dst, presieve[offset_in_pattern + dst]);
        dst += 1;
    }
    // whole periods, then a prefix of the pattern
    let mut pos: usize = 0;
    while dst < len
        invariant
            first_chunk <= dst <= len <= sieve.len(),
            first_chunk == len || first_chunk == per - offset_in_pattern,
            pos < per,
            dst < len ==> first_chunk == per - offset_in_pattern,
            dst < len ==> pos == (offset_in_pattern + dst) % (per as int),
            per == PRESIEVE_PERIOD,
            offset_in_pattern < per,
            presieve.len() == per,
            sieve.len() == old(sieve).len(),
            forall|j: int|
                0 <= j < dst ==> #[trigger] sieve@[j] == presieve@[(offset_in_pattern + j) % (per as int)],
            forall|j: int| dst <= j < sieve.len() ==> #[trigger] sieve@[j] == old(sieve)@[j],
        decreases len - dst,
    {
        proof {
            if dst == first_chunk {
                // offset + dst == per
                lemma_mod_self_0(per as int);
            }
        }
        sieve.set(dst, presieve[pos]);
        proof {
            let n = offset_in_pattern + dst;
            lemma_mod_add_multiples_vanish(n as int, per as int);
            lemma_add_mod_noop(n as int, 1, per as int);
            lemma_small_mod(1, per as nat);
            lemma_mod_bound(n as int, per as int);
            if pos + 1 < per {
                lemma_small_mod((pos + 1) as nat, per as nat);
            } else {
                lemma_mod_self_0(per as int);
            }
        }
        pos = if pos + 1 == per {
            0
        } else {
            pos + 1
        };
        dst += 1;
    }
    proof {
        assert(dst == len);
    }
}

} // verus!
