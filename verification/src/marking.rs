//! Marking an arithmetic progression of positions in a byte-per-30 sieve.

use vstd::prelude::*;
use vstd::arithmetic::div_mod::*;
use crate::wheel::bit_set;

verus! {

/// Setting bit `i` sets exactly that bit.
pub proof fn lemma_or_bit(b: u8, i: u8, k: u8)
    requires
        i < 8,
        k < 8,
    ensures
        ((b | (1u8 << i)) >> k) & 1u8 == 1u8 <==> ((b >> k) & 1u8 == 1u8 || k == i),
{
    assert(((b | (1u8 << i)) >> k) & 1u8 == 1u8 <==> ((b >> k) & 1u8 == 1u8 || k == i))
        by (bit_vector)
        requires
            i < 8,
            k < 8,
    ;
}

/// Position `b` lies on the progression `start, start + step, ...`.
pub open spec fn on_progression(start: int, step: int, b: int) -> bool {
    b >= start && (b - start) % step == 0
}

/// Two points of one progression are at least a step apart.
pub proof fn lemma_progression_gap(start: int, step: int, a: int, b: int)
    requires
        step > 0,
        on_progression(start, step, a),
        on_progression(start, step, b),
        a < b,
    ensures
        a + step <= b,
{
    lemma_fundamental_div_mod(a - start, step);
    lemma_fundamental_div_mod(b - start, step);
    let qa = (a - start) / step;
    let qb = (b - start) / step;
    assert(qa < qb) by (nonlinear_arith)
        requires
            a - start == step * qa,
            b - start == step * qb,
            a < b,
            step > 0,
    ;
    assert(step * qa + step <= step * qb) by (nonlinear_arith)
        requires
            qa < qb,
            step > 0,
    ;
}

/// Stepping along a progression stays on it.
pub proof fn lemma_progression_step(start: int, step: int, a: int)
    requires
        step > 0,
        on_progression(start, step, a),
    ensures
        on_progression(start, step, a + step),
{
    lemma_mod_add_multiples_vanish(a - start, step);
}

/// Sets bit `i` of `v[b]` for every `b` on the progression from `start` with
/// the given `step` below `hi`. Returns the first position of the progression
/// at or beyond `hi`.
pub fn mark_progression(v: &mut Vec<u8>, hi: usize, start: usize, step: usize, i: usize) -> (next:
    usize)
    requires
        hi <= old(v).len(),
        step > 0,
        i < 8,
        hi + step <= usize::MAX,
        start <= usize::MAX - step,
    ensures
        final(v).len() == old(v).len(),
        forall|b: int, k: int|
            0 <= b < final(v).len() && 0 <= k < 8 ==> (#[trigger] bit_set(final(v)@[b], k) <==> (
            bit_set(old(v)@[b], k) || (k == i && b < hi && on_progression(
                start as int,
                step as int,
                b,
            )))),
        next >= hi,
        next >= start,
        on_progression(start as int, step as int, next as int),
        next < hi + step || next == start,
{
    let mut idx = start;
    let ghost bit = 1u8 << (i as u8);
    let b8 = crate::wheel::wheel_bit(i);
    proof {
        lemma_small_mod(0, step as nat);
    }
    while idx < hi
        invariant
            v.len() == old(v).len(),
            hi <= v.len(),
            step > 0,
            i < 8,
            b8 == 1u8 << (i as u8),
            hi + step <= usize::MAX,
            start <= idx,
            idx < hi + step || idx == start,
            on_progression(start as int, step as int, idx as int),
            forall|b: int, k: int|
                0 <= b < v.len() && 0 <= k < 8 ==> (#[trigger] bit_set(v@[b], k) <==> (bit_set(
                    old(v)@[b],
                    k,
                ) || (k == i && b < idx && on_progression(start as int, step as int, b)))),
        decreases hi + step - idx,
    {
        let old_byte = v[idx];
        let ghost prev = v@;
        v.set(idx, old_byte | b8);
        proof {
            assert forall|b: int, k: int|
                0 <= b < v.len() && 0 <= k < 8 implies (#[trigger] bit_set(v@[b], k) <==> (
                bit_set(old(v)@[b], k) || (k == i && b < idx + step && on_progression(
                    start as int,
                    step as int,
                    b,
                )))) by {
                assert(bit_set(prev[b], k) <==> (bit_set(old(v)@[b], k) || (k == i && b < idx
                    && on_progression(start as int, step as int, b))));
                if b == idx {
                    lemma_or_bit(old_byte, i as u8, k as u8);
                } else if k == i && on_progression(start as int, step as int, b) && idx < b < idx
                    + step {
                    lemma_progression_gap(start as int, step as int, idx as int, b);
                }
            }
            lemma_progression_step(start as int, step as int, idx as int);
        }
        idx = idx + step;
    }
    proof {
        assert forall|b: int, k: int|
            0 <= b < v.len() && 0 <= k < 8 implies (#[trigger] bit_set(v@[b], k) <==> (bit_set(
                old(v)@[b],
                k,
            ) || (k == i && b < hi && on_progression(start as int, step as int, b)))) by {
            if k == i && on_progression(start as int, step as int, b) && hi <= b < idx {
                lemma_progression_gap(start as int, step as int, b, idx as int);
                assert(idx != start);
            }
        }
    }
    idx
}


/// A later point of a progression starts a sub-progression.
pub proof fn lemma_progression_sub(a: int, p: int, b: int, c: int)
    requires
        p > 0,
        on_progression(a, p, b),
        on_progression(a, p, c),
        b <= c,
    ensures
        on_progression(b, p, c),
{
    lemma_fundamental_div_mod(b - a, p);
    lemma_fundamental_div_mod(c - a, p);
    let qb = (b - a) / p;
    let qc = (c - a) / p;
    assert(c - b == (qc - qb) * p) by (nonlinear_arith)
        requires
            b - a == p * qb,
            c - a == p * qc,
    ;
    lemma_mod_multiples_basic(qc - qb, p);
}

/// Progressions with the same step compose.
pub proof fn lemma_progression_trans(a: int, p: int, b: int, c: int)
    requires
        p > 0,
        on_progression(a, p, b),
        on_progression(b, p, c),
    ensures
        on_progression(a, p, c),
{
    lemma_fundamental_div_mod(b - a, p);
    lemma_fundamental_div_mod(c - b, p);
    let q1 = (b - a) / p;
    let q2 = (c - b) / p;
    assert(c - a == (q1 + q2) * p) by (nonlinear_arith)
        requires
            b - a == p * q1,
            c - b == p * q2,
    ;
    lemma_mod_multiples_basic(q1 + q2, p);
}

} // verus!
