use fast_prime::easy_leaves::compute_s2_easy;
use fast_prime::hard_leaves::{compute_s2_hard, compute_s2_hard_serial};
use fast_prime::lmo::{compute_s2, plan_s2, prime_table_from_sieve};
use fast_prime::roots::icbrt;
use fast_prime::tables::{generate_lpf, generate_mu, generate_pi};
use primal::Sieve;

fn is_prime(n: u64) -> bool {
    n >= 2 && (2..).take_while(|d| d * d <= n).all(|d| n % d != 0)
}

fn least_factor(m: u64) -> u64 {
    (2..=m).find(|d| m % d == 0).unwrap_or(m)
}

fn mobius(m: u64) -> i64 {
    let mut rest = m;
    let mut sign = 1;
    while rest > 1 {
        let p = least_factor(rest);
        rest /= p;
        if rest % p == 0 {
            return 0;
        }
        sign = -sign;
    }
    sign
}

/// phi(n, k): the numbers in [1, n] with no factor among the first k primes.
fn phi(n: u64, primes: &[u64], k: usize) -> i128 {
    (1..=n).filter(|&j| primes[1..=k].iter().all(|&p| j % p != 0)).count() as i128
}

/// Every special leaf of the primes up to min_b - 1 after the first c, and
/// beyond them the leaves with n >= y.
fn hard_brute(x: u64, y: u64, c: usize) -> i128 {
    let mut primes = vec![0u64];
    primes.extend((2..=y).filter(|&n| is_prime(n)));
    let pi_y = primes.len() - 1;
    let s = (y as f64).sqrt() as u64;
    let pi_sqrty = primes.iter().skip(1).filter(|&&p| p <= s).count();
    let min_b = c.max(pi_sqrty) + 1;
    let mut total = 0i128;
    for b in c + 1..pi_y {
        let p = primes[b];
        for m in 1..=y {
            let mu = mobius(m);
            let n = x / p / m;
            if mu != 0 && least_factor(m) > p && y / p < m && (b < min_b || n >= y) {
                total -= (mu as i128) * phi(n, &primes, b - 1);
            }
        }
    }
    total
}

fn y_for(x: u64) -> usize {
    std::cmp::max((icbrt(x) * 22 / 10) as usize, 1)
}

#[test]
fn hard_leaves_match_their_definition() {
    for &x in &[10_001u64, 54_321, 100_000, 1_000_000] {
        let y = y_for(x);
        let sieve = Sieve::new(y + 1);
        let primes = prime_table_from_sieve(&sieve, y);
        let pi = generate_pi(y, &sieve);
        let lpf = generate_lpf(y);
        let mu = generate_mu(y);
        let z = (x / y as u64) as usize;
        let r = compute_s2_hard(x, y, z, 6, &primes, &lpf, &mu, &pi);
        assert_eq!(r, hard_brute(x, y as u64, 6), "x = {}", x);
    }
}

#[test]
fn hard_and_easy_leaves_make_up_s2() {
    for &x in &[10_001u64, 123_456, 1_000_000, 50_000_000] {
        let y = y_for(x);
        let sieve = Sieve::new(y + 1);
        let primes = prime_table_from_sieve(&sieve, y);
        let pi = generate_pi(y, &sieve);
        let lpf = generate_lpf(y);
        let mu = generate_mu(y);
        let z = (x / y as u64) as usize;
        let hard = compute_s2_hard(x, y, z, 6, &primes, &lpf, &mu, &pi);
        let easy = compute_s2_easy(x, y, z, 6, &primes, &pi, 1 << 17);
        let whole = compute_s2(x, y, 6, &primes, &lpf, &mu, &pi);
        assert_eq!(hard + easy, whole, "x = {}", x);
    }
}

#[test]
fn hard_leaves_do_not_depend_on_the_segment_size() {
    let x = 2_000_000u64;
    let y = y_for(x);
    let sieve = Sieve::new(y + 1);
    let primes = prime_table_from_sieve(&sieve, y);
    let pi = generate_pi(y, &sieve);
    let lpf = generate_lpf(y);
    let mu = generate_mu(y);
    let plan = plan_s2(x, y, 6, &primes, &lpf, &mu, &pi, 1);
    let expected = hard_brute(x, y as u64, 6);
    // segments smaller than y, so that some lie wholly below it
    for &seg in &[64usize, 100, 1000, 1 << 17] {
        let r = compute_s2_hard_serial(x, y, 6, &primes, &lpf, &mu, &pi, plan.z, plan.pi_sqrty, plan.pi_y, seg,
            &plan.template, &plan.prime_recip);
        assert_eq!(r, expected, "segments of {}", seg);
    }
}
