use fast_prime::easy_leaves::{compute_s2_easy, compute_s2_easy_direct, compute_s2_easy_segmented, s2_easy_row};
use fast_prime::lmo::{compute_s2, prime_reciprocals, prime_table_from_sieve};
use fast_prime::roots::{icbrt, isqrt};
use primal::Sieve;
use fast_prime::tables::{generate_lpf, generate_mu, generate_pi};

fn is_prime(n: u64) -> bool {
    n >= 2 && (2..).take_while(|d| d * d <= n).all(|d| n % d != 0)
}

/// phi(n, k) by brute force over the first k primes.
fn phi(n: u64, primes: &[u64], k: usize) -> i128 {
    (1..=n).filter(|&j| primes[1..=k].iter().all(|&p| j % p != 0)).count() as i128
}

fn primes_upto(y: u64) -> Vec<u64> {
    let mut primes = vec![0u64];
    primes.extend((2..=y).filter(|&k| is_prime(k)));
    primes
}

fn pi_of(primes: &[u64], n: u64) -> usize {
    primes[1..].iter().filter(|&&p| p <= n).count()
}

/// The first b of the easy leaves: max(c, pi(sqrt(y))) + 1.
fn min_b_of(primes: &[u64], y: u64, c: usize) -> usize {
    std::cmp::max(c, pi_of(primes, isqrt(y))) + 1
}

/// S2_easy straight from its definition: for b from min_b on, the leaves
/// (b, p_l) with p_l > max(z / p_b, p_b), each phi(x / (p_b * p_l), b - 1).
fn easy_brute(x: u64, y: u64, c: usize) -> i128 {
    let primes = primes_upto(y);
    let pi_y = primes.len() - 1;
    let z = x / y;
    let mut s = 0i128;
    for b in min_b_of(&primes, y, c)..=pi_y {
        let p = primes[b];
        for l in b + 1..=pi_y {
            let q = primes[l];
            if q > z / p {
                s += phi(x / p / q, &primes, b - 1);
            }
        }
    }
    s
}

/// The leaves of S2 that the easy sum leaves out: every leaf of the primes
/// up to min_b - 1, and beyond them the leaves with n >= y.
fn hard_brute(x: u64, y: u64, c: usize) -> i128 {
    let primes = primes_upto(y);
    let pi_y = primes.len() - 1;
    let min_b = min_b_of(&primes, y, c);
    let mut s = 0i128;
    for b in c + 1..pi_y {
        let p = primes[b];
        for m in 1..=y {
            let mu = mobius(m);
            let n = x / p / m;
            if mu != 0 && least_factor(m) > p && y / p < m && (b < min_b || n >= y) {
                s -= (mu as i128) * phi(n, &primes, b - 1);
            }
        }
    }
    s
}

fn mobius(m: u64) -> i64 {
    let mut n = m;
    let mut sign = 1;
    let mut p = 2;
    while p * p <= n {
        if n % p == 0 {
            n /= p;
            if n % p == 0 {
                return 0;
            }
            sign = -sign;
        }
        p += 1;
    }
    if n > 1 {
        sign = -sign;
    }
    sign
}

fn least_factor(m: u64) -> u64 {
    (2..=m).find(|d| m % d == 0).unwrap_or(u64::MAX)
}

fn y_for(x: u64) -> usize {
    std::cmp::max((icbrt(x) * 22 / 10) as usize, 1)
}

#[test]
fn easy_leaves_match_their_definition() {
    for &x in &[10_001u64, 54_321, 100_000, 1_000_000] {
        let y = y_for(x);
        let sieve = Sieve::new(y);
        let primes = prime_table_from_sieve(&sieve, y);
        let pi = generate_pi(y, &sieve);
        let z = (x / y as u64) as usize;
        let s = compute_s2_easy(x, y, z, 6, &primes, &pi, 1 << 17);
        assert_eq!(s, easy_brute(x, y as u64, 6), "x = {}", x);
    }
}

#[test]
fn easy_leaves_direct_and_by_windows_agree() {
    let x = 20_000_000u64;
    let y = y_for(x);
    let sieve = Sieve::new(y);
    let primes = prime_table_from_sieve(&sieve, y);
    let pi = generate_pi(y, &sieve);
    let recip = prime_reciprocals(&primes);
    let z = (x / y as u64) as usize;
    let min_b = min_b_of(&primes.iter().map(|&p| p as u64).collect::<Vec<_>>(), y as u64, 6);
    let direct = compute_s2_easy_direct(x, y, z, &primes, &pi, min_b, &recip);
    assert!(direct > 0);
    for &seg in &[1usize, 7, 64, 1000, 128 * 1024] {
        let s = compute_s2_easy_segmented(x, y, z, &primes, &pi, min_b, &recip, seg);
        assert_eq!(s, direct, "windows of {}", seg);
    }
    let rows: i128 = (min_b..primes.len()).map(|b| s2_easy_row(x, y, z, b, &primes, &pi, &recip)).sum();
    assert_eq!(rows, direct);
}

#[test]
fn easy_and_hard_leaves_make_up_s2() {
    for &x in &[10_001u64, 33_333, 100_000] {
        let y = y_for(x);
        let sieve = Sieve::new(y);
        let primes = prime_table_from_sieve(&sieve, y);
        let pi = generate_pi(y, &sieve);
        let lpf = generate_lpf(y);
        let mu = generate_mu(y);
        let z = (x / y as u64) as usize;
        let easy = compute_s2_easy(x, y, z, 6, &primes, &pi, 1 << 17);
        let whole = compute_s2(x, y, 6, &primes, &lpf, &mu, &pi);
        assert_eq!(whole, easy + hard_brute(x, y as u64, 6), "x = {}", x);
    }
}

#[test]
fn no_easy_leaves_without_primes_above_sqrt_y() {
    // y = 4: the primes 2 and 3 are all pre-sieved, so min_b is past pi(y)
    let x = 100u64;
    let y = 4usize;
    let sieve = Sieve::new(y);
    let primes = prime_table_from_sieve(&sieve, y);
    let pi = generate_pi(y, &sieve);
    assert_eq!(compute_s2_easy(x, y, 25, 2, &primes, &pi, 1), 0);
}
