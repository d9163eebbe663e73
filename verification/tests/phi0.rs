use fast_prime::lmo::prime_table_from_sieve;
use fast_prime::phi0::compute_phi0;
use fast_prime::tables::PhiTinyCache;
use primal::Sieve;

const FIRST_PRIMES: [u64; 8] = [0, 2, 3, 5, 7, 11, 13, 17];

/// phi(n, k) by brute force over the first k primes.
fn phi(n: u64, k: usize) -> i128 {
    (1..=n).filter(|&j| FIRST_PRIMES[1..=k].iter().all(|&p| j % p != 0)).count() as i128
}

/// The prime factors of m with their multiplicity, by trial division.
fn factors(m: u64) -> Vec<u64> {
    let mut out = Vec::new();
    let mut n = m;
    let mut p = 2;
    while p * p <= n {
        while n % p == 0 {
            out.push(p);
            n /= p;
        }
        p += 1;
    }
    if n > 1 {
        out.push(n);
    }
    out
}

/// Phi0 from its definition: mu(n) * phi(x / n, k) over the squarefree n <= z
/// whose prime factors all lie above the k-th prime and at most y.
fn phi0_brute(x: u64, y: u64, z: u64, k: usize) -> i128 {
    let mut s = 0i128;
    for n in 1..=z {
        let f = factors(n);
        let squarefree = f.windows(2).all(|w| w[0] != w[1]);
        if squarefree && f.iter().all(|&p| p > FIRST_PRIMES[k] && p <= y) {
            let mu = if f.len() % 2 == 0 { 1 } else { -1 };
            s += mu * phi(x / n, k);
        }
    }
    s
}

#[test]
fn phi0_matches_its_definition() {
    for &(x, y, z, k) in &[
        (1_000u64, 10usize, 10usize, 0usize),
        (100_000, 46, 100, 2),
        (1_000_000, 100, 300, 3),
        (10_000_000, 215, 1_000, 5),
        (12_345_678, 231, 2_000, 7),
    ] {
        let sieve = Sieve::new(y);
        let primes = prime_table_from_sieve(&sieve, y);
        let cache = PhiTinyCache::new(k);
        let r = compute_phi0(x, y, z, k, &primes, &cache);
        assert_eq!(r, phi0_brute(x, y as u64, z as u64, k), "x = {}, y = {}, z = {}, k = {}", x, y, z, k);
    }
}

#[test]
fn phi0_without_primes_past_the_first_k() {
    // y = 5 holds the primes 2, 3, 5: with k = 3 only n = 1 remains
    let sieve = Sieve::new(5);
    let primes = prime_table_from_sieve(&sieve, 5);
    let cache = PhiTinyCache::new(3);
    assert_eq!(compute_phi0(1_000, 5, 20, 3, &primes, &cache), phi(1_000, 3));
    assert_eq!(phi(1_000, 3), 266);
}
