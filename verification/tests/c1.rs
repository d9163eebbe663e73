use fast_prime::c1::compute_c1;
use fast_prime::odd_sieve::{collect_primes_from_bits, fast_bit_sieve, generate_compact_pi};
use fast_prime::roots::{icbrt, isqrt};

fn is_prime(n: u64) -> bool {
    n >= 2 && (2..).take_while(|d| d * d <= n).all(|d| n % d != 0)
}

fn pi_of(n: u64) -> i128 {
    (2..=n).filter(|&k| is_prime(k)).count() as i128
}

/// The prime factors of m with their multiplicity, by trial division.
fn factors(m: u64) -> Vec<u64> {
    let mut out = Vec::new();
    let mut n = m;
    let mut p = 2;
    while p * p <= n {
        while n % p == 0 {
            out.push(p);
            n /= p;
        }
        p += 1;
    }
    if n > 1 {
        out.push(n);
    }
    out
}

/// C1 from its definition: for the primes p_b with
/// max(k, pi(cbrt(x / z))) < b <= pi(sqrt(z)), minus the sum over the
/// squarefree m >= 2 made of primes in (p_b, y], with
/// max(x / p_b^3, z / p_b) < m <= min(x / p_b^2, z), of
/// mu(m) * (pi(x / (p_b * m)) - b + 2).
fn c1_brute(x: u64, y: u64, z: u64, k: usize) -> i128 {
    let primes: Vec<u64> = std::iter::once(0).chain((2..=y).filter(|&n| is_prime(n))).collect();
    let first = std::cmp::max(k as i128, pi_of(icbrt(x / z))) + 1;
    let last = pi_of(isqrt(z));
    let mut c1 = 0i128;
    for b in first..=last {
        let b = b as usize;
        if b >= primes.len() {
            break;
        }
        let p = primes[b];
        let xp = x / p;
        let max_m = std::cmp::min(xp / p, z);
        let min_m = std::cmp::min(std::cmp::max(xp / (p * p), z / p), max_m);
        for m in min_m + 1..=max_m {
            let f = factors(m);
            let squarefree = f.windows(2).all(|w| w[0] != w[1]);
            if m >= 2 && squarefree && f.iter().all(|&q| q > p && q <= y) {
                let mu = if f.len() % 2 == 0 { 1 } else { -1 };
                c1 -= mu * (pi_of(xp / m) - b as i128 + 2);
            }
        }
    }
    c1
}

#[test]
fn c1_matches_its_definition() {
    for &(x, y, z, k) in &[
        (1_000_000u64, 150usize, 400usize, 2usize),
        (10_000_000, 300, 1_500, 3),
        (100_000_000, 700, 5_000, 5),
        (123_456_789, 900, 8_000, 6),
    ] {
        let limit = 10_000usize;
        let bits = fast_bit_sieve(limit);
        let pi = generate_compact_pi(limit, &bits);
        let primes = collect_primes_from_bits(&bits, y);
        let r = compute_c1(x, y, z, k, &primes, &pi);
        assert_eq!(r, c1_brute(x, y as u64, z as u64, k), "x = {}, y = {}, z = {}, k = {}", x, y, z, k);
    }
}

#[test]
fn c1_empty_when_no_prime_is_in_range() {
    // pi(sqrt(z)) = pi(3) = 2 is not beyond max(k, ...) = 4
    let bits = fast_bit_sieve(100);
    let pi = generate_compact_pi(100, &bits);
    let primes = collect_primes_from_bits(&bits, 50);
    assert_eq!(compute_c1(10_000, 50, 10, 4, &primes, &pi), 0);
}

#[test]
fn compact_pi_coarse_entries_are_pi_at_block_starts() {
    let bits = fast_bit_sieve(3000);
    assert_eq!(bits.len(), ((3000 - 3) / 2 + 1 + 63) / 64);
    let pi = generate_compact_pi(3000, &bits);
    // pi(0), pi(256), pi(512), pi(768), pi(1024), ..., pi(2816)
    let expected = [0u32, 54, 97, 135, 172, 207, 242, 278, 309, 342, 375, 409];
    for (i, &v) in expected.iter().enumerate() {
        assert_eq!(pi.coarse[i], v, "pi({})", 256 * i);
    }
}
