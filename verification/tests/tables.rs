use fast_prime::roots::{get_x_star, iroot4, isqrt};
use primal::Sieve;
use fast_prime::tables::{generate_lpf, generate_mu, generate_pi, PhiTinyCache, NO_FACTOR};

fn least_factor(m: usize) -> i32 {
    if m == 0 {
        return 0;
    }
    (2..=m).find(|d| m % d == 0).map(|d| d as i32).unwrap_or(NO_FACTOR)
}

fn mobius_naive(m: usize) -> i8 {
    if m == 0 {
        return 0;
    }
    let mut n = m;
    let mut sign = 1i8;
    let mut p = 2;
    while p * p <= n {
        if n % p == 0 {
            n /= p;
            if n % p == 0 {
                return 0;
            }
            sign = -sign;
        }
        p += 1;
    }
    if n > 1 {
        sign = -sign;
    }
    sign
}

#[test]
fn lpf_table_small_values() {
    let lpf = generate_lpf(30);
    assert_eq!(lpf.len(), 31);
    assert_eq!(lpf[0], 0);
    assert_eq!(lpf[1], NO_FACTOR);
    assert_eq!(lpf[2], 2);
    assert_eq!(lpf[9], 3);
    assert_eq!(lpf[25], 5);
    assert_eq!(lpf[29], 29);
    assert_eq!(lpf[30], 2);
}

#[test]
fn lpf_table_matches_trial_division() {
    let lpf = generate_lpf(2_000);
    for m in 0..=2_000 {
        assert_eq!(lpf[m], least_factor(m), "lpf({})", m);
    }
}

#[test]
fn mu_table_small_values() {
    let mu = generate_mu(30);
    assert_eq!(&mu[0..13], &[0, 1, -1, -1, 0, -1, 1, -1, 0, 0, 1, -1, 0]);
    assert_eq!(mu[30], -1);
}

#[test]
fn mu_table_matches_factorisation() {
    let mu = generate_mu(3_000);
    for m in 0..=3_000 {
        assert_eq!(mu[m], mobius_naive(m), "mu({})", m);
    }
}

#[test]
fn pi_table_counts_primes() {
    let sieve = Sieve::new(1_000);
    let pi = generate_pi(1_000, &sieve);
    assert_eq!(pi.len(), 1_001);
    assert_eq!(pi[0], 0);
    assert_eq!(pi[1], 0);
    assert_eq!(pi[2], 1);
    assert_eq!(pi[10], 4);
    assert_eq!(pi[100], 25);
    assert_eq!(pi[1_000], 168);
}

#[test]
fn phi_tiny_matches_direct_count() {
    let tiny = [2u64, 3, 5, 7, 11, 13, 17];
    for c in 0..=7usize {
        let cache = PhiTinyCache::new(c);
        let mut direct = 0i64;
        for x in 0..=1_200u64 {
            if x > 0 && tiny[..c].iter().all(|p| x % p != 0) {
                direct += 1;
            }
            assert_eq!(cache.phi(x), direct, "phi({}, {})", x, c);
        }
    }
}

#[test]
fn phi_tiny_large_arguments() {
    let cache = PhiTinyCache::new(6);
    assert_eq!(cache.pc, 30_030);
    assert_eq!(cache.phi_pc, 5_760);
    // phi(10^12, 6) = (10^12 / 30030) * 5760 + phi(10^12 mod 30030, 6)
    let x = 1_000_000_000_000u64;
    let rem = x % 30_030;
    let tail = (1..=rem).filter(|j| [2u64, 3, 5, 7, 11, 13].iter().all(|p| j % p != 0)).count() as i64;
    assert_eq!(cache.phi(x), (x / 30_030) as i64 * 5_760 + tail);
    let seven = PhiTinyCache::new(7);
    assert_eq!(seven.pc, 510_510);
    assert_eq!(seven.phi_pc, 92_160);
}

#[test]
fn gourdon_tables_agree_with_the_single_tables() {
    let (mu, lpf, smooth) = fast_prime::tables::generate_tables(500, 20);
    assert_eq!(mu, generate_mu(500));
    assert_eq!(lpf, generate_lpf(500));
    assert!(!smooth[0]);
    assert!(smooth[1]);
    for m in 1..=500usize {
        let mut n = m;
        let mut largest = 1;
        let mut d = 2;
        while d * d <= n {
            while n % d == 0 {
                largest = d;
                n /= d;
            }
            d += 1;
        }
        if n > 1 {
            largest = largest.max(n);
        }
        assert_eq!(smooth[m], largest <= 20, "smooth({})", m);
    }
}

#[test]
fn x_star_bounds() {
    for &(x, y) in &[(1_000_000_000_000u64, 20_000u64), (10_000_000_000_000_000, 500_000), (1_000, 0), (100, 50)] {
        let yy = y.max(1);
        let ceil_div = (x as u128 + (yy as u128) * (yy as u128) - 1) / ((yy as u128) * (yy as u128));
        let expect = (iroot4(x).max(ceil_div as u64)).min(yy).min(isqrt(x / yy)).max(1);
        assert_eq!(get_x_star(x, y), expect);
    }
    // x = 10^12, y = 2 * 10^4: x^(1/4) = 1000, ceil(x / y^2) = 2500, y = 20000, sqrt(x / y) = 7071
    assert_eq!(get_x_star(1_000_000_000_000, 20_000), 2_500);
}

#[test]
fn phi_tiny_beyond_i64_max() {
    // phi(x, c) for c >= 1 stays within i64 for x past i64::MAX
    assert_eq!(PhiTinyCache::new(2).phi(u64::MAX), 6_148_914_691_236_517_205);
    assert_eq!(PhiTinyCache::new(1).phi(u64::MAX - 1), i64::MAX);
}
