use fast_prime::p2::compute_p2;
use fast_prime::pi_sieve::PiSieve;
use fast_prime::wheel_sieve::count_primes;

fn primes_upto(n: u64) -> Vec<u64> {
    (2..=n).filter(|&k| (2..k).take_while(|d| d * d <= k).all(|d| k % d != 0)).collect()
}

fn p2_brute(x: u64, y: u64) -> i128 {
    let ps = primes_upto(x / 2 + 1);
    let mut count = 0i128;
    for (i, &p) in ps.iter().enumerate() {
        if p <= y || p * p > x {
            continue;
        }
        for &q in &ps[i..] {
            if p * q <= x {
                count += 1;
            }
        }
    }
    count
}

fn pi_table(n: usize) -> Vec<usize> {
    let mut composite = vec![false; n + 1];
    let mut pi = vec![0usize; n + 1];
    let mut count = 0;
    for k in 2..=n {
        if !composite[k] {
            count += 1;
            let mut m = k * k;
            while m <= n {
                composite[m] = true;
                m += k;
            }
        }
        pi[k] = count;
    }
    pi
}

#[test]
fn pi_sieve_matches_eratosthenes() {
    let reference = pi_table(65_537);
    for limit in [0usize, 1, 2, 3, 4, 8, 9, 10, 63, 64, 127, 128, 129, 1_000, 65_537] {
        let s = PiSieve::new(limit);
        for n in 0..=limit {
            assert_eq!(s.prime_pi(n), reference[n], "pi({}) in a sieve to {}", n, limit);
        }
    }
    assert_eq!(count_primes(65_537) as usize, reference[65_537]);
}

#[test]
fn pi_sieve_large_query() {
    let s = PiSieve::new(10_000_000);
    assert_eq!(s.prime_pi(10_000_000), 664_579);
    assert_eq!(s.prime_pi(1_000_000), 78_498);
}

#[test]
fn p2_small_cases() {
    // 2*2, 2*3, 2*5, 3*3 are the products up to 10 of primes above 1
    assert_eq!(compute_p2(10, 1, 0), 4);
    // y at or above sqrt(x): no pairs
    assert_eq!(compute_p2(100, 10, 4), 0);
    assert_eq!(compute_p2(0, 0, 0), 0);
}

#[test]
fn p2_matches_pair_count() {
    for &(x, y) in &[(100u64, 2u64), (1_000, 5), (1_000, 10), (5_000, 3), (10_000, 21), (10_000, 50)] {
        let pi_y = count_primes(y) as usize;
        assert_eq!(compute_p2(x, y as usize, pi_y), p2_brute(x, y), "P2({}, {})", x, y);
    }
}

#[test]
fn pi_sieve_clears_bits_past_the_limit() {
    let s = fast_prime::pi_sieve::PiSieve::new(1000);
    // bits stand for 1, 3, ..., 1001; the one for 1001 = 7 * 11 * 13 is clear
    for i in 501..64 * s.bitmap.len() {
        assert_eq!((s.bitmap[i / 64] >> (i % 64)) & 1, 0, "bit {}", i);
    }
}
