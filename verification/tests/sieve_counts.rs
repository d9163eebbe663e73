use fast_prime::roots::{icbrt, iroot4, isqrt};
use fast_prime::wheel_sieve::count_primes;

#[test]
fn count_primes_small_limits() {
    let expected = [0u64, 0, 1, 2, 2, 3, 3, 4, 4, 4, 4, 5];
    for (n, &e) in expected.iter().enumerate() {
        assert_eq!(count_primes(n as u64), e, "pi({})", n);
    }
    assert_eq!(count_primes(24), 9);
    assert_eq!(count_primes(29), 10);
    assert_eq!(count_primes(30), 10);
    assert_eq!(count_primes(100), 25);
}

#[test]
fn count_primes_one_thousand() {
    assert_eq!(count_primes(1_000), 168);
}

#[test]
fn count_primes_one_million() {
    assert_eq!(count_primes(1_000_000), 78_498);
}

#[test]
fn count_primes_ten_million() {
    assert_eq!(count_primes(10_000_000), 664_579);
}

#[test]
fn count_primes_agrees_with_trial_division() {
    let mut pi = 0u64;
    for n in 0..3000u64 {
        let mut is_p = n >= 2;
        let mut d = 2;
        while d * d <= n {
            if n % d == 0 {
                is_p = false;
                break;
            }
            d += 1;
        }
        if is_p {
            pi += 1;
        }
        assert_eq!(count_primes(n), pi, "pi({})", n);
    }
}

#[test]
fn integer_roots_are_exact() {
    assert_eq!(isqrt(0), 0);
    assert_eq!(isqrt(15), 3);
    assert_eq!(isqrt(16), 4);
    assert_eq!(isqrt(u64::MAX), 4_294_967_295);
    assert_eq!(icbrt(26), 2);
    assert_eq!(icbrt(27), 3);
    assert_eq!(icbrt(u64::MAX), 2_642_245);
    assert_eq!(iroot4(80), 2);
    assert_eq!(iroot4(81), 3);
    assert_eq!(iroot4(u64::MAX), 65_535);
}
