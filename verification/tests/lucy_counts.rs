use fast_prime::lucy::count_primes_lucy;
use fast_prime::wheel_sieve::count_primes;

#[test]
fn lucy_small_limits() {
    let expected = [0u64, 0, 1, 2, 2, 3, 3, 4, 4, 4, 4, 5];
    for (n, &e) in expected.iter().enumerate() {
        assert_eq!(count_primes_lucy(n as u64), e, "pi({})", n);
    }
    assert_eq!(count_primes_lucy(100), 25);
}

#[test]
fn lucy_one_thousand() {
    assert_eq!(count_primes_lucy(1_000), 168);
}

#[test]
fn lucy_one_million() {
    assert_eq!(count_primes_lucy(1_000_000), 78_498);
}

#[test]
fn lucy_one_billion() {
    assert_eq!(count_primes_lucy(1_000_000_000), 50_847_534);
}

#[test]
fn lucy_agrees_with_wheel_sieve() {
    // every limit up to 5000, so that each prime's pass and each phase of
    // the update runs on its own boundary cases
    for n in 0..5_000u64 {
        assert_eq!(count_primes_lucy(n), count_primes(n), "pi({})", n);
    }
    for &n in &[65_535u64, 65_536, 99_991, 1_048_576] {
        assert_eq!(count_primes_lucy(n), count_primes(n), "pi({})", n);
    }
}

#[test]
fn lucy_hundred_million() {
    assert_eq!(count_primes_lucy(100_000_000), 5_761_455);
}
