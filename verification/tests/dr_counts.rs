use fast_prime::dr::count_primes_dr;
use fast_prime::roots::icbrt;

fn y_for(x: u64) -> usize {
    std::cmp::max((icbrt(x) * 22 / 10) as usize, 1)
}

#[test]
fn dr_counts_known_values() {
    for &(x, expected) in &[
        (0u64, 0u64),
        (1, 0),
        (2, 1),
        (10_000, 1_229),
        (10_001, 1_229),
        (100_000, 9_592),
        (1_000_000, 78_498),
        (10_000_000, 664_579),
        (100_000_000, 5_761_455),
        (1_000_000_000, 50_847_534),
    ] {
        assert_eq!(count_primes_dr(x, y_for(x), 1 << 17), expected, "pi({})", x);
    }
}

#[test]
fn dr_does_not_depend_on_y() {
    let x = 50_000_000u64;
    let c = icbrt(x) as usize;
    for &y in &[c + 1, c * 2, c * 5, 7_000] {
        assert_eq!(count_primes_dr(x, y, 1 << 17), 3_001_134, "y = {}", y);
    }
}
