use fast_prime::b_term::compute_b;
use fast_prime::big_pi::BigPiTable;
use fast_prime::roots::isqrt;

fn b_of(x: u64, y: usize) -> i128 {
    let big = BigPiTable::new(isqrt(x) as usize);
    compute_b(x, y, &big)
}

#[test]
fn b_known_values() {
    assert_eq!(b_of(1_000_000_000, 2000), 28_820_158);
    assert_eq!(b_of(10_000_000_000, 4000), 270_997_201);
}

#[test]
fn b_counts_the_odd_primes_only() {
    // p = 2 is not among the terms: y = 1 and y = 2 give the same sum
    assert_eq!(b_of(100_000_000, 1), 15_180_730);
    assert_eq!(b_of(100_000_000, 2), 15_180_730);
}

#[test]
fn b_is_empty_from_sqrt_x_on() {
    assert_eq!(b_of(1_000_000, 1000), 0);
    assert_eq!(b_of(1_000_000, 5000), 0);
}
