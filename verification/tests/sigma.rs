use fast_prime::big_pi::BigPiTable;
use fast_prime::odd_sieve::{fast_bit_sieve, generate_compact_pi};
use fast_prime::roots::{get_x_star, isqrt};
use fast_prime::sigma::compute_sigma;

fn sigma_of(x: u64, y: usize, x_star: usize, limit: usize) -> i128 {
    let bits = fast_bit_sieve(limit);
    let pi = generate_compact_pi(limit, &bits);
    let big = BigPiTable::new(isqrt(x) as usize);
    compute_sigma(x, y, x_star, &Vec::new(), &pi, &big)
}

#[test]
fn sigma_known_values() {
    assert_eq!(get_x_star(1_000_000_000, 2000), 250);
    assert_eq!(sigma_of(1_000_000_000, 2000, 250, 1_000_000), 3_955_408);
    assert_eq!(get_x_star(10_000_000_000, 4000), 625);
    assert_eq!(sigma_of(10_000_000_000, 4000, 625, 2_000_000), 34_484_211);
    assert_eq!(sigma_of(123_456_789, 700, 251, 1_000_000), 776_512);
    assert_eq!(sigma_of(1_000_000, 150, 44, 10_000), 10_834);
}

#[test]
fn sigma_reads_pi_no_further_than_the_table() {
    assert_eq!(sigma_of(100_000_000, 300, 100, 1_000_000), 679_030);
    assert_eq!(sigma_of(100_000_000, 300, 100, 300), 729_022);
}

#[test]
fn sigma_without_primes_past_x_star() {
    // x* = cbrt(x): the three prime sums are empty
    assert_eq!(sigma_of(1_000_000, 150, 100, 10_000), 15_927);
    // x* past cbrt(x), so Sigma3 runs backwards
    assert_eq!(sigma_of(1_000_000, 150, 5_000, 10_000), -91_773_393);
}
