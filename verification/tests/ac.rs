use fast_prime::ac::compute_ac;
use fast_prime::big_pi::BigPiTable;
use fast_prime::lmo::prime_reciprocals;
use fast_prime::odd_sieve::{collect_primes_from_bits, fast_bit_sieve, generate_compact_pi};
use fast_prime::roots::{get_x_star, isqrt};

fn ac_of(x: u64, y: usize, z: usize, k: usize, x_star: usize, limit: usize) -> i128 {
    let bits = fast_bit_sieve(limit);
    let pi = generate_compact_pi(limit, &bits);
    let primes = collect_primes_from_bits(&bits, y);
    let recip = prime_reciprocals(&primes);
    let big = BigPiTable::new(isqrt(x) as usize);
    compute_ac(x, y, z, k, x_star, &primes, &pi, &big, &recip)
}

#[test]
fn ac_known_values() {
    assert_eq!(get_x_star(1_000_000_000, 2000), 250);
    assert_eq!(ac_of(1_000_000_000, 2000, 20_000, 6, 250, 50_000), 10_090_111);
    assert_eq!(get_x_star(10_000_000_000, 4000), 625);
    assert_eq!(ac_of(10_000_000_000, 4000, 40_000, 6, 625, 200_000), 91_023_114);
    assert_eq!(ac_of(100_000_000, 1000, 5000, 4, 100, 20_000), 1_342_167);
}

#[test]
fn ac_needs_the_table_only_up_to_y() {
    // every window lies at or below y, so a table up to y gives the same sum
    assert_eq!(ac_of(1_000_000_000, 2000, 20_000, 6, 250, 2000), 10_090_111);
}
