use fast_prime::odd_sieve::{collect_primes_from_bits, fast_bit_sieve, generate_compact_pi};
use fast_prime::d_tables::generate_tables;
use fast_prime::valid_m::build_valid_m;

#[test]
fn valid_m_lists_squarefree_smooth_m_past_the_threshold() {
    let bits = fast_bit_sieve(1000);
    let pi = generate_compact_pi(1000, &bits);
    let primes = collect_primes_from_bits(&bits, 100);
    let (mu, lpf, smooth) = generate_tables(100, 20);
    // k = 2: the threshold is primes[3] = 5, so m is made of 7, 11, 13, 17, 19
    let (list, index) = build_valid_m(100, 2, &primes, &pi, &mu, &lpf, &smooth, 16);
    let ms: Vec<u32> = list.iter().map(|e| e.m).collect();
    assert_eq!(ms, vec![7, 11, 13, 17, 19, 77, 91]);
    assert_eq!(list[0].lpf, 7);
    assert_eq!(list[0].mu_val, -1);
    assert_eq!(list[5].mu_val, 1);
    assert_eq!(list[6].lpf, 7);
    assert_eq!(list[0].recip_m, 2_635_249_153_387_078_802);
    assert_eq!(list[6].recip_m, 202_711_473_337_467_600);
    assert_eq!(index, vec![0, 3, 5, 5, 5, 6, 7]);
}

#[test]
fn valid_m_empty_when_pi_sqrt_z_is_not_past_k() {
    let bits = fast_bit_sieve(1000);
    let pi = generate_compact_pi(1000, &bits);
    let primes = collect_primes_from_bits(&bits, 100);
    let (mu, lpf, smooth) = generate_tables(100, 20);
    // pi(sqrt(100)) = 4
    let (list, index) = build_valid_m(100, 4, &primes, &pi, &mu, &lpf, &smooth, 16);
    assert!(list.is_empty());
    assert!(index.is_empty());
}
