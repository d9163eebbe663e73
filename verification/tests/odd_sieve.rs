use fast_prime::odd_sieve::{collect_primes_from_bits, fast_bit_sieve, generate_compact_pi};

fn is_prime_naive(n: u64) -> bool {
    n >= 2 && (2..n).take_while(|d| d * d <= n).all(|d| n % d != 0)
}

#[test]
fn bit_sieve_small() {
    assert!(fast_bit_sieve(0).is_empty());
    assert!(fast_bit_sieve(2).is_empty());
    let bits = fast_bit_sieve(3);
    assert_eq!(bits, vec![1u64]);
    // 3, 5, 7 prime; 9 not; 11, 13 prime
    let bits = fast_bit_sieve(13);
    assert_eq!(bits, vec![0b110111u64]);
}

#[test]
fn bit_sieve_matches_trial_division() {
    let limit = 20_000usize;
    let bits = fast_bit_sieve(limit);
    for i in 0..bits.len() * 64 {
        let n = 2 * i as u64 + 3;
        let set = (bits[i / 64] >> (i % 64)) & 1 == 1;
        assert_eq!(set, n <= limit as u64 && is_prime_naive(n), "bit for {}", n);
    }
}

#[test]
fn compact_pi_counts_primes() {
    let limit = 10_000usize;
    let bits = fast_bit_sieve(limit);
    let table = generate_compact_pi(limit, &bits);
    assert_eq!(table.len(), limit + 1);
    let mut pi = 0u32;
    for n in 0..=limit {
        if is_prime_naive(n as u64) {
            pi += 1;
        }
        assert_eq!(table.get(n), pi, "pi({})", n);
    }
    assert_eq!(table.get(10_000), 1_229);
    let tiny = generate_compact_pi(1, &fast_bit_sieve(1));
    assert_eq!(tiny.get(0), 0);
    assert_eq!(tiny.get(1), 0);
}

#[test]
fn primes_from_bits() {
    let bits = fast_bit_sieve(100);
    let primes = collect_primes_from_bits(&bits, 50);
    assert_eq!(primes, vec![0, 2, 3, 5, 7, 11, 13, 17, 19, 23, 29, 31, 37, 41, 43, 47]);
    let all = collect_primes_from_bits(&bits, 1_000);
    assert_eq!(all.len(), 2 + 24);
    assert_eq!(*all.last().unwrap(), 97);
    assert_eq!(collect_primes_from_bits(&Vec::new(), 10), vec![0, 2]);
}
