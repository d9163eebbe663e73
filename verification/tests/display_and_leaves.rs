use fast_prime::display::{extract_recent, leading_primes};
use fast_prime::leaves::compute_s1;
use fast_prime::roots::isqrt;
use primal::Sieve;
use fast_prime::tables::{generate_lpf, generate_mu, PhiTinyCache};
use fast_prime::wheel30::{next_coprime30, num_to_wheel_pos, wheel_bit_count};
use fast_prime::wheel_sieve::{prepare_sieve, segment_bounds, sieve_segment_count};

fn last_segment_recent(limit: u64, k: usize) -> Vec<u64> {
    let sqrt_n = isqrt(limit) + 1;
    let small = Sieve::new(sqrt_n as usize);
    let sieve_start = ((sqrt_n + 1 + 29) / 30) * 30;
    let st = prepare_sieve(limit, sqrt_n, sieve_start, &small, 0);
    let mut buf = vec![0u8; st.seg_bytes];
    let mut starts = vec![0u32; st.tiny_split * 8];
    let last = st.num_segs - 1;
    sieve_segment_count(&st, last, &mut buf, &mut starts);
    let (lo, len) = segment_bounds(&st, last);
    extract_recent(&buf, len, lo, limit, k)
}

#[test]
fn recent_primes_below_a_million() {
    assert_eq!(last_segment_recent(1_000_000, 5), vec![999_953, 999_959, 999_961, 999_979, 999_983]);
}

#[test]
fn recent_primes_stop_at_the_limit() {
    // 1_000_003 is prime but lies above the limit
    assert_eq!(last_segment_recent(1_000_002, 2), vec![999_979, 999_983]);
    assert_eq!(last_segment_recent(1_000_003, 2), vec![999_983, 1_000_003]);
}

#[test]
fn recent_primes_none_asked() {
    assert!(last_segment_recent(1_000_000, 0).is_empty());
}

#[test]
fn leading_primes_counts_and_keeps_the_last() {
    let small = Sieve::new(100);
    assert_eq!(leading_primes(100, &small, 3), (25, vec![83, 89, 97]));
    assert_eq!(leading_primes(1, &small, 5), (0, vec![]));
    assert_eq!(leading_primes(7, &small, 10), (4, vec![2, 3, 5, 7]));
}

#[test]
fn wheel30_positions() {
    assert_eq!(next_coprime30(0), 1);
    assert_eq!(next_coprime30(2), 7);
    assert_eq!(next_coprime30(30), 31);
    assert_eq!(next_coprime30(31), 31);
    assert_eq!(next_coprime30(32), 37);
    assert_eq!(next_coprime30(59), 59);
    assert_eq!(wheel_bit_count(0), 0);
    assert_eq!(wheel_bit_count(29), 8);
    assert_eq!(wheel_bit_count(30), 8);
    assert_eq!(wheel_bit_count(31), 9);
    assert_eq!(wheel_bit_count(300), 80);
    assert_eq!(num_to_wheel_pos(1, 0), 0);
    assert_eq!(num_to_wheel_pos(30, 0), 7);
    assert_eq!(num_to_wheel_pos(31, 0), 8);
    assert_eq!(num_to_wheel_pos(66, 30), 8);
}

#[test]
fn ordinary_leaves_match_direct_sum() {
    let (x, y, c) = (100_000u64, 60usize, 2usize);
    let mu = generate_mu(y);
    let lpf = generate_lpf(y);
    let cache = PhiTinyCache::new(c);
    let s1 = compute_s1(x, y, 3, &mu, &lpf, &cache);
    let phi = |v: u64| (1..=v).filter(|j| j % 2 != 0 && j % 3 != 0).count() as i128;
    let mut direct = 0i128;
    for n in 1..=y {
        if mu[n] != 0 && lpf[n] > 3 {
            direct += mu[n] as i128 * phi(x / n as u64);
        }
    }
    assert_eq!(s1, direct);
    // n = 1 contributes phi(x, 2): the 33_333 numbers up to x coprime to 6
    assert_eq!(phi(x), 33_333);
}
