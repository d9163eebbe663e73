use fast_prime::lmo::{
    combine_s2_chunks, compute_s2, compute_s2_serial, count_primes, fast_div_floor, next_power_of_two, plan_s2,
    prime_table_from_sieve, s2_chunk, small_pi_table, S2Chunk,
};
use fast_prime::roots::icbrt;
use primal::Sieve;
use fast_prime::tables::{generate_lpf, generate_mu, generate_pi};

fn is_prime(n: u64) -> bool {
    n >= 2 && (2..).take_while(|d| d * d <= n).all(|d| n % d != 0)
}

fn pi_brute(n: u64) -> u64 {
    let mut composite = vec![false; n as usize + 1];
    let mut count = 0;
    for k in 2..=n as usize {
        if !composite[k] {
            count += 1;
            let mut m = k * k;
            while m <= n as usize {
                composite[m] = true;
                m += k;
            }
        }
    }
    count
}

fn mobius(m: u64) -> i64 {
    let mut n = m;
    let mut sign = 1;
    let mut p = 2;
    while p * p <= n {
        if n % p == 0 {
            n /= p;
            if n % p == 0 {
                return 0;
            }
            sign = -sign;
        }
        p += 1;
    }
    if n > 1 {
        sign = -sign;
    }
    sign
}

fn least_factor(m: u64) -> u64 {
    (2..=m).find(|d| m % d == 0).unwrap_or(u64::MAX)
}

/// phi(n, k) by brute force over the first k primes.
fn phi(n: u64, primes: &[u64], k: usize) -> i64 {
    (1..=n).filter(|&j| primes[1..=k].iter().all(|&p| j % p != 0)).count() as i64
}

/// S2 straight from its definition: the leaves (b, m) with b in (c, pi(y) - 1],
/// m <= y squarefree with all factors above p_b and p_b * m > y.
fn s2_brute(x: u64, y: u64, c: usize) -> i128 {
    let mut primes = vec![0u64];
    primes.extend((2..=y).filter(|&k| is_prime(k)));
    let pi_y = primes.len() - 1;
    let mut s2 = 0i128;
    for b in c + 1..pi_y {
        let p = primes[b];
        for m in 1..=y {
            let mu = mobius(m);
            if mu != 0 && least_factor(m) > p && y / p < m {
                s2 -= (mu as i128) * phi(x / p / m, &primes, b - 1) as i128;
            }
        }
    }
    s2
}

fn lmo_y(x: u64) -> usize {
    std::cmp::max((icbrt(x) * 22 / 10) as usize, 1)
}

struct Tables {
    primes: Vec<u32>,
    lpf: Vec<i32>,
    mu: Vec<i8>,
    pi: Vec<u32>,
}

fn tables(y: usize) -> Tables {
    let sieve = Sieve::new(y);
    Tables {
        primes: prime_table_from_sieve(&sieve, y),
        lpf: generate_lpf(y),
        mu: generate_mu(y),
        pi: generate_pi(y, &sieve),
    }
}

#[test]
fn lmo_small_inputs_from_the_sieve() {
    assert_eq!(count_primes(0), 0);
    assert_eq!(count_primes(1), 0);
    assert_eq!(count_primes(2), 1);
    assert_eq!(count_primes(100), 25);
    assert_eq!(count_primes(10_000), 1229);
}

#[test]
fn lmo_powers_of_ten() {
    assert_eq!(count_primes(100_000), 9592);
    assert_eq!(count_primes(1_000_000), 78498);
    assert_eq!(count_primes(10_000_000), 664579);
    assert_eq!(count_primes(100_000_000), 5761455);
}

#[test]
fn lmo_billion_uses_chunks() {
    // z = x / y is about 4.6e5 here: four segments of 2^17, so the chunked path
    assert_eq!(count_primes(1_000_000_000), 50847534);
}

#[test]
fn lmo_agrees_with_a_sieve() {
    for &x in &[10_001u64, 10_007, 12_345, 30_030, 65_536, 99_991, 250_000, 510_510, 777_777, 1_234_567] {
        assert_eq!(count_primes(x), pi_brute(x), "x = {}", x);
    }
}

#[test]
fn s2_matches_its_definition() {
    for &x in &[10_001u64, 20_000, 54_321, 100_000] {
        let y = lmo_y(x);
        let t = tables(y);
        let s2 = compute_s2(x, y, 6, &t.primes, &t.lpf, &t.mu, &t.pi);
        assert_eq!(s2, s2_brute(x, y as u64, 6), "x = {}", x);
    }
}

#[test]
fn s2_serial_any_segment_size() {
    let x = 3_000_000u64;
    let y = lmo_y(x);
    let t = tables(y);
    let plan = plan_s2(x, y, 6, &t.primes, &t.lpf, &t.mu, &t.pi, 4);
    let whole = compute_s2(x, y, 6, &t.primes, &t.lpf, &t.mu, &t.pi);
    for &seg in &[1usize, 7, 64, 1000, 1 << 17] {
        let s = compute_s2_serial(x, y, 6, &t.primes, &t.lpf, &t.mu, &t.pi, plan.z, plan.pi_sqrty, plan.pi_y, seg,
            &plan.template, &plan.prime_recip);
        assert_eq!(s, whole, "segment size {}", seg);
    }
}

#[test]
fn s2_chunks_put_together() {
    let x = 50_000_000u64;
    let y = lmo_y(x);
    let t = tables(y);
    let whole = compute_s2(x, y, 6, &t.primes, &t.lpf, &t.mu, &t.pi);
    for &(seg, chunks) in &[(1usize << 10, 1usize), (1 << 10, 3), (1 << 12, 7), (4096, 40)] {
        let mut plan = plan_s2(x, y, 6, &t.primes, &t.lpf, &t.mu, &t.pi, 1);
        plan.segment_size = seg;
        plan.num_segments = plan.z / seg + 1;
        plan.nchunks = std::cmp::min(chunks, plan.num_segments);
        let global_pi = small_pi_table(seg);
        let results: Vec<S2Chunk> =
            (0..plan.nchunks).map(|tid| s2_chunk(&plan, &t.primes, &t.lpf, &t.mu, &t.pi, &global_pi, tid)).collect();
        let s2 = combine_s2_chunks(&plan, &t.primes, &t.lpf, &t.mu, &t.pi, &results);
        assert_eq!(s2, whole, "segments of {}, {} chunks", seg, chunks);
    }
}

#[test]
fn pi_table_of_eratosthenes() {
    let tab = small_pi_table(100);
    assert_eq!(tab.len(), 101);
    assert_eq!(tab[0], 0);
    assert_eq!(tab[1], 0);
    assert_eq!(tab[2], 1);
    assert_eq!(tab[10], 4);
    assert_eq!(tab[97], 25);
    assert_eq!(tab[100], 25);
    let big = small_pi_table(1 << 17);
    assert_eq!(big[100_000], 9592);
}

#[test]
fn powers_of_two() {
    assert_eq!(next_power_of_two(0), 1);
    assert_eq!(next_power_of_two(1), 1);
    assert_eq!(next_power_of_two(3), 4);
    assert_eq!(next_power_of_two(1 << 17), 1 << 17);
    assert_eq!(next_power_of_two((1 << 17) + 1), 1 << 18);
}

#[test]
fn reciprocal_division_is_exact() {
    for &d in &[2u64, 3, 7, 13, 65_537, 1_000_003] {
        let r = ((1u128 << 64) / d as u128) as u64;
        for &n in &[0u64, 1, d - 1, d, d + 1, 123_456_789, u64::MAX / 3, (1 << 63) - 1] {
            assert_eq!(fast_div_floor(n, d, r), n / d, "{} / {}", n, d);
        }
    }
}

#[test]
fn prime_table_lists_the_primes() {
    let s = Sieve::new(100);
    let t = prime_table_from_sieve(&s, 30);
    assert_eq!(t, vec![0, 2, 3, 5, 7, 11, 13, 17, 19, 23, 29]);
}
