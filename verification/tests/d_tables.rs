use fast_prime::d_tables::generate_tables;

fn least_factor(n: usize) -> usize {
    let mut d = 2;
    while d * d <= n {
        if n % d == 0 {
            return d;
        }
        d += 1;
    }
    n
}

fn mobius(n: usize) -> i8 {
    let mut rest = n;
    let mut sign = 1i8;
    while rest > 1 {
        let p = least_factor(rest);
        rest /= p;
        if rest % p == 0 {
            return 0;
        }
        sign = -sign;
    }
    sign
}

fn largest_factor(n: usize) -> usize {
    let mut rest = n;
    let mut largest = 1;
    while rest > 1 {
        let p = least_factor(rest);
        largest = p;
        rest /= p;
    }
    largest
}

#[test]
fn d_tables_match_their_definitions() {
    for &(limit, y) in &[(1000usize, 50usize), (1000, 10), (5000, 200), (10, 3), (1, 1), (0, 5)] {
        let (mu, lpf, smooth) = generate_tables(limit, y);
        assert_eq!(mu.len(), limit + 1);
        assert_eq!(lpf.len(), limit + 1);
        assert_eq!(smooth.len(), limit + 1);
        let s = (limit as f64).sqrt() as usize;
        let bound = y.max(s);
        for n in 0..=limit {
            if n == 0 {
                assert_eq!((mu[0], lpf[0], smooth[0]), (0, 0, false));
                continue;
            }
            assert_eq!(mu[n], mobius(n), "mu({})", n);
            let expected_lpf = if n < 2 { 0 } else { least_factor(n).min(65535) as u16 };
            assert_eq!(lpf[n], expected_lpf, "lpf({})", n);
            assert_eq!(smooth[n], largest_factor(n) <= bound, "smooth({}) with y = {}", n, y);
        }
    }
}

#[test]
fn d_tables_first_entries() {
    let (mu, lpf, smooth) = generate_tables(12, 3);
    assert_eq!(mu, vec![0, 1, -1, -1, 0, -1, 1, -1, 0, 0, 1, -1, 0]);
    assert_eq!(lpf, vec![0, 0, 2, 3, 2, 5, 2, 7, 2, 3, 2, 11, 2]);
    // isqrt(12) = 3, so only primes above 3 clear an entry
    assert_eq!(smooth, vec![false, true, true, true, true, false, true, false, true, true, false, false, true]);
}
