use fast_prime::big_pi::{build_presieve_masks, BigPiTable};

#[test]
fn big_pi_small_limits() {
    let t = BigPiTable::new(2);
    assert_eq!(t.pi(0), 0);
    assert_eq!(t.pi(1), 0);
    assert_eq!(t.pi(2), 1);
    let t = BigPiTable::new(10);
    let expected = [0u64, 0, 1, 2, 2, 3, 3, 4, 4, 4, 4];
    for n in 0..=10usize {
        assert_eq!(t.pi(n), expected[n], "pi({})", n);
    }
}

#[test]
fn big_pi_known_values() {
    let t = BigPiTable::new(1_000_000);
    assert_eq!(t.pi(100), 25);
    assert_eq!(t.pi(1000), 168);
    assert_eq!(t.pi(10_000), 1229);
    assert_eq!(t.pi(100_000), 9592);
    assert_eq!(t.pi(1_000_000), 78498);
}

#[test]
fn big_pi_across_segment_boundary() {
    // odd numbers past the first segment of 262144 odd numbers
    let t = BigPiTable::new(600_000);
    assert_eq!(t.pi(524_287), 43390);
    assert_eq!(t.pi(524_288), 43390);
    assert_eq!(t.pi(524_289), 43390);
    assert_eq!(t.pi(600_000), 49098);
    // agrees with trial division around the boundary
    let mut count = 0u64;
    for n in 2..=524_400u64 {
        let mut prime = true;
        let mut d = 2u64;
        while d * d <= n {
            if n % d == 0 {
                prime = false;
                break;
            }
            d += 1;
        }
        if prime {
            count += 1;
        }
        if n >= 524_200 {
            assert_eq!(t.pi(n as usize), count, "pi({})", n);
        }
    }
}

#[test]
fn big_pi_matches_primal() {
    let t = BigPiTable::new(200_000);
    let s = primal::Sieve::new(200_000);
    for n in (0..=200_000usize).step_by(997) {
        assert_eq!(t.pi(n) as usize, s.prime_pi(n), "pi({})", n);
    }
}

#[test]
fn presieve_masks_clear_every_pth_bit() {
    let m3 = build_presieve_masks(3);
    assert_eq!(m3.len(), 3);
    assert_eq!(m3[0], !0x9249_2492_4924_9249u64);
    for off in 0..7usize {
        let m = build_presieve_masks(7)[off];
        for q in 0..64usize {
            assert_eq!((m >> q) & 1 == 1, q % 7 != off);
        }
    }
}

#[test]
fn big_pi_next_prime_after() {
    let t = BigPiTable::new(1000);
    assert_eq!(t.next_prime_after(0), 2);
    assert_eq!(t.next_prime_after(1), 2);
    assert_eq!(t.next_prime_after(2), 3);
    assert_eq!(t.next_prime_after(3), 5);
    assert_eq!(t.next_prime_after(7), 11);
    assert_eq!(t.next_prime_after(24), 29);
    assert_eq!(t.next_prime_after(89), 97);
    // from the last odd number of the first word into the second
    assert_eq!(t.next_prime_after(127), 131);
    assert_eq!(t.next_prime_after(996), 997);
    let big = BigPiTable::new(1_000_000);
    // a gap of 112 that spans a word boundary
    assert_eq!(big.next_prime_after(370_261), 370_373);
}

#[test]
fn big_pi_first_word() {
    let t = BigPiTable::new(1000);
    // bit i stands for 2 i + 1: the odd primes up to 127
    assert_eq!(t.bits_word(0), 0x816d_129a_64b4_cb6e);
}

#[test]
fn big_pi_next_prime_is_counted_next() {
    let t = BigPiTable::new(100_000);
    for n in [3usize, 10, 127, 1000, 4095, 65_535, 99_000] {
        let r = t.next_prime_after(n);
        assert_eq!(t.pi(r), t.pi(n) + 1, "n = {}", n);
    }
}

#[test]
fn big_pi_word_counts() {
    let t = BigPiTable::new(2);
    assert!(t.bits.is_empty() && t.prefix.is_empty());
    let t = BigPiTable::new(1001);
    // 501 odd numbers 1, 3, ..., 1001
    assert_eq!(t.bits.len(), 8);
    assert_eq!(t.prefix.len(), 8);
}
