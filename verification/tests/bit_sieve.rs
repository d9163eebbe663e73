use fast_prime::bit_sieve::{BitSieve, PreSieveTemplate};

fn coprime13(n: usize) -> bool {
    n != 0 && [2usize, 3, 5, 7, 11, 13].iter().all(|p| n % p != 0)
}

#[test]
fn template_word_pattern() {
    let primes = vec![0u32, 2, 3, 5, 7, 11, 13];
    let t = PreSieveTemplate::new(&primes, 6);
    assert_eq!(t.period, 30_030);
    // bits 0..64 of the pattern: 1, 17, 19, 23, 29, 31, 37, 41, 43, 47, 53, 59, 61
    let w = t.get_word(0);
    for j in 0..64usize {
        let expect = j % 2 != 0 && j % 3 != 0 && j % 5 != 0 && j % 7 != 0 && j % 11 != 0 && j % 13 != 0;
        assert_eq!((w >> j) & 1 == 1, expect, "bit {}", j);
    }
    // a start that is not word-aligned reads across two words
    let w = t.get_word(100);
    for j in 0..64usize {
        let n = 100 + j;
        let expect = [2usize, 3, 5, 7, 11, 13].iter().all(|p| n % p != 0);
        assert_eq!((w >> j) & 1 == 1, expect, "bit {}", j);
    }
}

#[test]
fn init_and_count_segments() {
    let primes = vec![0u32, 2, 3, 5, 7, 11, 13];
    let t = PreSieveTemplate::new(&primes, 6);
    let mut s = BitSieve::new(1 << 12);
    for &(low, len) in &[(0usize, 1000usize), (4096, 4096), (30_030 * 3 + 5, 777), (123_456, 1)] {
        t.init_sieve(&mut s, low, len);
        assert_eq!(s.len, len);
        let expected_total = (0..len).filter(|&i| coprime13(low + i)).count() as i64;
        assert_eq!(s.count_total(), expected_total);
        let mut running = 0i64;
        let mut prev: Option<usize> = None;
        for pos in 0..len {
            if coprime13(low + pos) {
                running += 1;
            }
            assert_eq!(s.count(pos), running, "count({}) from {}", pos, low);
            if let Some(pp) = prev {
                let before = (0..=pp).filter(|&i| coprime13(low + i)).count() as i64;
                assert_eq!(s.count_delta(pp, pos), running - before);
            }
            if pos % 97 == 0 {
                prev = Some(pos);
            }
        }
    }
}

#[test]
fn empty_segment() {
    let s = BitSieve::new(100);
    assert_eq!(s.len, 0);
    assert_eq!(s.count_total(), 0);
}
