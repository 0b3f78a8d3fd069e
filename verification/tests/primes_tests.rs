use primes::{below, divisors, first, is_prime, nth};

#[test]
fn first_ten_primes() {
    let first_10 = first(10).collect_vec();
    assert_eq!(first_10, vec![2, 3, 5, 7, 11, 13, 17, 19, 23, 29]);
}

#[test]
fn first_zero_and_one() {
    assert_eq!(first(0).collect_vec(), Vec::<u64>::new());
    assert_eq!(first(1).collect_vec(), vec![2]);
    assert_eq!(first(2).collect_vec(), vec![2, 3]);
    assert_eq!(first(5).collect_vec(), vec![2, 3, 5, 7, 11]);
}

#[test]
fn below_thirty() {
    let below_30 = below(30).collect_vec();
    assert_eq!(below_30, vec![2, 3, 5, 7, 11, 13, 17, 19, 23, 29]);
}

#[test]
fn below_edges() {
    assert_eq!(below(0).collect_vec(), Vec::<u64>::new());
    assert_eq!(below(1).collect_vec(), Vec::<u64>::new());
    assert_eq!(below(2).collect_vec(), vec![2]);
    assert_eq!(below(3).collect_vec(), vec![2, 3]);
    assert_eq!(below(4).collect_vec(), vec![2, 3]);
    assert_eq!(below(29).collect_vec(), vec![2, 3, 5, 7, 11, 13, 17, 19, 23, 29]);
}

#[test]
fn nth_reference_values() {
    assert_eq!(nth(0), None);
    assert_eq!(nth(1), Some(2));
    assert_eq!(nth(5), Some(11));
    assert_eq!(nth(100), Some(541));
    assert_eq!(nth(1000), Some(7919));
    assert_eq!(nth(10000), Some(104729));
}

#[test]
fn below_one_million_spans_windows() {
    // one million spans several 64,000-slot windows, so the sieve slides
    // more than three times while producing this sequence
    let v = below(1_000_000).collect_vec();
    assert_eq!(v.len(), 78498);
    assert_eq!(v[0], 2);
    assert_eq!(*v.last().unwrap(), 999_983);
    for i in 1..v.len() {
        assert!(v[i - 1] < v[i]);
    }
}

#[test]
fn divisors_reference_values() {
    assert_eq!(divisors(504).collect_vec(), vec![(2, 3), (3, 2), (7, 1)]);
    assert_eq!(divisors(25).collect_vec(), vec![(5, 2)]);
    assert_eq!(divisors(53).collect_vec(), vec![(53, 1)]);
    assert_eq!(divisors(0).collect_vec(), Vec::<(u64, u64)>::new());
    assert_eq!(divisors(1).collect_vec(), Vec::<(u64, u64)>::new());
}

#[test]
fn is_prime_reference_values() {
    assert!(is_prime(53));
    assert!(!is_prime(51));
    assert!(!is_prime(1));
    assert!(is_prime(2));
    assert!(!is_prime(504));
    assert!(!is_prime(0));
    assert!(!is_prime(25));
    assert!(is_prime(541));
}

#[test]
fn divisors_round_trip() {
    for n in 2..=2000u64 {
        let ds = divisors(n).collect_vec();
        let mut prod: u64 = 1;
        for (p, e) in ds {
            for _ in 0..e {
                prod *= p;
            }
        }
        assert_eq!(prod, n);
    }
}

#[test]
fn divisors_ascending_primes() {
    for n in [2u64, 12, 97, 360, 1024, 65_536, 999_983, 1_000_000] {
        let ds = divisors(n).collect_vec();
        for w in ds.windows(2) {
            assert!(w[0].0 < w[1].0);
        }
        for (p, e) in &ds {
            assert!(is_prime(*p));
            assert!(*e >= 1);
        }
    }
}

#[test]
fn below_prefix_of_first() {
    // there are 25 primes up to 100, so below(100) equals first(25)
    let f = first(25).collect_vec();
    assert_eq!(below(100).collect_vec(), f);
    assert_eq!(below(97).collect_vec(), f);
}

#[test]
fn below_deterministic() {
    let a = below(10_000).collect_vec();
    let b = below(10_000).collect_vec();
    assert_eq!(a, b);
}

#[test]
fn independent_streams_interleaved() {
    let mut s1 = below(50);
    let mut s2 = first(5);
    let mut v1 = Vec::new();
    let mut v2 = Vec::new();
    loop {
        let a = s1.next();
        let b = s2.next();
        if let Some(x) = a {
            v1.push(x);
        }
        if let Some(y) = b {
            v2.push(y);
        }
        if a.is_none() && b.is_none() {
            break;
        }
    }
    assert_eq!(v1, below(50).collect_vec());
    assert_eq!(v2, vec![2, 3, 5, 7, 11]);
}

#[test]
fn stream_stops_after_end() {
    let mut s = below(10);
    let mut got = Vec::new();
    while let Some(v) = s.next() {
        got.push(v);
    }
    assert_eq!(got, vec![2, 3, 5, 7]);
    assert_eq!(s.next(), None);
    assert_eq!(s.next(), None);
}
