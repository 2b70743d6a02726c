use wheel_sieve::sieve::{coprime, filter_share, partition, Sieve};

/// Independent trial-division reference used to cross-check results.
fn reference_is_prime(n: u64) -> bool {
    if n < 2 {
        return false;
    }
    let mut d: u64 = 2;
    while d * d <= n {
        if n % d == 0 {
            return false;
        }
        d += 1;
    }
    true
}

fn reference_primes_upto(bound: u64) -> Vec<u64> {
    (2..=bound).filter(|&n| reference_is_prime(n)).collect()
}

#[test]
fn initial_state() {
    let s = Sieve::default();
    assert_eq!(s.basis(), vec![2, 3]);
    assert_eq!(s.candidates(), vec![1, 5]);
    assert_eq!(s.size(), 2);
    assert_eq!(s.last(), 5);
}

#[test]
fn advance_once() {
    let s = Sieve::default().run().expect("no overflow");
    assert_eq!(s.basis(), vec![2, 3, 5]);
    // modulus 30: the six shifted copies of {1, 5} with the multiples of 5
    // (5 and 25) removed
    assert_eq!(s.candidates(), vec![1, 7, 11, 13, 17, 19, 23, 29]);
    assert_eq!(s.size(), 8);
    assert_eq!(s.last(), 29);
}

#[test]
fn advance_grows_basis_by_one_prime() {
    let mut s = Sieve::default();
    let expected = [2u64, 3, 5, 7, 11, 13];
    for k in 0..4 {
        assert_eq!(s.basis().len(), 2 + k);
        assert_eq!(s.basis(), expected[..2 + k].to_vec());
        s = s.run().expect("no overflow");
    }
    assert_eq!(s.basis(), expected.to_vec());
}

#[test]
fn boundary_scan_promotes_up_to_sqrt() {
    // state with modulus 210: sqrt bound is 14, so 7, 11 and 13 get promoted
    let mut s = Sieve::default().run().expect("no overflow").run().expect("no overflow");
    let start = s.seq_get();
    assert_eq!(s.basis(), vec![2, 3, 5, 7, 11, 13]);
    // candidates 1..13 are resolved; 17 is the first unresolved one
    assert_eq!(s.candidates()[start], 17);
}

#[test]
fn verification_small_state() {
    let s = Sieve::default();
    let primes = s.get();
    assert_eq!(primes, vec![2, 3, 5]);
}

#[test]
fn verification_after_two_advances() {
    let s = Sieve::default().run().expect("no overflow").run().expect("no overflow");
    let primes = s.get();
    assert_eq!(primes, reference_primes_upto(209));
    assert_eq!(primes.len(), 46);
    assert_eq!(*primes.last().unwrap(), 199);
}

#[test]
fn parallel_shares_equal_sequential_filter() {
    // several small wheel states
    for advances in 0..3 {
        let mut s = Sieve::default();
        for _ in 0..advances {
            s = s.run().expect("no overflow");
        }
        let start = s.seq_get();
        let basis = s.basis();
        let items = s.candidates();
        let total = items.len();
        let sequential = filter_share(&basis, &items, start, total);
        let (b1, b2, b3) = partition(start, total);
        let mut merged = filter_share(&basis, &items, start, b1);
        merged.extend(filter_share(&basis, &items, b1, b2));
        merged.extend(filter_share(&basis, &items, b2, b3));
        merged.extend(filter_share(&basis, &items, b3, total));
        assert_eq!(merged, sequential);
    }
}

#[test]
fn partition_bounds_are_ordered() {
    for &(start, total) in &[(0usize, 0usize), (1, 2), (3, 100), (7, 5760), (100, 100)] {
        let (b1, b2, b3) = partition(start, total);
        assert!(start <= b1);
        assert!(b1 <= b2);
        assert!(b2 <= b3);
        assert!(b3 <= total);
    }
}

#[test]
fn coprime_short_circuits_at_square_root() {
    // no listed prime with square at most 49 divides 49, since 7 is absent
    assert!(coprime(&vec![2, 3, 5], 0, 49));
    // with 7 listed, 49 is rejected
    assert!(!coprime(&vec![2, 3, 7], 0, 49));
    // starting past the primes that divide the value
    assert!(coprime(&vec![2, 3, 7], 1, 14));
    assert!(!coprime(&vec![2, 3, 7], 1, 21));
    assert!(coprime(&vec![2, 3, 5, 7, 11, 13], 0, 30029));
}

#[test]
fn filter_share_confirms_primes_only() {
    let basis = vec![2u64, 3, 5, 7, 11, 13];
    let items = vec![17u64, 19, 23, 25, 119, 121, 169, 173];
    // 25 = 5*5, 119 = 7*17, 121 = 11*11 and 169 = 13*13 are rejected
    let kept = filter_share(&basis, &items, 0, items.len());
    assert_eq!(kept, vec![17, 19, 23, 173]);
}
