use wheel_sieve::command::Command;

fn reference_is_prime(n: u64) -> bool {
    if n < 2 {
        return false;
    }
    let mut d: u64 = 2;
    while d * d <= n {
        if n % d == 0 {
            return false;
        }
        d += 1;
    }
    true
}

fn assert_strictly_increasing(v: &[u64]) {
    for w in v.windows(2) {
        assert!(w[0] < w[1]);
    }
}

#[test]
fn exact_without_advances() {
    // fewer steps than the two starting primes: the initial state is verified
    for steps in [0usize, 1, 2] {
        let primes = Command::Exact(steps).exec().expect("no overflow");
        assert_eq!(primes, vec![2, 3, 5]);
    }
}

#[test]
fn exact_six_matches_reference() {
    let primes = Command::Exact(6).exec().expect("no overflow");
    // modulus 2*3*5*7*11*13 = 30030; all primes up to 30029 come back
    assert_eq!(primes.len(), 3248);
    assert_eq!(primes[0], 2);
    assert_eq!(primes[1], 3);
    assert_eq!(primes[10], 31);
    assert_eq!(*primes.last().unwrap(), 30029);
    assert_strictly_increasing(&primes);
    for &p in primes.iter() {
        assert!(reference_is_prime(p));
    }
}

#[test]
fn count_stops_with_enough_candidates() {
    // candidate lengths grow 2, 8, 48: ten candidates are first reached at
    // modulus 210, so the result holds the primes up to 209
    let primes = Command::Count(10).exec().expect("no overflow");
    assert_eq!(primes.len(), 46);
    assert_eq!(*primes.last().unwrap(), 199);
    assert_strictly_increasing(&primes);
    // no false positives, no false negatives below the bound
    for &p in primes.iter() {
        assert!(reference_is_prime(p));
    }
    for n in 2..=209u64 {
        assert_eq!(reference_is_prime(n), primes.contains(&n));
    }
}

#[test]
fn until_reaches_the_target_monotonically() {
    // largest candidates grow 5, 29, 209: the first state reaching 100 has
    // modulus 210, whose predecessor stayed below 100
    let primes = Command::Until(100).exec().expect("no overflow");
    assert!(*primes.last().unwrap() >= 100);
    assert_eq!(*primes.last().unwrap(), 199);
    assert_eq!(primes.len(), 46);
    assert_strictly_increasing(&primes);
}

#[test]
fn until_already_satisfied() {
    let primes = Command::Until(5).exec().expect("no overflow");
    assert_eq!(primes, vec![2, 3, 5]);
}

#[test]
fn results_begin_with_two_and_three() {
    for cmd in [Command::Exact(5), Command::Count(9), Command::Until(30)] {
        let primes = cmd.exec().expect("no overflow");
        assert!(primes.len() >= 3);
        assert_eq!(primes[0], 2);
        assert_eq!(primes[1], 3);
        assert_strictly_increasing(&primes);
    }
}
