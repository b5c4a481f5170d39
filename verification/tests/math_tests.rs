use algos::gcd::gcd;
use algos::sieve::sieve;

#[test]
fn test_gcd_values() {
    assert_eq!(gcd(12, 18), 6);
    assert_eq!(gcd(18, 12), 6);
    assert_eq!(gcd(7, 13), 1);
    assert_eq!(gcd(100, 100), 100);
}

#[test]
fn test_gcd_zero() {
    assert_eq!(gcd(0, 5), 5);
    assert_eq!(gcd(5, 0), 5);
    assert_eq!(gcd(0, 0), 0);
}

#[test]
fn test_sieve_small() {
    assert_eq!(sieve(30), vec![2, 3, 5, 7, 11, 13, 17, 19, 23, 29]);
    assert_eq!(sieve(2), vec![2]);
    assert_eq!(sieve(1), Vec::<usize>::new());
}

#[test]
fn test_sieve_boundary_prime() {
    // A prime upper bound is itself included.
    assert_eq!(sieve(13), vec![2, 3, 5, 7, 11, 13]);
    // A composite upper bound is not.
    assert_eq!(sieve(15), vec![2, 3, 5, 7, 11, 13]);
}
