use rust_compute::primes::{count_primes, prime_sieve};

#[test]
fn test_count_primes() {
    assert_eq!(count_primes(10), 4); // 2, 3, 5, 7
    assert_eq!(count_primes(100), 25);
    assert_eq!(count_primes(1000), 168);
}

#[test]
fn test_prime_sieve() {
    let primes = prime_sieve(20);
    assert_eq!(primes, vec![2, 3, 5, 7, 11, 13, 17, 19]);
}

#[test]
fn small_limits() {
    assert_eq!(count_primes(0), 0);
    assert_eq!(count_primes(1), 0);
    assert_eq!(count_primes(2), 1);
    assert_eq!(count_primes(3), 2);
    assert_eq!(prime_sieve(1), Vec::<u32>::new());
    assert_eq!(prime_sieve(2), vec![2]);
    assert_eq!(prime_sieve(3), vec![2, 3]);
    assert_eq!(prime_sieve(9), vec![2, 3, 5, 7]);
    assert_eq!(prime_sieve(25), vec![2, 3, 5, 7, 11, 13, 17, 19, 23]);
}

#[test]
fn sieve_agrees_with_count() {
    for limit in [49u32, 50, 121, 1000, 7919, 10007] {
        assert_eq!(prime_sieve(limit).len() as u32, count_primes(limit));
    }
    assert_eq!(count_primes(10_000), 1229);
    assert_eq!(*prime_sieve(7919).last().unwrap(), 7919);
}
