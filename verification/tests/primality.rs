use rsa_keygen::bigint::Key;
use rsa_keygen::error::KeygenError;
use rsa_keygen::keygen::NumberHandler;
use rsa_keygen::primes::{passes_sieve, FIRST_PRIMES, FIRST_PRIMES_LEN};

fn k(v: u64) -> Key {
    Key::from_u64(v)
}

fn neg(v: u64) -> Key {
    Key::zero().minus(&k(v))
}

fn is_prime(n: u64) -> bool {
    n >= 2 && (2..n).take_while(|d| d * d <= n).all(|d| n % d != 0)
}

#[test]
fn table_holds_the_first_two_hundred_primes() {
    assert_eq!(FIRST_PRIMES_LEN, 200);
    assert_eq!(FIRST_PRIMES.len(), 200);
    assert_eq!(FIRST_PRIMES[0], 2);
    assert_eq!(FIRST_PRIMES[1], 3);
    assert_eq!(FIRST_PRIMES[99], 541);
    assert_eq!(FIRST_PRIMES[199], 1223);
    let expected: Vec<u64> = (2u64..).filter(|n| is_prime(*n)).take(200).collect();
    assert_eq!(FIRST_PRIMES.to_vec(), expected);
}

#[test]
fn table_is_in_increasing_order() {
    for i in 1..FIRST_PRIMES.len() {
        assert!(FIRST_PRIMES[i - 1] < FIRST_PRIMES[i]);
    }
}

#[test]
fn sieve_stops_where_the_square_exceeds_the_prime() {
    // the square of the candidate exceeds the first table prime: the walk stops at once
    assert!(passes_sieve(&k(2)));
    assert!(passes_sieve(&k(4)));
    assert!(passes_sieve(&k(9)));
    assert!(passes_sieve(&k(1223)));
    assert!(passes_sieve(&k(1_000_000)));
    assert!(passes_sieve(&neg(6)));
}

#[test]
fn sieve_walks_the_table_for_the_smallest_candidates() {
    // no table prime divides one or minus one
    assert!(passes_sieve(&k(1)));
    assert!(passes_sieve(&neg(1)));
    // the first table prime divides zero
    assert!(!passes_sieve(&k(0)));
}

#[test]
fn sieve_takes_a_candidate_whose_square_is_too_wide() {
    let mut bytes = [0u8; 512];
    bytes[300] = 1;
    assert!(passes_sieve(&Key { bytes }));
}

#[test]
fn test_accepts_two_and_three_and_rejects_below() {
    let mut handler = NumberHandler::new(8);
    for rounds in [0u8, 1, 64] {
        assert_eq!(handler.miller_rabin_prime_test(k(2), rounds), Ok(true));
        assert_eq!(handler.miller_rabin_prime_test(k(3), rounds), Ok(true));
        assert_eq!(handler.miller_rabin_prime_test(k(1), rounds), Ok(false));
        assert_eq!(handler.miller_rabin_prime_test(k(0), rounds), Ok(false));
        assert_eq!(handler.miller_rabin_prime_test(neg(7), rounds), Ok(false));
    }
}

#[test]
fn test_rejects_even_numbers() {
    let mut handler = NumberHandler::new(8);
    for n in [4u64, 6, 8, 100, 1 << 40] {
        assert_eq!(handler.miller_rabin_prime_test(k(n), 64), Ok(false));
        assert_eq!(handler.miller_rabin_prime_test(k(n), 0), Ok(false));
    }
}

#[test]
fn test_accepts_every_table_prime_with_one_round() {
    let mut handler = NumberHandler::new(8);
    for p in FIRST_PRIMES {
        assert_eq!(handler.miller_rabin_prime_test(k(p), 1), Ok(true), "prime {}", p);
    }
}

#[test]
fn test_accepts_every_table_prime_with_many_rounds() {
    let mut handler = NumberHandler::new(4);
    for p in FIRST_PRIMES {
        assert_eq!(handler.miller_rabin_prime_test(k(p), 16), Ok(true), "prime {}", p);
    }
}

#[test]
fn test_accepts_small_primes_with_64_rounds() {
    let mut handler = NumberHandler::new(4);
    for p in [5u64, 7, 11, 13, 61, 53, 1223, 7919, 104729] {
        assert_eq!(handler.miller_rabin_prime_test(k(p), 64), Ok(true), "prime {}", p);
    }
}

#[test]
fn test_rejects_small_composites_with_64_rounds() {
    let mut handler = NumberHandler::new(4);
    for c in 4u64..1000 {
        if !is_prime(c) {
            assert_eq!(handler.miller_rabin_prime_test(k(c), 64), Ok(false), "composite {}", c);
        }
    }
}

#[test]
fn test_rejects_carmichael_numbers() {
    let mut handler = NumberHandler::new(8);
    for c in [561u64, 1105, 1729, 2465, 2821, 6601, 8911, 41041, 825265] {
        assert_eq!(handler.miller_rabin_prime_test(k(c), 64), Ok(false), "composite {}", c);
    }
}

#[test]
fn test_with_no_round_accepts_every_odd_number() {
    let mut handler = NumberHandler::new(8);
    assert_eq!(handler.miller_rabin_prime_test(k(9), 0), Ok(true));
    assert_eq!(handler.miller_rabin_prime_test(k(13), 0), Ok(true));
}

#[test]
fn test_accepts_a_large_prime() {
    // 2^127 - 1
    let mut bytes = [0u8; 512];
    for b in bytes.iter_mut().take(15) {
        *b = 0xff;
    }
    bytes[15] = 0x7f;
    let mut handler = NumberHandler::new(16);
    assert_eq!(handler.miller_rabin_prime_test(Key { bytes }, 20), Ok(true));
    // 2^127 + 1 is divisible by three
    let composite = Key { bytes }.plus(&k(2));
    assert_eq!(handler.miller_rabin_prime_test(composite, 20), Ok(false));
}

#[test]
fn test_turns_away_a_number_whose_square_is_too_wide() {
    let mut bytes = [0u8; 512];
    bytes[0] = 1;
    bytes[256] = 1;
    let mut handler = NumberHandler::new(8);
    assert_eq!(
        handler.miller_rabin_prime_test(Key { bytes }, 5),
        Err(KeygenError::InvalidArgument)
    );
    assert_eq!(
        handler.miller_rabin_prime_test(Key { bytes }, 0),
        Err(KeygenError::InvalidArgument)
    );
    // an even one is rejected before its width is looked at
    bytes[0] = 0;
    assert_eq!(handler.miller_rabin_prime_test(Key { bytes }, 5), Ok(false));
}

#[test]
fn test_needs_a_handler_that_can_sample() {
    let mut handler = NumberHandler::new(0);
    assert_eq!(handler.miller_rabin_prime_test(k(13), 1), Err(KeygenError::InvalidArgument));
    assert_eq!(handler.miller_rabin_prime_test(k(13), 0), Ok(true));
    assert_eq!(handler.miller_rabin_prime_test(k(12), 1), Ok(false));
    let mut handler = NumberHandler::new(512);
    assert_eq!(handler.miller_rabin_prime_test(k(13), 1), Err(KeygenError::InvalidArgument));
}
