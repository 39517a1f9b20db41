use rand::Rng;
use rsa_keygen::bigint::Key;
use rsa_keygen::error::KeygenError;
use rsa_keygen::keygen::{
    are_coprime, force_odd, key_from_sample, reduce_to_range, NumberHandler, MAX_PRIME_BYTES,
};
use rsa_keygen::primes::passes_sieve;

fn k(v: u64) -> Key {
    Key::from_u64(v)
}

fn neg(v: u64) -> Key {
    Key::zero().minus(&k(v))
}

fn least() -> Key {
    let mut bytes = [0u8; 512];
    bytes[511] = 0x80;
    Key { bytes }
}

fn greatest() -> Key {
    let mut bytes = [0xffu8; 512];
    bytes[511] = 0x7f;
    Key { bytes }
}

fn has_byte_length(key: &Key, size: usize) -> bool {
    key.bytes[size - 1] & 0x80 != 0 && key.bytes[size..].iter().all(|b| *b == 0)
}

#[test]
fn sample_gets_its_top_bit_set() {
    assert_eq!(key_from_sample(&vec![0x01]), Ok(k(0x81)));
    assert_eq!(key_from_sample(&vec![0x00]), Ok(k(0x80)));
    assert_eq!(key_from_sample(&vec![0xff]), Ok(k(0xff)));
    assert_eq!(key_from_sample(&vec![0xff, 0x00]), Ok(k(0x80ff)));
    assert_eq!(key_from_sample(&vec![0x34, 0x12]), Ok(k(0x9234)));
    assert_eq!(key_from_sample(&vec![0x34, 0x92]), Ok(k(0x9234)));
    assert_eq!(key_from_sample(&vec![1, 2, 3, 4, 5, 6, 7, 8]), Ok(k(0x8807_0605_0403_0201)));
}

#[test]
fn sample_of_the_greatest_length_stays_positive() {
    let key = key_from_sample(&vec![0u8; 511]).unwrap();
    assert!(!key.is_negative());
    assert_eq!(key.bytes[510], 0x80);
    assert_eq!(key.bytes[511], 0);
    assert!(key.bytes[..510].iter().all(|b| *b == 0));
}

#[test]
fn sample_needs_one_to_511_bytes() {
    assert_eq!(key_from_sample(&vec![]), Err(KeygenError::InvalidArgument));
    assert_eq!(key_from_sample(&vec![7u8; 512]), Err(KeygenError::InvalidArgument));
    assert_eq!(key_from_sample(&vec![7u8; 600]), Err(KeygenError::InvalidArgument));
}

#[test]
fn force_odd_sets_the_lowest_bit() {
    assert_eq!(force_odd(k(4)), k(5));
    assert_eq!(force_odd(k(5)), k(5));
    assert_eq!(force_odd(k(0)), k(1));
    assert_eq!(force_odd(neg(4)), neg(3));
    assert_eq!(force_odd(neg(3)), neg(3));
    assert_eq!(force_odd(greatest()), greatest());
    assert_eq!(force_odd(least()), least().plus(&k(1)));
}

#[test]
fn reduce_to_range_reduces_and_offsets() {
    // 2 + 100 mod 9
    assert_eq!(reduce_to_range(k(100), k(2), k(12)), Ok(k(3)));
    assert_eq!(reduce_to_range(k(0), k(2), k(12)), Ok(k(2)));
    assert_eq!(reduce_to_range(k(8), k(2), k(12)), Ok(k(10)));
    assert_eq!(reduce_to_range(k(9), k(2), k(12)), Ok(k(2)));
    assert_eq!(reduce_to_range(k(7), neg(3), k(3)), Ok(neg(1)));
    assert_eq!(reduce_to_range(k(12345), k(2), k(4)), Ok(k(2)));
}

#[test]
fn reduce_to_range_of_one_value() {
    assert_eq!(reduce_to_range(k(100), k(5), k(6)), Ok(k(5)));
    assert_eq!(reduce_to_range(k(0), neg(1), k(0)), Ok(neg(1)));
}

#[test]
fn reduce_to_range_never_reaches_the_upper_end() {
    for sample in 0u64..200 {
        let r = reduce_to_range(k(sample), k(10), k(17)).unwrap();
        assert!(!r.less_than(&k(10)) && r.less_than(&k(16)));
    }
}

#[test]
fn reduce_to_range_rejects_bad_arguments() {
    assert_eq!(reduce_to_range(k(100), k(5), k(5)), Err(KeygenError::InvalidArgument));
    assert_eq!(reduce_to_range(k(100), k(6), k(5)), Err(KeygenError::InvalidArgument));
    assert_eq!(reduce_to_range(neg(1), k(2), k(12)), Err(KeygenError::InvalidArgument));
    assert_eq!(reduce_to_range(k(1), least(), greatest()), Err(KeygenError::InvalidArgument));
    assert_eq!(reduce_to_range(k(1), neg(1), greatest()), Err(KeygenError::InvalidArgument));
    assert_eq!(reduce_to_range(k(1), k(0), greatest()), Ok(k(1)));
}

#[test]
fn handler_keeps_what_it_was_made_with() {
    let handler = NumberHandler::new(100);
    assert_eq!(handler.key_byte_size(), 100);
    assert_eq!(handler.max_attempts(), u64::MAX);
    let handler = NumberHandler::with_retry_cap(12, 34);
    assert_eq!(handler.key_byte_size(), 12);
    assert_eq!(handler.max_attempts(), 34);
}

#[test]
fn handler_hands_out_its_generator() {
    let mut handler = NumberHandler::new(8);
    let rng = handler.get_rng();
    let value: u32 = rng.random_range(10..20);
    assert!((10..20).contains(&value));
    assert_eq!(handler.key_byte_size(), 8);
}

#[test]
fn random_bytes_vary() {
    let mut handler = NumberHandler::new(8);
    let bytes: Vec<u8> = (0..64).map(|_| handler.get_random_u8()).collect();
    assert!(bytes.iter().any(|b| *b != bytes[0]));
}

#[test]
fn random_n_byte_key_has_that_many_bytes() {
    let mut handler = NumberHandler::new(8);
    for size in [1usize, 2, 8, 100, 255, 256, 511] {
        for _ in 0..4 {
            let key = handler.get_random_n_byte_key(size).unwrap();
            assert!(has_byte_length(&key, size));
            assert!(!key.is_negative());
        }
    }
}

#[test]
fn random_n_byte_key_needs_one_to_511_bytes() {
    let mut handler = NumberHandler::new(8);
    assert_eq!(handler.get_random_n_byte_key(0), Err(KeygenError::InvalidArgument));
    assert_eq!(handler.get_random_n_byte_key(512), Err(KeygenError::InvalidArgument));
    assert_eq!(handler.get_random_n_byte_key(usize::MAX), Err(KeygenError::InvalidArgument));
}

#[test]
fn random_keys_differ() {
    let mut handler = NumberHandler::new(32);
    let a = handler.get_random_key(false).unwrap();
    let b = handler.get_random_key(false).unwrap();
    assert_ne!(a, b);
}

#[test]
fn random_key_has_the_byte_length_of_the_handler() {
    let mut handler = NumberHandler::new(24);
    for _ in 0..16 {
        let key = handler.get_random_key(false).unwrap();
        assert!(has_byte_length(&key, 24));
    }
}

#[test]
fn random_key_is_odd_on_demand() {
    let mut handler = NumberHandler::new(3);
    for _ in 0..64 {
        let key = handler.get_random_key(true).unwrap();
        assert!(key.is_odd());
        assert!(has_byte_length(&key, 3));
    }
    let even = (0..64).any(|_| !handler.get_random_key(false).unwrap().is_odd());
    assert!(even);
}

#[test]
fn random_key_needs_a_byte_length_in_range() {
    assert_eq!(NumberHandler::new(0).get_random_key(true), Err(KeygenError::InvalidArgument));
    assert_eq!(NumberHandler::new(512).get_random_key(false), Err(KeygenError::InvalidArgument));
    assert!(NumberHandler::new(511).get_random_key(true).is_ok());
}

#[test]
fn random_key_range_stays_in_range() {
    let mut handler = NumberHandler::new(8);
    for _ in 0..200 {
        let key = handler.get_random_key_range(k(2), k(12), false).unwrap();
        assert!(!key.less_than(&k(2)) && key.less_than(&k(12)));
    }
    for _ in 0..20 {
        let key = handler.get_random_key_range(neg(5), neg(2), true).unwrap();
        assert!(!key.less_than(&neg(5)) && key.less_than(&neg(2)));
    }
    assert_eq!(handler.get_random_key_range(k(7), k(8), false), Ok(k(7)));
}

#[test]
fn random_key_range_rejects_bad_arguments() {
    let mut handler = NumberHandler::new(8);
    assert_eq!(
        handler.get_random_key_range(k(5), k(5), false),
        Err(KeygenError::InvalidArgument)
    );
    assert_eq!(
        handler.get_random_key_range(k(9), k(5), false),
        Err(KeygenError::InvalidArgument)
    );
    assert_eq!(
        handler.get_random_key_range(least(), k(5), false),
        Err(KeygenError::InvalidArgument)
    );
    assert_eq!(
        NumberHandler::new(0).get_random_key_range(k(2), k(5), false),
        Err(KeygenError::InvalidArgument)
    );
}

#[test]
fn random_prime_passes_the_test_again() {
    let mut handler = NumberHandler::new(8);
    for _ in 0..3 {
        let prime = handler.get_random_prime(20).unwrap();
        assert!(prime.is_odd());
        assert!(has_byte_length(&prime, 8));
        assert!(passes_sieve(&prime));
        assert_eq!(handler.miller_rabin_prime_test(prime, 20), Ok(true));
    }
}

#[test]
fn random_prime_of_two_bytes_is_prime() {
    let mut handler = NumberHandler::new(2);
    for _ in 0..20 {
        let prime = handler.get_random_prime(32).unwrap();
        let value = u64::from(prime.bytes[0]) | u64::from(prime.bytes[1]) << 8;
        assert!(value >= 0x8000);
        assert!((2..value).take_while(|d| d * d <= value).all(|d| value % d != 0));
    }
}

#[test]
fn random_prime_needs_a_byte_length_below_half_a_key() {
    assert_eq!(MAX_PRIME_BYTES, 255);
    assert_eq!(NumberHandler::new(0).get_random_prime(5), Err(KeygenError::InvalidArgument));
    assert_eq!(NumberHandler::new(256).get_random_prime(5), Err(KeygenError::InvalidArgument));
    assert_eq!(NumberHandler::new(511).get_random_prime(0), Err(KeygenError::InvalidArgument));
    assert_eq!(
        NumberHandler::with_retry_cap(256, 0).get_random_prime(5),
        Err(KeygenError::InvalidArgument)
    );
}

#[test]
fn random_prime_with_255_bytes_and_no_round() {
    let mut handler = NumberHandler::new(255);
    let candidate = handler.get_random_prime(0).unwrap();
    assert!(candidate.is_odd());
    assert!(has_byte_length(&candidate, 255));
}

#[test]
fn search_gives_up_when_the_attempts_are_used_up() {
    let mut handler = NumberHandler::with_retry_cap(8, 0);
    assert_eq!(handler.get_random_prime(5), Err(KeygenError::ExhaustedSearch));
    assert_eq!(
        handler.get_different_random_prime(5, k(7)),
        Err(KeygenError::ExhaustedSearch)
    );
    assert_eq!(handler.gen_random_coprime(k(7)), Err(KeygenError::ExhaustedSearch));
    assert_eq!(
        handler.gen_random_coprime_number_in_range(k(2), k(100), k(7)),
        Err(KeygenError::ExhaustedSearch)
    );
}

#[test]
fn search_gives_up_where_nothing_can_be_found() {
    // nothing but one is coprime to zero
    let mut handler = NumberHandler::with_retry_cap(8, 50);
    assert_eq!(handler.gen_random_coprime(k(0)), Err(KeygenError::ExhaustedSearch));
    // 4 is the one value of the range
    assert_eq!(
        handler.gen_random_coprime_number_in_range(k(4), k(5), k(6)),
        Err(KeygenError::ExhaustedSearch)
    );
}

#[test]
fn different_random_prime_differs() {
    let mut handler = NumberHandler::new(1);
    // the primes of one byte with the top bit set are few: draws repeat
    for _ in 0..40 {
        let first = handler.get_random_prime(10).unwrap();
        let second = handler.get_different_random_prime(10, first).unwrap();
        assert_ne!(first, second);
        assert!(second.is_odd());
        assert!(has_byte_length(&second, 1));
    }
}

#[test]
fn different_random_prime_needs_a_byte_length_below_half_a_key() {
    assert_eq!(
        NumberHandler::new(300).get_different_random_prime(5, k(7)),
        Err(KeygenError::InvalidArgument)
    );
}

#[test]
fn random_coprime_is_coprime() {
    let mut handler = NumberHandler::new(8);
    for modulus in [3120u64, 30, 2 * 3 * 5 * 7 * 11 * 13, 1] {
        let key = handler.gen_random_coprime(k(modulus)).unwrap();
        assert!(are_coprime(k(modulus), key));
        assert!(has_byte_length(&key, 8));
    }
    assert_eq!(
        NumberHandler::new(0).gen_random_coprime(k(7)),
        Err(KeygenError::InvalidArgument)
    );
}

#[test]
fn random_coprime_in_range_is_coprime_and_in_range() {
    let mut handler = NumberHandler::new(8);
    for _ in 0..50 {
        let key = handler.gen_random_coprime_number_in_range(k(2), k(3120), k(3120)).unwrap();
        assert!(are_coprime(k(3120), key));
        assert!(!key.less_than(&k(2)) && key.less_than(&k(3120)));
    }
}

#[test]
fn random_coprime_in_range_rejects_bad_arguments() {
    let mut handler = NumberHandler::new(8);
    assert_eq!(
        handler.gen_random_coprime_number_in_range(k(5), k(5), k(7)),
        Err(KeygenError::InvalidArgument)
    );
    assert_eq!(
        handler.gen_random_coprime_number_in_range(least(), greatest(), k(7)),
        Err(KeygenError::InvalidArgument)
    );
    assert_eq!(
        NumberHandler::new(0).gen_random_coprime_number_in_range(k(2), k(50), k(7)),
        Err(KeygenError::InvalidArgument)
    );
    assert_eq!(
        NumberHandler::with_retry_cap(8, 0).gen_random_coprime_number_in_range(k(9), k(5), k(7)),
        Err(KeygenError::InvalidArgument)
    );
}
