use rsa_keygen::bigint::Key;
use rsa_keygen::error::KeygenError;
use rsa_keygen::keygen::{
    are_coprime, bigmod, gcd, get_modular_inverse, is_valid_modulus, number_passes_miller_rabin,
};

fn k(v: u64) -> Key {
    Key::from_u64(v)
}

fn neg(v: u64) -> Key {
    Key::zero().minus(&k(v))
}

fn least() -> Key {
    let mut bytes = [0u8; 512];
    bytes[511] = 0x80;
    Key { bytes }
}

fn power_of_two(bit: usize) -> Key {
    let mut bytes = [0u8; 512];
    bytes[bit / 8] = 1 << (bit % 8);
    Key { bytes }
}

#[test]
fn gcd_of_small_numbers() {
    assert_eq!(gcd(k(12), k(18)), k(6));
    assert_eq!(gcd(k(18), k(12)), k(6));
    assert_eq!(gcd(k(17), k(5)), k(1));
    assert_eq!(gcd(k(7), k(7)), k(7));
    assert_eq!(gcd(k(1071), k(462)), k(21));
}

#[test]
fn gcd_with_zero_is_the_other() {
    assert_eq!(gcd(k(0), k(5)), k(5));
    assert_eq!(gcd(k(5), k(0)), k(5));
    assert_eq!(gcd(k(0), k(0)), k(0));
}

#[test]
fn gcd_takes_magnitudes() {
    assert_eq!(gcd(neg(12), k(18)), k(6));
    assert_eq!(gcd(k(12), neg(18)), k(6));
    assert_eq!(gcd(neg(12), neg(18)), k(6));
    assert_eq!(gcd(neg(5), k(0)), k(5));
}

#[test]
fn are_coprime_on_small_numbers() {
    assert!(are_coprime(k(8), k(9)));
    assert!(are_coprime(k(9), k(8)));
    assert!(!are_coprime(k(6), k(9)));
    assert!(!are_coprime(k(4), k(6)));
    assert!(are_coprime(k(17), k(3120)));
    assert!(!are_coprime(k(15), k(3120)));
}

#[test]
fn are_coprime_at_the_edges() {
    assert!(are_coprime(k(1), k(0)));
    assert!(are_coprime(k(0), k(1)));
    assert!(!are_coprime(k(0), k(0)));
    assert!(!are_coprime(k(0), k(7)));
    assert!(are_coprime(neg(8), k(9)));
    assert!(are_coprime(least(), k(3)));
    assert!(are_coprime(k(3), least()));
    assert!(!are_coprime(least(), k(6)));
    assert!(!are_coprime(least(), least()));
}

#[test]
fn inverse_of_the_textbook_exponent() {
    assert_eq!(get_modular_inverse(k(17), k(3120)), Ok(k(2753)));
    assert_eq!(get_modular_inverse(k(2753), k(3120)), Ok(k(17)));
}

#[test]
fn inverse_round_trip_on_small_moduli() {
    for m in 2u64..60 {
        for a in 0u64..(2 * m) {
            let coprime = gcd(k(a), k(m)) == k(1);
            match get_modular_inverse(k(a), k(m)) {
                Ok(x) => {
                    assert!(coprime);
                    assert!(x.less_than(&k(m)) && !x.is_negative());
                    assert_eq!(k(a).times(&x).modulo(&k(m)), k(1));
                }
                Err(err) => {
                    assert!(!coprime);
                    assert_eq!(err, KeygenError::NotInvertible);
                }
            }
        }
    }
}

#[test]
fn inverse_of_a_negative_number() {
    // -4 * 5 = -20 = 1 (mod 7)
    assert_eq!(get_modular_inverse(neg(4), k(7)), Ok(k(5)));
    assert_eq!(get_modular_inverse(neg(3), k(7)), Ok(k(2)));
    assert_eq!(get_modular_inverse(neg(1), k(7)), Ok(k(6)));
}

#[test]
fn inverse_of_a_number_above_the_modulus() {
    assert_eq!(get_modular_inverse(k(10), k(7)), Ok(k(5)));
    assert_eq!(get_modular_inverse(k(3), k(7)), Ok(k(5)));
    assert_eq!(get_modular_inverse(k(1), k(7)), Ok(k(1)));
}

#[test]
fn inverse_is_not_there_without_coprimality() {
    assert_eq!(get_modular_inverse(k(2), k(4)), Err(KeygenError::NotInvertible));
    assert_eq!(get_modular_inverse(k(6), k(9)), Err(KeygenError::NotInvertible));
    assert_eq!(get_modular_inverse(k(0), k(7)), Err(KeygenError::NotInvertible));
    assert_eq!(get_modular_inverse(k(14), k(7)), Err(KeygenError::NotInvertible));
}

#[test]
fn inverse_needs_a_modulus_above_one() {
    assert_eq!(get_modular_inverse(k(3), k(1)), Err(KeygenError::InvalidArgument));
    assert_eq!(get_modular_inverse(k(3), k(0)), Err(KeygenError::InvalidArgument));
    assert_eq!(get_modular_inverse(k(3), neg(7)), Err(KeygenError::InvalidArgument));
}

#[test]
fn inverse_with_a_wide_modulus() {
    // 2 * 2^4093 = 2^4094 = 1 (mod 2^4094 - 1)
    let modulus = power_of_two(4094).minus(&k(1));
    assert_eq!(get_modular_inverse(k(2), modulus), Ok(power_of_two(4093)));
}

#[test]
fn bigmod_textbook_rsa() {
    assert_eq!(bigmod(k(65), k(17), k(3233)), Ok(k(2790)));
    assert_eq!(bigmod(k(2790), k(2753), k(3233)), Ok(k(65)));
}

#[test]
fn bigmod_small_values() {
    assert_eq!(bigmod(k(2), k(10), k(1000)), Ok(k(24)));
    assert_eq!(bigmod(k(3), k(4), k(5)), Ok(k(1)));
    assert_eq!(bigmod(k(7), k(1), k(5)), Ok(k(2)));
    assert_eq!(bigmod(k(0), k(5), k(7)), Ok(k(0)));
    assert_eq!(bigmod(k(5), k(3), k(2)), Ok(k(1)));
    assert_eq!(bigmod(k(4), k(13), k(497)), Ok(k(445)));
}

#[test]
fn bigmod_exponent_zero_is_one() {
    assert_eq!(bigmod(k(65), k(0), k(3233)), Ok(k(1)));
    assert_eq!(bigmod(k(0), k(0), k(2)), Ok(k(1)));
    assert_eq!(bigmod(neg(9), k(0), k(10)), Ok(k(1)));
    // also where the modulus is too wide for a product
    assert_eq!(bigmod(k(3), k(0), power_of_two(2048)), Ok(k(1)));
    assert_eq!(bigmod(k(3), k(0), power_of_two(4094)), Ok(k(1)));
}

#[test]
fn bigmod_negative_base_lands_in_range() {
    // (-2)^3 = -8 = 6 (mod 7)
    assert_eq!(bigmod(neg(2), k(3), k(7)), Ok(k(6)));
    assert_eq!(bigmod(neg(2), k(2), k(7)), Ok(k(4)));
    assert_eq!(bigmod(neg(7), k(5), k(7)), Ok(k(0)));
}

#[test]
fn bigmod_rejects_bad_arguments() {
    assert_eq!(bigmod(k(2), neg(1), k(7)), Err(KeygenError::InvalidArgument));
    assert_eq!(bigmod(k(2), k(3), k(1)), Err(KeygenError::InvalidArgument));
    assert_eq!(bigmod(k(2), k(3), k(0)), Err(KeygenError::InvalidArgument));
    assert_eq!(bigmod(k(2), k(3), neg(7)), Err(KeygenError::InvalidArgument));
    assert_eq!(bigmod(k(2), k(0), k(1)), Err(KeygenError::InvalidArgument));
    assert_eq!(bigmod(k(2), k(3), power_of_two(2048)), Err(KeygenError::InvalidArgument));
}

#[test]
fn bigmod_with_the_widest_modulus() {
    // 2^2047 is the largest power of two whose square is the value of a key
    let modulus = power_of_two(2047);
    assert!(is_valid_modulus(&modulus));
    assert!(!is_valid_modulus(&power_of_two(2048)));
    assert!(!is_valid_modulus(&k(1)));
    assert!(!is_valid_modulus(&neg(5)));
    assert_eq!(bigmod(k(2), k(2046), modulus), Ok(power_of_two(2046)));
    assert_eq!(bigmod(k(2), k(2047), modulus), Ok(k(0)));
    let below = modulus.minus(&k(1));
    assert_eq!(bigmod(below, k(2), modulus), Ok(k(1)));
}

#[test]
fn bigmod_fermat_on_a_large_prime() {
    // 2^127 - 1 is prime
    let p = power_of_two(127).minus(&k(1));
    let exponent = p.minus(&k(1));
    assert_eq!(bigmod(k(3), exponent, p), Ok(k(1)));
    assert_eq!(bigmod(k(123456789), exponent, p), Ok(k(1)));
}

#[test]
fn miller_rabin_round_on_a_prime() {
    // 13 - 1 = 4 * 3
    for base in 2u64..12 {
        assert_eq!(number_passes_miller_rabin(k(3), k(13), k(base)), Ok(true));
    }
}

#[test]
fn miller_rabin_round_on_a_composite() {
    // 9 - 1 = 8 * 1; 2 is a witness, 8 is a strong liar
    assert_eq!(number_passes_miller_rabin(k(1), k(9), k(2)), Ok(false));
    assert_eq!(number_passes_miller_rabin(k(1), k(9), k(8)), Ok(true));
    // 561 - 1 = 16 * 35: a Carmichael number, which the squarings catch
    assert_eq!(number_passes_miller_rabin(k(35), k(561), k(2)), Ok(false));
    // 2047 = 23 * 89 is a strong pseudoprime to the base 2
    assert_eq!(number_passes_miller_rabin(k(1023), k(2047), k(2)), Ok(true));
    assert_eq!(number_passes_miller_rabin(k(1023), k(2047), k(3)), Ok(false));
}

#[test]
fn miller_rabin_round_squares_only_below_the_top() {
    // 17 - 1 = 16: with the mantissa 1, 3^8 = -1 (mod 17) is found at the third squaring
    assert_eq!(number_passes_miller_rabin(k(1), k(17), k(3)), Ok(true));
    // with the mantissa 8 it is found at once
    assert_eq!(number_passes_miller_rabin(k(8), k(17), k(3)), Ok(true));
    // with the mantissa 16 the power is one
    assert_eq!(number_passes_miller_rabin(k(16), k(17), k(3)), Ok(true));
    // 2^4 = -1 (mod 17), so from the mantissa 8 on only one is left
    assert_eq!(number_passes_miller_rabin(k(8), k(17), k(2)), Ok(true));
    // 15 - 1 = 2 * 7: 2^7 = 8 (mod 15), and no squaring stays below 14
    assert_eq!(number_passes_miller_rabin(k(7), k(15), k(2)), Ok(false));
    // a mantissa of zero gives the power one
    assert_eq!(number_passes_miller_rabin(k(0), k(15), k(2)), Ok(true));
}

#[test]
fn miller_rabin_round_rejects_bad_arguments() {
    assert_eq!(number_passes_miller_rabin(k(3), k(12), k(5)), Err(KeygenError::InvalidArgument));
    assert_eq!(number_passes_miller_rabin(k(3), k(1), k(5)), Err(KeygenError::InvalidArgument));
    assert_eq!(number_passes_miller_rabin(neg(3), k(13), k(5)), Err(KeygenError::InvalidArgument));
    assert_eq!(number_passes_miller_rabin(k(3), neg(13), k(5)), Err(KeygenError::InvalidArgument));
    let wide = power_of_two(2048).plus(&k(1));
    assert_eq!(number_passes_miller_rabin(k(3), wide, k(5)), Err(KeygenError::InvalidArgument));
    assert_eq!(number_passes_miller_rabin(k(0), wide, k(5)), Err(KeygenError::InvalidArgument));
}
