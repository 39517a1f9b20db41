use rsa_keygen::bigint::{Key, KEY_BYTES};

fn k(v: u64) -> Key {
    Key::from_u64(v)
}

fn neg(v: u64) -> Key {
    Key::zero().minus(&k(v))
}

fn least() -> Key {
    let mut bytes = [0u8; 512];
    bytes[511] = 0x80;
    Key { bytes }
}

fn greatest() -> Key {
    let mut bytes = [0xffu8; 512];
    bytes[511] = 0x7f;
    Key { bytes }
}

#[test]
fn key_has_512_bytes() {
    assert_eq!(KEY_BYTES, 512);
    assert_eq!(k(0).bytes.len(), 512);
}

#[test]
fn from_u64_spells_little_endian() {
    let key = k(0x0102_0304_0506_0708);
    assert_eq!(&key.bytes[..8], &[8, 7, 6, 5, 4, 3, 2, 1]);
    assert!(key.bytes[8..].iter().all(|b| *b == 0));
    assert_eq!(k(u64::MAX).bytes[7], 0xff);
    assert_eq!(k(u64::MAX).bytes[8], 0);
}

#[test]
fn zero_and_one() {
    assert_eq!(Key::zero(), k(0));
    assert_eq!(Key::one(), k(1));
    assert!(Key::zero().is_zero());
    assert!(!Key::one().is_zero());
}

#[test]
fn plus_adds() {
    assert_eq!(k(2).plus(&k(3)), k(5));
    assert_eq!(k(u64::MAX).plus(&k(1)).bytes[8], 1);
    assert_eq!(neg(7).plus(&k(7)), k(0));
    assert_eq!(neg(7).plus(&k(10)), k(3));
}

#[test]
fn minus_subtracts_and_goes_negative() {
    assert_eq!(k(10).minus(&k(3)), k(7));
    let minus_one = k(0).minus(&k(1));
    assert!(minus_one.bytes.iter().all(|b| *b == 0xff));
    assert!(minus_one.is_negative());
    assert_eq!(minus_one.plus(&k(1)), k(0));
}

#[test]
fn times_multiplies() {
    assert_eq!(k(6).times(&k(7)), k(42));
    assert_eq!(neg(6).times(&k(7)), neg(42));
    assert_eq!(neg(6).times(&neg(7)), k(42));
    assert_eq!(k(1 << 32).times(&k(1 << 32)).bytes[8], 1);
}

#[test]
fn checked_operations_report_overflow() {
    assert_eq!(greatest().checked_plus(&k(1)), None);
    assert_eq!(greatest().checked_plus(&k(0)), Some(greatest()));
    assert_eq!(least().checked_minus(&k(1)), None);
    assert_eq!(k(0).checked_minus(&least()), None);
    assert_eq!(k(5).checked_minus(&k(7)), Some(neg(2)));
    assert_eq!(greatest().checked_times(&k(2)), None);
    assert_eq!(k(3).checked_times(&k(4)), Some(k(12)));
    let mut half_width = [0u8; 512];
    half_width[256] = 1;
    let wide = Key { bytes: half_width };
    assert_eq!(wide.checked_times(&wide), None);
}

#[test]
fn quotient_rounds_toward_zero() {
    assert_eq!(k(17).quotient(&k(5)), k(3));
    assert_eq!(neg(17).quotient(&k(5)), neg(3));
    assert_eq!(k(17).quotient(&neg(5)), neg(3));
    assert_eq!(neg(17).quotient(&neg(5)), k(3));
}

#[test]
fn remainder_has_the_sign_of_the_dividend() {
    assert_eq!(k(17).remainder(&k(5)), k(2));
    assert_eq!(neg(17).remainder(&k(5)), neg(2));
    assert_eq!(k(17).remainder(&neg(5)), k(2));
    assert_eq!(neg(17).remainder(&neg(5)), neg(2));
}

#[test]
fn modulo_is_never_negative() {
    assert_eq!(k(17).modulo(&k(5)), k(2));
    assert_eq!(neg(17).modulo(&k(5)), k(3));
    assert_eq!(neg(15).modulo(&k(5)), k(0));
    assert_eq!(k(4).modulo(&k(5)), k(4));
}

#[test]
fn half_rounds_down() {
    assert_eq!(k(17).half(), k(8));
    assert_eq!(k(16).half(), k(8));
    assert_eq!(k(1).half(), k(0));
    assert_eq!(neg(17).half(), neg(9));
}

#[test]
fn comparisons_are_signed() {
    assert!(k(3).less_than(&k(4)));
    assert!(!k(4).less_than(&k(4)));
    assert!(neg(1).less_than(&k(0)));
    assert!(least().less_than(&greatest()));
    assert!(k(4).equals(&k(4)));
    assert!(!k(4).equals(&neg(4)));
    assert!(neg(4).is_negative());
    assert!(!k(0).is_negative());
}

#[test]
fn is_odd_reads_the_lowest_bit() {
    assert!(k(1).is_odd());
    assert!(!k(0).is_odd());
    assert!(k(1223).is_odd());
    assert!(!k(1 << 40).is_odd());
    assert!(neg(3).is_odd());
    assert!(!neg(4).is_odd());
}
