//! The fixed-width signed integer that keys are made of.
//!
//! A `Key` holds its 512 bytes in the open, least significant first, and its
//! view is the integer they spell in two's complement. The arithmetic itself
//! is `bnum`'s: each operation goes through one small function whose contract
//! is taken on trust, and everything above them is proved from those
//! contracts.

use bnum::types::I4096;
use vstd::arithmetic::div_mod::*;
use vstd::arithmetic::power2::*;
use vstd::prelude::*;

verus! {

/// Width of a key in bytes.
pub const KEY_BYTES: usize = 512;

/// The most bytes that an unsigned sample may have: one byte fewer than a
/// key, so that the sign bit stays clear.
pub const MAX_SAMPLE_BYTES: usize = 511;

/// A 4096-bit signed integer, held as its little-endian two's-complement bytes.
#[derive(Clone, Copy, Debug, PartialEq, Eq)]
pub struct Key {
    pub bytes: [u8; 512],
}

/// The natural number that the bytes `s` spell, least significant byte first.
pub open spec fn le_nat(s: Seq<u8>) -> nat
    decreases s.len(),
{
    if s.len() == 0 {
        0
    } else {
        le_nat(s.drop_last()) + (s.last() as nat) * pow2((8 * (s.len() - 1)) as nat)
    }
}

/// The least value of a key.
pub open spec fn key_min() -> int {
    -(pow2(4095) as int)
}

/// The greatest value of a key.
pub open spec fn key_max() -> int {
    pow2(4095) - 1
}

/// Whether the integer `v` is the value of some key.
pub open spec fn key_fits(v: int) -> bool {
    key_min() <= v <= key_max()
}

/// The quotient of `a` by `b` rounded toward zero, as Rust's `/` gives it.
pub open spec fn trunc_div(a: int, b: int) -> int {
    if a >= 0 {
        if b > 0 {
            a / b
        } else {
            -(a / (-b))
        }
    } else {
        if b > 0 {
            -((-a) / b)
        } else {
            (-a) / (-b)
        }
    }
}

/// The remainder that goes with `trunc_div`: it has the sign of `a`.
pub open spec fn trunc_rem(a: int, b: int) -> int {
    a - b * trunc_div(a, b)
}

/// The integer that 512 bytes stand for in two's complement: the number
/// that they spell, less `2^4096` where the highest bit is set.
#[verifier::opaque]
pub open spec fn twos_complement(s: Seq<u8>) -> int {
    let u = le_nat(s);
    if u >= pow2(4095) {
        u - pow2(4096)
    } else {
        u as int
    }
}

impl View for Key {
    type V = int;

    /// The integer that the key stands for.
    open spec fn view(&self) -> int {
        twos_complement(self.bytes@)
    }
}

/// `bnum`'s `checked_add` on `I4096`: the exact sum where it is the value
/// of a key, and `None` where it is not.
#[verifier::external_body]
fn key_checked_add(a: &Key, b: &Key) -> (r: Option<Key>)
    ensures
        r is Some <==> key_fits(a@ + b@),
        r matches Some(k) ==> k@ == a@ + b@,
{
    match I4096::from_bytes(a.bytes).checked_add(I4096::from_bytes(b.bytes)) {
        Some(v) => Some(Key { bytes: v.to_bytes() }),
        None => None,
    }
}

/// `bnum`'s `checked_sub` on `I4096`: the exact difference where it is the
/// value of a key, and `None` where it is not.
#[verifier::external_body]
fn key_checked_sub(a: &Key, b: &Key) -> (r: Option<Key>)
    ensures
        r is Some <==> key_fits(a@ - b@),
        r matches Some(k) ==> k@ == a@ - b@,
{
    match I4096::from_bytes(a.bytes).checked_sub(I4096::from_bytes(b.bytes)) {
        Some(v) => Some(Key { bytes: v.to_bytes() }),
        None => None,
    }
}

/// `bnum`'s `checked_mul` on `I4096`: the exact product where it is the
/// value of a key, and `None` where it is not.
#[verifier::external_body]
fn key_checked_mul(a: &Key, b: &Key) -> (r: Option<Key>)
    ensures
        r is Some <==> key_fits(a@ * b@),
        r matches Some(k) ==> k@ == a@ * b@,
{
    match I4096::from_bytes(a.bytes).checked_mul(I4096::from_bytes(b.bytes)) {
        Some(v) => Some(Key { bytes: v.to_bytes() }),
        None => None,
    }
}

/// `bnum`'s `checked_div` on `I4096`: the quotient rounded toward zero, and
/// `None` where the divisor is zero or the quotient is no value of a key
/// (the least key divided by minus one).
#[verifier::external_body]
fn key_checked_div(a: &Key, b: &Key) -> (r: Option<Key>)
    ensures
        r is Some <==> (b@ != 0 && key_fits(trunc_div(a@, b@))),
        r matches Some(k) ==> k@ == trunc_div(a@, b@),
{
    match I4096::from_bytes(a.bytes).checked_div(I4096::from_bytes(b.bytes)) {
        Some(v) => Some(Key { bytes: v.to_bytes() }),
        None => None,
    }
}

/// `bnum`'s `checked_rem` on `I4096`: the remainder of the division rounded
/// toward zero, and `None` where `checked_div` gives `None`.
#[verifier::external_body]
fn key_checked_rem(a: &Key, b: &Key) -> (r: Option<Key>)
    ensures
        r is Some <==> (b@ != 0 && key_fits(trunc_div(a@, b@))),
        r matches Some(k) ==> k@ == trunc_rem(a@, b@),
{
    match I4096::from_bytes(a.bytes).checked_rem(I4096::from_bytes(b.bytes)) {
        Some(v) => Some(Key { bytes: v.to_bytes() }),
        None => None,
    }
}

/// `bnum`'s `checked_shr` on `I4096`: the arithmetic shift to the right,
/// which is the floor of the division by `2^n`, and `None` where `n` is not
/// below the width of a key in bits.
#[verifier::external_body]
fn key_checked_shr(a: &Key, n: u32) -> (r: Option<Key>)
    ensures
        r is Some <==> n < 4096,
        r matches Some(k) ==> k@ == a@ / (pow2(n as nat) as int),
{
    match I4096::from_bytes(a.bytes).checked_shr(n) {
        Some(v) => Some(Key { bytes: v.to_bytes() }),
        None => None,
    }
}

/// `bnum`'s `==` on `I4096`: whether the two keys have the same value.
#[verifier::external_body]
fn key_equal(a: &Key, b: &Key) -> (r: bool)
    ensures
        r == (a@ == b@),
{
    I4096::from_bytes(a.bytes) == I4096::from_bytes(b.bytes)
}

/// `bnum`'s `<` on `I4096`: the order of the values, as signed integers.
#[verifier::external_body]
fn key_less(a: &Key, b: &Key) -> (r: bool)
    ensures
        r == (a@ < b@),
{
    I4096::from_bytes(a.bytes) < I4096::from_bytes(b.bytes)
}

/// Eight more bits multiply a power of two by 256.
pub proof fn lemma_pow2_byte(k: nat)
    ensures
        pow2(8 * k + 8) == 256 * pow2(8 * k),
        pow2(8 * k) > 0,
{
    lemma_pow2_adds(8, 8 * k);
    lemma2_to64();
    lemma_pow2_pos(8 * k);
}

/// `n` bytes spell a number below `2^(8n)`.
pub proof fn lemma_le_nat_bound(s: Seq<u8>)
    ensures
        le_nat(s) < pow2(8 * s.len()),
    decreases s.len(),
{
    if s.len() == 0 {
        lemma2_to64();
    } else {
        let k = (s.len() - 1) as nat;
        lemma_le_nat_bound(s.drop_last());
        lemma_pow2_byte(k);
        let top = s.last() as nat;
        let unit = pow2(8 * k);
        assert(top * unit <= 255 * unit) by (nonlinear_arith)
            requires
                top <= 255,
                unit > 0,
        ;
    }
}

/// One more byte adds its value at its place.
pub proof fn lemma_le_nat_take_step(s: Seq<u8>, i: nat)
    requires
        i < s.len(),
    ensures
        le_nat(s.take(i + 1 as int)) == le_nat(s.take(i as int)) + (s[i as int] as nat) * pow2(8 * i),
{
    let t = s.take(i + 1 as int);
    assert(t.drop_last() =~= s.take(i as int));
    assert(t.last() == s[i as int]);
}

/// Zero bytes at the high end add nothing.
pub proof fn lemma_le_nat_zero_tail(s: Seq<u8>, n: nat)
    requires
        n <= s.len(),
        forall|i: int| n <= i < s.len() ==> s[i] == 0,
    ensures
        le_nat(s) == le_nat(s.take(n as int)),
    decreases s.len(),
{
    if s.len() == n {
        assert(s.take(n as int) =~= s);
    } else {
        let t = s.drop_last();
        lemma_le_nat_zero_tail(t, n);
        assert(t.take(n as int) =~= s.take(n as int));
        assert(s.last() == 0);
        assert(0 * pow2((8 * (s.len() - 1)) as nat) == 0) by (nonlinear_arith);
    }
}

/// The lowest byte decides whether the number is even.
pub proof fn lemma_le_nat_parity(s: Seq<u8>)
    requires
        s.len() >= 1,
    ensures
        le_nat(s) % 2 == (s[0] as nat) % 2,
    decreases s.len(),
{
    let k = (s.len() - 1) as nat;
    let top = s.last() as nat;
    if s.len() == 1 {
        lemma2_to64();
        assert(le_nat(s.drop_last()) == 0);
        assert(top * pow2(0) == top) by (nonlinear_arith)
            requires
                pow2(0) == 1,
        ;
    } else {
        lemma_le_nat_parity(s.drop_last());
        lemma_pow2_unfold(8 * k);
        let half = pow2((8 * k - 1) as nat);
        assert(top * pow2(8 * k) == 2 * (top * half)) by (nonlinear_arith)
            requires
                pow2(8 * k) == 2 * half,
        ;
    }
}

/// Replacing the lowest byte changes the number by the difference of the
/// two bytes.
pub proof fn lemma_le_nat_set_low(s: Seq<u8>, b: u8)
    requires
        s.len() >= 1,
    ensures
        le_nat(s.update(0, b)) == le_nat(s) - s[0] + b,
    decreases s.len(),
{
    let k = (s.len() - 1) as nat;
    if s.len() == 1 {
        lemma2_to64();
        assert(s.update(0, b).drop_last() =~= s.drop_last());
        assert(le_nat(s.drop_last()) == 0);
        assert((b as nat) * pow2(0) == b && (s[0] as nat) * pow2(0) == s[0]) by (nonlinear_arith)
            requires
                pow2(0) == 1,
        ;
    } else {
        lemma_le_nat_set_low(s.drop_last(), b);
        assert(s.update(0, b).drop_last() =~= s.drop_last().update(0, b));
    }
}

/// Bytes whose high end is zero from index `n <= 511` on make a key that is
/// not negative: its value is the number that the first `n` bytes spell.
pub proof fn lemma_view_of_unsigned(k: Key, n: nat)
    requires
        n <= 511,
        forall|i: int| n <= i < 512 ==> k.bytes@[i] == 0,
    ensures
        k@ == le_nat(k.bytes@.take(n as int)),
        0 <= k@ < pow2(8 * n),
        pow2(8 * n) <= pow2(4088),
{
    reveal(twos_complement);
    lemma_le_nat_zero_tail(k.bytes@, n);
    lemma_le_nat_bound(k.bytes@.take(n as int));
    if 8 * n < 4088 {
        lemma_pow2_strictly_increases(8 * n, 4088);
    }
    lemma_pow2_strictly_increases(4088, 4095);
}

/// The value of a key lies between the least and the greatest.
pub proof fn lemma_key_range(k: Key)
    ensures
        key_fits(k@),
{
    reveal(twos_complement);
    lemma_le_nat_bound(k.bytes@);
    lemma_pow2_unfold(4096);
}

/// A key is odd exactly when its lowest byte is.
pub proof fn lemma_view_parity(k: Key)
    ensures
        k@ % 2 == (k.bytes@[0] as int) % 2,
{
    reveal(twos_complement);
    lemma_le_nat_parity(k.bytes@);
    lemma_pow2_unfold(4096);
}

/// On a dividend that is not negative and a positive divisor, rounding
/// toward zero is rounding down.
pub proof fn lemma_trunc_is_floor(a: int, b: int)
    requires
        a >= 0,
        b > 0,
    ensures
        trunc_div(a, b) == a / b,
        trunc_rem(a, b) == a % b,
        0 <= a / b <= a,
{
    lemma_fundamental_div_mod(a, b);
    lemma_div_pos_is_pos(a, b);
    lemma_div_nonincreasing(a, b);
}

/// What the division rounded toward zero leaves: a remainder smaller in
/// magnitude than the divisor, with the sign of the dividend, and a quotient
/// that is no larger in magnitude than the dividend.
pub proof fn lemma_trunc_div_rem(a: int, b: int)
    requires
        b != 0,
    ensures
        a == b * trunc_div(a, b) + trunc_rem(a, b),
        a >= 0 ==> 0 <= trunc_rem(a, b),
        a <= 0 ==> trunc_rem(a, b) <= 0,
        -b < trunc_rem(a, b) < b || b < trunc_rem(a, b) < -b,
        -a <= trunc_div(a, b) <= a || a <= trunc_div(a, b) <= -a,
        (a >= 0) == (b > 0) ==> trunc_div(a, b) >= 0,
        (a >= 0) != (b > 0) ==> trunc_div(a, b) <= 0,
{
    let aa = if a >= 0 { a } else { -a };
    let bb = if b > 0 { b } else { -b };
    lemma_fundamental_div_mod(aa, bb);
    lemma_mod_bound(aa, bb);
    lemma_div_pos_is_pos(aa, bb);
    lemma_div_nonincreasing(aa, bb);
    let q = aa / bb;
    let r = aa % bb;
    assert(aa == bb * q + r);
    assert(b * trunc_div(a, b) == if a >= 0 { bb * q } else { -(bb * q) }) by (nonlinear_arith)
        requires
            bb == if b > 0 { b } else { -b },
            trunc_div(a, b) == if (a >= 0) == (b > 0) { q } else { -q },
            b != 0,
    ;
}

/// The remainder in `[0, b)` from the one with the sign of the dividend.
pub proof fn lemma_rem_euclid(a: int, b: int)
    requires
        b > 0,
    ensures
        a % b == if trunc_rem(a, b) < 0 {
            trunc_rem(a, b) + b
        } else {
            trunc_rem(a, b)
        },
{
    lemma_trunc_div_rem(a, b);
    let q = trunc_div(a, b);
    let r = trunc_rem(a, b);
    if r < 0 {
        assert(a == (q - 1) * b + (r + b)) by (nonlinear_arith)
            requires
                a == b * q + r,
        ;
        lemma_fundamental_div_mod_converse_mod(a, b, q - 1, r + b);
    } else {
        assert(a == q * b + r) by (nonlinear_arith)
            requires
                a == b * q + r,
        ;
        lemma_fundamental_div_mod_converse_mod(a, b, q, r);
    }
}

impl Key {
    /// The key zero.
    pub fn zero() -> (r: Key)
        ensures
            r@ == 0,
    {
        Key::from_u64(0)
    }

    /// The key one.
    pub fn one() -> (r: Key)
        ensures
            r@ == 1,
    {
        Key::from_u64(1)
    }

    /// The sum, or `None` where it is no value of a key.
    pub fn checked_plus(&self, rhs: &Key) -> (r: Option<Key>)
        ensures
            r is Some <==> key_fits(self@ + rhs@),
            r matches Some(k) ==> k@ == self@ + rhs@,
    {
        key_checked_add(self, rhs)
    }

    /// The difference, or `None` where it is no value of a key.
    pub fn checked_minus(&self, rhs: &Key) -> (r: Option<Key>)
        ensures
            r is Some <==> key_fits(self@ - rhs@),
            r matches Some(k) ==> k@ == self@ - rhs@,
    {
        key_checked_sub(self, rhs)
    }

    /// The product, or `None` where it is no value of a key.
    pub fn checked_times(&self, rhs: &Key) -> (r: Option<Key>)
        ensures
            r is Some <==> key_fits(self@ * rhs@),
            r matches Some(k) ==> k@ == self@ * rhs@,
    {
        key_checked_mul(self, rhs)
    }

    /// The sum of two keys.
    pub fn plus(&self, rhs: &Key) -> (r: Key)
        requires
            key_fits(self@ + rhs@),
        ensures
            r@ == self@ + rhs@,
    {
        match key_checked_add(self, rhs) {
            Some(r) => r,
            None => unreached(),
        }
    }

    /// The difference of two keys.
    pub fn minus(&self, rhs: &Key) -> (r: Key)
        requires
            key_fits(self@ - rhs@),
        ensures
            r@ == self@ - rhs@,
    {
        match key_checked_sub(self, rhs) {
            Some(r) => r,
            None => unreached(),
        }
    }

    /// The product of two keys.
    pub fn times(&self, rhs: &Key) -> (r: Key)
        requires
            key_fits(self@ * rhs@),
        ensures
            r@ == self@ * rhs@,
    {
        match key_checked_mul(self, rhs) {
            Some(r) => r,
            None => unreached(),
        }
    }

    /// The quotient of two keys, rounded toward zero.
    pub fn quotient(&self, rhs: &Key) -> (r: Key)
        requires
            rhs@ != 0,
            key_fits(trunc_div(self@, rhs@)),
        ensures
            r@ == trunc_div(self@, rhs@),
    {
        match key_checked_div(self, rhs) {
            Some(r) => r,
            None => unreached(),
        }
    }

    /// The remainder of the division rounded toward zero.
    pub fn remainder(&self, rhs: &Key) -> (r: Key)
        requires
            rhs@ != 0,
            key_fits(trunc_div(self@, rhs@)),
        ensures
            r@ == trunc_rem(self@, rhs@),
    {
        match key_checked_rem(self, rhs) {
            Some(r) => r,
            None => unreached(),
        }
    }

    /// The remainder in `[0, m)` of the division by a positive `m`.
    pub fn modulo(&self, m: &Key) -> (r: Key)
        requires
            m@ > 0,
        ensures
            r@ == self@ % m@,
            0 <= r@ < m@,
    {
        proof {
            lemma_trunc_div_rem(self@, m@);
            lemma_rem_euclid(self@, m@);
            lemma_mod_bound(self@, m@);
            lemma_key_range(*self);
            lemma_key_range(*m);
        }
        let r = self.remainder(m);
        if key_less(&r, &Key::zero()) {
            r.plus(m)
        } else {
            r
        }
    }

    /// Half of the key, rounded down.
    pub fn half(&self) -> (r: Key)
        ensures
            r@ == self@ / 2,
    {
        proof {
            lemma2_to64();
        }
        match key_checked_shr(self, 1) {
            Some(r) => r,
            None => unreached(),
        }
    }

    /// Whether the two keys have the same value.
    pub fn equals(&self, rhs: &Key) -> (r: bool)
        ensures
            r == (self@ == rhs@),
    {
        key_equal(self, rhs)
    }

    /// Whether this key is below `rhs`.
    pub fn less_than(&self, rhs: &Key) -> (r: bool)
        ensures
            r == (self@ < rhs@),
    {
        key_less(self, rhs)
    }

    /// Whether the key is zero.
    pub fn is_zero(&self) -> (r: bool)
        ensures
            r == (self@ == 0),
    {
        key_equal(self, &Key::zero())
    }

    /// Whether the key is below zero.
    pub fn is_negative(&self) -> (r: bool)
        ensures
            r == (self@ < 0),
    {
        key_less(self, &Key::zero())
    }

    /// Whether the key is odd: its lowest bit.
    pub fn is_odd(&self) -> (r: bool)
        ensures
            r == (self@ % 2 == 1),
    {
        let low = self.bytes[0];
        proof {
            lemma_view_parity(*self);
            assert((low & 1 == 1) == (low % 2 == 1)) by (bit_vector);
        }
        low & 1 == 1
    }

    /// The key whose value is `v`.
    pub fn from_u64(v: u64) -> (r: Key)
        ensures
            r@ == v,
    {
        let mut bytes = [0u8;512];
        proof {
            assert(forall|x: u64| #[trigger] (x & 0xff) < 256) by (bit_vector);
        }
        let b0 = (v & 0xff) as u8;
        let b1 = ((v >> 8) & 0xff) as u8;
        let b2 = ((v >> 16) & 0xff) as u8;
        let b3 = ((v >> 24) & 0xff) as u8;
        let b4 = ((v >> 32) & 0xff) as u8;
        let b5 = ((v >> 40) & 0xff) as u8;
        let b6 = ((v >> 48) & 0xff) as u8;
        let b7 = ((v >> 56) & 0xff) as u8;
        bytes[0] = b0;
        bytes[1] = b1;
        bytes[2] = b2;
        bytes[3] = b3;
        bytes[4] = b4;
        bytes[5] = b5;
        bytes[6] = b6;
        bytes[7] = b7;
        let r = Key { bytes };
        proof {
            lemma_view_of_unsigned(r, 8);
            let s = r.bytes@;
            lemma2_to64();
            lemma2_to64_rest();
            lemma_le_nat_take_step(s, 0);
            lemma_le_nat_take_step(s, 1);
            lemma_le_nat_take_step(s, 2);
            lemma_le_nat_take_step(s, 3);
            lemma_le_nat_take_step(s, 4);
            lemma_le_nat_take_step(s, 5);
            lemma_le_nat_take_step(s, 6);
            lemma_le_nat_take_step(s, 7);
            assert(le_nat(s.take(0)) == 0);
            assert(v == (v & 0xff) + ((v >> 8) & 0xff) * 0x100 + ((v >> 16) & 0xff) * 0x1_0000 + ((v
                >> 24) & 0xff) * 0x100_0000 + ((v >> 32) & 0xff) * 0x1_0000_0000 + ((v >> 40)
                & 0xff) * 0x100_0000_0000 + ((v >> 48) & 0xff) * 0x1_0000_0000_0000 + ((v >> 56)
                & 0xff) * 0x100_0000_0000_0000) by (bit_vector);
        }
        r
    }
}

} // verus!
