//! Key generation: greatest common divisors, modular inverses and powers,
//! the Miller-Rabin test, and the sampler that draws primes and exponents.

use crate::bigint::{
    key_fits, key_max, key_min, le_nat, lemma_key_range, lemma_le_nat_bound, lemma_le_nat_set_low,
    lemma_le_nat_take_step, lemma_trunc_is_floor, lemma_view_of_unsigned, lemma_view_parity,
    twos_complement, Key, MAX_SAMPLE_BYTES,
};
use crate::error::KeygenError;
use crate::number_theory;
use crate::number_theory::{
    abs, coprime, is_prime, lemma_divides_negative, lemma_even_not_coprime, lemma_gcd_is_greatest,
    lemma_gcd_of_remainder, lemma_gcd_symmetric, lemma_pow_mod_zero, lemma_pow_of_square,
    lemma_power_of_two_coprime_to_odd, lemma_prime_is_strong_probable_prime, lemma_rsa_round_trip,
    pow_mod, strong_probable_prime,
};
use crate::primes::{in_first_primes, lemma_table_entry_is_prime, passes_sieve, sieve_passes};
use crate::random::{next_random_u8, thread_rng};
use rand::rngs::ThreadRng;
use vstd::arithmetic::div_mod::*;
use vstd::arithmetic::mul::*;
use vstd::arithmetic::power::*;
use vstd::arithmetic::power2::*;
use vstd::prelude::*;

verus! {

/// The most bytes that a prime candidate may have: one byte less than half
/// a key, so that the square of a candidate is the value of a key.
pub const MAX_PRIME_BYTES: usize = 255;

/// The magnitude of `k`, which is the value of a key for all but the least.
fn magnitude(k: Key) -> (r: Key)
    requires
        k@ > key_min(),
    ensures
        r@ == abs(k@),
{
    proof {
        lemma_key_range(k);
    }
    if k.is_negative() {
        Key::zero().minus(&k)
    } else {
        k
    }
}

/// The greatest common divisor of the magnitudes of `a` and `b`, by
/// Euclid's algorithm on remainders: the larger of the two is replaced by
/// its remainder modulo the smaller until one of them is zero, and the
/// other is the result. The least key, whose magnitude is the value of no
/// key, is left out.
pub fn gcd(a: Key, b: Key) -> (r: Key)
    requires
        a@ > key_min(),
        b@ > key_min(),
    ensures
        r@ == number_theory::gcd(abs(a@), abs(b@)),
        (a@ != 0 || b@ != 0) ==> r@ > 0 && a@ % r@ == 0 && b@ % r@ == 0,
        forall|d: int|
            (a@ != 0 || b@ != 0) && d > 0 && #[trigger] (a@ % d) == 0 && #[trigger] (b@ % d) == 0
                ==> d <= r@,
{
    let mut x = magnitude(a);
    let mut y = magnitude(b);
    let ghost g = number_theory::gcd(abs(a@), abs(b@));
    proof {
        lemma_gcd_facts(a@, b@);
    }
    if x.is_zero() {
        proof {
            lemma_gcd_symmetric(0, abs(b@));
        }
        return y;
    }
    if y.is_zero() {
        return x;
    }
    while !x.equals(&y)
        invariant
            x@ > 0,
            y@ > 0,
            number_theory::gcd(x@ as nat, y@ as nat) == g,
            g == number_theory::gcd(abs(a@), abs(b@)),
            a@ != 0,
            b@ != 0,
        decreases x@ + y@,
    {
        proof {
            lemma_gcd_facts(a@, b@);
            lemma_key_range(x);
            lemma_key_range(y);
            lemma_gcd_symmetric(x@ as nat, y@ as nat);
        }
        if y.less_than(&x) {
            proof {
                lemma_trunc_is_floor(x@, y@);
                lemma_mod_bound(x@, y@);
                lemma_gcd_symmetric((x@ % y@) as nat, y@ as nat);
                assert(number_theory::gcd(x@ as nat, y@ as nat) == number_theory::gcd(
                    y@ as nat,
                    (x@ % y@) as nat,
                ));
                assert(number_theory::gcd(y@ as nat, 0) == y@);
            }
            x = x.remainder(&y);
            if x.is_zero() {
                return y;
            }
        } else {
            proof {
                lemma_trunc_is_floor(y@, x@);
                lemma_mod_bound(y@, x@);
                assert(number_theory::gcd(y@ as nat, x@ as nat) == number_theory::gcd(
                    x@ as nat,
                    (y@ % x@) as nat,
                ));
                assert(number_theory::gcd(x@ as nat, 0) == x@);
            }
            y = y.remainder(&x);
            if y.is_zero() {
                return x;
            }
        }
    }
    proof {
        lemma_gcd_facts(a@, b@);
        lemma_mod_self_0(x@);
        assert(number_theory::gcd(x@ as nat, x@ as nat) == number_theory::gcd(
            x@ as nat,
            (x@ % x@) as nat,
        ));
        assert(number_theory::gcd(x@ as nat, 0) == x@);
    }
    x
}

/// The greatest common divisor of the magnitudes divides both numbers, and
/// no common divisor is greater.
proof fn lemma_gcd_facts(a: int, b: int)
    ensures
        (a != 0 || b != 0) ==> ({
            let g = number_theory::gcd(abs(a), abs(b)) as int;
            &&& g > 0
            &&& a % g == 0
            &&& b % g == 0
            &&& forall|d: int| d > 0 && #[trigger] (a % d) == 0 && #[trigger] (b % d) == 0 ==> d <= g
        }),
{
    if a != 0 || b != 0 {
        let g = number_theory::gcd(abs(a), abs(b)) as int;
        lemma_gcd_is_greatest(abs(a), abs(b));
        if a < 0 {
            lemma_divides_negative(-a, g);
        }
        if b < 0 {
            lemma_divides_negative(-b, g);
        }
        assert forall|d: int| d > 0 && #[trigger] (a % d) == 0 && #[trigger] (b % d) == 0 implies d
            <= g by {
            if a < 0 {
                lemma_divides_negative(a, d);
            }
            if b < 0 {
                lemma_divides_negative(b, d);
            }
            assert((abs(a) as int) % d == 0);
            assert((abs(b) as int) % d == 0);
        }
    }
}

/// Whether `k` is the least key, the one whose magnitude is the value of no
/// key.
fn is_least(k: &Key) -> (r: bool)
    ensures
        r == (k@ == key_min()),
{
    proof {
        lemma_key_range(*k);
    }
    k.is_negative() && Key::zero().checked_minus(k).is_none()
}

/// Whether `a` and `b` have no common divisor above one. Two even numbers
/// are turned away at once; else the greatest common divisor decides.
pub fn are_coprime(a: Key, b: Key) -> (r: bool)
    ensures
        r == coprime(a@, b@),
{
    if !a.is_odd() && !b.is_odd() {
        proof {
            lemma_even_not_coprime(a@, b@);
        }
        return false;
    }
    // the least key is a power of two with a sign: every odd number is
    // coprime to it
    if is_least(&a) {
        proof {
            lemma_pow2_unfold(4095);
            lemma_power_of_two_coprime_to_odd(4095, b@);
        }
        return true;
    }
    if is_least(&b) {
        proof {
            lemma_pow2_unfold(4095);
            lemma_power_of_two_coprime_to_odd(4095, a@);
        }
        return true;
    }
    proof {
        lemma_key_range(a);
        lemma_key_range(b);
    }
    gcd(a, b).equals(&Key::one())
}

/// The inverse of `a` modulo `b`: the one `x` in `[0, b)` with
/// `a * x = 1 (mod b)`. It exists exactly when `a` and `b` are coprime.
///
/// The extended Euclidean algorithm runs on the remainder of `a` modulo `b`
/// and on `b`, carrying for each of the two running values the coefficient
/// of `a` that gives it modulo `b`; a negative coefficient at the end is
/// brought into range by adding `b` once.
pub fn get_modular_inverse(a: Key, b: Key) -> (r: Result<Key, KeygenError>)
    ensures
        r is Ok <==> b@ > 1 && coprime(a@, b@),
        r == Err::<Key, KeygenError>(KeygenError::InvalidArgument) <==> b@ <= 1,
        r == Err::<Key, KeygenError>(KeygenError::NotInvertible) <==> b@ > 1 && !coprime(a@, b@),
        r matches Ok(x) ==> 0 <= x@ < b@ && (a@ * x@) % b@ == 1,
{
    let one = Key::one();
    if !one.less_than(&b) {
        return Err(KeygenError::InvalidArgument);
    }
    let ghost m = b@;
    let start = a.modulo(&b);
    let ghost a1 = start@;
    // the two running remainders, and for each the coefficient of `a` that
    // gives it modulo `b`
    let mut upper = b;
    let mut lower = start;
    let mut x = Key::zero();
    let mut u = one;
    let ghost mut k_upper: int = 1;
    let ghost mut k_lower: int = 0;
    proof {
        lemma_gcd_of_remainder(a@, m);
        lemma_gcd_symmetric(a1 as nat, m as nat);
        assert(m * 1 + a1 * 0 <= m) by (nonlinear_arith);
        assert(m == 0 * a1 + 1 * m && a1 == 1 * a1 + 0 * m) by (nonlinear_arith);
    }
    while !lower.is_zero()
        invariant
            m > 1,
            b@ == m,
            0 <= a1 < m,
            0 <= lower@ < upper@,
            number_theory::gcd(upper@ as nat, lower@ as nat) == number_theory::gcd(
                m as nat,
                a1 as nat,
            ),
            upper@ == x@ * a1 + k_upper * m,
            lower@ == u@ * a1 + k_lower * m,
            upper@ * abs(u@) + lower@ * abs(x@) <= m,
            abs(x@) < m,
        decreases lower@,
    {
        proof {
            lemma_key_range(lower);
            lemma_key_range(upper);
            lemma_key_range(b);
            lemma_trunc_is_floor(upper@, lower@);
        }
        let q = upper.quotient(&lower);
        proof {
            lemma_inverse_step(lower@, upper@, x@, u@, q@, m);
            lemma_inverse_congruence(lower@, upper@, x@, u@, q@, m, a1, k_lower, k_upper);
        }
        let rest = upper.minus(&lower.times(&q));
        let coefficient = x.minus(&u.times(&q));
        proof {
            let k_next = k_upper - k_lower * q@;
            k_upper = k_lower;
            k_lower = k_next;
        }
        upper = lower;
        lower = rest;
        x = u;
        u = coefficient;
    }
    proof {
        assert(number_theory::gcd(upper@ as nat, 0) == upper@);
        lemma_gcd_symmetric(a1 as nat, m as nat);
        lemma_gcd_of_remainder(a@, m);
        assert(abs(m) == m as nat);
    }
    if !upper.equals(&one) {
        return Err(KeygenError::NotInvertible);
    }
    proof {
        lemma_key_range(b);
        lemma_inverse_found(a@, a1, x@, k_upper, m);
    }
    if x.is_negative() {
        Ok(x.plus(&b))
    } else {
        Ok(x)
    }
}

/// Where `x * a1 + k * m == 1` and `a1` is the remainder of `a` modulo `m`,
/// `x` is an inverse of `a` modulo `m`, and so is `x + m`.
proof fn lemma_inverse_found(a: int, a1: int, x: int, k: int, m: int)
    requires
        m > 1,
        a1 == a % m,
        1 == x * a1 + k * m,
    ensures
        (a * x) % m == 1,
        (a * (x + m)) % m == 1,
{
    lemma_small_mod(1, m as nat);
    assert(a1 * x == m * (-k) + 1 && a1 * (x + m) == m * (a1 - k) + 1) by (nonlinear_arith)
        requires
            1 == x * a1 + k * m,
    ;
    lemma_mod_multiples_vanish(-k, 1, m);
    lemma_mod_multiples_vanish(a1 - k, 1, m);
    lemma_mul_mod_noop_left(a, x, m);
    lemma_mul_mod_noop_left(a, x + m, m);
}

/// One step of the extended Euclidean algorithm keeps the congruences: the
/// new remainder is the new coefficient times `a1`, up to a multiple of `m`,
/// and the greatest common divisor of the pair of remainders stays.
proof fn lemma_inverse_congruence(
    lower: int,
    upper: int,
    x: int,
    u: int,
    q: int,
    m: int,
    a1: int,
    k_lower: int,
    k_upper: int,
)
    requires
        0 < lower < upper,
        q == upper / lower,
        upper == x * a1 + k_upper * m,
        lower == u * a1 + k_lower * m,
    ensures
        upper - lower * q == (x - u * q) * a1 + (k_upper - k_lower * q) * m,
        upper - lower * q == upper % lower,
        number_theory::gcd(lower as nat, (upper % lower) as nat) == number_theory::gcd(
            upper as nat,
            lower as nat,
        ),
{
    lemma_fundamental_div_mod(upper, lower);
    lemma_mod_bound(upper, lower);
    assert(upper - lower * q == (x - u * q) * a1 + (k_upper - k_lower * q) * m)
        by (nonlinear_arith)
        requires
            upper == x * a1 + k_upper * m,
            lower == u * a1 + k_lower * m,
    ;
}

/// One step of the extended Euclidean algorithm keeps the running values
/// and their coefficients inside a key: with `q` the quotient of `b` by `a`,
/// the products and differences that the step forms are bounded by the
/// modulus, and the bound on the coefficients carries over.
proof fn lemma_inverse_step(a: int, b: int, x: int, u: int, q: int, m: int)
    requires
        0 < a < b,
        q == b / a,
        b * abs(u) + a * abs(x) <= m,
        m > 1,
        key_fits(m),
        key_fits(b),
    ensures
        key_fits(a * q),
        key_fits(b - a * q),
        0 <= b - a * q < a,
        key_fits(u * q),
        key_fits(x - u * q),
        a * abs(x - u * q) + (b - a * q) * abs(u) <= m,
        abs(u) < m,
{
    lemma_fundamental_div_mod(b, a);
    lemma_mod_bound(b, a);
    lemma_div_pos_is_pos(b, a);
    let r = b % a;
    let au = abs(u) as int;
    let ax = abs(x) as int;
    let c = x - u * q;
    let ac = abs(c) as int;
    assert(0 <= q && a * q <= b && a * q == b - r);
    assert(b >= 2);
    assert(au < m) by (nonlinear_arith)
        requires
            b * au + a * ax <= m,
            b >= 2,
            a > 0,
            au >= 0,
            ax >= 0,
            m > 1,
    ;
    // the magnitude of u * q is |u| * q, which a * |u| * q bounds
    let uq = u * q;
    assert(uq == au * q || uq == -(au * q)) by (nonlinear_arith)
        requires
            uq == u * q,
            au == u || au == -u,
    ;
    assert(au * q <= m && au * q >= 0) by (nonlinear_arith)
        requires
            b * au + a * ax <= m,
            a * q <= b,
            a >= 1,
            q >= 0,
            au >= 0,
            ax >= 0,
    ;
    assert(ac <= ax + au * q);
    assert(a * ac + r * au <= m) by (nonlinear_arith)
        requires
            ac <= ax + au * q,
            b * au + a * ax <= m,
            a * q == b - r,
            a >= 1,
            r >= 0,
            au >= 0,
            ax >= 0,
            ac >= 0,
    ;
    assert(ac <= m) by (nonlinear_arith)
        requires
            a * ac + r * au <= m,
            a >= 1,
            r >= 0,
            au >= 0,
            ac >= 0,
    ;
}

/// Whether `modulus` can be the modulus of a modular power: it is above
/// one, and its square is the value of a key, so that no product of two
/// residues leaves the width of a key before it is reduced.
pub open spec fn valid_modulus(modulus: int) -> bool {
    modulus > 1 && key_fits(modulus * modulus)
}

/// Whether `m` can be the modulus of a modular power.
pub fn is_valid_modulus(m: &Key) -> (r: bool)
    ensures
        r == valid_modulus(m@),
{
    Key::one().less_than(m) && m.checked_times(m).is_some()
}

/// The product of two residues of a valid modulus is the value of a key.
proof fn lemma_residue_product_fits(x: int, y: int, m: int)
    requires
        valid_modulus(m),
        0 <= x < m,
        0 <= y < m,
    ensures
        key_fits(x * y),
        0 <= x * y,
{
    lemma_pow2_pos(4095);
    assert(0 <= x * y <= m * m) by (nonlinear_arith)
        requires
            0 <= x < m,
            0 <= y < m,
    ;
}

/// The product of two residues, reduced again.
fn mul_mod(x: &Key, y: &Key, m: &Key) -> (r: Key)
    requires
        valid_modulus(m@),
        0 <= x@ < m@,
        0 <= y@ < m@,
    ensures
        r@ == (x@ * y@) % m@,
        0 <= r@ < m@,
{
    proof {
        lemma_residue_product_fits(x@, y@, m@);
    }
    x.times(y).modulo(m)
}

/// `s` to the power `e` modulo `m`, by squaring and multiplying: the bits of
/// the exponent are taken from the lowest up, the running square is
/// multiplied into the result where the bit is set, and every product is
/// reduced before the next is formed. The result lies in `[0, m)`, also for
/// a negative `s`.
///
/// The exponent must not be negative and the modulus must be above one.
/// Where a product is formed at all, that is for a positive exponent, the
/// square of the modulus must be the value of a key as well.
pub fn bigmod(s: Key, e: Key, m: Key) -> (r: Result<Key, KeygenError>)
    ensures
        r is Ok <==> e@ >= 0 && m@ > 1 && (e@ == 0 || valid_modulus(m@)),
        r matches Ok(v) ==> v@ == pow_mod(s@, e@ as nat, m@) && 0 <= v@ < m@,
        r matches Ok(v) ==> (e@ == 0 ==> v@ == 1),
        r matches Err(err) ==> err == KeygenError::InvalidArgument,
{
    if e.is_negative() || !Key::one().less_than(&m) {
        return Err(KeygenError::InvalidArgument);
    }
    if e.is_zero() {
        proof {
            lemma_pow_mod_zero(s@, m@);
        }
        return Ok(Key::one());
    }
    if !is_valid_modulus(&m) {
        return Err(KeygenError::InvalidArgument);
    }
    let mut final_mod = Key::one();
    // the residue of s^(2^n)
    let mut last_mod = s.modulo(&m);
    let mut e = e;
    let ghost e0 = e@ as nat;
    proof {
        lemma_pow_mod_noop(s@, e0, m@);
        lemma_mul_basics(pow(last_mod@, e0));
    }
    while Key::zero().less_than(&e)
        invariant
            valid_modulus(m@),
            e@ >= 0,
            0 <= final_mod@ < m@,
            0 <= last_mod@ < m@,
            (final_mod@ * pow(last_mod@, e@ as nat)) % m@ == pow_mod(s@, e0, m@),
        decreases e@,
    {
        let ghost h = (e@ / 2) as nat;
        let ghost acc = last_mod@;
        let ghost res = final_mod@;
        proof {
            lemma_pow_of_square(acc, h);
            lemma_pow_mod_noop(acc * acc, h, m@);
        }
        if e.is_odd() {
            proof {
                // res * acc^(2h + 1) == (res * acc) * (acc * acc)^h
                let t = pow(acc * acc, h);
                assert(res * (acc * t) == (res * acc) * t) by (nonlinear_arith);
                lemma_mul_mod_noop_general(res * acc, t, m@);
                lemma_mul_mod_noop_general((res * acc) % m@, pow((acc * acc) % m@, h), m@);
                lemma_mod_twice(res * acc, m@);
            }
            final_mod = mul_mod(&final_mod, &last_mod, &m);
        } else {
            proof {
                let t = pow(acc * acc, h);
                lemma_mul_mod_noop_general(res, t, m@);
                lemma_mul_mod_noop_general(res, pow((acc * acc) % m@, h), m@);
            }
        }
        last_mod = mul_mod(&last_mod, &last_mod, &m);
        e = e.half();
    }
    proof {
        lemma_pow0(last_mod@);
        lemma_small_mod(final_mod@ as nat, m@ as nat);
    }
    Ok(final_mod)
}

/// Whether the prime candidate `prime` passes one round of the
/// Miller-Rabin test to the base `base`, where `mantissa` is the exponent
/// that the round starts from (for a whole test, the odd part of
/// `prime - 1`).
///
/// The round passes where `base^mantissa` is one or minus one modulo
/// `prime`. Else the power is squared for as long as the exponent, doubled
/// each time, stays below `prime - 1`, and the round passes as soon as a
/// square is minus one. An even or too wide `prime` and a negative
/// `mantissa` are turned away.
pub fn number_passes_miller_rabin(mantissa: Key, prime: Key, base: Key) -> (r: Result<
    bool,
    KeygenError,
>)
    ensures
        r is Ok <==> mantissa@ >= 0 && valid_modulus(prime@) && prime@ % 2 == 1,
        r matches Ok(passed) ==> passed == strong_probable_prime(
            prime@,
            mantissa@ as nat,
            base@,
        ),
        r matches Err(err) ==> err == KeygenError::InvalidArgument,
{
    if !prime.is_odd() || !is_valid_modulus(&prime) {
        return Err(KeygenError::InvalidArgument);
    }
    let mut power = match bigmod(base, mantissa, prime) {
        Ok(power) => power,
        Err(err) => {
            return Err(err);
        },
    };
    let one = Key::one();
    proof {
        lemma_key_range(prime);
    }
    let top = prime.minus(&one);
    if power.equals(&one) || power.equals(&top) {
        return Ok(true);
    }
    let ghost d = mantissa@ as nat;
    let ghost n = prime@;
    proof {
        // the power is not one, so the mantissa is not zero
        if d == 0 {
            lemma_pow0(base@);
            lemma_small_mod(1, n as nat);
        }
        lemma2_to64();
        assert(d * pow2(0) == d && d * pow2(1) == d + d) by (nonlinear_arith)
            requires
                pow2(0) == 1,
                pow2(1) == 2,
        ;
    }
    let mut doubled = match mantissa.checked_plus(&mantissa) {
        Some(doubled) => doubled,
        None => {
            proof {
                lemma_no_later_square(n, d, base@, 1, key_max() + 1);
            }
            return Ok(false);
        },
    };
    let ghost mut j: nat = 1;
    while doubled.less_than(&top)
        invariant
            valid_modulus(n),
            n == prime@,
            n % 2 == 1,
            top@ == n - 1,
            d == mantissa@,
            d >= 1,
            j >= 1,
            doubled@ == d * pow2(j),
            doubled@ >= 1,
            0 <= power@ < n,
            power@ == pow_mod(base@, d * pow2((j - 1) as nat), n),
            pow_mod(base@, d, n) != 1,
            pow_mod(base@, d, n) != n - 1,
            forall|i: nat|
                1 <= i < j ==> !(d * pow2(i) < n - 1 && pow_mod(base@, d * #[trigger] pow2(i), n)
                    == n - 1),
        decreases
                (if doubled@ < n {
                    n - doubled@
                } else {
                    0
                }),
    {
        proof {
            lemma_square_doubles_exponent(base@, d, j, n);
            assert(2 * n <= n * n) by (nonlinear_arith)
                requires
                    n >= 2,
            ;
        }
        power = mul_mod(&power, &power, &prime);
        if power.equals(&top) {
            return Ok(true);
        }
        let next = doubled.plus(&doubled);
        proof {
            lemma_pow2_unfold(j + 1);
            assert(next@ == d * pow2(j + 1)) by (nonlinear_arith)
                requires
                    next@ == doubled@ + doubled@,
                    doubled@ == d * pow2(j),
                    pow2(j + 1) == 2 * pow2(j),
            ;
            j = j + 1;
        }
        doubled = next;
    }
    proof {
        lemma_no_later_square(n, d, base@, j, doubled@);
    }
    Ok(false)
}

/// Squaring the power doubles the exponent.
proof fn lemma_square_doubles_exponent(base: int, d: nat, j: nat, n: int)
    requires
        j >= 1,
        n > 1,
    ensures
        (pow_mod(base, d * pow2((j - 1) as nat), n) * pow_mod(base, d * pow2((j - 1) as nat), n))
            % n == pow_mod(base, d * pow2(j), n),
{
    let e1 = d * pow2((j - 1) as nat);
    lemma_pow2_unfold(j);
    assert(d * pow2(j) == e1 + e1) by (nonlinear_arith)
        requires
            pow2(j) == 2 * pow2((j - 1) as nat),
            e1 == d * pow2((j - 1) as nat),
    ;
    lemma_pow_adds(base, e1, e1);
    lemma_mul_mod_noop_general(pow(base, e1), pow(base, e1), n);
}

/// Once the doubled exponent `d * 2^j` has reached `bound`, and `bound` is
/// at least `n - 1`, no later doubling stays below `n - 1`.
proof fn lemma_no_later_square(n: int, d: nat, base: int, j: nat, bound: int)
    requires
        d >= 1,
        d * pow2(j) >= bound,
        bound >= n - 1,
    ensures
        forall|i: nat|
            j <= i ==> !(d * pow2(i) < n - 1 && pow_mod(base, d * #[trigger] pow2(i), n) == n - 1),
{
    assert forall|i: nat| j <= i implies !(d * pow2(i) < n - 1 && pow_mod(
        base,
        d * #[trigger] pow2(i),
        n,
    ) == n - 1) by {
        if j < i {
            lemma_pow2_strictly_increases(j, i);
        }
        assert(d * pow2(i) >= d * pow2(j)) by (nonlinear_arith)
            requires
                pow2(i) >= pow2(j),
                d >= 1,
        ;
    }
}

/// The bytes `raw` with the highest bit of the last one set.
pub open spec fn with_top_bit(raw: Seq<u8>) -> Seq<u8> {
    raw.update(raw.len() - 1, raw.last() | 0x80)
}

/// The number that a raw sample stands for: its bytes, least significant
/// first, with the highest bit forced to one, so that the number has as
/// many bits as the sample.
pub open spec fn sample_value(raw: Seq<u8>) -> int {
    le_nat(with_top_bit(raw)) as int
}

/// `v` with its lowest bit set.
pub open spec fn forced_odd(v: int) -> int {
    if v % 2 == 0 {
        v + 1
    } else {
        v
    }
}

/// Where a sample lands in `[min, max)`: it is reduced modulo one less than
/// the width of the range and moved up by `min`; a range of one value has
/// that value.
pub open spec fn range_value(sample: int, min: int, max: int) -> int {
    if max - min == 1 {
        min
    } else {
        min + sample % (max - min - 1)
    }
}

/// The key of a raw sample of one to 511 bytes: the bytes, least
/// significant first, with the highest bit of the last byte set.
pub fn key_from_sample(raw: &Vec<u8>) -> (r: Result<Key, KeygenError>)
    ensures
        r is Ok <==> 1 <= raw.len() <= MAX_SAMPLE_BYTES,
        r matches Ok(k) ==> k@ == sample_value(raw@) && pow2((8 * raw.len() - 1) as nat) <= k@
            < pow2(8 * raw.len() as nat),
        r matches Err(err) ==> err == KeygenError::InvalidArgument,
{
    let n = raw.len();
    if n == 0 || n > MAX_SAMPLE_BYTES {
        return Err(KeygenError::InvalidArgument);
    }
    let mut bytes = [0u8;512];
    let mut i: usize = 0;
    while i < n
        invariant
            i <= n,
            n == raw.len(),
            n <= 511,
            forall|j: int| 0 <= j < i ==> bytes@[j] == raw@[j],
            forall|j: int| i <= j < 512 ==> bytes@[j] == 0,
        decreases n - i,
    {
        bytes[i] = raw[i];
        i += 1;
    }
    let last = raw[n - 1];
    let top = last | 0x80;
    bytes[n - 1] = top;
    let k = Key { bytes };
    proof {
        let shaped = with_top_bit(raw@);
        lemma_view_of_unsigned(k, n as nat);
        assert(k.bytes@.take(n as int) =~= shaped);
        lemma_le_nat_take_step(shaped, (n - 1) as nat);
        assert(shaped.take(n as int) =~= shaped);
        assert(top >= 128) by (bit_vector)
            requires
                top == last | 0x80,
        ;
        lemma_pow2_adds(7, (8 * (n - 1)) as nat);
        lemma2_to64();
        let unit = pow2((8 * (n - 1)) as nat);
        assert((top as nat) * unit >= 128 * unit) by (nonlinear_arith)
            requires
                top >= 128,
        ;
    }
    Ok(k)
}

/// The key `k` with its lowest bit set.
pub fn force_odd(k: Key) -> (r: Key)
    ensures
        r@ == forced_odd(k@),
        r@ % 2 == 1,
{
    let mut bytes = k.bytes;
    let low = bytes[0];
    bytes[0] = low | 1;
    let r = Key { bytes };
    proof {
        reveal(twos_complement);
        assert(r.bytes@ =~= k.bytes@.update(0, low | 1));
        lemma_le_nat_set_low(k.bytes@, low | 1);
        lemma_view_parity(k);
        lemma_view_parity(r);
        assert((low | 1) == (if low % 2 == 0 {
            low + 1
        } else {
            low as int
        }) && (low | 1) % 2 == 1) by (bit_vector);
        lemma_pow2_unfold(4095);
        lemma_pow2_unfold(4096);
        lemma_le_nat_bound(k.bytes@);
    }
    r
}

/// Brings a sample into `[min, max)`: it is reduced modulo one less than
/// the width of the range and moved up by `min`. This is not uniform where
/// the width does not divide the number of samples. A negative sample, an
/// empty range and a range wider than a key are turned away.
pub fn reduce_to_range(sample: Key, min: Key, max: Key) -> (r: Result<Key, KeygenError>)
    ensures
        r is Ok <==> sample@ >= 0 && min@ < max@ && key_fits(max@ - min@),
        r matches Ok(k) ==> k@ == range_value(sample@, min@, max@) && min@ <= k@ < max@,
        r matches Err(err) ==> err == KeygenError::InvalidArgument,
{
    if sample.is_negative() || !min.less_than(&max) {
        return Err(KeygenError::InvalidArgument);
    }
    let width = match max.checked_minus(&min) {
        Some(width) => width,
        None => {
            return Err(KeygenError::InvalidArgument);
        },
    };
    proof {
        lemma_key_range(width);
        lemma_key_range(max);
        lemma_key_range(min);
    }
    let modulus = width.minus(&Key::one());
    if modulus.is_zero() {
        return Ok(min);
    }
    proof {
        lemma_mod_bound(sample@, modulus@);
    }
    Ok(min.plus(&sample.modulo(&modulus)))
}

/// The odd part of `n`: what is left when every factor two is taken out.
pub open spec fn odd_part(n: nat) -> nat
    decreases n,
{
    if n == 0 {
        0
    } else if n % 2 == 1 {
        n
    } else {
        odd_part(n / 2)
    }
}

/// Whether `n` passes a round of the Miller-Rabin test to each of `bases`,
/// every one of them in `[2, n - 1)`.
pub open spec fn passes_rounds(n: int, bases: Seq<int>) -> bool {
    forall|i: int|
        0 <= i < bases.len() ==> 2 <= #[trigger] bases[i] < n - 1 && strong_probable_prime(
            n,
            odd_part((n - 1) as nat),
            bases[i],
        )
}

/// What the Miller-Rabin test has shown of a number that it accepts after
/// `rounds` rounds: it is two or three, or it is odd, at least five, and
/// passes a round to each of `rounds` bases.
pub open spec fn probable_prime(n: int, rounds: nat) -> bool {
    n == 2 || n == 3 || (n >= 5 && n % 2 == 1 && exists|bases: Seq<int>|
        bases.len() == rounds && #[trigger] passes_rounds(n, bases))
}

/// The source of the random keys: the byte length of the keys it draws, the
/// number of attempts that a search may make, and a random generator of its
/// own.
pub struct NumberHandler {
    key_byte_size: usize,
    max_attempts: u64,
    rng: ThreadRng,
}

impl NumberHandler {
    /// The byte length of the keys that the handler draws.
    pub closed spec fn byte_size(&self) -> nat {
        self.key_byte_size as nat
    }

    /// The number of attempts that a search may make before it gives up.
    pub closed spec fn retry_cap(&self) -> nat {
        self.max_attempts as nat
    }

    /// The handler's random generator.
    pub closed spec fn generator(&self) -> ThreadRng {
        self.rng
    }

    /// Whether the handler can draw keys: the byte length is at least one
    /// and leaves the sign bit of a key clear.
    pub open spec fn can_sample(&self) -> bool {
        1 <= self.byte_size() <= MAX_SAMPLE_BYTES
    }

    /// Whether the handler can draw primes: the byte length is less than
    /// half that of a key, so that the square of a candidate is the value
    /// of a key.
    pub open spec fn can_search(&self) -> bool {
        1 <= self.byte_size() <= MAX_PRIME_BYTES
    }

    /// Whether `k` has the shape of a key that the handler draws: the
    /// highest bit of its byte length is set.
    pub open spec fn draws(&self, k: int) -> bool {
        pow2((8 * self.byte_size() - 1) as nat) <= k < pow2(8 * self.byte_size())
    }

    /// A handler that draws keys of `key_byte_size` bytes, with a search
    /// that all but never gives up.
    pub fn new(key_byte_size: usize) -> (r: Self)
        ensures
            r.byte_size() == key_byte_size,
            r.retry_cap() == u64::MAX,
    {
        Self { key_byte_size, max_attempts: u64::MAX, rng: thread_rng() }
    }

    /// A handler that draws keys of `key_byte_size` bytes and gives a
    /// search up after `max_attempts` attempts.
    pub fn with_retry_cap(key_byte_size: usize, max_attempts: u64) -> (r: Self)
        ensures
            r.byte_size() == key_byte_size,
            r.retry_cap() == max_attempts,
    {
        Self { key_byte_size, max_attempts, rng: thread_rng() }
    }

    /// The byte length of the keys that the handler draws.
    pub fn key_byte_size(&self) -> (r: usize)
        ensures
            r == self.byte_size(),
    {
        self.key_byte_size
    }

    /// The number of attempts that a search may make.
    pub fn max_attempts(&self) -> (r: u64)
        ensures
            r == self.retry_cap(),
    {
        self.max_attempts
    }

    /// The handler's random generator, to draw from: what the borrower
    /// leaves of it is the handler's generator afterwards.
    pub fn get_rng(&mut self) -> (rng: &mut ThreadRng)
        ensures
            *rng == old(self).generator(),
            final(self).generator() == *final(rng),
            final(self).byte_size() == old(self).byte_size(),
            final(self).retry_cap() == old(self).retry_cap(),
    {
        &mut self.rng
    }

    /// The next random byte.
    pub fn get_random_u8(&mut self) -> (r: u8)
        ensures
            final(self).byte_size() == old(self).byte_size(),
            final(self).retry_cap() == old(self).retry_cap(),
    {
        next_random_u8(&mut self.rng)
    }

    /// A random key of exactly `byte_count` bytes: that many random bytes,
    /// with the highest bit of the last one forced to one. There is one for
    /// one to 511 bytes.
    pub fn get_random_n_byte_key(&mut self, byte_count: usize) -> (r: Result<Key, KeygenError>)
        ensures
            final(self).byte_size() == old(self).byte_size(),
            final(self).retry_cap() == old(self).retry_cap(),
            r is Ok <==> 1 <= byte_count <= MAX_SAMPLE_BYTES,
            r matches Ok(k) ==> pow2((8 * byte_count - 1) as nat) <= k@ < pow2(8 * byte_count as nat)
                && exists|raw: Seq<u8>| raw.len() == byte_count && k@ == #[trigger] sample_value(raw),
            r matches Err(err) ==> err == KeygenError::InvalidArgument,
    {
        if byte_count == 0 || byte_count > MAX_SAMPLE_BYTES {
            return Err(KeygenError::InvalidArgument);
        }
        let mut raw: Vec<u8> = Vec::new();
        let mut ind: usize = 0;
        while ind < byte_count
            invariant
                ind <= byte_count,
                raw.len() == ind,
                self.byte_size() == old(self).byte_size(),
                self.retry_cap() == old(self).retry_cap(),
            decreases byte_count - ind,
        {
            let byte = self.get_random_u8();
            raw.push(byte);
            ind += 1;
        }
        let r = key_from_sample(&raw);
        proof {
            if r is Ok {
                assert(r->Ok_0@ == sample_value(raw@));
            }
        }
        r
    }

    /// A random key of the handler's byte length, odd where `ensure_odd`.
    pub fn get_random_key(&mut self, ensure_odd: bool) -> (r: Result<Key, KeygenError>)
        ensures
            final(self).byte_size() == old(self).byte_size(),
            final(self).retry_cap() == old(self).retry_cap(),
            r is Ok <==> old(self).can_sample(),
            r matches Ok(k) ==> old(self).draws(k@) && (ensure_odd ==> k@ % 2 == 1)
                && exists|raw: Seq<u8>|
                raw.len() == old(self).byte_size() && k@ == (if ensure_odd {
                    forced_odd(#[trigger] sample_value(raw))
                } else {
                    sample_value(raw)
                }),
            r matches Err(err) ==> err == KeygenError::InvalidArgument,
    {
        let size = self.key_byte_size;
        let k = match self.get_random_n_byte_key(size) {
            Ok(k) => k,
            Err(err) => {
                return Err(err);
            },
        };
        if ensure_odd {
            proof {
                lemma_pow2_unfold(8 * size as nat);
                let raw = choose|raw: Seq<u8>| raw.len() == size && k@ == #[trigger] sample_value(raw);
                assert(forced_odd(k@) == forced_odd(sample_value(raw)));
            }
            Ok(force_odd(k))
        } else {
            Ok(k)
        }
    }

    /// A random key in `[min, max)`: a key of the handler's byte length,
    /// brought into the range by `reduce_to_range`.
    pub fn get_random_key_range(&mut self, min: Key, max: Key, ensure_odd: bool) -> (r: Result<
        Key,
        KeygenError,
    >)
        ensures
            final(self).byte_size() == old(self).byte_size(),
            final(self).retry_cap() == old(self).retry_cap(),
            r is Ok <==> old(self).can_sample() && min@ < max@ && key_fits(max@ - min@),
            r matches Ok(k) ==> min@ <= k@ < max@ && exists|sample: int|
                old(self).draws(sample) && k@ == #[trigger] range_value(sample, min@, max@),
            r matches Err(err) ==> err == KeygenError::InvalidArgument,
    {
        let sample = match self.get_random_key(ensure_odd) {
            Ok(sample) => sample,
            Err(err) => {
                return Err(err);
            },
        };
        let r = reduce_to_range(sample, min, max);
        proof {
            if r is Ok {
                assert(r->Ok_0@ == range_value(sample@, min@, max@));
            }
        }
        r
    }

    /// The Miller-Rabin test of `num` with `iterations` random bases.
    ///
    /// A number below four is accepted where it is two or three, and an
    /// even number is rejected. For the rest, `num - 1` is split into a
    /// power of two and an odd part, and for each round a base is drawn from
    /// `[2, num - 1)` and run through `number_passes_miller_rabin` with
    /// that odd part: the first round that fails rejects the number, and
    /// the number is accepted where none does. A prime is never rejected;
    /// a composite is accepted with a chance of at most a quarter per
    /// round, which nothing here proves.
    pub fn miller_rabin_prime_test(&mut self, num: Key, iterations: u8) -> (r: Result<
        bool,
        KeygenError,
    >)
        ensures
            final(self).byte_size() == old(self).byte_size(),
            final(self).retry_cap() == old(self).retry_cap(),
            r is Ok <==> num@ < 4 || num@ % 2 == 0 || (valid_modulus(num@) && (iterations == 0
                || old(self).can_sample())),
            r matches Ok(accepted) ==> (accepted ==> probable_prime(num@, iterations as nat)) && (
            !accepted ==> !is_prime(num@)),
            r matches Err(err) ==> err == KeygenError::InvalidArgument,
            in_first_primes(num@) && (iterations == 0 || old(self).can_sample()) ==> r == Ok::<
                bool,
                KeygenError,
            >(true),
    {
        proof {
            if in_first_primes(num@) {
                lemma_table_entry_is_prime(num@);
                lemma_small_modulus_is_valid(num@);
            }
        }
        let one = Key::one();
        let two = Key::from_u64(2);
        let three = Key::from_u64(3);
        let four = Key::from_u64(4);
        if num.less_than(&four) {
            let accepted = num.equals(&two) || num.equals(&three);
            proof {
                if accepted {
                    assert(probable_prime(num@, iterations as nat));
                }
            }
            return Ok(accepted);
        }
        if !num.is_odd() {
            proof {
                // two is a divisor between one and the number
                assert(num@ % 2 == 0);
            }
            return Ok(false);
        }
        if !is_valid_modulus(&num) {
            return Err(KeygenError::InvalidArgument);
        }
        proof {
            lemma_key_range(num);
            lemma2_to64();
        }
        let top = num.minus(&one);
        // find 2^s * m = num - 1 with m odd
        let mut m = top;
        let ghost n = num@;
        let ghost mut s: nat = 0;
        proof {
            assert(m@ * pow2(0) == n - 1) by (nonlinear_arith)
                requires
                    m@ == n - 1,
                    pow2(0) == 1,
            ;
        }
        while !m.is_odd()
            invariant
                m@ >= 1,
                m@ * pow2(s) == n - 1,
                odd_part(m@ as nat) == odd_part((n - 1) as nat),
            decreases m@,
        {
            proof {
                lemma_pow2_unfold(s + 1);
                let half = m@ / 2;
                assert(half * pow2(s + 1) == n - 1) by (nonlinear_arith)
                    requires
                        m@ == 2 * half,
                        m@ * pow2(s) == n - 1,
                        pow2(s + 1) == 2 * pow2(s),
                ;
            }
            m = m.half();
            proof {
                s = s + 1;
            }
        }
        let ghost d = m@ as nat;
        let ghost mut bases: Seq<int> = Seq::empty();
        let mut iter: u8 = 0;
        while iter < iterations
            invariant
                iter <= iterations,
                self.byte_size() == old(self).byte_size(),
                self.retry_cap() == old(self).retry_cap(),
                n == num@,
                n >= 5,
                n % 2 == 1,
                valid_modulus(n),
                top@ == n - 1,
                two@ == 2,
                d == m@,
                d >= 1,
                d == odd_part((n - 1) as nat),
                d * pow2(s) == n - 1,
                bases.len() == iter,
                passes_rounds(n, bases),
                iter > 0 ==> old(self).can_sample(),
                in_first_primes(n) ==> is_prime(n),
            decreases iterations - iter,
        {
            proof {
                lemma_key_range(top);
            }
            let base = match self.get_random_key_range(two, top, false) {
                Ok(base) => base,
                Err(err) => {
                    return Err(err);
                },
            };
            match number_passes_miller_rabin(m, num, base) {
                Ok(true) => {
                    proof {
                        let longer = bases.push(base@);
                        assert forall|i: int| 0 <= i < longer.len() implies 2 <= #[trigger] longer[i]
                            < n - 1 && strong_probable_prime(
                            n,
                            odd_part((n - 1) as nat),
                            longer[i],
                        ) by {
                            if i < bases.len() {
                                assert(longer[i] == bases[i]);
                            }
                        }
                        bases = longer;
                    }
                },
                Ok(false) => {
                    proof {
                        if is_prime(n) {
                            lemma_small_mod(base@ as nat, n as nat);
                            lemma_prime_is_strong_probable_prime(n, d, s, base@);
                        }
                    }
                    return Ok(false);
                },
                Err(err) => {
                    return Err(err);
                },
            }
            iter += 1;
        }
        proof {
            assert(bases.len() == iterations && passes_rounds(n, bases));
        }
        Ok(true)
    }

    /// A random probable prime of the handler's byte length: odd candidates
    /// are drawn until one passes the sieve and the Miller-Rabin test with
    /// `iterations` rounds, or the attempts are used up.
    pub fn get_random_prime(&mut self, iterations: u8) -> (r: Result<Key, KeygenError>)
        ensures
            final(self).byte_size() == old(self).byte_size(),
            final(self).retry_cap() == old(self).retry_cap(),
            r == Err::<Key, KeygenError>(KeygenError::InvalidArgument) <==> !old(self).can_search(),
            r matches Ok(p) ==> old(self).draws(p@) && p@ % 2 == 1 && sieve_passes(p@)
                && probable_prime(p@, iterations as nat),
            r matches Err(err) ==> err == KeygenError::InvalidArgument || err
                == KeygenError::ExhaustedSearch,
            old(self).can_search() && old(self).retry_cap() == 0 ==> r is Err,
    {
        if self.key_byte_size == 0 || self.key_byte_size > MAX_PRIME_BYTES {
            return Err(KeygenError::InvalidArgument);
        }
        let mut attempts: u64 = 0;
        while attempts < self.max_attempts
            invariant
                self.byte_size() == old(self).byte_size(),
                self.retry_cap() == old(self).retry_cap(),
                old(self).can_search(),
            decreases self.max_attempts - attempts,
        {
            // make sure the candidate is odd
            let candidate = match self.get_random_key(true) {
                Ok(candidate) => candidate,
                Err(err) => {
                    return Err(err);
                },
            };
            proof {
                lemma_candidate_is_valid_modulus(candidate@, self.byte_size());
            }
            if passes_sieve(&candidate) {
                match self.miller_rabin_prime_test(candidate, iterations) {
                    Ok(true) => {
                        return Ok(candidate);
                    },
                    Ok(false) => {},
                    Err(err) => {
                        return Err(err);
                    },
                }
            }
            attempts += 1;
        }
        Err(KeygenError::ExhaustedSearch)
    }

    /// A random probable prime other than `last_prime`.
    pub fn get_different_random_prime(&mut self, iterations: u8, last_prime: Key) -> (r: Result<
        Key,
        KeygenError,
    >)
        ensures
            final(self).byte_size() == old(self).byte_size(),
            final(self).retry_cap() == old(self).retry_cap(),
            r == Err::<Key, KeygenError>(KeygenError::InvalidArgument) <==> !old(self).can_search(),
            r matches Ok(p) ==> p@ != last_prime@ && old(self).draws(p@) && p@ % 2 == 1
                && sieve_passes(p@) && probable_prime(p@, iterations as nat),
            r matches Err(err) ==> err == KeygenError::InvalidArgument || err
                == KeygenError::ExhaustedSearch,
            old(self).can_search() && old(self).retry_cap() == 0 ==> r is Err,
    {
        if self.key_byte_size == 0 || self.key_byte_size > MAX_PRIME_BYTES {
            return Err(KeygenError::InvalidArgument);
        }
        let mut attempts: u64 = 0;
        while attempts < self.max_attempts
            invariant
                self.byte_size() == old(self).byte_size(),
                self.retry_cap() == old(self).retry_cap(),
                old(self).can_search(),
            decreases self.max_attempts - attempts,
        {
            let prime = match self.get_random_prime(iterations) {
                Ok(prime) => prime,
                Err(err) => {
                    return Err(err);
                },
            };
            if !prime.equals(&last_prime) {
                return Ok(prime);
            }
            attempts += 1;
        }
        Err(KeygenError::ExhaustedSearch)
    }

    /// A random key of the handler's byte length that is coprime to
    /// `coprime`.
    pub fn gen_random_coprime(&mut self, coprime: Key) -> (r: Result<Key, KeygenError>)
        ensures
            final(self).byte_size() == old(self).byte_size(),
            final(self).retry_cap() == old(self).retry_cap(),
            r == Err::<Key, KeygenError>(KeygenError::InvalidArgument) <==> !old(self).can_sample(),
            r matches Ok(k) ==> old(self).draws(k@) && number_theory::coprime(coprime@, k@),
            r matches Err(err) ==> err == KeygenError::InvalidArgument || err
                == KeygenError::ExhaustedSearch,
            old(self).can_sample() && old(self).retry_cap() == 0 ==> r is Err,
    {
        if self.key_byte_size == 0 || self.key_byte_size > MAX_SAMPLE_BYTES {
            return Err(KeygenError::InvalidArgument);
        }
        let mut attempts: u64 = 0;
        while attempts < self.max_attempts
            invariant
                self.byte_size() == old(self).byte_size(),
                self.retry_cap() == old(self).retry_cap(),
                old(self).can_sample(),
            decreases self.max_attempts - attempts,
        {
            let prime = match self.get_random_key(false) {
                Ok(prime) => prime,
                Err(err) => {
                    return Err(err);
                },
            };
            if are_coprime(coprime, prime) {
                return Ok(prime);
            }
            attempts += 1;
        }
        Err(KeygenError::ExhaustedSearch)
    }

    /// A random key in `[min, max)` that is coprime to `coprime`.
    pub fn gen_random_coprime_number_in_range(&mut self, min: Key, max: Key, coprime: Key) -> (r:
        Result<Key, KeygenError>)
        ensures
            final(self).byte_size() == old(self).byte_size(),
            final(self).retry_cap() == old(self).retry_cap(),
            r == Err::<Key, KeygenError>(KeygenError::InvalidArgument) <==> !(old(self).can_sample()
                && min@ < max@ && key_fits(max@ - min@)),
            r matches Ok(k) ==> min@ <= k@ < max@ && number_theory::coprime(coprime@, k@),
            r matches Err(err) ==> err == KeygenError::InvalidArgument || err
                == KeygenError::ExhaustedSearch,
            old(self).retry_cap() == 0 ==> r is Err,
    {
        if self.key_byte_size == 0 || self.key_byte_size > MAX_SAMPLE_BYTES || !min.less_than(&max)
            || max.checked_minus(&min).is_none() {
            return Err(KeygenError::InvalidArgument);
        }
        let mut attempts: u64 = 0;
        while attempts < self.max_attempts
            invariant
                self.byte_size() == old(self).byte_size(),
                self.retry_cap() == old(self).retry_cap(),
                old(self).can_sample(),
                min@ < max@,
                key_fits(max@ - min@),
            decreases self.max_attempts - attempts,
        {
            let prime = match self.get_random_key_range(min, max, false) {
                Ok(prime) => prime,
                Err(err) => {
                    return Err(err);
                },
            };
            if are_coprime(coprime, prime) {
                return Ok(prime);
            }
            attempts += 1;
        }
        Err(KeygenError::ExhaustedSearch)
    }
}

/// A number above one that fits 32 bits can be the modulus of a modular
/// power.
proof fn lemma_small_modulus_is_valid(n: int)
    requires
        1 < n < 0x1_0000_0000,
    ensures
        valid_modulus(n),
{
    lemma2_to64();
    lemma_pow2_strictly_increases(64, 4095);
    assert(0 <= n * n < 0x1_0000_0000_0000_0000) by (nonlinear_arith)
        requires
            1 < n < 0x1_0000_0000,
    ;
}

/// A key that the handler draws for a prime search can be the modulus of a
/// modular power: with at most 255 bytes, its square is the value of a key.
proof fn lemma_candidate_is_valid_modulus(c: int, size: nat)
    requires
        1 <= size <= MAX_PRIME_BYTES,
        pow2((8 * size - 1) as nat) <= c < pow2(8 * size),
    ensures
        valid_modulus(c),
        c >= 128,
{
    lemma2_to64();
    if 7 < 8 * size - 1 {
        lemma_pow2_strictly_increases(7, (8 * size - 1) as nat);
    }
    let bound = pow2(8 * size) as int;
    lemma_pow2_adds(8 * size, 8 * size);
    if 16 * size < 4095 {
        lemma_pow2_strictly_increases(16 * size, 4095);
    }
    assert(c * c < bound * bound) by (nonlinear_arith)
        requires
            0 <= c < bound,
    ;
    assert(c * c >= 0) by (nonlinear_arith);
}

/// An RSA key pair: the two exponents, and the modulus that they share.
#[derive(Clone, Copy, Debug, PartialEq, Eq)]
pub struct RSAKeyInfo {
    pub public: Key,
    pub private: Key,
    pub shared: Key,
}

/// Whether `keys` is the key pair of the two numbers `p` and `q`: they
/// differ, the modulus is their product, and the exponents lie below
/// `(p - 1) * (q - 1)` and are inverse to each other modulo it.
pub open spec fn is_keypair(keys: RSAKeyInfo, p: int, q: int) -> bool {
    let phi = (p - 1) * (q - 1);
    &&& p != q
    &&& keys.shared@ == p * q
    &&& 1 < keys.private@ < phi
    &&& 0 <= keys.public@ < phi
    &&& (keys.public@ * keys.private@) % phi == 1
}

/// What is encrypted with one exponent of a key pair of two primes is
/// decrypted with the other: raising to the private exponent and then to the
/// public one, modulo the shared modulus, gives back every payload below
/// the modulus.
pub proof fn lemma_keypair_round_trip(keys: RSAKeyInfo, p: int, q: int, m: int)
    requires
        is_keypair(keys, p, q),
        is_prime(p),
        is_prime(q),
        0 <= m < keys.shared@,
    ensures
        pow_mod(
            pow_mod(m, keys.private@ as nat, keys.shared@),
            keys.public@ as nat,
            keys.shared@,
        ) == m,
        pow_mod(
            pow_mod(m, keys.public@ as nat, keys.shared@),
            keys.private@ as nat,
            keys.shared@,
        ) == m,
{
    lemma_rsa_round_trip(m, keys.public@, keys.private@, p, q);
    lemma_mul_is_commutative(keys.public@, keys.private@);
    lemma_rsa_round_trip(m, keys.private@, keys.public@, p, q);
}

} // verus!
