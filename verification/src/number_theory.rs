//! The arithmetic facts that key generation rests on: greatest common
//! divisors, primes, modular powers, and the theorems of Bezout, Euclid and
//! Fermat that tie them together.

use vstd::arithmetic::div_mod::*;
use vstd::arithmetic::mul::*;
use vstd::arithmetic::power::*;
use vstd::arithmetic::power2::*;
use vstd::prelude::*;

verus! {

/// The magnitude of `x`.
pub open spec fn abs(x: int) -> nat {
    if x < 0 {
        (-x) as nat
    } else {
        x as nat
    }
}

/// The greatest common divisor of `a` and `b`, by Euclid's recursion;
/// `gcd(0, 0)` is `0`. That this is the greatest of the common divisors is
/// `lemma_gcd_is_greatest`.
pub open spec fn gcd(a: nat, b: nat) -> nat
    decreases b,
{
    if b == 0 {
        a
    } else {
        gcd(b, a % b)
    }
}

/// Whether `a` and `b` have no common divisor above one.
pub open spec fn coprime(a: int, b: int) -> bool {
    gcd(abs(a), abs(b)) == 1
}

/// Whether `p` is a prime number.
pub open spec fn is_prime(p: int) -> bool {
    p >= 2 && forall|d: int| 1 < d < p ==> #[trigger] (p % d) != 0
}

/// `base` to the power `exp`, reduced into `[0, modulus)`.
pub open spec fn pow_mod(base: int, exp: nat, modulus: int) -> int {
    pow(base, exp) % modulus
}

/// Whether `n` passes one round of the Miller-Rabin test to the base `a`,
/// where `d` is the mantissa that the round starts from: `a^d` is one or
/// minus one modulo `n`, or one of the squarings whose exponent `d * 2^j`
/// stays below `n - 1` gives minus one.
pub open spec fn strong_probable_prime(n: int, d: nat, a: int) -> bool {
    ||| pow_mod(a, d, n) == 1
    ||| pow_mod(a, d, n) == n - 1
    ||| exists|j: nat|
        1 <= j && d * pow2(j) < n - 1 && pow_mod(a, d * #[trigger] pow2(j), n) == n - 1
}

/// A multiple of `d` leaves no remainder on division by `d`.
pub proof fn lemma_multiple_has_no_remainder(k: int, d: int)
    requires
        d > 0,
    ensures
        (k * d) % d == 0,
        (d * k) % d == 0,
{
    lemma_mod_multiples_basic(k, d);
    lemma_mul_is_commutative(k, d);
}

/// What leaves no remainder on division by `d` is `d` times the quotient.
pub proof fn lemma_no_remainder_is_multiple(n: int, d: int)
    requires
        d > 0,
        n % d == 0,
    ensures
        n == d * (n / d),
{
    lemma_fundamental_div_mod(n, d);
}

/// What divides a number divides its negative.
pub proof fn lemma_divides_negative(x: int, d: int)
    requires
        d > 0,
        x % d == 0,
    ensures
        (-x) % d == 0,
{
    lemma_no_remainder_is_multiple(x, d);
    let k = x / d;
    assert(-x == (-k) * d) by (nonlinear_arith)
        requires
            x == d * k,
    ;
    lemma_multiple_has_no_remainder(-k, d);
}

/// Bezout's identity: the greatest common divisor of `a` and `b` is an
/// integer combination of them. The coefficients are returned.
pub proof fn lemma_bezout(a: nat, b: nat) -> (c: (int, int))
    ensures
        a * c.0 + b * c.1 == gcd(a, b),
    decreases b,
{
    if b == 0 {
        (1, 0)
    } else {
        let q = (a / b) as int;
        let r = (a % b) as int;
        let (x1, y1) = lemma_bezout(b, (a % b) as nat);
        let g = gcd(a, b) as int;
        lemma_fundamental_div_mod(a as int, b as int);
        let ai = a as int;
        let bi = b as int;
        let x = y1;
        let y = x1 - q * y1;
        assert(ai * x + bi * y == g) by (nonlinear_arith)
            requires
                ai == bi * q + r,
                bi * x1 + r * y1 == g,
                x == y1,
                y == x1 - q * y1,
        ;
        (x, y)
    }
}

/// Unless both are zero, the greatest common divisor of `a` and `b` is
/// positive and divides each of them.
pub proof fn lemma_gcd_divides(a: nat, b: nat)
    requires
        a > 0 || b > 0,
    ensures
        gcd(a, b) > 0,
        a % gcd(a, b) == 0,
        b % gcd(a, b) == 0,
    decreases b,
{
    if b == 0 {
        lemma_mod_self_0(a as int);
    } else {
        let q = (a / b) as int;
        let r = (a % b) as int;
        lemma_gcd_divides(b, (a % b) as nat);
        let g = gcd(a, b) as int;
        lemma_fundamental_div_mod(a as int, b as int);
        lemma_no_remainder_is_multiple(b as int, g);
        lemma_no_remainder_is_multiple(r, g);
        let kb = (b as int) / g;
        let kr = r / g;
        let ai = a as int;
        let bi = b as int;
        assert(ai == (kb * q + kr) * g) by (nonlinear_arith)
            requires
                ai == bi * q + r,
                bi == g * kb,
                r == g * kr,
        ;
        lemma_multiple_has_no_remainder(kb * q + kr, g);
    }
}

/// Every common divisor of `a` and `b` divides their greatest common divisor.
pub proof fn lemma_common_divisor_divides_gcd(a: nat, b: nat, d: int)
    requires
        d > 0,
        (a as int) % d == 0,
        (b as int) % d == 0,
    ensures
        (gcd(a, b) as int) % d == 0,
{
    let (x, y) = lemma_bezout(a, b);
    lemma_no_remainder_is_multiple(a as int, d);
    lemma_no_remainder_is_multiple(b as int, d);
    let ka = (a as int) / d;
    let kb = (b as int) / d;
    let ai = a as int;
    let bi = b as int;
    let g = gcd(a, b) as int;
    assert(g == (ka * x + kb * y) * d) by (nonlinear_arith)
        requires
            ai * x + bi * y == g,
            ai == d * ka,
            bi == d * kb,
    ;
    lemma_multiple_has_no_remainder(ka * x + kb * y, d);
}

/// The greatest common divisor is a common divisor, and no common divisor
/// is greater.
pub proof fn lemma_gcd_is_greatest(a: nat, b: nat)
    requires
        a > 0 || b > 0,
    ensures
        gcd(a, b) > 0,
        a % gcd(a, b) == 0,
        b % gcd(a, b) == 0,
        forall|d: int|
            d > 0 && #[trigger] ((a as int) % d) == 0 && #[trigger] ((b as int) % d) == 0 ==> d
                <= gcd(a, b),
{
    lemma_gcd_divides(a, b);
    assert forall|d: int|
        d > 0 && #[trigger] ((a as int) % d) == 0 && #[trigger] ((b as int) % d) == 0 implies d
        <= gcd(a, b) by {
        lemma_common_divisor_divides_gcd(a, b, d);
        lemma_mod_is_zero(gcd(a, b), d as nat);
    }
}

/// The order of the arguments does not matter to the greatest common divisor.
pub proof fn lemma_gcd_symmetric(a: nat, b: nat)
    ensures
        gcd(a, b) == gcd(b, a),
{
    if a == 0 && b == 0 {
    } else {
        lemma_gcd_divides(a, b);
        lemma_gcd_divides(b, a);
        lemma_common_divisor_divides_gcd(a, b, gcd(b, a) as int);
        lemma_common_divisor_divides_gcd(b, a, gcd(a, b) as int);
        lemma_mod_is_zero(gcd(a, b), gcd(b, a));
        lemma_mod_is_zero(gcd(b, a), gcd(a, b));
    }
}

/// A number and its remainder modulo `m` have the same common divisors with
/// `m`, hence the same greatest one: the sign of the number does not matter.
pub proof fn lemma_gcd_of_remainder(a: int, m: int)
    requires
        m > 0,
    ensures
        gcd(abs(a), m as nat) == gcd((a % m) as nat, m as nat),
{
    let r = a % m;
    let q = a / m;
    lemma_fundamental_div_mod(a, m);
    lemma_mod_bound(a, m);
    let g1 = gcd(abs(a), m as nat) as int;
    let g2 = gcd(r as nat, m as nat) as int;
    lemma_gcd_divides(abs(a), m as nat);
    lemma_gcd_divides(r as nat, m as nat);
    // g1 divides a, hence r
    assert(a % g1 == 0) by {
        if a < 0 {
            lemma_divides_negative(-a, g1);
        }
    }
    lemma_no_remainder_is_multiple(a, g1);
    lemma_no_remainder_is_multiple(m, g1);
    let ka = a / g1;
    let km = m / g1;
    assert(r == (ka - km * q) * g1) by (nonlinear_arith)
        requires
            a == m * q + r,
            a == g1 * ka,
            m == g1 * km,
    ;
    lemma_multiple_has_no_remainder(ka - km * q, g1);
    lemma_common_divisor_divides_gcd(r as nat, m as nat, g1);
    lemma_mod_is_zero(g2 as nat, g1 as nat);
    // g2 divides r, hence a and its magnitude
    lemma_no_remainder_is_multiple(r, g2);
    lemma_no_remainder_is_multiple(m, g2);
    let kr = r / g2;
    let kn = m / g2;
    assert(a == (kn * q + kr) * g2) by (nonlinear_arith)
        requires
            a == m * q + r,
            r == g2 * kr,
            m == g2 * kn,
    ;
    lemma_multiple_has_no_remainder(kn * q + kr, g2);
    assert((abs(a) as int) % g2 == 0) by {
        if a < 0 {
            lemma_divides_negative(a, g2);
        }
    }
    lemma_common_divisor_divides_gcd(abs(a), m as nat, g2);
    lemma_mod_is_zero(g1 as nat, g2 as nat);
}

/// Two even numbers are not coprime.
pub proof fn lemma_even_not_coprime(a: int, b: int)
    requires
        a % 2 == 0,
        b % 2 == 0,
    ensures
        !coprime(a, b),
{
    if a != 0 || b != 0 {
        let x = abs(a);
        let y = abs(b);
        assert((x as int) % 2 == 0) by {
            if a < 0 {
                lemma_divides_negative(a, 2);
            }
        }
        assert((y as int) % 2 == 0) by {
            if b < 0 {
                lemma_divides_negative(b, 2);
            }
        }
        lemma_common_divisor_divides_gcd(x, y, 2);
        lemma_gcd_divides(x, y);
    }
}

/// A prime shares no factor with a positive number below it.
pub proof fn lemma_gcd_below_prime(a: nat, p: nat)
    requires
        is_prime(p as int),
        0 < a < p,
    ensures
        gcd(a, p) == 1,
{
    lemma_gcd_divides(a, p);
    let g = gcd(a, p);
    lemma_mod_is_zero(a, g);
    if g > 1 {
        assert((p as int) % (g as int) != 0);
    }
}

/// Euclid's lemma: a prime that divides a product divides one of the factors.
pub proof fn lemma_euclid(p: int, a: int, b: int)
    requires
        is_prime(p),
        (a * b) % p == 0,
    ensures
        a % p == 0 || b % p == 0,
{
    if a % p != 0 {
        let a1 = a % p;
        let qa = a / p;
        lemma_fundamental_div_mod(a, p);
        lemma_gcd_below_prime(a1 as nat, p as nat);
        let (x, y) = lemma_bezout(a1 as nat, p as nat);
        lemma_no_remainder_is_multiple(a * b, p);
        let k = (a * b) / p;
        let ab = a * b;
        assert(b == (k * x - qa * b * x + b * y) * p) by (nonlinear_arith)
            requires
                a1 * x + p * y == 1,
                a == p * qa + a1,
                ab == a * b,
                ab == p * k,
        ;
        lemma_multiple_has_no_remainder(k * x - qa * b * x + b * y, p);
    }
}

/// An odd number shares no factor with a power of two.
pub proof fn lemma_power_of_two_coprime_to_odd(e: nat, b: int)
    requires
        b % 2 == 1,
    ensures
        gcd(pow2(e), abs(b)) == 1,
        gcd(abs(b), pow2(e)) == 1,
    decreases e,
{
    let y = abs(b);
    lemma_pow2_pos(e);
    lemma_gcd_divides(pow2(e), y);
    lemma_gcd_symmetric(pow2(e), y);
    let g = gcd(pow2(e), y) as int;
    if e == 0 {
        lemma2_to64();
        lemma_mod_is_zero(1, g as nat);
    } else {
        let half = pow2((e - 1) as nat) as int;
        lemma_pow2_unfold(e);
        lemma_power_of_two_coprime_to_odd((e - 1) as nat, b);
        // g is odd, as it divides the odd y
        assert((y as int) % 2 == 1) by {
            if b < 0 {
                lemma_fundamental_div_mod(b, 2);
                lemma_fundamental_div_mod_converse_mod(-b, 2, -(b / 2) - 1, 1);
            }
        }
        lemma_no_remainder_is_multiple(y as int, g);
        let c = (y as int) / g;
        if g % 2 == 0 {
            lemma_no_remainder_is_multiple(g, 2);
            let h = g / 2;
            assert(y as int == (h * c) * 2) by (nonlinear_arith)
                requires
                    y as int == g * c,
                    g == 2 * h,
            ;
            lemma_multiple_has_no_remainder(h * c, 2);
        }
        // so two divides the cofactor of g in 2 * half, and g divides half
        lemma_no_remainder_is_multiple(2 * half, g);
        let k = (2 * half) / g;
        assert((g * k) % 2 == 0) by {
            lemma_multiple_has_no_remainder(half, 2);
        }
        assert(is_prime(2));
        lemma_euclid(2, g, k);
        lemma_no_remainder_is_multiple(k, 2);
        let k2 = k / 2;
        assert(half == k2 * g) by (nonlinear_arith)
            requires
                2 * half == g * k,
                k == 2 * k2,
        ;
        lemma_multiple_has_no_remainder(k2, g);
        lemma_common_divisor_divides_gcd(half as nat, y, g);
        lemma_mod_is_zero(1, g as nat);
    }
}


/// A positive power is the base times the power one lower.
pub proof fn lemma_pow_unfold(b: int, e: nat)
    requires
        e > 0,
    ensures
        pow(b, e) == b * pow(b, (e - 1) as nat),
{
    reveal(pow);
}

/// The power zero is one, whatever the base, modulo every modulus above one.
pub proof fn lemma_pow_mod_zero(base: int, modulus: int)
    requires
        modulus > 1,
    ensures
        pow_mod(base, 0, modulus) == 1,
{
    lemma_pow0(base);
    lemma_small_mod(1, modulus as nat);
}

/// A square is the second power.
pub proof fn lemma_pow_of_square(x: int, h: nat)
    ensures
        pow(x * x, h) == pow(x, 2 * h),
        pow(x, 2 * h + 1) == x * pow(x * x, h),
{
    lemma_square_is_pow2(x);
    lemma_pow_multiplies(x, 2, h);
    lemma_pow_unfold(x, 2 * h + 1);
}

/// The number of ways to pick `k` out of `n`, by Pascal's rule.
spec fn binomial(n: nat, k: nat) -> nat
    decreases n,
{
    if k == 0 {
        1
    } else if n == 0 {
        0
    } else {
        binomial((n - 1) as nat, (k - 1) as nat) + binomial((n - 1) as nat, k)
    }
}

/// There is no way to pick more than there is.
proof fn lemma_binomial_above(n: nat, k: nat)
    requires
        k > n,
    ensures
        binomial(n, k) == 0,
    decreases n,
{
    if n > 0 {
        lemma_binomial_above((n - 1) as nat, (k - 1) as nat);
        lemma_binomial_above((n - 1) as nat, k);
    }
}

/// There is one way to pick all.
proof fn lemma_binomial_all(n: nat)
    ensures
        binomial(n, n) == 1,
    decreases n,
{
    if n > 0 {
        lemma_binomial_all((n - 1) as nat);
        lemma_binomial_above((n - 1) as nat, n);
    }
}

/// `k * C(n, k) == n * C(n - 1, k - 1)`.
proof fn lemma_binomial_absorb(n: nat, k: nat)
    requires
        n >= 1,
        k >= 1,
    ensures
        k * binomial(n, k) == n * binomial((n - 1) as nat, (k - 1) as nat),
    decreases n,
{
    let n1 = (n - 1) as nat;
    let k1 = (k - 1) as nat;
    if n == 1 {
        if k >= 2 {
            lemma_binomial_above(0, k1);
            lemma_binomial_above(0, k);
            lemma_binomial_above(1, k);
        } else {
            assert(binomial(1, 1) == binomial(0, 0) + binomial(0, 1));
        }
    } else {
        let n2 = (n - 2) as nat;
        lemma_binomial_absorb(n1, k);
        let c_nk = binomial(n, k) as int;
        let c_a = binomial(n1, k1) as int;
        let c_b = binomial(n1, k) as int;
        let c_c = binomial(n2, k1) as int;
        assert(c_nk == c_a + c_b);
        assert(k * c_b == n1 * c_c);
        if k >= 2 {
            let k2 = (k - 2) as nat;
            lemma_binomial_absorb(n1, k1);
            let c_d = binomial(n2, k2) as int;
            assert(k1 * c_a == n1 * c_d);
            assert(c_a == c_d + c_c);
            assert(k * c_nk == n * c_a) by (nonlinear_arith)
                requires
                    c_nk == c_a + c_b,
                    k * c_b == n1 * c_c,
                    k1 * c_a == n1 * c_d,
                    c_a == c_d + c_c,
                    k1 == k - 1,
                    n1 == n - 1,
            ;
        } else {
            assert(c_a == 1);
            assert(c_c == 1);
            assert(k * c_nk == n * c_a) by (nonlinear_arith)
                requires
                    c_nk == c_a + c_b,
                    k * c_b == n1 * c_c,
                    c_a == 1,
                    c_c == 1,
                    k == 1,
                    n1 == n - 1,
            ;
        }
    }
}

/// A prime divides each binomial coefficient of its own row but the two
/// at the ends.
proof fn lemma_prime_divides_binomial(p: nat, k: nat)
    requires
        is_prime(p as int),
        0 < k < p,
    ensures
        (binomial(p, k) as int) % (p as int) == 0,
{
    lemma_binomial_absorb(p, k);
    let c = binomial(p, k) as int;
    let c1 = binomial((p - 1) as nat, (k - 1) as nat) as int;
    assert(k * c == c1 * p) by (nonlinear_arith)
        requires
            k * c == p * c1,
    ;
    lemma_multiple_has_no_remainder(c1, p as int);
    lemma_euclid(p as int, k as int, c);
    lemma_small_mod(k, p);
}

/// The first `k + 1` terms of the binomial expansion of `(a + 1)^n`.
spec fn binom_sum(n: nat, a: int, k: nat) -> int
    decreases k,
{
    binomial(n, k) * pow(a, k) + if k == 0 {
        0
    } else {
        binom_sum(n, a, (k - 1) as nat)
    }
}

/// Pascal's rule, summed up: the expansion for `n + 1` from those for `n`.
proof fn lemma_binom_step(n: nat, a: int, k: nat)
    ensures
        binom_sum(n + 1, a, k + 1) == a * binom_sum(n, a, k) + binom_sum(n, a, k + 1),
    decreases k,
{
    let c_k = binomial(n, k) as int;
    let c_k1 = binomial(n, k + 1) as int;
    let c_up = binomial(n + 1, k + 1) as int;
    assert(c_up == c_k + c_k1);
    let pk = pow(a, k);
    let pk1 = pow(a, k + 1);
    lemma_pow_unfold(a, k + 1);
    assert(pk1 == a * pk);
    let lhs = binom_sum(n + 1, a, k + 1);
    let rhs_1 = binom_sum(n, a, k);
    let rhs_2 = binom_sum(n, a, k + 1);
    if k == 0 {
        lemma_pow0(a);
        assert(pk == 1);
        assert(binom_sum(n + 1, a, 0) == binomial(n + 1, 0) * pow(a, 0));
        assert(rhs_1 == c_k * pk);
        assert(c_k == 1);
        assert(lhs == c_up * pk1 + 1) by (nonlinear_arith)
            requires
                lhs == c_up * pk1 + binom_sum(n + 1, a, 0),
                binom_sum(n + 1, a, 0) == 1 * pk,
                pk == 1,
        ;
        assert(rhs_2 == c_k1 * pk1 + rhs_1);
        assert(lhs == a * rhs_1 + rhs_2) by (nonlinear_arith)
            requires
                lhs == c_up * pk1 + 1,
                c_up == c_k + c_k1,
                rhs_1 == c_k * pk,
                rhs_2 == c_k1 * pk1 + rhs_1,
                c_k == 1,
                pk == 1,
                pk1 == a * pk,
        ;
    } else {
        let km = (k - 1) as nat;
        lemma_binom_step(n, a, km);
        let low_up = binom_sum(n + 1, a, k);
        let low = binom_sum(n, a, km);
        assert(low_up == a * low + rhs_1);
        assert(lhs == c_up * pk1 + low_up);
        assert(rhs_1 == c_k * pk + low);
        assert(rhs_2 == c_k1 * pk1 + rhs_1);
        assert(lhs == a * rhs_1 + rhs_2) by (nonlinear_arith)
            requires
                lhs == c_up * pk1 + low_up,
                low_up == a * low + rhs_1,
                rhs_1 == c_k * pk + low,
                rhs_2 == c_k1 * pk1 + rhs_1,
                c_up == c_k + c_k1,
                pk1 == a * pk,
        ;
    }
}

/// The binomial theorem for `(a + 1)^n`.
proof fn lemma_binomial_theorem(n: nat, a: int)
    ensures
        pow(a + 1, n) == binom_sum(n, a, n),
    decreases n,
{
    if n == 0 {
        lemma_pow0(a + 1);
        lemma_pow0(a);
        assert(binom_sum(0, a, 0) == binomial(0, 0) * pow(a, 0));
    } else {
        let m = (n - 1) as nat;
        lemma_binomial_theorem(m, a);
        lemma_pow_unfold(a + 1, n);
        lemma_binom_step(m, a, m);
        lemma_binomial_above(m, n);
        let s = binom_sum(m, a, m);
        let t = binom_sum(m, a, n);
        let pn = pow(a, n);
        assert(t == binomial(m, n) * pn + s);
        assert(t == s) by (nonlinear_arith)
            requires
                t == 0 * pn + s,
        ;
        assert(pow(a + 1, n) == a * s + t) by (nonlinear_arith)
            requires
                pow(a + 1, n) == (a + 1) * s,
                t == s,
        ;
    }
}

/// Modulo a prime `p`, the expansion of `(a + 1)^p` cut before its last
/// term is one.
proof fn lemma_binom_sum_mod_prime(p: nat, a: int, k: nat)
    requires
        is_prime(p as int),
        k < p,
    ensures
        binom_sum(p, a, k) % (p as int) == 1,
    decreases k,
{
    let pi = p as int;
    if k == 0 {
        lemma_pow0(a);
        assert(binom_sum(p, a, 0) == binomial(p, 0) * pow(a, 0));
        lemma_small_mod(1, p);
    } else {
        lemma_binom_sum_mod_prime(p, a, (k - 1) as nat);
        lemma_prime_divides_binomial(p, k);
        let c = binomial(p, k) as int;
        let rest = binom_sum(p, a, (k - 1) as nat);
        lemma_no_remainder_is_multiple(c, pi);
        let q = c / pi;
        let pk = pow(a, k);
        assert(c * pk == (q * pk) * pi) by (nonlinear_arith)
            requires
                c == pi * q,
        ;
        lemma_mod_multiples_vanish(q * pk, rest, pi);
        assert(binom_sum(p, a, k) == pi * (q * pk) + rest) by (nonlinear_arith)
            requires
                binom_sum(p, a, k) == c * pk + rest,
                c * pk == (q * pk) * pi,
        ;
    }
}

/// Fermat's little theorem, in the form `a^p = a (mod p)`.
pub proof fn lemma_fermat_power_prime(a: nat, p: nat)
    requires
        is_prime(p as int),
    ensures
        pow(a as int, p) % (p as int) == (a as int) % (p as int),
    decreases a,
{
    let pi = p as int;
    if a == 0 {
        lemma0_pow(p);
    } else {
        let b = (a - 1) as int;
        lemma_fermat_power_prime((a - 1) as nat, p);
        lemma_binomial_theorem(p, b);
        lemma_binom_sum_mod_prime(p, b, (p - 1) as nat);
        lemma_binomial_all(p);
        let pb = pow(b, p);
        let rest = binom_sum(p, b, (p - 1) as nat);
        assert(pow(a as int, p) == pb + rest) by (nonlinear_arith)
            requires
                pow(a as int, p) == binomial(p, p) * pb + rest,
                binomial(p, p) == 1,
        ;
        lemma_add_mod_noop(pb, rest, pi);
        lemma_add_mod_noop(b, 1, pi);
        lemma_small_mod(1, p);
    }
}

/// Fermat's little theorem: where the prime `p` does not divide `a`,
/// `a^(p - 1) = 1 (mod p)`.
pub proof fn lemma_fermat_little(a: int, p: int)
    requires
        is_prime(p),
        a % p != 0,
    ensures
        pow_mod(a, (p - 1) as nat, p) == 1,
{
    let r = a % p;
    let e = (p - 1) as nat;
    lemma_pow_mod_noop(a, e, p);
    lemma_fermat_power_prime(r as nat, p as nat);
    lemma_small_mod(r as nat, p as nat);
    lemma_pow_unfold(r, p as nat);
    let x = pow(r, e);
    // r * x = r (mod p), so p divides r * (x - 1)
    lemma_fundamental_div_mod(r * x, p);
    let q = (r * x) / p;
    assert(r * (x - 1) == q * p) by (nonlinear_arith)
        requires
            r * x == p * q + r,
    ;
    lemma_multiple_has_no_remainder(q, p);
    lemma_euclid(p, r, x - 1);
    assert((x - 1) % p == 0);
    lemma_no_remainder_is_multiple(x - 1, p);
    lemma_mod_multiples_vanish((x - 1) / p, 1, p);
    lemma_small_mod(1, p as nat);
}

/// Raising to a power that is one more than a multiple of `p - 1` changes
/// nothing modulo the prime `p`.
pub proof fn lemma_fermat_exponent(m: int, k: nat, p: int)
    requires
        is_prime(p),
    ensures
        pow(m, 1 + k * ((p - 1) as nat)) % p == m % p,
{
    let e = (p - 1) as nat;
    let rest = pow(m, k * e);
    lemma_pow_unfold(m, 1 + k * e);
    assert(pow(m, 1 + k * e) == m * rest);
    lemma_mul_mod_noop_general(m, rest, p);
    if m % p == 0 {
        assert((0 * (rest % p)) % p == 0) by (nonlinear_arith)
            requires
                p > 0,
        ;
    } else {
        lemma_fermat_little(m, p);
        lemma_pow_multiplies(m, e, k);
        assert(e * k == k * e) by (nonlinear_arith);
        lemma_pow_mod_noop(pow(m, e), k, p);
        lemma1_pow(k);
        lemma_small_mod(1, p as nat);
        assert(rest % p == 1);
        assert(((m % p) * 1) % p == m % p) by {
            lemma_mul_basics(m % p);
            lemma_mod_twice(m, p);
        }
    }
}

/// Modulo a prime, one has no square roots but one and minus one.
pub proof fn lemma_square_root_of_one(p: int, x: int)
    requires
        is_prime(p),
        (x * x) % p == 1,
    ensures
        x % p == 1 || x % p == p - 1,
{
    lemma_fundamental_div_mod(x * x, p);
    let q = (x * x) / p;
    let xx = x * x;
    assert((x - 1) * (x + 1) == q * p) by (nonlinear_arith)
        requires
            xx == x * x,
            xx == p * q + 1,
    ;
    lemma_multiple_has_no_remainder(q, p);
    lemma_euclid(p, x - 1, x + 1);
    if (x - 1) % p == 0 {
        lemma_no_remainder_is_multiple(x - 1, p);
        lemma_mod_multiples_vanish((x - 1) / p, 1, p);
        lemma_small_mod(1, p as nat);
    } else {
        lemma_no_remainder_is_multiple(x + 1, p);
        lemma_mod_multiples_vanish((x + 1) / p - 1, p - 1, p);
        lemma_small_mod((p - 1) as nat, p as nat);
        assert(x == p * ((x + 1) / p - 1) + (p - 1)) by (nonlinear_arith)
            requires
                x + 1 == p * ((x + 1) / p),
        ;
    }
}

/// Going down from an exponent `d * 2^r` at which the power is one, each
/// halving gives one or minus one: so either `a^d` is one, or minus one
/// shows up on the way.
proof fn lemma_descend_from_one(n: int, d: nat, a: int, r: nat)
    requires
        is_prime(n),
        pow_mod(a, d * pow2(r), n) == 1,
    ensures
        pow_mod(a, d, n) == 1 || exists|j: nat|
            j < r && pow_mod(a, d * #[trigger] pow2(j), n) == n - 1,
    decreases r,
{
    if r == 0 {
        lemma2_to64();
        assert(d * pow2(0) == d) by (nonlinear_arith)
            requires
                pow2(0) == 1,
        ;
    } else {
        let r1 = (r - 1) as nat;
        let e1 = d * pow2(r1);
        lemma_pow2_unfold(r);
        assert(d * pow2(r) == e1 + e1) by (nonlinear_arith)
            requires
                pow2(r) == 2 * pow2(r1),
                e1 == d * pow2(r1),
        ;
        lemma_pow_adds(a, e1, e1);
        let x = pow(a, e1);
        lemma_square_root_of_one(n, x);
        if x % n == 1 {
            lemma_descend_from_one(n, d, a, r1);
        } else {
            assert(r1 < r && pow_mod(a, d * pow2(r1), n) == n - 1);
        }
    }
}

/// A prime passes every round of the Miller-Rabin test: for a prime `n`
/// with `n - 1 == d * 2^s` and a base that `n` does not divide, the round
/// succeeds.
pub proof fn lemma_prime_is_strong_probable_prime(n: int, d: nat, s: nat, a: int)
    requires
        is_prime(n),
        n - 1 == d * pow2(s),
        a % n != 0,
    ensures
        strong_probable_prime(n, d, a),
{
    lemma_fermat_little(a, n);
    lemma_descend_from_one(n, d, a, s);
    if pow_mod(a, d, n) != 1 {
        let j = choose|j: nat| j < s && pow_mod(a, d * #[trigger] pow2(j), n) == n - 1;
        lemma_pow2_strictly_increases(j, s);
        lemma_pow2_pos(j);
        assert(d >= 1) by (nonlinear_arith)
            requires
                d * pow2(s) >= 1,
        ;
        assert(d * pow2(j) < d * pow2(s)) by (nonlinear_arith)
            requires
                d >= 1,
                pow2(j) < pow2(s),
        ;
        if j == 0 {
            lemma2_to64();
            assert(d * pow2(0) == d) by (nonlinear_arith)
                requires
                    pow2(0) == 1,
            ;
        } else {
            assert(1 <= j && d * pow2(j) < n - 1 && pow_mod(a, d * pow2(j), n) == n - 1);
        }
    }
}

/// What agrees modulo two distinct primes agrees modulo their product.
pub proof fn lemma_agree_mod_product(x: int, y: int, p: int, q: int)
    requires
        is_prime(p),
        is_prime(q),
        p != q,
        x % p == y % p,
        x % q == y % q,
    ensures
        x % (p * q) == y % (p * q),
{
    let diff = x - y;
    lemma_mod_equivalence(x, y, p);
    lemma_mod_equivalence(x, y, q);
    lemma_no_remainder_is_multiple(diff, p);
    let u = diff / p;
    assert((p * u) % q == 0);
    lemma_euclid(q, p, u);
    if p % q == 0 {
        if q < p {
            assert(p % q != 0);
        } else {
            lemma_small_mod(p as nat, q as nat);
        }
    }
    lemma_no_remainder_is_multiple(u, q);
    let v = u / q;
    assert(p * q > 0) by (nonlinear_arith)
        requires
            p >= 2,
            q >= 2,
    ;
    assert(diff == v * (p * q)) by (nonlinear_arith)
        requires
            diff == p * u,
            u == q * v,
    ;
    lemma_multiple_has_no_remainder(v, p * q);
    lemma_mod_equivalence(x, y, p * q);
}

/// The theorem behind RSA: for distinct primes `p` and `q` and exponents
/// `e`, `d` whose product is one modulo `(p - 1) * (q - 1)`, raising to `d`
/// and then to `e` modulo `p * q` gives back every `m` of `[0, p * q)`.
pub proof fn lemma_rsa_round_trip(m: int, e: int, d: int, p: int, q: int)
    requires
        is_prime(p),
        is_prime(q),
        p != q,
        e >= 0,
        d >= 0,
        (e * d) % ((p - 1) * (q - 1)) == 1,
        0 <= m < p * q,
    ensures
        pow_mod(pow_mod(m, d as nat, p * q), e as nat, p * q) == m,
{
    let n = p * q;
    let phi = (p - 1) * (q - 1);
    let p1 = (p - 1) as nat;
    let q1 = (q - 1) as nat;
    let en = e as nat;
    let dn = d as nat;
    assert(phi > 0) by (nonlinear_arith)
        requires
            p >= 2,
            q >= 2,
            phi == (p - 1) * (q - 1),
    ;
    assert(e * d >= 0) by (nonlinear_arith)
        requires
            e >= 0,
            d >= 0,
    ;
    lemma_fundamental_div_mod(e * d, phi);
    let t = (e * d) / phi;
    assert(t >= 0) by {
        lemma_div_pos_is_pos(e * d, phi);
    }
    let tn = t as nat;
    assert(en * dn == 1 + (tn * q1) * p1 && en * dn == 1 + (tn * p1) * q1 && dn * en == en * dn)
        by (nonlinear_arith)
        requires
            e * d == phi * t + 1,
            phi == (p - 1) * (q - 1),
            p1 == p - 1,
            q1 == q - 1,
            tn == t,
            en == e,
            dn == d,
    ;
    lemma_fermat_exponent(m, tn * q1, p);
    lemma_fermat_exponent(m, tn * p1, q);
    let x = pow(m, en * dn);
    lemma_agree_mod_product(x, m, p, q);
    lemma_small_mod(m as nat, n as nat);
    lemma_pow_mod_noop(pow(m, dn), en, n);
    lemma_pow_multiplies(m, dn, en);
}

} // verus!
