//! The table of small primes, and the sieve that runs a candidate past it.

use crate::bigint::{lemma_key_range, Key};
use crate::number_theory::{is_prime, lemma_no_remainder_is_multiple};
use vstd::arithmetic::div_mod::*;
use vstd::arithmetic::mul::*;
use vstd::prelude::*;

verus! {

/// How many primes the table holds.
pub const FIRST_PRIMES_LEN: usize = 200;

/// The first two hundred primes, in increasing order.
pub const FIRST_PRIMES: [u64; 200] = [
    2, 3, 5, 7, 11, 13, 17, 19, 23, 29,
    31, 37, 41, 43, 47, 53, 59, 61, 67, 71,
    73, 79, 83, 89, 97, 101, 103, 107, 109, 113,
    127, 131, 137, 139, 149, 151, 157, 163, 167, 173,
    179, 181, 191, 193, 197, 199, 211, 223, 227, 229,
    233, 239, 241, 251, 257, 263, 269, 271, 277, 281,
    283, 293, 307, 311, 313, 317, 331, 337, 347, 349,
    353, 359, 367, 373, 379, 383, 389, 397, 401, 409,
    419, 421, 431, 433, 439, 443, 449, 457, 461, 463,
    467, 479, 487, 491, 499, 503, 509, 521, 523, 541,
    547, 557, 563, 569, 571, 577, 587, 593, 599, 601,
    607, 613, 617, 619, 631, 641, 643, 647, 653, 659,
    661, 673, 677, 683, 691, 701, 709, 719, 727, 733,
    739, 743, 751, 757, 761, 769, 773, 787, 797, 809,
    811, 821, 823, 827, 829, 839, 853, 857, 859, 863,
    877, 881, 883, 887, 907, 911, 919, 929, 937, 941,
    947, 953, 967, 971, 977, 983, 991, 997, 1009, 1013,
    1019, 1021, 1031, 1033, 1039, 1049, 1051, 1061, 1063, 1069,
    1087, 1091, 1093, 1097, 1103, 1109, 1117, 1123, 1129, 1151,
    1153, 1163, 1171, 1181, 1187, 1193, 1201, 1213, 1217, 1223,
];

/// Whether no number from 2 to 35 whose square is at most `n` divides `n`.
spec fn survives_trial(n: int) -> bool {
    &&& (n < 4 || n % 2 != 0)
    &&& (n < 9 || n % 3 != 0)
    &&& (n < 16 || n % 4 != 0)
    &&& (n < 25 || n % 5 != 0)
    &&& (n < 36 || n % 6 != 0)
    &&& (n < 49 || n % 7 != 0)
    &&& (n < 64 || n % 8 != 0)
    &&& (n < 81 || n % 9 != 0)
    &&& (n < 100 || n % 10 != 0)
    &&& (n < 121 || n % 11 != 0)
    &&& (n < 144 || n % 12 != 0)
    &&& (n < 169 || n % 13 != 0)
    &&& (n < 196 || n % 14 != 0)
    &&& (n < 225 || n % 15 != 0)
    &&& (n < 256 || n % 16 != 0)
    &&& (n < 289 || n % 17 != 0)
    &&& (n < 324 || n % 18 != 0)
    &&& (n < 361 || n % 19 != 0)
    &&& (n < 400 || n % 20 != 0)
    &&& (n < 441 || n % 21 != 0)
    &&& (n < 484 || n % 22 != 0)
    &&& (n < 529 || n % 23 != 0)
    &&& (n < 576 || n % 24 != 0)
    &&& (n < 625 || n % 25 != 0)
    &&& (n < 676 || n % 26 != 0)
    &&& (n < 729 || n % 27 != 0)
    &&& (n < 784 || n % 28 != 0)
    &&& (n < 841 || n % 29 != 0)
    &&& (n < 900 || n % 30 != 0)
    &&& (n < 961 || n % 31 != 0)
    &&& (n < 1024 || n % 32 != 0)
    &&& (n < 1089 || n % 33 != 0)
    &&& (n < 1156 || n % 34 != 0)
    &&& (n < 1225 || n % 35 != 0)
}

/// Below the square of 36, trial division by the numbers up to 35 settles
/// primality: a number that has a divisor has one whose square is no larger
/// than itself.
proof fn lemma_prime_by_trial(n: int)
    requires
        2 <= n < 1296,
        survives_trial(n),
    ensures
        is_prime(n),
{
    assert forall|d: int| 1 < d < n implies #[trigger] (n % d) != 0 by {
        if n % d == 0 {
            lemma_no_remainder_is_multiple(n, d);
            let e = n / d;
            // the smaller of the two factors has a square of at most n
            let low = if d <= e {
                d
            } else {
                e
            };
            assert(1 < e < n && low * low <= n && 2 <= low <= 35) by (nonlinear_arith)
                requires
                    n == d * e,
                    1 < d < n,
                    n < 1296,
                    low == if d <= e {
                        d
                    } else {
                        e
                    },
            ;
            assert(n % low == 0) by {
                if low == e {
                    assert(n == d * e);
                    lemma_mul_is_commutative(d, e);
                    lemma_mod_multiples_basic(d, e);
                }
            }
            lemma_not_survivor(n, low);
        }
    }
}

/// A divisor between 2 and 35 whose square is at most `n` means that `n`
/// does not survive trial division.
proof fn lemma_not_survivor(n: int, d: int)
    requires
        2 <= d <= 35,
        d * d <= n,
        n % d == 0,
    ensures
        !survives_trial(n),
{
    if d == 2 {
        assert(n >= 4 && n % 2 == 0);
    } else if d == 3 {
        assert(n >= 9 && n % 3 == 0);
    } else if d == 4 {
        assert(n >= 16 && n % 4 == 0);
    } else if d == 5 {
        assert(n >= 25 && n % 5 == 0);
    } else if d == 6 {
        assert(n >= 36 && n % 6 == 0);
    } else if d == 7 {
        assert(n >= 49 && n % 7 == 0);
    } else if d == 8 {
        assert(n >= 64 && n % 8 == 0);
    } else if d == 9 {
        assert(n >= 81 && n % 9 == 0);
    } else if d == 10 {
        assert(n >= 100 && n % 10 == 0);
    } else if d == 11 {
        assert(n >= 121 && n % 11 == 0);
    } else if d == 12 {
        assert(n >= 144 && n % 12 == 0);
    } else if d == 13 {
        assert(n >= 169 && n % 13 == 0);
    } else if d == 14 {
        assert(n >= 196 && n % 14 == 0);
    } else if d == 15 {
        assert(n >= 225 && n % 15 == 0);
    } else if d == 16 {
        assert(n >= 256 && n % 16 == 0);
    } else if d == 17 {
        assert(n >= 289 && n % 17 == 0);
    } else if d == 18 {
        assert(n >= 324 && n % 18 == 0);
    } else if d == 19 {
        assert(n >= 361 && n % 19 == 0);
    } else if d == 20 {
        assert(n >= 400 && n % 20 == 0);
    } else if d == 21 {
        assert(n >= 441 && n % 21 == 0);
    } else if d == 22 {
        assert(n >= 484 && n % 22 == 0);
    } else if d == 23 {
        assert(n >= 529 && n % 23 == 0);
    } else if d == 24 {
        assert(n >= 576 && n % 24 == 0);
    } else if d == 25 {
        assert(n >= 625 && n % 25 == 0);
    } else if d == 26 {
        assert(n >= 676 && n % 26 == 0);
    } else if d == 27 {
        assert(n >= 729 && n % 27 == 0);
    } else if d == 28 {
        assert(n >= 784 && n % 28 == 0);
    } else if d == 29 {
        assert(n >= 841 && n % 29 == 0);
    } else if d == 30 {
        assert(n >= 900 && n % 30 == 0);
    } else if d == 31 {
        assert(n >= 961 && n % 31 == 0);
    } else if d == 32 {
        assert(n >= 1024 && n % 32 == 0);
    } else if d == 33 {
        assert(n >= 1089 && n % 33 == 0);
    } else if d == 34 {
        assert(n >= 1156 && n % 34 == 0);
    } else if d == 35 {
        assert(n >= 1225 && n % 35 == 0);
    }
}

/// Whether each of the first `n` entries of the table lies below the square
/// of 36 and survives trial division.
spec fn entries_survive(n: nat) -> bool
    decreases n,
{
    n == 0 || (2 <= FIRST_PRIMES[n - 1] < 1296 && survives_trial(FIRST_PRIMES[n - 1] as int)
        && entries_survive((n - 1) as nat))
}

/// The first 25 entries of the table survive trial division.
proof fn lemma_entries_survive_25()
    ensures
        entries_survive(25),
{
    reveal_with_fuel(entries_survive, 26);
}

/// The first 50 entries of the table survive trial division.
proof fn lemma_entries_survive_50()
    ensures
        entries_survive(50),
{
    lemma_entries_survive_25();
    reveal_with_fuel(entries_survive, 26);
}

/// The first 75 entries of the table survive trial division.
proof fn lemma_entries_survive_75()
    ensures
        entries_survive(75),
{
    lemma_entries_survive_50();
    reveal_with_fuel(entries_survive, 26);
}

/// The first 100 entries of the table survive trial division.
proof fn lemma_entries_survive_100()
    ensures
        entries_survive(100),
{
    lemma_entries_survive_75();
    reveal_with_fuel(entries_survive, 26);
}

/// The first 125 entries of the table survive trial division.
proof fn lemma_entries_survive_125()
    ensures
        entries_survive(125),
{
    lemma_entries_survive_100();
    reveal_with_fuel(entries_survive, 26);
}

/// The first 150 entries of the table survive trial division.
proof fn lemma_entries_survive_150()
    ensures
        entries_survive(150),
{
    lemma_entries_survive_125();
    reveal_with_fuel(entries_survive, 26);
}

/// The first 175 entries of the table survive trial division.
proof fn lemma_entries_survive_175()
    ensures
        entries_survive(175),
{
    lemma_entries_survive_150();
    reveal_with_fuel(entries_survive, 26);
}

/// The first 200 entries of the table survive trial division.
proof fn lemma_entries_survive_200()
    ensures
        entries_survive(200),
{
    lemma_entries_survive_175();
    reveal_with_fuel(entries_survive, 26);
}

/// What holds of the first `n` entries holds of each of them.
proof fn lemma_entry_survives(i: int, n: nat)
    requires
        0 <= i < n,
        entries_survive(n),
    ensures
        2 <= FIRST_PRIMES[i] < 1296,
        survives_trial(FIRST_PRIMES[i] as int),
    decreases n,
{
    if i < n - 1 {
        lemma_entry_survives(i, (n - 1) as nat);
    }
}

/// Every entry of the table is a prime number.
pub proof fn lemma_first_primes_are_prime(i: int)
    requires
        0 <= i < 200,
    ensures
        is_prime(FIRST_PRIMES[i] as int),
        2 <= FIRST_PRIMES[i] < 1296,
{
    lemma_entries_survive_200();
    lemma_entry_survives(i, 200);
    lemma_prime_by_trial(FIRST_PRIMES[i] as int);
}

/// Whether `n` is one of the primes of the table.
pub open spec fn in_first_primes(n: int) -> bool {
    exists|i: int| 0 <= i < 200 && n == #[trigger] FIRST_PRIMES[i]
}

/// What is in the table is a prime number below the square of 36.
pub proof fn lemma_table_entry_is_prime(n: int)
    requires
        in_first_primes(n),
    ensures
        is_prime(n),
        2 <= n < 1296,
{
    let i = choose|i: int| 0 <= i < 200 && n == #[trigger] FIRST_PRIMES[i];
    lemma_first_primes_are_prime(i);
}

/// Whether the sieve, walking the table upward, gets as far as entry `i`
/// with the candidate `c`: it stops at the first prime that the square of
/// the candidate exceeds.
pub open spec fn sieve_reaches(c: int, i: int) -> bool {
    forall|j: int| 0 <= j <= i ==> c * c <= #[trigger] FIRST_PRIMES[j]
}

/// Whether the candidate `c` passes the sieve: none of the table primes
/// that the sieve reaches divides it.
#[verifier::opaque]
pub open spec fn sieve_passes(c: int) -> bool {
    forall|i: int|
        0 <= i < 200 && sieve_reaches(c, i) ==> c % (#[trigger] FIRST_PRIMES[i] as int) != 0
}

/// Runs the candidate past the table of small primes, in increasing order.
/// The walk stops, and the candidate passes, at the first prime that the
/// square of the candidate exceeds; the candidate fails at the first prime
/// that divides it; it passes where the table is used up.
pub fn passes_sieve(candidate: &Key) -> (r: bool)
    ensures
        r == sieve_passes(candidate@),
{
    proof {
        reveal(sieve_passes);
    }
    // where the square is wider than a key, it exceeds every table prime
    let square = candidate.checked_times(candidate);
    let mut i: usize = 0;
    while i < FIRST_PRIMES_LEN
        invariant
            i <= 200,
            square is Some <==> crate::bigint::key_fits(candidate@ * candidate@),
            square matches Some(s) ==> s@ == candidate@ * candidate@,
            forall|j: int|
                0 <= j < i ==> candidate@ * candidate@ <= #[trigger] FIRST_PRIMES[j] && candidate@
                    % (FIRST_PRIMES[j] as int) != 0,
        decreases 200 - i,
    {
        let prime = Key::from_u64(FIRST_PRIMES[i]);
        let stop = match square {
            Some(s) => prime.less_than(&s),
            None => true,
        };
        proof {
            reveal(sieve_passes);
            lemma_key_range(prime);
            assert(candidate@ * candidate@ >= 0) by (nonlinear_arith);
        }
        if stop {
            assert(!sieve_reaches(candidate@, i as int));
            assert forall|k: int| 0 <= k < 200 && sieve_reaches(candidate@, k) implies candidate@
                % (#[trigger] FIRST_PRIMES[k] as int) != 0 by {
                if k >= i {
                    assert(candidate@ * candidate@ <= FIRST_PRIMES[i as int]);
                }
            }
            return true;
        }
        proof {
            lemma_first_primes_are_prime(i as int);
        }
        if candidate.modulo(&prime).is_zero() {
            assert(sieve_reaches(candidate@, i as int));
            return false;
        }
        i += 1;
    }
    true
}

/// A candidate whose square exceeds the first table prime passes the sieve
/// without a division: the walk stops at once.
pub proof fn lemma_sieve_stops_at_once(c: int)
    requires
        c * c > 2,
    ensures
        sieve_passes(c),
{
    reveal(sieve_passes);
    assert forall|i: int| 0 <= i < 200 && sieve_reaches(c, i) implies c % (
    #[trigger] FIRST_PRIMES[i] as int) != 0 by {
        assert(c * c <= FIRST_PRIMES[0]);
    }
}

} // verus!
