//! The server's side of key generation: deriving a key pair from two random
//! primes, and the store of the pairs that were made.

use crate::bigint::{key_fits, Key};
use crate::error::KeygenError;
use crate::keygen::{
    bigmod, get_modular_inverse, is_keypair, lemma_keypair_round_trip, probable_prime,
    valid_modulus, NumberHandler, RSAKeyInfo, MAX_PRIME_BYTES,
};
use crate::number_theory::{abs, coprime, is_prime, lemma_gcd_symmetric, pow_mod};
use crate::primes::sieve_passes;
use crate::random::random_below;
use rand::rngs::ThreadRng;
use vstd::arithmetic::div_mod::{lemma_mod_self_0, lemma_small_mod};
use vstd::arithmetic::mul::lemma_mul_is_commutative;
use vstd::arithmetic::power2::*;
use vstd::prelude::*;

verus! {

/// A store of at most `N` keys that, once full, overwrites the oldest.
///
/// The keys sit in a ring: until the store is full each key goes behind the
/// last, and after that the slots are reused in turn. The view of the store
/// is its keys by age, the oldest first.
pub struct KeysContainer<KeyInfo, const N: usize> {
    keys: Vec<KeyInfo>,
    insert_index: usize,
}

impl<KeyInfo, const N: usize> View for KeysContainer<KeyInfo, N> {
    type V = Seq<KeyInfo>;

    /// The keys of the store by age, the oldest first: the ring, read from
    /// the slot that is overwritten next.
    closed spec fn view(&self) -> Seq<KeyInfo> {
        if self.keys.len() < N {
            self.keys@
        } else {
            self.keys@.subrange(self.insert_index as int, self.keys.len() as int)
                + self.keys@.subrange(0, self.insert_index as int)
        }
    }
}

impl<KeyInfo: Copy, const N: usize> KeysContainer<KeyInfo, N> {
    /// The store holds no more than `N` keys; until it is full the next
    /// key goes behind the last, and after that to a slot of the ring.
    pub closed spec fn wf(&self) -> bool {
        &&& self.keys.len() <= N
        &&& self.insert_index <= self.keys.len()
        &&& self.keys.len() < N ==> self.insert_index == self.keys.len()
        &&& self.keys.len() == N && N > 0 ==> self.insert_index < N
    }

    /// The store has as many keys by age as it has in its ring.
    proof fn lemma_same_size(&self)
        requires
            self.wf(),
        ensures
            self@.len() == self.keys.len(),
    {
        if self.keys.len() == N {
            let slot = self.insert_index as int;
            assert(self.keys@.subrange(slot, N as int).len() == N - slot);
            assert(self.keys@.subrange(0, slot).len() == slot);
        }
    }

    /// An empty store.
    pub fn new() -> (r: Self)
        ensures
            r.wf(),
            r@ == Seq::<KeyInfo>::empty(),
    {
        Self { keys: Vec::new(), insert_index: 0 }
    }

    /// How many keys the store holds.
    pub fn current_size(&self) -> (r: usize)
        requires
            self.wf(),
        ensures
            r == self@.len(),
            r <= N,
    {
        proof {
            self.lemma_same_size();
        }
        self.keys.len()
    }

    /// Puts a key into the store. While there is room it is added; once the
    /// store is full it takes the place of the oldest key.
    pub fn insert_key(&mut self, key: &KeyInfo)
        requires
            old(self).wf(),
            N > 0,
        ensures
            final(self).wf(),
            old(self)@.len() < N ==> final(self)@ == old(self)@.push(*key),
            old(self)@.len() == N ==> final(self)@ == old(self)@.skip(1).push(*key),
    {
        proof {
            self.lemma_same_size();
        }
        let ghost before = self@;
        let ghost ring = self.keys@;
        let ghost slot = self.insert_index as int;
        if self.keys.len() < N {
            self.keys.push(*key);
        } else {
            self.keys[self.insert_index] = *key;
        }
        proof {
            let next = self.insert_index + 1;
            if next < N {
                lemma_small_mod(next as nat, N as nat);
            } else {
                lemma_mod_self_0(N as int);
            }
        }
        self.insert_index = (self.insert_index + 1) % N;
        proof {
            if ring.len() < N {
                assert(self@ =~= before.push(*key));
            } else {
                assert(before =~= ring.subrange(slot, N as int) + ring.subrange(0, slot));
                assert(self@ =~= before.skip(1).push(*key));
            }
        }
    }

    /// One of the stored keys, picked at random. The store must hold one.
    pub fn get_random(&self, rng: &mut ThreadRng) -> (r: &KeyInfo)
        requires
            self.wf(),
            self@.len() > 0,
        ensures
            exists|i: int| 0 <= i < self@.len() && *r == #[trigger] self@[i],
    {
        proof {
            self.lemma_same_size();
        }
        let index = random_below(rng, self.keys.len());
        proof {
            // where the slot sits in the order of age
            let age = if self.keys.len() < N {
                index as int
            } else if index >= self.insert_index {
                index - self.insert_index
            } else {
                index + self.keys.len() - self.insert_index
            };
            assert(0 <= age < self@.len() && self.keys@[index as int] == self@[age]);
        }
        &self.keys[index]
    }
}

/// The most bytes that the primes of a key pair may have for the modular
/// powers to take their product as the modulus: its square has to be the
/// value of a key.
pub const MAX_ENCRYPTING_PRIME_BYTES: usize = 127;

/// Whether `p` is a number that a prime search over `size` bytes with
/// `rounds` rounds of the Miller-Rabin test may return: it is odd, the
/// highest bit of its `size` bytes is set, and it has passed the sieve and
/// the test.
pub open spec fn drawn_prime(p: int, size: nat, rounds: nat) -> bool {
    &&& p % 2 == 1
    &&& pow2((8 * size - 1) as nat) <= p < pow2(8 * size)
    &&& sieve_passes(p)
    &&& probable_prime(p, rounds)
}

/// A key server: a source of random keys, and the store of the key pairs
/// that it has made.
pub struct Server<const MAX_KEYS: usize> {
    handler: NumberHandler,
    rsa_keys: KeysContainer<RSAKeyInfo, MAX_KEYS>,
}

impl<const MAX_KEYS: usize> Server<MAX_KEYS> {
    /// The byte length of the primes that the server draws.
    pub closed spec fn byte_size(&self) -> nat {
        self.handler.byte_size()
    }

    /// The key pairs in the store, the oldest first.
    pub closed spec fn stored(&self) -> Seq<RSAKeyInfo> {
        self.rsa_keys@
    }

    /// Whether the server can derive key pairs: the byte length of its
    /// primes is at least one and less than half that of a key.
    pub open spec fn can_derive(&self) -> bool {
        1 <= self.byte_size() <= MAX_PRIME_BYTES
    }

    /// Whether `keys` is a key pair as the server derives them with
    /// `rounds` rounds of the Miller-Rabin test: the key pair of two
    /// numbers that it draws as primes.
    pub open spec fn derives(&self, keys: RSAKeyInfo, rounds: nat) -> bool {
        exists|p: int, q: int|
            #[trigger] is_keypair(keys, p, q) && drawn_prime(p, self.byte_size(), rounds)
                && drawn_prime(q, self.byte_size(), rounds)
    }

    /// A server whose primes have `key_byte_size` bytes, which must be less
    /// than half the width of a key: the product of two primes has to be
    /// the value of a key.
    pub fn new(key_byte_size: usize) -> (r: Self)
        requires
            key_byte_size <= MAX_PRIME_BYTES,
        ensures
            r.byte_size() == key_byte_size,
            r.stored() == Seq::<RSAKeyInfo>::empty(),
    {
        Self { rsa_keys: KeysContainer::new(), handler: NumberHandler::new(key_byte_size) }
    }

    /// Takes a request and fills in the response. Every request is
    /// accepted, and the response is left as it is.
    pub fn receive(_request: &Vec<u8>, _response: &mut Vec<u8>) -> (r: bool)
        ensures
            r,
            *final(_response) == *old(_response),
    {
        true
    }

    /// Derives a key pair. Two different probable primes `p` and `q` are
    /// drawn, each with `iterations` rounds of the Miller-Rabin test; the
    /// modulus is their product; the private exponent is drawn from
    /// `(1, phi)` coprime to `phi = (p - 1) * (q - 1)`, and the public
    /// exponent is its inverse modulo `phi`.
    pub fn get_rsa_keys(&mut self, iterations: u8) -> (r: Result<RSAKeyInfo, KeygenError>)
        ensures
            final(self).byte_size() == old(self).byte_size(),
            final(self).stored() == old(self).stored(),
            r == Err::<RSAKeyInfo, KeygenError>(KeygenError::InvalidArgument) <==> !old(
                self,
            ).can_derive(),
            r matches Ok(keys) ==> old(self).derives(keys, iterations as nat),
            r matches Err(err) ==> err == KeygenError::InvalidArgument || err
                == KeygenError::ExhaustedSearch,
    {
        let ghost size = self.byte_size();
        let ghost rounds = iterations as nat;
        let prime_a = match self.handler.get_random_prime(iterations) {
            Ok(prime) => prime,
            Err(err) => {
                return Err(err);
            },
        };
        let prime_b = match self.handler.get_different_random_prime(iterations, prime_a) {
            Ok(prime) => prime,
            Err(err) => {
                return Err(err);
            },
        };
        let one = Key::one();
        let ghost p = prime_a@;
        let ghost q = prime_b@;
        assert(drawn_prime(p, size, rounds) && drawn_prime(q, size, rounds) && p != q);
        proof {
            lemma_products_fit(p, q, size);
        }
        let shared = prime_a.times(&prime_b);
        // Euler's totient of the modulus
        let max_range = prime_a.minus(&one).times(&prime_b.minus(&one));
        // a random exponent in (1, phi) that is coprime to phi
        let two = Key::from_u64(2);
        let private = match self.handler.gen_random_coprime_number_in_range(two, max_range, max_range)
        {
            Ok(private) => private,
            Err(err) => {
                return Err(err);
            },
        };
        proof {
            lemma_gcd_symmetric(abs(max_range@), abs(private@));
            assert(coprime(private@, max_range@));
            assert(max_range@ > 1);
        }
        let public = match get_modular_inverse(private, max_range) {
            Ok(public) => public,
            Err(err) => {
                // the exponent was drawn coprime to the totient
                assert(false);
                return Err(err);
            },
        };
        let keys = RSAKeyInfo { private, public, shared };
        proof {
            lemma_is_keypair(keys, p, q, max_range@);
        }
        Ok(keys)
    }

    /// Serves one client: derives a key pair with 64 rounds, encrypts the
    /// payload nine with the private exponent and decrypts it with the
    /// public one. Returns the pair and what came out of the decryption,
    /// which is the payload where the two primes of the pair are prime.
    ///
    /// The modular powers need a modulus whose square is the value of a
    /// key: primes of up to 127 bytes always give one, primes of more than
    /// 128 bytes never do.
    pub fn handle_client(&mut self) -> (r: Result<(RSAKeyInfo, Key), KeygenError>)
        ensures
            final(self).byte_size() == old(self).byte_size(),
            final(self).stored() == old(self).stored(),
            r matches Ok((keys, decrypted)) ==> {
                &&& old(self).derives(keys, 64)
                &&& valid_modulus(keys.shared@)
                &&& decrypted@ == pow_mod(
                    pow_mod(9, keys.private@ as nat, keys.shared@),
                    keys.public@ as nat,
                    keys.shared@,
                )
                &&& forall|p: int, q: int|
                    #[trigger] is_keypair(keys, p, q) && is_prime(p) && is_prime(q) ==> decrypted@
                        == 9
            },
            r matches Err(err) ==> err == KeygenError::InvalidArgument || err
                == KeygenError::ExhaustedSearch,
            !(1 <= old(self).byte_size() <= MAX_ENCRYPTING_PRIME_BYTES + 1) ==> r is Err,
            1 <= old(self).byte_size() <= MAX_ENCRYPTING_PRIME_BYTES ==> r != Err::<
                (RSAKeyInfo, Key),
                KeygenError,
            >(KeygenError::InvalidArgument),
    {
        let ghost size = self.byte_size();
        let keys = match self.get_rsa_keys(64) {
            Ok(keys) => keys,
            Err(err) => {
                return Err(err);
            },
        };
        proof {
            let (p, q) = choose|p: int, q: int|
                #[trigger] is_keypair(keys, p, q) && drawn_prime(p, size, 64) && drawn_prime(
                    q,
                    size,
                    64,
                );
            lemma_modulus_width(p, q, size);
        }
        let payload = Key::from_u64(9);
        let encrypted = match bigmod(payload, keys.private, keys.shared) {
            Ok(encrypted) => encrypted,
            Err(err) => {
                return Err(err);
            },
        };
        let decrypted = match bigmod(encrypted, keys.public, keys.shared) {
            Ok(decrypted) => decrypted,
            Err(err) => {
                return Err(err);
            },
        };
        proof {
            assert forall|p: int, q: int|
                #[trigger] is_keypair(keys, p, q) && is_prime(p) && is_prime(q) implies decrypted@
                == 9 by {
                assert(keys.shared@ > 9);
                lemma_keypair_round_trip(keys, p, q, 9);
            }
        }
        Ok((keys, decrypted))
    }
}

/// How wide the modulus of two primes of `size` bytes is: up to 127 bytes
/// its square is the value of a key, above 128 bytes it is not.
proof fn lemma_modulus_width(p: int, q: int, size: nat)
    requires
        1 <= size <= MAX_PRIME_BYTES,
        pow2((8 * size - 1) as nat) <= p < pow2(8 * size),
        pow2((8 * size - 1) as nat) <= q < pow2(8 * size),
    ensures
        p * q >= 128 * 128,
        size <= MAX_ENCRYPTING_PRIME_BYTES ==> valid_modulus(p * q),
        size > MAX_ENCRYPTING_PRIME_BYTES + 1 ==> !valid_modulus(p * q),
{
    lemma2_to64();
    if 7 < 8 * size - 1 {
        lemma_pow2_strictly_increases(7, (8 * size - 1) as nat);
    }
    let low = pow2((8 * size - 1) as nat) as int;
    let high = pow2(8 * size) as int;
    let n = p * q;
    assert(low * low <= n < high * high && n >= 128 * 128) by (nonlinear_arith)
        requires
            128 <= low <= p < high,
            low <= q < high,
            n == p * q,
    ;
    lemma_pow2_adds(8 * size, 8 * size);
    lemma_pow2_adds((8 * size - 1) as nat, (8 * size - 1) as nat);
    let low2 = pow2((16 * size - 2) as nat) as int;
    let high2 = pow2(16 * size) as int;
    assert(low2 * low2 <= n * n < high2 * high2) by (nonlinear_arith)
        requires
            0 <= low2 <= n < high2,
    ;
    lemma_pow2_adds(16 * size, 16 * size);
    lemma_pow2_adds((16 * size - 2) as nat, (16 * size - 2) as nat);
    if size <= MAX_ENCRYPTING_PRIME_BYTES {
        lemma_pow2_strictly_increases(32 * size, 4095);
    }
    if size > MAX_ENCRYPTING_PRIME_BYTES + 1 {
        lemma_pow2_strictly_increases(4095, (32 * size - 4) as nat);
    }
}

/// The products that a key pair is made of are values of keys: with primes
/// of at most 255 bytes, the modulus and the totient stay below `2^4080`.
/// The totient leaves room for an exponent between one and itself.
proof fn lemma_products_fit(p: int, q: int, size: nat)
    requires
        1 <= size <= MAX_PRIME_BYTES,
        pow2((8 * size - 1) as nat) <= p < pow2(8 * size),
        pow2((8 * size - 1) as nat) <= q < pow2(8 * size),
    ensures
        key_fits(p - 1),
        key_fits(q - 1),
        key_fits(p * q),
        key_fits((p - 1) * (q - 1)),
        (p - 1) * (q - 1) > 2,
        key_fits((p - 1) * (q - 1) - 2),
{
    lemma2_to64();
    if 7 < 8 * size - 1 {
        lemma_pow2_strictly_increases(7, (8 * size - 1) as nat);
    }
    let bound = pow2(8 * size) as int;
    lemma_pow2_adds(8 * size, 8 * size);
    lemma_pow2_strictly_increases(16 * size, 4095);
    lemma_pow2_strictly_increases(8 * size, 4095);
    assert(p * q < bound * bound && (p - 1) * (q - 1) < bound * bound && (p - 1) * (q - 1) >= 127
        * 127 && p * q >= 0) by (nonlinear_arith)
        requires
            128 <= p < bound,
            128 <= q < bound,
    ;
}

/// Exponents that are inverse to each other modulo the totient of two
/// different numbers, with their product as the modulus, make a key pair.
proof fn lemma_is_keypair(keys: RSAKeyInfo, p: int, q: int, phi: int)
    requires
        p != q,
        phi == (p - 1) * (q - 1),
        keys.shared@ == p * q,
        1 < keys.private@ < phi,
        0 <= keys.public@ < phi,
        (keys.private@ * keys.public@) % phi == 1,
    ensures
        is_keypair(keys, p, q),
{
    lemma_mul_is_commutative(keys.public@, keys.private@);
}

} // verus!
