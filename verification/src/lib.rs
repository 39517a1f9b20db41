//! RSA key generation over a fixed-width signed big integer, with the number
//! theory behind it stated and proved.

pub mod bigint;
pub mod error;
pub mod hash;
pub mod keygen;
pub mod number_theory;
pub mod primes;
pub mod random;
pub mod server;
pub mod socket;
