//! A bit-packed Sieve of Eratosthenes.
//!
//! `bit_array` and `bit_vec` hold one flag per bit of a byte buffer, the first
//! of fixed capacity and the second growing on demand.  `primes` defines
//! primality by trial division, and `sieve` runs the marking algorithm over a
//! `BitArray` and is proved to find exactly the primes below its bound.

pub mod bit_array;
pub mod bit_vec;
pub mod primes;
pub mod sieve;

pub use bit_array::BitArray;
pub use bit_vec::BitVec;
pub use sieve::Sieve;
