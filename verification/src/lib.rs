//! ML-DSA key generation and the arithmetic it rests on: reduction
//! modulo q, the number-theoretic transform, sampling from SHAKE output,
//! bit packing of keys, and decoding of private keys.

pub mod params;
pub mod err;
pub mod ntt;
pub mod bits;
pub mod keypair;
pub mod sign;
pub mod xof;
pub mod negacyclic;
pub mod zetas;
