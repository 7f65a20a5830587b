//! Parameters of ML-DSA-44 and the sizes derived from them.
use vstd::prelude::*;

verus! {

/// Number of coefficients of a polynomial.
pub const N: usize = 256;
/// The prime modulus q = 2^23 - 2^13 + 1.
pub const Q: i32 = 8380417;
/// The primitive 512-th root of unity modulo q used by the NTT.
pub const ZETA: i32 = 1753;
/// Number of low bits dropped from t (Power2Round).
pub const D: usize = 13;
/// bitlen(q - 1).
pub const BITLEN_Q_MINUS_1: usize = 23;
/// bitlen(2^D - 1).
pub const BITLEN_2_POW_D_MINUS_1: usize = 13;

/// Rows of the matrix A.
pub const K: usize = 4;
/// Columns of the matrix A.
pub const L: usize = 4;
/// Bound on the coefficients of the secret vectors s1 and s2.
pub const ETA: u8 = 2;
/// bitlen(2 * ETA).
pub const BITLEN_2_ETA: usize = 3;
/// Collision strength of c-tilde.
pub const LAMBDA: i32 = 128;
/// Coefficient range of y.
pub const GAMMA1: i32 = 131072;
/// bitlen(GAMMA1).
pub const BITLEN_GAMMA1: usize = 18;
/// Low-order rounding range (q - 1) / 88.
pub const GAMMA2: i32 = 95232;
/// Maximum number of ones in the hint h.
pub const OMEGA: usize = 80;

/// Bytes of a public key: rho and K packed polynomials of 10-bit coefficients.
pub const LEN_PUBLIC_KEY: usize = 32 + 32 * K * (BITLEN_Q_MINUS_1 - D);
/// Bytes of a private key.
pub const LEN_PRIVATE_KEY: usize = 32 + 32 + 64 + 32 * ((K + L) * BITLEN_2_ETA + (D * K));
/// Bytes of one polynomial with coefficients in [-ETA, ETA].
pub const LEN_ETA_PACK_POLY: usize = 32 * BITLEN_2_ETA;
/// Bytes of one polynomial with coefficients in ]-2^(D-1), 2^(D-1)].
pub const LEN_T0_PACK_POLY: usize = 32 * BITLEN_2_POW_D_MINUS_1;
/// Bytes of a signature.
pub const SIG_LEN: usize = 32 + L * 32 * (1 + (BITLEN_GAMMA1 - 1)) + OMEGA + K;

} // verus!
