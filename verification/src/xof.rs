//! The SHAKE extendable-output functions of the `sha3` crate and the system random source
//! of the `getrandom` crate, as the rest of the library sees them.
use vstd::prelude::*;
use sha3::digest::ExtendableOutput;
use sha3::{Shake128, Shake256};

verus! {

/// Byte i of the SHAKE128 output stream on `input`.
pub uninterp spec fn shake128_stream(input: Seq<u8>, i: int) -> u8;

/// Byte i of the SHAKE256 output stream on `input`.
pub uninterp spec fn shake256_stream(input: Seq<u8>, i: int) -> u8;

/// The first n bytes of the SHAKE128 output stream on `input`.
pub open spec fn shake128_prefix(input: Seq<u8>, n: nat) -> Seq<u8> {
    Seq::new(n, |i: int| shake128_stream(input, i))
}

/// The first n bytes of the SHAKE256 output stream on `input`.
pub open spec fn shake256_prefix(input: Seq<u8>, n: nat) -> Seq<u8> {
    Seq::new(n, |i: int| shake256_stream(input, i))
}

/// Calls `Shake128::digest_xof` (the `ExtendableOutput` trait of the `digest` crate, as
/// `sha3` implements it) to fill a buffer of `len` bytes with the SHAKE128 output on `input`.
/// `digest_xof` hashes `input`, finalizes into an output reader and reads `len` bytes from
/// its start, so byte i of the result does not depend on `len`. The contract claims that
/// byte i is byte i of one output stream, a function of `input` and i alone; what the bytes
/// are is not stated.
#[verifier::external_body]
pub(crate) fn shake128(input: &[u8], len: usize) -> (out: Vec<u8>)
    ensures
        out@ == shake128_prefix(input@, len as nat),
        forall|i: int| 0 <= i < len ==> #[trigger] out@[i] == shake128_stream(input@, i),
{
    let mut out = vec![0u8; len];
    Shake128::digest_xof(input, &mut out);
    out
}

/// Calls `Shake256::digest_xof` to fill a buffer of `len` bytes with the SHAKE256 output on
/// `input`. As for `shake128`, the contract claims that byte i is byte i of one output
/// stream, a function of `input` and i alone; what the bytes are is not stated.
#[verifier::external_body]
pub(crate) fn shake256(input: &[u8], len: usize) -> (out: Vec<u8>)
    ensures
        out@ == shake256_prefix(input@, len as nat),
        forall|i: int| 0 <= i < len ==> #[trigger] out@[i] == shake256_stream(input@, i),
{
    let mut out = vec![0u8; len];
    Shake256::digest_xof(input, &mut out);
    out
}

/// The error type of the `getrandom` crate.
#[verifier::external_type_specification]
#[verifier::external_body]
pub struct ExRandomError(getrandom::Error);

/// Calls `getrandom::fill` on a 32-byte buffer. Nothing is claimed of the bytes it leaves
/// there, nor of whether it succeeds.
#[verifier::external_body]
pub(crate) fn fill_random(dest: &mut [u8; 32]) -> (r: Result<(), getrandom::Error>)
{
    getrandom::fill(dest)
}

} // verus!
