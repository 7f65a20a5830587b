//! The errors of the library.
use vstd::prelude::*;
use std::array::TryFromSliceError;

verus! {

/// What can go wrong in key generation and key decoding.
#[derive(Clone, Copy, Debug, PartialEq, Eq, Structural)]
pub enum MlDsaError {
    RandomSeedGenError,
    BadNTTPolySample,
    BadBoundedPolySample,
    MalformedShortVector,
    MalformedVector,
    SignCtxLenTooLong,
}

/// The error of converting a slice into an array of another length.
#[verifier::external_type_specification]
#[verifier::external_body]
pub struct ExTryFromSliceError(TryFromSliceError);

/// A slice of the wrong length is a malformed vector.
impl From<TryFromSliceError> for MlDsaError {
    fn from(_e: TryFromSliceError) -> (r: Self) {
        MlDsaError::MalformedVector
    }
}

impl vstd::std_specs::convert::FromSpecImpl<TryFromSliceError> for MlDsaError {
    open spec fn obeys_from_spec() -> bool {
        true
    }

    open spec fn from_spec(v: TryFromSliceError) -> Self {
        MlDsaError::MalformedVector
    }
}

} // verus!
