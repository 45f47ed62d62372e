//! Core types shared by the index, the payload format and the commitments.

use vstd::prelude::*;
use vstd::string::*;

verus! {

/// Distance metric options.
#[derive(Debug, Clone, Copy, PartialEq, Eq)]
pub enum DistanceMetric {
    Cosine,
    Euclidean,
    DotProduct,
}

/// The metric named by a wire code: 0 = cosine, 1 = euclidean, 2 = dot product.
pub open spec fn metric_of_code(code: u8) -> Option<DistanceMetric> {
    if code == 0 {
        Some(DistanceMetric::Cosine)
    } else if code == 1 {
        Some(DistanceMetric::Euclidean)
    } else if code == 2 {
        Some(DistanceMetric::DotProduct)
    } else {
        None
    }
}

impl DistanceMetric {
    /// Decodes a wire code: 0 = cosine, 1 = euclidean, 2 = dot product.
    pub fn from_code(code: u8) -> (m: Option<DistanceMetric>)
        ensures
            m == metric_of_code(code),
    {
        if code == 0 {
            Some(DistanceMetric::Cosine)
        } else if code == 1 {
            Some(DistanceMetric::Euclidean)
        } else if code == 2 {
            Some(DistanceMetric::DotProduct)
        } else {
            None
        }
    }
}

/// Errors of the core library.
#[derive(Debug, Clone, PartialEq, Eq)]
pub enum SolVecError {
    /// A vector's length differs from the index's dimension.
    DimensionMismatch { expected: usize, actual: usize },
    /// No vector with this id is stored.
    VectorNotFound(String),
    /// A vector was rejected before insertion.
    InvalidVector(String),
    /// `top_k` must be at least 1.
    InvalidTopK(usize),
    /// The index could not be written or read as JSON.
    SerializationError(String),
    /// The payload could not be encrypted.
    EncryptionError(String),
    /// The payload could not be decrypted or decoded.
    DecryptionError(String),
}

/// Checks the shape of a vector before insertion: its id must not be empty
/// and it must have at least one component.
pub fn check_vector_shape(id: &str, dimension: usize) -> (r: Result<(), SolVecError>)
    ensures
        id@.len() == 0 ==> (r matches Err(SolVecError::InvalidVector(m)) && m@ == "Vector ID cannot be empty"@),
        id@.len() != 0 && dimension == 0 ==> (r matches Err(SolVecError::InvalidVector(m)) && m@
            == "Vector values cannot be empty"@),
        id@.len() != 0 && dimension != 0 ==> r is Ok,
{
    if id.is_empty() {
        return Err(SolVecError::InvalidVector(String::from_str("Vector ID cannot be empty")));
    }
    if dimension == 0 {
        return Err(SolVecError::InvalidVector(String::from_str("Vector values cannot be empty")));
    }
    Ok(())
}

} // verus!
