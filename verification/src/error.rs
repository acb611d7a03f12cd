//! The error type shared by the library's fallible operations.
use vstd::prelude::*;

verus! {

/// `image::ImageError`, carried opaquely.
#[verifier::external_type_specification]
#[verifier::external_body]
pub struct ExImageError(image::ImageError);

/// `std::io::Error`, carried opaquely.
#[verifier::external_type_specification]
#[verifier::external_body]
pub struct ExIoError(std::io::Error);

/// `serde_json::Error`, carried opaquely.
#[verifier::external_type_specification]
#[verifier::external_body]
pub struct ExJsonError(serde_json::Error);

#[derive(Debug)]
pub enum VisionError {
    /// Image processing error.
    ImageError(image::ImageError),
    /// IO error.
    IoError(std::io::Error),
    /// JSON parsing error.
    JsonError(serde_json::Error),
    /// Invalid input, with the reason.
    InvalidInput(String),
    /// Encoding error, with the reason.
    EncodingError(String),
    /// Array shape mismatch.
    ShapeMismatch { expected: String, actual: String },
}

pub type VisionResult<T> = Result<T, VisionError>;

} // verus!
