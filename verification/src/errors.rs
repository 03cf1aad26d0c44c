//! The service's error taxonomy.
//!
//! Every error is terminal for the unit of work that raised it: no retry, no
//! fallback. Each error maps to a stable status code and a human-readable
//! description.

use vstd::prelude::*;

verus! {

use vstd::string::StringExecFns;

/// Everything that can go wrong serving an upload, a sample or a session.
#[derive(Debug)]
pub enum AppError {
    /// Unknown file identifier.
    FileNotFound(String),
    /// Upload larger than the configured bound, in bytes.
    FileTooLarge(usize),
    /// The store failed with an I/O error, described in text.
    FileAccess(String),
    /// The sampler could not run.
    SamplingFailed(String),
    /// Requested sample size above the configured maximum.
    InvalidSampleSize(usize),
    /// Serialization or other unexpected failure.
    Internal(String),
    /// Malformed control payload or unknown command.
    BadRequest(String),
    /// The outbound channel is gone.
    ConnectionClosed,
    /// Undecodable frame, or a frame type not allowed in context.
    InvalidMessage,
}

/// The decimal digits of `n`, most significant first.
pub open spec fn spec_decimal(n: nat) -> Seq<char>
    decreases n,
{
    if n < 10 {
        seq![((0x30 + n) as u8) as char]
    } else {
        spec_decimal(n / 10).push(((0x30 + n % 10) as u8) as char)
    }
}

/// Relies on `u64`'s `Display` implementation: the decimal digits of the
/// value, most significant first, no sign and no padding.
#[verifier::external_body]
fn u64_to_decimal(n: u64) -> (s: String)
    ensures
        s@ == spec_decimal(n as nat),
{
    n.to_string()
}

/// Status classification of each error: not-found 404, too-large 413,
/// access 403, invalid size and bad request 400, everything else 500.
pub open spec fn spec_status_code(e: &AppError) -> u16 {
    match e {
        AppError::FileNotFound(_) => 404,
        AppError::FileTooLarge(_) => 413,
        AppError::FileAccess(_) => 403,
        AppError::InvalidSampleSize(_) => 400,
        AppError::BadRequest(_) => 400,
        _ => 500,
    }
}

/// The description each error carries.
pub open spec fn spec_describe(e: &AppError) -> Seq<char> {
    match e {
        AppError::FileNotFound(p) => "File not found: "@ + p@,
        AppError::FileTooLarge(n) => "File too large: "@ + spec_decimal(*n as nat) + " bytes"@,
        AppError::FileAccess(d) => "File access error: "@ + d@,
        AppError::SamplingFailed(d) => "Sampling failed: "@ + d@,
        AppError::InvalidSampleSize(n) => "Invalid sample size: "@ + spec_decimal(*n as nat),
        AppError::Internal(d) => "Internal error: "@ + d@,
        AppError::BadRequest(d) => "Bad request: "@ + d@,
        AppError::ConnectionClosed => "Connection closed"@,
        AppError::InvalidMessage => "Invalid message format"@,
    }
}

impl AppError {
    /// The status classification of this error.
    pub fn status_code(&self) -> (c: u16)
        ensures
            c == spec_status_code(self),
    {
        match self {
            AppError::FileNotFound(_) => 404,
            AppError::FileTooLarge(_) => 413,
            AppError::FileAccess(_) => 403,
            AppError::InvalidSampleSize(_) => 400,
            AppError::BadRequest(_) => 400,
            AppError::SamplingFailed(_) => 500,
            AppError::Internal(_) => 500,
            AppError::ConnectionClosed => 500,
            AppError::InvalidMessage => 500,
        }
    }

    /// A human-readable description of this error.
    pub fn describe(&self) -> (s: String)
        ensures
            s@ == spec_describe(self),
    {
        match self {
            AppError::FileNotFound(p) => String::from_str("File not found: ").concat(p.as_str()),
            AppError::FileTooLarge(n) => String::from_str("File too large: ").concat(
                u64_to_decimal(*n as u64).as_str(),
            ).concat(" bytes"),
            AppError::FileAccess(d) => String::from_str("File access error: ").concat(d.as_str()),
            AppError::SamplingFailed(d) => String::from_str("Sampling failed: ").concat(
                d.as_str(),
            ),
            AppError::InvalidSampleSize(n) => String::from_str("Invalid sample size: ").concat(
                u64_to_decimal(*n as u64).as_str(),
            ),
            AppError::Internal(d) => String::from_str("Internal error: ").concat(d.as_str()),
            AppError::BadRequest(d) => String::from_str("Bad request: ").concat(d.as_str()),
            AppError::ConnectionClosed => String::from_str("Connection closed"),
            AppError::InvalidMessage => String::from_str("Invalid message format"),
        }
    }
}

} // verus!
