//! The crate error type. Library functions return [`Result`] and never panic
//! on recoverable conditions; each contract names the variant it returns and
//! the inputs on which it does.

use serde_json::Error as JsonError;
use vstd::prelude::*;

verus! {

/// `std::io::Error`, carried through unchanged inside [`Error`].
#[verifier::external_type_specification]
#[verifier::external_body]
pub struct ExIoError(std::io::Error);

/// `serde_json::Error`, carried through unchanged inside [`Error`].
#[verifier::external_type_specification]
#[verifier::external_body]
pub struct ExJsonError(JsonError);

/// Errors produced by ferroscan's library paths.
#[derive(Debug)]
pub enum Error {
    /// A target token (IP/CIDR/range/hostname) could not be parsed.
    TargetParse { token: String, reason: String },
    /// A port specification could not be parsed.
    PortParse { spec: String, reason: String },
    /// The requested target expansion exceeded the configured safety cap.
    TooManyTargets { count: usize, cap: usize },
    /// A scope entry could not be parsed.
    ScopeParse { entry: String, reason: String },
    /// DNS resolution failed for a hostname.
    DnsResolution { host: String, reason: String },
    /// Reading or raising the file-descriptor limit failed.
    Rlimit(String),
    /// No usable targets remained after parsing/scoping/discovery.
    NoTargets { stage: &'static str },
    /// No ports were selected to scan.
    NoPorts,
    /// Failed to read a file (target list or scope file).
    FileRead { kind: &'static str, path: String, source: std::io::Error },
    /// A wrapped I/O error.
    Io(std::io::Error),
    /// JSON (de)serialization error.
    Json(JsonError),
}

/// Convenience result alias used throughout the library.
pub type Result<T> = std::result::Result<T, Error>;

} // verus!
