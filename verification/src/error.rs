//! Typed failures of the engine and their wire kinds.
use vstd::prelude::*;

use crate::text::{decimal, decimal_chars, join, literal};

verus! {

#[verifier::external_type_specification]
#[verifier::external_body]
pub struct ExIoError(std::io::Error);

/// Every failure mode the engine reports. Paths are carried as display text.
#[derive(Debug)]
#[allow(inconsistent_fields)]
pub enum Error {
    StoreMissing(String),
    StoreVersionMismatch { expected: u32, found: u32 },
    ConfigMismatch { expected: String, found: String },
    BadRequest(String),
    Unsupported(String),
    InvalidDump { path: String, line: usize, message: String },
    Io { path: String, source: std::io::Error },
    InvalidStore(String),
    Internal(String),
}

/// The protocol's error kind for each failure variant.
pub open spec fn spec_wire_kind(e: Error) -> Seq<char> {
    match e {
        Error::StoreMissing(_) => "store_missing"@,
        Error::StoreVersionMismatch { .. } => "store_version_mismatch"@,
        Error::ConfigMismatch { .. } => "config_mismatch"@,
        Error::BadRequest(_) => "bad_request"@,
        Error::InvalidDump { .. } => "bad_request"@,
        Error::Unsupported(_) => "unsupported"@,
        Error::Io { .. } => "internal"@,
        Error::InvalidStore(_) => "internal"@,
        Error::Internal(_) => "internal"@,
    }
}

/// The message of each failure; for an I/O failure, the part before its source's text.
pub open spec fn spec_message(e: Error) -> Seq<char> {
    match e {
        Error::StoreMissing(path) => "store is missing at "@ + path@,
        Error::StoreVersionMismatch { expected, found } => "store version mismatch: expected "@ + decimal_chars(
            expected as nat,
        ) + ", found "@ + decimal_chars(found as nat),
        Error::ConfigMismatch { expected, found } => "fingerprint config mismatch: expected "@ + expected@
            + ", found "@ + found@,
        Error::BadRequest(m) => "bad request: "@ + m@,
        Error::Unsupported(m) => "unsupported: "@ + m@,
        Error::InvalidDump { path, line, message } => "invalid dump "@ + path@ + ":"@ + decimal_chars(line as nat)
            + ": "@ + message@,
        Error::Io { path, .. } => "I/O error at "@ + path@ + ": "@,
        Error::InvalidStore(m) => "invalid store: "@ + m@,
        Error::Internal(m) => "internal error: "@ + m@,
    }
}

/// Text of an I/O failure, through `std::io::Error`'s `Display`.
#[verifier::external_body]
fn io_text(source: &std::io::Error) -> String {
    format!("{}", source)
}

impl Error {
    /// An I/O failure at `path`.
    pub fn io(path: &str, source: std::io::Error) -> (e: Self)
        ensures
            e matches Error::Io { path: p, source: s } && p@ == path@ && s == source,
    {
        Error::Io { path: literal(path), source }
    }

    /// The wire protocol's error kind.
    pub fn wire_kind(&self) -> (kind: &'static str)
        ensures
            kind@ == spec_wire_kind(*self),
    {
        proof {
            reveal_strlit("store_missing");
            reveal_strlit("store_version_mismatch");
            reveal_strlit("config_mismatch");
            reveal_strlit("bad_request");
            reveal_strlit("unsupported");
            reveal_strlit("internal");
        }
        match self {
            Error::StoreMissing(_) => "store_missing",
            Error::StoreVersionMismatch { .. } => "store_version_mismatch",
            Error::ConfigMismatch { .. } => "config_mismatch",
            Error::BadRequest(_) | Error::InvalidDump { .. } => "bad_request",
            Error::Unsupported(_) => "unsupported",
            Error::Io { .. } | Error::InvalidStore(_) | Error::Internal(_) => "internal",
        }
    }

    /// The human-readable message of the error; an I/O failure's ends with the text of its
    /// source.
    pub fn message(&self) -> (m: String)
        ensures
            !(*self is Io) ==> m@ == spec_message(*self),
            *self is Io ==> spec_message(*self).is_prefix_of(m@),
    {
        match self {
            Error::StoreMissing(path) => join(literal("store is missing at "), path.as_str()),
            Error::StoreVersionMismatch { expected, found } => {
                let s = join(literal("store version mismatch: expected "), decimal(*expected as u64).as_str());
                let s = join(s, ", found ");
                join(s, decimal(*found as u64).as_str())
            },
            Error::ConfigMismatch { expected, found } => {
                let s = join(literal("fingerprint config mismatch: expected "), expected.as_str());
                let s = join(s, ", found ");
                join(s, found.as_str())
            },
            Error::BadRequest(message) => join(literal("bad request: "), message.as_str()),
            Error::Unsupported(message) => join(literal("unsupported: "), message.as_str()),
            Error::InvalidDump { path, line, message } => {
                let s = join(literal("invalid dump "), path.as_str());
                let s = join(s, ":");
                let s = join(s, decimal(*line as u64).as_str());
                let s = join(s, ": ");
                join(s, message.as_str())
            },
            Error::Io { path, source } => {
                let s = join(literal("I/O error at "), path.as_str());
                let s = join(s, ": ");
                join(s, io_text(source).as_str())
            },
            Error::InvalidStore(message) => join(literal("invalid store: "), message.as_str()),
            Error::Internal(message) => join(literal("internal error: "), message.as_str()),
        }
    }
}

} // verus!
