//! The closed set of failures the storage collaborator can report, together
//! with the terse message text each one renders to.
//!
//! The storage engine itself is outside this library; what matters here is
//! the exact taxonomy of its errors, since every kind must resolve to one
//! HTTP status and one message.  An I/O failure is carried as the pair of
//! the detail this layer reads from it: whether the underlying resource was
//! absent, and the failure's own text.

use vstd::prelude::*;

verus! {

/// What this layer reads out of an I/O failure: either the underlying
/// resource was absent, or the failure was of some other nature.
#[derive(Debug)]
pub enum IoErrorKind {
    /// The operating system reported that the resource does not exist.
    ResourceAbsent,
    /// Any other I/O failure.
    Other,
}

/// The closed set of storage failure kinds.  Every kind resolves to exactly
/// one HTTP status under classification; see the reply module.
#[derive(Debug)]
pub enum StorageError {
    /// The requested bindle exists but has been yanked.
    Yanked,
    /// A bindle cannot be created in the yanked state.
    CreateYanked,
    /// The requested resource does not exist.
    NotFound,
    /// An I/O failure, reduced to the detail this layer reads from it.
    IO { kind: IoErrorKind, detail: String },
    /// The resource already exists and cannot be created again.
    Exists,
    /// The bindle is malformed; the payload is the parse failure's text.
    Malformed(String),
    /// The bindle cannot be serialized; the payload is the failure's text.
    Unserializable(String),
    /// The content digest does not match the stored data.
    DigestMismatch,
    /// The given ID is not a valid bindle ID.
    InvalidId,
}

/// The terse message each storage failure renders to.
pub open spec fn message_spec(e: StorageError) -> Seq<char> {
    match e {
        StorageError::Yanked => "bindle is yanked"@,
        StorageError::CreateYanked => "bindle cannot be created as yanked"@,
        StorageError::NotFound => "resource not found"@,
        StorageError::IO { kind, detail } => "I/O error: "@ + detail@,
        StorageError::Exists => "resource already exists"@,
        StorageError::Malformed(m) => "malformed bindle: "@ + m@,
        StorageError::Unserializable(m) => "unserializable bindle: "@ + m@,
        StorageError::DigestMismatch => "digest does not match"@,
        StorageError::InvalidId => "invalid ID given"@,
    }
}

impl StorageError {
    /// The terse message text for this failure, exactly as `message_spec`
    /// states it.
    pub fn message(&self) -> (r: String)
        ensures
            r@ == message_spec(*self),
    {
        match self {
            StorageError::Yanked => "bindle is yanked".to_owned(),
            StorageError::CreateYanked => "bindle cannot be created as yanked".to_owned(),
            StorageError::NotFound => "resource not found".to_owned(),
            StorageError::IO { kind, detail } => "I/O error: ".to_owned().concat(
                detail.as_str(),
            ),
            StorageError::Exists => "resource already exists".to_owned(),
            StorageError::Malformed(m) => "malformed bindle: ".to_owned().concat(m.as_str()),
            StorageError::Unserializable(m) => "unserializable bindle: ".to_owned().concat(
                m.as_str(),
            ),
            StorageError::DigestMismatch => "digest does not match".to_owned(),
            StorageError::InvalidId => "invalid ID given".to_owned(),
        }
    }
}

} // verus!
