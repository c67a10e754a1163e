//! Building HTTP replies: the TOML envelope for any serializable value, the
//! classifier from storage failures to HTTP statuses, and the error-body
//! builder.

use vstd::prelude::*;
use vstd::utf8::encode_utf8;

use crate::diag::DiagnosticSink;
use crate::http::{
    HttpResponse, STATUS_BAD_REQUEST, STATUS_INTERNAL_SERVER_ERROR, STATUS_NOT_FOUND, STATUS_OK,
    STATUS_UNPROCESSABLE_ENTITY, toml_mime, toml_mime_type,
};
use crate::storage::{IoErrorKind, StorageError, message_spec};
use crate::toml_fmt::{error_body_bytes, error_body_chars};

verus! {

/// A TOML-formatted reply body: either the encoded bytes, or the marker of
/// an encoding failure with no recoverable payload.  The two states are
/// mutually exclusive by construction.
pub struct Toml {
    inner: Result<Vec<u8>, ()>,
}

impl View for Toml {
    type V = Result<Seq<u8>, ()>;

    closed spec fn view(&self) -> Result<Seq<u8>, ()> {
        match self.inner {
            Ok(b) => Ok(b@),
            Err(_) => Err(()),
        }
    }
}

impl Toml {
    /// The response for this body alone: the encoded bytes under the fixed
    /// TOML content type with the default success status, or, after an
    /// encoding failure, an internal-server-error response with no body and
    /// no content type, so nothing of the failure leaks to the client.
    pub fn into_response(self) -> (r: HttpResponse)
        ensures
            self@ matches Ok(b) ==> {
                &&& r.status == STATUS_OK
                &&& r.content_type matches Some(ct) && ct@ == toml_mime()
                &&& r.body@ == b
            },
            self@ is Err ==> {
                &&& r.status == STATUS_INTERNAL_SERVER_ERROR
                &&& r.content_type is None
                &&& r.body@.len() == 0
            },
    {
        match self.inner {
            Ok(body) => HttpResponse {
                status: STATUS_OK,
                content_type: Some(toml_mime_type().to_owned()),
                body,
            },
            Err(_) => HttpResponse {
                status: STATUS_INTERNAL_SERVER_ERROR,
                content_type: None,
                body: Vec::new(),
            },
        }
    }
}

/// A TOML reply together with the status the caller decided on.
pub struct WithStatus {
    pub reply: Toml,
    pub status: u16,
}

/// Pairs a reply with an explicit status code.
pub fn with_status(reply: Toml, status: u16) -> (r: WithStatus)
    ensures
        r.reply == reply,
        r.status == status,
{
    WithStatus { reply, status }
}

impl WithStatus {
    /// The response for this reply: the body under the caller's status, or,
    /// after an encoding failure, an internal-server-error response with no
    /// body — an encoding failure is never reported under any other status.
    pub fn into_response(self) -> (r: HttpResponse)
        ensures
            self.reply@ matches Ok(b) ==> {
                &&& r.status == self.status
                &&& r.content_type matches Some(ct) && ct@ == toml_mime()
                &&& r.body@ == b
            },
            self.reply@ is Err ==> {
                &&& r.status == STATUS_INTERNAL_SERVER_ERROR
                &&& r.content_type is None
                &&& r.body@.len() == 0
            },
    {
        match self.reply.inner {
            Ok(body) => HttpResponse {
                status: self.status,
                content_type: Some(toml_mime_type().to_owned()),
                body,
            },
            Err(_) => HttpResponse {
                status: STATUS_INTERNAL_SERVER_ERROR,
                content_type: None,
                body: Vec::new(),
            },
        }
    }
}

/// Relies on `toml::to_vec`: encodes any serializable value as the bytes of
/// a TOML document, or reports the failure as its text.
#[verifier::external_body]
fn toml_encode<T: serde::Serialize>(val: &T) -> (r: Result<Vec<u8>, String>)
{
    match ::toml::to_vec(val) {
        Ok(b) => Ok(b),
        Err(e) => Err(e.to_string()),
    }
}

/// Turns the outcome of an encoding attempt into a reply body: encoded
/// bytes pass through unchanged, and a failure is absorbed into the failure
/// marker with exactly one diagnostic record — never zero, never more than
/// one — appended to the sink.  On success the sink is left untouched.
pub fn wrap_encoded(encoded: Result<Vec<u8>, String>, sink: &mut DiagnosticSink) -> (r: Toml)
    ensures
        match encoded {
            Ok(body) => r@ == Ok::<Seq<u8>, ()>(body@) && final(sink)@ == old(sink)@,
            Err(text) => r@ == Err::<Seq<u8>, ()>(()) && final(sink)@ == old(sink)@.push(
                "error while serializing TOML: "@ + text@,
            ),
        },
{
    match encoded {
        Ok(body) => Toml { inner: Ok(body) },
        Err(text) => {
            let line = "error while serializing TOML: ".to_owned().concat(text.as_str());
            sink.record(line);
            Toml { inner: Err(()) }
        },
    }
}

/// Wraps any serializable value as a TOML reply body.  Encoding failure is
/// fully absorbed: the reply carries the failure marker, and exactly one
/// diagnostic record — never zero, never more than one — is appended to the
/// sink.  On success the sink is left untouched.
pub fn toml<T: serde::Serialize>(val: &T, sink: &mut DiagnosticSink) -> (r: Toml)
    ensures
        r@ is Ok ==> final(sink)@ == old(sink)@,
        r@ is Err ==> {
            &&& final(sink)@.len() == old(sink)@.len() + 1
            &&& final(sink)@.subrange(0, old(sink)@.len() as int) == old(sink)@
            &&& exists|t: Seq<char>|
                final(sink)@ == old(sink)@.push("error while serializing TOML: "@ + t)
        },
{
    let encoded = toml_encode(val);
    let ghost failure_text: Seq<char> = (match &encoded {
        Ok(_) => Seq::<char>::empty(),
        Err(t) => t@,
    });
    let r = wrap_encoded(encoded, sink);
    proof {
        if r@ is Err {
            assert(final(sink)@ == old(sink)@.push(
                "error while serializing TOML: "@ + failure_text,
            ));
        }
        assert(final(sink)@.subrange(0, old(sink)@.len() as int) =~= old(sink)@);
    }
    r
}

/// The status each storage failure resolves to, together with the failure
/// kind a client will see: an I/O failure for an absent resource is remapped
/// to `NotFound`, so its status and message agree with the domain-level
/// notion of a missing resource; every other kind passes through unchanged.
pub open spec fn classify_spec(error: StorageError) -> (StorageError, u16) {
    match error {
        StorageError::Yanked => (StorageError::Yanked, STATUS_BAD_REQUEST),
        StorageError::CreateYanked => (StorageError::CreateYanked, STATUS_UNPROCESSABLE_ENTITY),
        StorageError::NotFound => (StorageError::NotFound, STATUS_NOT_FOUND),
        StorageError::IO { kind, detail } => match kind {
            IoErrorKind::ResourceAbsent => (StorageError::NotFound, STATUS_NOT_FOUND),
            IoErrorKind::Other => (
                StorageError::IO { kind: IoErrorKind::Other, detail },
                STATUS_INTERNAL_SERVER_ERROR,
            ),
        },
        StorageError::Exists => (StorageError::Exists, STATUS_BAD_REQUEST),
        StorageError::Malformed(m) => (StorageError::Malformed(m), STATUS_BAD_REQUEST),
        StorageError::Unserializable(m) => (StorageError::Unserializable(m), STATUS_BAD_REQUEST),
        StorageError::DigestMismatch => (StorageError::DigestMismatch, STATUS_BAD_REQUEST),
        StorageError::InvalidId => (StorageError::InvalidId, STATUS_BAD_REQUEST),
    }
}

/// Resolves a storage failure to the kind a client will see and its HTTP
/// status, exactly as `classify_spec` states.  The match is exhaustive over
/// the closed kind set, with no default arm to swallow a new kind.
pub fn classify(error: StorageError) -> (r: (StorageError, u16))
    ensures
        r == classify_spec(error),
{
    match error {
        StorageError::Yanked => (StorageError::Yanked, STATUS_BAD_REQUEST),
        StorageError::CreateYanked => (StorageError::CreateYanked, STATUS_UNPROCESSABLE_ENTITY),
        StorageError::NotFound => (StorageError::NotFound, STATUS_NOT_FOUND),
        StorageError::IO { kind, detail } => match kind {
            IoErrorKind::ResourceAbsent => (StorageError::NotFound, STATUS_NOT_FOUND),
            IoErrorKind::Other => (
                StorageError::IO { kind: IoErrorKind::Other, detail },
                STATUS_INTERNAL_SERVER_ERROR,
            ),
        },
        StorageError::Exists => (StorageError::Exists, STATUS_BAD_REQUEST),
        StorageError::Malformed(m) => (StorageError::Malformed(m), STATUS_BAD_REQUEST),
        StorageError::Unserializable(m) => (StorageError::Unserializable(m), STATUS_BAD_REQUEST),
        StorageError::DigestMismatch => (StorageError::DigestMismatch, STATUS_BAD_REQUEST),
        StorageError::InvalidId => (StorageError::InvalidId, STATUS_BAD_REQUEST),
    }
}

/// Builds the error reply for a message and an explicit status: the body is
/// the one-field TOML document `error = "<message>"`, with the message
/// escaped through the TOML string-encoding path, and the reply carries the
/// given status.
pub fn reply_from_error(error: &str, status_code: u16) -> (r: WithStatus)
    ensures
        r.status == status_code,
        r.reply@ == Ok::<Seq<u8>, ()>(encode_utf8(error_body_chars(error@))),
{
    with_status(Toml { inner: Ok(error_body_bytes(error)) }, status_code)
}

/// Builds the full error reply for a storage failure: the failure is
/// classified, and the reply carries the resolved status with the body
/// rendering the message of the remapped kind — not the original — so the
/// text a client sees agrees with the final classification.
pub fn into_reply(error: StorageError) -> (r: WithStatus)
    ensures
        r.status == classify_spec(error).1,
        r.reply@ == Ok::<Seq<u8>, ()>(
            encode_utf8(error_body_chars(message_spec(classify_spec(error).0))),
        ),
{
    let (remapped, status_code) = classify(error);
    let message = remapped.message();
    reply_from_error(message.as_str(), status_code)
}

/// Every storage failure classifies to a status from the fixed table: the
/// mapping is total over the closed kind set and never yields a status
/// outside it.
pub proof fn lemma_classify_total(error: StorageError)
    ensures
        classify_spec(error).1 == STATUS_BAD_REQUEST || classify_spec(error).1 == STATUS_NOT_FOUND
            || classify_spec(error).1 == STATUS_UNPROCESSABLE_ENTITY || classify_spec(error).1
            == STATUS_INTERNAL_SERVER_ERROR,
{
}

/// An I/O failure for an absent resource classifies to exactly the same
/// kind and status as a domain-level `NotFound`.
pub proof fn lemma_io_absent_classifies_as_not_found(detail: String)
    ensures
        classify_spec((StorageError::IO { kind: IoErrorKind::ResourceAbsent, detail }))
            == classify_spec(StorageError::NotFound),
{
}

} // verus!
