//! A plain model of the HTTP response surface this library produces: a status
//! code, an optional content type, and a body of bytes.  The transport layer
//! converts values of this type into whatever response type its framework
//! expects.

use vstd::prelude::*;

verus! {

/// Status for a successful reply whose caller supplied no other status.
pub const STATUS_OK: u16 = 200;

/// Status for a request the client made in error.
pub const STATUS_BAD_REQUEST: u16 = 400;

/// Status for a resource that does not exist.
pub const STATUS_NOT_FOUND: u16 = 404;

/// Status for a request that was well-formed but cannot be processed.
pub const STATUS_UNPROCESSABLE_ENTITY: u16 = 422;

/// Status for an unexpected failure inside the server.
pub const STATUS_INTERNAL_SERVER_ERROR: u16 = 500;

/// The characters of the fixed MIME string attached to every TOML body.
pub open spec fn toml_mime() -> Seq<char> {
    "application/toml"@
}

/// The fixed MIME string attached to every TOML body.
pub fn toml_mime_type() -> (r: &'static str)
    ensures
        r@ == toml_mime(),
{
    "application/toml"
}

/// One HTTP response, ready for a transport layer to send: the resolved
/// status code, the content type if one is set, and the raw body bytes.
pub struct HttpResponse {
    pub status: u16,
    pub content_type: Option<String>,
    pub body: Vec<u8>,
}

} // verus!
