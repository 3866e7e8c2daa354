//! Queries over DNS-over-HTTPS.

use base64::engine::general_purpose::URL_SAFE_NO_PAD;
use base64::Engine;
use vstd::prelude::*;

verus! {

/// What `URL_SAFE_NO_PAD.decode` of `base64` makes of a text: the bytes, or the text
/// of its error.
pub uninterp spec fn url_safe_base64(text: Seq<char>) -> Result<Seq<u8>, Seq<char>>;

/// `URL_SAFE_NO_PAD.decode` of `base64` decodes the URL-safe alphabet without
/// padding. A name stands for the result. The error is handed on as its text.
#[verifier::external_body]
fn decode_url_safe(text: &str) -> (r: Result<Vec<u8>, String>)
    ensures
        match r {
            Ok(bytes) => url_safe_base64(text@) == Ok::<Seq<u8>, Seq<char>>(bytes@),
            Err(e) => url_safe_base64(text@) == Err::<Seq<u8>, Seq<char>>(e@),
        },
{
    URL_SAFE_NO_PAD.decode(text).map_err(|e| e.to_string())
}

/// What to do about an HTTP request.
pub enum DohRequest {
    /// Answer this query.
    Query(Vec<u8>),
    /// Refuse the request as malformed.
    BadRequest,
}

pub const STATUS_OK: u16 = 200;

pub const STATUS_BAD_REQUEST: u16 = 400;

/// What to do about a GET request, given what its parameter decodes to.
pub open spec fn requested(decoded: Result<Vec<u8>, String>) -> DohRequest {
    match decoded {
        Ok(bytes) => DohRequest::Query(bytes),
        Err(_) => DohRequest::BadRequest,
    }
}

/// The status of the response to a request.
pub open spec fn status_of(request: DohRequest) -> u16 {
    match request {
        DohRequest::Query(_) => STATUS_OK,
        DohRequest::BadRequest => STATUS_BAD_REQUEST,
    }
}

/// A parameter that can be decoded is the query, byte for byte, and is answered with
/// status 200. One that cannot is refused with status 400.
pub proof fn law_what_is_asked_over_http(bytes: Vec<u8>, error: String)
    ensures
        requested(Ok(bytes)) matches DohRequest::Query(query) && query@ == bytes@,
        status_of(requested(Ok(bytes))) == 200,
        requested(Err(error)) == DohRequest::BadRequest,
        status_of(requested(Err(error))) == 400,
{
}

/// What to do about a GET request, given what its parameter decodes to.
pub fn get_request(decoded: Result<Vec<u8>, String>) -> (r: DohRequest)
    ensures
        r == requested(decoded),
{
    match decoded {
        Ok(bytes) => DohRequest::Query(bytes),
        Err(_) => DohRequest::BadRequest,
    }
}

/// What to do about a GET request, whose parameter is the query in URL-safe base64.
pub fn handle_get(dns: &str) -> (r: DohRequest)
    ensures
        match url_safe_base64(dns@) {
            Ok(bytes) => r matches DohRequest::Query(q) && q@ == bytes,
            Err(_) => r is BadRequest,
        },
{
    get_request(decode_url_safe(dns))
}

/// The status of the HTTP response.
pub fn status(request: &DohRequest) -> (r: u16)
    ensures
        r == status_of(*request),
{
    match request {
        DohRequest::Query(_) => STATUS_OK,
        DohRequest::BadRequest => STATUS_BAD_REQUEST,
    }
}

} // verus!
