//! The HTTP client's share of the engine: the text of a request, and the
//! text of what came back.
//!
//! Sending the request and receiving the bytes of the response is the work
//! of the network layer around the engine; what is sent and how the bytes
//! are read is decided here.

use crate::error::Error;
use std::string::FromUtf8Error;
use vstd::prelude::*;
use vstd::utf8::encode_utf8;

verus! {

/// Why bytes are no UTF-8 text, as the standard library reports it.
#[verifier::external_type_specification]
#[verifier::external_body]
pub struct ExFromUtf8Error(FromUtf8Error);

/// The text of a `GET` request for `path` on `host`: the request line, the
/// `Host`, `Accept` and `Connection` headers, and an empty line.
pub open spec fn request_text(host: Seq<char>, path: Seq<char>) -> Seq<char> {
    "GET /"@ + path + " HTTP/1.1\n"@ + "Host: "@ + host + "\n"@ + "Accept: text/html\n"@
        + "Connection: close\n"@ + "\n"@
}

/// How the message of the error for a response that is no text begins.
pub open spec fn invalid_response_prefix() -> Seq<char> {
    "Invalid received response: "@
}

/// The text that bytes stand for when read as UTF-8, or `None` if the
/// bytes are no valid UTF-8: what `String::from_utf8` makes of them.
pub uninterp spec fn decoded_utf8(bytes: Seq<u8>) -> Option<Seq<char>>;

/// Reads bytes as UTF-8 text.
///
/// Trusted: wraps `String::from_utf8`, which std documents as converting a
/// vector of bytes to a `String` without copying, after checking that the
/// bytes are valid UTF-8, and as failing if they are not. The contract
/// names the outcome [`decoded_utf8`], a function of the bytes alone, and
/// claims that a string that comes back is made of the bytes that were
/// given: they are the UTF-8 encoding of its characters.
#[verifier::external_body]
fn string_from_utf8(bytes: Vec<u8>) -> (r: Result<String, FromUtf8Error>)
    ensures
        r is Ok <==> decoded_utf8(bytes@) is Some,
        r matches Ok(s) ==> decoded_utf8(bytes@) == Some(s@) && encode_utf8(s@) == bytes@,
{
    String::from_utf8(bytes)
}

/// What the standard library says of bytes that are no UTF-8 text.
///
/// Trusted: wraps the `Display` text of `FromUtf8Error`. Nothing is claimed
/// of the text.
#[verifier::external_body]
fn utf8_error_text(e: &FromUtf8Error) -> (s: String) {
    format!("{}", e)
}

/// The response for what reading the received bytes as text gave: the text
/// itself, or a `Network` error whose message begins with `Invalid received
/// response: ` and goes on with the reason.
pub fn response_from(decoded: Result<String, FromUtf8Error>) -> (r: Result<String, Error>)
    ensures
        decoded matches Ok(s) ==> r is Ok && r->Ok_0@ == s@,
        decoded is Err ==> r is Err && r->Err_0 is Network && r->Err_0.message().len()
            >= invalid_response_prefix().len() && r->Err_0.message().take(
            invalid_response_prefix().len() as int,
        ) == invalid_response_prefix(),
{
    match decoded {
        Ok(text) => Ok(text),
        Err(e) => {
            let mut message = String::from_str("Invalid received response: ");
            let reason = utf8_error_text(&e);
            message.append(reason.as_str());
            assert(message@.take(invalid_response_prefix().len() as int)
                =~= invalid_response_prefix());
            Err(Error::Network(message))
        },
    }
}

/// The received bytes of a response as text. Bytes that are valid UTF-8
/// give the text that they encode; any other bytes are refused with a
/// `Network` error whose message begins with `Invalid received response: `.
pub fn response_text(received: Vec<u8>) -> (r: Result<String, Error>)
    ensures
        decoded_utf8(received@) matches Some(text) ==> r is Ok && r->Ok_0@ == text,
        r matches Ok(s) ==> encode_utf8(s@) == received@,
        decoded_utf8(received@) is None ==> r is Err && r->Err_0 is Network
            && r->Err_0.message().len() >= invalid_response_prefix().len()
            && r->Err_0.message().take(invalid_response_prefix().len() as int)
            == invalid_response_prefix(),
{
    response_from(string_from_utf8(received))
}

/// A client for plain HTTP.
#[derive(Debug, Clone, PartialEq, Eq)]
pub struct HttpClient {}

impl HttpClient {
    /// A client.
    pub fn new() -> (c: HttpClient) {
        HttpClient {  }
    }

    /// The request that fetches `path` from `host`.
    pub fn request(&self, host: &str, path: &str) -> (r: String)
        ensures
            r@ == request_text(host@, path@),
    {
        let mut request = String::from_str("GET /");
        request.append(path);
        request.append(" HTTP/1.1\n");
        request.append("Host: ");
        request.append(host);
        request.append("\n");
        request.append("Accept: text/html\n");
        request.append("Connection: close\n");
        request.append("\n");
        request
    }
}

} // verus!
