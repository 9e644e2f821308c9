//! The lookup of one domain: where to ask, what to send, and what part of
//! the answer is the page.

use crate::ipv4::dot;
use crate::lines::{append, pieces, split};
use crate::text::{chars_of, copy_range, find_from, first_occurrence, string_of, views};
use vstd::prelude::*;
use vstd::utf8::{decode_utf8, encode_utf8, encode_utf8_decode_utf8, valid_utf8};

verus! {

/// What follows the registrable root of a domain in the name of the lookup
/// service's host.
pub const LOOKUP_SUFFIX: &'static str = ".ipaddress.com";

/// The port of the lookup service, as it follows the host.
pub const LOOKUP_PORT: &'static str = ":443";

/// What stands between the head and the body of a response.
pub const BLANK_LINE: &'static str = "\r\n\r\n";

/// Why the page of a domain could not be had.
#[derive(Clone, Copy, Debug, PartialEq, Eq, Structural)]
pub enum FetchError {
    /// The address of the lookup service was not found.
    Resolve,
    /// No connection to the lookup service.
    Connect,
    /// The secure transport was not agreed on.
    Handshake,
    /// The request could not be written.
    Write,
    /// The response could not be read.
    Read,
    /// The response is no text.
    NotText,
}

impl FetchError {
    /// The error in words.
    pub fn description(&self) -> (words: String)
        ensures
            words@ == match *self {
                FetchError::Resolve => "address of the lookup service not found"@,
                FetchError::Connect => "connection failed"@,
                FetchError::Handshake => "secure handshake failed"@,
                FetchError::Write => "request not written"@,
                FetchError::Read => "response not read"@,
                FetchError::NotText => "response is not text"@,
            },
    {
        match self {
            FetchError::Resolve => "address of the lookup service not found".to_owned(),
            FetchError::Connect => "connection failed".to_owned(),
            FetchError::Handshake => "secure handshake failed".to_owned(),
            FetchError::Write => "request not written".to_owned(),
            FetchError::Read => "response not read".to_owned(),
            FetchError::NotText => "response is not text".to_owned(),
        }
    }
}

/// The labels of a domain: its parts between the dots.
pub open spec fn labels(domain: Seq<char>) -> Seq<Seq<char>> {
    pieces(domain, dot())
}

/// The host of the lookup service for `domain`: the last two labels of a
/// domain of more than two labels, else the domain itself, and the suffix.
pub open spec fn service_host(domain: Seq<char>) -> Seq<char> {
    let parts = labels(domain);
    if parts.len() > 2 {
        parts[parts.len() - 2] + dot() + parts[parts.len() - 1] + LOOKUP_SUFFIX@
    } else {
        domain + LOOKUP_SUFFIX@
    }
}

/// The path to ask the lookup service for: the domain itself where it has
/// more than two labels, else the root.
pub open spec fn request_path(domain: Seq<char>) -> Seq<char> {
    if labels(domain).len() > 2 {
        seq!['/'] + domain
    } else {
        seq!['/']
    }
}

/// The request for `path` at `host`.
pub open spec fn request(host: Seq<char>, path: Seq<char>) -> Seq<char> {
    "GET "@ + path + " HTTP/1.0\r\nHost:"@ + host + BLANK_LINE@
}

/// The body of a response: the response from its first blank line on, the
/// whole response where it has none.
pub open spec fn body_of(response: Seq<char>) -> Seq<char> {
    match first_occurrence(response, BLANK_LINE@) {
        Some(at) => response.skip(at),
        None => response,
    }
}

/// The host of the lookup service and the path to ask it for.
pub fn parse_url(domain: &str) -> (target: (String, String))
    ensures
        target.0@ == service_host(domain@),
        target.1@ == request_path(domain@),
        labels(domain@).len() == 2 ==> target.0@ == domain@ + LOOKUP_SUFFIX@ && target.1@
            == seq!['/'],
        labels(domain@).len() > 2 ==> target.1@ == seq!['/'] + domain@ && target.0@ == labels(
            domain@,
        )[labels(domain@).len() - 2] + dot() + labels(domain@)[labels(domain@).len() - 1]
            + LOOKUP_SUFFIX@,
{
    let name = chars_of(domain);
    let mut cut: Vec<char> = Vec::new();
    cut.push('.');
    assert(cut@ =~= dot());
    let parts = split(&name, &cut);
    let suffix = chars_of(LOOKUP_SUFFIX);
    let mut host: Vec<char> = Vec::new();
    let mut path: Vec<char> = Vec::new();
    path.push('/');
    let n = parts.len();
    if n > 2 {
        assert(views(parts@)[n - 2] == parts@[n - 2]@);
        assert(views(parts@)[n - 1] == parts@[n - 1]@);
        append(&mut host, &parts[n - 2]);
        host.push('.');
        append(&mut host, &parts[n - 1]);
        append(&mut path, &name);
        assert(host@ =~= parts@[n - 2]@ + dot() + parts@[n - 1]@);
    } else {
        append(&mut host, &name);
        assert(host@ =~= name@);
    }
    append(&mut host, &suffix);
    assert(path@ =~= request_path(domain@));
    (string_of(&host), string_of(&path))
}

/// The address to connect to: the host and the port of the lookup service.
pub fn socket_address(host: &str) -> (address: String)
    ensures
        address@ == host@ + LOOKUP_PORT@,
{
    let mut out = chars_of(host);
    append(&mut out, &chars_of(LOOKUP_PORT));
    string_of(&out)
}

/// The request to send for `path` at `host`.
pub fn request_text(host: &str, path: &str) -> (text: String)
    ensures
        text@ == request(host@, path@),
{
    let mut out = chars_of("GET ");
    append(&mut out, &chars_of(path));
    append(&mut out, &chars_of(" HTTP/1.0\r\nHost:"));
    append(&mut out, &chars_of(host));
    append(&mut out, &chars_of(BLANK_LINE));
    string_of(&out)
}

/// The body of `response`.
pub fn response_body(response: &str) -> (body: String)
    ensures
        body@ == body_of(response@),
{
    let text = chars_of(response);
    let from = match find_from(&text, &chars_of(BLANK_LINE), 0) {
        Some(at) => at,
        None => 0,
    };
    proof {
        crate::text::lemma_first_occurrence_from(text@, BLANK_LINE@, 0);
        assert(text@.skip(0) == text@);
    }
    string_of(&copy_range(&text, from, text.len()))
}

/// The text that `bytes` encode, as `String::from_utf8` gives it: there is
/// one where the bytes are valid UTF-8, and it is the text whose encoding
/// they are.
#[verifier::external_body]
fn text_of(bytes: Vec<u8>) -> (text: Option<String>)
    ensures
        text is Some <==> valid_utf8(bytes@),
        text matches Some(decoded) ==> encode_utf8(decoded@) == bytes@,
{
    String::from_utf8(bytes).ok()
}

/// The body of the response that was read as `bytes`; bytes that are no
/// text are an error.
pub fn page_of(bytes: Vec<u8>) -> (page: Result<String, FetchError>)
    ensures
        page is Ok <==> valid_utf8(bytes@),
        page matches Ok(body) ==> body@ == body_of(decode_utf8(bytes@)),
        page matches Err(error) ==> error == FetchError::NotText,
{
    match text_of(bytes) {
        Some(response) => {
            proof {
                encode_utf8_decode_utf8(response@);
            }
            Ok(response_body(response.as_str()))
        },
        None => Err(FetchError::NotText),
    }
}

} // verus!
