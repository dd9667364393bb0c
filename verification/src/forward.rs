//! A reverse proxy that sends every request on to one upstream site: the
//! upstream URL a request goes to, and the reply made from what came back.

use vstd::prelude::*;

verus! {

broadcast use vstd::string::group_string_axioms;

/// The upstream site that requests are sent on to.
#[derive(Debug)]
pub struct OutUrl {
    pub url: String,
}

/// Why a reply could not be made from the upstream response.
#[derive(Debug)]
pub enum HotMess {
    InvalidLength,
    InvalidBody(String),
    IoCopyErr(String),
    FailedBufFlush(String),
}

/// The text that describes a `HotMess`.
pub open spec fn hot_mess_message(m: HotMess) -> Seq<char> {
    match m {
        HotMess::InvalidLength => "Invalid length received"@,
        HotMess::InvalidBody(e) => "Could not fetch body: "@ + e@,
        HotMess::IoCopyErr(e) => "Could not copy response body: "@ + e@,
        HotMess::FailedBufFlush(e) => "Failed to flush the buffer: "@ + e@,
    }
}

impl HotMess {
    /// The text that describes this error.
    pub fn message(&self) -> (s: String)
        ensures
            s@ == hot_mess_message(*self),
    {
        match self {
            HotMess::InvalidLength => String::from_str("Invalid length received"),
            HotMess::InvalidBody(e) => {
                let mut s = String::from_str("Could not fetch body: ");
                s.append(e.as_str());
                s
            },
            HotMess::IoCopyErr(e) => {
                let mut s = String::from_str("Could not copy response body: ");
                s.append(e.as_str());
                s
            },
            HotMess::FailedBufFlush(e) => {
                let mut s = String::from_str("Failed to flush the buffer: ");
                s.append(e.as_str());
                s
            },
        }
    }
}

/// The reply to a proxied request.
#[derive(Debug)]
pub enum Reply {
    /// `200 OK` with an empty body.
    Empty,
    /// `200 OK`, content type `text/html`, with this body.
    Html(Vec<u8>),
    /// `500 Internal Server Error` describing this error.
    InternalError(HotMess),
    /// `500 Internal Server Error` with this text as its body.
    RequestFailed(String),
}

/// Copies the upstream body into the buffer that the reply is sent from.
pub fn buffered_copy(content: &[u8]) -> (buf: Vec<u8>)
    ensures
        buf@ == content@,
{
    let n = content.len();
    let mut buf: Vec<u8> = Vec::new();
    for i in 0..n
        invariant
            n == content@.len(),
            buf@ == content@.take(i as int),
    {
        buf.push(content[i]);
        assert(buf@ =~= content@.take(i + 1));
    }
    assert(content@.take(n as int) =~= content@);
    buf
}

/// The reply made from the upstream response body, or from the text of the
/// error met while reading it.
///
/// A body that could not be read gives `InternalError(InvalidBody(..))`. An
/// empty body gives `Empty`. Any other body is copied through unchanged as
/// the body of the `Html` reply.
pub fn handle_response(fetched: Result<Vec<u8>, String>) -> (r: Reply)
    ensures
        (match fetched {
            Err(e) => r matches Reply::InternalError(HotMess::InvalidBody(m)) && m@ == e@,
            Ok(c) => if c@.len() == 0 {
                r matches Reply::Empty
            } else {
                r matches Reply::Html(b) && b@ == c@
            },
        }),
{
    let content = match fetched {
        Ok(b) => b,
        Err(e) => {
            return Reply::InternalError(HotMess::InvalidBody(e));
        },
    };
    if content.len() == 0 {
        return Reply::Empty;
    }
    Reply::Html(buffered_copy(content.as_slice()))
}

/// The text of the reply when the upstream request failed with `err`.
pub open spec fn request_failed_text(err: Seq<char>) -> Seq<char> {
    "Error requesting path: "@ + err
}

/// The reply when the upstream request failed with the error text `err`.
pub fn request_failed(err: &str) -> (r: Reply)
    ensures
        r matches Reply::RequestFailed(t) && t@ == request_failed_text(err@),
{
    let mut s = String::from_str("Error requesting path: ");
    s.append(err);
    Reply::RequestFailed(s)
}

/// The upstream URL for a request with URI `uri`: the site's URL, `/`, and
/// the URI without its first character.
pub open spec fn target_url(site: Seq<char>, uri: Seq<char>) -> Seq<char> {
    site + seq!['/'] + uri.skip(1)
}

/// The upstream URL that a request with URI `uri` is sent to. The URI must
/// start with an ASCII character (`/`, for a request in origin form).
pub fn get_out(uri: &str, out: &OutUrl) -> (url: String)
    requires
        uri@.len() >= 1,
        (uri@[0] as u32) < 128,
    ensures
        url@ == target_url(out.url@, uri@),
{
    let len = uri.unicode_len();
    let path = uri.substring_char(1, len);
    let mut url = out.url.clone();
    url.append("/");
    url.append(path);
    proof {
        reveal_strlit("/");
    }
    assert(url@ =~= target_url(out.url@, uri@));
    url
}

} // verus!
