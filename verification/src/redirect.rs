//! The redirect classifier: whether a response is a redirect, and where to.

use crate::response::{parse_response, response_of, Response, ResponseView};
use vstd::prelude::*;

verus! {

/// The redirect verdict for one checked URL.
#[derive(Debug)]
pub struct URLResult {
    /// The status code of the response that gave the verdict.
    pub status: u16,
    /// The URL that was checked.
    pub url: String,
    /// Where the URL redirects to.
    pub redirect_to: String,
}

/// What a `URLResult` holds, as plain values.
pub struct URLResultView {
    pub status: u16,
    pub url: Seq<char>,
    pub redirect_to: Seq<char>,
}

impl View for URLResult {
    type V = URLResultView;

    open spec fn view(&self) -> URLResultView {
        URLResultView { status: self.status, url: self.url@, redirect_to: self.redirect_to@ }
    }
}

/// A status code announces a redirect when it lies strictly between 300 and 399.
pub open spec fn redirect_status(status: u16) -> bool {
    300 < status < 399
}

/// A response that announces a redirect and names no target for it.
pub open spec fn lacks_location(response: ResponseView) -> bool {
    redirect_status(response.status) && !response.headers.contains_key("Location"@)
}

/// The verdict on a response to a request for `requested`: the target of
/// the `Location` header where the status announces a redirect, else the
/// URL of the response where it differs from the one asked for, else none.
pub open spec fn verdict(response: ResponseView, requested: Seq<char>) -> Option<URLResultView> {
    if redirect_status(response.status) {
        Some(
            URLResultView {
                status: response.status,
                url: requested,
                redirect_to: response.headers["Location"@],
            },
        )
    } else if response.url != requested {
        Some(
            URLResultView {
                status: response.status,
                url: requested,
                redirect_to: response.url,
            },
        )
    } else {
        None
    }
}

/// Tells whether the status of a response announces a redirect.
pub fn is_redirect(resp: &Response) -> (b: bool)
    ensures
        b == redirect_status(resp.status),
{
    resp.status > 300 && resp.status - 300 < 99
}

/// The target that the `Location` header of a response names.
pub fn get_redirect_url(resp: Response) -> (target: String)
    requires
        resp.headers@.contains_key("Location"@),
    ensures
        target@ == resp.headers@["Location"@],
{
    resp.headers.get("Location").unwrap().clone()
}

/// Classifies a response to a request for `requested`.
pub fn classify(resp: Response, requested: &str) -> (r: Option<URLResult>)
    requires
        !lacks_location(resp@),
    ensures
        match r {
            Some(result) => verdict(resp@, requested@) == Some(result@),
            None => verdict(resp@, requested@) is None,
        },
{
    let status: u16 = resp.status;
    if is_redirect(&resp) {
        let redirect_to = get_redirect_url(resp);
        Some(URLResult { status, url: requested.to_owned(), redirect_to })
    } else if !(resp.url == requested.to_owned()) {
        Some(URLResult { status, url: requested.to_owned(), redirect_to: resp.url })
    } else {
        None
    }
}

/// The bytes of a reply, where there is one.
pub open spec fn reply_bytes(reply: Option<&[u8]>) -> Option<Seq<u8>> {
    match reply {
        Some(raw) => Some(raw@),
        None => None,
    }
}

/// The reply to a request for `url` parses to a response that announces a
/// redirect and names no target for it.
pub open spec fn reply_lacks_location(url: Seq<char>, reply: Option<Seq<u8>>) -> bool {
    match reply {
        Some(raw) => match response_of(url, raw) {
            Ok(response) => lacks_location(response),
            Err(_) => false,
        },
        None => false,
    }
}

/// The verdict on `url` after one exchange: none where no reply came or
/// the reply does not parse, else the verdict on the response.
pub open spec fn check_spec(url: Seq<char>, reply: Option<Seq<u8>>) -> Option<URLResultView> {
    match reply {
        Some(raw) => match response_of(url, raw) {
            Ok(response) => verdict(response, url),
            Err(_) => None,
        },
        None => None,
    }
}

/// Tells whether the reply to a request for `url` announces a redirect
/// without naming its target.
pub fn redirect_without_location(url: &str, reply: Option<&[u8]>) -> (b: bool)
    ensures
        b == reply_lacks_location(url@, reply_bytes(reply)),
{
    match reply {
        Some(raw) => match parse_response(url, raw) {
            Ok(resp) => is_redirect(&resp) && !resp.headers.contains_key("Location"),
            Err(_) => false,
        },
        None => false,
    }
}

/// Checks `url` against the reply that one exchange gave: `None` where the
/// exchange failed, else the bytes received. Gives the redirect found, or
/// nothing where there is none or the reply cannot be read.
pub fn check_url(url: &str, reply: Option<&[u8]>) -> (r: Option<URLResult>)
    requires
        !reply_lacks_location(url@, reply_bytes(reply)),
    ensures
        match r {
            Some(result) => check_spec(url@, reply_bytes(reply)) == Some(result@),
            None => check_spec(url@, reply_bytes(reply)) is None,
        },
{
    match reply {
        Some(raw) => match parse_response(url, raw) {
            Ok(resp) => classify(resp, url),
            Err(_) => None,
        },
        None => None,
    }
}

/// A response whose status lies strictly between 300 and 399 and which has
/// a `Location` header is a redirect to the value of that header.
pub proof fn lemma_redirect_status_gives_location(response: ResponseView, requested: Seq<char>)
    requires
        300 < response.status < 399,
        response.headers.contains_key("Location"@),
    ensures
        verdict(response, requested) == Some(
            URLResultView {
                status: response.status,
                url: requested,
                redirect_to: response.headers["Location"@],
            },
        ),
{
}

/// A response whose status lies outside 300 to 399 and whose URL is the
/// one asked for gives no verdict.
pub proof fn lemma_other_status_gives_nothing(response: ResponseView, requested: Seq<char>)
    requires
        response.status < 300 || response.status > 399,
        response.url == requested,
    ensures
        verdict(response, requested) is None,
{
}

/// After one exchange the response carries the URL that was asked for, so
/// a verdict is given exactly where the reply parses and its status
/// announces a redirect, and it names the `Location` header's value.
pub proof fn lemma_check_follows_status(url: Seq<char>, raw: Seq<u8>)
    ensures
        match response_of(url, raw) {
            Ok(response) => response.url == url && check_spec(url, Some(raw)) == (
            if redirect_status(response.status) {
                Some(
                    URLResultView {
                        status: response.status,
                        url: url,
                        redirect_to: response.headers["Location"@],
                    },
                )
            } else {
                None
            }),
            Err(_) => check_spec(url, Some(raw)) is None,
        },
{
}

} // verus!
