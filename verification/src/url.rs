//! Decomposition of a URL into the address to connect to, the path to
//! ask for and the choice between a plain and a TLS connection, and the
//! bytes of the request itself.

use crate::text::{
    chars_of, contains, find, find_in, lemma_find_contains, lemma_find_from, occurs_at, string_of,
};
use vstd::prelude::*;
use vstd::slice::slice_subrange;
use vstd::string::StrSliceExecFns;
use vstd::string::StringExecFns;
use vstd::utf8::encode_utf8;

verus! {

/// Where and how to send the request for one URL.
#[derive(Debug)]
pub struct Endpoint {
    /// Host and port, joined by a colon.
    pub server: String,
    /// The path named in the request line.
    pub path: String,
    /// Whether the connection is wrapped in TLS.
    pub using_tls: bool,
}

/// A URL asks for TLS when `https` stands anywhere in it.
pub open spec fn uses_tls(url: Seq<char>) -> bool {
    contains(url, "https"@)
}

/// The colon and port that are added to a host named without a port.
pub open spec fn port_suffix(tls: bool) -> Seq<char> {
    if tls {
        ":443"@
    } else {
        ":80"@
    }
}

/// The URL after its first `://`, or the whole URL where it has none.
pub open spec fn without_scheme(url: Seq<char>) -> Seq<char> {
    match find(url, "://"@) {
        Some(i) => url.skip(i + "://"@.len()),
        None => url,
    }
}

/// The host: what stands before the first `/` after the scheme.
pub open spec fn host_of(url: Seq<char>) -> Seq<char> {
    let rest = without_scheme(url);
    match find(rest, "/"@) {
        Some(i) => rest.take(i),
        None => rest,
    }
}

/// The path: what follows the host, or `/` where nothing follows it.
pub open spec fn path_of(url: Seq<char>) -> Seq<char> {
    let rest = without_scheme(url);
    match find(rest, "/"@) {
        Some(i) => rest.skip(i),
        None => "/"@,
    }
}

/// The address to connect to: the host, with the port of the scheme added
/// where the host names none.
pub open spec fn server_of(url: Seq<char>) -> Seq<char> {
    let host = host_of(url);
    if contains(host, ":"@) {
        host
    } else {
        host + port_suffix(uses_tls(url))
    }
}

/// Whatever the URL, the server address names a port and the path starts
/// with a slash.
pub proof fn lemma_endpoint_shape(url: Seq<char>)
    ensures
        contains(server_of(url), ":"@),
        path_of(url).len() > 0,
        path_of(url)[0] == '/',
{
    reveal_strlit(":");
    reveal_strlit("/");
    reveal_strlit(":443");
    reveal_strlit(":80");
    let rest = without_scheme(url);
    lemma_find_from(rest, "/"@, 0);
    if let Some(i) = find(rest, "/"@) {
        assert(rest.subrange(i, i + 1)[0] == '/');
    }
    let host = host_of(url);
    if !contains(host, ":"@) {
        let server = server_of(url);
        let at = host.len() as int;
        assert(server.subrange(at, at + 1) =~= ":"@);
        assert(occurs_at(server, ":"@, at));
    }
}

/// Splits a URL into server address, request path and TLS flag.
pub fn decompose(url: &str) -> (e: Endpoint)
    ensures
        e.server@ == server_of(url@),
        e.path@ == path_of(url@),
        e.using_tls == uses_tls(url@),
{
    let chars = chars_of(url);
    let https = chars_of("https");
    let separator = chars_of("://");
    let slash = chars_of("/");
    let colon = chars_of(":");
    proof {
        lemma_find_contains(url@, "https"@);
        lemma_find_from(url@, "://"@, 0);
    }
    let using_tls = find_in(chars.as_slice(), 0, https.as_slice()).is_some();
    let found = find_in(chars.as_slice(), 0, separator.as_slice());
    let start: usize = match found {
        Some(i) => {
            assert(i + separator.len() <= chars.len());
            i + separator.len()
        },
        None => 0,
    };
    let rest = slice_subrange(chars.as_slice(), start, chars.len());
    assert(rest@ =~= without_scheme(url@));
    proof {
        lemma_find_from(rest@, "/"@, 0);
    }
    let (host, path) = match find_in(rest, 0, slash.as_slice()) {
        Some(i) => {
            let host = slice_subrange(rest, 0, i);
            let path = slice_subrange(rest, i, rest.len());
            (host, string_of(path))
        },
        None => (rest, "/".to_owned()),
    };
    proof {
        lemma_find_contains(host@, ":"@);
    }
    let mut server = string_of(host);
    if find_in(host, 0, colon.as_slice()).is_none() {
        if using_tls {
            server.append(":443");
        } else {
            server.append(":80");
        }
    }
    Endpoint { server, path, using_tls }
}

/// The text of the request for `path`: a bare `HEAD` request of HTTP/1.0
/// with the user agent as its only header.
pub open spec fn request_text(path: Seq<char>) -> Seq<char> {
    "HEAD "@ + path + " HTTP/1.0\r\nUser-Agent: crurlrc\r\n\r\n"@
}

/// The bytes of the request for `path`.
pub fn build_request(path: &str) -> (bytes: Vec<u8>)
    ensures
        bytes@ == encode_utf8(request_text(path@)),
{
    let mut text = String::from_str("HEAD ");
    text.append(path);
    text.append(" HTTP/1.0\r\nUser-Agent: crurlrc\r\n\r\n");
    text.as_str().as_bytes_vec()
}

/// The index of the last colon of `s`, or -1 where it has none.
pub open spec fn last_colon(s: Seq<char>) -> int
    decreases s.len(),
{
    if s.len() == 0 {
        -1
    } else if s.last() == ':' {
        s.len() - 1
    } else {
        last_colon(s.drop_last())
    }
}

/// The host name of a server address: what stands before its last colon,
/// or the whole address where it has none.
pub open spec fn host_name(server: Seq<char>) -> Seq<char> {
    if last_colon(server) < 0 {
        server
    } else {
        server.take(last_colon(server))
    }
}

/// The name that a TLS session verifies: the server address without its port.
pub fn tls_domain(server: &str) -> (name: String)
    ensures
        name@ == host_name(server@),
{
    let chars = chars_of(server);
    let mut end: usize = chars.len();
    assert(chars@.take(end as int) =~= chars@);
    while end > 0
        invariant
            end <= chars.len(),
            chars@ == server@,
            last_colon(chars@) == last_colon(chars@.take(end as int)),
        decreases end,
    {
        if chars[end - 1] == ':' {
            return string_of(slice_subrange(chars.as_slice(), 0, end - 1));
        }
        assert(chars@.take(end as int).drop_last() =~= chars@.take(end - 1));
        end -= 1;
    }
    string_of(chars.as_slice())
}

} // verus!
