//! The response of one exchange and its parser: status line, header
//! block, and the body that follows the first blank line.

use crate::headers::Headers;
use crate::text::{
    chars_of, find, find_in, join_tokens, join_with_spaces, lemma_find_first, lemma_find_from,
    matches_at,
    occurs_at, split_tokens, string_of, tokens, views_of,
};
use vstd::prelude::*;
use vstd::slice::slice_subrange;
use vstd::string::StringSliceAdditionalSpecFns;
use vstd::utf8::{decode_utf8, encode_utf8_decode_utf8, valid_utf8};

verus! {

/// Why a reply could not be read as a response.
#[derive(Debug, Clone, Copy, PartialEq, Eq, Structural)]
pub enum ParseError {
    /// The bytes are not UTF-8 text.
    Decode,
    /// The text does not start with a status line.
    StatusLine,
    /// No blank line parts the headers from the body.
    Separator,
}

/// The result of one exchange.
#[derive(Debug)]
pub struct Response {
    /// The status code of the status line.
    pub status: u16,
    /// The URL that was asked for, as the caller gave it.
    pub url: String,
    /// What follows the blank line, where anything does.
    pub body: Option<String>,
    /// The headers, by name.
    pub headers: Headers,
}

/// What a `Response` holds, as plain values.
pub struct ResponseView {
    pub status: u16,
    pub url: Seq<char>,
    pub body: Option<Seq<char>>,
    pub headers: Map<Seq<char>, Seq<char>>,
}

impl View for Response {
    type V = ResponseView;

    open spec fn view(&self) -> ResponseView {
        ResponseView {
            status: self.status,
            url: self.url@,
            body: match self.body {
                Some(b) => Some(b@),
                None => None,
            },
            headers: self.headers@,
        }
    }
}

/// Whether `c` is one of the digits `0` to `9`.
pub open spec fn is_digit(c: char) -> bool {
    0x30 <= c as u32 <= 0x39
}

/// The number that the digit `c` stands for.
pub open spec fn digit_value(c: char) -> int {
    c as u32 - 0x30
}

/// Every character of `s` is a digit.
pub open spec fn all_digits(s: Seq<char>) -> bool {
    forall|i: int| 0 <= i < s.len() ==> is_digit(#[trigger] s[i])
}

/// A protocol version: digits, a dot, digits, with at least one digit on
/// each side of the dot.
pub open spec fn is_version(s: Seq<char>) -> bool {
    match find(s, "."@) {
        Some(d) => 0 < d && d + 1 < s.len() && all_digits(s.take(d)) && all_digits(
            s.skip(d + 1),
        ),
        None => false,
    }
}

/// `s` starts with three digits and a space.
pub open spec fn has_status_code(s: Seq<char>) -> bool {
    s.len() >= 4 && is_digit(s[0]) && is_digit(s[1]) && is_digit(s[2]) && s[3] == ' '
}

/// The number written by the first three characters of `s`.
pub open spec fn status_code(s: Seq<char>) -> int {
    digit_value(s[0]) * 100 + digit_value(s[1]) * 10 + digit_value(s[2])
}

/// The status line at the start of `text`: `HTTP/`, a version, a space, a
/// status code of three digits, a space, a reason phrase without carriage
/// return, and a line end. Gives the status code and the text after the
/// line, or `None` where `text` does not start so.
pub open spec fn status_line(text: Seq<char>) -> Option<(int, Seq<char>)> {
    if !occurs_at(text, "HTTP/"@, 0) {
        None
    } else {
        let after_name = text.skip("HTTP/"@.len() as int);
        match find(after_name, " "@) {
            None => None,
            Some(v) => {
                let after_version = after_name.skip(v + 1);
                if !is_version(after_name.take(v)) || !has_status_code(after_version) {
                    None
                } else {
                    let reason = after_version.skip(4);
                    match find(reason, "\r"@) {
                        None => None,
                        Some(r) => if r + 1 < reason.len() && reason[r + 1] == '\n' {
                            Some((status_code(after_version), reason.skip(r + 2)))
                        } else {
                            None
                        },
                    }
                }
            },
        }
    }
}

/// `text` is made of `HTTP/`, the version, a space, the three digits of the
/// code, a space, the reason phrase, a line end and the rest.
pub open spec fn has_shape(
    text: Seq<char>,
    version: Seq<char>,
    code: Seq<char>,
    reason: Seq<char>,
    rest: Seq<char>,
) -> bool {
    &&& is_version(version)
    &&& code.len() == 3
    &&& all_digits(code)
    &&& !reason.contains('\r')
    &&& text == "HTTP/"@ + version + " "@ + code + " "@ + reason + "\r\n"@ + rest
}

/// The status line is read from every text of its shape: `HTTP/`, a
/// version, a space, three digits, a space, a reason phrase without
/// carriage return, and a line end. The status code is the number that the
/// digits write, and what follows the line end is what is left.
pub proof fn lemma_status_line_accepts(
    text: Seq<char>,
    version: Seq<char>,
    code: Seq<char>,
    reason: Seq<char>,
    rest: Seq<char>,
)
    requires
        has_shape(text, version, code, reason, rest),
    ensures
        status_line(text) == Some((status_code(code), rest)),
{
    reveal_strlit("HTTP/");
    reveal_strlit(" ");
    reveal_strlit(".");
    reveal_strlit("\r");
    reveal_strlit("\r\n");
    let after_name = version + " "@ + code + " "@ + reason + "\r\n"@ + rest;
    let after_version = code + " "@ + reason + "\r\n"@ + rest;
    let tail = reason + "\r\n"@ + rest;
    assert(text.subrange(0, 5) =~= "HTTP/"@);
    assert(text.skip(5) =~= after_name);
    let v = version.len() as int;
    assert(find(after_name, " "@) == Some(v)) by {
        lemma_find_from(version, "."@, 0);
        let d = find(version, "."@).unwrap();
        assert(version.subrange(d, d + 1)[0] == '.');
        assert(after_name.subrange(v, v + 1) =~= " "@);
        assert forall|j: int| 0 <= j < v implies !occurs_at(after_name, " "@, j) by {
            assert(after_name.subrange(j, j + 1)[0] == version[j]);
            if j < d {
                assert(version.take(d)[j] == version[j]);
            } else if j > d {
                assert(version.skip(d + 1)[j - d - 1] == version[j]);
            }
        }
        lemma_find_first(after_name, " "@, v);
    }
    assert(after_name.take(v) =~= version);
    assert(after_name.skip(v + 1) =~= after_version);
    assert(has_status_code(after_version)) by {
        assert(after_version[0] == code[0]);
        assert(after_version[1] == code[1]);
        assert(after_version[2] == code[2]);
    }
    assert(after_version.skip(4) =~= tail);
    let r = reason.len() as int;
    assert(find(tail, "\r"@) == Some(r)) by {
        assert(tail.subrange(r, r + 1) =~= "\r"@);
        assert forall|j: int| 0 <= j < r implies !occurs_at(tail, "\r"@, j) by {
            assert(tail.subrange(j, j + 1)[0] == reason[j]);
        }
        lemma_find_first(tail, "\r"@, r);
    }
    assert(tail[r + 1] == '\n');
    assert(tail.skip(r + 2) =~= rest);
}

/// A status line is read only from a text of its shape.
pub proof fn lemma_status_line_shape(text: Seq<char>)
    requires
        status_line(text) is Some,
    ensures
        exists|version: Seq<char>, code: Seq<char>, reason: Seq<char>|
            #[trigger] has_shape(text, version, code, reason, status_line(text).unwrap().1)
                && status_line(text).unwrap().0 == status_code(code),
{
    reveal_strlit("HTTP/");
    reveal_strlit(" ");
    reveal_strlit("\r");
    reveal_strlit("\r\n");
    let after_name = text.skip(5);
    lemma_find_from(after_name, " "@, 0);
    let v = find(after_name, " "@).unwrap();
    let version = after_name.take(v);
    let after_version = after_name.skip(v + 1);
    let code = after_version.take(3);
    let tail = after_version.skip(4);
    lemma_find_from(tail, "\r"@, 0);
    let r = find(tail, "\r"@).unwrap();
    let reason = tail.take(r);
    let rest = tail.skip(r + 2);
    assert(!reason.contains('\r')) by {
        if reason.contains('\r') {
            let j = choose|j: int| 0 <= j < reason.len() && reason[j] == '\r';
            assert(tail.subrange(j, j + 1) =~= "\r"@);
            assert(occurs_at(tail, "\r"@, j));
        }
    }
    assert(text.subrange(0, 5) == "HTTP/"@);
    assert(after_name.subrange(v, v + 1) == " "@);
    assert(tail.subrange(r, r + 1) == "\r"@);
    assert(after_name[v] == after_name.subrange(v, v + 1)[0]);
    assert(tail[r] == tail.subrange(r, r + 1)[0]);
    assert(text =~= "HTTP/"@ + version + " "@ + code + " "@ + reason + "\r\n"@ + rest);
    assert(status_line(text) == Some((status_code(after_version), rest)));
    assert(status_code(code) == status_code(after_version)) by {
        assert(code[0] == after_version[0]);
        assert(code[1] == after_version[1]);
        assert(code[2] == after_version[2]);
    }
    assert(has_shape(text, version, code, reason, status_line(text).unwrap().1)
        && status_line(text).unwrap().0 == status_code(code));
}

/// Tells whether `c` is a digit.
fn is_ascii_digit(c: char) -> (b: bool)
    ensures
        b == is_digit(c),
{
    let u: u32 = c as u32;
    0x30 <= u && u <= 0x39
}

/// Tells whether every character of `s` is a digit.
fn digits_only(s: &[char]) -> (b: bool)
    ensures
        b == all_digits(s@),
{
    let mut i: usize = 0;
    while i < s.len()
        invariant
            i <= s.len(),
            forall|j: int| 0 <= j < i ==> is_digit(#[trigger] s@[j]),
        decreases s.len() - i,
    {
        if !is_ascii_digit(s[i]) {
            return false;
        }
        i += 1;
    }
    true
}

/// Tells whether `s` is a protocol version.
fn version_ok(s: &[char]) -> (b: bool)
    ensures
        b == is_version(s@),
{
    let dot = chars_of(".");
    proof {
        reveal_strlit(".");
        lemma_find_from(s@, "."@, 0);
    }
    match find_in(s, 0, dot.as_slice()) {
        None => false,
        Some(d) => {
            assert(d + 1 <= s.len());
            if d == 0 || d + 1 >= s.len() {
                return false;
            }
            let whole = slice_subrange(s, 0, d);
            let fraction = slice_subrange(s, d + 1, s.len());
            digits_only(whole) && digits_only(fraction)
        },
    }
}

/// Reads the status line at the start of `text`, and gives the status
/// code and the text after the line.
pub fn parse_status_line<'a>(text: &'a [char]) -> (r: Option<(u16, &'a [char])>)
    ensures
        match r {
            Some((code, rest)) => status_line(text@) == Some((code as int, rest@)),
            None => status_line(text@) is None,
        },
{
    let name = chars_of("HTTP/");
    let space = chars_of(" ");
    let cr = chars_of("\r");
    proof {
        reveal_strlit(" ");
        reveal_strlit("\r");
    }
    if !matches_at(text, 0, name.as_slice()) {
        return None;
    }
    let after_name = slice_subrange(text, name.len(), text.len());
    proof {
        lemma_find_from(after_name@, " "@, 0);
    }
    let v: usize = match find_in(after_name, 0, space.as_slice()) {
        None => {
            return None;
        },
        Some(v) => v,
    };
    let version = slice_subrange(after_name, 0, v);
    let after_version = slice_subrange(after_name, v + 1, after_name.len());
    if !version_ok(version) {
        return None;
    }
    if after_version.len() < 4 || !is_ascii_digit(after_version[0]) || !is_ascii_digit(
        after_version[1],
    ) || !is_ascii_digit(after_version[2]) || after_version[3] != ' ' {
        return None;
    }
    let hundreds: u16 = (after_version[0] as u32 - 0x30) as u16;
    let tens: u16 = (after_version[1] as u32 - 0x30) as u16;
    let units: u16 = (after_version[2] as u32 - 0x30) as u16;
    let code: u16 = hundreds * 100 + tens * 10 + units;
    let reason = slice_subrange(after_version, 4, after_version.len());
    proof {
        lemma_find_from(reason@, "\r"@, 0);
    }
    match find_in(reason, 0, cr.as_slice()) {
        None => None,
        Some(r) => {
            if r + 1 < reason.len() && reason[r + 1] == '\n' {
                let rest = slice_subrange(reason, r + 2, reason.len());
                Some((code, rest))
            } else {
                None
            }
        },
    }
}

/// A token without the colon at its end, where it ends with one.
pub open spec fn strip_colon(token: Seq<char>) -> Seq<char> {
    if token.len() > 0 && token.last() == ':' {
        token.drop_last()
    } else {
        token
    }
}

/// The name and value that a header line gives: the first token without
/// its trailing colon, and the other tokens joined by single spaces. A
/// line of fewer than two tokens gives nothing.
pub open spec fn header_entry(line: Seq<char>) -> Option<(Seq<char>, Seq<char>)> {
    let parts = tokens(line);
    if parts.len() < 2 {
        None
    } else {
        Some((strip_colon(parts[0]), join_with_spaces(parts.skip(1))))
    }
}

/// The mapping `acc` after the header line `line`.
pub open spec fn add_line(acc: Map<Seq<char>, Seq<char>>, line: Seq<char>) -> Map<
    Seq<char>,
    Seq<char>,
> {
    match header_entry(line) {
        Some((name, value)) => acc.insert(name, value),
        None => acc,
    }
}

/// The lines of `s`: the pieces between its line ends.
pub open spec fn lines_of(s: Seq<char>) -> Seq<Seq<char>>
    decreases s.len(),
    via lines_of_decreases
{
    match find(s, "\r\n"@) {
        Some(i) => seq![s.take(i)] + lines_of(s.skip(i + 2)),
        None => seq![s],
    }
}

#[via_fn]
proof fn lines_of_decreases(s: Seq<char>) {
    reveal_strlit("\r\n");
    lemma_find_from(s, "\r\n"@, 0);
}

/// The mapping `acc` after the header lines `lines`, taken in order.
pub open spec fn with_lines(acc: Map<Seq<char>, Seq<char>>, lines: Seq<Seq<char>>) -> Map<
    Seq<char>,
    Seq<char>,
>
    decreases lines.len(),
{
    if lines.len() == 0 {
        acc
    } else {
        with_lines(add_line(acc, lines[0]), lines.drop_first())
    }
}

/// The header mapping that a header block stands for.
pub open spec fn headers_of(block: Seq<char>) -> Map<Seq<char>, Seq<char>> {
    with_lines(Map::empty(), lines_of(block))
}

/// Reads one header line, and gives its name and value.
pub fn parse_header_line(line: &[char]) -> (r: Option<(String, String)>)
    ensures
        match r {
            Some((name, value)) => header_entry(line@) == Some((name@, value@)),
            None => header_entry(line@) is None,
        },
{
    let parts = split_tokens(line);
    if parts.len() < 2 {
        return None;
    }
    let first = parts[0];
    assert(first@ == views_of(parts@)[0]);
    let name = if first.len() > 0 && first[first.len() - 1] == ':' {
        let stripped = slice_subrange(first, 0, first.len() - 1);
        string_of(stripped)
    } else {
        string_of(first)
    };
    let value = join_tokens(parts.as_slice(), 1);
    Some((name, value))
}

/// Reads a header block into a mapping: each line of two or more tokens
/// sets the value for its name.
pub fn parse_header_block(block: &[char]) -> (headers: Headers)
    ensures
        headers@ == headers_of(block@),
{
    let crlf = chars_of("\r\n");
    let mut headers = Headers::new();
    let mut rest: &[char] = block;
    loop
        invariant_except_break
            crlf@ == "\r\n"@,
            with_lines(headers@, lines_of(rest@)) == headers_of(block@),
        ensures
            headers@ == headers_of(block@),
        decreases rest@.len(),
    {
        proof {
            reveal_strlit("\r\n");
            lemma_find_from(rest@, "\r\n"@, 0);
        }
        let ghost before = headers@;
        let ghost lines = lines_of(rest@);
        match find_in(rest, 0, crlf.as_slice()) {
            Some(i) => {
                assert(i + 2 <= rest.len());
                let line = slice_subrange(rest, 0, i);
                let next = slice_subrange(rest, i + 2, rest.len());
                assert(lines.drop_first() =~= lines_of(next@));
                if let Some((name, value)) = parse_header_line(line) {
                    headers.insert(name, value);
                }
                rest = next;
            },
            None => {
                if let Some((name, value)) = parse_header_line(rest) {
                    headers.insert(name, value);
                }
                assert(with_lines(before, lines) == with_lines(
                    add_line(before, lines[0]),
                    lines.drop_first(),
                ));
                break ;
            },
        }
    }
    headers
}

/// Reads a header block given as a string.
pub fn parse_headers(block: &str) -> (headers: Headers)
    ensures
        headers@ == headers_of(block@),
{
    let chars = chars_of(block);
    parse_header_block(chars.as_slice())
}

/// The header block and the body of a message: what stands before and
/// what stands after its first blank line, or `None` where it has none.
pub open spec fn split_message(message: Seq<char>) -> Option<(Seq<char>, Seq<char>)> {
    match find(message, "\r\n\r\n"@) {
        Some(i) => Some((message.take(i), message.skip(i + 4))),
        None => None,
    }
}

/// The body as a response holds it: absent where it is empty.
pub open spec fn body_of(body: Seq<char>) -> Option<Seq<char>> {
    if body.len() == 0 {
        None
    } else {
        Some(body)
    }
}

/// What the text of a reply to a request for `url` parses to.
pub open spec fn parse_spec(url: Seq<char>, text: Seq<char>) -> Result<ResponseView, ParseError> {
    match status_line(text) {
        None => Err(ParseError::StatusLine),
        Some((status, message)) => match split_message(message) {
            None => Err(ParseError::Separator),
            Some((block, body)) => Ok(
                ResponseView {
                    status: status as u16,
                    url: url,
                    body: body_of(body),
                    headers: headers_of(block),
                },
            ),
        },
    }
}

/// What the bytes of a reply to a request for `url` parse to.
pub open spec fn response_of(url: Seq<char>, raw: Seq<u8>) -> Result<ResponseView, ParseError> {
    if valid_utf8(raw) {
        parse_spec(url, decode_utf8(raw))
    } else {
        Err(ParseError::Decode)
    }
}

/// Parses the text of a reply to a request for `url`.
pub fn parse_text(url: &str, text: &str) -> (r: Result<Response, ParseError>)
    ensures
        match r {
            Ok(response) => parse_spec(url@, text@) == Ok::<ResponseView, ParseError>(response@),
            Err(e) => parse_spec(url@, text@) == Err::<ResponseView, ParseError>(e),
        },
{
    let chars = chars_of(text);
    let blank = chars_of("\r\n\r\n");
    proof {
        reveal_strlit("\r\n\r\n");
    }
    let (status, message) = match parse_status_line(chars.as_slice()) {
        None => {
            return Err(ParseError::StatusLine);
        },
        Some(found) => found,
    };
    proof {
        lemma_find_from(message@, "\r\n\r\n"@, 0);
    }
    let at: usize = match find_in(message, 0, blank.as_slice()) {
        None => {
            return Err(ParseError::Separator);
        },
        Some(i) => i,
    };
    assert(at + 4 <= message.len());
    let block = slice_subrange(message, 0, at);
    let rest = slice_subrange(message, at + 4, message.len());
    let headers = parse_header_block(block);
    let body = if rest.len() > 0 {
        Some(string_of(rest))
    } else {
        None
    };
    Ok(Response { status, url: url.to_owned(), body, headers })
}

/// `std::str::from_utf8`: gives the string slice that the bytes are where
/// they are valid UTF-8, and nothing where they are not.
#[verifier::external_body]
fn decode<'a>(raw: &'a [u8]) -> (r: Option<&'a str>)
    ensures
        r is Some <==> valid_utf8(raw@),
        r is Some ==> r.unwrap().spec_bytes() == raw@,
{
    std::str::from_utf8(raw).ok()
}

/// Parses the bytes of a reply to a request for `url`.
pub fn parse_response(url: &str, raw: &[u8]) -> (r: Result<Response, ParseError>)
    ensures
        match r {
            Ok(response) => response_of(url@, raw@) == Ok::<ResponseView, ParseError>(response@),
            Err(e) => response_of(url@, raw@) == Err::<ResponseView, ParseError>(e),
        },
{
    match decode(raw) {
        None => Err(ParseError::Decode),
        Some(text) => {
            proof {
                encode_utf8_decode_utf8(text@);
            }
            parse_text(url, text)
        },
    }
}

/// The header line `line` gives an entry for `name`.
pub open spec fn line_names(line: Seq<char>, name: Seq<char>) -> bool {
    header_entry(line) is Some && header_entry(line).unwrap().0 == name
}

/// Lines that give no entry for `name` leave what the mapping holds for it.
proof fn lemma_with_lines_keeps(
    acc: Map<Seq<char>, Seq<char>>,
    lines: Seq<Seq<char>>,
    name: Seq<char>,
)
    requires
        forall|j: int| 0 <= j < lines.len() ==> !line_names(#[trigger] lines[j], name),
    ensures
        with_lines(acc, lines).contains_key(name) == acc.contains_key(name),
        acc.contains_key(name) ==> with_lines(acc, lines)[name] == acc[name],
    decreases lines.len(),
{
    if lines.len() > 0 {
        assert forall|j: int| 0 <= j < lines.drop_first().len() implies !line_names(
            #[trigger] lines.drop_first()[j],
            name,
        ) by {
            assert(lines.drop_first()[j] == lines[j + 1]);
        }
        lemma_with_lines_keeps(add_line(acc, lines[0]), lines.drop_first(), name);
    }
}

/// After the lines, the mapping holds for `name` the value of the last line
/// that gives an entry for it.
proof fn lemma_with_lines_last(
    acc: Map<Seq<char>, Seq<char>>,
    lines: Seq<Seq<char>>,
    i: int,
    name: Seq<char>,
)
    requires
        0 <= i < lines.len(),
        line_names(lines[i], name),
        forall|j: int| i < j < lines.len() ==> !line_names(#[trigger] lines[j], name),
    ensures
        with_lines(acc, lines).contains_key(name),
        with_lines(acc, lines)[name] == header_entry(lines[i]).unwrap().1,
    decreases lines.len(),
{
    let rest = lines.drop_first();
    let next = add_line(acc, lines[0]);
    if i == 0 {
        assert forall|j: int| 0 <= j < rest.len() implies !line_names(#[trigger] rest[j], name) by {
            assert(rest[j] == lines[j + 1]);
        }
        lemma_with_lines_keeps(next, rest, name);
    } else {
        assert forall|j: int| i - 1 < j < rest.len() implies !line_names(
            #[trigger] rest[j],
            name,
        ) by {
            assert(rest[j] == lines[j + 1]);
        }
        lemma_with_lines_last(next, rest, i - 1, name);
    }
}

/// After the lines, the mapping holds a name exactly where it held it
/// before or some line gives an entry for it.
proof fn lemma_with_lines_names(
    acc: Map<Seq<char>, Seq<char>>,
    lines: Seq<Seq<char>>,
    name: Seq<char>,
)
    ensures
        with_lines(acc, lines).contains_key(name) <==> acc.contains_key(name) || exists|i: int|
            0 <= i < lines.len() && line_names(#[trigger] lines[i], name),
    decreases lines.len(),
{
    if lines.len() > 0 {
        let rest = lines.drop_first();
        let next = add_line(acc, lines[0]);
        lemma_with_lines_names(next, rest, name);
        if exists|i: int| 0 <= i < rest.len() && line_names(#[trigger] rest[i], name) {
            let i = choose|i: int| 0 <= i < rest.len() && line_names(#[trigger] rest[i], name);
            assert(rest[i] == lines[i + 1]);
        }
        if exists|i: int| 0 <= i < lines.len() && line_names(#[trigger] lines[i], name) {
            let i = choose|i: int| 0 <= i < lines.len() && line_names(#[trigger] lines[i], name);
            if i > 0 {
                assert(rest[i - 1] == lines[i]);
            }
        }
    }
}

/// A header block holds a name exactly where one of its lines gives an
/// entry for that name.
pub proof fn lemma_names_come_from_lines(block: Seq<char>, name: Seq<char>)
    ensures
        headers_of(block).contains_key(name) <==> exists|i: int|
            0 <= i < lines_of(block).len() && line_names(#[trigger] lines_of(block)[i], name),
{
    lemma_with_lines_names(Map::empty(), lines_of(block), name);
}

/// Of several lines that give an entry for one name, the last decides: the
/// block holds for the name the value of the line after which no line
/// names it again.
pub proof fn lemma_last_line_wins(block: Seq<char>, i: int, name: Seq<char>)
    requires
        0 <= i < lines_of(block).len(),
        line_names(lines_of(block)[i], name),
        forall|j: int|
            i < j < lines_of(block).len() ==> !line_names(#[trigger] lines_of(block)[j], name),
    ensures
        headers_of(block).contains_key(name),
        headers_of(block)[name] == header_entry(lines_of(block)[i]).unwrap().1,
{
    lemma_with_lines_last(Map::empty(), lines_of(block), i, name);
}

/// Parsing a header block is repeatable: two mappings parsed from one
/// block hold the same names with the same values.
pub proof fn lemma_header_parsing_repeatable(block: Seq<char>, first: Headers, second: Headers)
    requires
        first@ == headers_of(block),
        second@ == headers_of(block),
    ensures
        first@ == second@,
{
}

/// A body is present exactly where something follows the first blank line:
/// a text with a status line and a blank line after it parses, with the
/// body that follows the blank line if that is not empty, and with none
/// if it is.
pub proof fn lemma_body_presence(url: Seq<char>, text: Seq<char>)
    requires
        status_line(text) is Some,
        split_message(status_line(text).unwrap().1) is Some,
    ensures
        parse_spec(url, text) is Ok,
        ({
            let body = split_message(status_line(text).unwrap().1).unwrap().1;
            parse_spec(url, text)->Ok_0.body == (if body.len() > 0 {
                Some(body)
            } else {
                None
            })
        }),
{
}

} // verus!
