use crurlrc::text::{
    chars_of, find_in, is_whitespace, join_tokens, matches_at, split_tokens, string_of,
};
use crurlrc::{decompose, parse_headers};

fn chars(s: &str) -> Vec<char> {
    s.chars().collect()
}

#[test]
fn white_space_is_what_std_calls_white_space() {
    for c in '\0'..=char::MAX {
        assert_eq!(is_whitespace(c), c.is_whitespace());
    }
}

#[test]
fn chars_and_back() {
    let v = chars_of("añ€😀z");
    assert_eq!(v, vec!['a', 'ñ', '€', '😀', 'z']);
    assert_eq!(string_of(&v), "añ€😀z");
    assert_eq!(string_of(&[]), "");
    assert_eq!(chars_of(""), Vec::<char>::new());
}

#[test]
fn string_of_keeps_order() {
    assert_eq!(string_of(&['a', 'b', 'c']), "abc");
}

#[test]
fn matches_at_every_position() {
    let s = chars("abcabc");
    let p = chars("bc");
    assert!(!matches_at(&s, 0, &p));
    assert!(matches_at(&s, 1, &p));
    assert!(matches_at(&s, 4, &p));
    assert!(!matches_at(&s, 5, &p));
    assert!(!matches_at(&s, 6, &p));
    assert!(!matches_at(&s, usize::MAX, &p));
    assert!(matches_at(&s, 6, &[]));
    assert!(!matches_at(&s, 7, &[]));
}

#[test]
fn find_gives_the_first_occurrence() {
    let s = chars("a://b://c");
    let p = chars("://");
    assert_eq!(find_in(&s, 0, &p), Some(1));
    assert_eq!(find_in(&s, 1, &p), Some(1));
    assert_eq!(find_in(&s, 2, &p), Some(5));
    assert_eq!(find_in(&s, 6, &p), None);
    assert_eq!(find_in(&s, 100, &p), None);
    assert_eq!(find_in(&chars("ab"), 0, &p), None);
    assert_eq!(find_in(&s, 0, &chars("x")), None);
    assert_eq!(find_in(&s, 0, &[]), Some(0));
    assert_eq!(find_in(&s, 9, &[]), Some(9));
    assert_eq!(find_in(&s, 10, &[]), None);
}

#[test]
fn tokens_are_what_std_splits() {
    for text in [
        "",
        " ",
        "a",
        " a ",
        "a b",
        "  Content-Type:\ttext/html;   charset=utf-8  ",
        "one\u{2003}two\u{0085}three\nfour\rfive",
        "x\u{200B}y z",
    ] {
        let line = chars(text);
        let parts: Vec<String> = split_tokens(&line).iter().map(|p| string_of(p)).collect();
        let expected: Vec<String> = text.split_whitespace().map(String::from).collect();
        assert_eq!(parts, expected);
    }
}

#[test]
fn join_puts_one_space_between_parts() {
    let a = chars("a");
    let b = chars("bc");
    let c = chars("");
    let d = chars("d");
    let parts: Vec<&[char]> = vec![&a, &b, &c, &d];
    assert_eq!(join_tokens(&parts, 0), "a bc  d");
    assert_eq!(join_tokens(&parts, 1), "bc  d");
    assert_eq!(join_tokens(&parts, 3), "d");
    assert_eq!(join_tokens(&parts, 4), "");
}

#[test]
fn last_of_three_lines_for_one_name_decides() {
    let h = parse_headers("K: first\r\nOther: x\r\nK: second\r\nK\r\nK: third\r\nOther: y");
    assert_eq!(h.get("K").unwrap(), "third");
    assert_eq!(h.get("Other").unwrap(), "y");
}

#[test]
fn server_names_a_port_and_path_starts_with_a_slash() {
    for url in [
        "",
        "example.com",
        "http://example.com",
        "https://example.com:8443",
        "http://example.com/a",
        "://",
        "http:///",
        "ftp://[::1]/x",
    ] {
        let e = decompose(url);
        assert!(e.server.contains(':'));
        assert!(e.path.starts_with('/'));
    }
}
