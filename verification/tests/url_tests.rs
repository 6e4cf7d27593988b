use crurlrc::{build_request, decompose, tls_domain};

#[test]
fn decompose_plain_url_with_path() {
    let e = decompose("http://example.com/old");
    assert_eq!(e.server, "example.com:80");
    assert_eq!(e.path, "/old");
    assert!(!e.using_tls);
}

#[test]
fn decompose_tls_url_without_path() {
    let e = decompose("https://example.com");
    assert_eq!(e.server, "example.com:443");
    assert_eq!(e.path, "/");
    assert!(e.using_tls);
}

#[test]
fn decompose_keeps_explicit_port() {
    let e = decompose("http://example.com:8080/a/b?c=d");
    assert_eq!(e.server, "example.com:8080");
    assert_eq!(e.path, "/a/b?c=d");
    assert!(!e.using_tls);
}

#[test]
fn decompose_without_scheme() {
    let e = decompose("example.com/index.html");
    assert_eq!(e.server, "example.com:80");
    assert_eq!(e.path, "/index.html");
    assert!(!e.using_tls);
}

#[test]
fn decompose_https_anywhere_asks_for_tls() {
    let e = decompose("http://example.com/https-info");
    assert_eq!(e.server, "example.com:443");
    assert_eq!(e.path, "/https-info");
    assert!(e.using_tls);
}

#[test]
fn decompose_takes_all_after_first_scheme_separator() {
    let e = decompose("http://a.example/b?u=http://c.example/d");
    assert_eq!(e.server, "a.example:80");
    assert_eq!(e.path, "/b?u=http://c.example/d");
}

#[test]
fn decompose_empty_url() {
    let e = decompose("");
    assert_eq!(e.server, ":80");
    assert_eq!(e.path, "/");
    assert!(!e.using_tls);
}

#[test]
fn decompose_root_path() {
    let e = decompose("https://example.com/");
    assert_eq!(e.server, "example.com:443");
    assert_eq!(e.path, "/");
}

#[test]
fn decompose_non_ascii_host() {
    let e = decompose("http://bücher.example/straße");
    assert_eq!(e.server, "bücher.example:80");
    assert_eq!(e.path, "/straße");
}

#[test]
fn request_bytes_are_exact() {
    let bytes = build_request("/old");
    assert_eq!(
        bytes,
        b"HEAD /old HTTP/1.0\r\nUser-Agent: crurlrc\r\n\r\n".to_vec()
    );
}

#[test]
fn request_for_root() {
    let bytes = build_request("/");
    assert_eq!(
        String::from_utf8(bytes).unwrap(),
        "HEAD / HTTP/1.0\r\nUser-Agent: crurlrc\r\n\r\n"
    );
}

#[test]
fn request_encodes_path_as_utf8() {
    let bytes = build_request("/é");
    assert_eq!(
        bytes,
        "HEAD /é HTTP/1.0\r\nUser-Agent: crurlrc\r\n\r\n".as_bytes().to_vec()
    );
}

#[test]
fn tls_domain_strips_default_port() {
    assert_eq!(tls_domain("example.com:443"), "example.com");
}

#[test]
fn tls_domain_strips_other_port() {
    assert_eq!(tls_domain("example.com:8443"), "example.com");
}

#[test]
fn tls_domain_strips_only_last_port() {
    assert_eq!(tls_domain("a:443:443"), "a:443");
}

#[test]
fn tls_domain_without_port() {
    assert_eq!(tls_domain("example.com"), "example.com");
    assert_eq!(tls_domain(""), "");
}

#[test]
fn tls_domain_of_decomposed_url() {
    let e = decompose("https://example.com/x");
    assert_eq!(tls_domain(&e.server), "example.com");
}
