use crurlrc::{
    check_url, classify, get_redirect_url, is_redirect, redirect_without_location, Headers,
    Response,
};

fn response(status: u16, url: &str, location: Option<&str>) -> Response {
    let mut headers = Headers::new();
    if let Some(target) = location {
        headers.insert("Location".to_string(), target.to_string());
    }
    Response { status, url: url.to_string(), body: None, headers }
}

#[test]
fn every_status_between_300_and_399_redirects_to_location() {
    for c in 301u16..399 {
        let r = response(c, "http://example.com/old", Some("http://example.com/new"));
        assert!(is_redirect(&r));
        let v = classify(r, "http://example.com/old").unwrap();
        assert_eq!(v.status, c);
        assert_eq!(v.url, "http://example.com/old");
        assert_eq!(v.redirect_to, "http://example.com/new");
    }
}

#[test]
fn status_300_and_399_are_no_redirects() {
    assert!(!is_redirect(&response(300, "u", Some("/x"))));
    assert!(!is_redirect(&response(399, "u", Some("/x"))));
    assert!(is_redirect(&response(301, "u", Some("/x"))));
    assert!(is_redirect(&response(398, "u", Some("/x"))));
    assert!(classify(response(300, "u", Some("/x")), "u").is_none());
    assert!(classify(response(399, "u", Some("/x")), "u").is_none());
}

#[test]
fn other_statuses_with_unchanged_url_give_no_verdict() {
    for c in [0u16, 100, 200, 204, 299, 400, 404, 500, 999, 32768, 33068, 65535] {
        let r = response(c, "http://example.com/", Some("/x"));
        assert!(!is_redirect(&r));
        assert!(classify(r, "http://example.com/").is_none());
    }
}

#[test]
fn changed_url_is_a_redirect_to_it() {
    let r = response(200, "http://example.com/final", None);
    let v = classify(r, "http://example.com/start").unwrap();
    assert_eq!(v.status, 200);
    assert_eq!(v.url, "http://example.com/start");
    assert_eq!(v.redirect_to, "http://example.com/final");
}

#[test]
fn redirect_status_wins_over_changed_url() {
    let r = response(302, "http://example.com/final", Some("/target"));
    let v = classify(r, "http://example.com/start").unwrap();
    assert_eq!(v.redirect_to, "/target");
}

#[test]
fn redirect_url_is_the_location_header() {
    let r = response(200, "u", Some("http://example.com/new"));
    assert_eq!(get_redirect_url(r), "http://example.com/new");
}

#[test]
fn stub_reply_with_301_gives_the_target() {
    let raw = b"HTTP/1.0 301 Moved Permanently\r\nLocation: http://example.com/new\r\n\r\n";
    let v = check_url("http://example.com/old", Some(&raw[..])).unwrap();
    assert_eq!(v.status, 301);
    assert_eq!(v.url, "http://example.com/old");
    assert_eq!(v.redirect_to, "http://example.com/new");
}

#[test]
fn stub_reply_with_200_gives_no_result() {
    let raw = b"HTTP/1.0 200 OK\r\n\r\n<html></html>";
    assert!(check_url("http://example.com/", Some(&raw[..])).is_none());
    let raw = b"HTTP/1.0 200 OK\r\nServer: x\r\n\r\n<html></html>";
    assert!(check_url("http://example.com/", Some(&raw[..])).is_none());
}

#[test]
fn failed_exchange_gives_no_result() {
    assert!(check_url("http://unreachable.invalid/", None).is_none());
    assert!(!redirect_without_location("http://unreachable.invalid/", None));
}

#[test]
fn unreadable_reply_gives_no_result() {
    assert!(check_url("u", Some(&b"\xff\xfe"[..])).is_none());
    assert!(check_url("u", Some(&b"garbage"[..])).is_none());
    assert!(check_url("u", Some(&b"HTTP/1.0 301 Moved\r\nLocation: /x\r\n"[..])).is_none());
}

#[test]
fn redirect_without_location_is_told_apart() {
    let raw = b"HTTP/1.0 301 Moved\r\nServer: x\r\n\r\n";
    assert!(redirect_without_location("u", Some(&raw[..])));
    let raw = b"HTTP/1.0 301 Moved\r\nLocation: /x\r\n\r\n";
    assert!(!redirect_without_location("u", Some(&raw[..])));
    let raw = b"HTTP/1.0 200 OK\r\nServer: x\r\n\r\n";
    assert!(!redirect_without_location("u", Some(&raw[..])));
    assert!(!redirect_without_location("u", Some(&b"\xff"[..])));
}
