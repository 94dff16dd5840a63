use httpx_urls::err::{CookieConflict, InvalidUrl};
use httpx_urls::urlparse::{find_ascii_non_printable, normalize_path, percent_encoded, quote, validate_path};
use httpx_urls::utils::unquote;
use httpx_urls::parts::UrlParts;

#[test]
fn normalize_removes_dot_segments() {
    assert_eq!(normalize_path("/a/./b/../c"), "/a/c");
    assert_eq!(normalize_path("/../a"), "/a");
    assert_eq!(normalize_path("a/b"), "a/b");
}

#[test]
fn normalize_twice_is_once() {
    for p in ["/a/./b/../c", "../..", "a/../../b/.", "/x/y/../../..", ".", "a.b/./c", ""] {
        let once = normalize_path(p);
        assert_eq!(normalize_path(&once), once);
    }
}

#[test]
fn normalize_edge_cases() {
    assert_eq!(normalize_path(".."), "");
    assert_eq!(normalize_path("/a/b/.."), "/a");
    assert_eq!(normalize_path("a/%2e/b"), "a/%2e/b");
}

#[test]
fn quote_keeps_triplets() {
    assert_eq!(quote("%2F", ""), "%2F");
    assert_eq!(quote("%zz", ""), "%25zz");
    assert_eq!(quote("100%", ""), "100%25");
}

#[test]
fn quote_encodes_space() {
    assert_eq!(quote("a b", ""), "a%20b");
    assert_eq!(quote("a/b", "/"), "a/b");
    assert_eq!(quote("a/b", ""), "a%2Fb");
    assert_eq!(quote("é", ""), "%C3%A9");
}

#[test]
fn percent_encoded_encodes_every_percent() {
    assert_eq!(percent_encoded("%2F", ""), "%252F");
    assert_eq!(percent_encoded("a-b_c.d~e", ""), "a-b_c.d~e");
    assert_eq!(percent_encoded("a:b", ":"), "a:b");
}

#[test]
fn finds_non_printable() {
    assert_eq!(find_ascii_non_printable("abc"), None);
    assert_eq!(find_ascii_non_printable("a b"), None);
    assert_eq!(find_ascii_non_printable("ab\tc"), Some(2));
    assert_eq!(find_ascii_non_printable("é\x7f"), Some(1));
    assert_eq!(find_ascii_non_printable(""), None);
}

#[test]
fn validate_path_rules() {
    assert!(validate_path("/a", true, true).is_ok());
    assert!(validate_path("", true, true).is_ok());
    let e = validate_path("a", true, true).unwrap_err();
    assert_eq!(e.message, "For absolute URLs, path must be empty or begin with '/'");
    let e = validate_path("//a", false, false).unwrap_err();
    assert_eq!(e.message, "Relative URLs cannot have a path starting with '//'");
    let e = validate_path(":a", false, false).unwrap_err();
    assert_eq!(e.message, "Relative URLs cannot have a path starting with ':'");
    assert!(validate_path("//a", true, false).is_ok());
    assert!(validate_path("a:b", false, false).is_ok());
}

#[test]
fn authority_requires_slash() {
    for p in ["a", "x/y", ":", "?q"] {
        assert!(validate_path(p, false, true).is_err());
        assert!(validate_path(p, true, true).is_err());
    }
}

#[test]
fn unquote_strips_one_layer() {
    assert_eq!(unquote("\"abc\""), "abc");
    assert_eq!(unquote("'abc'"), "abc");
    assert_eq!(unquote("\"abc'"), "\"abc'");
    assert_eq!(unquote("\"\"x\"\""), "\"x\"");
    assert_eq!(unquote("\""), "\"");
    assert_eq!(unquote("abc"), "abc");
}

#[test]
fn errors_carry_messages() {
    assert_eq!(InvalidUrl::new("bad").message, "bad");
    assert_eq!(CookieConflict::new("clash").message, "clash");
}

fn parts(scheme: &str, userinfo: &str, host: &str, port: Option<&str>, path: &str, query: Option<&str>, fragment: Option<&str>) -> UrlParts {
    UrlParts {
        scheme: scheme.to_string(),
        userinfo: userinfo.to_string(),
        host: host.to_string(),
        port: port.map(|p| p.to_string()),
        path: path.to_string(),
        query: query.map(|q| q.to_string()),
        fragment: fragment.map(|f| f.to_string()),
    }
}

#[test]
fn url_parts_render() {
    let u = parts("https", "user:pw", "example.com", Some("8080"), "/a", Some("x=1"), Some("top"));
    assert_eq!(u.netloc(), "example.com:8080");
    assert_eq!(u.authority(), "user:pw@example.com:8080");
    assert_eq!(u.render(), "https://user:pw@example.com:8080/a?x=1#top");
    let v = parts("", "", "::1", None, "/", None, None);
    assert_eq!(v.netloc(), "[::1]");
    assert_eq!(v.authority(), "[::1]");
    assert_eq!(v.render(), "//[::1]/");
}
