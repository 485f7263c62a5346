use simple_web_healthcheck::address::{
    cuts_fall_between_characters, split_url, split_url_argument, with_default_port, UrlError,
};

/// The host text (with its port) and the path that the URL argument resolves to. None
/// of the hosts below reads as a bare IPv6 address (`[::1]` has brackets), so the
/// IPv6 answer is `false` throughout.
fn resolve(args: &[String]) -> Result<(String, String), UrlError> {
    let parts = split_url_argument(args)?;
    Ok((with_default_port(&parts.host, false), parts.path))
}

fn resolve_url(url: &str) -> (String, String) {
    resolve(&[String::from("cmd"), String::from(url)]).unwrap()
}

#[test]
fn missing_argument_returns_correct_error() {
    let args = vec![String::from("cmd")];
    let result = resolve(&args);
    assert!(result.is_err_and(|e| matches!(e, UrlError::MissingArgument)));
}

#[test]
fn https_is_not_supported() {
    let args = vec![String::from("cmd"), String::from("https://test")];
    let result = resolve(&args);
    assert!(result.is_err_and(|e| matches!(e, UrlError::HttpsNotSupported)));
}

#[test]
fn http_is_supported() {
    let args = vec![String::from("cmd"), String::from("http://127.0.0.1")];
    let result = resolve(&args);
    assert!(result.is_ok());
}

#[test]
fn schemas_besides_http_or_https_throw_generic_schema_error() {
    let args = vec![String::from("cmd"), String::from("ftp://test")];
    let result = resolve(&args);
    assert!(result.is_err_and(|e| matches!(e, UrlError::UnsupportedSchema)));
}

#[test]
fn ipv4_with_port_and_without_schema_and_path_resolves() {
    assert_eq!(resolve_url("127.0.0.1:3000"), (String::from("127.0.0.1:3000"), String::from("/")));
}

#[test]
fn ipv6_with_port_and_without_schema_and_path_resolves() {
    assert_eq!(resolve_url("[::1]:3000"), (String::from("[::1]:3000"), String::from("/")));
}

#[test]
fn ipv4_without_port_schema_and_path_resolves() {
    assert_eq!(resolve_url("127.0.0.1"), (String::from("127.0.0.1:80"), String::from("/")));
}

#[test]
fn ipv6_without_port_and_schema_and_path_resolves() {
    assert_eq!(resolve_url("[::1]"), (String::from("[::1]:80"), String::from("/")));
}

#[test]
fn ipv4_with_port_and_path_without_schema_resolves() {
    assert_eq!(resolve_url("127.0.0.1:3000/test"), (String::from("127.0.0.1:3000"), String::from("/test")));
}

#[test]
fn ipv6_with_port_and_path_without_schema_resolves() {
    assert_eq!(resolve_url("[::1]:3000/test"), (String::from("[::1]:3000"), String::from("/test")));
}

#[test]
fn ipv4_with_path_and_without_port_schema_resolves() {
    assert_eq!(resolve_url("127.0.0.1/test"), (String::from("127.0.0.1:80"), String::from("/test")));
}

#[test]
fn ipv6_with_path_and_without_port_and_schema_resolves() {
    assert_eq!(resolve_url("[::1]/test"), (String::from("[::1]:80"), String::from("/test")));
}

#[test]
fn ipv4_with_port_and_schema_without_path_resolves() {
    assert_eq!(resolve_url("http://127.0.0.1:3000"), (String::from("127.0.0.1:3000"), String::from("/")));
}

#[test]
fn ipv6_with_port_and_with_schema_and_without_path_resolves() {
    assert_eq!(resolve_url("http://[::1]:3000"), (String::from("[::1]:3000"), String::from("/")));
}

#[test]
fn ipv4_with_schema_and_without_port_and_path_resolves() {
    assert_eq!(resolve_url("http://127.0.0.1"), (String::from("127.0.0.1:80"), String::from("/")));
}

#[test]
fn ipv6_with_schema_and_without_port_and_path_resolves() {
    assert_eq!(resolve_url("http://[::1]"), (String::from("[::1]:80"), String::from("/")));
}

#[test]
fn ipv4_with_port_and_schema_and_with_path_resolves() {
    assert_eq!(resolve_url("http://127.0.0.1:3000/test"), (String::from("127.0.0.1:3000"), String::from("/test")));
}

#[test]
fn ipv6_with_port_schema_and_path_resolves() {
    assert_eq!(resolve_url("http://[::1]:3000/test"), (String::from("[::1]:3000"), String::from("/test")));
}

#[test]
fn ipv4_with_path_and_schema_and_without_port_resolves() {
    assert_eq!(resolve_url("http://127.0.0.1/test"), (String::from("127.0.0.1:80"), String::from("/test")));
}

#[test]
fn ipv6_with_path_and_schema_and_without_port_resolves() {
    assert_eq!(resolve_url("http://[::1]/test"), (String::from("[::1]:80"), String::from("/test")));
}

#[test]
fn too_many_arguments_is_missing_argument() {
    let args = vec![String::from("cmd"), String::from("a"), String::from("b")];
    assert!(matches!(split_url_argument(&args), Err(UrlError::MissingArgument)));
}

#[test]
fn short_urls_skip_the_scheme_checks() {
    // exactly `https://` is not longer than 8 bytes, so it is judged as a scheme
    assert!(matches!(split_url("https://"), Err(UrlError::UnsupportedSchema)));
    // a foreign scheme no longer than `http://` passes the check
    let parts = split_url("a://b").unwrap();
    assert_eq!(parts.host, "b");
    assert_eq!(parts.path, "/");
    // a `://` at the very start is not a scheme
    let parts = split_url("://x/y").unwrap();
    assert_eq!(parts.host, ":");
    assert_eq!(parts.path, "//x/y");
}

#[test]
fn path_keeps_everything_after_the_host() {
    let parts = split_url("http://host:1/a/b?c=d").unwrap();
    assert_eq!(parts.host, "host:1");
    assert_eq!(parts.path, "/a/b?c=d");
}

#[test]
fn default_port_rules() {
    assert_eq!(with_default_port("example", false), "example:80");
    assert_eq!(with_default_port("example:8080", false), "example:8080");
    assert_eq!(with_default_port("example:http", false), "example:http:80");
    assert_eq!(with_default_port("example:", false), "example::80");
    assert_eq!(with_default_port("example:+90", false), "example:+90");
    // a bare IPv6 address always gets the port, even when its last group is numeric
    assert_eq!(with_default_port("::1", true), "::1:80");
    assert_eq!(with_default_port("::1", false), "::1");
    // a single colon never asks about IPv6
    assert_eq!(with_default_port("a:1", true), "a:1");
}

#[test]
fn default_port_twice_changes_nothing_more() {
    for host in ["a", "a:1", "[::1]", "a:b", "x:99999999999999999999999"] {
        let once = with_default_port(host, false);
        assert_eq!(with_default_port(&once, false), once);
    }
}

#[test]
fn non_ascii_urls() {
    assert!(!cuts_fall_between_characters("abcdefg\u{e9}"));
    assert!(cuts_fall_between_characters("abcdef\u{e9}x"));
    assert!(!cuts_fall_between_characters("abc://\u{e9}xx"));
    let parts = split_url("h\u{e9}st/p\u{e4}th").unwrap();
    assert_eq!(parts.host, "h\u{e9}st");
    assert_eq!(parts.path, "/p\u{e4}th");
}

#[test]
fn url_error_descriptions_and_exit_code() {
    assert_eq!(UrlError::MissingArgument.description(), "missing url argument");
    assert_eq!(UrlError::UnsupportedSchema.description(), "unsupported schema");
    assert_eq!(UrlError::HttpsNotSupported.description(), "HTTPS is not supported");
    assert_eq!(UrlError::InvalidSocketAddr.description(), "invalid socket address");
    assert_eq!(UrlError::HttpsNotSupported.exit_code(), 2);
}
