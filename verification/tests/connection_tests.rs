use simple_web_healthcheck::connection::{build_request, has_second_field, parse_response, TestError};

#[test]
fn non_http_response_produces_error() {
    let raw = String::from("HASD ASD ASD as d");
    let parsed = parse_response(&raw);

    assert!(parsed.is_err_and(|e| matches!(e, TestError::MalformedHttp)));
}

#[test]
fn partial_http_response_produces_error() {
    let raw = String::from("HTTP/1.1 200 OK");
    let parsed = parse_response(&raw);

    assert!(parsed.is_err_and(|e| matches!(e, TestError::MalformedHttp)));
}

#[test]
fn http_response_with_invalid_status_produces_error() {
    let raw = String::from("HTTP/1.1 200A OK");
    let parsed = parse_response(&raw);

    assert!(parsed.is_err_and(|e| matches!(e, TestError::MalformedHttp)));
}

#[test]
fn http_response_with_client_error_status_produces_error() {
    let raw = String::from("HTTP/1.1 404 NOT_FOUND\n");
    let parsed = parse_response(&raw);

    assert!(parsed.is_err());
    let error = parsed.unwrap_err();
    match error {
        TestError::HttpError(status) => assert_eq!(status, 404),
        other => panic!("wrong error code: {}", other.description()),
    }
}

#[test]
fn http_response_with_server_error_status_produces_error() {
    let raw = String::from("HTTP/1.1 520 X\n");
    let parsed = parse_response(&raw);

    assert!(parsed.is_err());
    let error = parsed.unwrap_err();
    match error {
        TestError::HttpError(status) => assert_eq!(status, 520),
        other => panic!("wrong error code: {}", other.description()),
    }
}

#[test]
fn http_response_with_success_status_code_is_valid() {
    let raw = String::from("HTTP/1.1 200 SUCESS\n");
    let parsed = parse_response(&raw);

    assert!(parsed.is_ok());
}

#[test]
fn http_response_with_redirect_status_code_is_valid() {
    let raw = String::from("HTTP/1.1 301 REDIRECT\n");
    let parsed = parse_response(&raw);

    assert!(parsed.is_ok());
}

#[test]
fn http_response_with_other_status_code_is_valid() {
    let raw = String::from("HTTP/1.1 101 B\n");
    let parsed = parse_response(&raw);

    assert!(parsed.is_ok());
}

#[test]
fn status_bounds_are_399_healthy_400_and_599_errors_600_healthy() {
    assert!(parse_response("HTTP/1.1 399 X\n").is_ok());
    assert!(matches!(parse_response("HTTP/1.1 400 X\n"), Err(TestError::HttpError(400))));
    assert!(matches!(parse_response("HTTP/1.1 599 X\n"), Err(TestError::HttpError(599))));
    assert!(parse_response("HTTP/1.1 600 X\n").is_ok());
}

#[test]
fn status_without_reason_is_read_up_to_line_end() {
    assert!(matches!(parse_response("HTTP/1.1 503\nrest"), Err(TestError::HttpError(503))));
    assert!(parse_response("HTTP/1.1 204\n").is_ok());
}

#[test]
fn status_with_plus_sign_and_leading_zeros_is_read_as_number() {
    assert!(matches!(parse_response("HTTP/1.1 +0404 X\n"), Err(TestError::HttpError(404))));
}

#[test]
fn empty_status_field_is_malformed() {
    assert!(matches!(parse_response("HTTP/1.1  200 X\n"), Err(TestError::MalformedHttp)));
    assert!(matches!(parse_response("HTTP/1.1 -200 X\n"), Err(TestError::MalformedHttp)));
}

#[test]
fn only_first_line_counts() {
    assert!(parse_response("HTTP/1.1 200 OK\nHTTP/1.1 500 X\n").is_ok());
    assert!(matches!(parse_response("HTTP/1.0 200 OK\n"), Err(TestError::MalformedHttp)));
}

#[test]
fn status_too_large_for_usize_is_malformed() {
    let raw = "HTTP/1.1 99999999999999999999999 X\n";
    assert!(matches!(parse_response(raw), Err(TestError::MalformedHttp)));
}

#[test]
fn first_line_without_space_has_no_second_field() {
    assert!(!has_second_field("HTTP/1.1\n"));
    assert!(has_second_field("HTTP/1.1 200 OK\n"));
    assert!(has_second_field("HTTP/1.1 200 OK"));
    assert!(has_second_field("garbage"));
}

#[test]
fn request_names_path_and_host() {
    let request = build_request("/health", "127.0.0.1");
    assert_eq!(
        request,
        "GET /health HTTP/1.1\nHost: 127.0.0.1\nUser-agent: simple-web-healthcheck-rs\nConnection: close\n\n"
    );
}

#[test]
fn error_descriptions() {
    assert_eq!(TestError::HttpError(404).description(), "response has HTTP status 404");
    assert_eq!(TestError::MalformedHttp.description(), "response is not valid HTTP");
    assert_eq!(TestError::RequestSendingError.description(), "failed to send HTTP request");
    assert_eq!(
        TestError::ConnectionFailure(String::from("refused")).description(),
        "TCP connection failed: refused"
    );
    assert_eq!(
        TestError::ResponseReadingError(String::from("reset")).description(),
        "failed to read HTTP response: reset"
    );
}

#[test]
fn exit_codes() {
    assert_eq!(TestError::HttpError(500).exit_code(), 4);
    assert_eq!(TestError::MalformedHttp.exit_code(), 1);
    assert_eq!(TestError::ConnectionFailure(String::from("x")).exit_code(), 1);
}
