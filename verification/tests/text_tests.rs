use simple_web_healthcheck::{decimal_string, parse_usize};

#[test]
fn parse_usize_follows_from_str() {
    for text in ["0", "7", "42", "+42", "007", "", "+", "-1", "++1", "1 ", "1a", "99999999999999999999999"] {
        assert_eq!(parse_usize(text.as_bytes()), text.parse::<usize>().ok(), "{text:?}");
    }
    assert_eq!(parse_usize(usize::MAX.to_string().as_bytes()), Some(usize::MAX));
}

#[test]
fn decimal_string_follows_display() {
    for n in [0usize, 9, 10, 404, 1234567890, usize::MAX] {
        assert_eq!(decimal_string(n), n.to_string());
    }
}

#[test]
fn decimal_reads_back() {
    for n in [0usize, 1, 80, 599, usize::MAX] {
        assert_eq!(parse_usize(decimal_string(n).as_bytes()), Some(n));
    }
}
