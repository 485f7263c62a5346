//! The HTTP side of the healthcheck: the request it sends, and the verdict on the
//! status line of the response it reads.

use vstd::prelude::*;
use vstd::slice::slice_subrange;
use crate::text::{
    decimal_digits, decimal_string, decimal_text, find_byte, find_byte_exec, is_digit,
    lemma_decimal_digits, lemma_decimal_text_is_digits, lemma_find_byte, lemma_parse_decimal_roundtrip, occurs_at_exec,
    parse_usize_in, spec_parse_usize, starts_with, utf8,
};

verus! {

/// Why a probe failed.
///
/// The messages of the operating system's I/O errors are kept as text.
#[derive(Debug, Clone)]
pub enum TestError {
    /// The TCP connection could not be opened; the I/O error's message.
    ConnectionFailure(String),
    /// The request could not be written to the connection.
    RequestSendingError,
    /// The response could not be read; the I/O error's message.
    ResponseReadingError(String),
    /// The response does not begin with an HTTP/1.1 status line.
    MalformedHttp,
    /// The response carries a client or server error status (400 to 599).
    HttpError(usize),
}

/// The text shown for each probe failure.
pub open spec fn test_error_text(e: TestError) -> Seq<char> {
    match e {
        TestError::ConnectionFailure(m) => "TCP connection failed: "@ + m@,
        TestError::RequestSendingError => "failed to send HTTP request"@,
        TestError::ResponseReadingError(m) => "failed to read HTTP response: "@ + m@,
        TestError::MalformedHttp => "response is not valid HTTP"@,
        TestError::HttpError(status) => "response has HTTP status "@ + decimal_text(status as nat),
    }
}

impl TestError {
    /// The message shown to the user for this failure.
    pub fn description(&self) -> (r: String)
        ensures
            r@ == test_error_text(*self),
    {
        match self {
            TestError::ConnectionFailure(m) => {
                let mut s = "TCP connection failed: ".to_owned();
                s.append(m.as_str());
                s
            },
            TestError::RequestSendingError => "failed to send HTTP request".to_owned(),
            TestError::ResponseReadingError(m) => {
                let mut s = "failed to read HTTP response: ".to_owned();
                s.append(m.as_str());
                s
            },
            TestError::MalformedHttp => "response is not valid HTTP".to_owned(),
            TestError::HttpError(status) => {
                let mut s = "response has HTTP status ".to_owned();
                let digits = decimal_string(*status);
                s.append(digits.as_str());
                s
            },
        }
    }

    /// The exit status of the healthcheck for this failure: 4 for an HTTP error
    /// status, 1 for anything else.
    pub fn exit_code(&self) -> (c: u8)
        ensures
            c == (if self is HttpError { 4u8 } else { 1u8 }),
    {
        match self {
            TestError::HttpError(_) => 4,
            _ => 1,
        }
    }
}

/// The request line and headers sent to the service under test.
pub open spec fn request_text(path: Seq<char>, host: Seq<char>) -> Seq<char> {
    "GET "@ + path + " HTTP/1.1\nHost: "@ + host + "\nUser-agent: simple-web-healthcheck-rs\nConnection: close\n\n"@
}

/// Writes the `GET` request for `path` with `host` (the IP address of the socket)
/// in the `Host` header.
pub fn build_request(path: &str, host: &str) -> (r: String)
    ensures
        r@ == request_text(path@, host@),
{
    let mut s = "GET ".to_owned();
    s.append(path);
    s.append(" HTTP/1.1\nHost: ");
    s.append(host);
    s.append("\nUser-agent: simple-web-healthcheck-rs\nConnection: close\n\n");
    s
}

/// `HTTP/1.1` as bytes.
pub open spec fn http11() -> Seq<u8> {
    seq!['H' as u8, 'T' as u8, 'T' as u8, 'P' as u8, '/' as u8, '1' as u8, '.' as u8, '1' as u8]
}

/// The second field of a line split at single spaces: the text after the first
/// `' '` up to the next `' '` or the end of the line.
pub open spec fn second_field(line: Seq<u8>) -> Seq<u8> {
    match find_byte(line, ' ' as u8) {
        Some(s) => {
            let after = line.subrange(s + 1, line.len() as int);
            match find_byte(after, ' ' as u8) {
                Some(e) => after.subrange(0, e),
                None => after,
            }
        },
        None => Seq::empty(),
    }
}

/// The status code of a response: its first line (up to the first `'\n'`) must begin
/// with `HTTP/1.1`, and its second field must read as a number.
pub open spec fn status_code(b: Seq<u8>) -> Option<usize> {
    if !starts_with(b, http11()) {
        None
    } else {
        match find_byte(b, '\n' as u8) {
            Some(n) => spec_parse_usize(second_field(b.subrange(0, n))),
            None => None,
        }
    }
}

/// A code from 400 to 599: a client or server error.
pub open spec fn is_error_status(code: usize) -> bool {
    400 <= code < 600
}

/// The verdict on a response: malformed without a status code, an HTTP error for a
/// code from 400 to 599, and healthy otherwise.
pub open spec fn spec_parse_response(b: Seq<u8>) -> Result<(), TestError> {
    match status_code(b) {
        None => Err(TestError::MalformedHttp),
        Some(code) => if is_error_status(code) {
            Err(TestError::HttpError(code))
        } else {
            Ok(())
        },
    }
}

/// When the response begins with `HTTP/1.1` and has a first line, that line holds a
/// `' '`, so that it has a second field to read. (Reading the verdict takes the
/// second field by index, which does not exist otherwise.)
pub open spec fn status_line_has_second_field(b: Seq<u8>) -> bool {
    starts_with(b, http11()) ==> match find_byte(b, '\n' as u8) {
        Some(n) => find_byte(b.subrange(0, n), ' ' as u8) is Some,
        None => true,
    }
}

/// Whether `parse_response` may be called on `response`: see
/// `status_line_has_second_field`.
pub fn has_second_field(response: &str) -> (r: bool)
    ensures
        r == status_line_has_second_field(utf8(response@)),
{
    let b = response.as_bytes();
    let http: [u8; 8] = ['H' as u8, 'T' as u8, 'T' as u8, 'P' as u8, '/' as u8, '1' as u8, '.' as u8, '1' as u8];
    assert(http@ =~= http11());
    if !occurs_at_exec(b, http.as_slice(), 0) {
        return true;
    }
    match find_byte_exec(b, '\n' as u8) {
        Some(n) => {
            proof {
                lemma_find_byte(b@, '\n' as u8);
            }
            let line = slice_subrange(b, 0, n);
            find_byte_exec(line, ' ' as u8).is_some()
        },
        None => true,
    }
}

/// Judges the response of the service under test by its status line.
pub fn parse_response(response: &str) -> (r: Result<(), TestError>)
    requires
        status_line_has_second_field(utf8(response@)),
    ensures
        r == spec_parse_response(utf8(response@)),
{
    let b = response.as_bytes();
    let ghost bs = utf8(response@);
    assert(b@ == bs);
    let http: [u8; 8] = ['H' as u8, 'T' as u8, 'T' as u8, 'P' as u8, '/' as u8, '1' as u8, '.' as u8, '1' as u8];
    assert(http@ =~= http11());
    if !occurs_at_exec(b, http.as_slice(), 0) {
        return Err(TestError::MalformedHttp);
    }
    let n = match find_byte_exec(b, '\n' as u8) {
        Some(n) => n,
        None => {
            return Err(TestError::MalformedHttp);
        },
    };
    proof {
        lemma_find_byte(bs, '\n' as u8);
    }
    let line = slice_subrange(b, 0, n);
    let ghost ls = bs.subrange(0, n as int);
    assert(line@ == ls);
    let first_space = find_byte_exec(line, ' ' as u8);
    proof {
        lemma_find_byte(ls, ' ' as u8);
    }
    let s1 = first_space.unwrap();
    let after = slice_subrange(line, s1 + 1, n);
    let ghost rest = ls.subrange(s1 + 1, ls.len() as int);
    assert(after@ == rest);
    let s2 = match find_byte_exec(after, ' ' as u8) {
        Some(e) => {
            proof {
                lemma_find_byte(rest, ' ' as u8);
            }
            e
        },
        None => after.len(),
    };
    assert(after@.subrange(0, s2 as int) == second_field(ls)) by {
        if find_byte(rest, ' ' as u8) is None {
            assert(rest.subrange(0, rest.len() as int) =~= rest);
        }
    }
    match parse_usize_in(after, 0, s2) {
        None => Err(TestError::MalformedHttp),
        Some(code) => {
            if code >= 400 && code < 600 {
                Err(TestError::HttpError(code))
            } else {
                Ok(())
            }
        },
    }
}

/// A status line `HTTP/1.1 <code> <reason>` and its line break, with `code` written
/// in decimal.
pub open spec fn status_line(code: usize, reason: Seq<u8>) -> Seq<u8> {
    seq!['H' as u8, 'T' as u8, 'T' as u8, 'P' as u8, '/' as u8, '1' as u8, '.' as u8, '1' as u8, ' ' as u8] + decimal_digits(code as nat) + seq![' ' as u8] + reason + seq![
        '\n' as u8,
    ]
}

/// Law: a response whose first line is `HTTP/1.1 <code> <reason>` (the reason holds no
/// line break; anything may follow the line) may be judged, and its verdict is an
/// HTTP error carrying `code` exactly when `code` is from 400 to 599; else it is
/// healthy.
pub proof fn lemma_status_line_verdict(code: usize, reason: Seq<u8>, rest: Seq<u8>)
    requires
        forall|i: int| 0 <= i < reason.len() ==> reason[i] != '\n' as u8,
    ensures
        status_line_has_second_field(status_line(code, reason) + rest),
        spec_parse_response(status_line(code, reason) + rest) == if 400 <= code && code < 600 {
            Err::<(), TestError>(TestError::HttpError(code))
        } else {
            Ok(())
        },
{
    let d = decimal_digits(code as nat);
    lemma_decimal_digits(code as nat);
    lemma_parse_decimal_roundtrip(code);
    let line = seq!['H' as u8, 'T' as u8, 'T' as u8, 'P' as u8, '/' as u8, '1' as u8, '.' as u8, '1' as u8, ' ' as u8] + d + seq![' ' as u8] + reason;
    let b = status_line(code, reason) + rest;
    assert(b =~= line + seq!['\n' as u8] + rest);
    let n = line.len() as int;
    assert forall|j: int| 0 <= j < d.len() implies d[j] != '\n' as u8 && d[j] != ' ' as u8 by {
        assert(is_digit(d[j]));
    }
    assert forall|j: int| 0 <= j < n implies line[j] != '\n' as u8 by {
        if j >= 9 + d.len() + 1 {
            assert(line[j] == reason[j - (9 + d.len() + 1)]);
        } else if j >= 9 && j < 9 + d.len() {
            assert(line[j] == d[j - 9]);
        }
    }
    assert(b[n] == '\n' as u8);
    lemma_find_byte(b, '\n' as u8);
    assert(find_byte(b, '\n' as u8) == Some(n));
    assert(b.subrange(0, n) =~= line);
    assert(starts_with(b, http11())) by {
        assert(b.subrange(0, 8) =~= http11());
    }
    lemma_find_byte(line, ' ' as u8);
    assert(line[8] == ' ' as u8);
    assert(find_byte(line, ' ' as u8) == Some(8int));
    let after = line.subrange(9, n);
    assert(after =~= d + seq![' ' as u8] + reason);
    lemma_find_byte(after, ' ' as u8);
    assert(after[d.len() as int] == ' ' as u8);
    assert(find_byte(after, ' ' as u8) == Some(d.len() as int));
    assert(after.subrange(0, d.len() as int) =~= d);
    assert(second_field(line) == d);
    assert(status_code(b) == Some(code));
}

/// Law: the request is, line by line, `GET <path> HTTP/1.1`, `Host: <host>`,
/// `User-agent: simple-web-healthcheck-rs`, `Connection: close`, and an empty line,
/// each ended by `'\n'`, whatever the path and host.
pub proof fn lemma_request_lines(path: Seq<char>, host: Seq<char>)
    ensures
        request_text(path, host) == seq!['G', 'E', 'T', ' '] + path + seq![
            ' ', 'H', 'T', 'T', 'P', '/', '1', '.', '1', '\n',
        ] + seq!['H', 'o', 's', 't', ':', ' '] + host + seq!['\n'] + seq![
            'U', 's', 'e', 'r', '-', 'a', 'g', 'e', 'n', 't', ':', ' ',
        ] + "simple-web-healthcheck-rs"@ + seq!['\n'] + seq![
            'C', 'o', 'n', 'n', 'e', 'c', 't', 'i', 'o', 'n', ':', ' ', 'c', 'l', 'o', 's', 'e',
            '\n',
        ] + seq!['\n'],
{
    reveal_strlit("GET ");
    reveal_strlit(" HTTP/1.1\nHost: ");
    reveal_strlit("\nUser-agent: simple-web-healthcheck-rs\nConnection: close\n\n");
    reveal_strlit("simple-web-healthcheck-rs");
    let lhs = request_text(path, host);
    let rhs = seq!['G', 'E', 'T', ' '] + path + seq![
        ' ', 'H', 'T', 'T', 'P', '/', '1', '.', '1', '\n',
    ] + seq!['H', 'o', 's', 't', ':', ' '] + host + seq!['\n'] + seq![
        'U', 's', 'e', 'r', '-', 'a', 'g', 'e', 'n', 't', ':', ' ',
    ] + "simple-web-healthcheck-rs"@ + seq!['\n'] + seq![
        'C', 'o', 'n', 'n', 'e', 'c', 't', 'i', 'o', 'n', ':', ' ', 'c', 'l', 'o', 's', 'e',
        '\n',
    ] + seq!['\n'];
    assert(lhs =~= rhs);
}

/// Law: a response that does not begin with the 8 bytes `H T T P / 1 . 1`, or that
/// holds no `'\n'`, is judged malformed.
pub proof fn lemma_malformed_responses(b: Seq<u8>)
    ensures
        !(b.len() >= 8 && b[0] == 'H' as u8 && b[1] == 'T' as u8 && b[2] == 'T' as u8 && b[3]
            == 'P' as u8 && b[4] == '/' as u8 && b[5] == '1' as u8 && b[6] == '.' as u8 && b[7]
            == '1' as u8) ==> spec_parse_response(b) == Err::<(), TestError>(TestError::MalformedHttp),
        (forall|i: int| 0 <= i < b.len() ==> b[i] != '\n' as u8) ==> spec_parse_response(b)
            == Err::<(), TestError>(TestError::MalformedHttp),
{
    lemma_find_byte(b, '\n' as u8);
    if starts_with(b, http11()) {
        let p = b.subrange(0, 8);
        assert(p[0] == 'H' as u8 && p[1] == 'T' as u8 && p[2] == 'T' as u8 && p[3] == 'P' as u8);
        assert(p[4] == '/' as u8 && p[5] == '1' as u8 && p[6] == '.' as u8 && p[7] == '1' as u8);
    }
}

/// Law: a response that begins with `H T T P / 1 . 1` and whose first `'\n'` is at
/// `n` may be judged exactly when a `' '` stands before `n`.
pub proof fn lemma_second_field_needed(b: Seq<u8>, n: int)
    requires
        b.len() >= 8,
        b[0] == 'H' as u8 && b[1] == 'T' as u8 && b[2] == 'T' as u8 && b[3] == 'P' as u8 && b[4]
            == '/' as u8 && b[5] == '1' as u8 && b[6] == '.' as u8 && b[7] == '1' as u8,
        0 <= n < b.len(),
        b[n] == '\n' as u8,
        forall|j: int| 0 <= j < n ==> b[j] != '\n' as u8,
    ensures
        status_line_has_second_field(b) <==> exists|j: int| 0 <= j < n && b[j] == ' ' as u8,
{
    assert(b.subrange(0, 8) =~= http11());
    lemma_find_byte(b, '\n' as u8);
    assert(find_byte(b, '\n' as u8) == Some(n));
    let line = b.subrange(0, n);
    lemma_find_byte(line, ' ' as u8);
    if exists|j: int| 0 <= j < n && b[j] == ' ' as u8 {
        let j = choose|j: int| 0 <= j < n && b[j] == ' ' as u8;
        assert(line[j] == ' ' as u8);
    }
    match find_byte(line, ' ' as u8) {
        Some(k) => {
            assert(b[k] == ' ' as u8);
        },
        None => {},
    }
}

/// Law: the message for an HTTP error status is `response has HTTP status ` followed
/// by digits that read back as that status.
pub proof fn lemma_status_message_names_code(code: usize)
    ensures
        ({
            let m = test_error_text(TestError::HttpError(code));
            &&& m.len() > 25
            &&& m.subrange(0, 25) == seq![
                'r', 'e', 's', 'p', 'o', 'n', 's', 'e', ' ', 'h', 'a', 's', ' ', 'H', 'T', 'T',
                'P', ' ', 's', 't', 'a', 't', 'u', 's', ' ',
            ]
            &&& spec_parse_usize(utf8(m.subrange(25, m.len() as int))) == Some(code)
        }),
{
    reveal_strlit("response has HTTP status ");
    let m = test_error_text(TestError::HttpError(code));
    let t = decimal_text(code as nat);
    lemma_decimal_text_is_digits(code as nat);
    lemma_decimal_digits(code as nat);
    lemma_parse_decimal_roundtrip(code);
    assert(m.subrange(25, m.len() as int) =~= t);
    assert(m.subrange(0, 25) =~= seq![
        'r', 'e', 's', 'p', 'o', 'n', 's', 'e', ' ', 'h', 'a', 's', ' ', 'H', 'T', 'T',
        'P', ' ', 's', 't', 'a', 't', 'u', 's', ' ',
    ]);
}

} // verus!
