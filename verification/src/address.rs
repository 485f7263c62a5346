//! The URL argument: which schemes are accepted, where the host part ends and the
//! path begins, and when the default port is filled in.
//!
//! All positions are byte positions in the UTF-8 text, as `str::find` and string
//! slicing count them.

use vstd::prelude::*;
use vstd::utf8::*;
use crate::text::{
    count_byte, decimal_digits, digits_value, is_digit, lemma_decimal_digits,
    lemma_parse_decimal_roundtrip, find_byte, find_byte_exec, find_seq, find_seq_exec,
    lemma_boundary_after_ascii, lemma_boundary_at_ascii, lemma_boundary_ends, lemma_find_byte,
    lemma_find_seq, lemma_rfind_byte, lemma_utf8_ascii, lemma_utf8_concat, occurs_at, occurs_at_exec,
    parse_usize_in, rfind_byte, rfind_byte_before, spec_parse_usize, starts_with, to_index, utf8,
};

verus! {

/// Why a URL argument cannot be turned into an address to probe.
#[derive(Debug, Clone, Copy, PartialEq, Eq, Structural)]
pub enum UrlError {
    /// The program was not given exactly one argument.
    MissingArgument,
    /// The URL names a scheme other than `http`.
    UnsupportedSchema,
    /// The URL asks for `https`, which this healthcheck does not speak.
    HttpsNotSupported,
    /// The host part, with its port, is not a socket address.
    InvalidSocketAddr,
}

/// The text shown for each URL error.
pub open spec fn url_error_text(e: UrlError) -> Seq<char> {
    match e {
        UrlError::MissingArgument => "missing url argument"@,
        UrlError::UnsupportedSchema => "unsupported schema"@,
        UrlError::HttpsNotSupported => "HTTPS is not supported"@,
        UrlError::InvalidSocketAddr => "invalid socket address"@,
    }
}

impl UrlError {
    /// The message shown to the user for this error.
    pub fn description(&self) -> (r: String)
        ensures
            r@ == url_error_text(*self),
    {
        match self {
            UrlError::MissingArgument => "missing url argument".to_owned(),
            UrlError::UnsupportedSchema => "unsupported schema".to_owned(),
            UrlError::HttpsNotSupported => "HTTPS is not supported".to_owned(),
            UrlError::InvalidSocketAddr => "invalid socket address".to_owned(),
        }
    }

    /// The exit status of the healthcheck when the URL is refused.
    pub fn exit_code(&self) -> (c: u8)
        ensures
            c == 2,
    {
        2
    }
}

/// The host part and the path of a URL, before a default port is filled in.
#[derive(Debug)]
pub struct UrlParts {
    /// The text between the scheme (if any) and the first `'/'` after it.
    pub host: String,
    /// The text from that `'/'` on, or `"/"` when the URL has no path.
    pub path: String,
}

/// `https://` as bytes.
pub open spec fn https_scheme() -> Seq<u8> {
    seq!['h' as u8, 't' as u8, 't' as u8, 'p' as u8, 's' as u8, ':' as u8, '/' as u8, '/' as u8]
}

/// `http://` as bytes.
pub open spec fn http_scheme() -> Seq<u8> {
    seq!['h' as u8, 't' as u8, 't' as u8, 'p' as u8, ':' as u8, '/' as u8, '/' as u8]
}

/// `://` as bytes.
pub open spec fn scheme_separator() -> Seq<u8> {
    seq![':' as u8, '/' as u8, '/' as u8]
}

/// The URL is longer than `https://` and begins with it.
pub open spec fn is_https_url(b: Seq<u8>) -> bool {
    b.len() > 8 && starts_with(b, https_scheme())
}

/// The first `://` stands somewhere after the first byte, so the URL names a scheme.
/// (A `://` at the very start is not taken for a scheme.)
pub open spec fn names_scheme(b: Seq<u8>) -> bool {
    match find_seq(b, scheme_separator()) {
        Some(p) => p != 0,
        None => false,
    }
}

/// The URL names a scheme, is longer than `http://`, and does not begin with it.
pub open spec fn names_foreign_scheme(b: Seq<u8>) -> bool {
    names_scheme(b) && b.len() > 7 && !starts_with(b, http_scheme())
}

/// Where the address begins: just after the first `://` when the URL names a scheme,
/// else at the start.
pub open spec fn address_start(b: Seq<u8>) -> int {
    match find_seq(b, scheme_separator()) {
        Some(p) => if p != 0 { p + 3 } else { 0 },
        None => 0,
    }
}

/// Where the host part of `rest` ends: at its first `'/'`, or at its end.
pub open spec fn host_end(rest: Seq<u8>) -> int {
    match find_byte(rest, '/' as u8) {
        Some(e) => e,
        None => rest.len() as int,
    }
}

/// How a URL splits: an error, or the host bytes and the path bytes (`None` when the
/// URL has no path, in which case the path `"/"` is used).
pub open spec fn spec_split_url(b: Seq<u8>) -> Result<(Seq<u8>, Option<Seq<u8>>), UrlError> {
    if is_https_url(b) {
        Err(UrlError::HttpsNotSupported)
    } else if names_foreign_scheme(b) {
        Err(UrlError::UnsupportedSchema)
    } else {
        let rest = b.subrange(address_start(b), b.len() as int);
        let end = host_end(rest);
        Ok(
            (
                rest.subrange(0, end),
                if rest.len() > end {
                    Some(rest.subrange(end, rest.len() as int))
                } else {
                    None
                },
            ),
        )
    }
}

/// The scheme checks cut the text after its 8th byte (when it is longer than 8 bytes)
/// and, when they get as far as the `http://` test, after its 7th byte; both cuts
/// must fall between characters.
pub open spec fn cuts_between_characters(b: Seq<u8>) -> bool {
    &&& b.len() > 8 ==> !is_continuation_byte(b[8])
    &&& (!is_https_url(b) && names_scheme(b) && b.len() > 7) ==> !is_continuation_byte(b[7])
}

/// `parts` holds the host and path bytes that `spec_split_url` names.
pub open spec fn parts_hold(parts: UrlParts, host: Seq<u8>, path: Option<Seq<u8>>) -> bool {
    &&& utf8(parts.host@) == host
    &&& match path {
        Some(p) => utf8(parts.path@) == p,
        None => parts.path@ == seq!['/'],
    }
}

/// The outcome of a split agrees with `spec_split_url`.
pub open spec fn split_agrees(r: Result<UrlParts, UrlError>, b: Seq<u8>) -> bool {
    match r {
        Ok(parts) => match spec_split_url(b) {
            Ok((host, path)) => parts_hold(parts, host, path),
            Err(_) => false,
        },
        Err(e) => spec_split_url(b) == Err::<(Seq<u8>, Option<Seq<u8>>), UrlError>(e),
    }
}

/// Whether `split_url` may be called on `raw_url`: its scheme checks cut the text
/// between characters.
pub fn cuts_fall_between_characters(raw_url: &str) -> (r: bool)
    ensures
        r == cuts_between_characters(utf8(raw_url@)),
{
    let b = raw_url.as_bytes();
    assert(b@ == utf8(raw_url@));
    proof {
        lemma_find_seq(b@, scheme_separator());
    }
    if b.len() > 8 && 0x80 <= b[8] && b[8] <= 0xbf {
        return false;
    }
    let https: [u8; 8] = ['h' as u8, 't' as u8, 't' as u8, 'p' as u8, 's' as u8, ':' as u8, '/' as u8, '/' as u8];
    let sep: [u8; 3] = [':' as u8, '/' as u8, '/' as u8];
    assert(https@ =~= https_scheme());
    assert(sep@ =~= scheme_separator());
    let is_https = b.len() > 8 && occurs_at_exec(b, https.as_slice(), 0);
    let scheme = match find_seq_exec(b, sep.as_slice()) {
        Some(p) => p != 0,
        None => false,
    };
    if !is_https && scheme && b.len() > 7 && 0x80 <= b[7] && b[7] <= 0xbf {
        return false;
    }
    true
}

/// Splits a URL into its host part and its path.
///
/// A URL longer than `https://` that begins with it is refused as HTTPS. A URL that
/// names another scheme than `http` (a `://` after its first byte) and is longer than
/// `http://` is refused as an unsupported scheme. Otherwise the address begins after
/// the `://` (or at the start), the host part runs up to the next `'/'`, and the path
/// is the rest, or `"/"` when there is none.
pub fn split_url(raw_url: &str) -> (r: Result<UrlParts, UrlError>)
    requires
        cuts_between_characters(utf8(raw_url@)),
    ensures
        split_agrees(r, utf8(raw_url@)),
{
    let b = raw_url.as_bytes();
    let ghost bs = utf8(raw_url@);
    assert(b@ == bs);
    proof {
        encode_utf8_valid_utf8(raw_url@);
        lemma_find_seq(bs, scheme_separator());
    }
    let https: [u8; 8] = ['h' as u8, 't' as u8, 't' as u8, 'p' as u8, 's' as u8, ':' as u8, '/' as u8, '/' as u8];
    let http: [u8; 7] = ['h' as u8, 't' as u8, 't' as u8, 'p' as u8, ':' as u8, '/' as u8, '/' as u8];
    let sep: [u8; 3] = [':' as u8, '/' as u8, '/' as u8];
    assert(https@ =~= https_scheme());
    assert(http@ =~= http_scheme());
    assert(sep@ =~= scheme_separator());

    if b.len() > 8 && occurs_at_exec(b, https.as_slice(), 0) {
        return Err(UrlError::HttpsNotSupported);
    }
    let mut start: usize = 0;
    match find_seq_exec(b, sep.as_slice()) {
        Some(p) => {
            if p != 0 {
                if b.len() > 7 && !occurs_at_exec(b, http.as_slice(), 0) {
                    return Err(UrlError::UnsupportedSchema);
                }
                proof {
                    lemma_find_seq(bs, scheme_separator());
                    assert(bs.subrange(p as int, p + 3)[2] == '/' as u8);
                    lemma_boundary_after_ascii(bs, p + 2);
                }
                start = p + 3;
            }
        },
        None => {},
    }
    proof {
        lemma_boundary_ends(bs);
    }
    assert(start as int == address_start(bs));
    let (_, without) = raw_url.split_at(start);
    let wb = without.as_bytes();
    let ghost rest = bs.subrange(start as int, bs.len() as int);
    assert(wb@ == rest);
    proof {
        encode_utf8_valid_utf8(without@);
        lemma_boundary_ends(rest);
    }
    let end = match find_byte_exec(wb, '/' as u8) {
        Some(e) => {
            proof {
                lemma_find_byte(rest, '/' as u8);
                lemma_boundary_at_ascii(rest, e as int);
            }
            e
        },
        None => wb.len(),
    };
    assert(end as int == host_end(rest));
    let (host, tail) = without.split_at(end);
    let host_text = host.to_owned();
    let path_text = if wb.len() > end {
        tail.to_owned()
    } else {
        proof {
            reveal_strlit("/");
        }
        "/".to_owned()
    };
    assert(!is_https_url(bs));
    assert(!names_foreign_scheme(bs));
    assert(utf8(host_text@) == rest.subrange(0, end as int));
    assert(wb@.len() > end ==> utf8(path_text@) == rest.subrange(end as int, rest.len() as int));
    assert(wb@.len() <= end ==> path_text@ == seq!['/']);
    Ok(UrlParts { host: host_text, path: path_text })
}

/// Reads the URL from the program's arguments (the program name, then the URL) and
/// splits it with `split_url`; any other number of arguments is refused.
pub fn split_url_argument(args: &[String]) -> (r: Result<UrlParts, UrlError>)
    requires
        args@.len() == 2 ==> cuts_between_characters(utf8(args@[1]@)),
    ensures
        args@.len() != 2 ==> r == Err::<UrlParts, UrlError>(UrlError::MissingArgument),
        args@.len() == 2 ==> split_agrees(r, utf8(args@[1]@)),
{
    if args.len() != 2 {
        return Err(UrlError::MissingArgument);
    }
    split_url(args[1].as_str())
}

/// `://` stands at byte `p` of `b`.
pub open spec fn separator_at(b: Seq<u8>, p: int) -> bool {
    0 <= p && p + 3 <= b.len() && b[p] == ':' as u8 && b[p + 1] == '/' as u8 && b[p + 2]
        == '/' as u8
}

/// `b` has `p` as the position of its first `://`.
proof fn lemma_first_separator(b: Seq<u8>, p: int)
    requires
        separator_at(b, p),
        forall|j: int| 0 <= j < p ==> !separator_at(b, j),
    ensures
        find_seq(b, scheme_separator()) == Some(p),
{
    lemma_find_seq(b, scheme_separator());
    assert(b.subrange(p, p + 3) =~= scheme_separator());
    assert(occurs_at(b, scheme_separator(), p));
    match find_seq(b, scheme_separator()) {
        Some(i) => {
            assert(b.subrange(i, i + 3)[0] == ':' as u8);
            assert(b.subrange(i, i + 3)[1] == '/' as u8);
            assert(b.subrange(i, i + 3)[2] == '/' as u8);
            assert(separator_at(b, i));
            if i > p {
                assert(!occurs_at(b, scheme_separator(), p));
            }
        },
        None => {},
    }
}

/// Law: only `http` is accepted as a scheme. A URL whose first `://` stands after its
/// first byte, that is longer than 7 bytes, whose first 7 bytes are not
/// `h t t p : / /`, and that is not an HTTPS URL (longer than 8 bytes and beginning
/// with `h t t p s : / /`) is refused as an unsupported scheme.
pub proof fn lemma_foreign_scheme_refused(b: Seq<u8>, p: int)
    requires
        1 <= p,
        separator_at(b, p),
        forall|j: int| 0 <= j < p ==> !separator_at(b, j),
        b.len() > 7,
        !(b[0] == 'h' as u8 && b[1] == 't' as u8 && b[2] == 't' as u8 && b[3] == 'p' as u8
            && b[4] == ':' as u8 && b[5] == '/' as u8 && b[6] == '/' as u8),
        !(b.len() > 8 && b[0] == 'h' as u8 && b[1] == 't' as u8 && b[2] == 't' as u8 && b[3]
            == 'p' as u8 && b[4] == 's' as u8 && b[5] == ':' as u8 && b[6] == '/' as u8 && b[7]
            == '/' as u8),
    ensures
        spec_split_url(b) == Err::<(Seq<u8>, Option<Seq<u8>>), UrlError>(UrlError::UnsupportedSchema),
{
    lemma_first_separator(b, p);
    if starts_with(b, http_scheme()) {
        assert(b.subrange(0, 7)[4] == ':' as u8);
        assert(b.subrange(0, 7)[0] == 'h' as u8);
        assert(b.subrange(0, 7)[1] == 't' as u8);
        assert(b.subrange(0, 7)[2] == 't' as u8);
        assert(b.subrange(0, 7)[3] == 'p' as u8);
        assert(b.subrange(0, 7)[5] == '/' as u8);
        assert(b.subrange(0, 7)[6] == '/' as u8);
    }
    if is_https_url(b) {
        assert(b.subrange(0, 8)[0] == 'h' as u8);
        assert(b.subrange(0, 8)[1] == 't' as u8);
        assert(b.subrange(0, 8)[2] == 't' as u8);
        assert(b.subrange(0, 8)[3] == 'p' as u8);
        assert(b.subrange(0, 8)[4] == 's' as u8);
        assert(b.subrange(0, 8)[5] == ':' as u8);
        assert(b.subrange(0, 8)[6] == '/' as u8);
        assert(b.subrange(0, 8)[7] == '/' as u8);
    }
}

/// Law: an HTTPS URL (longer than 8 bytes and beginning with `h t t p s : / /`) is
/// refused as HTTPS.
pub proof fn lemma_https_refused(b: Seq<u8>)
    requires
        b.len() > 8,
        b[0] == 'h' as u8 && b[1] == 't' as u8 && b[2] == 't' as u8 && b[3] == 'p' as u8 && b[4]
            == 's' as u8 && b[5] == ':' as u8 && b[6] == '/' as u8 && b[7] == '/' as u8,
    ensures
        spec_split_url(b) == Err::<(Seq<u8>, Option<Seq<u8>>), UrlError>(UrlError::HttpsNotSupported),
{
    assert(b.subrange(0, 8) =~= https_scheme());
}

/// Law: the check for `split_url` refuses a URL only where a cut falls inside a
/// character. A cut at byte 8 (of a URL longer than 8 bytes) on a byte from 0x80 to
/// 0xbf is refused; when neither byte 7 nor byte 8 lies from 0x80 to 0xbf the URL
/// passes; in particular every all-ASCII URL passes.
pub proof fn lemma_cuts_between_characters(b: Seq<u8>)
    ensures
        (b.len() > 8 && 0x80 <= b[8] && b[8] <= 0xbf) ==> !cuts_between_characters(b),
        ((b.len() <= 8 || !(0x80 <= b[8] && b[8] <= 0xbf)) && (b.len() <= 7 || !(0x80 <= b[7]
            && b[7] <= 0xbf))) ==> cuts_between_characters(b),
        (forall|i: int| 0 <= i < b.len() ==> b[i] < 0x80) ==> cuts_between_characters(b),
{
    if forall|i: int| 0 <= i < b.len() ==> b[i] < 0x80 {
        if b.len() > 8 {
            assert(b[8] < 0x80);
        }
        if b.len() > 7 {
            assert(b[7] < 0x80);
        }
    }
}

/// Law: a URL that names a scheme (its first `://` at `p`, after its first byte), is
/// longer than 7 bytes, is not an HTTPS URL, and whose byte 7 lies from 0x80 to 0xbf
/// is refused by the check for `split_url`.
pub proof fn lemma_cut_at_seven_refused(b: Seq<u8>, p: int)
    requires
        1 <= p,
        separator_at(b, p),
        forall|j: int| 0 <= j < p ==> !separator_at(b, j),
        b.len() > 7,
        0x80 <= b[7] && b[7] <= 0xbf,
        !(b.len() > 8 && b[0] == 'h' as u8 && b[1] == 't' as u8 && b[2] == 't' as u8 && b[3]
            == 'p' as u8 && b[4] == 's' as u8 && b[5] == ':' as u8 && b[6] == '/' as u8 && b[7]
            == '/' as u8),
    ensures
        !cuts_between_characters(b),
{
    lemma_first_separator(b, p);
    if is_https_url(b) {
        assert(b.subrange(0, 8)[7] == '/' as u8);
    }
}

/// Law: a URL longer than 7 bytes that begins with `h t t p : / /` is accepted, and its
/// host and path put together are everything after those 7 bytes.
pub proof fn lemma_http_url_accepted(b: Seq<u8>)
    requires
        b.len() > 7,
        b[0] == 'h' as u8 && b[1] == 't' as u8 && b[2] == 't' as u8 && b[3] == 'p' as u8 && b[4]
            == ':' as u8 && b[5] == '/' as u8 && b[6] == '/' as u8,
    ensures
        spec_split_url(b) matches Ok((host, path)) && match path {
            Some(p) => host + p == b.subrange(7, b.len() as int),
            None => host == b.subrange(7, b.len() as int),
        },
{
    assert(separator_at(b, 4));
    lemma_first_separator(b, 4);
    assert(b.subrange(0, 7) =~= http_scheme());
    if is_https_url(b) {
        assert(b.subrange(0, 8)[4] == 's' as u8);
    }
    lemma_split_url_reassembles(b);
}

/// Law: a URL with no `://` anywhere is accepted, and its host and path put together
/// are the whole URL.
pub proof fn lemma_plain_address_accepted(b: Seq<u8>)
    requires
        forall|j: int| 0 <= j ==> !separator_at(b, j),
    ensures
        spec_split_url(b) matches Ok((host, path)) && match path {
            Some(p) => host + p == b,
            None => host == b,
        },
{
    lemma_find_seq(b, scheme_separator());
    match find_seq(b, scheme_separator()) {
        Some(i) => {
            assert(b.subrange(i, i + 3)[0] == ':' as u8);
            assert(b.subrange(i, i + 3)[1] == '/' as u8);
            assert(b.subrange(i, i + 3)[2] == '/' as u8);
            assert(separator_at(b, i));
        },
        None => {},
    }
    if is_https_url(b) {
        assert(b.subrange(0, 8)[5] == ':' as u8);
        assert(b.subrange(0, 8)[6] == '/' as u8);
        assert(b.subrange(0, 8)[7] == '/' as u8);
        assert(separator_at(b, 5));
    }
    assert(b.subrange(0, b.len() as int) =~= b);
    lemma_split_url_reassembles(b);
}

/// Law: when the URL has no path, the path handed back is the single character `/`;
/// otherwise it is the bytes named.
pub proof fn lemma_parts_hold(parts: UrlParts, host: Seq<u8>, path: Option<Seq<u8>>)
    ensures
        parts_hold(parts, host, path) ==> utf8(parts.host@) == host,
        parts_hold(parts, host, None) ==> parts.path@ == seq!['/'] && parts.path@.len() == 1,
        forall|p: Seq<u8>| parts_hold(parts, host, Some(p)) ==> utf8(parts.path@) == p,
{
}

/// Law: a URL that is accepted splits without loss. The host part holds no `'/'`;
/// a path, when there is one, begins with `'/'`; and host and path put together
/// give back the URL from the address on (the scheme, if any, cut off).
pub proof fn lemma_split_url_reassembles(b: Seq<u8>)
    ensures
        spec_split_url(b) matches Ok((host, path)) ==> {
            let rest = b.subrange(address_start(b), b.len() as int);
            &&& forall|i: int| 0 <= i < host.len() ==> host[i] != '/' as u8
            &&& match path {
                Some(p) => p.len() > 0 && p[0] == '/' as u8 && host + p == rest,
                None => host == rest,
            }
        },
{
    if spec_split_url(b) is Ok {
        let rest = b.subrange(address_start(b), b.len() as int);
        let end = host_end(rest);
        lemma_find_seq(b, scheme_separator());
        lemma_find_byte(rest, '/' as u8);
        assert(rest.subrange(0, end) + rest.subrange(end, rest.len() as int) =~= rest);
        if rest.len() <= end {
            assert(rest.subrange(0, end) =~= rest);
        }
    }
}

/// The port text that is filled in when a host has none: `:80`.
pub open spec fn default_port_text() -> Seq<char> {
    seq![':', '8', '0']
}

/// `:80` as bytes.
pub open spec fn default_port_bytes() -> Seq<u8> {
    seq![':' as u8, '8' as u8, '0' as u8]
}

/// The host text ends in a port: after its last `':'` stands a number that
/// `usize::from_str` reads.
pub open spec fn ends_with_port(h: Seq<u8>) -> bool {
    match rfind_byte(h, ':' as u8) {
        Some(i) => spec_parse_usize(h.subrange(i + 1, h.len() as int)) is Some,
        None => false,
    }
}

/// Whether the default port is filled in for the host bytes `h`. `is_ipv6` tells
/// whether `h` as a whole reads as an IPv6 address (`Ipv6Addr::from_str`).
///
/// With no `':'` at all, yes. With more than one `':'` and an IPv6 address (which has
/// no port), yes. Otherwise, yes exactly when what follows the last `':'` is not a
/// number.
pub open spec fn needs_default_port(h: Seq<u8>, is_ipv6: bool) -> bool {
    match rfind_byte(h, ':' as u8) {
        None => true,
        Some(i) => if count_byte(h, ':' as u8) > 1 && is_ipv6 {
            true
        } else {
            spec_parse_usize(h.subrange(i + 1, h.len() as int)) is None
        },
    }
}

/// The host bytes after the default port is filled in where it is needed.
pub open spec fn host_with_port(h: Seq<u8>, is_ipv6: bool) -> Seq<u8> {
    if needs_default_port(h, is_ipv6) {
        h + default_port_bytes()
    } else {
        h
    }
}

/// The bytes of `:80` are its ASCII codes.
proof fn lemma_default_port_utf8()
    ensures
        utf8(default_port_text()) == default_port_bytes(),
{
    lemma_utf8_ascii(default_port_text());
    assert(utf8(default_port_text()) =~= default_port_bytes());
}

/// Law: whatever host it is given, the host that comes out ends in a port.
pub proof fn lemma_host_with_port_ends_with_port(h: Seq<u8>, is_ipv6: bool)
    ensures
        ends_with_port(host_with_port(h, is_ipv6)),
{
    if needs_default_port(h, is_ipv6) {
        let out = h + default_port_bytes();
        let n = h.len() as int;
        lemma_rfind_byte(out, ':' as u8);
        assert(out[n] == ':' as u8);
        assert(out[n + 1] == '8' as u8);
        assert(out[n + 2] == '0' as u8);
        assert(rfind_byte(out, ':' as u8) == Some(n));
        let port = out.subrange(n + 1, out.len() as int);
        assert(port =~= seq!['8' as u8, '0' as u8]);
        let tens = port.drop_last();
        assert(tens =~= seq!['8' as u8]);
        assert(tens.drop_last() =~= Seq::<u8>::empty());
        assert(digits_value(tens.drop_last()) == 0);
        assert(digits_value(tens) == 8);
        assert(digits_value(port) == 80);
        assert(spec_parse_usize(port) == Some(80usize));
    } else {
        lemma_rfind_byte(h, ':' as u8);
    }
}

/// Law: a host that already ends in a port, and is not read as an IPv6 address, keeps
/// its text; so filling in the port twice changes nothing the second time.
pub proof fn lemma_host_with_port_idempotent(h: Seq<u8>, is_ipv6: bool)
    ensures
        ends_with_port(h) ==> host_with_port(h, false) == h,
        host_with_port(host_with_port(h, is_ipv6), false) == host_with_port(h, is_ipv6),
{
    lemma_host_with_port_ends_with_port(h, is_ipv6);
}

/// Fills in the default port `:80` where the host part has none.
///
/// `host_is_ipv6` is whether the whole host text reads as an IPv6 address, as
/// `Ipv6Addr::from_str` decides; only a host with more than one `':'` asks about it.
pub fn with_default_port(host: &str, host_is_ipv6: bool) -> (r: String)
    ensures
        r@ == if needs_default_port(utf8(host@), host_is_ipv6) {
            host@ + default_port_text()
        } else {
            host@
        },
        utf8(r@) == host_with_port(utf8(host@), host_is_ipv6),
        ends_with_port(utf8(r@)),
{
    let h = host.as_bytes();
    let ghost hs = utf8(host@);
    assert(h@ == hs);
    let colon = ':' as u8;
    let mut last: Option<usize> = None;
    let mut count: usize = 0;
    let mut i: usize = 0;
    while i < h.len()
        invariant
            i <= h@.len(),
            h@ == hs,
            colon == ':' as u8,
            last == to_index(rfind_byte_before(hs, colon, i as int)),
            count as nat == count_byte(hs.take(i as int), colon),
            count <= i,
        decreases h.len() - i,
    {
        assert(hs.take(i + 1).drop_last() =~= hs.take(i as int));
        if h[i] == colon {
            last = Some(i);
            count = count + 1;
        }
        i = i + 1;
    }
    assert(hs.take(hs.len() as int) =~= hs);
    let needs = match last {
        None => true,
        Some(k) => {
            proof {
                lemma_rfind_byte(hs, colon);
            }
            if count > 1 && host_is_ipv6 {
                true
            } else {
                parse_usize_in(h, k + 1, h.len()).is_none()
            }
        },
    };
    assert(needs == needs_default_port(hs, host_is_ipv6));
    let mut r = host.to_owned();
    if needs {
        proof {
            reveal_strlit(":80");
        }
        r.append(":80");
    }
    proof {
        lemma_utf8_concat(host@, default_port_text());
        lemma_default_port_utf8();
        lemma_host_with_port_ends_with_port(hs, host_is_ipv6);
        if needs {
            assert(r@ == host@ + default_port_text());
            assert(utf8(r@) == hs + default_port_bytes());
        }
    }
    r
}

/// Two bytes equal to `c` at different places make a count of at least two; one
/// makes a count of at least one.
proof fn lemma_count_at_least(h: Seq<u8>, c: u8, i: int, j: int)
    requires
        0 <= i < h.len(),
        h[i] == c,
    ensures
        count_byte(h, c) >= 1,
        (i < j < h.len() && h[j] == c) ==> count_byte(h, c) >= 2,
    decreases h.len(),
{
    let last = h.len() - 1;
    let t = h.drop_last();
    if h[last] == c {
        if i < j < h.len() && h[j] == c {
            assert(t[i] == c);
            lemma_count_at_least(t, c, i, i);
        }
    } else {
        assert(t[i] == c);
        if i < j < h.len() && h[j] == c {
            assert(t[j] == c);
        }
        lemma_count_at_least(t, c, i, j);
    }
}

/// Law: a host with no `':'` at all gets `: 8 0` put after it.
pub proof fn lemma_port_added_when_absent(h: Seq<u8>, is_ipv6: bool)
    requires
        forall|i: int| 0 <= i < h.len() ==> h[i] != ':' as u8,
    ensures
        host_with_port(h, is_ipv6) == h + seq![':' as u8, '8' as u8, '0' as u8],
{
    lemma_rfind_byte(h, ':' as u8);
}

/// Law: a host `<name>:<number>` keeps its text when it is not read as an IPv6
/// address, whatever the name.
pub proof fn lemma_port_kept(name: Seq<u8>, port: usize)
    ensures
        host_with_port(name + seq![':' as u8] + decimal_digits(port as nat), false) == name
            + seq![':' as u8] + decimal_digits(port as nat),
{
    let d = decimal_digits(port as nat);
    let h = name + seq![':' as u8] + d;
    lemma_decimal_digits(port as nat);
    lemma_parse_decimal_roundtrip(port);
    let k = name.len() as int;
    lemma_rfind_byte(h, ':' as u8);
    assert(h[k] == ':' as u8);
    assert forall|j: int| k < j < h.len() implies h[j] != ':' as u8 by {
        assert(h[j] == d[j - k - 1]);
        assert(is_digit(d[j - k - 1]));
    }
    assert(rfind_byte(h, ':' as u8) == Some(k));
    assert(h.subrange(k + 1, h.len() as int) =~= d);
}

/// Law: a host with two or more `':'` that is read as an IPv6 address gets `: 8 0`
/// put after it (an IPv6 address carries no port of its own).
pub proof fn lemma_port_added_to_ipv6(h: Seq<u8>, i: int, j: int)
    requires
        0 <= i < j < h.len(),
        h[i] == ':' as u8,
        h[j] == ':' as u8,
    ensures
        host_with_port(h, true) == h + seq![':' as u8, '8' as u8, '0' as u8],
{
    lemma_count_at_least(h, ':' as u8, i, j);
    lemma_rfind_byte(h, ':' as u8);
}

} // verus!
