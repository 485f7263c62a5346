//! Byte-level text helpers shared by the URL and response logic.

use vstd::prelude::*;
use vstd::utf8::*;

verus! {

/// The UTF-8 bytes of a text, as `str::as_bytes` gives them.
pub open spec fn utf8(s: Seq<char>) -> Seq<u8> {
    vstd::utf8::encode_utf8(s)
}

/// The first index at or after `from` that holds the byte `c`.
pub open spec fn find_byte_from(b: Seq<u8>, c: u8, from: int) -> Option<int>
    decreases b.len() - from,
{
    if from < 0 || from >= b.len() {
        None
    } else if b[from] == c {
        Some(from)
    } else {
        find_byte_from(b, c, from + 1)
    }
}

/// The first index of the byte `c` in `b`, as `str::find` with an ASCII `char` reports it.
pub open spec fn find_byte(b: Seq<u8>, c: u8) -> Option<int> {
    find_byte_from(b, c, 0)
}

/// The last index before `end` that holds the byte `c`.
pub open spec fn rfind_byte_before(b: Seq<u8>, c: u8, end: int) -> Option<int>
    decreases end,
{
    if end <= 0 || end > b.len() {
        None
    } else if b[end - 1] == c {
        Some(end - 1)
    } else {
        rfind_byte_before(b, c, end - 1)
    }
}

/// The last index of the byte `c` in `b`, as `str::rfind` with an ASCII `char` reports it.
pub open spec fn rfind_byte(b: Seq<u8>, c: u8) -> Option<int> {
    rfind_byte_before(b, c, b.len() as int)
}

/// How many bytes of `b` equal `c`.
pub open spec fn count_byte(b: Seq<u8>, c: u8) -> nat
    decreases b.len(),
{
    if b.len() == 0 {
        0
    } else {
        count_byte(b.drop_last(), c) + if b.last() == c { 1nat } else { 0nat }
    }
}

/// `pat` stands in `b` from index `i` on.
pub open spec fn occurs_at(b: Seq<u8>, pat: Seq<u8>, i: int) -> bool {
    0 <= i && i + pat.len() <= b.len() && b.subrange(i, i + pat.len()) == pat
}

/// The first index at or after `from` where `pat` stands in `b`.
pub open spec fn find_seq_from(b: Seq<u8>, pat: Seq<u8>, from: int) -> Option<int>
    decreases b.len() + 1 - from,
{
    if from < 0 || from + pat.len() > b.len() {
        None
    } else if occurs_at(b, pat, from) {
        Some(from)
    } else {
        find_seq_from(b, pat, from + 1)
    }
}

/// The first index where `pat` stands in `b`, as `str::find` with a `&str` reports it.
pub open spec fn find_seq(b: Seq<u8>, pat: Seq<u8>) -> Option<int> {
    find_seq_from(b, pat, 0)
}

/// A position in spec form as a machine index.
pub open spec fn to_index(o: Option<int>) -> Option<usize> {
    match o {
        Some(i) => Some(i as usize),
        None => None,
    }
}

/// `b` begins with `pat`.
pub open spec fn starts_with(b: Seq<u8>, pat: Seq<u8>) -> bool {
    occurs_at(b, pat, 0)
}

/// What `find_byte_from` returns: the first match at or after `from`, or none at all.
pub proof fn lemma_find_byte_from(b: Seq<u8>, c: u8, from: int)
    requires
        0 <= from,
    ensures
        match find_byte_from(b, c, from) {
            Some(i) => from <= i < b.len() && b[i] == c && forall|j: int|
                from <= j < i ==> b[j] != c,
            None => forall|j: int| from <= j < b.len() ==> b[j] != c,
        },
    decreases b.len() - from,
{
    if from < b.len() && b[from] != c {
        lemma_find_byte_from(b, c, from + 1);
    }
}

/// `find_byte` gives the first index of `c`, and none when `c` is absent.
pub proof fn lemma_find_byte(b: Seq<u8>, c: u8)
    ensures
        match find_byte(b, c) {
            Some(i) => 0 <= i < b.len() && b[i] == c && forall|j: int| 0 <= j < i ==> b[j] != c,
            None => forall|j: int| 0 <= j < b.len() ==> b[j] != c,
        },
{
    lemma_find_byte_from(b, c, 0);
}

/// What `rfind_byte_before` returns: the last match before `end`, or none at all.
pub proof fn lemma_rfind_byte_before(b: Seq<u8>, c: u8, end: int)
    requires
        end <= b.len(),
    ensures
        match rfind_byte_before(b, c, end) {
            Some(i) => 0 <= i < end && b[i] == c && forall|j: int| i < j < end ==> b[j] != c,
            None => forall|j: int| 0 <= j < end ==> b[j] != c,
        },
    decreases end,
{
    if end > 0 && b[end - 1] != c {
        lemma_rfind_byte_before(b, c, end - 1);
    }
}

/// `rfind_byte` gives the last index of `c`, and none when `c` is absent.
pub proof fn lemma_rfind_byte(b: Seq<u8>, c: u8)
    ensures
        match rfind_byte(b, c) {
            Some(i) => 0 <= i < b.len() && b[i] == c && forall|j: int| i < j < b.len() ==> b[j] != c,
            None => forall|j: int| 0 <= j < b.len() ==> b[j] != c,
        },
{
    lemma_rfind_byte_before(b, c, b.len() as int);
}

/// What `find_seq_from` returns: the first occurrence at or after `from`, or none at all.
pub proof fn lemma_find_seq_from(b: Seq<u8>, pat: Seq<u8>, from: int)
    requires
        0 <= from,
    ensures
        match find_seq_from(b, pat, from) {
            Some(i) => from <= i && occurs_at(b, pat, i) && forall|j: int|
                from <= j < i ==> !occurs_at(b, pat, j),
            None => forall|j: int| from <= j ==> !occurs_at(b, pat, j),
        },
    decreases b.len() + 1 - from,
{
    if from + pat.len() <= b.len() && !occurs_at(b, pat, from) {
        lemma_find_seq_from(b, pat, from + 1);
    }
}

/// `find_seq` gives the first occurrence of `pat`, and none when it is absent.
pub proof fn lemma_find_seq(b: Seq<u8>, pat: Seq<u8>)
    ensures
        match find_seq(b, pat) {
            Some(i) => 0 <= i && occurs_at(b, pat, i) && forall|j: int|
                0 <= j < i ==> !occurs_at(b, pat, j),
            None => forall|j: int| 0 <= j ==> !occurs_at(b, pat, j),
        },
{
    lemma_find_seq_from(b, pat, 0);
}

/// The first index of `c` in `b`, or `None`.
pub(crate) fn find_byte_exec(b: &[u8], c: u8) -> (r: Option<usize>)
    ensures
        r == to_index(find_byte(b@, c)),
        r matches Some(i) ==> find_byte(b@, c) == Some(i as int) && i < b@.len(),
        r is None ==> find_byte(b@, c) is None,
{
    proof {
        lemma_find_byte(b@, c);
    }
    let mut i: usize = 0;
    while i < b.len()
        invariant
            i <= b@.len(),
            forall|j: int| 0 <= j < i ==> b@[j] != c,
        decreases b.len() - i,
    {
        if b[i] == c {
            proof {
                lemma_find_byte(b@, c);
            }
            return Some(i);
        }
        i = i + 1;
    }
    proof {
        lemma_find_byte(b@, c);
    }
    None
}

/// Whether `pat` stands in `b` from index `i` on.
pub(crate) fn occurs_at_exec(b: &[u8], pat: &[u8], i: usize) -> (r: bool)
    ensures
        r == occurs_at(b@, pat@, i as int),
{
    if i > b.len() || pat.len() > b.len() - i {
        return false;
    }
    let mut k: usize = 0;
    while k < pat.len()
        invariant
            i + pat.len() <= b.len(),
            k <= pat@.len(),
            forall|j: int| 0 <= j < k ==> b@[i + j] == pat@[j],
        decreases pat.len() - k,
    {
        if b[i + k] != pat[k] {
            assert(b@.subrange(i as int, i + pat@.len())[k as int] != pat@[k as int]);
            return false;
        }
        k = k + 1;
    }
    assert(b@.subrange(i as int, i + pat@.len()) =~= pat@);
    true
}

/// The first index where `pat` stands in `b`, or `None`.
pub(crate) fn find_seq_exec(b: &[u8], pat: &[u8]) -> (r: Option<usize>)
    ensures
        r == to_index(find_seq(b@, pat@)),
        r matches Some(i) ==> find_seq(b@, pat@) == Some(i as int) && i + pat@.len() <= b@.len(),
        r is None ==> find_seq(b@, pat@) is None,
{
    proof {
        lemma_find_seq(b@, pat@);
    }
    if pat.len() > b.len() {
        return None;
    }
    let last = b.len() - pat.len();
    let mut i: usize = 0;
    while i <= last
        invariant
            last + pat@.len() == b@.len(),
            forall|j: int| 0 <= j < i ==> !occurs_at(b@, pat@, j),
        decreases last + 1 - i,
    {
        if occurs_at_exec(b, pat, i) {
            proof {
                lemma_find_seq(b@, pat@);
            }
            return Some(i);
        }
        if i == last {
            proof {
                lemma_find_seq(b@, pat@);
                assert forall|j: int| 0 <= j implies !occurs_at(b@, pat@, j) by {
                    if j > last {
                        assert(!(j + pat@.len() <= b@.len()));
                    }
                }
            }
            return None;
        }
        i = i + 1;
    }
    None
}

/// True for the ASCII bytes `'0'` to `'9'`.
pub open spec fn is_digit(c: u8) -> bool {
    '0' as u8 <= c <= '9' as u8
}

/// Every byte of `s` is an ASCII digit.
pub open spec fn all_digits(s: Seq<u8>) -> bool {
    forall|i: int| 0 <= i < s.len() ==> #[trigger] is_digit(s[i])
}

/// The value of a run of ASCII digits read in base ten (most significant first).
pub open spec fn digits_value(s: Seq<u8>) -> nat
    decreases s.len(),
{
    if s.len() == 0 {
        0
    } else {
        digits_value(s.drop_last()) * 10 + (s.last() - '0' as u8) as nat
    }
}

/// The digits that `usize::from_str` reads: one leading `'+'` is skipped.
pub open spec fn unsigned_digits(s: Seq<u8>) -> Seq<u8> {
    if s.len() > 0 && s[0] == '+' as u8 {
        s.drop_first()
    } else {
        s
    }
}

/// What `usize::from_str` gives for the text `s`: an optional `'+'`, then one or
/// more ASCII digits whose value fits in a `usize`; anything else is refused.
pub open spec fn spec_parse_usize(s: Seq<u8>) -> Option<usize> {
    let d = unsigned_digits(s);
    if d.len() > 0 && all_digits(d) && digits_value(d) <= usize::MAX {
        Some(digits_value(d) as usize)
    } else {
        None
    }
}

/// Reading one more digit never makes the value smaller.
proof fn lemma_digits_value_prefix_monotone(s: Seq<u8>, j: int, k: int)
    requires
        0 <= j <= k <= s.len(),
        all_digits(s),
    ensures
        digits_value(s.take(j)) <= digits_value(s.take(k)),
    decreases k - j,
{
    if j < k {
        lemma_digits_value_prefix_monotone(s, j, k - 1);
        assert(s.take(k).drop_last() =~= s.take(k - 1));
        assert(is_digit(s[k - 1]));
    }
}

/// Parses `b[start..end]` as `usize::from_str` does.
pub(crate) fn parse_usize_in(b: &[u8], start: usize, end: usize) -> (r: Option<usize>)
    requires
        start <= end <= b@.len(),
    ensures
        r == spec_parse_usize(b@.subrange(start as int, end as int)),
{
    let ghost s = b@.subrange(start as int, end as int);
    let mut i = start;
    if i < end && b[i] == '+' as u8 {
        i = i + 1;
    }
    let ghost d = unsigned_digits(s);
    assert(d =~= b@.subrange(i as int, end as int));
    if i == end {
        return None;
    }
    let first = i;
    let mut value: usize = 0;
    while i < end
        invariant
            first <= i <= end <= b@.len(),
            first < end,
            s == b@.subrange(start as int, end as int),
            d == unsigned_digits(s),
            d =~= b@.subrange(first as int, end as int),
            all_digits(d.take(i - first)),
            value as nat == digits_value(d.take(i - first)),
        decreases end - i,
    {
        let c = b[i];
        let ghost k = i - first;
        assert(d[k as int] == c);
        if c < '0' as u8 || c > '9' as u8 {
            assert(!is_digit(d[k as int]));
            return None;
        }
        let digit = (c - '0' as u8) as usize;
        assert(d.take(k + 1).drop_last() =~= d.take(k as int));
        assert(all_digits(d.take(k + 1))) by {
            assert forall|j: int| 0 <= j < k + 1 implies #[trigger] is_digit(d.take(k + 1)[j]) by {
                if j < k {
                    assert(d.take(k + 1)[j] == d.take(k as int)[j]);
                }
            }
        }
        match value.checked_mul(10) {
            Some(m) => match m.checked_add(digit) {
                Some(v) => {
                    value = v;
                },
                None => {
                    proof {
                        if all_digits(d) {
                            lemma_digits_value_prefix_monotone(d, k + 1, d.len() as int);
                            assert(d.take(d.len() as int) =~= d);
                        }
                    }
                    return None;
                },
            },
            None => {
                proof {
                    if all_digits(d) {
                        lemma_digits_value_prefix_monotone(d, k + 1, d.len() as int);
                        assert(d.take(d.len() as int) =~= d);
                    }
                }
                return None;
            },
        }
        i = i + 1;
    }
    assert(d.take(d.len() as int) =~= d);
    Some(value)
}

/// Parses the text `text` as a `usize`, with the grammar of `usize::from_str`.
pub fn parse_usize(text: &[u8]) -> (r: Option<usize>)
    ensures
        r == spec_parse_usize(text@),
{
    assert(text@.subrange(0, text@.len() as int) =~= text@);
    parse_usize_in(text, 0, text.len())
}

/// The UTF-8 bytes of two texts put together are the bytes of each, put together.
pub proof fn lemma_utf8_concat(a: Seq<char>, c: Seq<char>)
    ensures
        utf8(a + c) == utf8(a) + utf8(c),
    decreases a.len(),
{
    if a.len() == 0 {
        assert(a + c =~= c);
        assert(utf8(a) + utf8(c) =~= utf8(c));
    } else {
        lemma_utf8_concat(a.drop_first(), c);
        assert((a + c).drop_first() =~= a.drop_first() + c);
        assert((a + c)[0] == a[0]);
        assert(utf8(a + c) =~= utf8(a) + utf8(c));
    }
}

/// An ASCII text is encoded one byte per character.
pub proof fn lemma_utf8_ascii(s: Seq<char>)
    requires
        is_ascii_chars(s),
    ensures
        utf8(s) =~= Seq::new(s.len(), |i: int| s[i] as u8),
{
    is_ascii_chars_encode_utf8(s);
}

/// In valid UTF-8, an ASCII byte starts a character.
pub proof fn lemma_boundary_at_ascii(b: Seq<u8>, k: int)
    requires
        valid_utf8(b),
        0 <= k < b.len(),
        b[k] <= 0x7f,
    ensures
        is_char_boundary(b, k),
{
    is_char_boundary_iff_not_is_continuation_byte(b, k);
}

/// In valid UTF-8, the byte after an ASCII byte starts a character (or is the end).
pub proof fn lemma_boundary_after_ascii(b: Seq<u8>, k: int)
    requires
        valid_utf8(b),
        0 <= k < b.len(),
        b[k] <= 0x7f,
    ensures
        is_char_boundary(b, k + 1),
    decreases b.len(),
{
    let l = length_of_first_scalar(b);
    let rest = pop_first_scalar(b);
    assert(valid_first_scalar(b) && valid_utf8(rest));
    assert(1 <= l <= b.len());
    if k < l {
        assert(k == 0);
        assert(l == 1);
        reveal_with_fuel(is_char_boundary, 2);
        assert(rest.len() < b.len());
        assert(is_char_boundary(rest, 0));
    } else {
        assert(rest.len() == b.len() - l);
        assert(rest[k - l] == b[k]);
        lemma_boundary_after_ascii(rest, k - l);
        reveal_with_fuel(is_char_boundary, 2);
    }
}

/// A valid UTF-8 text starts and ends on character boundaries.
pub proof fn lemma_boundary_ends(b: Seq<u8>)
    requires
        valid_utf8(b),
    ensures
        is_char_boundary(b, 0),
        is_char_boundary(b, b.len() as int),
{
    is_char_boundary_start_end_of_seq(b);
}

/// The ASCII digit for `d` (below ten) as a byte.
pub open spec fn digit_byte(d: nat) -> u8 {
    ('0' as u8 + d) as u8
}

/// The decimal digits of `n`, most significant first, with no leading zeros, as
/// bytes: how `usize` is written by `Display`.
pub open spec fn decimal_digits(n: nat) -> Seq<u8>
    decreases n,
{
    if n < 10 {
        seq![digit_byte(n)]
    } else {
        decimal_digits(n / 10).push(digit_byte(n % 10))
    }
}

/// The ASCII digit for `d` (below ten) as a character.
pub open spec fn digit_char(d: nat) -> char {
    if d == 0 {
        '0'
    } else if d == 1 {
        '1'
    } else if d == 2 {
        '2'
    } else if d == 3 {
        '3'
    } else if d == 4 {
        '4'
    } else if d == 5 {
        '5'
    } else if d == 6 {
        '6'
    } else if d == 7 {
        '7'
    } else if d == 8 {
        '8'
    } else {
        '9'
    }
}

/// The decimal digits of `n` as characters, as `usize` is written by `Display`.
pub open spec fn decimal_text(n: nat) -> Seq<char>
    decreases n,
{
    if n < 10 {
        seq![digit_char(n)]
    } else {
        decimal_text(n / 10).push(digit_char(n % 10))
    }
}

/// The decimal text of `n` is nonempty, made of digits, and reads back as `n`.
pub proof fn lemma_decimal_digits(n: nat)
    ensures
        decimal_digits(n).len() > 0,
        all_digits(decimal_digits(n)),
        digits_value(decimal_digits(n)) == n,
    decreases n,
{
    if n >= 10 {
        lemma_decimal_digits(n / 10);
        let d = decimal_digits(n);
        assert(d.drop_last() =~= decimal_digits(n / 10));
        assert forall|i: int| 0 <= i < d.len() implies #[trigger] is_digit(d[i]) by {
            if i < d.len() - 1 {
                assert(d[i] == decimal_digits(n / 10)[i]);
            }
        }
        assert(d.last() == digit_byte(n % 10));
        assert((d.last() - '0' as u8) as nat == n % 10);
        assert(digits_value(d) == digits_value(decimal_digits(n / 10)) * 10 + n % 10);
        assert((n / 10) * 10 + n % 10 == n) by (nonlinear_arith);
    } else {
        let d = decimal_digits(n);
        assert(d.drop_last() =~= Seq::<u8>::empty());
        assert(d.last() == digit_byte(n));
        assert(digit_byte(n) == 48 + n);
        assert(digits_value(d) == digits_value(d.drop_last()) * 10 + (d.last() - '0' as u8) as nat);
        assert(digits_value(d.drop_last()) == 0);
    }
}

/// Law: reading back what `usize`'s `Display` writes gives the same number.
pub proof fn lemma_parse_decimal_roundtrip(n: usize)
    ensures
        spec_parse_usize(decimal_digits(n as nat)) == Some(n),
{
    lemma_decimal_digits(n as nat);
    let d = decimal_digits(n as nat);
    assert(is_digit(d[0]));
    assert(unsigned_digits(d) == d);
}

/// The single-character text of the digit `d`.
fn digit_text(d: usize) -> (t: &'static str)
    requires
        d < 10,
    ensures
        t@ == seq![digit_char(d as nat)],
{
    proof {
        reveal_strlit("0");
        reveal_strlit("1");
        reveal_strlit("2");
        reveal_strlit("3");
        reveal_strlit("4");
        reveal_strlit("5");
        reveal_strlit("6");
        reveal_strlit("7");
        reveal_strlit("8");
        reveal_strlit("9");
    }
    match d {
        0 => "0",
        1 => "1",
        2 => "2",
        3 => "3",
        4 => "4",
        5 => "5",
        6 => "6",
        7 => "7",
        8 => "8",
        _ => "9",
    }
}

/// Appends the decimal text of `n` to `s`.
fn append_decimal(s: &mut String, n: usize)
    ensures
        final(s)@ == old(s)@ + decimal_text(n as nat),
    decreases n,
{
    if n >= 10 {
        append_decimal(s, n / 10);
    }
    s.append(digit_text(n % 10));
    assert(old(s)@ + decimal_text(n as nat) =~= final(s)@) by {
        if n >= 10 {
            assert(decimal_text(n as nat) == decimal_text((n / 10) as nat).push(digit_char((n % 10) as nat)));
        }
    }
}

/// Writes `n` in decimal, as `usize`'s `Display` does.
pub fn decimal_string(n: usize) -> (r: String)
    ensures
        r@ == decimal_text(n as nat),
{
    let mut s = String::new();
    append_decimal(&mut s, n);
    assert(s@ =~= decimal_text(n as nat));
    s
}

/// A leading `'0'` does not change the value of a run of digits.
proof fn lemma_leading_zero_value(d: Seq<u8>)
    ensures
        digits_value(seq!['0' as u8] + d) == digits_value(d),
    decreases d.len(),
{
    let z = seq!['0' as u8] + d;
    if d.len() == 0 {
        assert(z.drop_last() =~= Seq::<u8>::empty());
        assert(z.last() == '0' as u8);
        assert(digits_value(z) == digits_value(z.drop_last()) * 10 + (z.last() - '0' as u8) as nat);
        assert(digits_value(Seq::<u8>::empty()) == 0);
    } else {
        lemma_leading_zero_value(d.drop_last());
        assert(z.drop_last() =~= seq!['0' as u8] + d.drop_last());
        assert(z.last() == d.last());
        assert(digits_value(z) == digits_value(z.drop_last()) * 10 + (z.last() - '0' as u8) as nat);
    }
}

/// Law: a number may be read with one leading `'+'` or with a leading `'0'`; either way
/// it reads as the same number.
pub proof fn lemma_parse_usize_sign_and_zero(n: usize)
    ensures
        spec_parse_usize(seq!['+' as u8] + decimal_digits(n as nat)) == Some(n),
        spec_parse_usize(seq!['0' as u8] + decimal_digits(n as nat)) == Some(n),
{
    let d = decimal_digits(n as nat);
    lemma_decimal_digits(n as nat);
    assert((seq!['+' as u8] + d).drop_first() =~= d);
    lemma_leading_zero_value(d);
    let z = seq!['0' as u8] + d;
    assert(z[0] == '0' as u8);
    assert forall|i: int| 0 <= i < z.len() implies #[trigger] is_digit(z[i]) by {
        if i > 0 {
            assert(z[i] == d[i - 1]);
        }
    }
    assert(unsigned_digits(z) == z);
}

/// Law: the text of a number is refused when it is empty, or when some byte is neither
/// an ASCII digit (`'0'` to `'9'`) nor a `'+'` in first place.
pub proof fn lemma_parse_usize_refuses(s: Seq<u8>, i: int)
    ensures
        spec_parse_usize(Seq::<u8>::empty()) is None,
        spec_parse_usize(seq!['+' as u8]) is None,
        (0 <= i < s.len() && !('0' as u8 <= s[i] && s[i] <= '9' as u8) && !(i == 0 && s[0]
            == '+' as u8)) ==> spec_parse_usize(s) is None,
{
    assert(seq!['+' as u8].drop_first() =~= Seq::<u8>::empty());
    if 0 <= i < s.len() && !('0' as u8 <= s[i] && s[i] <= '9' as u8) && !(i == 0 && s[0]
        == '+' as u8) {
        let d = unsigned_digits(s);
        if s.len() > 0 && s[0] == '+' as u8 {
            assert(i > 0);
            assert(d[i - 1] == s[i]);
            assert(!is_digit(d[i - 1]));
        } else {
            assert(!is_digit(d[i]));
        }
    }
}

/// Law: the text `decimal_string` writes is, character by character, the ASCII
/// digits that `parse_usize` reads back as the same number.
pub proof fn lemma_decimal_text_is_digits(n: nat)
    ensures
        decimal_text(n).len() == decimal_digits(n).len(),
        forall|i: int| 0 <= i < decimal_text(n).len() ==> (#[trigger] decimal_text(n)[i]) as u32
            == decimal_digits(n)[i] as u32,
        vstd::utf8::is_ascii_chars(decimal_text(n)),
        utf8(decimal_text(n)) == decimal_digits(n),
    decreases n,
{
    let t = decimal_text(n);
    let d = decimal_digits(n);
    if n >= 10 {
        lemma_decimal_text_is_digits(n / 10);
        assert forall|i: int| 0 <= i < t.len() implies (#[trigger] t[i]) as u32 == d[i] as u32 by {
            if i < t.len() - 1 {
                assert(t[i] == decimal_text(n / 10)[i]);
                assert(d[i] == decimal_digits(n / 10)[i]);
            }
        }
    }
    assert(vstd::utf8::is_ascii_chars(t)) by {
        assert forall|i: int| 0 <= i < t.len() implies '\0' <= #[trigger] t[i] <= '\u{7f}' by {
            assert(t[i] as u32 == d[i] as u32);
        }
    }
    lemma_utf8_ascii(t);
    assert(utf8(t) =~= d);
}

} // verus!
