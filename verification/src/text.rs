//! The strings of a table: NUL-terminated byte strings in a pool, their two
//! encodings, and the reading of quoted decimal numbers.

use vstd::prelude::*;
use vstd::slice::slice_subrange;
use vstd::utf8::{decode_utf8, valid_utf8};

verus! {

/// How the strings of a table are encoded.
#[derive(Debug, Clone, Copy, PartialEq, Eq, Structural)]
pub enum StringEncoding {
    /// The legacy encoding. Each byte is taken as the character with that
    /// code, which is exact for ASCII and an approximation beyond it.
    Sjis,
    Utf8,
}

/// The error of `core::str::from_utf8`.
#[verifier::external_type_specification]
#[verifier::external_body]
pub struct ExUtf8Error(core::str::Utf8Error);

/// `core::str::from_utf8` accepts exactly the byte strings that are valid
/// UTF-8, and the string slice it gives holds the characters they encode.
pub assume_specification[ core::str::from_utf8 ](v: &[u8]) -> (r: Result<
    &str,
    core::str::Utf8Error,
>)
    ensures
        r is Ok <==> valid_utf8(v@),
        r is Ok ==> r.unwrap()@ == decode_utf8(v@),
;

/// `String::push` appends one character.
pub assume_specification[ std::string::String::push ](s: &mut std::string::String, ch: char)
    ensures
        final(s)@ == old(s)@.push(ch),
;

/// The index of the first NUL byte at or behind `from`, or the length of
/// `data` where there is none.
pub open spec fn terminator(data: Seq<u8>, from: int) -> int
    decreases data.len() - from,
{
    if 0 <= from < data.len() && data[from] != 0 {
        terminator(data, from + 1)
    } else {
        from
    }
}

/// The bytes of the string that starts at `offset`, without its terminator.
pub open spec fn string_bytes(data: Seq<u8>, offset: int) -> Seq<u8> {
    data.subrange(offset, terminator(data, offset))
}

/// Each byte as the character with that code.
pub open spec fn legacy_chars(bytes: Seq<u8>) -> Seq<char> {
    bytes.map_values(|b: u8| b as char)
}

/// The characters that `bytes` stand for; none where they should be UTF-8 and
/// are not.
pub open spec fn decode_text(bytes: Seq<u8>, enc: StringEncoding) -> Option<Seq<char>> {
    match enc {
        StringEncoding::Utf8 => if valid_utf8(bytes) {
            Some(decode_utf8(bytes))
        } else {
            None
        },
        StringEncoding::Sjis => Some(legacy_chars(bytes)),
    }
}

/// The string that starts at `offset` in the pool `data`; none where `offset`
/// lies outside the pool or the bytes cannot be decoded.
pub open spec fn string_at(data: Seq<u8>, offset: int, enc: StringEncoding) -> Option<Seq<char>> {
    if 0 <= offset < data.len() {
        decode_text(string_bytes(data, offset), enc)
    } else {
        None
    }
}

/// What an optional string holds.
pub open spec fn text_view(s: Option<String>) -> Option<Seq<char>> {
    match s {
        Some(s) => Some(s@),
        None => None,
    }
}

/// The terminator of a string is the first position from its start on that
/// holds a NUL byte or lies behind the data.
pub proof fn lemma_terminator(data: Seq<u8>, from: int, end: int)
    requires
        0 <= from <= end <= data.len(),
        forall|i: int| from <= i < end ==> data[i] != 0,
        end == data.len() || data[end] == 0,
    ensures
        terminator(data, from) == end,
    decreases end - from,
{
    if from < end {
        lemma_terminator(data, from + 1, end);
    }
}

/// Decodes bytes of the legacy encoding.
fn decode_legacy(bytes: &[u8]) -> (r: String)
    ensures
        r@ == legacy_chars(bytes@),
{
    let mut s = String::new();
    let mut i: usize = 0;
    while i < bytes.len()
        invariant
            i <= bytes.len(),
            s@ == legacy_chars(bytes@.take(i as int)),
        decreases bytes.len() - i,
    {
        let c: char = bytes[i] as char;
        s.push(c);
        assert(legacy_chars(bytes@.take(i + 1)) =~= legacy_chars(bytes@.take(i as int)).push(c));
        i += 1;
    }
    assert(bytes@.take(bytes.len() as int) =~= bytes@);
    s
}

/// Reads the NUL-terminated string that starts at `offset` in `data`.
///
/// The string ends at the first NUL byte or at the end of `data`. Nothing
/// comes back where `offset` lies outside `data`, or where the encoding is
/// UTF-8 and the bytes are not valid UTF-8.
pub fn read_string(data: &[u8], offset: usize, enc: StringEncoding) -> (r: Option<String>)
    ensures
        text_view(r) == string_at(data@, offset as int, enc),
{
    if offset >= data.len() {
        return None;
    }
    let mut end = offset;
    while end < data.len() && data[end] != 0
        invariant
            offset <= end <= data.len(),
            forall|i: int| offset <= i < end ==> data@[i] != 0,
        decreases data.len() - end,
    {
        end += 1;
    }
    proof {
        lemma_terminator(data@, offset as int, end as int);
    }
    let slice = slice_subrange(data, offset, end);
    match enc {
        StringEncoding::Utf8 => match core::str::from_utf8(slice) {
            Ok(s) => Some(s.to_owned()),
            Err(_) => None,
        },
        StringEncoding::Sjis => Some(decode_legacy(slice)),
    }
}

/// The quote character that may surround a field.
pub open spec fn is_quote(c: char) -> bool {
    c == '"'
}

/// `s` without its leading quote characters.
pub open spec fn trim_start_quotes(s: Seq<char>) -> Seq<char>
    decreases s.len(),
{
    if s.len() > 0 && is_quote(s[0]) {
        trim_start_quotes(s.drop_first())
    } else {
        s
    }
}

/// `s` without its trailing quote characters.
pub open spec fn trim_end_quotes(s: Seq<char>) -> Seq<char>
    decreases s.len(),
{
    if s.len() > 0 && is_quote(s.last()) {
        trim_end_quotes(s.drop_last())
    } else {
        s
    }
}

/// `s` without the quote characters at its start and at its end, however
/// many there are.
pub open spec fn trim_quotes(s: Seq<char>) -> Seq<char> {
    trim_end_quotes(trim_start_quotes(s))
}

/// Whether `c` is one of the digits `0` to `9`.
pub open spec fn is_digit(c: char) -> bool {
    48 <= c as u32 <= 57
}

/// Whether `s` holds digits only.
pub open spec fn all_digits(s: Seq<char>) -> bool {
    forall|i: int| 0 <= i < s.len() ==> is_digit(#[trigger] s[i])
}

/// The number that the digits `s` spell out in base ten.
pub open spec fn digits_value(s: Seq<char>) -> int
    decreases s.len(),
{
    if s.len() == 0 {
        0
    } else {
        10 * digits_value(s.drop_last()) + (s.last() as u32 - 48)
    }
}

/// Whether `s` starts with a sign.
pub open spec fn has_sign(s: Seq<char>) -> bool {
    s.len() > 0 && (s[0] == '-' || s[0] == '+')
}

/// `s` without its sign.
pub open spec fn unsigned_part(s: Seq<char>) -> Seq<char> {
    if has_sign(s) {
        s.drop_first()
    } else {
        s
    }
}

/// The number that `s` spells out: an optional sign and then one digit or
/// more, with a value that a signed 64-bit integer can hold. None for every
/// other string.
pub open spec fn parse_decimal(s: Seq<char>) -> Option<i64> {
    let digits = unsigned_part(s);
    let value = if has_sign(s) && s[0] == '-' {
        -digits_value(digits)
    } else {
        digits_value(digits)
    };
    if digits.len() > 0 && all_digits(digits) && i64::MIN <= value <= i64::MAX {
        Some(value as i64)
    } else {
        None
    }
}

/// The number that a field spells out once the quotes around it are removed.
pub open spec fn parse_quoted_decimal(s: Seq<char>) -> Option<i64> {
    parse_decimal(trim_quotes(s))
}

/// Leading quotes are the longest run of quotes at the start.
pub proof fn lemma_trim_start(s: Seq<char>, a: int)
    requires
        0 <= a <= s.len(),
        forall|i: int| 0 <= i < a ==> is_quote(#[trigger] s[i]),
        a == s.len() || !is_quote(s[a]),
    ensures
        trim_start_quotes(s) == s.subrange(a, s.len() as int),
    decreases a,
{
    if a == 0 {
        assert(s.subrange(0, s.len() as int) =~= s);
    } else {
        let t = s.drop_first();
        assert forall|i: int| 0 <= i < a - 1 implies is_quote(#[trigger] t[i]) by {
            assert(is_quote(s[i + 1]));
        }
        lemma_trim_start(t, a - 1);
        assert(t.subrange(a - 1, t.len() as int) =~= s.subrange(a, s.len() as int));
    }
}

/// Trailing quotes are the longest run of quotes at the end.
pub proof fn lemma_trim_end(s: Seq<char>, b: int)
    requires
        0 <= b <= s.len(),
        forall|i: int| b <= i < s.len() ==> is_quote(#[trigger] s[i]),
        b == 0 || !is_quote(s[b - 1]),
    ensures
        trim_end_quotes(s) == s.subrange(0, b),
    decreases s.len() - b,
{
    if b == s.len() {
        assert(s.subrange(0, s.len() as int) =~= s);
    } else {
        let t = s.drop_last();
        assert(is_quote(s[s.len() - 1]));
        assert forall|i: int| b <= i < t.len() implies is_quote(#[trigger] t[i]) by {
            assert(is_quote(s[i]));
        }
        lemma_trim_end(t, b);
        assert(t.subrange(0, b) =~= s.subrange(0, b));
    }
}

/// The value of digits does not shrink as digits are appended.
pub proof fn lemma_digits_value_grows(s: Seq<char>, i: int)
    requires
        all_digits(s),
        0 <= i <= s.len(),
    ensures
        0 <= digits_value(s.take(i)) <= digits_value(s),
    decreases s.len() - i,
{
    if i == s.len() {
        assert(s.take(i) =~= s);
        lemma_digits_value_nonnegative(s);
    } else {
        lemma_digits_value_grows(s, i + 1);
        let t = s.take(i + 1);
        assert(t.drop_last() =~= s.take(i));
        assert(is_digit(s[i]));
        assert(t.last() == s[i]);
        lemma_digits_value_nonnegative(s.take(i));
    }
}

/// The value of digits is not negative.
pub proof fn lemma_digits_value_nonnegative(s: Seq<char>)
    requires
        all_digits(s),
    ensures
        0 <= digits_value(s),
    decreases s.len(),
{
    if s.len() > 0 {
        assert(is_digit(s[s.len() - 1]));
        lemma_digits_value_nonnegative(s.drop_last());
    }
}

/// The characters of a string, one element each.
pub fn string_chars(s: &str) -> (r: Vec<char>)
    ensures
        r@ == s@,
{
    let mut v: Vec<char> = Vec::new();
    for c in it: s.chars()
        invariant
            v@ =~= s@.take(it.index() as int),
            it.seq() == s@,
    {
        v.push(c);
    }
    v
}

/// Finds what is left of `chars` once the quotes at both ends are removed:
/// the characters from index `a` up to index `b`.
pub fn trim_quotes_range(chars: &[char]) -> (r: (usize, usize))
    ensures
        r.0 <= r.1 <= chars@.len(),
        trim_quotes(chars@) == chars@.subrange(r.0 as int, r.1 as int),
{
    let n = chars.len();
    let mut a: usize = 0;
    while a < n && chars[a] == '"'
        invariant
            a <= n,
            n == chars@.len(),
            forall|i: int| 0 <= i < a ==> is_quote(#[trigger] chars@[i]),
        decreases n - a,
    {
        a += 1;
    }
    let mut b: usize = n;
    while b > a && chars[b - 1] == '"'
        invariant
            a <= b <= n,
            n == chars@.len(),
            forall|i: int| b <= i < n ==> is_quote(#[trigger] chars@[i]),
        decreases b,
    {
        b -= 1;
    }
    proof {
        lemma_trim_start(chars@, a as int);
        let rest = chars@.subrange(a as int, n as int);
        assert forall|i: int| b - a <= i < rest.len() implies is_quote(#[trigger] rest[i]) by {
            assert(is_quote(chars@[i + a]));
        }
        lemma_trim_end(rest, b - a);
        assert(rest.subrange(0, b - a) =~= chars@.subrange(a as int, b as int));
    }
    (a, b)
}

/// Whether nothing but quote characters stands in `s`.
pub fn is_blank(s: &str) -> (r: bool)
    ensures
        r == (trim_quotes(s@).len() == 0),
{
    let chars = string_chars(s);
    let (a, b) = trim_quotes_range(chars.as_slice());
    a == b
}

/// Reads the decimal number that `chars` spell out.
pub fn parse_decimal_chars(chars: &[char]) -> (r: Option<i64>)
    ensures
        r == parse_decimal(chars@),
{
    let n = chars.len();
    if n == 0 {
        return None;
    }
    let negative = chars[0] == '-';
    let start: usize = if chars[0] == '-' || chars[0] == '+' {
        1
    } else {
        0
    };
    if start == n {
        return None;
    }
    let ghost digits = unsigned_part(chars@);
    assert(digits =~= chars@.subrange(start as int, n as int));
    let limit: u128 = if negative {
        0x8000_0000_0000_0000
    } else {
        0x7fff_ffff_ffff_ffff
    };
    let mut magnitude: u128 = 0;
    let mut i: usize = start;
    while i < n
        invariant
            start <= i <= n,
            n == chars@.len(),
            digits == unsigned_part(chars@),
            digits == chars@.subrange(start as int, n as int),
            negative == (has_sign(chars@) && chars@[0] == '-'),
            magnitude <= limit,
            limit == if negative {
                0x8000_0000_0000_0000u128
            } else {
                0x7fff_ffff_ffff_ffffu128
            },
            all_digits(digits.take(i - start)),
            magnitude == digits_value(digits.take(i - start)),
        decreases n - i,
    {
        let code: u32 = chars[i] as u32;
        assert(digits[i - start] == chars@[i as int]);
        if code < 48 || code > 57 {
            assert(!is_digit(digits[i - start]));
            return None;
        }
        let next: u128 = magnitude * 10 + (code - 48) as u128;
        proof {
            let t = digits.take(i + 1 - start);
            assert(t.drop_last() =~= digits.take(i - start));
            assert(t.last() == chars@[i as int]);
            assert forall|j: int| 0 <= j < t.len() implies is_digit(#[trigger] t[j]) by {
                if j < i - start {
                    assert(is_digit(digits.take(i - start)[j]));
                }
            }
            assert(next == digits_value(t));
        }
        if next > limit {
            proof {
                if all_digits(digits) {
                    lemma_digits_value_grows(digits, i + 1 - start);
                }
            }
            return None;
        }
        magnitude = next;
        i += 1;
    }
    assert(digits.take(n - start) =~= digits);
    if negative {
        if magnitude == 0x8000_0000_0000_0000 {
            Some(i64::MIN)
        } else {
            let positive: i64 = magnitude as i64;
            Some(-positive)
        }
    } else {
        Some(magnitude as i64)
    }
}

/// Reads the decimal number that a field spells out, with or without quotes
/// around it.
pub fn parse_quoted_integer(s: &str) -> (r: Option<i64>)
    ensures
        r == parse_quoted_decimal(s@),
{
    let chars = string_chars(s);
    let (a, b) = trim_quotes_range(chars.as_slice());
    parse_decimal_chars(slice_subrange(chars.as_slice(), a, b))
}

} // verus!
