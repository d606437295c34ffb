//! Text: decoding, searching, ordering, trimming and numbers.

use vstd::prelude::*;
use vstd::string::*;
use vstd::utf8::*;

verus! {

// ── Strings from std ────────────────────────────────────────────────

/// The text that `String::from_utf8_lossy` makes of bytes that are not valid UTF-8.
pub uninterp spec fn utf8_lossy(bytes: Seq<u8>) -> Seq<char>;

/// Calls `String::from_utf8_lossy`. Bytes that are valid UTF-8 come back as the text
/// they encode. What is made of other bytes depends on them alone; which parts of them
/// become U+FFFD is not stated.
#[verifier::external_body]
pub(crate) fn from_utf8_lossy(bytes: &[u8]) -> (s: String)
    ensures
        valid_utf8(bytes@) ==> s@ == decode_utf8(bytes@),
        !valid_utf8(bytes@) ==> s@ == utf8_lossy(bytes@),
{
    String::from_utf8_lossy(bytes).into_owned()
}

/// The text of bytes that should be UTF-8.
pub open spec fn utf8_text(bytes: Seq<u8>) -> Seq<char> {
    if valid_utf8(bytes) {
        decode_utf8(bytes)
    } else {
        utf8_lossy(bytes)
    }
}

/// `unit` is the first half of a surrogate pair.
pub open spec fn is_high_surrogate(unit: u16) -> bool {
    0xD800 <= unit <= 0xDBFF
}

/// `unit` is the second half of a surrogate pair.
pub open spec fn is_low_surrogate(unit: u16) -> bool {
    0xDC00 <= unit <= 0xDFFF
}

/// The text that UTF-16 code units encode: a surrogate pair stands for one character,
/// a surrogate that is not in a pair for U+FFFD, and any other unit for the character
/// of its number.
pub open spec fn utf16_text(units: Seq<u16>) -> Seq<char>
    decreases units.len(),
{
    if units.len() == 0 {
        seq![]
    } else if !is_high_surrogate(units[0]) && !is_low_surrogate(units[0]) {
        seq![units[0] as char] + utf16_text(units.skip(1))
    } else if is_high_surrogate(units[0]) && units.len() > 1 && is_low_surrogate(units[1]) {
        seq![(0x1_0000 + (units[0] - 0xD800) * 0x400 + (units[1] - 0xDC00)) as char] + utf16_text(
            units.skip(2),
        )
    } else {
        seq!['\u{FFFD}'] + utf16_text(units.skip(1))
    }
}

/// Calls `String::from_utf16_lossy`, which decodes UTF-16 and puts U+FFFD in place of
/// each surrogate that is not in a pair.
#[verifier::external_body]
pub(crate) fn from_utf16_lossy(units: &[u16]) -> (s: String)
    ensures
        s@ == utf16_text(units@),
{
    String::from_utf16_lossy(units)
}

/// The lower-case form of an ASCII letter; any other character as it is.
pub open spec fn lower(c: char) -> char {
    if 'A' <= c <= 'Z' {
        (c as u32 + 32) as char
    } else {
        c
    }
}

/// `text` with its ASCII letters in lower case.
pub open spec fn lowered(text: Seq<char>) -> Seq<char> {
    text.map_values(|c: char| lower(c))
}

/// Calls `str::to_ascii_lowercase`, which maps `A` to `Z` to `a` to `z` and
/// leaves every other character unchanged.
#[verifier::external_body]
pub(crate) fn to_ascii_lowercase(text: &str) -> (s: String)
    ensures
        s@ == lowered(text@),
{
    text.to_ascii_lowercase()
}

// ── Byte sequences ──────────────────────────────────────────────────

/// `needle` stands in `hay` at position `at`.
pub open spec fn stands_at<T>(hay: Seq<T>, needle: Seq<T>, at: int) -> bool {
    &&& 0 <= at
    &&& at + needle.len() <= hay.len()
    &&& hay.subrange(at, at + needle.len()) == needle
}

/// `needle` is a contiguous part of `hay`.
pub open spec fn occurs<T>(hay: Seq<T>, needle: Seq<T>) -> bool {
    exists|at: int| #[trigger] stands_at(hay, needle, at)
}

/// Two byte slices hold the same bytes.
pub fn bytes_equal(a: &[u8], b: &[u8]) -> (r: bool)
    ensures
        r == (a@ == b@),
{
    if a.len() != b.len() {
        return false;
    }
    let mut i: usize = 0;
    while i < a.len()
        invariant
            a@.len() == b@.len(),
            i <= a@.len(),
            forall|k: int| 0 <= k < i ==> a@[k] == b@[k],
        decreases a.len() - i,
    {
        if a[i] != b[i] {
            return false;
        }
        i = i + 1;
    }
    assert(a@ =~= b@);
    true
}

/// `needle` is a contiguous part of `hay`.
pub fn bytes_contain(hay: &[u8], needle: &[u8]) -> (r: bool)
    ensures
        r == occurs(hay@, needle@),
{
    if needle.len() > hay.len() {
        return false;
    }
    let end: usize = hay.len() - needle.len();
    let mut at: usize = 0;
    while at <= end
        invariant
            end == hay@.len() - needle@.len(),
            end + needle.len() == hay.len(),
            at <= end + 1,
            forall|k: int| 0 <= k < at ==> !#[trigger] stands_at(hay@, needle@, k),
        decreases end + 1 - at,
    {
        let part = vstd::slice::slice_subrange(hay, at, at + needle.len());
        if bytes_equal(part, needle) {
            assert(stands_at(hay@, needle@, at as int));
            return true;
        }
        if at == end {
            return false;
        }
        at = at + 1;
    }
    false
}

/// `a` comes before `b` in lexicographic order.
pub open spec fn lex_lt(a: Seq<u8>, b: Seq<u8>) -> bool
    decreases a.len(),
{
    if b.len() == 0 {
        false
    } else if a.len() == 0 {
        true
    } else if a[0] != b[0] {
        a[0] < b[0]
    } else {
        lex_lt(a.drop_first(), b.drop_first())
    }
}

/// `a` comes before `b` in lexicographic order.
pub fn bytes_less(a: &[u8], b: &[u8]) -> (r: bool)
    ensures
        r == lex_lt(a@, b@),
{
    let mut i: usize = 0;
    assert(a@.skip(0) =~= a@ && b@.skip(0) =~= b@);
    while i < a.len() && i < b.len()
        invariant
            i <= a@.len(),
            i <= b@.len(),
            lex_lt(a@, b@) == lex_lt(a@.skip(i as int), b@.skip(i as int)),
        decreases a.len() - i,
    {
        assert(a@.skip(i as int).drop_first() =~= a@.skip(i + 1));
        assert(b@.skip(i as int).drop_first() =~= b@.skip(i + 1));
        if a[i] != b[i] {
            return a[i] < b[i];
        }
        i = i + 1;
    }
    i < b.len()
}

// ── Text ────────────────────────────────────────────────────────────

/// `needle` is a contiguous part of `text`.
pub open spec fn contains_text(text: Seq<char>, needle: Seq<char>) -> bool {
    occurs(text, needle)
}

proof fn lemma_encode_concat(a: Seq<char>, b: Seq<char>)
    ensures
        encode_utf8(a + b) == encode_utf8(a) + encode_utf8(b),
    decreases a.len(),
{
    if a.len() == 0 {
        assert(a + b =~= b);
        assert(encode_utf8(a) + encode_utf8(b) =~= encode_utf8(b));
    } else {
        lemma_encode_concat(a.drop_first(), b);
        assert((a + b).drop_first() =~= a.drop_first() + b);
        assert((a + b)[0] == a[0]);
        assert(encode_utf8(a + b) =~= encode_utf8(a) + encode_utf8(b));
    }
}

/// A part of a text is a part of its encoding.
proof fn lemma_part_is_encoded(text: Seq<char>, needle: Seq<char>)
    requires
        occurs(text, needle),
    ensures
        occurs(encode_utf8(text), encode_utf8(needle)),
{
    let at = choose|at: int| stands_at(text, needle, at);
    let front = text.take(at);
    let back = text.skip((at + needle.len()) as int);
    assert(text =~= front + needle + back);
    lemma_encode_concat(front + needle, back);
    lemma_encode_concat(front, needle);
    let hay = encode_utf8(text);
    let nd = encode_utf8(needle);
    let pos = encode_utf8(front).len() as int;
    assert(hay.subrange(pos, pos + nd.len()) =~= nd);
    assert(stands_at(hay, nd, pos));
}

/// Where the encoding of a text stands in another one, the text stands in the other
/// text: no character is cut in two.
proof fn lemma_encoded_is_part(text: Seq<char>, needle: Seq<char>)
    requires
        occurs(encode_utf8(text), encode_utf8(needle)),
    ensures
        occurs(text, needle),
{
    let hay = encode_utf8(text);
    let nd = encode_utf8(needle);
    let at = choose|at: int| stands_at(hay, nd, at);
    let m = nd.len() as int;
    encode_utf8_valid_utf8(text);
    encode_utf8_valid_utf8(needle);
    encode_utf8_decode_utf8(text);
    encode_utf8_decode_utf8(needle);
    if m == 0 {
        assert(nd =~= encode_utf8(Seq::<char>::empty()));
        encode_utf8_decode_utf8(Seq::<char>::empty());
        assert(needle =~= seq![]);
        assert(text.subrange(0, 0) =~= needle);
        assert(stands_at(text, needle, 0));
    } else {
        is_char_boundary_start_end_of_seq(nd);
        is_char_boundary_iff_not_is_continuation_byte(nd, 0);
        assert(hay[at] == hay.subrange(at, at + m)[0]);
        is_char_boundary_iff_not_is_continuation_byte(hay, at);
        valid_utf8_split(hay, at);
        decode_utf8_split(hay, at);
        let tail = hay.subrange(at, hay.len() as int);
        assert(tail.subrange(0, m) =~= nd);
        let rest = tail.subrange(m, tail.len() as int);
        if !valid_utf8(rest) {
            partial_valid_partial_invalid_utf8(tail, m);
        }
        is_char_boundary_start_end_of_seq(tail);
        if m < tail.len() {
            is_char_boundary_start_end_of_seq(rest);
            is_char_boundary_iff_not_is_continuation_byte(rest, 0);
            assert(rest[0] == tail[m]);
            is_char_boundary_iff_not_is_continuation_byte(tail, m);
        }
        decode_utf8_split(tail, m);
        let front = decode_utf8(hay.subrange(0, at));
        assert(text =~= front + (needle + decode_utf8(rest)));
        let pos = front.len() as int;
        assert(text.subrange(pos, pos + needle.len()) =~= needle);
        assert(stands_at(text, needle, pos));
    }
}

/// `text` comes before `other` in the order of their UTF-8 bytes.
pub open spec fn text_lt(text: Seq<char>, other: Seq<char>) -> bool {
    lex_lt(encode_utf8(text), encode_utf8(other))
}

pub fn str_equal(a: &str, b: &str) -> (r: bool)
    ensures
        r == (a@ == b@),
{
    proof {
        encode_utf8_decode_utf8(a@);
        encode_utf8_decode_utf8(b@);
    }
    bytes_equal(a.as_bytes(), b.as_bytes())
}

pub fn str_contains(text: &str, needle: &str) -> (r: bool)
    ensures
        r == contains_text(text@, needle@),
{
    proof {
        if occurs(text@, needle@) {
            lemma_part_is_encoded(text@, needle@);
        }
        if occurs(encode_utf8(text@), encode_utf8(needle@)) {
            lemma_encoded_is_part(text@, needle@);
        }
    }
    bytes_contain(text.as_bytes(), needle.as_bytes())
}

pub fn str_less(a: &str, b: &str) -> (r: bool)
    ensures
        r == text_lt(a@, b@),
{
    bytes_less(a.as_bytes(), b.as_bytes())
}

/// The decimal digits of `n`.
pub open spec fn decimal(n: nat) -> Seq<char>
    decreases n,
{
    if n < 10 {
        seq![(48 + n) as char]
    } else {
        decimal(n / 10).push((48 + n % 10) as char)
    }
}

fn digit(d: u64) -> (s: &'static str)
    requires
        d < 10,
    ensures
        s@ == seq![(48 + d) as char],
{
    proof {
        reveal_strlit("0");
        reveal_strlit("1");
        reveal_strlit("2");
        reveal_strlit("3");
        reveal_strlit("4");
        reveal_strlit("5");
        reveal_strlit("6");
        reveal_strlit("7");
        reveal_strlit("8");
        reveal_strlit("9");
    }
    let s = match d {
        0 => "0",
        1 => "1",
        2 => "2",
        3 => "3",
        4 => "4",
        5 => "5",
        6 => "6",
        7 => "7",
        8 => "8",
        _ => "9",
    };
    assert(s@ =~= seq![(48 + d) as char]);
    s
}

/// Append the decimal digits of `n`.
pub fn push_decimal(text: &mut String, n: u64)
    ensures
        final(text)@ == old(text)@ + decimal(n as nat),
    decreases n,
{
    if n >= 10 {
        push_decimal(text, n / 10);
    }
    text.append(digit(n % 10));
    assert(text@ =~= old(text)@ + decimal(n as nat));
}

/// `parts` with `sep` between each two of them.
pub open spec fn joined(parts: Seq<Seq<char>>, sep: Seq<char>) -> Seq<char>
    decreases parts.len(),
{
    if parts.len() == 0 {
        seq![]
    } else if parts.len() == 1 {
        parts[0]
    } else {
        joined(parts.drop_last(), sep) + sep + parts.last()
    }
}

/// Append the decimal digits of `n`, with a sign if it is negative.
pub fn push_signed(text: &mut String, n: i32)
    ensures
        final(text)@ == old(text)@ + signed_decimal(n as int),
{
    if n < 0 {
        proof {
            reveal_strlit("-");
            assert("-"@ =~= seq!['-']);
        }
        text.append("-");
        push_decimal(text, (-(n as i64)) as u64);
    } else {
        push_decimal(text, n as u64);
    }
    assert(text@ =~= old(text)@ + signed_decimal(n as int));
}

/// The decimal digits of `n`, with a sign if it is negative.
pub open spec fn signed_decimal(n: int) -> Seq<char> {
    if n < 0 {
        seq!['-'] + decimal((-n) as nat)
    } else {
        decimal(n as nat)
    }
}

/// `text` without the NULs at its end.
pub open spec fn trimmed(text: Seq<char>) -> Seq<char>
    decreases text.len(),
{
    if text.len() > 0 && text.last() == '\0' {
        trimmed(text.drop_last())
    } else {
        text
    }
}

/// Copy `text` without the NULs at its end.
pub fn trim_nuls(text: &str) -> (s: String)
    ensures
        s@ == trimmed(text@),
{
    let mut n: usize = text.unicode_len();
    assert(text@.take(n as int) =~= text@);
    while n > 0 && text.get_char(n - 1) == '\0'
        invariant
            n <= text@.len(),
            trimmed(text@) == trimmed(text@.take(n as int)),
        decreases n,
    {
        assert(text@.take(n as int).drop_last() =~= text@.take(n - 1));
        n = n - 1;
    }
    assert(text@.subrange(0, n as int) =~= text@.take(n as int));
    text.substring_char(0, n).to_owned()
}

/// `text` without `suffix` at its end, if it stands there.
pub open spec fn without_suffix(text: Seq<char>, suffix: Seq<char>) -> Seq<char> {
    if suffix.is_suffix_of(text) {
        text.take(text.len() - suffix.len())
    } else {
        text
    }
}

/// `text` without `prefix` at its start, if it stands there.
pub open spec fn without_prefix(text: Seq<char>, prefix: Seq<char>) -> Seq<char> {
    if prefix.is_prefix_of(text) {
        text.skip(prefix.len() as int)
    } else {
        text
    }
}

pub fn strip_suffix<'a>(text: &'a str, suffix: &str) -> (s: &'a str)
    ensures
        s@ == without_suffix(text@, suffix@),
{
    let n: usize = text.unicode_len();
    let m: usize = suffix.unicode_len();
    if n >= m && str_equal(text.substring_char(n - m, n), suffix) {
        assert(text@.subrange(0, n - m) =~= text@.take(n - m));
        text.substring_char(0, n - m)
    } else {
        text
    }
}

pub fn strip_prefix<'a>(text: &'a str, prefix: &str) -> (s: &'a str)
    ensures
        s@ == without_prefix(text@, prefix@),
{
    let n: usize = text.unicode_len();
    let m: usize = prefix.unicode_len();
    if n >= m && str_equal(text.substring_char(0, m), prefix) {
        assert(text@.subrange(m as int, n as int) =~= text@.skip(m as int));
        text.substring_char(m, n)
    } else {
        text
    }
}

// ── Numbers in text ─────────────────────────────────────────────────

/// The value of a digit in base `radix`, which is at most sixteen.
pub open spec fn digit_value(b: u8, radix: nat) -> Option<nat> {
    let value = if 0x30 <= b <= 0x39 {
        b - 0x30
    } else if 0x61 <= b <= 0x66 {
        b - 0x61 + 10
    } else if 0x41 <= b <= 0x46 {
        b - 0x41 + 10
    } else {
        16
    };
    if value < radix {
        Some(value as nat)
    } else {
        None
    }
}

/// The number that digits in base `radix` stand for; nothing if one is no digit.
pub open spec fn number(digits: Seq<u8>, radix: nat) -> Option<nat>
    decreases digits.len(),
{
    if digits.len() == 0 {
        Some(0)
    } else {
        match (number(digits.drop_last(), radix), digit_value(digits.last(), radix)) {
            (Some(high), Some(low)) => Some(high * radix + low),
            _ => None,
        }
    }
}

/// The number in `digits`, of which there is at least one, up to `limit`.
pub open spec fn bounded_number(digits: Seq<u8>, radix: nat, limit: nat) -> Option<nat> {
    match number(digits, radix) {
        Some(value) => if digits.len() > 0 && value <= limit {
            Some(value)
        } else {
            None
        },
        None => None,
    }
}

/// More digits make no less of a number.
proof fn lemma_number_grows(digits: Seq<u8>, radix: nat, n: int)
    requires
        0 <= n <= digits.len(),
        radix > 0,
    ensures
        number(digits, radix) matches Some(all) ==> (number(digits.take(n), radix) matches Some(part)
            && part <= all),
    decreases digits.len() - n,
{
    if n == digits.len() {
        assert(digits.take(n) =~= digits);
    } else {
        lemma_number_grows(digits, radix, n + 1);
        assert(digits.take(n + 1).drop_last() =~= digits.take(n));
        match number(digits.take(n), radix) {
            Some(part) => {
                assert(part <= part * radix) by (nonlinear_arith)
                    requires
                        radix > 0,
                ;
            },
            None => {},
        }
    }
}

fn get_digit(b: u8, radix: u8) -> (d: Option<u8>)
    requires
        radix <= 16,
    ensures
        (match d {
            Some(v) => Some(v as nat),
            None => None,
        }) == digit_value(b, radix as nat),
        d matches Some(v) ==> v < 16,
{
    let value: u8 = if 0x30 <= b && b <= 0x39 {
        b - 0x30
    } else if 0x61 <= b && b <= 0x66 {
        b - 0x61 + 10
    } else if 0x41 <= b && b <= 0x46 {
        b - 0x41 + 10
    } else {
        16
    };
    if value < radix {
        Some(value)
    } else {
        None
    }
}

/// Parse digits in base `radix` as a number up to `limit`.
pub fn parse_number(digits: &[u8], radix: u8, limit: u64) -> (r: Option<u64>)
    requires
        0 < radix <= 16,
    ensures
        (match r {
            Some(v) => Some(v as nat),
            None => None,
        }) == bounded_number(digits@, radix as nat, limit as nat),
{
    if digits.len() == 0 {
        return None;
    }
    let mut value: u64 = 0;
    let mut i: usize = 0;
    assert(digits@.take(0) =~= seq![]);
    while i < digits.len()
        invariant
            i <= digits@.len(),
            0 < radix <= 16,
            value <= limit,
            number(digits@.take(i as int), radix as nat) == Some(value as nat),
        decreases digits@.len() - i,
    {
        proof {
            assert(digits@.take(i + 1).drop_last() =~= digits@.take(i as int));
            lemma_number_grows(digits@, radix as nat, i + 1);
        }
        let low: u8 = match get_digit(digits[i], radix) {
            Some(low) => low,
            None => {
                return None;
            },
        };
        assert(0 <= value * radix <= 0xFFFF_FFFF_FFFF_FFFF * 16) by (nonlinear_arith)
            requires
                0 <= value <= 0xFFFF_FFFF_FFFF_FFFF,
                0 <= radix <= 16,
        ;
        let next: u128 = value as u128 * radix as u128 + low as u128;
        if next > limit as u128 {
            return None;
        }
        value = next as u64;
        i = i + 1;
    }
    assert(digits@.take(i as int) =~= digits@);
    Some(value)
}

/// `bytes` without one plus sign at the start.
pub open spec fn without_plus(bytes: Seq<u8>) -> Seq<u8> {
    if bytes.len() > 0 && bytes[0] == 0x2B {
        bytes.skip(1)
    } else {
        bytes
    }
}

/// The hexadecimal number in `bytes`, which may have a plus sign.
pub open spec fn hex_number(bytes: Seq<u8>) -> Option<nat> {
    bounded_number(without_plus(bytes), 16, u64::MAX as nat)
}

/// Parse a hexadecimal number.
pub fn parse_hex(bytes: &[u8]) -> (r: Option<u64>)
    ensures
        (match r {
            Some(v) => Some(v as nat),
            None => None,
        }) == hex_number(bytes@),
{
    if bytes.len() > 0 && bytes[0] == 0x2B {
        assert(bytes@.subrange(1, bytes@.len() as int) =~= bytes@.skip(1));
        parse_number(vstd::slice::slice_subrange(bytes, 1, bytes.len()), 16, u64::MAX)
    } else {
        parse_number(bytes, 16, u64::MAX)
    }
}

/// The decimal 32-bit number in `bytes`, which may have a sign.
pub open spec fn signed_number(bytes: Seq<u8>) -> Option<int> {
    if bytes.len() > 0 && bytes[0] == 0x2D {
        match bounded_number(bytes.skip(1), 10, 0x8000_0000) {
            Some(v) => Some(-v),
            None => None,
        }
    } else {
        match bounded_number(without_plus(bytes), 10, 0x7FFF_FFFF) {
            Some(v) => Some(v as int),
            None => None,
        }
    }
}

/// Parse a decimal 32-bit number.
pub fn parse_i32(bytes: &[u8]) -> (r: Option<i32>)
    ensures
        (match r {
            Some(v) => Some(v as int),
            None => None,
        }) == signed_number(bytes@),
{
    if bytes.len() > 0 && (bytes[0] == 0x2D || bytes[0] == 0x2B) {
        assert(bytes@.subrange(1, bytes@.len() as int) =~= bytes@.skip(1));
        let digits = vstd::slice::slice_subrange(bytes, 1, bytes.len());
        if bytes[0] == 0x2D {
            match parse_number(digits, 10, 0x8000_0000) {
                Some(v) => Some((-(v as i64)) as i32),
                None => None,
            }
        } else {
            match parse_number(digits, 10, 0x7FFF_FFFF) {
                Some(v) => Some(v as i32),
                None => None,
            }
        }
    } else {
        match parse_number(bytes, 10, 0x7FFF_FFFF) {
            Some(v) => Some(v as i32),
            None => None,
        }
    }
}

/// Where `b` stands first in `bytes` from `from` on, or else their end.
pub open spec fn next_byte(bytes: Seq<u8>, from: int, b: u8) -> int
    decreases bytes.len() - from,
{
    if from >= bytes.len() || bytes[from] == b {
        from
    } else {
        next_byte(bytes, from + 1, b)
    }
}

/// The place stands between the start and the end.
pub proof fn lemma_next_byte_range(bytes: Seq<u8>, from: int, b: u8)
    ensures
        from <= next_byte(bytes, from, b),
        from <= bytes.len() ==> next_byte(bytes, from, b) <= bytes.len(),
    decreases bytes.len() - from,
{
    if !(from >= bytes.len() || bytes[from] == b) {
        lemma_next_byte_range(bytes, from + 1, b);
    }
}

pub fn find_byte(bytes: &[u8], from: usize, b: u8) -> (at: usize)
    requires
        from <= bytes@.len(),
    ensures
        at == next_byte(bytes@, from as int, b),
        from <= at <= bytes@.len(),
{
    let mut at: usize = from;
    while at < bytes.len() && bytes[at] != b
        invariant
            from <= at <= bytes@.len(),
            next_byte(bytes@, from as int, b) == next_byte(bytes@, at as int, b),
        decreases bytes@.len() - at,
    {
        at = at + 1;
    }
    at
}

// ── Sorted lists of names ───────────────────────────────────────────

/// A sorted list with `name` in its place, unless it is there already.
pub open spec fn inserted(list: Seq<Seq<char>>, name: Seq<char>) -> Seq<Seq<char>>
    decreases list.len(),
{
    if list.len() == 0 {
        seq![name]
    } else if text_lt(list[0], name) {
        seq![list[0]] + inserted(list.drop_first(), name)
    } else if list[0] == name {
        list
    } else {
        seq![name] + list
    }
}

/// The different ones of `names`, sorted.
pub open spec fn distinct(names: Seq<Seq<char>>) -> Seq<Seq<char>>
    decreases names.len(),
{
    if names.len() == 0 {
        seq![]
    } else {
        inserted(distinct(names.drop_last()), names.last())
    }
}

/// What comes before `name` stays in front of it.
proof fn lemma_inserted_behind(list: Seq<Seq<char>>, name: Seq<char>, i: int)
    requires
        0 <= i <= list.len(),
        forall|k: int| 0 <= k < i ==> text_lt(#[trigger] list[k], name),
    ensures
        inserted(list, name) == list.take(i) + inserted(list.skip(i), name),
    decreases i,
{
    if i == 0 {
        assert(list.skip(0) =~= list);
        assert(list.take(0) + inserted(list, name) =~= inserted(list, name));
    } else {
        let rest = list.drop_first();
        assert forall|k: int| 0 <= k < i - 1 implies text_lt(#[trigger] rest[k], name) by {
            assert(rest[k] == list[k + 1]);
        }
        lemma_inserted_behind(rest, name, i - 1);
        assert(rest.skip(i - 1) =~= list.skip(i));
        assert(text_lt(list[0], name));
        assert(seq![list[0]] + (rest.take(i - 1) + inserted(list.skip(i), name)) =~= list.take(i)
            + inserted(list.skip(i), name));
    }
}

/// Put `name` in its place in a sorted list, unless it is there already.
pub fn insert_distinct(list: &mut Vec<String>, name: String)
    ensures
        final(list).deep_view() == inserted(old(list).deep_view(), name@),
{
    let ghost before = list.deep_view();
    let mut i: usize = 0;
    while i < list.len() && str_less(list[i].as_str(), name.as_str())
        invariant
            i <= list@.len(),
            before == list.deep_view(),
            *list == *old(list),
            forall|k: int| 0 <= k < i ==> text_lt(#[trigger] before[k], name@),
        decreases list@.len() - i,
    {
        i = i + 1;
    }
    proof {
        lemma_inserted_behind(before, name@, i as int);
    }
    if i < list.len() {
        assert(before[i as int] == list@[i as int]@);
        assert(before.skip(i as int)[0] == before[i as int]);
        if str_equal(list[i].as_str(), name.as_str()) {
            assert(before.take(i as int) + before.skip(i as int) =~= before);
            return;
        }
    } else {
        assert(before.skip(i as int) =~= seq![]);
    }
    let ghost placed = name@;
    list.insert(i, name);
    assert(list.deep_view() =~= before.take(i as int) + (seq![placed] + before.skip(i as int)));
    assert(seq![placed] + before.skip(i as int) =~= inserted(before.skip(i as int), placed));
}

// ── Laws ────────────────────────────────────────────────────────────

proof fn lemma_lex_irreflexive(a: Seq<u8>)
    ensures
        !lex_lt(a, a),
    decreases a.len(),
{
    if a.len() > 0 {
        lemma_lex_irreflexive(a.drop_first());
    }
}

proof fn lemma_lex_total(a: Seq<u8>, b: Seq<u8>)
    requires
        a != b,
    ensures
        lex_lt(a, b) || lex_lt(b, a),
    decreases a.len(),
{
    if a.len() > 0 && b.len() > 0 && a[0] == b[0] {
        assert(a.drop_first() != b.drop_first()) by {
            if a.drop_first() == b.drop_first() {
                assert(a =~= seq![a[0]] + a.drop_first());
                assert(b =~= seq![b[0]] + b.drop_first());
            }
        }
        lemma_lex_total(a.drop_first(), b.drop_first());
    } else if a.len() == 0 && b.len() == 0 {
        assert(a =~= b);
    }
}

proof fn lemma_lex_transitive(a: Seq<u8>, b: Seq<u8>, c: Seq<u8>)
    requires
        lex_lt(a, b),
        lex_lt(b, c),
    ensures
        lex_lt(a, c),
    decreases a.len(),
{
    if a.len() > 0 && b.len() > 0 && c.len() > 0 && a[0] == b[0] && b[0] == c[0] {
        lemma_lex_transitive(a.drop_first(), b.drop_first(), c.drop_first());
    }
}

/// Texts are in a total order.
pub proof fn lemma_text_order(a: Seq<char>, b: Seq<char>, c: Seq<char>)
    ensures
        !text_lt(a, a),
        a != b ==> text_lt(a, b) || text_lt(b, a),
        text_lt(a, b) && text_lt(b, c) ==> text_lt(a, c),
{
    lemma_lex_irreflexive(encode_utf8(a));
    if a != b {
        encode_utf8_decode_utf8(a);
        encode_utf8_decode_utf8(b);
        lemma_lex_total(encode_utf8(a), encode_utf8(b));
    }
    if text_lt(a, b) && text_lt(b, c) {
        lemma_lex_transitive(encode_utf8(a), encode_utf8(b), encode_utf8(c));
    }
}

/// Each name of `list` comes before the next one.
pub open spec fn ascending(list: Seq<Seq<char>>) -> bool {
    forall|i: int, j: int|
        0 <= i < j < list.len() ==> text_lt(#[trigger] list[i], #[trigger] list[j])
}

proof fn lemma_inserted(list: Seq<Seq<char>>, name: Seq<char>)
    requires
        ascending(list),
    ensures
        ascending(inserted(list, name)),
        forall|x: Seq<char>|
            #[trigger] inserted(list, name).contains(x) <==> list.contains(x) || x == name,
    decreases list.len(),
{
    let new = inserted(list, name);
    if list.len() == 0 {
        assert(new[0] == name);
    } else if text_lt(list[0], name) {
        let rest = list.drop_first();
        assert forall|i: int, j: int| 0 <= i < j < rest.len() implies text_lt(
            #[trigger] rest[i],
            #[trigger] rest[j],
        ) by {
            assert(rest[i] == list[i + 1] && rest[j] == list[j + 1]);
        }
        lemma_inserted(rest, name);
        let tail = inserted(rest, name);
        assert forall|x: Seq<char>| #[trigger]
            new.contains(x) <==> list.contains(x) || x == name by {
            if new.contains(x) {
                let i = new.index_of(x);
                if i == 0 {
                    assert(list[0] == x);
                } else {
                    assert(tail[i - 1] == x);
                    assert(tail.contains(x));
                    if rest.contains(x) {
                        assert(list[rest.index_of(x) + 1] == x);
                    }
                }
            }
            if list.contains(x) || x == name {
                if list.contains(x) && list.index_of(x) == 0 {
                    assert(new[0] == x);
                } else {
                    if x != name {
                        assert(rest[list.index_of(x) - 1] == x);
                    }
                    assert(tail.contains(x));
                    assert(new[tail.index_of(x) + 1] == x);
                }
            }
        }
        assert forall|i: int, j: int| 0 <= i < j < new.len() implies text_lt(
            #[trigger] new[i],
            #[trigger] new[j],
        ) by {
            assert(new[j] == tail[j - 1]);
            if i > 0 {
                assert(new[i] == tail[i - 1]);
            } else {
                assert(tail.contains(tail[j - 1]));
                if new[j] != name {
                    let k = rest.index_of(new[j]);
                    assert(list[k + 1] == new[j]);
                }
            }
        }
    } else if list[0] == name {
    } else {
        lemma_text_order(name, list[0], list[0]);
        assert forall|i: int, j: int| 0 <= i < j < new.len() implies text_lt(
            #[trigger] new[i],
            #[trigger] new[j],
        ) by {
            assert(new[j] == list[j - 1]);
            if i > 0 {
                assert(new[i] == list[i - 1]);
            } else if j > 1 {
                assert(text_lt(list[0], list[j - 1]));
                lemma_text_order(name, list[0], list[j - 1]);
            }
        }
        assert forall|x: Seq<char>| #[trigger]
            new.contains(x) <==> list.contains(x) || x == name by {
            if new.contains(x) {
                let i = new.index_of(x);
                if i > 0 {
                    assert(list[i - 1] == x);
                }
            }
            if list.contains(x) {
                assert(new[list.index_of(x) + 1] == x);
            }
            assert(new[0] == name);
        }
    }
}

/// The distinct names of a list are its names, each once, in ascending order; there
/// are as many of them as the set of the names has.
pub proof fn lemma_distinct(names: Seq<Seq<char>>)
    ensures
        ascending(distinct(names)),
        distinct(names).no_duplicates(),
        distinct(names).to_set() == names.to_set(),
        distinct(names).len() == names.to_set().len(),
{
    lemma_distinct_members(names);
    let d = distinct(names);
    assert forall|i: int, j: int| 0 <= i < d.len() && 0 <= j < d.len() && i != j implies d[i]
        != d[j] by {
        if i < j {
            assert(text_lt(d[i], d[j]));
        } else {
            assert(text_lt(d[j], d[i]));
        }
        lemma_text_order(d[i], d[i], d[i]);
    }
    assert(d.to_set() =~= names.to_set());
    d.unique_seq_to_set();
}

proof fn lemma_distinct_members(names: Seq<Seq<char>>)
    ensures
        ascending(distinct(names)),
        forall|x: Seq<char>| #[trigger] distinct(names).contains(x) <==> names.contains(x),
    decreases names.len(),
{
    if names.len() > 0 {
        let front = names.drop_last();
        lemma_distinct_members(front);
        lemma_inserted(distinct(front), names.last());
        assert forall|x: Seq<char>| #[trigger]
            distinct(names).contains(x) <==> names.contains(x) by {
            if names.contains(x) && x != names.last() {
                assert(front[names.index_of(x)] == x);
            }
            if front.contains(x) {
                assert(names[front.index_of(x)] == x);
            }
            assert(names[names.len() - 1] == names.last());
        }
    }
}

} // verus!
