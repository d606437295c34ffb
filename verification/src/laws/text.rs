//! Text: what searching, trimming, ordering, printing and parsing give.

use vstd::prelude::*;
use vstd::utf8::*;

verus! {

// ── Parts ───────────────────────────────────────────────────────────

/// `part` stands somewhere in `text`.
pub open spec fn has_part<T>(text: Seq<T>, part: Seq<T>) -> bool {
    exists|front: Seq<T>, back: Seq<T>| text == #[trigger] (front + part + back)
}

/// Something occurs in a sequence if that is it with something in front of it and
/// something behind it.
pub proof fn lemma_part_of_sequence<T>(text: Seq<T>, part: Seq<T>)
    ensures
        crate::text::occurs(text, part) == has_part(text, part),
{
    if crate::text::occurs(text, part) {
        let at = choose|at: int| crate::text::stands_at(text, part, at);
        let (front, back) = (text.take(at), text.skip((at + part.len()) as int));
        assert(text =~= front + part + back);
    }
    if has_part(text, part) {
        let (front, back) = choose|front: Seq<T>, back: Seq<T>|
            text == #[trigger] (front + part + back);
        let at = front.len() as int;
        assert(text.subrange(at, at + part.len()) =~= part);
        assert(crate::text::stands_at(text, part, at));
    }
}

/// A text contains another one if it is that one with something in front of it and
/// something behind it.
pub proof fn lemma_part_of_text(text: Seq<char>, part: Seq<char>)
    ensures
        crate::text::contains_text(text, part) == has_part(text, part),
{
    lemma_part_of_sequence(text, part);
}

/// A suffix that stands at the end is taken off, and nothing else is.
pub proof fn lemma_suffix_comes_off(front: Seq<char>, suffix: Seq<char>, text: Seq<char>)
    ensures
        crate::text::without_suffix(front + suffix, suffix) == front,
        (forall|front: Seq<char>| text != #[trigger] (front + suffix))
            ==> crate::text::without_suffix(text, suffix) == text,
{
    let all = front + suffix;
    assert(all.skip(front.len() as int) =~= suffix);
    assert(suffix.is_suffix_of(all)) by {
        assert(all.subrange((all.len() - suffix.len()) as int, all.len() as int) =~= suffix);
    }
    assert(all.take(front.len() as int) =~= front);
    if suffix.is_suffix_of(text) {
        let head = text.take((text.len() - suffix.len()) as int);
        assert(text =~= head + suffix);
    }
}

/// A prefix that stands at the start is taken off, and nothing else is.
pub proof fn lemma_prefix_comes_off(prefix: Seq<char>, back: Seq<char>, text: Seq<char>)
    ensures
        crate::text::without_prefix(prefix + back, prefix) == back,
        (forall|back: Seq<char>| text != #[trigger] (prefix + back))
            ==> crate::text::without_prefix(text, prefix) == text,
{
    let all = prefix + back;
    assert(all.take(prefix.len() as int) =~= prefix);
    assert(prefix.is_prefix_of(all)) by {
        assert(all.subrange(0, prefix.len() as int) =~= prefix);
    }
    assert(all.skip(prefix.len() as int) =~= back);
    if prefix.is_prefix_of(text) {
        let tail = text.skip(prefix.len() as int);
        assert(text =~= prefix + tail);
    }
}

/// Trimming takes the NULs at the end off, all of them and nothing else.
pub proof fn lemma_only_nuls_are_trimmed(text: Seq<char>)
    ensures
        ({
            let kept = crate::text::trimmed(text);
            &&& kept.len() <= text.len()
            &&& forall|i: int| 0 <= i < kept.len() ==> kept[i] == text[i]
            &&& forall|i: int| kept.len() <= i < text.len() ==> text[i] == '\0'
            &&& kept.len() > 0 ==> kept.last() != '\0'
        }),
    decreases text.len(),
{
    if text.len() > 0 && text.last() == '\0' {
        lemma_only_nuls_are_trimmed(text.drop_last());
        let kept = crate::text::trimmed(text);
        assert forall|i: int| 0 <= i < kept.len() implies kept[i] == text[i] by {
            assert(text.drop_last()[i] == text[i]);
        }
        assert forall|i: int| kept.len() <= i < text.len() implies text[i] == '\0' by {
            if i < text.len() - 1 {
                assert(text.drop_last()[i] == text[i]);
            }
        }
    }
}

/// Parts that are joined stand one behind the other with the separator between each two:
/// joining is the same whether it is done in one go or in two.
pub proof fn lemma_joining_parts(a: Seq<Seq<char>>, b: Seq<Seq<char>>, sep: Seq<char>)
    ensures
        crate::text::joined(Seq::<Seq<char>>::empty(), sep) == Seq::<char>::empty(),
        a.len() == 1 ==> crate::text::joined(a, sep) == a[0],
        a.len() > 0 && b.len() > 0 ==> crate::text::joined(a + b, sep) == crate::text::joined(a, sep)
            + sep + crate::text::joined(b, sep),
    decreases b.len(),
{
    if a.len() > 0 && b.len() > 0 {
        assert((a + b).last() == b.last());
        assert((a + b).drop_last() =~= a + b.drop_last());
        if b.len() == 1 {
            assert(b.drop_last() =~= seq![]);
            assert(a + b.drop_last() =~= a);
        } else {
            lemma_joining_parts(a, b.drop_last(), sep);
            assert(crate::text::joined(a + b, sep) =~= crate::text::joined(a, sep) + sep
                + crate::text::joined(b, sep));
        }
    }
}

/// The ASCII capitals become small letters, in place; nothing else changes.
pub proof fn lemma_only_capitals_are_lowered(text: Seq<char>)
    ensures
        crate::text::lowered(text).len() == text.len(),
        forall|i: int|
            0 <= i < text.len() ==> {
                let c = text[i] as u32;
                #[trigger] crate::text::lowered(text)[i] as u32 == (if 0x41 <= c <= 0x5A {
                    (c + 0x20) as u32
                } else {
                    c
                })
            },
{
}

// ── Order ───────────────────────────────────────────────────────────

/// Bytes come in the order of the first place in which they differ; what ends there comes
/// first.
pub proof fn lemma_first_difference_decides(
    same: Seq<u8>,
    x: u8,
    y: u8,
    rest: Seq<u8>,
    other_rest: Seq<u8>,
)
    ensures
        crate::text::lex_lt(same + seq![x] + rest, same + seq![y] + other_rest) == (x < y || x == y
            && crate::text::lex_lt(rest, other_rest)),
        crate::text::lex_lt(same, same + seq![y] + other_rest),
        !crate::text::lex_lt(same + seq![x] + rest, same),
        !crate::text::lex_lt(same, same),
    decreases same.len(),
{
    let a = same + seq![x] + rest;
    let b = same + seq![y] + other_rest;
    if same.len() == 0 {
        assert(a.drop_first() =~= rest);
        assert(b.drop_first() =~= other_rest);
        assert(a[0] == x && b[0] == y);
    } else {
        let less = same.drop_first();
        lemma_first_difference_decides(less, x, y, rest, other_rest);
        assert(a.drop_first() =~= less + seq![x] + rest);
        assert(b.drop_first() =~= less + seq![y] + other_rest);
        assert(a[0] == same[0] && b[0] == same[0]);
    }
}

/// Texts come in the order of their UTF-8 bytes.
pub proof fn lemma_texts_come_in_byte_order(a: Seq<char>, b: Seq<char>)
    ensures
        crate::text::text_lt(a, b) == crate::text::lex_lt(encode_utf8(a), encode_utf8(b)),
{
}

// ── Numbers ─────────────────────────────────────────────────────────

/// The number that decimal digits stand for, the highest first.
pub open spec fn decimal_value(digits: Seq<char>) -> int
    decreases digits.len(),
{
    if digits.len() == 0 {
        0
    } else {
        10 * decimal_value(digits.drop_last()) + (digits.last() as u32 - 0x30)
    }
}

/// A number is printed as the decimal digits that stand for it, without zeros in front.
pub proof fn lemma_printed_digits(n: nat)
    ensures
        ({
            let digits = crate::text::decimal(n);
            &&& decimal_value(digits) == n
            &&& digits.len() > 0
            &&& forall|i: int| 0 <= i < digits.len() ==> '0' <= #[trigger] digits[i] <= '9'
            &&& digits.len() > 1 ==> digits[0] != '0'
            &&& n > 0 ==> digits[0] != '0'
        }),
    decreases n,
{
    let digits = crate::text::decimal(n);
    if n < 10 {
        assert(digits.drop_last() =~= seq![]);
        assert(decimal_value(digits.drop_last()) == 0);
    } else {
        lemma_printed_digits(n / 10);
        let high = crate::text::decimal(n / 10);
        assert(digits.drop_last() =~= high);
        assert forall|i: int| 0 <= i < digits.len() implies '0' <= #[trigger] digits[i] <= '9' by {
            if i < high.len() {
                assert(digits[i] == high[i]);
            }
        }
        assert(digits[0] == high[0]);
    }
}

/// A negative number is printed with a minus sign in front of its digits.
pub proof fn lemma_printed_sign(n: int)
    ensures
        n >= 0 ==> crate::text::signed_decimal(n) == crate::text::decimal(n as nat),
        n < 0 ==> crate::text::signed_decimal(n) == seq!['-'] + crate::text::decimal((-n) as nat),
{
}

/// Digits are 0 to 9, and in base sixteen a to f and A to F.
pub proof fn lemma_digit_values(b: u8, v: nat)
    ensures
        crate::text::digit_value(b, 10) == Some(v) <==> v < 10 && b == 0x30 + v,
        crate::text::digit_value(b, 16) == Some(v) <==> v < 10 && b == 0x30 + v || 10 <= v < 16 && (b
            == 0x61 + v - 10 || b == 0x41 + v - 10),
{
}

/// Digits stand for a number with the highest digit first: another digit makes ten or
/// sixteen times as much, and itself. One that is no digit makes it no number.
pub proof fn lemma_number_of_digits(digits: Seq<u8>, b: u8, radix: nat)
    requires
        radix == 10 || radix == 16,
    ensures
        crate::text::number(Seq::<u8>::empty(), radix) == Some(0nat),
        crate::text::number(digits, radix) matches Some(high) ==> (match crate::text::digit_value(
            b,
            radix,
        ) {
            Some(low) => crate::text::number(digits.push(b), radix) == Some(
                (if radix == 10 {
                    10 * high
                } else {
                    16 * high
                }) + low,
            ),
            None => crate::text::number(digits.push(b), radix) is None,
        }),
        crate::text::number(digits, radix) is None ==> crate::text::number(
            digits.push(b),
            radix,
        ) is None,
{
    assert(digits.push(b).drop_last() =~= digits);
    if let Some(high) = crate::text::number(digits, radix) {
        assert(high * 10 == 10 * high && high * 16 == 16 * high);
    }
}

/// Printed digits are read back as the number that was printed.
pub proof fn lemma_printed_number_reads_back(n: nat)
    ensures
        crate::text::number(crate::text::decimal(n).map_values(|c: char| c as u8), 10) == Some(n),
    decreases n,
{
    let bytes = crate::text::decimal(n).map_values(|c: char| c as u8);
    if n < 10 {
        assert(bytes.drop_last() =~= seq![]);
        assert(crate::text::number(bytes.drop_last(), 10) == Some(0nat));
    } else {
        lemma_printed_number_reads_back(n / 10);
        let high = crate::text::decimal(n / 10).map_values(|c: char| c as u8);
        assert(bytes.drop_last() =~= high);
        assert(bytes.last() == 48 + n % 10);
        assert((n / 10) * 10 + n % 10 == n);
    }
}

/// A hexadecimal number has at least one digit and fits in 64 bits; it may have a plus
/// sign in front.
pub proof fn lemma_hex_numbers(digits: Seq<u8>)
    requires
        digits.len() > 0 ==> digits[0] != 0x2B,
    ensures
        ({
            let value = match crate::text::number(digits, 16) {
                Some(v) => if digits.len() > 0 && v <= 0xFFFF_FFFF_FFFF_FFFF {
                    Some(v)
                } else {
                    None
                },
                None => None,
            };
            &&& crate::text::hex_number(digits) == value
            &&& crate::text::hex_number(seq![0x2B] + digits) == value
        }),
{
    assert((seq![0x2Bu8] + digits).skip(1) =~= digits);
}

/// A signed number has at least one digit and fits in 32 bits; it may have a sign in
/// front.
pub proof fn lemma_signed_numbers(digits: Seq<u8>)
    requires
        digits.len() > 0 ==> digits[0] != 0x2B && digits[0] != 0x2D,
    ensures
        ({
            let up = match crate::text::number(digits, 10) {
                Some(v) => if digits.len() > 0 && v <= 0x7FFF_FFFF {
                    Some(v as int)
                } else {
                    None
                },
                None => None,
            };
            let down = match crate::text::number(digits, 10) {
                Some(v) => if digits.len() > 0 && v <= 0x8000_0000 {
                    Some(-v)
                } else {
                    None
                },
                None => None,
            };
            &&& crate::text::signed_number(digits) == up
            &&& crate::text::signed_number(seq![0x2B] + digits) == up
            &&& crate::text::signed_number(seq![0x2D] + digits) == down
        }),
{
    assert((seq![0x2Bu8] + digits).skip(1) =~= digits);
    assert((seq![0x2Du8] + digits).skip(1) =~= digits);
}

/// Looking for a byte gives the first place that has it, or the end.
pub proof fn lemma_first_place_of_byte(bytes: Seq<u8>, from: int, b: u8)
    requires
        0 <= from <= bytes.len(),
    ensures
        ({
            let at = crate::text::next_byte(bytes, from, b);
            &&& from <= at <= bytes.len()
            &&& at < bytes.len() ==> bytes[at] == b
            &&& forall|i: int| from <= i < at ==> bytes[i] != b
        }),
    decreases bytes.len() - from,
{
    if from < bytes.len() && bytes[from] != b {
        lemma_first_place_of_byte(bytes, from + 1, b);
    }
}

} // verus!
