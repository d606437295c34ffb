//! Discovery: which process and which module a name stands for.

use vstd::prelude::*;

verus! {

// ── Names ───────────────────────────────────────────────────────────

/// A name matches if the needle stands in it, both in lower case.
pub open spec fn name_fits(name: Seq<char>, needle: Seq<char>) -> bool {
    crate::laws::text::has_part(crate::text::lowered(name), crate::text::lowered(needle))
}

/// Entries are looked at in the order in which they are listed, each under its name.
pub proof fn lemma_entries_keep_their_order<T>(entries: Seq<(String, T)>)
    ensures
        crate::discovery::by_name(entries).len() == entries.len(),
        forall|i: int|
            0 <= i < entries.len() ==> #[trigger] crate::discovery::by_name(entries)[i] == (
                entries[i].0@,
                entries[i].1,
            ),
{
}

/// What is chosen is the first entry whose name matches, and none if none does.
pub proof fn lemma_first_match_is_chosen<T>(
    entries: Seq<(Seq<char>, T)>,
    needle: Seq<char>,
    k: int,
)
    requires
        0 <= k <= entries.len(),
        forall|i: int| 0 <= i < k ==> !name_fits((#[trigger] entries[i]).0, needle),
        k < entries.len() ==> name_fits(entries[k].0, needle),
    ensures
        crate::discovery::first_match(entries, needle) == (if k < entries.len() {
            Some(entries[k].1)
        } else {
            None
        }),
    decreases entries.len(),
{
    if entries.len() > 0 {
        crate::laws::text::lemma_part_of_text(
            crate::text::lowered(entries[0].0),
            crate::text::lowered(needle),
        );
        if k > 0 {
            assert(!name_fits(entries[0].0, needle));
            let rest = entries.drop_first();
            assert forall|i: int| 0 <= i < k - 1 implies !name_fits(
                (#[trigger] rest[i]).0,
                needle,
            ) by {
                assert(rest[i] == entries[i + 1]);
            }
            lemma_first_match_is_chosen(rest, needle, k - 1);
        }
    }
}

/// The module that is chosen is the first whose name matches, or the first of all.
pub proof fn lemma_module_is_chosen(entries: Seq<(Seq<char>, u64)>, needle: Seq<char>, k: int)
    requires
        0 <= k <= entries.len(),
        forall|i: int| 0 <= i < k ==> !name_fits((#[trigger] entries[i]).0, needle),
        k < entries.len() ==> name_fits(entries[k].0, needle),
    ensures
        k < entries.len() ==> crate::discovery::module_base(entries, needle) == Some(entries[k].1),
        k == entries.len() && k > 0 ==> crate::discovery::module_base(entries, needle) == Some(
            entries[0].1,
        ),
        entries.len() == 0 ==> crate::discovery::module_base(entries, needle) is None,
{
    lemma_first_match_is_chosen(entries, needle, k);
}

/// A wide string ends in front of its first NUL.
pub proof fn lemma_wide_string_ends_at_nul(text: Seq<u16>, rest: Seq<u16>)
    requires
        forall|i: int| 0 <= i < text.len() ==> #[trigger] text[i] != 0,
    ensures
        crate::discovery::until_nul(text) == text,
        crate::discovery::until_nul(text + seq![0] + rest) == text,
    decreases text.len(),
{
    let all = text + seq![0u16] + rest;
    if text.len() > 0 {
        let tail = text.drop_first();
        assert forall|i: int| 0 <= i < tail.len() implies #[trigger] tail[i] != 0 by {
            assert(tail[i] == text[i + 1]);
        }
        lemma_wide_string_ends_at_nul(tail, rest);
        assert(all.drop_first() =~= tail + seq![0u16] + rest);
        assert(all[0] == text[0]);
        assert(seq![text[0]] + tail =~= text);
    } else {
        assert(all[0] == 0);
        assert(text =~= seq![]);
    }
}

// ── Mappings ────────────────────────────────────────────────────────

proof fn lemma_first_in_front(front: Seq<u8>, rest: Seq<u8>, from: int, b: u8)
    requires
        0 <= from <= front.len(),
        forall|i: int| 0 <= i < front.len() ==> #[trigger] front[i] != b,
        rest.len() == 0 || rest[0] == b,
    ensures
        crate::text::next_byte(front + rest, from, b) == front.len(),
    decreases front.len() - from,
{
    if from < front.len() {
        assert((front + rest)[from] == front[from]);
        lemma_first_in_front(front, rest, from + 1, b);
    } else if rest.len() > 0 {
        assert((front + rest)[from] == rest[0]);
    }
}

proof fn lemma_first_behind(front: Seq<u8>, rest: Seq<u8>, from: int, b: u8)
    requires
        0 <= from,
    ensures
        crate::text::next_byte(front + rest, front.len() + from, b) == front.len()
            + crate::text::next_byte(rest, from, b),
    decreases rest.len() - from,
{
    if from < rest.len() {
        assert((front + rest)[front.len() + from] == rest[from]);
        if rest[from] != b {
            lemma_first_behind(front, rest, from + 1, b);
        }
    }
}

/// A mapping starts at the hexadecimal number in front of the first dash of its line.
pub proof fn lemma_mapping_starts_in_front_of_dash(front: Seq<u8>, back: Seq<u8>)
    requires
        forall|i: int| 0 <= i < front.len() ==> #[trigger] front[i] != 0x2D,
    ensures
        crate::discovery::mapping_start(front + seq![0x2D] + back) == crate::text::hex_number(front),
        crate::discovery::mapping_start(front) is None,
{
    let line = front + seq![0x2Du8] + back;
    assert(line =~= front + (seq![0x2Du8] + back));
    lemma_first_in_front(front, seq![0x2Du8] + back, 0, 0x2D);
    assert(line.take(front.len() as int) =~= front);
    lemma_first_in_front(front, seq![], 0, 0x2D);
    assert(front + Seq::<u8>::empty() =~= front);
}

proof fn lemma_base_behind(front: Seq<u8>, maps: Seq<u8>, module: Seq<u8>, start: int)
    requires
        0 <= start,
    ensures
        crate::discovery::base_from(front + maps, module, front.len() + start)
            == crate::discovery::base_from(maps, module, start),
    decreases maps.len() - start,
{
    if start < maps.len() {
        lemma_first_behind(front, maps, start, 0x0A);
        crate::text::lemma_next_byte_range(maps, start, 0x0A);
        let end = crate::text::next_byte(maps, start, 0x0A);
        let all = front + maps;
        let stop = crate::discovery::line_end(maps, start);
        if start < end {
            assert(all[front.len() + end - 1] == maps[end - 1]);
        }
        assert(crate::discovery::line_end(all, front.len() + start) == front.len() + stop);
        assert(all.subrange(front.len() + start, front.len() + stop) =~= maps.subrange(
            start,
            stop,
        ));
        if end < maps.len() {
            lemma_base_behind(front, maps, module, end + 1);
        }
    }
}

/// The base of a module is where the mapping of the first line starts in which its name
/// stands: a line in which it does not stand is passed over. A line ends in front of its
/// line feed, or of a carriage return and a line feed.
pub proof fn lemma_first_line_with_module(
    line: Seq<u8>,
    feed: Seq<u8>,
    rest: Seq<u8>,
    module: Seq<u8>,
)
    requires
        forall|i: int| 0 <= i < line.len() ==> #[trigger] line[i] != 0x0A,
        feed == seq![0x0Au8] && (line.len() > 0 ==> line.last() != 0x0D) || feed == seq![
            0x0Du8,
            0x0Au8,
        ],
    ensures
        crate::laws::text::has_part(line, module) ==> crate::discovery::base_from(
            line + feed + rest,
            module,
            0,
        ) == crate::discovery::mapping_start(line),
        !crate::laws::text::has_part(line, module) ==> crate::discovery::base_from(
            line + feed + rest,
            module,
            0,
        ) == crate::discovery::base_from(rest, module, 0),
{
    let maps = line + feed + rest;
    let (front, back) = if feed.len() == 1 {
        (line, seq![0x0Au8] + rest)
    } else {
        (line.push(0x0D), seq![0x0Au8] + rest)
    };
    assert(maps =~= front + back);
    assert forall|i: int| 0 <= i < front.len() implies #[trigger] front[i] != 0x0A by {
        if i < line.len() {
            assert(front[i] == line[i]);
        }
    }
    lemma_first_in_front(front, back, 0, 0x0A);
    let end = front.len() as int;
    assert(maps[end] == 0x0A);
    if front.len() > 0 {
        assert(maps[end - 1] == front[end - 1]);
    }
    assert(crate::discovery::line_end(maps, 0) == line.len());
    assert(maps.subrange(0, line.len() as int) =~= line);
    crate::laws::text::lemma_part_of_sequence(line, module);
    lemma_base_behind(line + feed, rest, module, 0);
    assert((line + feed).len() == end + 1);
}

/// The last line counts too, though no line feed ends it; and where there is no line there
/// is no base.
pub proof fn lemma_last_line_counts(line: Seq<u8>, module: Seq<u8>)
    requires
        forall|i: int| 0 <= i < line.len() ==> #[trigger] line[i] != 0x0A,
    ensures
        line.len() > 0 ==> crate::discovery::base_from(line, module, 0) == (
        if crate::laws::text::has_part(line, module) {
            crate::discovery::mapping_start(line)
        } else {
            None
        }),
        line.len() == 0 ==> crate::discovery::base_from(line, module, 0) is None,
{
    lemma_first_in_front(line, seq![], 0, 0x0A);
    assert(line + Seq::<u8>::empty() =~= line);
    assert(line.subrange(0, line.len() as int) =~= line);
    crate::laws::text::lemma_part_of_sequence(line, module);
}

} // verus!
