//! Decides which process and which module a name stands for.

use crate::text::{
    bytes_contain, find_byte, from_utf16_lossy, parse_hex, parse_i32, str_contains,
    to_ascii_lowercase,
};
use vstd::prelude::*;
use vstd::string::*;
use vstd::utf8::*;

verus! {

// ── Linux ───────────────────────────────────────────────────────────

/// The process id that the name of an entry of /proc stands for.
pub fn parse_pid(name: &str) -> (pid: Option<i32>)
    ensures
        (match pid {
            Some(v) => Some(v as int),
            None => None,
        }) == crate::text::signed_number(encode_utf8(name@)),
{
    parse_i32(name.as_bytes())
}

/// Whether the command line of a process contains `name`; every one contains the
/// empty name.
pub fn cmdline_matches(data: &[u8], name: &str) -> (r: bool)
    ensures
        r == crate::text::occurs(data@, encode_utf8(name@)),
{
    bytes_contain(data, name.as_bytes())
}

/// Where the line that starts at `start` ends: in front of its `\n` or `\r\n`, or
/// at the end of the text.
pub open spec fn line_end(text: Seq<u8>, start: int) -> int {
    let end = crate::text::next_byte(text, start, 0x0A);
    if start < end < text.len() && text[end - 1] == 0x0D {
        end - 1
    } else {
        end
    }
}

/// The address that a line of /proc/{pid}/maps starts with: what stands in front
/// of the first dash.
pub open spec fn mapping_start(line: Seq<u8>) -> Option<nat> {
    let dash = crate::text::next_byte(line, 0, 0x2D);
    if dash < line.len() {
        crate::text::hex_number(line.take(dash))
    } else {
        None
    }
}

/// The start of the first mapping of `module`, from the line at `start` on.
pub open spec fn base_from(maps: Seq<u8>, module: Seq<u8>, start: int) -> Option<nat>
    decreases maps.len() - start,
{
    let end = crate::text::next_byte(maps, start, 0x0A);
    if start >= maps.len() {
        None
    } else if crate::text::occurs(maps.subrange(start, line_end(maps, start)), module) {
        mapping_start(maps.subrange(start, line_end(maps, start)))
    } else if end >= maps.len() {
        None
    } else {
        proof {
            crate::text::lemma_next_byte_range(maps, start, 0x0A);
        }
        base_from(maps, module, end + 1)
    }
}

fn parse_mapping_start(line: &[u8]) -> (r: Option<u64>)
    ensures
        (match r {
            Some(v) => Some(v as nat),
            None => None,
        }) == mapping_start(line@),
{
    let dash: usize = find_byte(line, 0, 0x2D);
    if dash < line.len() {
        assert(line@.subrange(0, dash as int) =~= line@.take(dash as int));
        parse_hex(vstd::slice::slice_subrange(line, 0, dash))
    } else {
        None
    }
}

/// Parse /proc/{pid}/maps for the first mapping of `module` (image base).
pub fn find_base(maps: &str, module: &str) -> (r: Option<u64>)
    ensures
        (match r {
            Some(v) => Some(v as nat),
            None => None,
        }) == base_from(encode_utf8(maps@), encode_utf8(module@), 0),
{
    let bytes = maps.as_bytes();
    let needle = module.as_bytes();
    let mut start: usize = 0;
    while start < bytes.len()
        invariant
            bytes@ == encode_utf8(maps@),
            needle@ == encode_utf8(module@),
            base_from(bytes@, needle@, 0) == base_from(bytes@, needle@, start as int),
        decreases bytes@.len() + 1 - start,
    {
        let end: usize = find_byte(bytes, start, 0x0A);
        let stop: usize = if start < end && end < bytes.len() && bytes[end - 1] == 0x0D {
            end - 1
        } else {
            end
        };
        let line = vstd::slice::slice_subrange(bytes, start, stop);
        if bytes_contain(line, needle) {
            return parse_mapping_start(line);
        }
        if end == bytes.len() {
            return None;
        }
        start = end + 1;
    }
    None
}

// ── Windows ─────────────────────────────────────────────────────────

/// The code units in front of the first NUL.
pub open spec fn until_nul(wide: Seq<u16>) -> Seq<u16>
    decreases wide.len(),
{
    if wide.len() == 0 || wide[0] == 0 {
        seq![]
    } else {
        seq![wide[0]] + until_nul(wide.drop_first())
    }
}

/// Code units in front of the first NUL come through one by one.
proof fn lemma_until_nul(wide: Seq<u16>, n: int)
    requires
        0 <= n <= wide.len(),
        forall|i: int| 0 <= i < n ==> wide[i] != 0,
        n < wide.len() ==> wide[n] == 0,
    ensures
        until_nul(wide) == wide.take(n),
    decreases n,
{
    if n > 0 {
        lemma_until_nul(wide.drop_first(), n - 1);
        assert(seq![wide[0]] + wide.drop_first().take(n - 1) =~= wide.take(n));
    } else {
        assert(wide.take(0) =~= seq![]);
    }
}

/// The text of a NUL-terminated wide string.
pub fn wide_to_string(wide: &[u16]) -> (s: String)
    ensures
        s@ == crate::text::utf16_text(until_nul(wide@)),
{
    let mut end: usize = 0;
    while end < wide.len() && wide[end] != 0
        invariant
            end <= wide@.len(),
            forall|i: int| 0 <= i < end ==> wide@[i] != 0,
        decreases wide@.len() - end,
    {
        end = end + 1;
    }
    proof {
        lemma_until_nul(wide@, end as int);
        assert(wide@.subrange(0, end as int) =~= wide@.take(end as int));
    }
    from_utf16_lossy(vstd::slice::slice_subrange(wide, 0, end))
}

/// `name` contains `needle` if the case of ASCII letters is left aside.
pub open spec fn name_matches(name: Seq<char>, needle: Seq<char>) -> bool {
    crate::text::contains_text(crate::text::lowered(name), crate::text::lowered(needle))
}

/// Whether `name` contains a needle that is in lower case already.
fn matches_lowered(name: &str, needle: &str) -> (r: bool)
    ensures
        r == crate::text::contains_text(crate::text::lowered(name@), needle@),
{
    str_contains(to_ascii_lowercase(name).as_str(), needle)
}

/// What was listed first under a name that matches.
pub open spec fn first_match<T>(entries: Seq<(Seq<char>, T)>, needle: Seq<char>) -> Option<T>
    decreases entries.len(),
{
    if entries.len() == 0 {
        None
    } else if name_matches(entries[0].0, needle) {
        Some(entries[0].1)
    } else {
        first_match(entries.drop_first(), needle)
    }
}

/// Entries as the system lists them, each with its name as text.
pub open spec fn by_name<T>(entries: Seq<(String, T)>) -> Seq<(Seq<char>, T)> {
    entries.map_values(|e: (String, T)| (e.0@, e.1))
}

/// Look for what was listed first under a name that matches.
fn find_match<T: Copy>(entries: &Vec<(String, T)>, name: &str) -> (r: Option<T>)
    ensures
        r == first_match(by_name(entries@), name@),
{
    let needle = to_ascii_lowercase(name);
    let ghost all = by_name(entries@);
    let mut i: usize = 0;
    assert(all.skip(0) =~= all);
    while i < entries.len()
        invariant
            i <= entries@.len(),
            all == by_name(entries@),
            needle@ == crate::text::lowered(name@),
            first_match(all, name@) == first_match(all.skip(i as int), name@),
        decreases entries@.len() - i,
    {
        assert(all.skip(i as int).drop_first() =~= all.skip(i + 1));
        if matches_lowered(entries[i].0.as_str(), needle.as_str()) {
            return Some(entries[i].1);
        }
        i = i + 1;
    }
    None
}

/// The first process (executable name and process id) whose executable name contains
/// `name`.
pub fn choose_process(entries: &Vec<(String, u32)>, name: &str) -> (r: Option<u32>)
    ensures
        r == first_match(by_name(entries@), name@),
{
    find_match(entries, name)
}

/// The base of the first module that matches, or of the first module at all.
pub open spec fn module_base(entries: Seq<(Seq<char>, u64)>, needle: Seq<char>) -> Option<u64> {
    match first_match(entries, needle) {
        Some(base) => Some(base),
        None => if entries.len() > 0 {
            Some(entries[0].1)
        } else {
            None
        },
    }
}

/// Find the load address of a module (by substring) among names and load addresses.
///
/// If no module name matches, falls back to the first module, which Toolhelp
/// always reports as the process's own .exe, the image base the scanner needs.
pub fn choose_module(entries: &Vec<(String, u64)>, module: &str) -> (r: Option<u64>)
    ensures
        r == module_base(by_name(entries@), module@),
{
    match find_match(entries, module) {
        Some(base) => Some(base),
        None => if entries.len() > 0 {
            Some(entries[0].1)
        } else {
            None
        },
    }
}

} // verus!
