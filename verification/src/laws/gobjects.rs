//! The object array: what tells it from anything else that the code refers to.

use crate::mem::{Memory, Missing};
use crate::scanner::gobjects::{NearMissView, SearchView, StrideView, ValidationView};
use crate::ue::fname::Remote;
use vstd::prelude::*;

verus! {

// ── Items ───────────────────────────────────────────────────────────

/// Item `i` of the chunk at `chunk0`, in which items are `stride` bytes apart, points to
/// an object whose class has the name `name`: of ASCII characters, two at least, and with
/// an index below 0x4000000.
pub open spec fn item_names(
    r: Remote,
    chunk0: u64,
    stride: usize,
    i: int,
    obj: u64,
    class: u64,
    idx: u32,
    name: Seq<char>,
) -> bool {
    &&& 0 <= chunk0 + i * stride <= 0xFFFF_FFFF_FFFF
    &&& r.mem.holds::<u64>((chunk0 + i * stride) as u64, obj)
    &&& crate::laws::in_range(obj)
    &&& obj + 0x10 <= 0xFFFF_FFFF_FFFF
    &&& r.mem.holds::<u64>((obj + 0x10) as u64, class)
    &&& crate::laws::in_range(class)
    &&& class + 0x18 <= 0xFFFF_FFFF_FFFF
    &&& r.mem.holds::<u32>((class + 0x18) as u64, idx)
    &&& idx < 0x400_0000
    &&& r.names.name(idx, 0) == Ok::<Option<Seq<char>>, Missing>(Some(name))
    &&& name.len() >= 2
    &&& forall|c: int| 0 <= c < name.len() ==> '\0' <= #[trigger] name[c] <= '\u{7F}'
}

/// An item that names a class is counted under that name.
pub proof fn lemma_item_is_counted(
    r: Remote,
    chunk0: u64,
    stride: usize,
    i: int,
    obj: u64,
    class: u64,
    idx: u32,
    name: Seq<char>,
)
    requires
        item_names(r, chunk0, stride, i, obj, class, idx, name),
    ensures
        r.probe(chunk0, stride, i) == Ok::<Option<Seq<char>>, Missing>(Some(name)),
{
    assert(vstd::utf8::is_ascii_chars(name));
}

/// An item that is counted names a class.
pub proof fn lemma_counted_item(
    r: Remote,
    chunk0: u64,
    stride: usize,
    i: int,
    name: Seq<char>,
) -> (q: (u64, u64, u32))
    requires
        0 <= i,
        r.probe(chunk0, stride, i) == Ok::<Option<Seq<char>>, Missing>(Some(name)),
    ensures
        item_names(r, chunk0, stride, i, q.0, q.1, q.2, name),
{
    assert(0 <= i * stride) by (nonlinear_arith)
        requires
            0 <= i,
            0 <= stride,
    ;
    let obj = r.mem.value::<u64>((chunk0 + i * stride) as u64)->Ok_0->0;
    let class = r.mem.value::<u64>((obj + 0x10) as u64)->Ok_0->0;
    let idx = r.mem.value::<u32>((class + 0x18) as u64)->Ok_0->0;
    (obj, class, idx)
}

/// The name of a class that every game has.
pub open spec fn familiar(name: Seq<char>) -> bool {
    ||| name == "Class"@
    ||| name == "Package"@
    ||| name == "Function"@
    ||| name == "ScriptStruct"@
    ||| name == "Enum"@
}

/// What a stride shows of `found`, the names that its items give: how many there are, how
/// many of them are different, whether one of them is familiar, and, as samples, the first
/// eight of the different ones in ascending order.
pub open spec fn shows_names(shown: StrideView, found: Seq<Seq<char>>, different: Seq<Seq<char>>) -> bool {
    &&& shown.valid == found.len()
    &&& shown.unique == different.len()
    &&& shown.known <==> exists|k: int| 0 <= k < found.len() && familiar(#[trigger] found[k])
    &&& different.to_set() == found.to_set()
    &&& crate::text::ascending(different)
    &&& shown.samples == different.take(
        if different.len() < 8 {
            different.len() as int
        } else {
            8
        },
    )
}

proof fn lemma_tally_shows(stride: usize, found: Seq<Seq<char>>)
    requires
        found.len() <= 200,
    ensures
        shows_names(
            crate::scanner::gobjects::tally(stride, found),
            found,
            crate::text::distinct(found),
        ),
{
    let shown = crate::scanner::gobjects::tally(stride, found);
    let different = crate::text::distinct(found);
    crate::text::lemma_distinct(found);
    found.lemma_cardinality_of_set();
    assert(different.take(different.len() as int) =~= different);
    if shown.known {
        let k = choose|k: int|
            0 <= k < found.len() && crate::scanner::gobjects::is_known_class(#[trigger] found[k]);
        assert(familiar(found[k]));
    }
    if exists|k: int| 0 <= k < found.len() && familiar(#[trigger] found[k]) {
        let k = choose|k: int| 0 <= k < found.len() && familiar(#[trigger] found[k]);
        assert(crate::scanner::gobjects::is_known_class(found[k]));
    }
}

/// A stride is judged by the names that its first 200 items give.
pub proof fn lemma_stride_is_judged(r: Remote, chunk0: u64, stride: usize, shown: StrideView) -> (q: (
    Seq<int>,
    Seq<Seq<char>>,
    Seq<Seq<char>>,
))
    requires
        r.stride_result(chunk0, stride) == Ok::<StrideView, Missing>(shown),
    ensures
        crate::laws::picks(q.1, r.probes(chunk0, stride), 200, q.0),
        shows_names(shown, q.1, q.2),
        shown.stride == stride,
{
    let step = r.probes(chunk0, stride);
    let found = crate::walk::collect(step, 0, 200)->Ok_0;
    let from = crate::laws::lemma_walk_picks(step, 200);
    crate::walk::lemma_collect_len(step, 0, 200);
    lemma_tally_shows(stride, found);
    (from, found, crate::text::distinct(found))
}

/// What each item gives is what it is probed for.
pub proof fn lemma_items_are_probed(r: Remote, chunk0: u64, stride: usize, i: int)
    ensures
        (r.probes(chunk0, stride))(i) == r.probe(chunk0, stride, i),
{
}

// ── Verdicts ────────────────────────────────────────────────────────

/// An object array may stand at `root`: it has 20000 to 9999999 elements by the number at
/// 0x14, chunk pointers that do not stand in the four gigabytes of the image, and a first
/// chunk.
pub open spec fn array_at(
    m: Memory,
    base: u64,
    root: u64,
    n: u32,
    chunks: u64,
    chunk0: u64,
) -> bool {
    &&& root + 0x14 <= 0xFFFF_FFFF_FFFF
    &&& m.holds::<u32>((root + 0x14) as u64, n)
    &&& 20_000 <= n < 10_000_000
    &&& m.holds::<u64>(root, chunks)
    &&& crate::laws::in_range(chunks)
    &&& chunks / 0x1_0000_0000 != base / 0x1_0000_0000
    &&& m.holds::<u64>(chunks, chunk0)
    &&& crate::laws::in_range(chunk0)
}

/// The stride of 0x18 or 0x20 bytes that shows more different names; the first if both
/// show as many.
pub open spec fn more_names(small: StrideView, large: StrideView) -> StrideView {
    if large.unique > small.unique {
        large
    } else {
        small
    }
}

/// What is shown is convincing: at least 150 of the 200 items name a class, there are at
/// least two different names, and one of them is familiar.
pub open spec fn convinces(shown: StrideView) -> bool {
    shown.known && shown.valid >= 150 && shown.unique >= 2
}

/// Where an object array may stand, it is valid exactly if the better stride is
/// convincing; and otherwise a near miss, with what both strides showed and the first 64
/// bytes of the first chunk.
pub proof fn lemma_array_is_judged(
    r: Remote,
    base: u64,
    root: u64,
    original: u64,
    off: u64,
    n: u32,
    chunks: u64,
    chunk0: u64,
    small: StrideView,
    large: StrideView,
    preview: Option<Seq<u8>>,
)
    requires
        array_at(r.mem, base, root, n, chunks, chunk0),
        r.stride_result(chunk0, 0x18) == Ok::<StrideView, Missing>(small),
        r.stride_result(chunk0, 0x20) == Ok::<StrideView, Missing>(large),
    ensures
        convinces(more_names(small, large)) ==> r.verdict_at(base, root, original, off) == Ok::<
            ValidationView,
            Missing,
        >(
            (ValidationView::Valid {
                effective_addr: root,
                stride: more_names(small, large).stride,
            }),
        ),
        !convinces(more_names(small, large)) && r.mem.fetch(chunk0, 64) == Ok::<
            Option<Seq<u8>>,
            Missing,
        >(preview) ==> r.verdict_at(base, root, original, off) == Ok::<ValidationView, Missing>(
            ValidationView::NearMiss(
                (NearMissView {
                    addr: original,
                    base_off: off,
                    num_elements: n as usize,
                    chunks_ptr: chunks,
                    chunk0,
                    stride_results: seq![small, large],
                    chunk0_preview: preview,
                }),
            ),
        ),
{
    assert(chunks >> 32 == chunks / 0x1_0000_0000) by (bit_vector);
    assert(base >> 32 == base / 0x1_0000_0000) by (bit_vector);
    let best = more_names(small, large);
    assert(best.valid * 100 / 200 >= 75 <==> best.valid >= 150);
}

/// What is not rejected may be an object array.
pub proof fn lemma_judged_array(r: Remote, base: u64, root: u64, original: u64, off: u64) -> (q: (
    u32,
    u64,
    u64,
))
    requires
        r.verdict_at(base, root, original, off) is Ok,
        !(r.verdict_at(base, root, original, off)->Ok_0 is Reject),
    ensures
        array_at(r.mem, base, root, q.0, q.1, q.2),
{
    let n = r.mem.value::<u32>((root + 0x14) as u64)->Ok_0->0;
    let chunks = r.mem.value::<u64>(root)->Ok_0->0;
    let chunk0 = r.mem.value::<u64>(chunks)->Ok_0->0;
    assert(chunks >> 32 == chunks / 0x1_0000_0000) by (bit_vector);
    assert(base >> 32 == base / 0x1_0000_0000) by (bit_vector);
    (n, chunks, chunk0)
}

/// The greatest number of items that name a class with one of the strides.
pub open spec fn most_valid(miss: NearMissView) -> int {
    let (a, b) = (miss.stride_results[0].valid as int, miss.stride_results[1].valid as int);
    if b > a {
        b
    } else {
        a
    }
}

proof fn lemma_most_valid(miss: NearMissView)
    requires
        miss.stride_results.len() == 2,
    ensures
        crate::scanner::gobjects::best_valid(miss.stride_results) == most_valid(miss),
{
    let s = miss.stride_results;
    reveal_with_fuel(crate::scanner::gobjects::best_valid, 4);
    assert(s.drop_last().drop_last() =~= seq![]);
    assert(s.drop_last().last() == s[0]);
    assert(s.last() == s[1]);
}

proof fn lemma_misses_have_both(r: Remote, base: u64, root: u64, original: u64, off: u64)
    ensures
        r.verdict_at(base, root, original, off) matches Ok(ValidationView::NearMiss(miss))
            ==> miss.stride_results.len() == 2,
{
}

/// A target is looked at as it is and then 0x10 further: valid if one of the two is, the
/// first one first; else the near miss with more items that name a class, or the first of
/// the two; and rejected only if both are.
pub proof fn lemma_target_is_judged_twice(r: Remote, base: u64, addr: u64)
    requires
        addr + 0x10 <= 0xFFFF_FFFF_FFFF,
        r.verdict(base, addr) is Ok,
        r.verdict_at(base, (addr + 0x10) as u64, addr, 0x10) is Ok,
    ensures
        ({
            let here = r.verdict_at(base, addr, addr, 0);
            let there = r.verdict_at(base, (addr + 0x10) as u64, addr, 0x10);
            let both = r.verdict(base, addr);
            &&& here matches Ok(first)
            &&& there matches Ok(second)
            &&& first is Valid ==> both == here
            &&& !(first is Valid) && second is Valid ==> both == there
            &&& first is Reject && second is Reject ==> both->Ok_0 is Reject
            &&& first is NearMiss && second is Reject ==> both == here
            &&& first is Reject && second is NearMiss ==> both == there
            &&& first is NearMiss && second is NearMiss ==> both == (if most_valid(
                second->NearMiss_0,
            ) > most_valid(first->NearMiss_0) {
                there
            } else {
                here
            })
        }),
{
    reveal(Remote::verdict);
    lemma_misses_have_both(r, base, addr, addr, 0);
    lemma_misses_have_both(r, base, (addr + 0x10) as u64, addr, 0x10);
    if let Ok(ValidationView::NearMiss(miss)) = r.verdict_at(base, addr, addr, 0) {
        lemma_most_valid(miss);
    }
    if let Ok(ValidationView::NearMiss(miss)) = r.verdict_at(
        base,
        (addr + 0x10) as u64,
        addr,
        0x10,
    ) {
        lemma_most_valid(miss);
    }
}

// ── The search ──────────────────────────────────────────────────────

/// Where the code loads (8D) or moves (8B) what a register is to point to, and that is
/// judged to be an object array, one is found. The registers are rax to rdi but rsp, with
/// a prefix of 48, and r8 to r15, with a prefix of 4C.
pub proof fn lemma_loaded_array_is_found(
    r: Remote,
    base: u64,
    start: u64,
    size: u64,
    at: int,
    prefix: u8,
    opcode: u8,
    modrm: u8,
    target: u64,
)
    requires
        prefix == 0x48 || prefix == 0x4C,
        opcode == 0x8D || opcode == 0x8B,
        modrm == 0x05 || modrm == 0x0D || modrm == 0x15 || modrm == 0x1D || (modrm == 0x25 && prefix
            == 0x4C) || modrm == 0x2D || modrm == 0x35 || modrm == 0x3D,
        crate::laws::scan::names_target(
            r.mem,
            start,
            size,
            at,
            (prefix, opcode, modrm),
            target,
        ),
        r.verdict(base, target) matches Ok(ValidationView::Valid { .. }),
        r.gobjects(base, start, size) is Ok,
    ensures
        r.gobjects(base, start, size)->Ok_0 is Found,
{
    let register: int = (modrm - 5) / 8;
    let k = crate::scanner::gobjects::lemma_registers_covered(prefix, opcode, register);
    let code = r.mem.fetch(start, size as usize)->Ok_0->0;
    let pattern = crate::scanner::gobjects::rip_pattern(prefix, opcode, modrm);
    assert(crate::scanner::pattern::matches_at(code, pattern, at));
    crate::laws::scan::lemma_displacement_counts_from_the_end(
        r.mem,
        (start + at) as u64,
        r.mem.value::<i32>((start + at + 3) as u64)->Ok_0->0,
    );
    crate::scanner::gobjects::lemma_named_array_is_found(
        r,
        base,
        start,
        size,
        prefix,
        opcode,
        register,
        at,
        target,
    );
}

/// What is found is what one of the targets is judged to be.
pub proof fn lemma_found_is_judged(r: Remote, base: u64, targets: Seq<u64>, n: nat) -> (k: int)
    requires
        n <= targets.len(),
        r.search(base, targets, n) matches Ok(SearchView::Found { .. }),
    ensures
        0 <= k < n,
        r.search(base, targets, n) matches Ok(SearchView::Found { addr, stride }) && r.verdict(
            base,
            targets[k],
        ) == Ok::<ValidationView, Missing>((ValidationView::Valid { effective_addr: addr, stride })),
        forall|i: int|
            0 <= i < k ==> !(r.verdict(base, #[trigger] targets[i]) matches Ok(
                ValidationView::Valid { .. },
            )),
    decreases n,
{
    if let Ok(SearchView::NotFound(_)) = r.search(base, targets, (n - 1) as nat) {
        lemma_none_valid(r, base, targets, (n - 1) as nat);
        n - 1
    } else {
        lemma_found_is_judged(r, base, targets, (n - 1) as nat)
    }
}

proof fn lemma_none_valid(r: Remote, base: u64, targets: Seq<u64>, n: nat)
    requires
        n <= targets.len(),
        r.search(base, targets, n) matches Ok(SearchView::NotFound(_)),
    ensures
        forall|i: int|
            0 <= i < n ==> !(r.verdict(base, #[trigger] targets[i]) matches Ok(
                ValidationView::Valid { .. },
            )),
    decreases n,
{
    if n > 0 {
        lemma_none_valid(r, base, targets, (n - 1) as nat);
    }
}

/// The order in which instructions are looked at: those that load (8D) a register of the
/// first eight, those that move (8B) one, those that load one of the other eight, and those
/// that move one; each by the register.
pub open spec fn rank(prefix: u8, opcode: u8, modrm: u8) -> int {
    let group: int = if prefix == 0x48 {
        0
    } else {
        2
    };
    let kind: int = if opcode == 0x8D {
        0
    } else {
        1
    };
    0x100 * (group + kind) + modrm
}

/// One of the instructions that are looked at: they name rax to rdi but rsp, with a prefix
/// of 48, and r8 to r15, with a prefix of 4C.
pub open spec fn looked_at(prefix: u8, opcode: u8, modrm: u8) -> bool {
    &&& prefix == 0x48 || prefix == 0x4C
    &&& opcode == 0x8D || opcode == 0x8B
    &&& modrm == 0x05 || modrm == 0x0D || modrm == 0x15 || modrm == 0x1D || (modrm == 0x25 && prefix
        == 0x4C) || modrm == 0x2D || modrm == 0x35 || modrm == 0x3D
}

/// The bytes that pattern number `k` is for.
spec fn bytes_of(k: int) -> (u8, u8, u8) {
    let low: int = if k < 7 {
        k
    } else {
        k - 7
    };
    if k < 14 {
        let register = if low < 4 {
            low
        } else {
            low + 1
        };
        (
            0x48,
            if k < 7 {
                0x8D
            } else {
                0x8B
            },
            (8 * register + 5) as u8,
        )
    } else if k < 22 {
        (0x4C, 0x8D, (8 * (k - 14) + 5) as u8)
    } else {
        (0x4C, 0x8B, (8 * (k - 22) + 5) as u8)
    }
}

proof fn lemma_bytes_of(k: int)
    requires
        0 <= k < 30,
    ensures
        ({
            let (prefix, opcode, modrm) = bytes_of(k);
            &&& looked_at(prefix, opcode, modrm)
            &&& crate::scanner::gobjects::gobjects_patterns()[k] =~= seq![
                Some(prefix),
                Some(opcode),
                Some(modrm),
                None,
                None,
                None,
                None,
            ]
        }),
{
}

proof fn lemma_bytes_in_order(k: int, l: int)
    requires
        0 <= k < l < 30,
    ensures
        ({
            let (a, b) = (bytes_of(k), bytes_of(l));
            rank(a.0, a.1, a.2) < rank(b.0, b.1, b.2)
        }),
{
}

proof fn lemma_pattern_for(prefix: u8, opcode: u8, modrm: u8) -> (k: int)
    requires
        looked_at(prefix, opcode, modrm),
    ensures
        0 <= k < 30,
        bytes_of(k) == (prefix, opcode, modrm),
{
    let register: int = (modrm - 5) / 8;
    let low = if register < 4 {
        register
    } else {
        register - 1
    };
    if prefix == 0x48 {
        if opcode == 0x8D {
            low
        } else {
            low + 7
        }
    } else if opcode == 0x8D {
        register + 14
    } else {
        register + 22
    }
}

/// What is found is judged to be there by what an instruction names, and that is the first
/// such instruction in the order in which they are looked at, and the one with the lowest
/// address.
pub proof fn lemma_first_loaded_array_is_found(
    r: Remote,
    base: u64,
    start: u64,
    size: u64,
    addr: u64,
    stride: usize,
) -> (q: (int, (u8, u8, u8), u64))
    requires
        start + size <= 0x1_0000_0000_0000,
        size <= usize::MAX,
        r.mem.fetch(start, size as usize) matches Ok(Some(_)),
        r.gobjects(base, start, size) == Ok::<SearchView, Missing>(
            (SearchView::Found { addr, stride }),
        ),
    ensures
        ({
            let (at, bytes, target) = q;
            &&& looked_at(bytes.0, bytes.1, bytes.2)
            &&& crate::laws::scan::names_target(r.mem, start, size, at, bytes, target)
            &&& r.verdict(base, target) == Ok::<ValidationView, Missing>(
                (ValidationView::Valid { effective_addr: addr, stride }),
            )
            &&& forall|other: int, b: (u8, u8, u8), t: u64|
                looked_at(b.0, b.1, b.2) && #[trigger] crate::laws::scan::names_target(
                    r.mem,
                    start,
                    size,
                    other,
                    b,
                    t,
                ) && (r.verdict(base, t) matches Ok(ValidationView::Valid { .. })) ==> rank(
                    bytes.0,
                    bytes.1,
                    bytes.2,
                ) < rank(b.0, b.1, b.2) || bytes == b && at <= other
        }),
{
    let patterns = crate::scanner::gobjects::gobjects_patterns();
    let targets = r.mem.rip_targets(start, size, patterns, 30)->Ok_0;
    let j = lemma_found_is_judged(r, base, targets, targets.len());
    let places = crate::laws::scan::lemma_targets_in_order(r.mem, start, size, patterns, 30);
    let place = places[j];
    let bytes = bytes_of(place.0);
    let target = targets[j];
    assert(crate::laws::scan::comes_from(r.mem, start, size, patterns, place, target));
    lemma_bytes_of(place.0);
    crate::laws::scan::lemma_place_names_target(
        r.mem,
        start,
        size,
        patterns,
        place,
        bytes,
        target,
    );
    let at = place.1 - start;
    assert forall|other: int, b: (u8, u8, u8), t: u64|
        looked_at(b.0, b.1, b.2) && #[trigger] crate::laws::scan::names_target(
            r.mem,
            start,
            size,
            other,
            b,
            t,
        ) && (r.verdict(base, t) matches Ok(ValidationView::Valid { .. })) implies rank(
        bytes.0,
        bytes.1,
        bytes.2,
    ) < rank(b.0, b.1, b.2) || bytes == b && at <= other by {
        let k = lemma_pattern_for(b.0, b.1, b.2);
        lemma_bytes_of(k);
        crate::laws::scan::lemma_named_comes_from(
            r.mem,
            start,
            size,
            patterns,
            k,
            other,
            b,
            t,
        );
        let place2 = (k, (start + other) as u64);
        assert(places.contains(place2));
        let i = places.index_of(place2);
        assert(crate::laws::scan::comes_from(
            r.mem,
            start,
            size,
            patterns,
            places[i],
            targets[i],
        ));
        assert(targets[i] == t);
        if i < j {
            assert(!(r.verdict(base, targets[i]) matches Ok(ValidationView::Valid { .. })));
        }
        if j < i {
            assert(crate::laws::scan::comes_first(places[j], places[i]));
        }
        if place.0 < k {
            lemma_bytes_in_order(place.0, k);
        }
    }
    (at, bytes, target)
}

// ── Near misses ─────────────────────────────────────────────────────

/// How good a near miss is: by the number of different names first, and by the number of
/// items that name a class second.
pub open spec fn scores_more(a: NearMissView, b: NearMissView) -> bool {
    let (au, av) = score_of(a);
    let (bu, bv) = score_of(b);
    au > bu || au == bu && av > bv
}

/// The score of the better of the two strides.
pub open spec fn score_of(miss: NearMissView) -> (int, int) {
    let (s, l) = (miss.stride_results[0], miss.stride_results[1]);
    if l.unique > s.unique || l.unique == s.unique && l.valid > s.valid {
        (l.unique as int, l.valid as int)
    } else {
        (s.unique as int, s.valid as int)
    }
}

proof fn lemma_score(miss: NearMissView)
    requires
        miss.stride_results.len() == 2,
    ensures
        crate::scanner::gobjects::best_score(miss.stride_results).0 == score_of(miss).0,
        crate::scanner::gobjects::best_score(miss.stride_results).1 == score_of(miss).1,
{
    let s = miss.stride_results;
    reveal_with_fuel(crate::scanner::gobjects::best_score, 4);
    assert(s.drop_last().drop_last() =~= seq![]);
    assert(s.drop_last().last() == s[0]);
    assert(s.last() == s[1]);
}

proof fn lemma_ranked_members(list: Seq<NearMissView>, miss: NearMissView)
    ensures
        crate::scanner::gobjects::ranked(list, miss).len() == list.len() + 1,
        crate::scanner::gobjects::ranked(list, miss).contains(miss),
        forall|x: NearMissView|
            list.contains(x) ==> #[trigger] crate::scanner::gobjects::ranked(
                list,
                miss,
            ).contains(x),
        forall|x: NearMissView| #[trigger]
            crate::scanner::gobjects::ranked(list, miss).contains(x) ==> list.contains(x) || x
                == miss,
    decreases list.len(),
{
    let new = crate::scanner::gobjects::ranked(list, miss);
    if list.len() > 0 && crate::scanner::gobjects::score_lt(
        crate::scanner::gobjects::best_score(list.last().stride_results),
        crate::scanner::gobjects::best_score(miss.stride_results),
    ) {
        let front = list.drop_last();
        lemma_ranked_members(front, miss);
        let head = crate::scanner::gobjects::ranked(front, miss);
        assert(new == head.push(list.last()));
        assert(new[head.index_of(miss)] == miss);
        assert forall|x: NearMissView| list.contains(x) implies #[trigger] new.contains(x) by {
            let k = list.index_of(x);
            if k < front.len() {
                assert(front[k] == x);
                assert(head.contains(x));
                assert(new[head.index_of(x)] == x);
            } else {
                assert(new[head.len() as int] == x);
            }
        }
        assert forall|x: NearMissView| #[trigger] new.contains(x) implies list.contains(x) || x
            == miss by {
            let k = new.index_of(x);
            if k < head.len() {
                assert(head[k] == x);
                assert(head.contains(x));
                if front.contains(x) {
                    assert(list[front.index_of(x)] == x);
                }
            } else {
                assert(list[list.len() - 1] == x);
            }
        }
    } else {
        assert(new == list.push(miss));
        assert(new[list.len() as int] == miss);
        assert forall|x: NearMissView| list.contains(x) implies #[trigger] new.contains(x) by {
            assert(new[list.index_of(x)] == x);
        }
        assert forall|x: NearMissView| #[trigger] new.contains(x) implies list.contains(x) || x
            == miss by {
            let k = new.index_of(x);
            if k < list.len() {
                assert(list[k] == x);
            }
        }
    }
}

/// Where nothing is found, each target that is a near miss is noted, or one with the same
/// first chunk is; and nothing else is noted.
pub proof fn lemma_near_misses_are_noted(
    r: Remote,
    base: u64,
    targets: Seq<u64>,
    n: nat,
    misses: Seq<NearMissView>,
    i: int,
    miss: NearMissView,
)
    requires
        n <= targets.len(),
        r.search(base, targets, n) == Ok::<SearchView, Missing>(SearchView::NotFound(misses)),
    ensures
        0 <= i < n && r.verdict(base, targets[i]) == Ok::<ValidationView, Missing>(
            ValidationView::NearMiss(miss),
        ) ==> exists|k: int| 0 <= k < misses.len() && (#[trigger] misses[k]).chunk0 == miss.chunk0,
        misses.contains(miss) ==> exists|k: int|
            0 <= k < n && r.verdict(base, #[trigger] targets[k]) == Ok::<ValidationView, Missing>(
                ValidationView::NearMiss(miss),
            ),
    decreases n,
{
    if n > 0 {
        let before = r.search(base, targets, (n - 1) as nat)->Ok_0->NotFound_0;
        lemma_near_misses_are_noted(r, base, targets, (n - 1) as nat, before, i, miss);
        match r.verdict(base, targets[n - 1]) {
            Ok(ValidationView::NearMiss(last)) => {
                lemma_ranked_members(before, last);
                if 0 <= i < n - 1 && r.verdict(base, targets[i]) == Ok::<ValidationView, Missing>(
                    ValidationView::NearMiss(miss),
                ) {
                    let k = choose|k: int|
                        0 <= k < before.len() && (#[trigger] before[k]).chunk0 == miss.chunk0;
                    assert(before.contains(before[k]));
                    assert(misses.contains(before[k]));
                    assert(misses[misses.index_of(before[k])].chunk0 == miss.chunk0);
                }
                if i == n - 1 && last == miss {
                    if crate::scanner::gobjects::chunk_seen(before, miss.chunk0) {
                        let k = choose|k: int|
                            0 <= k < before.len() && (#[trigger] before[k]).chunk0 == miss.chunk0;
                        assert(misses[k].chunk0 == miss.chunk0);
                    } else {
                        assert(misses[misses.index_of(miss)].chunk0 == miss.chunk0);
                    }
                }
                if misses.contains(miss) && !before.contains(miss) {
                    assert(r.verdict(base, targets[n - 1]) == Ok::<ValidationView, Missing>(
                        ValidationView::NearMiss(miss),
                    ));
                }
            },
            _ => {},
        }
    }
}

proof fn lemma_noted_have_both(
    r: Remote,
    base: u64,
    targets: Seq<u64>,
    n: nat,
    misses: Seq<NearMissView>,
    miss: NearMissView,
)
    requires
        n <= targets.len(),
        r.search(base, targets, n) == Ok::<SearchView, Missing>(SearchView::NotFound(misses)),
        misses.contains(miss),
    ensures
        miss.stride_results.len() == 2,
{
    lemma_near_misses_are_noted(r, base, targets, n, misses, 0, miss);
    let k = choose|k: int|
        0 <= k < n && r.verdict(base, #[trigger] targets[k]) == Ok::<ValidationView, Missing>(
            ValidationView::NearMiss(miss),
        );
    let addr = targets[k];
    reveal(Remote::verdict);
    lemma_misses_have_both(r, base, addr, addr, 0);
    lemma_misses_have_both(r, base, (addr + 0x10) as u64, addr, 0x10);
}

/// Near misses are noted in the order of their scores, each first chunk once.
pub proof fn lemma_near_misses_by_score(
    r: Remote,
    base: u64,
    targets: Seq<u64>,
    n: nat,
    misses: Seq<NearMissView>,
    i: int,
    j: int,
)
    requires
        n <= targets.len(),
        r.search(base, targets, n) == Ok::<SearchView, Missing>(SearchView::NotFound(misses)),
        0 <= i < j < misses.len(),
    ensures
        !scores_more(misses[j], misses[i]),
        misses[i].chunk0 != misses[j].chunk0,
{
    crate::scanner::gobjects::lemma_misses_are_ranked(r, base, targets, n);
    assert(misses.contains(misses[i]) && misses.contains(misses[j]));
    lemma_noted_have_both(r, base, targets, n, misses, misses[i]);
    lemma_noted_have_both(r, base, targets, n, misses, misses[j]);
    lemma_score(misses[i]);
    lemma_score(misses[j]);
}

/// A near miss is noted behind all that score as much or more, and in front of those that
/// score less; one whose first chunk is already noted is not noted again.
pub proof fn lemma_where_a_near_miss_is_noted(list: Seq<NearMissView>, miss: NearMissView) -> (p:
    int)
    requires
        miss.stride_results.len() == 2,
        forall|i: int| 0 <= i < list.len() ==> (#[trigger] list[i]).stride_results.len() == 2,
    ensures
        (exists|i: int| 0 <= i < list.len() && (#[trigger] list[i]).chunk0 == miss.chunk0)
            ==> crate::scanner::gobjects::noted(list, miss) == list,
        (forall|i: int| 0 <= i < list.len() ==> (#[trigger] list[i]).chunk0 != miss.chunk0)
            ==> crate::scanner::gobjects::noted(list, miss) == list.take(p).push(miss) + list.skip(
            p,
        ),
        0 <= p <= list.len(),
        p > 0 ==> !scores_more(miss, list[p - 1]),
        forall|i: int| p <= i < list.len() ==> scores_more(miss, #[trigger] list[i]),
{
    lemma_ranked_at(list, miss)
}

proof fn lemma_ranked_at(list: Seq<NearMissView>, miss: NearMissView) -> (p: int)
    requires
        miss.stride_results.len() == 2,
        forall|i: int| 0 <= i < list.len() ==> (#[trigger] list[i]).stride_results.len() == 2,
    ensures
        crate::scanner::gobjects::ranked(list, miss) == list.take(p).push(miss) + list.skip(p),
        0 <= p <= list.len(),
        p > 0 ==> !scores_more(miss, list[p - 1]),
        forall|i: int| p <= i < list.len() ==> scores_more(miss, #[trigger] list[i]),
    decreases list.len(),
{
    lemma_score(miss);
    if list.len() > 0 {
        assert(list[list.len() - 1].stride_results.len() == 2);
        lemma_score(list.last());
    }
    if list.len() > 0 && scores_more(miss, list.last()) {
        let front = list.drop_last();
        assert forall|i: int| 0 <= i < front.len() implies (#[trigger] front[i]).stride_results.len()
            == 2 by {
            assert(front[i] == list[i]);
        }
        let p = lemma_ranked_at(front, miss);
        assert((front.take(p).push(miss) + front.skip(p)).push(list.last()) =~= list.take(p).push(
            miss,
        ) + list.skip(p));
        if p > 0 {
            assert(front[p - 1] == list[p - 1]);
        }
        assert forall|i: int| p <= i < list.len() implies scores_more(miss, #[trigger] list[i]) by {
            if i < front.len() {
                assert(front[i] == list[i]);
            }
        }
        p
    } else {
        let p = list.len() as int;
        assert(list.take(p).push(miss) + list.skip(p) =~= list.push(miss));
        p
    }
}

/// Ten near misses are shown at most: the first ones.
pub proof fn lemma_ten_misses_are_shown(misses: Seq<NearMissView>)
    ensures
        ({
            let shown = crate::scanner::gobjects::best_misses(misses);
            &&& shown.len() == (if misses.len() < 10 {
                misses.len() as int
            } else {
                10
            })
            &&& forall|k: int| 0 <= k < shown.len() ==> #[trigger] shown[k] == misses[k]
        }),
{
}

} // verus!
