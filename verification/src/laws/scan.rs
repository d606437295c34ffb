//! The scan: which instructions name the globals, and what tells a global from anything
//! else.

use crate::mem::{Memory, Missing, Outcome};
use crate::scanner::gobjects::SearchView;
use crate::scanner::{EngineLayout, FailureView, ScanResults};
use crate::ue::fname::{Candidate, NameFormat, Names, Remote};
use vstd::prelude::*;

verus! {

// ── Instructions ────────────────────────────────────────────────────

/// The code at `start` holds at `at` an instruction of seven bytes that starts with these
/// three, and whose displacement, counted from its end, leads to `target`.
pub open spec fn names_target(
    m: Memory,
    start: u64,
    size: u64,
    at: int,
    bytes: (u8, u8, u8),
    target: u64,
) -> bool {
    &&& start + size <= 0x1_0000_0000_0000_0000
    &&& size <= usize::MAX
    &&& 0 <= at
    &&& at + 7 <= size
    &&& m.fetch(start, size as usize) matches Ok(Some(code))
    &&& code[at] == bytes.0
    &&& code[at + 1] == bytes.1
    &&& code[at + 2] == bytes.2
    &&& m.value::<i32>((start + at + 3) as u64) matches Ok(Some(disp))
    &&& target == start + at + 7 + disp
    &&& 0 < target <= 0xFFFF_FFFF_FFFF
}

/// What an instruction names is where its displacement leads from its end: the place of
/// the instruction, plus its length, plus the signed number that stands `off` behind its
/// start; that is nothing where it is no address in user space.
pub proof fn lemma_displacement_counts_from_its_end(
    m: Memory,
    addr: u64,
    len: u64,
    off: u64,
    disp: i32,
)
    requires
        m.holds::<i32>(addr.wrapping_add(off), disp),
        0 <= addr + len + disp < 0x1_0000_0000_0000_0000,
    ensures
        m.rip_target(addr, len, off) == Ok::<Option<u64>, Missing>(
            if 1 <= addr + len + disp <= 0xFFFF_FFFF_FFFF {
                Some((addr + len + disp) as u64)
            } else {
                None
            },
        ),
{
}

/// For an instruction of seven bytes with the displacement in its last four.
pub proof fn lemma_displacement_counts_from_the_end(m: Memory, addr: u64, disp: i32)
    requires
        addr <= 0xFFFF_FFFF_FFFF_FFF0,
        m.holds::<i32>((addr + 3) as u64, disp),
    ensures
        0 < addr + 7 + disp <= 0xFFFF_FFFF_FFFF ==> m.rip_target(addr, 7, 3) == Ok::<
            Option<u64>,
            Missing,
        >(Some((addr + 7 + disp) as u64)),
        addr + 7 + disp <= 0 || 0xFFFF_FFFF_FFFF < addr + 7 + disp < 0x1_0000_0000_0000_0000
            ==> m.rip_target(addr, 7, 3) == Ok::<Option<u64>, Missing>(None),
{
    let sum = addr + 7 + disp;
    if sum < 0 {
        assert(sum % 0x1_0000_0000_0000_0000 == sum + 0x1_0000_0000_0000_0000);
    }
}

/// An instruction that one of the patterns is for is among the targets.
proof fn lemma_named_is_target(
    m: Memory,
    start: u64,
    size: u64,
    at: int,
    bytes: (u8, u8, u8),
    target: u64,
    patterns: Seq<Seq<Option<u8>>>,
    k: int,
)
    requires
        names_target(m, start, size, at, bytes, target),
        0 <= k < patterns.len(),
        patterns[k] =~= seq![Some(bytes.0), Some(bytes.1), Some(bytes.2), None, None, None, None],
        m.rip_targets(start, size, patterns, patterns.len()) is Ok,
    ensures
        m.rip_targets(start, size, patterns, patterns.len())->Ok_0.contains(target),
{
    let code = m.fetch(start, size as usize)->Ok_0->0;
    assert(crate::scanner::pattern::matches_at(code, patterns[k], at));
    lemma_displacement_counts_from_the_end(
        m,
        (start + at) as u64,
        m.value::<i32>((start + at + 3) as u64)->Ok_0->0,
    );
    crate::scanner::pattern::lemma_match_is_target(
        m,
        start,
        size,
        patterns,
        patterns.len(),
        k,
        at,
        target,
    );
}

/// The place number `i` of the targets: the pattern that it comes from, and the address of
/// the instruction.
pub open spec fn comes_from(
    m: Memory,
    start: u64,
    size: u64,
    patterns: Seq<Seq<Option<u8>>>,
    place: (int, u64),
    target: u64,
) -> bool {
    &&& 0 <= place.0 < patterns.len()
    &&& m.pattern_matches(start, size, patterns[place.0]) matches Ok(found) && found.contains(
        place.1,
    )
    &&& m.rip_target(place.1, 7, 3) == Ok::<Option<u64>, Missing>(Some(target))
}

/// A place comes before another one: by its pattern first, and by its address second.
pub open spec fn comes_first(a: (int, u64), b: (int, u64)) -> bool {
    a.0 < b.0 || a.0 == b.0 && a.1 <= b.1
}

/// The targets stand in the order of the patterns, and for each pattern in the order of the
/// instructions.
pub proof fn lemma_targets_in_order(
    m: Memory,
    start: u64,
    size: u64,
    patterns: Seq<Seq<Option<u8>>>,
    n: nat,
) -> (places: Seq<(int, u64)>)
    requires
        start + size <= 0x1_0000_0000_0000_0000,
        n <= patterns.len(),
        m.rip_targets(start, size, patterns, n) is Ok,
    ensures
        ({
            let targets = m.rip_targets(start, size, patterns, n)->Ok_0;
            &&& places.len() == targets.len()
            &&& forall|i: int|
                0 <= i < places.len() ==> comes_from(
                    m,
                    start,
                    size,
                    patterns,
                    #[trigger] places[i],
                    targets[i],
                ) && places[i].0 < n
            &&& forall|i: int, j: int|
                0 <= i < j < places.len() ==> comes_first(#[trigger] places[i], #[trigger] places[j])
            &&& forall|place: (int, u64), target: u64|
                place.0 < n && #[trigger] comes_from(m, start, size, patterns, place, target)
                    ==> places.contains(place)
        }),
    decreases n,
{
    if n == 0 {
        seq![]
    } else {
        let k = n - 1;
        let before = lemma_targets_in_order(m, start, size, patterns, k as nat);
        let head = m.rip_targets(start, size, patterns, k as nat)->Ok_0;
        let ms = m.pattern_matches(start, size, patterns[k])->Ok_0;
        let step = m.rip_items(ms);
        let from = crate::laws::lemma_walk_picks(step, ms.len() as int);
        let more = m.pattern_targets(start, size, patterns[k])->Ok_0;
        let targets = m.rip_targets(start, size, patterns, n)->Ok_0;
        assert(targets == head + more);
        let new = Seq::new(from.len(), |i: int| (k, ms[from[i]]));
        let places = before + new;
        crate::scanner::pattern::lemma_scan_ascends(m, start, size, patterns[k]);
        assert forall|i: int| 0 <= i < places.len() implies comes_from(
            m,
            start,
            size,
            patterns,
            #[trigger] places[i],
            targets[i],
        ) && places[i].0 < n by {
            if i < before.len() {
                assert(places[i] == before[i]);
                assert(targets[i] == head[i]);
            } else {
                let j = i - before.len();
                assert(places[i] == new[j]);
                assert(targets[i] == more[j]);
                assert(step(from[j]) == Ok::<Option<u64>, Missing>(Some(more[j])));
                assert(ms.contains(ms[from[j]]));
            }
        }
        assert forall|i: int, j: int| 0 <= i < j < places.len() implies comes_first(
            #[trigger] places[i],
            #[trigger] places[j],
        ) by {
            if j < before.len() {
                assert(places[i] == before[i] && places[j] == before[j]);
            } else if i < before.len() {
                assert(places[i] == before[i]);
                assert(places[j] == new[j - before.len()]);
            } else {
                let (x, y) = (i - before.len(), j - before.len());
                assert(places[i] == new[x] && places[j] == new[y]);
                assert(from[x] < from[y]);
                assert(ms[from[x]] <= ms[from[y]]);
            }
        }
        assert forall|place: (int, u64), target: u64|
            place.0 < n && #[trigger] comes_from(m, start, size, patterns, place, target) implies places.contains(
            place,
        ) by {
            if place.0 < k {
                assert(before.contains(place));
                let i = before.index_of(place);
                assert(places[i] == place);
            } else {
                let at = ms.index_of(place.1);
                assert(step(at) == Ok::<Option<u64>, Missing>(Some(target)));
                assert(from.contains(at));
                let j = from.index_of(at);
                assert(new[j] == place);
                assert(places[before.len() + j] == place);
            }
        }
        places
    }
}

/// Where a target comes from there is an instruction that names it, in code that can be
/// read and stands in user space.
pub proof fn lemma_place_names_target(
    m: Memory,
    start: u64,
    size: u64,
    patterns: Seq<Seq<Option<u8>>>,
    place: (int, u64),
    bytes: (u8, u8, u8),
    target: u64,
)
    requires
        start + size <= 0x1_0000_0000_0000,
        size <= usize::MAX,
        m.fetch(start, size as usize) matches Ok(Some(_)),
        comes_from(m, start, size, patterns, place, target),
        patterns[place.0] =~= seq![
            Some(bytes.0),
            Some(bytes.1),
            Some(bytes.2),
            None,
            None,
            None,
            None,
        ],
    ensures
        start <= place.1,
        names_target(m, start, size, place.1 - start, bytes, target),
{
    let pattern = patterns[place.0];
    let code = m.fetch(start, size as usize)->Ok_0->0;
    lemma_pattern_is_found_where_it_stands(m, start, size, pattern, place.1);
    let at = place.1 - start;
    assert(pattern[0] == Some(bytes.0) && pattern[1] == Some(bytes.1) && pattern[2] == Some(
        bytes.2,
    ));
    assert(code[at + 0] == bytes.0);
    let disp = m.value::<i32>((start + at + 3) as u64)->Ok_0->0;
    assert(place.1.wrapping_add(3) == (start + at + 3) as u64);
    lemma_displacement_counts_from_the_end(m, place.1, disp);
}

/// An instruction that one of the patterns is for is where a target comes from.
pub proof fn lemma_named_comes_from(
    m: Memory,
    start: u64,
    size: u64,
    patterns: Seq<Seq<Option<u8>>>,
    k: int,
    at: int,
    bytes: (u8, u8, u8),
    target: u64,
)
    requires
        names_target(m, start, size, at, bytes, target),
        0 <= k < patterns.len(),
        patterns[k] =~= seq![Some(bytes.0), Some(bytes.1), Some(bytes.2), None, None, None, None],
    ensures
        comes_from(m, start, size, patterns, (k, (start + at) as u64), target),
{
    let code = m.fetch(start, size as usize)->Ok_0->0;
    let pattern = patterns[k];
    let a = (start + at) as u64;
    lemma_pattern_is_found_where_it_stands(m, start, size, pattern, a);
    assert forall|j: int| 0 <= j < pattern.len() implies (#[trigger] pattern[j] matches Some(b)
        ==> b == code[a - start + j]) by {
        if j < 3 {
            assert(code[at + 0] == bytes.0);
        }
    }
    lemma_displacement_counts_from_the_end(
        m,
        a,
        m.value::<i32>((start + at + 3) as u64)->Ok_0->0,
    );
}

/// What a search finds is the first target that passes.
proof fn lemma_first_hit_is_first(
    check: spec_fn(u64) -> Outcome<bool>,
    targets: Seq<u64>,
    n: nat,
) -> (j: int)
    requires
        n <= targets.len(),
        crate::scanner::first_hit(check, targets, n) matches Ok(Some(_)),
    ensures
        0 <= j < n,
        crate::scanner::first_hit(check, targets, n) == Ok::<Option<u64>, Missing>(
            Some(targets[j]),
        ),
        check(targets[j]) == Ok::<bool, Missing>(true),
        forall|i: int| 0 <= i < j ==> check(#[trigger] targets[i]) == Ok::<bool, Missing>(false),
    decreases n,
{
    if let Ok(None) = crate::scanner::first_hit(check, targets, (n - 1) as nat) {
        lemma_no_hit_means_none(check, targets, (n - 1) as nat);
        n - 1
    } else {
        lemma_first_hit_is_first(check, targets, (n - 1) as nat)
    }
}

/// A search that finds nothing has no target that passes.
proof fn lemma_no_hit_means_none(check: spec_fn(u64) -> Outcome<bool>, targets: Seq<u64>, n: nat)
    requires
        n <= targets.len(),
        crate::scanner::first_hit(check, targets, n) == Ok::<Option<u64>, Missing>(None),
    ensures
        forall|i: int|
            0 <= i < n ==> check(#[trigger] targets[i]) == Ok::<bool, Missing>(false),
    decreases n,
{
    if n > 0 {
        lemma_no_hit_means_none(check, targets, (n - 1) as nat);
    }
}

/// What a search finds is a target that passes.
proof fn lemma_hit_is_target(check: spec_fn(u64) -> Outcome<bool>, targets: Seq<u64>, n: nat)
    requires
        n <= targets.len(),
    ensures
        crate::scanner::first_hit(check, targets, n) matches Ok(Some(hit)) ==> targets.contains(hit)
            && check(hit) == Ok::<bool, Missing>(true),
    decreases n,
{
    if n > 0 {
        lemma_hit_is_target(check, targets, (n - 1) as nat);
    }
}

// ── Patterns ────────────────────────────────────────────────────────

/// A scan of code that can be read finds a pattern exactly where its bytes stand; `None`
/// stands for any byte.
pub proof fn lemma_pattern_is_found_where_it_stands(
    m: Memory,
    start: u64,
    size: u64,
    pattern: Seq<Option<u8>>,
    a: u64,
)
    requires
        0 < pattern.len() < 0x40_0000,
        start + size <= 0x1_0000_0000_0000_0000,
        size <= usize::MAX,
        m.fetch(start, size as usize) matches Ok(Some(_)),
    ensures
        m.pattern_matches(start, size, pattern) matches Ok(found) && (found.contains(a) <==> {
            &&& start <= a
            &&& a + pattern.len() <= start + size
            &&& forall|j: int|
                0 <= j < pattern.len() ==> (#[trigger] pattern[j] matches Some(b) ==> b == m.fetch(
                    start,
                    size as usize,
                )->Ok_0->0[a - start + j])
        }),
{
    let code = m.fetch(start, size as usize)->Ok_0->0;
    assert(code.len() == size);
    let here = {
        &&& start <= a
        &&& a + pattern.len() <= start + size
        &&& forall|j: int|
            0 <= j < pattern.len() ==> (#[trigger] pattern[j] matches Some(b) ==> b == code[a - start
                + j])
    };
    if size >= pattern.len() {
        crate::scanner::pattern::lemma_readable_is_answered(m, start, size, pattern, 0);
    }
    let found = m.pattern_matches(start, size, pattern)->Ok_0;
    if here {
        assert(crate::scanner::pattern::matches_at(code, pattern, a - start)) by {
            assert forall|j: int| 0 <= j < pattern.len() && (#[trigger] pattern[j]) is Some implies code[(
            a - start) + j] == pattern[j]->0 by {}
        }
        crate::scanner::pattern::lemma_scan_is_complete(m, start, size, pattern, a - start);
    }
    if found.contains(a) {
        let at = found.index_of(a);
        crate::scanner::pattern::lemma_scan_is_sound(m, start, size, pattern, at);
        let bytes = m.fetch(a, pattern.len() as usize)->Ok_0->0;
        assert forall|j: int| 0 <= j < pattern.len() && (#[trigger] pattern[j]) is Some implies pattern[j]->0
            == code[a - start + j] by {
            assert(bytes[0 + j] == pattern[j]->0);
            assert(bytes[j] == m.byte_at(a + j)->0);
            assert(code[a - start + j] == m.byte_at(start + (a - start + j))->0);
        }
    }
}

/// Code that cannot all be read is still scanned: the region is read in parts of 0x400000
/// bytes, each of which overlaps the one in front by the length of the pattern, and in a
/// part that can be read a pattern is found wherever it stands, whatever can be read of the
/// others.
pub proof fn lemma_readable_part_is_scanned(
    m: Memory,
    start: u64,
    size: u64,
    pattern: Seq<Option<u8>>,
    part: int,
    data: Seq<u8>,
    at: int,
)
    requires
        0 < pattern.len() < 0x40_0000,
        start + size <= 0x1_0000_0000_0000_0000,
        0 <= part,
        ({
            let off = part * (0x40_0000 - pattern.len());
            &&& off < size
            &&& data.len() == (if size - off < 0x40_0000 {
                size - off
            } else {
                0x40_0000
            })
            &&& m.shows((start + off) as u64, data)
        }),
        0 <= at,
        at + pattern.len() <= data.len(),
        forall|j: int|
            0 <= j < pattern.len() ==> (#[trigger] pattern[j] matches Some(b) ==> b == data[at + j]),
        m.pattern_matches(start, size, pattern) is Ok,
    ensures
        m.pattern_matches(start, size, pattern)->Ok_0.contains(
            (start + part * (0x40_0000 - pattern.len()) + at) as u64,
        ),
{
    assert(0 <= part * (0x40_0000 - pattern.len())) by (nonlinear_arith)
        requires
            0 <= part,
            0 < 0x40_0000 - pattern.len(),
    ;
    assert(crate::scanner::pattern::matches_at(data, pattern, at)) by {
        assert forall|j: int| 0 <= j < pattern.len() && (#[trigger] pattern[j]) is Some implies data[at
            + j] == pattern[j]->0 by {}
    }
    lemma_part_from(m, start, size, pattern, 0, part, data, at);
}

proof fn lemma_part_from(
    m: Memory,
    start: u64,
    size: u64,
    pattern: Seq<Option<u8>>,
    i: int,
    part: int,
    data: Seq<u8>,
    at: int,
)
    requires
        0 < pattern.len() < 0x40_0000,
        start + size <= 0x1_0000_0000_0000_0000,
        0 <= i <= part,
        ({
            let off = part * (0x40_0000 - pattern.len());
            &&& 0 <= off < size
            &&& data.len() == crate::scanner::pattern::chunk_len(size, off)
            &&& m.shows((start + off) as u64, data)
        }),
        crate::scanner::pattern::matches_at(data, pattern, at),
        m.matches_from(start, size, pattern, i * (0x40_0000 - pattern.len())) is Ok,
    ensures
        m.matches_from(start, size, pattern, i * (0x40_0000 - pattern.len()))->Ok_0.contains(
            (start + part * (0x40_0000 - pattern.len()) + at) as u64,
        ),
    decreases part - i,
{
    let step = 0x40_0000 - pattern.len();
    let off = i * step;
    let goal = (start + part * step + at) as u64;
    assert((i + 1) * step == off + step) by (nonlinear_arith)
        requires
            off == i * step,
    ;
    assert(0 <= off <= part * step) by (nonlinear_arith)
        requires
            0 <= i <= part,
            off == i * step,
            0 < step,
    ;
    let all = m.matches_from(start, size, pattern, off)->Ok_0;
    let addr = start.wrapping_add(off as u64);
    if i == part {
        let here = crate::scanner::pattern::hits(addr, data, pattern, data.len());
        crate::scanner::pattern::lemma_match_is_hit(addr, data, pattern, data.len(), at);
        assert(addr.wrapping_add(at as u64) == goal);
        assert(all[here.index_of(goal)] == goal);
    } else {
        lemma_part_from(m, start, size, pattern, i + 1, part, data, at);
        let rest = m.matches_from(start, size, pattern, off + step)->Ok_0;
        let front = all.len() - rest.len();
        assert(all[front + rest.index_of(goal)] == rest[rest.index_of(goal)]);
    }
}

/// An empty pattern stands nowhere, nor does one that is longer than the region.
pub proof fn lemma_no_room_for_pattern(
    m: Memory,
    start: u64,
    size: u64,
    pattern: Seq<Option<u8>>,
)
    requires
        pattern.len() == 0 || size < pattern.len(),
    ensures
        m.pattern_matches(start, size, pattern) == Ok::<Seq<u64>, Missing>(seq![]),
{
}

/// What is reported for a pattern stands there, in the region, whatever can be read of the
/// rest of it.
pub proof fn lemma_reported_pattern_stands_there(
    m: Memory,
    start: u64,
    size: u64,
    pattern: Seq<Option<u8>>,
    a: u64,
)
    requires
        start + size <= 0x1_0000_0000_0000_0000,
        pattern.len() < 0x40_0000,
        m.pattern_matches(start, size, pattern) matches Ok(found) && found.contains(a),
    ensures
        start <= a,
        a + pattern.len() <= start + size,
        m.fetch(a, pattern.len() as usize) matches Ok(Some(bytes)) && forall|j: int|
            0 <= j < pattern.len() ==> (#[trigger] pattern[j] matches Some(b) ==> b == bytes[j]),
{
    let found = m.pattern_matches(start, size, pattern)->Ok_0;
    let at = found.index_of(a);
    crate::scanner::pattern::lemma_scan_is_sound(m, start, size, pattern, at);
    let bytes = m.fetch(a, pattern.len() as usize)->Ok_0->0;
    assert forall|j: int| 0 <= j < pattern.len() && (#[trigger] pattern[j]) is Some implies pattern[j]->0
        == bytes[j] by {
        assert(bytes[0 + j] == pattern[j]->0);
    }
}

// ── GWorld ──────────────────────────────────────────────────────────

/// A pointer to an object whose class is named "World" stands at `addr`.
pub open spec fn world_stands_at(r: Remote, addr: u64, world: u64, class: u64, idx: u32) -> bool {
    &&& r.mem.holds::<u64>(addr, world)
    &&& crate::laws::in_range(world)
    &&& world + 0x10 <= 0xFFFF_FFFF_FFFF
    &&& r.mem.holds::<u64>((world + 0x10) as u64, class)
    &&& crate::laws::in_range(class)
    &&& class + 0x18 <= 0xFFFF_FFFF_FFFF
    &&& r.mem.holds::<u32>((class + 0x18) as u64, idx)
    &&& r.names.name(idx, 0) == Ok::<Option<Seq<char>>, Missing>(Some("World"@))
}

/// Where the code stores rax (48 89 05) or rdi (48 89 3D) to a place that points to an
/// object of a class named "World", GWorld is found.
pub proof fn lemma_stored_world_is_found(
    r: Remote,
    start: u64,
    size: u64,
    at: int,
    modrm: u8,
    target: u64,
    world: u64,
    class: u64,
    idx: u32,
)
    requires
        modrm == 0x05 || modrm == 0x3D,
        names_target(r.mem, start, size, at, (0x48, 0x89, modrm), target),
        world_stands_at(r, target, world, class, idx),
        r.gworld(start, size) is Ok,
    ensures
        r.gworld(start, size)->Ok_0 is Some,
{
    let patterns = crate::scanner::gworld_patterns();
    let k: int = if modrm == 0x05 {
        0
    } else {
        1
    };
    lemma_named_is_target(
        r.mem,
        start,
        size,
        at,
        (0x48, 0x89, modrm),
        target,
        patterns,
        k,
    );
    let targets = r.mem.rip_targets(start, size, patterns, 2)->Ok_0;
    assert(r.is_gworld(target) == Ok::<bool, Missing>(true));
    if r.gworld(start, size)->Ok_0 is None {
        lemma_no_hit_means_none(r.gworld_check(), targets, targets.len());
        let i = targets.index_of(target);
        assert((r.gworld_check())(targets[i]) == Ok::<bool, Missing>(false));
    }
}

/// What is found as GWorld points to an object of a class named "World".
pub proof fn lemma_found_world_is_a_world(r: Remote, start: u64, size: u64, found: u64)
    requires
        r.gworld(start, size) == Ok::<Option<u64>, Missing>(Some(found)),
    ensures
        exists|world: u64, class: u64, idx: u32| #[trigger]
            world_stands_at(r, found, world, class, idx),
{
    let targets = r.mem.rip_targets(start, size, crate::scanner::gworld_patterns(), 2)->Ok_0;
    lemma_hit_is_target(r.gworld_check(), targets, targets.len());
    assert(r.is_gworld(found) == Ok::<bool, Missing>(true));
    let world = r.mem.value::<u64>(found)->Ok_0->0;
    let class = r.mem.value::<u64>((world + 0x10) as u64)->Ok_0->0;
    let idx = r.mem.value::<u32>((class + 0x18) as u64)->Ok_0->0;
    assert(world_stands_at(r, found, world, class, idx));
}

/// What is found as GWorld is what an instruction that stores rax or rdi names, and the
/// first of them in order: those that store rax come first, and the lower addresses.
pub proof fn lemma_first_stored_world_is_found(r: Remote, start: u64, size: u64, found: u64) -> (q: (
    int,
    u8,
))
    requires
        start + size <= 0x1_0000_0000_0000,
        size <= usize::MAX,
        r.mem.fetch(start, size as usize) matches Ok(Some(_)),
        r.gworld(start, size) == Ok::<Option<u64>, Missing>(Some(found)),
    ensures
        q.1 == 0x05 || q.1 == 0x3D,
        names_target(r.mem, start, size, q.0, (0x48, 0x89, q.1), found),
        forall|at: int, modrm: u8, target: u64, world: u64, class: u64, idx: u32|
            (modrm == 0x05 || modrm == 0x3D) && #[trigger] names_target(
                r.mem,
                start,
                size,
                at,
                (0x48, 0x89, modrm),
                target,
            ) && #[trigger] world_stands_at(r, target, world, class, idx) ==> (q.1 == 0x05 && modrm
                == 0x3D) || (q.1 == modrm && q.0 <= at),
{
    let patterns = crate::scanner::gworld_patterns();
    let targets = r.mem.rip_targets(start, size, patterns, 2)->Ok_0;
    let check = r.gworld_check();
    let j = lemma_first_hit_is_first(check, targets, targets.len());
    let places = lemma_targets_in_order(r.mem, start, size, patterns, 2);
    let place = places[j];
    let modrm: u8 = if place.0 == 0 {
        0x05
    } else {
        0x3D
    };
    assert(comes_from(r.mem, start, size, patterns, place, found));
    lemma_place_names_target(r.mem, start, size, patterns, place, (0x48, 0x89, modrm), found);
    let q = (place.1 - start, modrm);
    assert forall|at: int, modrm: u8, target: u64, world: u64, class: u64, idx: u32|
        (modrm == 0x05 || modrm == 0x3D) && #[trigger] names_target(
            r.mem,
            start,
            size,
            at,
            (0x48, 0x89, modrm),
            target,
        ) && #[trigger] world_stands_at(r, target, world, class, idx) implies (q.1 == 0x05 && modrm
        == 0x3D) || (q.1 == modrm && q.0 <= at) by {
        let k: int = if modrm == 0x05 {
            0
        } else {
            1
        };
        lemma_named_comes_from(
            r.mem,
            start,
            size,
            patterns,
            k,
            at,
            (0x48, 0x89, modrm),
            target,
        );
        let other = (k, (start + at) as u64);
        assert(places.contains(other));
        let i = places.index_of(other);
        assert(comes_from(r.mem, start, size, patterns, places[i], targets[i]));
        assert(targets[i] == target);
        assert(r.is_gworld(target) == Ok::<bool, Missing>(true));
        if i < j {
            assert(check(targets[i]) == Ok::<bool, Missing>(false));
        }
        if j < i {
            assert(comes_first(places[j], places[i]));
        }
    }
    q
}

// ── GNames ──────────────────────────────────────────────────────────

/// An allocator whose first block starts with the name "None" stands at `addr`.
pub open spec fn allocator_stands_at(m: Memory, addr: u64, block0: u64, data: Seq<u8>) -> bool {
    &&& addr + 0x10 <= 0xFFFF_FFFF_FFFF
    &&& m.holds::<u64>((addr + 0x10) as u64, block0)
    &&& crate::laws::in_range(block0)
    &&& data.len() == 16
    &&& m.shows(block0, data)
    &&& crate::laws::names::shipping_none(data) || crate::laws::names::case_preserving_none(data)
}

/// Where the code loads the address of an allocator into rcx (48 8D 0D), GNames is found.
pub proof fn lemma_named_allocator_is_found(
    m: Memory,
    start: u64,
    size: u64,
    at: int,
    target: u64,
    block0: u64,
    data: Seq<u8>,
)
    requires
        names_target(m, start, size, at, (0x48, 0x8D, 0x0D), target),
        allocator_stands_at(m, target, block0, data),
        m.gnames(start, size) is Ok,
    ensures
        m.gnames(start, size)->Ok_0 is Some,
{
    let patterns = crate::scanner::gnames_patterns();
    lemma_named_is_target(m, start, size, at, (0x48, 0x8D, 0x0D), target, patterns, 0);
    let targets = m.rip_targets(start, size, patterns, 1)->Ok_0;
    crate::laws::names::lemma_none_spelled_out(data);
    assert(m.is_gnames(target) == Ok::<bool, Missing>(true));
    if m.gnames(start, size)->Ok_0 is None {
        lemma_no_hit_means_none(m.gnames_check(), targets, targets.len());
        let i = targets.index_of(target);
        assert((m.gnames_check())(targets[i]) == Ok::<bool, Missing>(false));
    }
}

/// What is found as GNames is an allocator whose first block starts with "None".
pub proof fn lemma_found_names_are_names(m: Memory, start: u64, size: u64, found: u64)
    requires
        m.gnames(start, size) == Ok::<Option<u64>, Missing>(Some(found)),
    ensures
        exists|block0: u64, data: Seq<u8>| #[trigger] allocator_stands_at(m, found, block0, data),
{
    let targets = m.rip_targets(start, size, crate::scanner::gnames_patterns(), 1)->Ok_0;
    lemma_hit_is_target(m.gnames_check(), targets, targets.len());
    assert(m.is_gnames(found) == Ok::<bool, Missing>(true));
    let block0 = m.value::<u64>((found + 0x10) as u64)->Ok_0->0;
    let data = m.fetch(block0, 16)->Ok_0->0;
    assert(data.len() == 16);
    crate::laws::names::lemma_none_spelled_out(data);
    assert(allocator_stands_at(m, found, block0, data));
}

/// What is found as GNames is what an instruction that loads rcx names, and the first of
/// them in the order of their addresses.
pub proof fn lemma_first_named_allocator_is_found(m: Memory, start: u64, size: u64, found: u64) -> (q:
    int)
    requires
        start + size <= 0x1_0000_0000_0000,
        size <= usize::MAX,
        m.fetch(start, size as usize) matches Ok(Some(_)),
        m.gnames(start, size) == Ok::<Option<u64>, Missing>(Some(found)),
    ensures
        names_target(m, start, size, q, (0x48, 0x8D, 0x0D), found),
        forall|at: int, target: u64, block0: u64, data: Seq<u8>| #[trigger]
            names_target(m, start, size, at, (0x48, 0x8D, 0x0D), target)
                && #[trigger] allocator_stands_at(m, target, block0, data) ==> q <= at,
{
    let patterns = crate::scanner::gnames_patterns();
    let targets = m.rip_targets(start, size, patterns, 1)->Ok_0;
    let check = m.gnames_check();
    let j = lemma_first_hit_is_first(check, targets, targets.len());
    let places = lemma_targets_in_order(m, start, size, patterns, 1);
    let place = places[j];
    assert(comes_from(m, start, size, patterns, place, found));
    lemma_place_names_target(m, start, size, patterns, place, (0x48, 0x8D, 0x0D), found);
    let q = place.1 - start;
    assert forall|at: int, target: u64, block0: u64, data: Seq<u8>| #[trigger]
        names_target(m, start, size, at, (0x48, 0x8D, 0x0D), target)
            && #[trigger] allocator_stands_at(m, target, block0, data) implies q <= at by {
        lemma_named_comes_from(m, start, size, patterns, 0, at, (0x48, 0x8D, 0x0D), target);
        let other = (0int, (start + at) as u64);
        assert(places.contains(other));
        let i = places.index_of(other);
        assert(comes_from(m, start, size, patterns, places[i], targets[i]));
        assert(targets[i] == target);
        crate::laws::names::lemma_none_spelled_out(data);
        assert(m.is_gnames(target) == Ok::<bool, Missing>(true));
        if i < j {
            assert(check(targets[i]) == Ok::<bool, Missing>(false));
        }
        if j < i {
            assert(comes_first(places[j], places[i]));
        }
    }
    q
}

// ── The whole scan ──────────────────────────────────────────────────

/// What the whole scan needs, in turn: code, GNames, a name pool there whose index 0 is
/// "None", the object array, and GWorld; it fails with the first that is not there, and
/// gives what was found where all are.
pub proof fn lemma_scan_takes_its_steps(
    m: Memory,
    base: u64,
    code: (u64, u64),
    gnames: u64,
    pool: (Candidate, NameFormat, Seq<u64>),
    first: Option<Seq<char>>,
    objects: SearchView,
    gworld: Option<u64>,
)
    requires
        m.text_section(base) == Ok::<Option<(u64, u64)>, Missing>(Some(code)),
        m.gnames(code.0, code.1) == Ok::<Option<u64>, Missing>(Some(gnames)),
        m.pool(gnames) == Ok::<Option<(Candidate, NameFormat, Seq<u64>)>, Missing>(Some(pool)),
        ({
            let names = Names::of(m, pool.2, pool.1);
            let r = Remote { mem: m, names };
            &&& names.name(0, 0) == Ok::<Option<Seq<char>>, Missing>(first)
            &&& r.gobjects(base, code.0, code.1) == Ok::<SearchView, Missing>(objects)
            &&& r.gworld(code.0, code.1) == Ok::<Option<u64>, Missing>(gworld)
        }),
    ensures
        m.scan(base) == Ok::<Result<ScanResults, FailureView>, Missing>(
            if first != Some("None"@) {
                Err(FailureView::BadNamePool)
            } else {
                match objects {
                    SearchView::NotFound(misses) => Err(FailureView::NoGObjects(misses)),
                    SearchView::Found { addr, stride } => match gworld {
                        None => Err(FailureView::NoGWorld),
                        Some(gworld) => Ok(
                            (ScanResults {
                                gnames,
                                gobjects: addr,
                                gworld,
                                layout: (EngineLayout { fuobject_item_size: stride }),
                            }),
                        ),
                    },
                }
            },
        ),
{
}

/// Without code, without GNames or without a name pool there is no scan.
pub proof fn lemma_scan_stops_early(m: Memory, base: u64, code: (u64, u64), gnames: u64)
    ensures
        m.text_section(base) == Ok::<Option<(u64, u64)>, Missing>(None) ==> m.scan(base) == Ok::<
            Result<ScanResults, FailureView>,
            Missing,
        >(Err(FailureView::NoTextSection)),
        m.text_section(base) == Ok::<Option<(u64, u64)>, Missing>(Some(code)) && m.gnames(
            code.0,
            code.1,
        ) == Ok::<Option<u64>, Missing>(None) ==> m.scan(base) == Ok::<
            Result<ScanResults, FailureView>,
            Missing,
        >(Err(FailureView::NoGNames)),
        m.text_section(base) == Ok::<Option<(u64, u64)>, Missing>(Some(code)) && m.gnames(
            code.0,
            code.1,
        ) == Ok::<Option<u64>, Missing>(Some(gnames)) && m.pool(gnames) == Ok::<
            Option<(Candidate, NameFormat, Seq<u64>)>,
            Missing,
        >(None) ==> m.scan(base) == Ok::<Result<ScanResults, FailureView>, Missing>(
            Err(FailureView::NoNamePool),
        ),
{
}

/// The offsets of a scan lead from the base back to what was found.
pub proof fn lemma_offsets_lead_back(found: ScanResults, base: u64)
    ensures
        ({
            let (gnames, gobjects, gworld) = found.relative_to(base);
            &&& base.wrapping_add(gnames) == found.gnames
            &&& base.wrapping_add(gobjects) == found.gobjects
            &&& base.wrapping_add(gworld) == found.gworld
        }),
{
}

/// A pool passes if its index 0 stands for "None", and not if it stands for anything else
/// or for nothing.
pub proof fn lemma_pool_passes(names: Names, first: Option<Seq<char>>)
    requires
        names.name(0, 0) == Ok::<Option<Seq<char>>, Missing>(first),
    ensures
        names.starts_with_none() == Ok::<bool, Missing>(first == Some("None"@)),
{
}

} // verus!
