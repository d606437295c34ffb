//! Searches: which objects they find, and what static addresses and lists of offsets mean.

use crate::mem::{Memory, Missing, Outcome};
use crate::search::{HitView, StaticAddr};
use crate::ue::fname::Remote;
use crate::ue::objects::UObjectRef;
use vstd::prelude::*;

verus! {

// ── Objects by name ─────────────────────────────────────────────────

/// A text matches if one of the needles stands in it, both in lower case.
pub open spec fn matches_one(text: Seq<char>, needles: Seq<Seq<char>>) -> bool {
    exists|i: int|
        0 <= i < needles.len() && crate::laws::text::has_part(
            crate::text::lowered(text),
            crate::text::lowered(#[trigger] needles[i]),
        )
}

proof fn lemma_matches(text: Seq<char>, needles: Seq<Seq<char>>)
    ensures
        crate::search::contains_any(text, needles) == matches_one(text, needles),
{
    let low = crate::search::all_lowered(needles);
    let hay = crate::text::lowered(text);
    if crate::search::contains_any(text, needles) {
        let i = choose|i: int|
            0 <= i < low.len() && crate::text::contains_text(hay, #[trigger] low[i]);
        crate::laws::text::lemma_part_of_text(hay, low[i]);
        assert(low[i] == crate::text::lowered(needles[i]));
    }
    if matches_one(text, needles) {
        let i = choose|i: int|
            0 <= i < needles.len() && crate::laws::text::has_part(
                hay,
                crate::text::lowered(#[trigger] needles[i]),
            );
        crate::laws::text::lemma_part_of_text(hay, crate::text::lowered(needles[i]));
        assert(low[i] == crate::text::lowered(needles[i]));
    }
}

/// The full name of an object, or no text.
pub open spec fn full_text_is(r: Remote, addr: u64, text: Seq<char>) -> bool {
    ||| r.full_name(addr) == Ok::<Option<Seq<char>>, Missing>(Some(text))
    ||| r.full_name(addr) == Ok::<Option<Seq<char>>, Missing>(None) && text.len() == 0
}

/// An object is a hit exactly if its full name matches; a hit shows its address and full
/// name, and those of its class.
pub proof fn lemma_which_objects_are_hits(
    r: Remote,
    obj: UObjectRef,
    needles: Seq<Seq<char>>,
    full: Seq<char>,
    class_name: Seq<char>,
)
    requires
        full_text_is(r, obj.addr, full),
        full_text_is(r, obj.class_addr, class_name),
    ensures
        matches_one(full, needles) ==> r.hit(obj, needles) == Ok::<Option<HitView>, Missing>(
            Some((HitView { addr: obj.addr, class_addr: obj.class_addr, class_name, full })),
        ),
        !matches_one(full, needles) ==> r.hit(obj, needles) == Ok::<Option<HitView>, Missing>(None),
{
    assert(full.len() == 0 ==> full =~= seq![]);
    assert(class_name.len() == 0 ==> class_name =~= seq![]);
    lemma_matches(full, needles);
}

/// How many hits a search stops at.
pub open spec fn enough(limit: usize) -> int {
    if limit == 0 {
        1
    } else {
        limit as int
    }
}

/// A search gives the hits in the order of the objects, and stops once it has as many as
/// asked for: none that stands in front of the last of these, or anywhere if there are
/// fewer, is left out.
pub proof fn lemma_search_gives_the_first_hits(
    r: Remote,
    objects: Seq<UObjectRef>,
    needles: Seq<Seq<char>>,
    limit: usize,
    n: nat,
    list: Seq<HitView>,
) -> (from: Seq<int>)
    requires
        n <= objects.len(),
        r.hits(objects, needles, limit, n) == Ok::<Seq<HitView>, Missing>(list),
    ensures
        from.len() == list.len(),
        list.len() <= enough(limit),
        forall|k: int| 0 <= k < from.len() ==> 0 <= #[trigger] from[k] < n,
        forall|k: int, l: int| 0 <= k < l < from.len() ==> #[trigger] from[k] < #[trigger] from[l],
        forall|k: int|
            0 <= k < from.len() ==> r.hit(objects[#[trigger] from[k]], needles) == Ok::<
                Option<HitView>,
                Missing,
            >(Some(list[k])),
        forall|i: int|
            0 <= i < n && !#[trigger] from.contains(i) && (list.len() < enough(limit) || i
                < from.last()) ==> r.hit(objects[i], needles) == Ok::<Option<HitView>, Missing>(
                None,
            ),
{
    let step = |i: int| r.hit(objects[i], needles);
    let from = lemma_hits_from_steps(r, objects, needles, limit, n, list, step);
    assert forall|k: int| 0 <= k < from.len() implies r.hit(
        objects[#[trigger] from[k]],
        needles,
    ) == Ok::<Option<HitView>, Missing>(Some(list[k])) by {
        assert(step(from[k]) == Ok::<Option<HitView>, Missing>(Some(list[k])));
    }
    assert forall|i: int|
        0 <= i < n && !#[trigger] from.contains(i) && (list.len() < enough(limit) || i
            < from.last()) implies r.hit(objects[i], needles) == Ok::<Option<HitView>, Missing>(
        None,
    ) by {
        assert(step(i) == Ok::<Option<HitView>, Missing>(None));
    }
    from
}

proof fn lemma_hits_from_steps(
    r: Remote,
    objects: Seq<UObjectRef>,
    needles: Seq<Seq<char>>,
    limit: usize,
    n: nat,
    list: Seq<HitView>,
    step: spec_fn(int) -> Outcome<Option<HitView>>,
) -> (from: Seq<int>)
    requires
        n <= objects.len(),
        r.hits(objects, needles, limit, n) == Ok::<Seq<HitView>, Missing>(list),
        forall|i: int| #[trigger] r.hit(objects[i], needles) == step(i),
    ensures
        from.len() == list.len(),
        list.len() <= enough(limit),
        forall|k: int| 0 <= k < from.len() ==> 0 <= #[trigger] from[k] < n,
        forall|k: int, l: int| 0 <= k < l < from.len() ==> #[trigger] from[k] < #[trigger] from[l],
        forall|k: int|
            0 <= k < from.len() ==> step(#[trigger] from[k]) == Ok::<Option<HitView>, Missing>(
                Some(list[k]),
            ),
        forall|i: int|
            0 <= i < n && !#[trigger] from.contains(i) && (list.len() < enough(limit) || i
                < from.last()) ==> step(i) == Ok::<Option<HitView>, Missing>(None),
    decreases n,
{
    if n == 0 {
        seq![]
    } else {
        let before = r.hits(objects, needles, limit, (n - 1) as nat)->Ok_0;
        let head = lemma_hits_from_steps(
            r,
            objects,
            needles,
            limit,
            (n - 1) as nat,
            before,
            step,
        );
        if before.len() > 0 && before.len() >= limit {
            assert(list == before);
            head
        } else {
            match r.hit(objects[n - 1], needles) {
                Ok(Some(hit)) => {
                    let from = head.push(n - 1);
                    assert(list =~= before.push(hit));
                    assert forall|i: int|
                        0 <= i < n && !#[trigger] from.contains(i) && (list.len() < enough(limit)
                            || i < from.last()) implies step(i) == Ok::<Option<HitView>, Missing>(
                        None,
                    ) by {
                        assert(from[head.len() as int] == n - 1);
                        if head.contains(i) {
                            assert(from[head.index_of(i)] == i);
                        }
                        assert(!head.contains(i));
                    }
                    from
                },
                _ => {
                    assert(list =~= before);
                    assert forall|i: int|
                        0 <= i < n && !#[trigger] head.contains(i) && (list.len() < enough(limit)
                            || i < head.last()) implies step(i) == Ok::<Option<HitView>, Missing>(
                        None,
                    ) by {
                        if i == n - 1 {
                            assert(r.hit(objects[i], needles) == step(i));
                        }
                    }
                    head
                },
            }
        }
    }
}

// ── Instances ───────────────────────────────────────────────────────

/// The class of an object is called `text`, or nothing.
pub open spec fn class_called(r: Remote, obj: UObjectRef, text: Seq<char>) -> bool {
    ||| r.called(obj.class_addr.wrapping_add(0x18), text)
    ||| r.name_at(obj.class_addr.wrapping_add(0x18)) == Ok::<Option<Seq<char>>, Missing>(None)
        && text.len() == 0
}

proof fn lemma_class_called(r: Remote, obj: UObjectRef, text: Seq<char>)
    requires
        class_called(r, obj, text),
    ensures
        r.class_label(obj.class_addr) == Ok::<Seq<char>, Missing>(text),
{
    assert(text.len() == 0 ==> text =~= seq![]);
}

/// The instance that is found is the first object whose class is called as asked for.
pub proof fn lemma_first_instance_is_found(
    r: Remote,
    objects: Seq<UObjectRef>,
    target: Seq<char>,
    names: Seq<Seq<char>>,
    k: int,
)
    requires
        names.len() == objects.len(),
        forall|i: int|
            0 <= i < objects.len() ==> class_called(r, objects[i], #[trigger] names[i]),
        0 <= k <= objects.len(),
        forall|i: int| 0 <= i < k ==> #[trigger] names[i] != target,
        k < objects.len() ==> names[k] == target,
    ensures
        k == objects.len() ==> r.instance(objects, target) == Ok::<Option<u64>, Missing>(None),
        k < objects.len() && objects[k].addr != 0 ==> r.instance(objects, target) == Ok::<
            Option<u64>,
            Missing,
        >(Some(objects[k].addr)),
        k < objects.len() && objects[k].addr == 0 ==> r.instance(objects, target) == Ok::<
            Option<u64>,
            Missing,
        >(None),
{
    lemma_instance_upto(r, objects, target, names, k, objects.len());
}

proof fn lemma_instance_upto(
    r: Remote,
    objects: Seq<UObjectRef>,
    target: Seq<char>,
    names: Seq<Seq<char>>,
    k: int,
    n: nat,
)
    requires
        names.len() == objects.len(),
        forall|i: int|
            0 <= i < objects.len() ==> class_called(r, objects[i], #[trigger] names[i]),
        0 <= k <= objects.len(),
        forall|i: int| 0 <= i < k ==> #[trigger] names[i] != target,
        k < objects.len() ==> names[k] == target,
        n <= objects.len(),
    ensures
        n <= k ==> r.first_instance(objects, target, n) == Ok::<Option<u64>, Missing>(None),
        n > k ==> r.first_instance(objects, target, n) == Ok::<Option<u64>, Missing>(
            Some(objects[k].addr),
        ),
    decreases n,
{
    if n > 0 {
        lemma_instance_upto(r, objects, target, names, k, (n - 1) as nat);
        assert(class_called(r, objects[n - 1], names[n - 1]));
        lemma_class_called(r, objects[n - 1], names[n - 1]);
    }
}

// ── Static addresses ────────────────────────────────────────────────

/// A static address is as far from 0x140000000 as the running one is from the base.
pub proof fn lemma_static_address(m: Memory, addr: u64, base: u64, target: u64)
    ensures
        m.points(addr, target) && base <= target && target - base + 0x1_4000_0000
            <= 0xFFFF_FFFF_FFFF_FFFF ==> m.static_pointer(addr, base) == Ok::<
            Option<StaticAddr>,
            Missing,
        >(
            Some(
                (StaticAddr {
                    runtime: target,
                    rva: (target - base) as u64,
                    ida: (0x1_4000_0000 + (target - base)) as u64,
                }),
            ),
        ),
        m.points(addr, target) ==> (m.static_pointer(addr, base) matches Ok(Some(found))
            && found.runtime == target && base.wrapping_add(found.rva) == target
            && 0x1_4000_0000u64.wrapping_add(found.rva) == found.ida),
        m.points_nowhere(addr) ==> m.static_pointer(addr, base) == Ok::<
            Option<StaticAddr>,
            Missing,
        >(None),
{
}

// ── Lists of offsets ────────────────────────────────────────────────

/// Every "0x" in front of a number is passed over.
pub proof fn lemma_0x_is_passed_over(bytes: Seq<u8>)
    ensures
        crate::search::without_0x(seq![0x30, 0x78] + bytes) == crate::search::without_0x(bytes),
        !(bytes.len() >= 2 && bytes[0] == 0x30 && bytes[1] == 0x78) ==> crate::search::without_0x(
            bytes,
        ) == bytes,
{
    assert((seq![0x30u8, 0x78u8] + bytes).skip(2) =~= bytes);
}

/// The number that a piece of a list stands for, if it does.
pub open spec fn piece_value(piece: Seq<u8>) -> Seq<u64> {
    match crate::text::hex_number(crate::search::without_0x(piece)) {
        Some(v) => seq![v as u64],
        None => seq![],
    }
}

proof fn lemma_next_behind(front: Seq<u8>, list: Seq<u8>, from: int, b: u8)
    requires
        0 <= from,
    ensures
        crate::text::next_byte(front + list, front.len() + from, b) == front.len()
            + crate::text::next_byte(list, from, b),
    decreases list.len() - from,
{
    if from < list.len() {
        assert((front + list)[front.len() + from] == list[from]);
        if list[from] != b {
            lemma_next_behind(front, list, from + 1, b);
        }
    }
}

proof fn lemma_offsets_behind(front: Seq<u8>, list: Seq<u8>, start: int)
    requires
        0 <= start,
    ensures
        crate::search::offsets_from(front + list, front.len() + start)
            == crate::search::offsets_from(list, start),
    decreases list.len() + 1 - start,
{
    if start <= list.len() {
        lemma_next_behind(front, list, start, 0x2C);
        let end = crate::text::next_byte(list, start, 0x2C);
        crate::text::lemma_next_byte_range(list, start, 0x2C);
        lemma_offsets_behind(front, list, end + 1);
        assert((front + list).subrange(front.len() + start, front.len() + end) =~= list.subrange(
            start,
            end,
        ));
    }
}

proof fn lemma_no_comma_inside(piece: Seq<u8>, rest: Seq<u8>, from: int)
    requires
        0 <= from <= piece.len(),
        forall|i: int| 0 <= i < piece.len() ==> #[trigger] piece[i] != 0x2C,
        rest.len() == 0 || rest[0] == 0x2C,
    ensures
        crate::text::next_byte(piece + rest, from, 0x2C) == piece.len(),
    decreases piece.len() - from,
{
    if from < piece.len() {
        assert((piece + rest)[from] == piece[from]);
        lemma_no_comma_inside(piece, rest, from + 1);
    } else if rest.len() > 0 {
        assert((piece + rest)[from] == rest[0]);
    }
}

/// A list gives the numbers between its commas, in their order: that of its first piece,
/// and behind it those of the rest.
pub proof fn lemma_list_of_offsets(piece: Seq<u8>, rest: Seq<u8>)
    requires
        forall|i: int| 0 <= i < piece.len() ==> #[trigger] piece[i] != 0x2C,
    ensures
        crate::search::offsets_from(piece, 0) == piece_value(piece),
        crate::search::offsets_from(piece + seq![0x2C] + rest, 0) == piece_value(piece)
            + crate::search::offsets_from(rest, 0),
{
    lemma_no_comma_inside(piece, seq![], 0);
    assert(piece + Seq::<u8>::empty() =~= piece);
    assert(piece.subrange(0, piece.len() as int) =~= piece);
    assert(crate::search::offsets_from(piece, (piece.len() + 1) as int) =~= seq![]);
    assert(crate::search::offsets_from(piece, 0) =~= piece_value(piece));
    let tail = seq![0x2Cu8] + rest;
    let list = piece + seq![0x2C] + rest;
    assert(list =~= piece + tail);
    lemma_no_comma_inside(piece, tail, 0);
    assert(list.subrange(0, piece.len() as int) =~= piece);
    lemma_offsets_behind(piece + seq![0x2C], rest, 0);
    assert(crate::search::offsets_from(list, 0) =~= piece_value(piece)
        + crate::search::offsets_from(rest, 0));
}

} // verus!
