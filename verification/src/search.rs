//! Looks for objects by name, and maps virtual functions to static addresses.

use crate::mem::{Memory, Outcome, ProcessHandle};
use crate::text::{find_byte, parse_hex, str_contains, str_equal, to_ascii_lowercase};
use crate::ue::fname::{FNamePool, Remote};
use crate::ue::objects::{GObjects, UObjectRef};
use crate::ue::offsets::UOBJECT_FNAME;
use std::collections::HashMap;
use vstd::prelude::*;
use vstd::string::*;
use vstd::utf8::*;

verus! {

broadcast use {
    vstd::std_specs::hash::group_hash_axioms,
    crate::ue::fname::lemma_pool_keeps_itself,
    crate::ue::fname::lemma_pool_keeps_transitive,
};

// ── Objects by name ─────────────────────────────────────────────────

/// An object whose full name was searched for.
#[derive(Debug)]
pub struct ObjectHit {
    pub addr: u64,
    pub class_addr: u64,
    pub class_name: String,
    pub full: String,
}

/// An [`ObjectHit`] as a mathematical value.
pub struct HitView {
    pub addr: u64,
    pub class_addr: u64,
    pub class_name: Seq<char>,
    pub full: Seq<char>,
}

impl DeepView for ObjectHit {
    type V = HitView;

    open spec fn deep_view(&self) -> HitView {
        HitView {
            addr: self.addr,
            class_addr: self.class_addr,
            class_name: self.class_name@,
            full: self.full@,
        }
    }
}

/// `text` contains one of `needles`.
pub open spec fn contains_one(text: Seq<char>, needles: Seq<Seq<char>>) -> bool {
    exists|i: int|
        0 <= i < needles.len() && crate::text::contains_text(text, #[trigger] needles[i])
}

/// `needles` in lower case.
pub open spec fn all_lowered(needles: Seq<Seq<char>>) -> Seq<Seq<char>> {
    needles.map_values(|n: Seq<char>| crate::text::lowered(n))
}

/// `text` contains one of `needles`, if the case of ASCII letters is left aside.
pub open spec fn contains_any(text: Seq<char>, needles: Seq<Seq<char>>) -> bool {
    contains_one(crate::text::lowered(text), all_lowered(needles))
}

impl Remote {
    /// The full name of the object at `addr`, or no text if it has none.
    pub open spec fn full_text(self, addr: u64) -> Outcome<Seq<char>> {
        match self.full_name(addr) {
            Err(e) => Err(e),
            Ok(full) => Ok(crate::ue::props::text_or(full, seq![])),
        }
    }

    /// The object, if its full name contains one of `needles`.
    pub open spec fn hit(self, obj: UObjectRef, needles: Seq<Seq<char>>) -> Outcome<Option<HitView>> {
        match self.full_text(obj.addr) {
            Err(e) => Err(e),
            Ok(full) => if !contains_any(full, needles) {
                Ok(None)
            } else {
                match self.full_text(obj.class_addr) {
                    Err(e) => Err(e),
                    Ok(class_name) => Ok(
                        Some(
                            HitView {
                                addr: obj.addr,
                                class_addr: obj.class_addr,
                                class_name,
                                full,
                            },
                        ),
                    ),
                }
            },
        }
    }

    /// The hits among the first `n` of `objects`. Once there are `limit` of them the
    /// search is over; a hit is shown in any case.
    pub open spec fn hits(
        self,
        objects: Seq<UObjectRef>,
        needles: Seq<Seq<char>>,
        limit: usize,
        n: nat,
    ) -> Outcome<Seq<HitView>>
        decreases n,
    {
        if n == 0 {
            Ok(seq![])
        } else {
            match self.hits(objects, needles, limit, (n - 1) as nat) {
                Err(e) => Err(e),
                Ok(before) => if before.len() > 0 && before.len() >= limit {
                    Ok(before)
                } else {
                    match self.hit(objects[n - 1], needles) {
                        Err(e) => Err(e),
                        Ok(found) => Ok(before + crate::walk::optional(found)),
                    }
                },
            }
        }
    }
}

fn lower_all(needles: &Vec<String>) -> (lowered: Vec<String>)
    ensures
        lowered.deep_view() == all_lowered(needles.deep_view()),
{
    let mut lowered: Vec<String> = Vec::new();
    let mut i: usize = 0;
    while i < needles.len()
        invariant
            i <= needles@.len(),
            lowered@.len() == i,
            forall|k: int|
                0 <= k < i ==> (#[trigger] lowered@[k])@ == crate::text::lowered(needles@[k]@),
        decreases needles@.len() - i,
    {
        lowered.push(to_ascii_lowercase(needles[i].as_str()));
        i = i + 1;
    }
    assert(lowered.deep_view() =~= all_lowered(needles.deep_view()));
    lowered
}

/// Whether `text` contains one of the needles, which are in lower case already.
fn contains_lowered(text: &str, needles: &Vec<String>) -> (r: bool)
    ensures
        r == contains_one(crate::text::lowered(text@), needles.deep_view()),
{
    let text_l = to_ascii_lowercase(text);
    let ghost all = needles.deep_view();
    let mut i: usize = 0;
    while i < needles.len()
        invariant
            i <= needles@.len(),
            all == needles.deep_view(),
            text_l@ == crate::text::lowered(text@),
            forall|k: int| 0 <= k < i ==> !crate::text::contains_text(text_l@, #[trigger] all[k]),
        decreases needles@.len() - i,
    {
        if str_contains(text_l.as_str(), needles[i].as_str()) {
            assert(crate::text::contains_text(text_l@, all[i as int]));
            return true;
        }
        i = i + 1;
    }
    false
}

fn read_full_text(proc: &ProcessHandle, names: &mut FNamePool, gobjects: &GObjects, addr: u64) -> (r:
    Outcome<String>)
    ensures
        crate::mem::shown(r) == old(names).remote(proc@).full_text(addr),
        final(names).same(*old(names), proc@),
{
    match gobjects.full_name(proc, names, addr)? {
        Some(full) => Ok(full),
        None => Ok(String::new()),
    }
}

/// How far a search has come. It saves the hits already found while pages are
/// fetched for the rest.
pub struct SearchWalk {
    next: usize,
    hits: Vec<ObjectHit>,
}

impl SearchWalk {
    /// The walk has come this far over `objects`.
    pub closed spec fn sound(
        self,
        remote: Remote,
        objects: Seq<UObjectRef>,
        needles: Seq<Seq<char>>,
        limit: usize,
    ) -> bool {
        &&& self.next <= objects.len()
        &&& remote.hits(objects, needles, limit, self.next as nat) == Ok::<
            Seq<HitView>,
            crate::mem::Missing,
        >(self.hits.deep_view())
    }

    /// A walk that has not begun.
    pub fn new() -> (walk: Self)
        ensures
            forall|
                remote: Remote,
                objects: Seq<UObjectRef>,
                needles: Seq<Seq<char>>,
                limit: usize,
            | #[trigger]
                walk.sound(remote, objects, needles, limit),
    {
        let walk = SearchWalk { next: 0, hits: Vec::new() };
        assert(walk.hits.deep_view() =~= seq![]);
        walk
    }
}

/// Once the search is over, or asks for a read, more objects change nothing.
proof fn lemma_hits_stop(
    remote: Remote,
    objects: Seq<UObjectRef>,
    needles: Seq<Seq<char>>,
    limit: usize,
    at: nat,
    n: nat,
)
    requires
        at <= n,
        remote.hits(objects, needles, limit, at) matches Ok(found) ==> found.len() > 0
            && found.len() >= limit,
    ensures
        remote.hits(objects, needles, limit, n) == remote.hits(objects, needles, limit, at),
    decreases n,
{
    if at < n {
        lemma_hits_stop(remote, objects, needles, limit, at, (n - 1) as nat);
    }
}

/// Find the objects whose full name contains one of `needles`, whatever the case
/// of ASCII letters.
pub fn search_objects(
    proc: &ProcessHandle,
    names: &mut FNamePool,
    gobjects: &GObjects,
    needles: &Vec<String>,
    limit: usize,
    walk: &mut SearchWalk,
) -> (r: Outcome<Vec<ObjectHit>>)
    requires
        old(walk).sound(
            old(names).remote(proc@),
            gobjects.objects@,
            needles.deep_view(),
            limit,
        ),
    ensures
        crate::mem::shown(r) == old(names).remote(proc@).hits(
            gobjects.objects@,
            needles.deep_view(),
            limit,
            gobjects.objects@.len(),
        ),
        final(walk).sound(
            old(names).remote(proc@),
            gobjects.objects@,
            needles.deep_view(),
            limit,
        ),
        final(names).same(*old(names), proc@),
{
    let ghost remote = names.remote(proc@);
    let ghost objects = gobjects.objects@;
    let ghost wanted = needles.deep_view();
    let lowered = lower_all(needles);
    while walk.next < gobjects.objects.len() && (walk.hits.len() == 0 || walk.hits.len() < limit)
        invariant
            objects == gobjects.objects@,
            wanted == needles.deep_view(),
            lowered.deep_view() == all_lowered(wanted),
            names.same(*old(names), proc@),
            remote == old(names).remote(proc@),
            walk.sound(remote, objects, wanted, limit),
        decreases objects.len() - walk.next,
    {
        assert(names.remote(proc@) == remote);
        let ghost at = (walk.next + 1) as nat;
        let obj: UObjectRef = gobjects.objects[walk.next];
        let full = match read_full_text(proc, names, gobjects, obj.addr) {
            Ok(full) => full,
            Err(e) => {
                proof {
                    lemma_hits_stop(remote, objects, wanted, limit, at, objects.len());
                }
                return Err(e);
            },
        };
        assert(names.remote(proc@) == remote);
        let ghost before = walk.hits.deep_view();
        if contains_lowered(full.as_str(), &lowered) {
            let class_name = match read_full_text(proc, names, gobjects, obj.class_addr) {
                Ok(class_name) => class_name,
                Err(e) => {
                    proof {
                        lemma_hits_stop(remote, objects, wanted, limit, at, objects.len());
                    }
                    return Err(e);
                },
            };
            let hit = ObjectHit { addr: obj.addr, class_addr: obj.class_addr, class_name, full };
            let ghost seen = hit.deep_view();
            walk.hits.push(hit);
            assert(walk.hits.deep_view() =~= before + crate::walk::optional(Some(seen)));
        } else {
            assert(before + crate::walk::optional(None::<HitView>) =~= before);
        }
        walk.next = walk.next + 1;
    }
    proof {
        if walk.next < objects.len() {
            lemma_hits_stop(remote, objects, wanted, limit, walk.next as nat, objects.len());
        }
    }
    let mut hits: Vec<ObjectHit> = Vec::new();
    assert(hits.deep_view() =~= seq![]);
    std::mem::swap(&mut hits, &mut walk.hits);
    walk.next = 0;
    Ok(hits)
}

// ── Instances of a class ────────────────────────────────────────────

impl Remote {
    /// The name of the class at `class_addr`, or no text if it has none.
    pub open spec fn class_label(self, class_addr: u64) -> Outcome<Seq<char>> {
        match self.name_at(class_addr.wrapping_add(UOBJECT_FNAME)) {
            Err(e) => Err(e),
            Ok(name) => Ok(crate::ue::props::text_or(name, seq![])),
        }
    }

    /// The first of the first `n` of `objects` whose class is named `target`.
    pub open spec fn first_instance(
        self,
        objects: Seq<UObjectRef>,
        target: Seq<char>,
        n: nat,
    ) -> Outcome<Option<u64>>
        decreases n,
    {
        if n == 0 {
            Ok(None)
        } else {
            match self.first_instance(objects, target, (n - 1) as nat) {
                Ok(None) => match self.class_label(objects[n - 1].class_addr) {
                    Err(e) => Err(e),
                    Ok(label) => if label == target {
                        Ok(Some(objects[n - 1].addr))
                    } else {
                        Ok(None)
                    },
                },
                other => other,
            }
        }
    }
}

impl Remote {
    /// The first of `objects` whose class is named `target`, unless it stands at null.
    pub open spec fn instance(self, objects: Seq<UObjectRef>, target: Seq<char>) -> Outcome<
        Option<u64>,
    > {
        match self.first_instance(objects, target, objects.len()) {
            Ok(Some(addr)) => if addr != 0 {
                Ok(Some(addr))
            } else {
                Ok(None)
            },
            other => other,
        }
    }
}

/// Class names already resolved, by the address of the class.
pub struct LabelCache {
    labels: HashMap<u64, String>,
}

impl View for LabelCache {
    type V = Map<u64, Seq<char>>;

    closed spec fn view(&self) -> Map<u64, Seq<char>> {
        self.labels@.map_values(|label: String| label@)
    }
}

impl LabelCache {
    /// What the cache has as the name of the class at `class_addr`; where it has
    /// none, what the process says.
    pub open spec fn label(self, remote: Remote, class_addr: u64) -> Outcome<Seq<char>> {
        if self@.contains_key(class_addr) {
            Ok(self@[class_addr])
        } else {
            remote.class_label(class_addr)
        }
    }

    /// Two caches say the same.
    pub open spec fn same(self, other: LabelCache, remote: Remote) -> bool {
        forall|class_addr: u64| #[trigger]
            self.label(remote, class_addr) == other.label(remote, class_addr)
    }

    /// All that `other` has cached is cached here too.
    #[verifier::opaque]
    pub open spec fn keeps(self, other: LabelCache) -> bool {
        other@.submap_of(self@)
    }

    pub fn new() -> (cache: Self)
        ensures
            cache@ == Map::<u64, Seq<char>>::empty(),
            forall|remote: Remote, class_addr: u64| #[trigger]
                cache.label(remote, class_addr) == remote.class_label(class_addr),
    {
        let cache = LabelCache { labels: HashMap::new() };
        assert(cache@ =~= Map::empty());
        cache
    }

    /// The name of the class at `class_addr`. A cached name comes back without a read,
    /// any other is cached.
    pub fn get(&mut self, proc: &ProcessHandle, names: &mut FNamePool, class_addr: u64) -> (r:
        Outcome<String>)
        ensures
            crate::mem::shown(r) == old(self).label(old(names).remote(proc@), class_addr),
            final(self)@ == (match r {
                Ok(label) => old(self)@.insert(class_addr, label@),
                Err(_) => old(self)@,
            }),
            final(self).same(*old(self), old(names).remote(proc@)),
            final(self).keeps(*old(self)),
            final(names).same(*old(names), proc@),
            old(self)@.contains_key(class_addr) ==> *final(self) == *old(self) && *final(names)
                == *old(names),
            !old(self)@.contains_key(class_addr) ==> final(names).looked_up_at(
                *old(names),
                proc@,
                class_addr.wrapping_add(UOBJECT_FNAME),
            ),
    {
        proof {
            reveal(LabelCache::keeps);
        }
        if let Some(cached) = self.labels.get(&class_addr) {
            let label = cached.clone();
            assert(self@ =~= self@.insert(class_addr, label@));
            return Ok(label);
        }
        let label = match names.resolve(proc, class_addr.wrapping_add(UOBJECT_FNAME))? {
            Some(name) => name,
            None => String::new(),
        };
        self.labels.insert(class_addr, label.clone());
        assert(self@ =~= old(self)@.insert(class_addr, label@));
        Ok(label)
    }
}

/// What is kept twice is kept.
pub proof fn lemma_keeps_transitive(first: LabelCache, second: LabelCache, third: LabelCache)
    requires
        second.keeps(first),
        third.keeps(second),
    ensures
        third.keeps(first),
{
    reveal(LabelCache::keeps);
    assert forall|addr: u64| #[trigger] first@.dom().contains(addr) implies third@.dom().contains(
        addr,
    ) && first@[addr] == third@[addr] by {
        assert(second@.dom().contains(addr));
        assert(third@.dom().contains(addr));
    }
}

/// How far looking for an instance has come.
pub struct InstanceWalk {
    next: usize,
}

impl InstanceWalk {
    /// No object before this one is an instance.
    pub closed spec fn sound(
        self,
        remote: Remote,
        objects: Seq<UObjectRef>,
        target: Seq<char>,
    ) -> bool {
        &&& self.next <= objects.len()
        &&& remote.first_instance(objects, target, self.next as nat) == Ok::<
            Option<u64>,
            crate::mem::Missing,
        >(None)
    }

    /// A walk that has not begun.
    pub fn new() -> (walk: Self)
        ensures
            forall|remote: Remote, objects: Seq<UObjectRef>, target: Seq<char>| #[trigger]
                walk.sound(remote, objects, target),
    {
        InstanceWalk { next: 0 }
    }
}

/// A hit or a read decides.
proof fn lemma_instance_stop(
    remote: Remote,
    objects: Seq<UObjectRef>,
    target: Seq<char>,
    at: nat,
    n: nat,
)
    requires
        at <= n,
        remote.first_instance(objects, target, at) != Ok::<Option<u64>, crate::mem::Missing>(None),
    ensures
        remote.first_instance(objects, target, n) == remote.first_instance(objects, target, at),
    decreases n,
{
    if at < n {
        lemma_instance_stop(remote, objects, target, at, (n - 1) as nat);
    }
}

/// Find an instance (or CDO) whose class name is `target`.
pub fn find_instance(
    proc: &ProcessHandle,
    names: &mut FNamePool,
    gobjects: &GObjects,
    target: &str,
    walk: &mut InstanceWalk,
) -> (r: Outcome<Option<u64>>)
    requires
        old(walk).sound(old(names).remote(proc@), gobjects.objects@, target@),
    ensures
        r == old(names).remote(proc@).instance(gobjects.objects@, target@),
        final(walk).sound(old(names).remote(proc@), gobjects.objects@, target@),
        final(names).same(*old(names), proc@),
{
    let ghost remote = names.remote(proc@);
    let ghost objects = gobjects.objects@;
    let mut cache = LabelCache::new();
    while walk.next < gobjects.objects.len()
        invariant
            objects == gobjects.objects@,
            names.same(*old(names), proc@),
            remote == old(names).remote(proc@),
            forall|class_addr: u64| #[trigger]
                cache.label(remote, class_addr) == remote.class_label(class_addr),
            walk.sound(remote, objects, target@),
        decreases objects.len() - walk.next,
    {
        assert(names.remote(proc@) == remote);
        let ghost at = (walk.next + 1) as nat;
        let obj: UObjectRef = gobjects.objects[walk.next];
        match cache.get(proc, names, obj.class_addr) {
            Err(e) => {
                proof {
                    lemma_instance_stop(remote, objects, target@, at, objects.len());
                }
                return Err(e);
            },
            Ok(label) => {
                if str_equal(label.as_str(), target) {
                    proof {
                        lemma_instance_stop(remote, objects, target@, at, objects.len());
                    }
                    if obj.addr != 0 {
                        return Ok(Some(obj.addr));
                    }
                    return Ok(None);
                }
            },
        }
        walk.next = walk.next + 1;
    }
    Ok(None)
}

// ── Virtual functions ───────────────────────────────────────────────

/// The address at which a disassembler loads the image.
pub const IMAGE_BASE: u64 = 0x1_4000_0000;

/// An address in the running process, relative to the image base, and as it stands
/// in the disassembler.
#[derive(Clone, Copy, Debug, PartialEq, Eq, Structural)]
pub struct StaticAddr {
    pub runtime: u64,
    pub rva: u64,
    pub ida: u64,
}

/// Where an address of the image at `base` stands statically.
pub open spec fn static_addr(runtime: u64, base: u64) -> StaticAddr {
    StaticAddr {
        runtime,
        rva: runtime.wrapping_sub(base),
        ida: IMAGE_BASE.wrapping_add(runtime.wrapping_sub(base)),
    }
}

impl Memory {
    /// What the pointer at `addr` refers to, if it is not null.
    pub open spec fn static_pointer(self, addr: u64, base: u64) -> Outcome<Option<StaticAddr>> {
        match self.pointer(addr) {
            Err(e) => Err(e),
            Ok(None) => Ok(None),
            Ok(Some(p)) => Ok(Some(static_addr(p, base))),
        }
    }
}

/// Resolve the pointer at `addr`: the vtable of an object, or a slot of a vtable.
pub fn resolve_static(proc: &ProcessHandle, addr: u64) -> (r: Outcome<Option<StaticAddr>>)
    ensures
        r == proc@.static_pointer(addr, proc.base),
{
    match proc.ptr(addr)? {
        Some(runtime) => {
            let rva: u64 = runtime.wrapping_sub(proc.base);
            Ok(Some(StaticAddr { runtime, rva, ida: IMAGE_BASE.wrapping_add(rva) }))
        },
        None => Ok(None),
    }
}

/// `bytes` without every `0x` that they start with.
pub open spec fn without_0x(bytes: Seq<u8>) -> Seq<u8>
    decreases bytes.len(),
{
    if bytes.len() >= 2 && bytes[0] == 0x30 && bytes[1] == 0x78 {
        without_0x(bytes.skip(2))
    } else {
        bytes
    }
}

/// The hexadecimal numbers between the commas of `list`, from `start` on. What is
/// no number is left out.
pub open spec fn offsets_from(list: Seq<u8>, start: int) -> Seq<u64>
    decreases list.len() + 1 - start,
{
    let end = crate::text::next_byte(list, start, 0x2C);
    if start > list.len() {
        seq![]
    } else {
        proof {
            crate::text::lemma_next_byte_range(list, start, 0x2C);
        }
        crate::walk::optional(
            match crate::text::hex_number(without_0x(list.subrange(start, end))) {
                Some(v) => Some(v as u64),
                None => None,
            },
        ) + offsets_from(list, end + 1)
    }
}

fn parse_offset(piece: &[u8]) -> (r: Option<u64>)
    ensures
        r == (match crate::text::hex_number(without_0x(piece@)) {
            Some(v) => Some(v as u64),
            None => None,
        }),
{
    let mut skip: usize = 0;
    assert(piece@.skip(0) =~= piece@);
    while piece.len() - skip >= 2 && piece[skip] == 0x30 && piece[skip + 1] == 0x78
        invariant
            skip <= piece@.len(),
            without_0x(piece@) == without_0x(piece@.skip(skip as int)),
        decreases piece@.len() - skip,
    {
        assert(piece@.skip(skip as int).skip(2) =~= piece@.skip(skip + 2));
        skip = skip + 2;
    }
    assert(piece@.subrange(skip as int, piece@.len() as int) =~= piece@.skip(skip as int));
    parse_hex(vstd::slice::slice_subrange(piece, skip, piece.len()))
}

/// Parse a list of hexadecimal numbers between commas, each with or without `0x`.
pub fn parse_offsets(list: &str) -> (offsets: Vec<u64>)
    ensures
        offsets@ == offsets_from(encode_utf8(list@), 0),
{
    let bytes = list.as_bytes();
    let mut offsets: Vec<u64> = Vec::new();
    let mut start: usize = 0;
    let mut more = true;
    assert(offsets@ + offsets_from(bytes@, 0) =~= offsets_from(bytes@, 0));
    while more
        invariant
            bytes@ == encode_utf8(list@),
            more ==> start <= bytes@.len() && offsets_from(bytes@, 0) == offsets@ + offsets_from(
                bytes@,
                start as int,
            ),
            !more ==> offsets_from(bytes@, 0) == offsets@,
        decreases (if more {
            bytes@.len() + 1 - start
        } else {
            0
        }),
    {
        let end: usize = find_byte(bytes, start, 0x2C);
        let found: Option<u64> = parse_offset(vstd::slice::slice_subrange(bytes, start, end));
        let ghost before = offsets@;
        if let Some(offset) = found {
            offsets.push(offset);
        }
        assert(before + (crate::walk::optional(found) + offsets_from(bytes@, end + 1))
            =~= offsets@ + offsets_from(bytes@, end + 1));
        if end < bytes.len() {
            start = end + 1;
        } else {
            more = false;
            assert(offsets@ + offsets_from(bytes@, end + 1) =~= offsets@);
        }
    }
    offsets
}

// ── Laws ────────────────────────────────────────────────────────────

/// Every hit's full name contains one of the needles, and there are no more hits than
/// the limit, or one if the limit is zero.
pub proof fn lemma_hits_contain_needles(
    r: Remote,
    objects: Seq<UObjectRef>,
    needles: Seq<Seq<char>>,
    limit: usize,
    n: nat,
)
    ensures
        r.hits(objects, needles, limit, n) matches Ok(found) ==> {
            &&& found.len() <= n
            &&& found.len() <= limit || found.len() <= 1
            &&& forall|i: int|
                0 <= i < found.len() ==> contains_any((#[trigger] found[i]).full, needles)
        },
    decreases n,
{
    if n > 0 {
        lemma_hits_contain_needles(r, objects, needles, limit, (n - 1) as nat);
        match r.hits(objects, needles, limit, n) {
            Ok(found) => {
                let before = r.hits(objects, needles, limit, (n - 1) as nat)->Ok_0;
                assert forall|i: int| 0 <= i < found.len() implies contains_any(
                    (#[trigger] found[i]).full,
                    needles,
                ) by {
                    if i < before.len() {
                        assert(found[i] == before[i]);
                    }
                }
            },
            Err(_) => {},
        }
    }
}

/// Fetching more pages never changes what a pointer into the image refers to.
pub proof fn lemma_static_pointer_settled(m: Memory, m2: Memory, addr: u64, base: u64)
    requires
        m.grows_to(m2),
    ensures
        m.settles(m.static_pointer(addr, base), m2.static_pointer(addr, base)),
{
    broadcast use crate::mem::lemma_value_settled;

}

proof fn lemma_hit_settled(r: Remote, r2: Remote, obj: UObjectRef, needles: Seq<Seq<char>>)
    requires
        r.grows_to(r2),
    ensures
        r.mem.settles(r.hit(obj, needles), r2.hit(obj, needles)),
{
    broadcast use crate::ue::objects::lemma_full_name_settled;

}

/// Fetching more pages never changes what a search finds.
pub proof fn lemma_hits_settled(
    r: Remote,
    r2: Remote,
    objects: Seq<UObjectRef>,
    needles: Seq<Seq<char>>,
    limit: usize,
    n: nat,
)
    requires
        r.grows_to(r2),
    ensures
        r.mem.settles(
            r.hits(objects, needles, limit, n),
            r2.hits(objects, needles, limit, n),
        ),
    decreases n,
{
    if n > 0 {
        lemma_hits_settled(r, r2, objects, needles, limit, (n - 1) as nat);
        lemma_hit_settled(r, r2, objects[n - 1], needles);
    }
}

/// A search can go on after more pages have been fetched.
pub proof fn lemma_search_walk_keeps(
    walk: SearchWalk,
    r: Remote,
    r2: Remote,
    objects: Seq<UObjectRef>,
    needles: Seq<Seq<char>>,
    limit: usize,
)
    requires
        walk.sound(r, objects, needles, limit),
        r.grows_to(r2),
    ensures
        walk.sound(r2, objects, needles, limit),
{
    lemma_hits_settled(r, r2, objects, needles, limit, walk.next as nat);
}

/// Fetching more pages never changes which object is the first instance of a class.
pub proof fn lemma_first_instance_settled(
    r: Remote,
    r2: Remote,
    objects: Seq<UObjectRef>,
    target: Seq<char>,
    n: nat,
)
    requires
        r.grows_to(r2),
    ensures
        r.mem.settles(
            r.first_instance(objects, target, n),
            r2.first_instance(objects, target, n),
        ),
    decreases n,
{
    broadcast use crate::ue::fname::lemma_name_at_settled;

    if n > 0 {
        lemma_first_instance_settled(r, r2, objects, target, (n - 1) as nat);
    }
}

/// Looking for an instance can go on after more pages have been fetched.
pub proof fn lemma_instance_walk_keeps(
    walk: InstanceWalk,
    r: Remote,
    r2: Remote,
    objects: Seq<UObjectRef>,
    target: Seq<char>,
)
    requires
        walk.sound(r, objects, target),
        r.grows_to(r2),
    ensures
        walk.sound(r2, objects, target),
{
    lemma_first_instance_settled(r, r2, objects, target, walk.next as nat);
}

/// What a cache says of a class stays as pages are fetched.
pub proof fn lemma_label_settled(cache: LabelCache, r: Remote, r2: Remote, class_addr: u64)
    requires
        r.grows_to(r2),
    ensures
        r.mem.settles(cache.label(r, class_addr), cache.label(r2, class_addr)),
{
    broadcast use crate::ue::fname::lemma_name_at_settled;

}

/// A static address stands as far from where the disassembler loads the image as the
/// running one from where it is.
pub proof fn lemma_static_addr(runtime: u64, base: u64)
    ensures
        static_addr(runtime, base).ida.wrapping_sub(IMAGE_BASE) == runtime.wrapping_sub(base),
        base.wrapping_add(static_addr(runtime, base).rva) == runtime,
{
}

} // verus!
