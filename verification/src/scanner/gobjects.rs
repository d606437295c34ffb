//! Recognises the FUObjectArray among the addresses that the code refers to.

use crate::mem::{Memory, Outcome, ProcessHandle};
use crate::scanner::pattern::{collect_rip_targets, TargetList};
use crate::scanner::EngineLayout;
use crate::text::{insert_distinct, str_equal};
use crate::ue::fname::{FNamePool, Remote};
use crate::ue::offsets::{
    MAX_NAME_INDEX, MAX_OBJECTS, MAX_USERSPACE, MIN_OBJECTS, MIN_VALID_PTR, UOBJECT_ARRAY_NUM_ELEMENTS,
    UOBJECT_ARRAY_OBJECTS, UOBJECT_CLASS, UOBJECT_FNAME,
};
use vstd::prelude::*;
use vstd::string::*;

verus! {

broadcast use {
    crate::ue::fname::lemma_pool_keeps_itself,
    crate::ue::fname::lemma_pool_keeps_transitive,
};

// ── Safe pointer arithmetic ─────────────────────────────────────────

/// A pointer above the smallest plausible one.
pub open spec fn plausible(p: Outcome<Option<u64>>) -> Outcome<Option<u64>> {
    match p {
        Ok(Some(p)) => if p > MIN_VALID_PTR {
            Ok(Some(p))
        } else {
            Ok(None)
        },
        other => other,
    }
}

impl Memory {
    /// The user-space pointer at the user-space address `addr`.
    pub open spec fn safe_pointer(self, addr: u64) -> Outcome<Option<u64>> {
        if addr > MAX_USERSPACE {
            Ok(None)
        } else {
            match self.pointer(addr) {
                Ok(Some(p)) => if p <= MAX_USERSPACE {
                    Ok(Some(p))
                } else {
                    Ok(None)
                },
                other => other,
            }
        }
    }

    /// The user-space pointer `offset` bytes behind `base`.
    pub open spec fn safe_pointer_at(self, base: u64, offset: u64) -> Outcome<Option<u64>> {
        if base + offset > u64::MAX {
            Ok(None)
        } else {
            self.safe_pointer((base + offset) as u64)
        }
    }

    /// The number at a user-space address `offset` bytes behind `base`.
    pub open spec fn safe_u32(self, base: u64, offset: u64) -> Outcome<Option<u32>> {
        if base + offset > MAX_USERSPACE {
            Ok(None)
        } else {
            self.value::<u32>((base + offset) as u64)
        }
    }
}

/// The address `offset` bytes behind `base`, if it is in user space.
fn user_space(base: u64, offset: u64) -> (r: Option<u64>)
    ensures
        r == (if base + offset > MAX_USERSPACE {
            None
        } else {
            Some((base + offset) as u64)
        }),
{
    match base.checked_add(offset) {
        Some(addr) if addr <= MAX_USERSPACE => Some(addr),
        _ => None,
    }
}

pub fn safe_ptr(proc: &ProcessHandle, addr: u64) -> (r: Outcome<Option<u64>>)
    ensures
        r == proc@.safe_pointer(addr),
{
    if addr > MAX_USERSPACE {
        return Ok(None);
    }
    match proc.ptr(addr)? {
        Some(p) if p <= MAX_USERSPACE => Ok(Some(p)),
        _ => Ok(None),
    }
}

pub fn safe_ptr_at(proc: &ProcessHandle, base: u64, offset: u64) -> (r: Outcome<Option<u64>>)
    ensures
        r == proc@.safe_pointer_at(base, offset),
{
    match base.checked_add(offset) {
        Some(addr) => safe_ptr(proc, addr),
        None => Ok(None),
    }
}

pub fn safe_read_u32(proc: &ProcessHandle, base: u64, offset: u64) -> (r: Outcome<Option<u32>>)
    ensures
        r == proc@.safe_u32(base, offset),
{
    match user_space(base, offset) {
        Some(addr) => proc.read::<u32>(addr),
        None => Ok(None),
    }
}

// ── Probing ─────────────────────────────────────────────────────────

/// How many items are probed. It takes enough of them to exercise real class
/// diversity: genuine GObjects starts with Package/Class/Function/ScriptStruct
/// and adds more classes quickly.
pub const PROBE_COUNT: usize = 200;

/// How many sample class names are kept of a probe.
pub const SAMPLE_COUNT: usize = 8;

/// How many bytes of the first chunk are kept of a near miss.
pub const PREVIEW_SIZE: usize = 0x40;

/// What probing the first chunk with one FUObjectItem stride showed.
#[derive(Debug)]
pub struct StrideResult {
    pub stride: usize,
    /// How many items lead to a valid class name.
    pub valid: usize,
    /// How many different class names there are.
    pub unique: usize,
    /// One of them is a class that every game has.
    pub known: bool,
    /// The first few class names in alphabetical order.
    pub samples: Vec<String>,
}

/// A [`StrideResult`] as a mathematical value.
pub struct StrideView {
    pub stride: usize,
    pub valid: usize,
    pub unique: usize,
    pub known: bool,
    pub samples: Seq<Seq<char>>,
}

impl DeepView for StrideResult {
    type V = StrideView;

    open spec fn deep_view(&self) -> StrideView {
        StrideView {
            stride: self.stride,
            valid: self.valid,
            unique: self.unique,
            known: self.known,
            samples: self.samples.deep_view(),
        }
    }
}

/// A class that every game has.
pub open spec fn is_known_class(name: Seq<char>) -> bool {
    ||| name == "Class"@
    ||| name == "Package"@
    ||| name == "Function"@
    ||| name == "ScriptStruct"@
    ||| name == "Enum"@
}

fn known_class(name: &str) -> (r: bool)
    ensures
        r == is_known_class(name@),
{
    str_equal(name, "Class") || str_equal(name, "Package") || str_equal(name, "Function")
        || str_equal(name, "ScriptStruct") || str_equal(name, "Enum")
}

/// Some of `names` is a class that every game has.
pub open spec fn any_known(names: Seq<Seq<char>>) -> bool {
    exists|i: int| 0 <= i < names.len() && is_known_class(#[trigger] names[i])
}

/// The first few of `names`.
pub open spec fn first_names(names: Seq<Seq<char>>) -> Seq<Seq<char>> {
    if names.len() < SAMPLE_COUNT {
        names
    } else {
        names.take(SAMPLE_COUNT as int)
    }
}

/// What the class names found with a stride amount to.
pub open spec fn tally(stride: usize, found: Seq<Seq<char>>) -> StrideView {
    StrideView {
        stride,
        valid: found.len() as usize,
        unique: crate::text::distinct(found).len() as usize,
        known: any_known(found),
        samples: first_names(crate::text::distinct(found)),
    }
}

impl Remote {
    /// The class name that item number `i` of the chunk at `chunk0` leads to, if it
    /// is a plausible one.
    pub open spec fn probe(self, chunk0: u64, stride: usize, i: int) -> Outcome<Option<Seq<char>>> {
        let item = chunk0 + i * stride;
        if item > MAX_USERSPACE {
            Ok(None)
        } else {
            match plausible(self.mem.safe_pointer(item as u64)) {
                Err(e) => Err(e),
                Ok(None) => Ok(None),
                Ok(Some(obj)) => match plausible(self.mem.safe_pointer_at(obj, UOBJECT_CLASS)) {
                    Err(e) => Err(e),
                    Ok(None) => Ok(None),
                    Ok(Some(class)) => match self.mem.safe_u32(class, UOBJECT_FNAME) {
                        Err(e) => Err(e),
                        Ok(None) => Ok(None),
                        Ok(Some(idx)) => if idx >= MAX_NAME_INDEX {
                            Ok(None)
                        } else {
                            match self.names.name(idx, 0) {
                                Err(e) => Err(e),
                                Ok(None) => Ok(None),
                                Ok(Some(name)) => if vstd::utf8::is_ascii_chars(name) && name.len()
                                    >= 2 {
                                    Ok(Some(name))
                                } else {
                                    Ok(None)
                                },
                            }
                        },
                    },
                },
            }
        }
    }

    /// The class names that the items of a chunk lead to, by their number.
    pub open spec fn probes(self, chunk0: u64, stride: usize) -> spec_fn(int) -> Outcome<
        Option<Seq<char>>,
    > {
        |i: int| self.probe(chunk0, stride, i)
    }

    /// What probing the chunk at `chunk0` with `stride` shows.
    pub open spec fn stride_result(self, chunk0: u64, stride: usize) -> Outcome<StrideView> {
        match crate::walk::collect(self.probes(chunk0, stride), 0, PROBE_COUNT as int) {
            Err(e) => Err(e),
            Ok(found) => Ok(tally(stride, found)),
        }
    }
}

pub(crate) fn above_min(p: Option<u64>) -> (r: Option<u64>)
    ensures
        forall|m: Outcome<Option<u64>>| m == Ok::<Option<u64>, crate::mem::Missing>(p)
            ==> #[trigger] plausible(m) == Ok::<Option<u64>, crate::mem::Missing>(r),
{
    match p {
        Some(p) if p > MIN_VALID_PTR => Some(p),
        _ => None,
    }
}

/// Follow item number `i` of the chunk at `chunk0` to its class name.
fn probe_item(proc: &ProcessHandle, names: &mut FNamePool, chunk0: u64, stride: usize, i: usize) -> (r:
    Outcome<Option<String>>)
    requires
        stride <= 0x100,
        i < PROBE_COUNT,
    ensures
        crate::mem::shown(r) == old(names).remote(proc@).probe(chunk0, stride, i as int),
        final(names).same(*old(names), proc@),
{
    assert(i * stride <= PROBE_COUNT * 0x100) by (nonlinear_arith)
        requires
            i < PROBE_COUNT,
            stride <= 0x100,
    ;
    let item_addr: u64 = match user_space(chunk0, (i * stride) as u64) {
        Some(addr) => addr,
        None => {
            return Ok(None);
        },
    };
    let obj_ptr: u64 = match above_min(safe_ptr(proc, item_addr)?) {
        Some(p) => p,
        None => {
            return Ok(None);
        },
    };
    let class_ptr: u64 = match above_min(safe_ptr_at(proc, obj_ptr, UOBJECT_CLASS)?) {
        Some(p) => p,
        None => {
            return Ok(None);
        },
    };
    let class_name_idx: u32 = match safe_read_u32(proc, class_ptr, UOBJECT_FNAME)? {
        Some(idx) => idx,
        None => {
            return Ok(None);
        },
    };
    if class_name_idx >= MAX_NAME_INDEX {
        return Ok(None);
    }
    match names.resolve_index(proc, class_name_idx, 0)? {
        Some(name) => {
            if name.as_str().is_ascii() && name.as_str().unicode_len() >= 2 {
                Ok(Some(name))
            } else {
                Ok(None)
            }
        },
        None => Ok(None),
    }
}

/// As many different names as names at most.
proof fn lemma_distinct_len(names: Seq<Seq<char>>)
    ensures
        crate::text::distinct(names).len() <= names.len(),
    decreases names.len(),
{
    if names.len() > 0 {
        lemma_distinct_len(names.drop_last());
        lemma_inserted_len(crate::text::distinct(names.drop_last()), names.last());
    }
}

proof fn lemma_inserted_len(list: Seq<Seq<char>>, name: Seq<char>)
    ensures
        crate::text::inserted(list, name).len() <= list.len() + 1,
    decreases list.len(),
{
    if list.len() > 0 {
        lemma_inserted_len(list.drop_first(), name);
    }
}

/// Probe the items of the chunk at `chunk0` with one stride.
fn probe_stride(proc: &ProcessHandle, names: &mut FNamePool, chunk0: u64, stride: usize) -> (r: Outcome<
    StrideResult,
>)
    requires
        stride <= 0x100,
    ensures
        crate::mem::shown(r) == old(names).remote(proc@).stride_result(chunk0, stride),
        final(names).same(*old(names), proc@),
{
    let ghost remote = names.remote(proc@);
    let ghost step = remote.probes(chunk0, stride);
    let ghost mut seen: Seq<Seq<char>> = seq![];
    let mut known = false;
    let mut valid: usize = 0;
    let mut unique: Vec<String> = Vec::new();
    assert(unique.deep_view() =~= seq![]);
    let mut i: usize = 0;
    while i < PROBE_COUNT
        invariant
            i <= PROBE_COUNT,
            stride <= 0x100,
            names.same(*old(names), proc@),
            remote == old(names).remote(proc@),
            step == remote.probes(chunk0, stride),
            crate::walk::collect(step, 0, i as int) == Ok::<Seq<Seq<char>>, crate::mem::Missing>(
                seen,
            ),
            valid == seen.len(),
            valid <= i,
            known == any_known(seen),
            unique.deep_view() == crate::text::distinct(seen),
        decreases PROBE_COUNT - i,
    {
        assert(names.remote(proc@) == remote);
        proof {
            crate::walk::lemma_collect_next(step, 0, i as int);
        }
        let found = match probe_item(proc, names, chunk0, stride, i) {
            Ok(found) => found,
            Err(e) => {
                proof {
                    crate::walk::lemma_collect_stop(step, 0, i as int, PROBE_COUNT as int);
                }
                return Err(e);
            },
        };
        let ghost before = seen;
        proof {
            seen = before + crate::walk::optional(found.deep_view());
        }
        if let Some(class_name) = found {
            valid = valid + 1;
            let ghost name = class_name@;
            proof {
                assert(seen =~= before.push(name));
                assert(seen.drop_last() =~= before);
                assert(seen.last() == name);
                assert forall|k: int| 0 <= k < before.len() implies seen[k] == #[trigger] before[k] by {}
            }
            if known_class(class_name.as_str()) {
                known = true;
                assert(is_known_class(seen[before.len() as int]));
            } else {
                assert(any_known(seen) == any_known(before)) by {
                    if any_known(before) {
                        let k = choose|k: int|
                            0 <= k < before.len() && is_known_class(#[trigger] before[k]);
                        assert(is_known_class(seen[k]));
                    }
                    if any_known(seen) {
                        let k = choose|k: int|
                            0 <= k < seen.len() && is_known_class(#[trigger] seen[k]);
                        assert(is_known_class(before[k]));
                    }
                }
            }
            insert_distinct(&mut unique, class_name);
        } else {
            assert(seen =~= before);
        }
        i = i + 1;
    }
    proof {
        lemma_distinct_len(seen);
    }
    let count: usize = unique.len();
    let mut samples = unique;
    let ghost all = samples.deep_view();
    samples.truncate(SAMPLE_COUNT);
    assert(samples.deep_view() =~= first_names(all));
    Ok(StrideResult { stride, valid, unique: count, known, samples })
}

// ── Verdicts ────────────────────────────────────────────────────────

/// A candidate that looks like an object array but for its objects.
#[derive(Debug)]
pub struct NearMiss {
    pub addr: u64,
    pub base_off: u64,
    pub num_elements: usize,
    pub chunks_ptr: u64,
    pub chunk0: u64,
    /// What each stride showed.
    pub stride_results: Vec<StrideResult>,
    /// The first bytes of the first chunk.
    pub chunk0_preview: Option<Vec<u8>>,
}

/// A [`NearMiss`] as a mathematical value.
pub struct NearMissView {
    pub addr: u64,
    pub base_off: u64,
    pub num_elements: usize,
    pub chunks_ptr: u64,
    pub chunk0: u64,
    pub stride_results: Seq<StrideView>,
    pub chunk0_preview: Option<Seq<u8>>,
}

impl DeepView for NearMiss {
    type V = NearMissView;

    open spec fn deep_view(&self) -> NearMissView {
        NearMissView {
            addr: self.addr,
            base_off: self.base_off,
            num_elements: self.num_elements,
            chunks_ptr: self.chunks_ptr,
            chunk0: self.chunk0,
            stride_results: self.stride_results.deep_view(),
            chunk0_preview: crate::mem::page_bytes(self.chunk0_preview),
        }
    }
}

/// What a candidate for GObjects turned out to be.
#[derive(Debug)]
pub enum Validation {
    Valid { effective_addr: u64, stride: usize },
    NearMiss(NearMiss),
    Reject,
}

/// A [`Validation`] as a mathematical value.
pub enum ValidationView {
    Valid { effective_addr: u64, stride: usize },
    NearMiss(NearMissView),
    Reject,
}

impl DeepView for Validation {
    type V = ValidationView;

    open spec fn deep_view(&self) -> ValidationView {
        match *self {
            Validation::Valid { effective_addr, stride } => ValidationView::Valid {
                effective_addr,
                stride,
            },
            Validation::NearMiss(nm) => ValidationView::NearMiss(nm.deep_view()),
            Validation::Reject => ValidationView::Reject,
        }
    }
}

/// The discriminator is density and presence of core classes, not class
/// diversity: the first entries of a small UE5 title are overwhelmingly UPackages
/// and UClasses, so demanding many different classes rejects legitimate hits.
/// Cyclic or aliased false positives fail the density test (typically at most
/// 15% valid), while real GObjects hits near 100%.
pub open spec fn convincing(valid: int, unique: int, known: bool) -> bool {
    known && valid * 100 / (PROBE_COUNT as int) >= 75 && unique >= 2
}

/// The stride that shows more different classes; the first one if none does.
pub open spec fn better(first: StrideView, second: StrideView) -> StrideView {
    if second.unique > first.unique {
        second
    } else {
        first
    }
}

impl Remote {
    /// The verdict on an object array at `root` whose first chunk stands at `chunk0`.
    pub open spec fn probe_verdict(
        self,
        root: u64,
        original: u64,
        base_off: u64,
        num_elements: usize,
        chunks_ptr: u64,
        chunk0: u64,
    ) -> Outcome<ValidationView> {
        match self.stride_result(chunk0, 0x18) {
            Err(e) => Err(e),
            Ok(first) => match self.stride_result(chunk0, 0x20) {
                Err(e) => Err(e),
                Ok(second) => {
                    let best = better(first, second);
                    if convincing(best.valid as int, best.unique as int, best.known) {
                        Ok(ValidationView::Valid { effective_addr: root, stride: best.stride })
                    } else {
                        match self.mem.fetch(chunk0, PREVIEW_SIZE) {
                            Err(e) => Err(e),
                            Ok(preview) => Ok(
                                ValidationView::NearMiss(
                                    NearMissView {
                                        addr: original,
                                        base_off,
                                        num_elements,
                                        chunks_ptr,
                                        chunk0,
                                        stride_results: seq![first, second],
                                        chunk0_preview: preview,
                                    },
                                ),
                            ),
                        }
                    }
                },
            },
        }
    }

    /// The verdict on an object array at `root`, in the process whose image stands
    /// at `base`.
    pub open spec fn verdict_at(self, base: u64, root: u64, original: u64, base_off: u64) -> Outcome<
        ValidationView,
    > {
        match self.mem.safe_u32(root, UOBJECT_ARRAY_NUM_ELEMENTS) {
            Err(e) => Err(e),
            Ok(None) => Ok(ValidationView::Reject),
            Ok(Some(num)) => if num < MIN_OBJECTS || num >= MAX_OBJECTS {
                Ok(ValidationView::Reject)
            } else {
                match plausible(self.mem.safe_pointer_at(root, UOBJECT_ARRAY_OBJECTS)) {
                    Err(e) => Err(e),
                    Ok(None) => Ok(ValidationView::Reject),
                    Ok(Some(chunks_ptr)) => if chunks_ptr >> 32 == base >> 32 {
                        Ok(ValidationView::Reject)
                    } else {
                        match plausible(self.mem.safe_pointer(chunks_ptr)) {
                            Err(e) => Err(e),
                            Ok(None) => Ok(ValidationView::Reject),
                            Ok(Some(chunk0)) => self.probe_verdict(
                                root,
                                original,
                                base_off,
                                num as usize,
                                chunks_ptr,
                                chunk0,
                            ),
                        }
                    },
                }
            },
        }
    }

    /// The verdict on an object array `base_off` bytes behind `addr`.
    pub open spec fn verdict_behind(self, base: u64, addr: u64, base_off: u64) -> Outcome<
        ValidationView,
    > {
        if addr + base_off > MAX_USERSPACE {
            Ok(ValidationView::Reject)
        } else {
            self.verdict_at(base, (addr + base_off) as u64, addr, base_off)
        }
    }

    /// The verdict on a candidate: a LEA may point to FUObjectArray itself or to its
    /// ObjObjects member at +0x10, so both are tried.
    #[verifier::opaque]
    pub open spec fn verdict(self, base: u64, addr: u64) -> Outcome<ValidationView> {
        match self.verdict_behind(base, addr, 0) {
            Err(e) => Err(e),
            Ok(ValidationView::Valid { effective_addr, stride }) => Ok(
                ValidationView::Valid { effective_addr, stride },
            ),
            Ok(first) => match self.verdict_behind(base, addr, 0x10) {
                Err(e) => Err(e),
                Ok(second) => Ok(closer(first, second)),
            },
        }
    }
}

/// The highest number of valid items among the results of a near miss.
pub open spec fn best_valid(results: Seq<StrideView>) -> usize
    decreases results.len(),
{
    if results.len() == 0 {
        0
    } else {
        let before = best_valid(results.drop_last());
        if results.last().valid > before {
            results.last().valid
        } else {
            before
        }
    }
}

/// The second verdict, if it is more promising than the first, which is not a hit.
pub open spec fn closer(first: ValidationView, second: ValidationView) -> ValidationView {
    match (first, second) {
        (ValidationView::NearMiss(a), ValidationView::NearMiss(b)) => if best_valid(
            b.stride_results,
        ) > best_valid(a.stride_results) {
            second
        } else {
            first
        },
        (_, ValidationView::Reject) => first,
        _ => second,
    }
}

fn get_best_valid(results: &Vec<StrideResult>) -> (best: usize)
    ensures
        best == best_valid(results.deep_view()),
{
    let ghost all = results.deep_view();
    let mut best: usize = 0;
    let mut i: usize = 0;
    assert(all.take(0) =~= seq![]);
    while i < results.len()
        invariant
            i <= results@.len(),
            all == results.deep_view(),
            best == best_valid(all.take(i as int)),
        decreases results@.len() - i,
    {
        proof {
            assert(all.take(i + 1).drop_last() =~= all.take(i as int));
            assert(all.take(i + 1).last() == results@[i as int].deep_view());
        }
        if results[i].valid > best {
            best = results[i].valid;
        }
        i = i + 1;
    }
    assert(all.take(i as int) =~= all);
    best
}

/// Judge an object array at `root` whose first chunk stands at `chunk0`.
fn judge_probes(
    proc: &ProcessHandle,
    names: &mut FNamePool,
    root: u64,
    original: u64,
    base_off: u64,
    num_elements: usize,
    chunks_ptr: u64,
    chunk0: u64,
) -> (r: Outcome<Validation>)
    ensures
        crate::mem::shown(r) == old(names).remote(proc@).probe_verdict(
            root,
            original,
            base_off,
            num_elements,
            chunks_ptr,
            chunk0,
        ),
        final(names).same(*old(names), proc@),
{
    let ghost remote = names.remote(proc@);
    let first = probe_stride(proc, names, chunk0, 0x18)?;
    assert(names.remote(proc@) == remote);
    let second = probe_stride(proc, names, chunk0, 0x20)?;
    proof {
        assert(first.valid <= PROBE_COUNT && second.valid <= PROBE_COUNT) by {
            crate::walk::lemma_collect_len(remote.probes(chunk0, 0x18), 0, PROBE_COUNT as int);
            crate::walk::lemma_collect_len(remote.probes(chunk0, 0x20), 0, PROBE_COUNT as int);
        }
    }
    let best = if second.unique > first.unique {
        &second
    } else {
        &first
    };
    let density_ok = best.valid * 100 / PROBE_COUNT >= 75;
    if best.known && density_ok && best.unique >= 2 {
        return Ok(Validation::Valid { effective_addr: root, stride: best.stride });
    }
    let ghost both = seq![first.deep_view(), second.deep_view()];
    let mut stride_results: Vec<StrideResult> = Vec::new();
    stride_results.push(first);
    stride_results.push(second);
    assert(stride_results.deep_view() =~= both);
    let chunk0_preview = proc.read_bytes(chunk0, PREVIEW_SIZE)?;
    Ok(
        Validation::NearMiss(
            NearMiss {
                addr: original,
                base_off,
                num_elements,
                chunks_ptr,
                chunk0,
                stride_results,
                chunk0_preview,
            },
        ),
    )
}

/// Judge an object array at `root`.
pub fn validate_gobjects_at(
    proc: &ProcessHandle,
    names: &mut FNamePool,
    root: u64,
    original: u64,
    base_off: u64,
) -> (r: Outcome<Validation>)
    ensures
        crate::mem::shown(r) == old(names).remote(proc@).verdict_at(
            proc.base,
            root,
            original,
            base_off,
        ),
        final(names).same(*old(names), proc@),
{
    let num_elements: usize = match safe_read_u32(proc, root, UOBJECT_ARRAY_NUM_ELEMENTS)? {
        Some(n) => n as usize,
        None => {
            return Ok(Validation::Reject);
        },
    };
    if num_elements < MIN_OBJECTS || num_elements >= MAX_OBJECTS {
        return Ok(Validation::Reject);
    }
    let chunks_ptr: u64 = match above_min(safe_ptr_at(proc, root, UOBJECT_ARRAY_OBJECTS)?) {
        Some(p) => p,
        None => {
            return Ok(Validation::Reject);
        },
    };
    // chunks_ptr must point to heap, not back into the image. On Windows the
    // PE lives in the 0x7FF6... (or similar 0x7FFx) range; heap allocations
    // have different high bits. If chunks_ptr shares the image's high 32 bits
    // we're almost certainly misreading a pointer stored in .data as the
    // FUObjectArray fields.
    if (chunks_ptr >> 32) == (proc.base >> 32) {
        return Ok(Validation::Reject);
    }
    let chunk0: u64 = match above_min(safe_ptr(proc, chunks_ptr)?) {
        Some(p) => p,
        None => {
            return Ok(Validation::Reject);
        },
    };
    judge_probes(proc, names, root, original, base_off, num_elements, chunks_ptr, chunk0)
}

fn validate_gobjects_behind(proc: &ProcessHandle, names: &mut FNamePool, addr: u64, base_off: u64) -> (r:
    Outcome<Validation>)
    ensures
        crate::mem::shown(r) == old(names).remote(proc@).verdict_behind(proc.base, addr, base_off),
        final(names).same(*old(names), proc@),
{
    match user_space(addr, base_off) {
        Some(root) => validate_gobjects_at(proc, names, root, addr, base_off),
        None => Ok(Validation::Reject),
    }
}

/// Probe the LEA target at several base offsets (the LEA may point to
/// FUObjectArray itself or to its ObjObjects member at +0x10) and multiple
/// FUObjectItem strides. Returns the effective address + stride that validate.
pub fn validate_gobjects(proc: &ProcessHandle, names: &mut FNamePool, addr: u64) -> (r: Outcome<
    Validation,
>)
    ensures
        crate::mem::shown(r) == old(names).remote(proc@).verdict(proc.base, addr),
        final(names).same(*old(names), proc@),
{
    proof {
        reveal(Remote::verdict);
    }
    let ghost remote = names.remote(proc@);
    let first = validate_gobjects_behind(proc, names, addr, 0)?;
    assert(names.remote(proc@) == remote);
    match first {
        Validation::Valid { effective_addr, stride } => Ok(
            Validation::Valid { effective_addr, stride },
        ),
        Validation::Reject => validate_gobjects_behind(proc, names, addr, 0x10),
        Validation::NearMiss(a) => match validate_gobjects_behind(proc, names, addr, 0x10)? {
            Validation::NearMiss(b) => {
                if get_best_valid(&b.stride_results) > get_best_valid(&a.stride_results) {
                    Ok(Validation::NearMiss(b))
                } else {
                    Ok(Validation::NearMiss(a))
                }
            },
            Validation::Reject => Ok(Validation::NearMiss(a)),
            hit => Ok(hit),
        },
    }
}

// ── Near misses ─────────────────────────────────────────────────────

/// How many near misses are shown.
pub const NEAR_MISS_COUNT: usize = 10;

/// `(unique, valid)` scores in the order in which they are ranked.
pub open spec fn score_lt(a: (usize, usize), b: (usize, usize)) -> bool {
    a.0 < b.0 || (a.0 == b.0 && a.1 < b.1)
}

/// The best `(unique, valid)` score among the results of a near miss.
pub open spec fn best_score(results: Seq<StrideView>) -> (usize, usize)
    decreases results.len(),
{
    if results.len() == 0 {
        (0, 0)
    } else {
        let before = best_score(results.drop_last());
        let here = (results.last().unique, results.last().valid);
        if score_lt(before, here) {
            here
        } else {
            before
        }
    }
}

/// Near misses ranked by their best score, with one more in its place: behind
/// those that score as much.
pub open spec fn ranked(list: Seq<NearMissView>, nm: NearMissView) -> Seq<NearMissView>
    decreases list.len(),
{
    if list.len() > 0 && score_lt(
        best_score(list.last().stride_results),
        best_score(nm.stride_results),
    ) {
        ranked(list.drop_last(), nm).push(list.last())
    } else {
        list.push(nm)
    }
}

/// One of the near misses has its first chunk at `chunk0`.
pub open spec fn chunk_seen(list: Seq<NearMissView>, chunk0: u64) -> bool {
    exists|i: int| 0 <= i < list.len() && (#[trigger] list[i]).chunk0 == chunk0
}

/// Near misses with one more, unless its first chunk has been seen.
pub open spec fn noted(list: Seq<NearMissView>, nm: NearMissView) -> Seq<NearMissView> {
    if chunk_seen(list, nm.chunk0) {
        list
    } else {
        ranked(list, nm)
    }
}

fn get_best_score(results: &Vec<StrideResult>) -> (best: (usize, usize))
    ensures
        best == best_score(results.deep_view()),
{
    let ghost all = results.deep_view();
    let mut best: (usize, usize) = (0, 0);
    let mut i: usize = 0;
    assert(all.take(0) =~= seq![]);
    while i < results.len()
        invariant
            i <= results@.len(),
            all == results.deep_view(),
            best == best_score(all.take(i as int)),
        decreases results@.len() - i,
    {
        proof {
            assert(all.take(i + 1).drop_last() =~= all.take(i as int));
            assert(all.take(i + 1).last() == results@[i as int].deep_view());
        }
        let unique: usize = results[i].unique;
        let valid: usize = results[i].valid;
        if best.0 < unique || (best.0 == unique && best.1 < valid) {
            best = (unique, valid);
        }
        i = i + 1;
    }
    assert(all.take(i as int) =~= all);
    best
}

fn scores_below(nm: &NearMiss, score: (usize, usize)) -> (r: bool)
    ensures
        r == score_lt(best_score(nm.deep_view().stride_results), score),
{
    let own: (usize, usize) = get_best_score(&nm.stride_results);
    own.0 < score.0 || (own.0 == score.0 && own.1 < score.1)
}

/// What scores less stays behind.
proof fn lemma_ranked_before(list: Seq<NearMissView>, nm: NearMissView, j: int)
    requires
        0 <= j <= list.len(),
        forall|k: int|
            j <= k < list.len() ==> score_lt(
                best_score((#[trigger] list[k]).stride_results),
                best_score(nm.stride_results),
            ),
    ensures
        ranked(list, nm) == ranked(list.take(j), nm) + list.skip(j),
    decreases list.len() - j,
{
    if j == list.len() {
        assert(list.take(j) =~= list);
        assert(ranked(list, nm) + list.skip(j) =~= ranked(list, nm));
    } else {
        let front = list.drop_last();
        assert(list.last() == list[list.len() - 1]);
        assert forall|k: int| j <= k < front.len() implies score_lt(
            best_score((#[trigger] front[k]).stride_results),
            best_score(nm.stride_results),
        ) by {
            assert(front[k] == list[k]);
        }
        lemma_ranked_before(front, nm, j);
        assert(front.take(j) =~= list.take(j));
        assert((ranked(list.take(j), nm) + front.skip(j)).push(list.last()) =~= ranked(
            list.take(j),
            nm,
        ) + list.skip(j));
    }
}

/// Note a near miss, unless its first chunk has been seen.
fn note_near_miss(list: &mut Vec<NearMiss>, nm: NearMiss)
    ensures
        final(list).deep_view() == noted(old(list).deep_view(), nm.deep_view()),
{
    let ghost before = list.deep_view();
    let ghost new = nm.deep_view();
    let mut i: usize = 0;
    while i < list.len()
        invariant
            i <= list@.len(),
            before == list.deep_view(),
            *list == *old(list),
            new == nm.deep_view(),
            forall|k: int| 0 <= k < i ==> (#[trigger] before[k]).chunk0 != nm.chunk0,
        decreases list@.len() - i,
    {
        if list[i].chunk0 == nm.chunk0 {
            assert(before[i as int].chunk0 == new.chunk0);
            return;
        }
        i = i + 1;
    }
    let score: (usize, usize) = get_best_score(&nm.stride_results);
    let mut j: usize = list.len();
    while j > 0 && scores_below(&list[j - 1], score)
        invariant
            j <= list@.len(),
            before == list.deep_view(),
            *list == *old(list),
            score == best_score(new.stride_results),
            forall|k: int|
                j <= k < before.len() ==> score_lt(
                    best_score((#[trigger] before[k]).stride_results),
                    score,
                ),
        decreases j,
    {
        j = j - 1;
    }
    list.insert(j, nm);
    proof {
        lemma_ranked_before(before, new, j as int);
        if j > 0 {
            assert(before.take(j as int).last() == before[j - 1]);
        }
        assert(list.deep_view() =~= before.take(j as int).push(new) + before.skip(j as int));
    }
}

// ── Search ──────────────────────────────────────────────────────────

/// An instruction that refers to memory relative to its own end: prefix, opcode
/// and ModR/M byte, then a displacement of four bytes.
pub open spec fn rip_pattern(prefix: u8, opcode: u8, modrm: u8) -> Seq<Option<u8>> {
    seq![Some(prefix), Some(opcode), Some(modrm), None, None, None, None]
}

pub fn make_pattern(prefix: u8, opcode: u8, modrm: u8) -> (p: Vec<Option<u8>>)
    ensures
        p@ == rip_pattern(prefix, opcode, modrm),
{
    let p: Vec<Option<u8>> = vec![
        Some(prefix),
        Some(opcode),
        Some(modrm),
        None,
        None,
        None,
        None,
    ];
    assert(p@ =~= rip_pattern(prefix, opcode, modrm));
    p
}

/// How many patterns name a register that GObjects may be loaded into: LEA and MOV
/// with seven registers under the 48 prefix, and with eight under the 4C prefix.
pub const PATTERN_COUNT: usize = 30;

/// The ModR/M byte of a register: its number in bits 3..5, and RIP-relative addressing.
pub open spec fn modrm(register: int) -> u8 {
    (8 * register + 5) as u8
}

/// The registers under the 48 prefix, by their place: rax=000, rcx=001, rdx=010,
/// rbx=011, rbp=101, rsi=110, rdi=111; rsp=100 is passed over.
pub open spec fn low_register(i: int) -> int {
    if i < 4 {
        i
    } else {
        i + 1
    }
}

/// All register targets for REX.W LEA / MOV with RIP-relative addressing.
/// Compilers routinely park globals in rsi/rdi/rbx (non-volatile) across calls,
/// so those are covered too. The 4C prefix extends to r8..r15 using the same
/// encoding; none of these is passed over.
pub open spec fn gobjects_patterns() -> Seq<Seq<Option<u8>>> {
    Seq::new(
        PATTERN_COUNT as nat,
        |i: int|
            if i < 7 {
                rip_pattern(0x48, 0x8D, modrm(low_register(i)))
            } else if i < 14 {
                rip_pattern(0x48, 0x8B, modrm(low_register(i - 7)))
            } else if i < 22 {
                rip_pattern(0x4C, 0x8D, modrm(i - 14))
            } else {
                rip_pattern(0x4C, 0x8B, modrm(i - 22))
            },
    )
}

fn make_gobjects_patterns() -> (patterns: Vec<Vec<Option<u8>>>)
    ensures
        crate::scanner::pattern::pattern_seqs(patterns@) == gobjects_patterns(),
{
    let mut patterns: Vec<Vec<Option<u8>>> = Vec::new();
    let mut i: usize = 0;
    while i < PATTERN_COUNT
        invariant
            i <= PATTERN_COUNT,
            patterns@.len() == i,
            forall|k: int| 0 <= k < i ==> (#[trigger] patterns@[k])@ == gobjects_patterns()[k],
        decreases PATTERN_COUNT - i,
    {
        let prefix: u8 = if i < 14 {
            0x48
        } else {
            0x4C
        };
        let opcode: u8 = if i < 7 || (14 <= i && i < 22) {
            0x8D
        } else {
            0x8B
        };
        let place: usize = if i < 7 {
            i
        } else if i < 14 {
            i - 7
        } else if i < 22 {
            i - 14
        } else {
            i - 22
        };
        let register: usize = if i < 14 && place >= 4 {
            place + 1
        } else {
            place
        };
        patterns.push(make_pattern(prefix, opcode, (8 * register + 5) as u8));
        i = i + 1;
    }
    assert(crate::scanner::pattern::pattern_seqs(patterns@) =~= gobjects_patterns());
    patterns
}

/// The first few of the near misses.
pub open spec fn best_misses(misses: Seq<NearMissView>) -> Seq<NearMissView> {
    if misses.len() < NEAR_MISS_COUNT {
        misses
    } else {
        misses.take(NEAR_MISS_COUNT as int)
    }
}

fn top_misses(list: Vec<NearMiss>) -> (misses: Vec<NearMiss>)
    ensures
        misses.deep_view() == best_misses(list.deep_view()),
{
    let mut misses = list;
    misses.truncate(NEAR_MISS_COUNT);
    assert(misses.deep_view() =~= best_misses(list.deep_view()));
    misses
}

/// What searching the candidates for GObjects has come to.
pub enum SearchView {
    Found { addr: u64, stride: usize },
    /// No hit so far; the near misses, best first.
    NotFound(Seq<NearMissView>),
}

impl Remote {
    /// What the first `n` of `targets` come to.
    pub open spec fn search(self, base: u64, targets: Seq<u64>, n: nat) -> Outcome<SearchView>
        decreases n,
    {
        if n == 0 {
            Ok(SearchView::NotFound(seq![]))
        } else {
            match self.search(base, targets, (n - 1) as nat) {
                Ok(SearchView::NotFound(misses)) => match self.verdict(base, targets[n - 1]) {
                    Err(e) => Err(e),
                    Ok(ValidationView::Valid { effective_addr, stride }) => Ok(
                        SearchView::Found { addr: effective_addr, stride },
                    ),
                    Ok(ValidationView::NearMiss(nm)) => Ok(SearchView::NotFound(noted(misses, nm))),
                    Ok(ValidationView::Reject) => Ok(SearchView::NotFound(misses)),
                },
                other => other,
            }
        }
    }

    /// The object array that the code of the image at `base` refers to.
    pub open spec fn gobjects(self, base: u64, start: u64, size: u64) -> Outcome<SearchView> {
        match self.mem.rip_targets(start, size, gobjects_patterns(), PATTERN_COUNT as nat) {
            Err(e) => Err(e),
            Ok(targets) => match self.search(base, targets, targets.len()) {
                Ok(SearchView::NotFound(misses)) => Ok(SearchView::NotFound(best_misses(misses))),
                other => other,
            },
        }
    }
}

/// What the first targets come to decides, if it is a hit or a read.
proof fn lemma_search_stop(remote: Remote, base: u64, targets: Seq<u64>, at: nat, n: nat)
    requires
        at <= n,
        !(remote.search(base, targets, at) matches Ok(SearchView::NotFound(_))),
    ensures
        remote.search(base, targets, n) == remote.search(base, targets, at),
    decreases n,
{
    if at < n {
        lemma_search_stop(remote, base, targets, at, (n - 1) as nat);
    }
}

/// What the search for GObjects came to.
#[derive(Debug)]
pub enum GObjectsSearch {
    Found { addr: u64, layout: EngineLayout },
    /// No hit; the best near misses.
    NotFound(Vec<NearMiss>),
}

impl DeepView for GObjectsSearch {
    type V = SearchView;

    open spec fn deep_view(&self) -> SearchView {
        match *self {
            GObjectsSearch::Found { addr, layout } => SearchView::Found {
                addr,
                stride: layout.fuobject_item_size,
            },
            GObjectsSearch::NotFound(misses) => SearchView::NotFound(misses.deep_view()),
        }
    }
}

/// How far the search for GObjects has come. It saves the candidates already
/// judged while pages are fetched for the rest.
pub struct GObjectsWalk {
    list: TargetList,
    next: usize,
    misses: Vec<NearMiss>,
}

impl GObjectsWalk {
    /// The walk has not begun.
    pub closed spec fn fresh(self) -> bool {
        &&& self.list.patterns_done() == 0
        &&& self.list.items() == Seq::<u64>::empty()
        &&& self.next == 0
        &&& self.misses.deep_view() == Seq::<NearMissView>::empty()
    }

    /// The walk has come this far over the code at `start`.
    pub closed spec fn sound(self, remote: Remote, base: u64, start: u64, size: u64) -> bool {
        &&& self.list.sound(remote.mem, start, size, gobjects_patterns())
        &&& self.next <= self.list.items().len()
        &&& self.next > 0 ==> self.list.patterns_done() == PATTERN_COUNT
        &&& remote.search(base, self.list.items(), self.next as nat) == Ok::<
            SearchView,
            crate::mem::Missing,
        >(SearchView::NotFound(self.misses.deep_view()))
    }

    pub fn new() -> (walk: Self)
        ensures
            walk.fresh(),
    {
        let walk = GObjectsWalk { list: TargetList::new(), next: 0, misses: Vec::new() };
        assert(walk.misses.deep_view() =~= seq![]);
        walk
    }

    /// Collect the candidates.
    fn gather(
        &mut self,
        proc: &ProcessHandle,
        names: &FNamePool,
        text_start: u64,
        text_size: u64,
    ) -> (r: Outcome<()>)
        requires
            old(self).sound(names.remote(proc@), proc.base, text_start, text_size),
        ensures
            final(self).sound(names.remote(proc@), proc.base, text_start, text_size),
            proc@.rip_targets(text_start, text_size, gobjects_patterns(), PATTERN_COUNT as nat) == (match r {
                Ok(_) => Ok(final(self).list.items()),
                Err(e) => Err(e),
            }),
            r is Ok ==> final(self).list.patterns_done() == PATTERN_COUNT,
    {
        let patterns = make_gobjects_patterns();
        assert(patterns@.len() == crate::scanner::pattern::pattern_seqs(patterns@).len());
        collect_rip_targets(proc, text_start, text_size, &patterns, &mut self.list)
    }
}

/// A walk that has not begun has nothing wrong.
pub proof fn lemma_fresh_gobjects_walk(
    walk: GObjectsWalk,
    remote: Remote,
    base: u64,
    start: u64,
    size: u64,
)
    requires
        walk.fresh(),
    ensures
        walk.sound(remote, base, start, size),
{
}

/// Search the code of the image for the address of the object array.
pub fn scan_gobjects(
    proc: &ProcessHandle,
    names: &mut FNamePool,
    text_start: u64,
    text_size: u64,
    walk: &mut GObjectsWalk,
) -> (r: Outcome<GObjectsSearch>)
    requires
        old(walk).sound(old(names).remote(proc@), proc.base, text_start, text_size),
    ensures
        crate::mem::shown(r) == old(names).remote(proc@).gobjects(
            proc.base,
            text_start,
            text_size,
        ),
        final(walk).sound(old(names).remote(proc@), proc.base, text_start, text_size),
        final(names).same(*old(names), proc@),
{
    let ghost remote = names.remote(proc@);
    let ghost base = proc.base;
    walk.gather(proc, names, text_start, text_size)?;
    let ghost targets = walk.list.items();
    while walk.next < walk.list.len()
        invariant
            names.same(*old(names), proc@),
            remote == old(names).remote(proc@),
            base == proc.base,
            walk.sound(remote, base, text_start, text_size),
            walk.list.patterns_done() == PATTERN_COUNT,
            targets == walk.list.items(),
            remote.mem.rip_targets(text_start, text_size, gobjects_patterns(), PATTERN_COUNT as nat) == Ok::<
                Seq<u64>,
                crate::mem::Missing,
            >(targets),
        decreases walk.list.items().len() - walk.next,
    {
        assert(names.remote(proc@) == remote);
        let ghost at = (walk.next + 1) as nat;
        match validate_gobjects(proc, names, walk.list.get(walk.next)) {
            Err(e) => {
                proof {
                    lemma_search_stop(remote, base, targets, at, targets.len());
                }
                return Err(e);
            },
            Ok(Validation::Valid { effective_addr, stride }) => {
                proof {
                    lemma_search_stop(remote, base, targets, at, targets.len());
                }
                return Ok(
                    GObjectsSearch::Found {
                        addr: effective_addr,
                        layout: EngineLayout { fuobject_item_size: stride },
                    },
                );
            },
            Ok(Validation::NearMiss(nm)) => {
                note_near_miss(&mut walk.misses, nm);
            },
            Ok(Validation::Reject) => {},
        }
        walk.next = walk.next + 1;
    }
    // Keep only the top near misses, ranked by their best (unique, valid) score.
    let mut misses: Vec<NearMiss> = Vec::new();
    assert(misses.deep_view() =~= seq![]);
    std::mem::swap(&mut misses, &mut walk.misses);
    walk.next = 0;
    Ok(GObjectsSearch::NotFound(top_misses(misses)))
}

// ── Laws ────────────────────────────────────────────────────────────

impl Remote {
    /// An object array stands at `addr`: its element count is sane, its chunks are not
    /// in the image, and with this stride most of its first objects have a class with a
    /// plausible name, one of which every game has.
    pub open spec fn holds_objects(self, base: u64, addr: u64, stride: usize) -> bool {
        &&& self.mem.safe_u32(addr, UOBJECT_ARRAY_NUM_ELEMENTS) matches Ok(Some(num))
        &&& MIN_OBJECTS <= num < MAX_OBJECTS
        &&& plausible(self.mem.safe_pointer_at(addr, UOBJECT_ARRAY_OBJECTS)) matches Ok(
            Some(chunks_ptr),
        )
        &&& chunks_ptr >> 32 != base >> 32
        &&& plausible(self.mem.safe_pointer(chunks_ptr)) matches Ok(Some(chunk0))
        &&& self.stride_result(chunk0, stride) matches Ok(shown)
        &&& convincing(shown.valid as int, shown.unique as int, shown.known)
    }
}

/// A candidate that is judged valid holds objects.
pub proof fn lemma_valid_holds_objects(r: Remote, base: u64, addr: u64)
    ensures
        r.verdict(base, addr) matches Ok(ValidationView::Valid { effective_addr, stride }) ==> {
            &&& r.holds_objects(base, effective_addr, stride)
            &&& stride == 0x18 || stride == 0x20
            &&& effective_addr == addr || effective_addr == addr + 0x10
        },
{
    reveal(Remote::verdict);
    lemma_valid_behind(r, base, addr, 0);
    lemma_valid_behind(r, base, addr, 0x10);
}

proof fn lemma_valid_behind(r: Remote, base: u64, addr: u64, base_off: u64)
    ensures
        r.verdict_behind(base, addr, base_off) matches Ok(
            ValidationView::Valid { effective_addr, stride },
        ) ==> {
            &&& r.holds_objects(base, effective_addr, stride)
            &&& stride == 0x18 || stride == 0x20
            &&& effective_addr == addr + base_off
        },
{
}

/// The address that the search finds holds objects.
pub proof fn lemma_found_holds_objects(r: Remote, base: u64, targets: Seq<u64>, n: nat)
    ensures
        r.search(base, targets, n) matches Ok(SearchView::Found { addr, stride }) ==> {
            &&& r.holds_objects(base, addr, stride)
            &&& stride == 0x18 || stride == 0x20
        },
    decreases n,
{
    if n > 0 {
        lemma_found_holds_objects(r, base, targets, (n - 1) as nat);
        lemma_valid_holds_objects(r, base, targets[n - 1]);
    }
}

/// No near miss scores more than one in front of it.
pub open spec fn best_first(list: Seq<NearMissView>) -> bool {
    forall|i: int, j: int|
        0 <= i < j < list.len() ==> !score_lt(
            best_score((#[trigger] list[i]).stride_results),
            best_score((#[trigger] list[j]).stride_results),
        )
}

/// No two near misses have the same first chunk.
pub open spec fn chunks_differ(list: Seq<NearMissView>) -> bool {
    forall|i: int, j: int|
        0 <= i < j < list.len() ==> (#[trigger] list[i]).chunk0 != (#[trigger] list[j]).chunk0
}

proof fn lemma_ranked(list: Seq<NearMissView>, nm: NearMissView)
    requires
        best_first(list),
    ensures
        best_first(ranked(list, nm)),
        ranked(list, nm).len() == list.len() + 1,
        forall|i: int|
            0 <= i < ranked(list, nm).len() ==> (#[trigger] ranked(list, nm)[i]) == nm
                || list.contains(ranked(list, nm)[i]),
        chunks_differ(list) && !chunk_seen(list, nm.chunk0) ==> chunks_differ(ranked(list, nm)),
    decreases list.len(),
{
    let new = ranked(list, nm);
    let score = best_score(nm.stride_results);
    if list.len() > 0 && score_lt(best_score(list.last().stride_results), score) {
        let front = list.drop_last();
        assert forall|i: int| 0 <= i < front.len() implies #[trigger] front[i] == list[i] by {}
        lemma_ranked(front, nm);
        let head = ranked(front, nm);
        assert forall|i: int| 0 <= i < new.len() implies (#[trigger] new[i]) == nm || list.contains(
            new[i],
        ) by {
            if i < head.len() {
                assert(new[i] == head[i]);
                if head[i] != nm {
                    assert(list[front.index_of(head[i])] == head[i]);
                }
            } else {
                assert(new[i] == list[list.len() - 1]);
            }
        }
        assert forall|i: int, j: int| 0 <= i < j < new.len() implies !score_lt(
            best_score((#[trigger] new[i]).stride_results),
            best_score((#[trigger] new[j]).stride_results),
        ) by {
            assert(new[i] == head[i]);
            if j < head.len() {
                assert(new[j] == head[j]);
            } else if head[i] != nm {
                let k = front.index_of(head[i]);
                assert(list[k] == head[i]);
            }
        }
        if chunks_differ(list) && !chunk_seen(list, nm.chunk0) {
            assert forall|i: int, j: int| 0 <= i < j < front.len() implies (
            #[trigger] front[i]).chunk0 != (#[trigger] front[j]).chunk0 by {
                assert(list[i].chunk0 != list[j].chunk0);
            }
            assert(!chunk_seen(front, nm.chunk0)) by {
                if chunk_seen(front, nm.chunk0) {
                    let k = choose|k: int|
                        0 <= k < front.len() && (#[trigger] front[k]).chunk0 == nm.chunk0;
                    assert(list[k].chunk0 == nm.chunk0);
                }
            }
            assert forall|i: int, j: int| 0 <= i < j < new.len() implies (#[trigger] new[i]).chunk0
                != (#[trigger] new[j]).chunk0 by {
                assert(new[i] == head[i]);
                if j < head.len() {
                    assert(new[j] == head[j]);
                } else {
                    assert(new[j] == list[list.len() - 1]);
                    if head[i] != nm {
                        let k = front.index_of(head[i]);
                        assert(list[k] == head[i]);
                    }
                }
            }
        }
    } else {
        assert forall|i: int| 0 <= i < new.len() implies (#[trigger] new[i]) == nm || list.contains(
            new[i],
        ) by {
            if i < list.len() {
                assert(new[i] == list[i]);
            }
        }
        assert forall|i: int, j: int| 0 <= i < j < new.len() implies !score_lt(
            best_score((#[trigger] new[i]).stride_results),
            best_score((#[trigger] new[j]).stride_results),
        ) by {
            assert(new[i] == list[i]);
            if j < list.len() {
                assert(new[j] == list[j]);
            } else if i < list.len() - 1 {
                assert(!score_lt(
                    best_score(list[i].stride_results),
                    best_score(list[list.len() - 1].stride_results),
                ));
            }
        }
        if chunks_differ(list) && !chunk_seen(list, nm.chunk0) {
            assert forall|i: int, j: int| 0 <= i < j < new.len() implies (#[trigger] new[i]).chunk0
                != (#[trigger] new[j]).chunk0 by {
                assert(new[i] == list[i]);
                if j < list.len() {
                    assert(new[j] == list[j]);
                }
            }
        }
    }
}

/// The near misses of a search stand best first, and no first chunk stands twice.
pub proof fn lemma_misses_are_ranked(r: Remote, base: u64, targets: Seq<u64>, n: nat)
    ensures
        r.search(base, targets, n) matches Ok(SearchView::NotFound(misses)) ==> best_first(misses)
            && chunks_differ(misses),
    decreases n,
{
    if n > 0 {
        lemma_misses_are_ranked(r, base, targets, (n - 1) as nat);
        match (r.search(base, targets, (n - 1) as nat), r.verdict(base, targets[n - 1])) {
            (Ok(SearchView::NotFound(misses)), Ok(ValidationView::NearMiss(nm))) => {
                lemma_ranked(misses, nm);
            },
            _ => {},
        }
    }
}

/// Fetching more pages never changes what is read in user space.
pub proof fn lemma_safe_reads_settled(m: Memory, m2: Memory, base: u64, offset: u64)
    requires
        m.grows_to(m2),
    ensures
        m.settles(m.safe_pointer(base), m2.safe_pointer(base)),
        m.settles(m.safe_pointer_at(base, offset), m2.safe_pointer_at(base, offset)),
        m.settles(m.safe_u32(base, offset), m2.safe_u32(base, offset)),
{
    broadcast use crate::mem::lemma_value_settled;

}

proof fn lemma_stride_settled(r: Remote, r2: Remote, chunk0: u64, stride: usize)
    requires
        r.grows_to(r2),
    ensures
        r.mem.settles(r.stride_result(chunk0, stride), r2.stride_result(chunk0, stride)),
{
    broadcast use {crate::mem::lemma_value_settled, crate::ue::fname::lemma_name_settled};

    let step = r.probes(chunk0, stride);
    let later = r2.probes(chunk0, stride);
    assert forall|i: int| 0 <= i < PROBE_COUNT implies r.mem.settles(#[trigger] step(i), later(i)) by {
        assert(r.mem.settles(r.probe(chunk0, stride, i), r2.probe(chunk0, stride, i)));
    }
    crate::walk::lemma_collect_settled(r.mem, step, later, 0, PROBE_COUNT as int);
}

/// Fetching more pages never changes the verdict on an object array.
pub proof fn lemma_verdict_at_settled(
    r: Remote,
    r2: Remote,
    base: u64,
    root: u64,
    original: u64,
    base_off: u64,
)
    requires
        r.grows_to(r2),
    ensures
        r.mem.settles(
            r.verdict_at(base, root, original, base_off),
            r2.verdict_at(base, root, original, base_off),
        ),
{
    broadcast use {crate::mem::lemma_value_settled, crate::mem::lemma_fetch_settled};

    match plausible(r.mem.safe_pointer_at(root, UOBJECT_ARRAY_OBJECTS)) {
        Ok(Some(chunks_ptr)) => match plausible(r.mem.safe_pointer(chunks_ptr)) {
            Ok(Some(chunk0)) => {
                lemma_stride_settled(r, r2, chunk0, 0x18);
                lemma_stride_settled(r, r2, chunk0, 0x20);
            },
            _ => {},
        },
        _ => {},
    }
}

/// Fetching more pages never changes the verdict on a candidate.
pub proof fn lemma_verdict_settled(r: Remote, r2: Remote, base: u64, addr: u64)
    requires
        r.grows_to(r2),
    ensures
        r.mem.settles(r.verdict(base, addr), r2.verdict(base, addr)),
{
    reveal(Remote::verdict);
    lemma_verdict_at_settled(r, r2, base, addr, addr, 0);
    if addr + 0x10 <= MAX_USERSPACE {
        lemma_verdict_at_settled(r, r2, base, (addr + 0x10) as u64, addr, 0x10);
    }
}

proof fn lemma_search_settled(r: Remote, r2: Remote, base: u64, targets: Seq<u64>, n: nat)
    requires
        r.grows_to(r2),
    ensures
        r.mem.settles(r.search(base, targets, n), r2.search(base, targets, n)),
    decreases n,
{
    if n > 0 {
        lemma_search_settled(r, r2, base, targets, (n - 1) as nat);
        lemma_verdict_settled(r, r2, base, targets[n - 1]);
    }
}

/// Fetching more pages never changes what the search for GObjects comes to.
pub proof fn lemma_gobjects_settled(r: Remote, r2: Remote, base: u64, start: u64, size: u64)
    requires
        r.grows_to(r2),
    ensures
        r.mem.settles(r.gobjects(base, start, size), r2.gobjects(base, start, size)),
{
    crate::scanner::pattern::lemma_rip_targets_settled(
        r.mem,
        r2.mem,
        start,
        size,
        gobjects_patterns(),
        PATTERN_COUNT as nat,
    );
    match r.mem.rip_targets(start, size, gobjects_patterns(), PATTERN_COUNT as nat) {
        Ok(targets) => {
            lemma_search_settled(r, r2, base, targets, targets.len());
        },
        Err(_) => {},
    }
}

/// A search for GObjects can go on after more pages have been fetched.
pub proof fn lemma_gobjects_walk_keeps(
    walk: GObjectsWalk,
    r: Remote,
    r2: Remote,
    base: u64,
    start: u64,
    size: u64,
)
    requires
        walk.sound(r, base, start, size),
        r.grows_to(r2),
    ensures
        walk.sound(r2, base, start, size),
{
    crate::scanner::pattern::lemma_target_list_keeps(
        walk.list,
        r.mem,
        r2.mem,
        start,
        size,
        gobjects_patterns(),
    );
    lemma_search_settled(r, r2, base, walk.list.items(), walk.next as nat);
}

/// Every register that a LEA or a MOV can load a RIP-relative address into has its
/// pattern, but for rsp.
pub proof fn lemma_registers_covered(prefix: u8, opcode: u8, register: int) -> (k: int)
    requires
        prefix == 0x48 || prefix == 0x4C,
        opcode == 0x8D || opcode == 0x8B,
        0 <= register < 8,
        !(prefix == 0x48 && register == 4),
    ensures
        0 <= k < PATTERN_COUNT,
        gobjects_patterns()[k] == rip_pattern(prefix, opcode, modrm(register)),
{
    let group: int = if prefix == 0x48 {
        if opcode == 0x8D {
            0
        } else {
            7
        }
    } else if opcode == 0x8D {
        14
    } else {
        22
    };
    let place = if prefix == 0x48 && register > 4 {
        register - 1
    } else {
        register
    };
    assert(gobjects_patterns()[group + place] == rip_pattern(prefix, opcode, modrm(register)));
    group + place
}

/// A search that comes to nothing has no candidate that is an object array; one that
/// comes to something has one.
proof fn lemma_search_result(r: Remote, base: u64, targets: Seq<u64>, n: nat)
    requires
        n <= targets.len(),
    ensures
        r.search(base, targets, n) matches Ok(SearchView::NotFound(_)) ==> forall|i: int|
            0 <= i < n ==> !(r.verdict(base, #[trigger] targets[i]) matches Ok(
                ValidationView::Valid { .. },
            )),
        r.search(base, targets, n) matches Ok(SearchView::Found { addr, stride }) ==> exists|i: int|
            0 <= i < n && r.verdict(base, #[trigger] targets[i]) == Ok::<
                ValidationView,
                crate::mem::Missing,
            >(ValidationView::Valid { effective_addr: addr, stride }),
    decreases n,
{
    if n > 0 {
        lemma_search_result(r, base, targets, (n - 1) as nat);
        match r.search(base, targets, n) {
            Ok(SearchView::Found { addr, stride }) => {
                if r.search(base, targets, (n - 1) as nat) matches Ok(SearchView::NotFound(_)) {
                    assert(r.verdict(base, targets[n - 1]) == Ok::<
                        ValidationView,
                        crate::mem::Missing,
                    >(ValidationView::Valid { effective_addr: addr, stride }));
                }
            },
            _ => {},
        }
    }
}

/// A candidate that is an object array is found, or one before it.
proof fn lemma_candidate_is_found(r: Remote, base: u64, targets: Seq<u64>, target: u64)
    requires
        targets.contains(target),
        r.verdict(base, target) matches Ok(ValidationView::Valid { .. }),
        r.search(base, targets, targets.len()) is Ok,
    ensures
        r.search(base, targets, targets.len()) matches Ok(SearchView::Found { addr, stride })
            && exists|other: u64|
            targets.contains(other) && #[trigger] r.verdict(base, other) == Ok::<
                ValidationView,
                crate::mem::Missing,
            >(ValidationView::Valid { effective_addr: addr, stride }),
{
    lemma_search_result(r, base, targets, targets.len());
    let i = targets.index_of(target);
    assert(targets[i] == target);
    match r.search(base, targets, targets.len()) {
        Ok(SearchView::Found { addr, stride }) => {
            let j = choose|j: int|
                0 <= j < targets.len() && r.verdict(base, #[trigger] targets[j]) == Ok::<
                    ValidationView,
                    crate::mem::Missing,
                >(ValidationView::Valid { effective_addr: addr, stride });
            assert(targets.contains(targets[j]));
        },
        _ => {},
    }
}

/// What some LEA or MOV in the code names is a candidate, whatever register it is
/// loaded into.
pub proof fn lemma_named_is_candidate(
    m: Memory,
    start: u64,
    size: u64,
    prefix: u8,
    opcode: u8,
    register: int,
    at: int,
    target: u64,
)
    requires
        prefix == 0x48 || prefix == 0x4C,
        opcode == 0x8D || opcode == 0x8B,
        0 <= register < 8,
        !(prefix == 0x48 && register == 4),
        start + size <= u64::MAX + 1,
        size <= usize::MAX,
        m.fetch(start, size as usize) matches Ok(Some(all)) && crate::scanner::pattern::matches_at(
            all,
            rip_pattern(prefix, opcode, modrm(register)),
            at,
        ),
        m.rip_target(
            (start + at) as u64,
            crate::scanner::pattern::INSTR_LEN,
            crate::scanner::pattern::DISP_OFFSET,
        ) == Ok::<Option<u64>, crate::mem::Missing>(Some(target)),
        m.rip_targets(start, size, gobjects_patterns(), PATTERN_COUNT as nat) is Ok,
    ensures
        m.rip_targets(start, size, gobjects_patterns(), PATTERN_COUNT as nat)->Ok_0.contains(
            target,
        ),
{
    let k = lemma_registers_covered(prefix, opcode, register);
    crate::scanner::pattern::lemma_match_is_target(
        m,
        start,
        size,
        gobjects_patterns(),
        PATTERN_COUNT as nat,
        k,
        at,
        target,
    );
}

/// An object array that some LEA or MOV in the code names is found, whatever register
/// it is loaded into, unless another array that the code names comes first.
pub proof fn lemma_named_array_is_found(
    r: Remote,
    base: u64,
    start: u64,
    size: u64,
    prefix: u8,
    opcode: u8,
    register: int,
    at: int,
    target: u64,
)
    requires
        prefix == 0x48 || prefix == 0x4C,
        opcode == 0x8D || opcode == 0x8B,
        0 <= register < 8,
        !(prefix == 0x48 && register == 4),
        start + size <= u64::MAX + 1,
        size <= usize::MAX,
        r.mem.fetch(start, size as usize) matches Ok(Some(all))
            && crate::scanner::pattern::matches_at(
            all,
            rip_pattern(prefix, opcode, modrm(register)),
            at,
        ),
        r.mem.rip_target(
            (start + at) as u64,
            crate::scanner::pattern::INSTR_LEN,
            crate::scanner::pattern::DISP_OFFSET,
        ) == Ok::<Option<u64>, crate::mem::Missing>(Some(target)),
        r.verdict(base, target) matches Ok(ValidationView::Valid { .. }),
        r.gobjects(base, start, size) is Ok,
    ensures
        r.gobjects(base, start, size) matches Ok(SearchView::Found { addr, stride }) && exists|
            other: u64,
        |
            r.mem.rip_targets(start, size, gobjects_patterns(), PATTERN_COUNT as nat)->Ok_0.contains(
                other,
            ) && #[trigger] r.verdict(base, other) == Ok::<ValidationView, crate::mem::Missing>(
                ValidationView::Valid { effective_addr: addr, stride },
            ),
{
    lemma_named_is_candidate(r.mem, start, size, prefix, opcode, register, at, target);
    let targets = r.mem.rip_targets(
        start,
        size,
        gobjects_patterns(),
        PATTERN_COUNT as nat,
    )->Ok_0;
    lemma_candidate_is_found(r, base, targets, target);
}

} // verus!
