//! Finds the engine's globals (GNames, GObjects, GWorld) in the game binary.

pub mod gobjects;
pub mod image;
pub mod pattern;

use crate::mem::{Memory, Outcome, ProcessHandle};
use crate::scanner::gobjects::{
    above_min, make_pattern, safe_ptr, safe_ptr_at, safe_read_u32, scan_gobjects, GObjectsSearch,
    GObjectsWalk, NearMiss, NearMissView, SearchView,
};
use crate::scanner::image::find_text_section;
use crate::scanner::pattern::{collect_rip_targets, TargetList};
use crate::text::str_equal;
use crate::ue::fname::{try_decode_none, FNamePool, NameFormat, Names, Remote};
use crate::ue::offsets::{FNAME_ALLOCATOR_BLOCKS, UOBJECT_CLASS, UOBJECT_FNAME};
use vstd::prelude::*;
use vstd::string::*;

verus! {

broadcast use {
    crate::ue::fname::lemma_pool_keeps_itself,
    crate::ue::fname::lemma_pool_keeps_transitive,
};

/// Runtime-detected engine layout values that vary across UE5 versions.
#[derive(Clone, Copy, Debug, PartialEq, Eq, Structural)]
pub struct EngineLayout {
    /// FUObjectItem stride (0x18 on most builds, 0x20 on some aligned builds).
    pub fuobject_item_size: usize,
}

/// Results from scanning the game binary for global addresses.
#[derive(Clone, Copy, Debug, PartialEq, Eq, Structural)]
pub struct ScanResults {
    /// Absolute address of FNameEntryAllocator.
    pub gnames: u64,
    /// Absolute address of FUObjectArray.
    pub gobjects: u64,
    /// Absolute address of GWorld pointer.
    pub gworld: u64,
    /// Detected engine layout (FUObjectItem stride, etc.).
    pub layout: EngineLayout,
}

impl ScanResults {
    /// The offsets of GNames, GObjects and GWorld relative to `base`.
    pub open spec fn relative_to(self, base: u64) -> (u64, u64, u64) {
        (
            self.gnames.wrapping_sub(base),
            self.gobjects.wrapping_sub(base),
            self.gworld.wrapping_sub(base),
        )
    }

    /// Return offsets relative to the image base. An address below the base wraps.
    pub fn offsets(&self, base: u64) -> (r: (u64, u64, u64))
        ensures
            r == self.relative_to(base),
    {
        (self.gnames.wrapping_sub(base), self.gobjects.wrapping_sub(base), self.gworld.wrapping_sub(
            base,
        ))
    }
}

// ── First hit ───────────────────────────────────────────────────────

/// The first of the first `n` targets that `check` accepts.
pub open spec fn first_hit(
    check: spec_fn(u64) -> Outcome<bool>,
    targets: Seq<u64>,
    n: nat,
) -> Outcome<Option<u64>>
    decreases n,
{
    if n == 0 {
        Ok(None)
    } else {
        match first_hit(check, targets, (n - 1) as nat) {
            Ok(None) => match check(targets[n - 1]) {
                Err(e) => Err(e),
                Ok(hit) => if hit {
                    Ok(Some(targets[n - 1]))
                } else {
                    Ok(None)
                },
            },
            other => other,
        }
    }
}

/// What the first targets come to decides, if it is a hit or a read.
proof fn lemma_first_hit_stop(
    check: spec_fn(u64) -> Outcome<bool>,
    targets: Seq<u64>,
    at: nat,
    n: nat,
)
    requires
        at <= n,
        first_hit(check, targets, at) != Ok::<Option<u64>, crate::mem::Missing>(None),
    ensures
        first_hit(check, targets, n) == first_hit(check, targets, at),
    decreases n,
{
    if at < n {
        lemma_first_hit_stop(check, targets, at, (n - 1) as nat);
    }
}

/// Behind targets that do not pass, the next one decides: a read is asked for, a hit is
/// the first one, and anything else is one more target that does not pass.
proof fn lemma_next_target(check: spec_fn(u64) -> Outcome<bool>, targets: Seq<u64>, at: nat)
    requires
        at < targets.len(),
        first_hit(check, targets, at) == Ok::<Option<u64>, crate::mem::Missing>(None),
    ensures
        match check(targets[at as int]) {
            Err(e) => first_hit(check, targets, targets.len()) == Err::<
                Option<u64>,
                crate::mem::Missing,
            >(e),
            Ok(true) => first_hit(check, targets, targets.len()) == Ok::<
                Option<u64>,
                crate::mem::Missing,
            >(Some(targets[at as int])),
            Ok(false) => first_hit(check, targets, at + 1) == Ok::<
                Option<u64>,
                crate::mem::Missing,
            >(None),
        },
{
    if check(targets[at as int]) != Ok::<bool, crate::mem::Missing>(false) {
        lemma_first_hit_stop(check, targets, at + 1, targets.len());
    }
}

/// How far a search for the first target that passes a check has come. It saves
/// the targets already checked while pages are fetched for the rest.
pub struct TargetWalk {
    list: TargetList,
    next: usize,
}

impl TargetWalk {
    /// The walk has not begun.
    pub closed spec fn fresh(self) -> bool {
        &&& self.list.patterns_done() == 0
        &&& self.list.items() == Seq::<u64>::empty()
        &&& self.next == 0
    }

    /// The walk has come this far over the code at `start`.
    pub closed spec fn sound(
        self,
        m: Memory,
        start: u64,
        size: u64,
        patterns: Seq<Seq<Option<u8>>>,
        check: spec_fn(u64) -> Outcome<bool>,
    ) -> bool {
        &&& self.list.sound(m, start, size, patterns)
        &&& self.next <= self.list.items().len()
        &&& self.next > 0 ==> self.list.patterns_done() == patterns.len()
        &&& first_hit(check, self.list.items(), self.next as nat) == Ok::<
            Option<u64>,
            crate::mem::Missing,
        >(None)
    }

    pub fn new() -> (walk: Self)
        ensures
            walk.fresh(),
    {
        TargetWalk { list: TargetList::new(), next: 0 }
    }
}

/// A walk that has not begun has nothing wrong.
pub proof fn lemma_fresh_target_walk(
    walk: TargetWalk,
    m: Memory,
    start: u64,
    size: u64,
    patterns: Seq<Seq<Option<u8>>>,
    check: spec_fn(u64) -> Outcome<bool>,
)
    requires
        walk.fresh(),
    ensures
        walk.sound(m, start, size, patterns, check),
{
}

// ── GNames ──────────────────────────────────────────────────────────

impl Memory {
    /// An FNameEntryAllocator stands at `addr`: Block[0] entry 0 decodes to "None".
    pub open spec fn is_gnames(self, addr: u64) -> Outcome<bool> {
        match crate::scanner::gobjects::plausible(
            self.safe_pointer_at(addr, FNAME_ALLOCATOR_BLOCKS),
        ) {
            Err(e) => Err(e),
            Ok(None) => Ok(false),
            Ok(Some(block0)) => match self.fetch(block0, 16) {
                Err(e) => Err(e),
                Ok(None) => Ok(false),
                Ok(Some(data)) => Ok(
                    crate::ue::fname::reads_none(data, 4, 1) || crate::ue::fname::reads_none(
                        data,
                        0,
                        6,
                    ),
                ),
            },
        }
    }

    /// Whether an FNameEntryAllocator stands at each address.
    pub open spec fn gnames_check(self) -> spec_fn(u64) -> Outcome<bool> {
        |addr: u64| self.is_gnames(addr)
    }

    /// The first FNameEntryAllocator that the code refers to.
    pub open spec fn gnames(self, start: u64, size: u64) -> Outcome<Option<u64>> {
        match self.rip_targets(start, size, gnames_patterns(), 1) {
            Err(e) => Err(e),
            Ok(targets) => first_hit(self.gnames_check(), targets, targets.len()),
        }
    }
}

/// LEA rcx, [rip+disp32]
pub open spec fn gnames_patterns() -> Seq<Seq<Option<u8>>> {
    seq![crate::scanner::gobjects::rip_pattern(0x48, 0x8D, 0x0D)]
}

/// Validate by checking if Block[0] entry 0 decodes to "None".
pub fn validate_gnames(proc: &ProcessHandle, addr: u64) -> (r: Outcome<bool>)
    ensures
        r == proc@.is_gnames(addr),
{
    let block0: u64 = match above_min(safe_ptr_at(proc, addr, FNAME_ALLOCATOR_BLOCKS)?) {
        Some(p) => p,
        None => {
            return Ok(false);
        },
    };
    let data = match proc.read_bytes(block0, 16)? {
        Some(d) => d,
        None => {
            return Ok(false);
        },
    };
    // Case-preserving: 4-byte ComparisonId prefix, header at +4, len = header >> 1
    // Shipping: header at +0, len = header >> 6
    Ok(try_decode_none(data.as_slice(), 4, 1) || try_decode_none(data.as_slice(), 0, 6))
}

/// Search the code of the image for the address of the name pool's allocator.
pub fn scan_gnames(proc: &ProcessHandle, text_start: u64, text_size: u64, walk: &mut TargetWalk) -> (r:
    Outcome<Option<u64>>)
    requires
        old(walk).sound(
            proc@,
            text_start,
            text_size,
            gnames_patterns(),
            proc@.gnames_check(),
        ),
    ensures
        r == proc@.gnames(text_start, text_size),
        final(walk).sound(
            proc@,
            text_start,
            text_size,
            gnames_patterns(),
            proc@.gnames_check(),
        ),
{
    let ghost check = proc@.gnames_check();
    let mut patterns: Vec<Vec<Option<u8>>> = Vec::new();
    patterns.push(make_pattern(0x48, 0x8D, 0x0D));
    assert(crate::scanner::pattern::pattern_seqs(patterns@) =~= gnames_patterns());
    collect_rip_targets(proc, text_start, text_size, &patterns, &mut walk.list)?;
    let ghost targets = walk.list.items();
    while walk.next < walk.list.len()
        invariant
            check == proc@.gnames_check(),
            walk.sound(proc@, text_start, text_size, gnames_patterns(), check),
            walk.list.patterns_done() == 1,
            targets == walk.list.items(),
            proc@.rip_targets(text_start, text_size, gnames_patterns(), 1) == Ok::<
                Seq<u64>,
                crate::mem::Missing,
            >(targets),
        decreases walk.list.items().len() - walk.next,
    {
        proof {
            lemma_next_target(check, targets, walk.next as nat);
        }
        let target: u64 = walk.list.get(walk.next);
        if validate_gnames(proc, target)? {
            return Ok(Some(target));
        }
        walk.next = walk.next + 1;
    }
    Ok(None)
}

// ── GWorld ──────────────────────────────────────────────────────────

impl Remote {
    /// GWorld stands at `addr`: it points to an object whose class is "World".
    pub open spec fn is_gworld(self, addr: u64) -> Outcome<bool> {
        match crate::scanner::gobjects::plausible(self.mem.safe_pointer(addr)) {
            Err(e) => Err(e),
            Ok(None) => Ok(false),
            Ok(Some(world)) => match crate::scanner::gobjects::plausible(
                self.mem.safe_pointer_at(world, UOBJECT_CLASS),
            ) {
                Err(e) => Err(e),
                Ok(None) => Ok(false),
                Ok(Some(class)) => match self.mem.safe_u32(class, UOBJECT_FNAME) {
                    Err(e) => Err(e),
                    Ok(None) => Ok(false),
                    Ok(Some(idx)) => match self.names.name(idx, 0) {
                        Err(e) => Err(e),
                        Ok(name) => Ok(name == Some("World"@)),
                    },
                },
            },
        }
    }

    /// Whether GWorld stands at each address.
    pub open spec fn gworld_check(self) -> spec_fn(u64) -> Outcome<bool> {
        |addr: u64| self.is_gworld(addr)
    }

    /// The first GWorld that the code stores to.
    pub open spec fn gworld(self, start: u64, size: u64) -> Outcome<Option<u64>> {
        match self.mem.rip_targets(start, size, gworld_patterns(), 2) {
            Err(e) => Err(e),
            Ok(targets) => first_hit(self.gworld_check(), targets, targets.len()),
        }
    }
}

/// MOV [rip+disp32], rax and MOV [rip+disp32], rdi
pub open spec fn gworld_patterns() -> Seq<Seq<Option<u8>>> {
    seq![
        crate::scanner::gobjects::rip_pattern(0x48, 0x89, 0x05),
        crate::scanner::gobjects::rip_pattern(0x48, 0x89, 0x3D),
    ]
}

/// Validate by dereferencing and checking the class name resolves to "World".
pub fn validate_gworld(proc: &ProcessHandle, names: &mut FNamePool, addr: u64) -> (r: Outcome<bool>)
    ensures
        r == old(names).remote(proc@).is_gworld(addr),
        final(names).same(*old(names), proc@),
{
    // GWorld is a pointer-to-pointer: *addr = UWorld*
    let uworld: u64 = match above_min(safe_ptr(proc, addr)?) {
        Some(p) => p,
        None => {
            return Ok(false);
        },
    };
    // UWorld.Class
    let class_addr: u64 = match above_min(safe_ptr_at(proc, uworld, UOBJECT_CLASS)?) {
        Some(p) => p,
        None => {
            return Ok(false);
        },
    };
    // Resolve the class's FName: must be "World"
    let name_idx: u32 = match safe_read_u32(proc, class_addr, UOBJECT_FNAME)? {
        Some(idx) => idx,
        None => {
            return Ok(false);
        },
    };
    match names.resolve_index(proc, name_idx, 0)? {
        Some(name) => Ok(str_equal(name.as_str(), "World")),
        None => Ok(false),
    }
}

/// Search the code of the image for the address of the GWorld pointer.
pub fn scan_gworld(
    proc: &ProcessHandle,
    names: &mut FNamePool,
    text_start: u64,
    text_size: u64,
    walk: &mut TargetWalk,
) -> (r: Outcome<Option<u64>>)
    requires
        old(walk).sound(
            proc@,
            text_start,
            text_size,
            gworld_patterns(),
            old(names).remote(proc@).gworld_check(),
        ),
    ensures
        r == old(names).remote(proc@).gworld(text_start, text_size),
        final(walk).sound(
            proc@,
            text_start,
            text_size,
            gworld_patterns(),
            old(names).remote(proc@).gworld_check(),
        ),
        final(names).same(*old(names), proc@),
{
    let ghost remote = names.remote(proc@);
    let ghost check = remote.gworld_check();
    let mut patterns: Vec<Vec<Option<u8>>> = Vec::new();
    patterns.push(make_pattern(0x48, 0x89, 0x05));
    patterns.push(make_pattern(0x48, 0x89, 0x3D));
    assert(crate::scanner::pattern::pattern_seqs(patterns@) =~= gworld_patterns());
    collect_rip_targets(proc, text_start, text_size, &patterns, &mut walk.list)?;
    let ghost targets = walk.list.items();
    while walk.next < walk.list.len()
        invariant
            names.same(*old(names), proc@),
            remote == old(names).remote(proc@),
            check == remote.gworld_check(),
            walk.sound(proc@, text_start, text_size, gworld_patterns(), check),
            walk.list.patterns_done() == 2,
            targets == walk.list.items(),
            proc@.rip_targets(text_start, text_size, gworld_patterns(), 2) == Ok::<
                Seq<u64>,
                crate::mem::Missing,
            >(targets),
        decreases walk.list.items().len() - walk.next,
    {
        assert(names.remote(proc@) == remote);
        proof {
            lemma_next_target(check, targets, walk.next as nat);
        }
        let target: u64 = walk.list.get(walk.next);
        if validate_gworld(proc, names, target)? {
            return Ok(Some(target));
        }
        walk.next = walk.next + 1;
    }
    Ok(None)
}

// ── Scan ────────────────────────────────────────────────────────────

/// Why a scan did not find all globals.
#[derive(Debug)]
pub enum ScanFailure {
    /// No PE or ELF image, or one without a readable .text section.
    NoTextSection,
    /// No instruction refers to an FNameEntryAllocator.
    NoGNames,
    /// The names cannot be read from the allocator that was found.
    NoNamePool,
    /// Name 0 of that pool is not "None".
    BadNamePool,
    /// No instruction refers to an FUObjectArray; the best near misses.
    NoGObjects(Vec<NearMiss>),
    /// No instruction stores to a GWorld pointer.
    NoGWorld,
}

/// A [`ScanFailure`] as a mathematical value.
pub enum FailureView {
    NoTextSection,
    NoGNames,
    NoNamePool,
    BadNamePool,
    NoGObjects(Seq<NearMissView>),
    NoGWorld,
}

impl DeepView for ScanFailure {
    type V = FailureView;

    open spec fn deep_view(&self) -> FailureView {
        match *self {
            ScanFailure::NoTextSection => FailureView::NoTextSection,
            ScanFailure::NoGNames => FailureView::NoGNames,
            ScanFailure::NoNamePool => FailureView::NoNamePool,
            ScanFailure::BadNamePool => FailureView::BadNamePool,
            ScanFailure::NoGObjects(misses) => FailureView::NoGObjects(misses.deep_view()),
            ScanFailure::NoGWorld => FailureView::NoGWorld,
        }
    }
}

/// The globals that were found, or why they were not.
pub type Scanned = Result<ScanResults, ScanFailure>;

/// The deep view of a scan.
pub open spec fn scan_shown(r: Outcome<Scanned>) -> Outcome<Result<ScanResults, FailureView>> {
    match r {
        Err(e) => Err(e),
        Ok(Ok(found)) => Ok(Ok(found)),
        Ok(Err(failure)) => Ok(Err(failure.deep_view())),
    }
}

impl Remote {
    /// What looking for GObjects and GWorld gives once GNames is known.
    pub open spec fn scan_objects(self, base: u64, start: u64, size: u64, gnames: u64) -> Outcome<
        Result<ScanResults, FailureView>,
    > {
        match self.names.name(0, 0) {
            Err(e) => Err(e),
            Ok(first) => if first != Some("None"@) {
                Ok(Err(FailureView::BadNamePool))
            } else {
                match self.gobjects(base, start, size) {
                    Err(e) => Err(e),
                    Ok(SearchView::NotFound(misses)) => Ok(Err(FailureView::NoGObjects(misses))),
                    Ok(SearchView::Found { addr, stride }) => match self.gworld(start, size) {
                        Err(e) => Err(e),
                        Ok(None) => Ok(Err(FailureView::NoGWorld)),
                        Ok(Some(gworld)) => Ok(
                            Ok(
                                ScanResults {
                                    gnames,
                                    gobjects: addr,
                                    gworld,
                                    layout: EngineLayout { fuobject_item_size: stride },
                                },
                            ),
                        ),
                    },
                }
            },
        }
    }
}

impl Memory {
    /// What can be told of the process whose name pool has these blocks.
    pub open spec fn named(self, format: NameFormat, block_ptrs: Seq<u64>) -> Remote {
        Remote { mem: self, names: Names::of(self, block_ptrs, format) }
    }

    /// What scanning the image at `base` gives.
    pub open spec fn scan(self, base: u64) -> Outcome<Result<ScanResults, FailureView>> {
        match self.text_section(base) {
            Err(e) => Err(e),
            Ok(None) => Ok(Err(FailureView::NoTextSection)),
            Ok(Some((start, size))) => match self.gnames(start, size) {
                Err(e) => Err(e),
                Ok(None) => Ok(Err(FailureView::NoGNames)),
                Ok(Some(gnames)) => match self.pool(gnames) {
                    Err(e) => Err(e),
                    Ok(None) => Ok(Err(FailureView::NoNamePool)),
                    Ok(Some((_, format, block_ptrs))) => self.named(
                        format,
                        block_ptrs,
                    ).scan_objects(base, start, size, gnames),
                },
            },
        }
    }
}

/// The names of `pool` are those of the pool that `gnames` leads to.
pub open spec fn pool_of(pool: FNamePool, m: Memory, gnames: u64) -> bool {
    &&& m.pool(gnames) matches Ok(Some((_, format, block_ptrs)))
    &&& forall|m2: Memory|
        m.grows_to(m2) ==> #[trigger] pool.names(m2) == Names::of(m2, block_ptrs, format)
}

/// How far a scan has come.
pub struct ScanProgress {
    gnames: TargetWalk,
    pool: Option<FNamePool>,
    gobjects: GObjectsWalk,
    gworld: TargetWalk,
}

impl ScanProgress {
    /// The scan has not begun.
    pub closed spec fn fresh(self) -> bool {
        &&& self.gnames.fresh()
        &&& self.pool is None
        &&& self.gobjects.fresh()
        &&& self.gworld.fresh()
    }

    /// The part of the scan that needs names has come this far.
    spec fn objects_sound(self, remote: Remote, base: u64, start: u64, size: u64) -> bool {
        &&& self.gobjects.sound(remote, base, start, size)
        &&& self.gworld.sound(
            remote.mem,
            start,
            size,
            gworld_patterns(),
            remote.gworld_check(),
        )
    }

    /// The scan of the image at `base` has come this far.
    pub closed spec fn sound(self, m: Memory, base: u64) -> bool {
        ||| self.fresh()
        ||| {
            &&& m.text_section(base) matches Ok(Some((start, size)))
            &&& self.gnames.sound(m, start, size, gnames_patterns(), m.gnames_check())
            &&& match self.pool {
                None => self.gobjects.fresh() && self.gworld.fresh(),
                Some(pool) => {
                    &&& m.gnames(start, size) matches Ok(Some(gnames))
                    &&& pool_of(pool, m, gnames)
                    &&& self.objects_sound(pool.remote(m), base, start, size)
                },
            }
        }
    }

    /// A scan that has not begun.
    pub fn new() -> (progress: Self)
        ensures
            forall|m: Memory, base: u64| #[trigger] progress.sound(m, base),
    {
        ScanProgress {
            gnames: TargetWalk::new(),
            pool: None,
            gobjects: GObjectsWalk::new(),
            gworld: TargetWalk::new(),
        }
    }
}

/// Look for GObjects and GWorld, which are recognised by the names of objects.
fn scan_objects(
    proc: &ProcessHandle,
    names: &mut FNamePool,
    text_start: u64,
    text_size: u64,
    gnames: u64,
    gobjects_walk: &mut GObjectsWalk,
    gworld_walk: &mut TargetWalk,
) -> (r: Outcome<Scanned>)
    requires
        old(gobjects_walk).sound(old(names).remote(proc@), proc.base, text_start, text_size),
        old(gworld_walk).sound(
            proc@,
            text_start,
            text_size,
            gworld_patterns(),
            old(names).remote(proc@).gworld_check(),
        ),
    ensures
        scan_shown(r) == old(names).remote(proc@).scan_objects(
            proc.base,
            text_start,
            text_size,
            gnames,
        ),
        final(gobjects_walk).sound(old(names).remote(proc@), proc.base, text_start, text_size),
        final(gworld_walk).sound(
            proc@,
            text_start,
            text_size,
            gworld_patterns(),
            old(names).remote(proc@).gworld_check(),
        ),
        final(names).same(*old(names), proc@),
{
    let ghost remote = names.remote(proc@);
    if !names.validate(proc)? {
        return Ok(Err(ScanFailure::BadNamePool));
    }
    assert(names.remote(proc@) == remote);
    let (gobjects, layout) = match scan_gobjects(
        proc,
        names,
        text_start,
        text_size,
        gobjects_walk,
    )? {
        GObjectsSearch::Found { addr, layout } => (addr, layout),
        GObjectsSearch::NotFound(misses) => {
            return Ok(Err(ScanFailure::NoGObjects(misses)));
        },
    };
    assert(names.remote(proc@) == remote);
    match scan_gworld(proc, names, text_start, text_size, gworld_walk)? {
        Some(gworld) => Ok(Ok(ScanResults { gnames, gobjects, gworld, layout })),
        None => Ok(Err(ScanFailure::NoGWorld)),
    }
}

/// Scan the game binary for GNames, GObjects, and GWorld.
///
/// Two-phase approach:
/// 1. Find GNames (validated by decoding "None") and init FNamePool
/// 2. Use FNamePool to validate GObjects and GWorld candidates by resolving names
pub fn scan(proc: &ProcessHandle, progress: &mut ScanProgress) -> (r: Outcome<Scanned>)
    requires
        old(progress).sound(proc@, proc.base),
    ensures
        scan_shown(r) == proc@.scan(proc.base),
        final(progress).sound(proc@, proc.base),
{
    let (text_start, text_size) = match find_text_section(proc)? {
        Some(text) => text,
        None => {
            return Ok(Err(ScanFailure::NoTextSection));
        },
    };
    proof {
        if progress.fresh() {
            lemma_fresh_target_walk(
                progress.gnames,
                proc@,
                text_start,
                text_size,
                gnames_patterns(),
                proc@.gnames_check(),
            );
        }
    }
    // Phase 1: Find GNames (self-validating via "None" decode)
    let gnames: u64 = match scan_gnames(proc, text_start, text_size, &mut progress.gnames)? {
        Some(gnames) => gnames,
        None => {
            return Ok(Err(ScanFailure::NoGNames));
        },
    };
    // Init FNamePool for name-based validation of the other globals
    let mut names = match progress.pool.take() {
        Some(names) => names,
        None => match FNamePool::with_addr(proc, gnames)? {
            Some(names) => {
                proof {
                    crate::scanner::gobjects::lemma_fresh_gobjects_walk(
                        progress.gobjects,
                        names.remote(proc@),
                        proc.base,
                        text_start,
                        text_size,
                    );
                    lemma_fresh_target_walk(
                        progress.gworld,
                        proc@,
                        text_start,
                        text_size,
                        gworld_patterns(),
                        names.remote(proc@).gworld_check(),
                    );
                }
                names
            },
            None => {
                return Ok(Err(ScanFailure::NoNamePool));
            },
        },
    };
    assert(pool_of(names, proc@, gnames));
    assert(proc@.grows_to(proc@));
    let ghost before = names;
    // Phase 2: Find GObjects (validated by resolving object names)
    // Phase 3: Find GWorld (validated by checking class name is "World")
    let r = scan_objects(
        proc,
        &mut names,
        text_start,
        text_size,
        gnames,
        &mut progress.gobjects,
        &mut progress.gworld,
    );
    assert(pool_of(names, proc@, gnames));
    progress.pool = Some(names);
    r
}

// ── Laws ────────────────────────────────────────────────────────────

/// Adding the base to an offset gives back the address.
pub proof fn lemma_offset_from_base(addr: u64, base: u64)
    ensures
        base.wrapping_add(addr.wrapping_sub(base)) == addr,
{
}

proof fn lemma_first_hit_passes(check: spec_fn(u64) -> Outcome<bool>, targets: Seq<u64>, n: nat)
    ensures
        first_hit(check, targets, n) matches Ok(Some(hit)) ==> check(hit) == Ok::<
            bool,
            crate::mem::Missing,
        >(true),
    decreases n,
{
    if n > 0 {
        lemma_first_hit_passes(check, targets, (n - 1) as nat);
    }
}

/// What a scan finds is what it was looking for: GNames is an allocator whose first
/// name is "None", and so is the first name of the pool that is read from it; GObjects
/// holds objects; and GWorld points to an object whose class is "World".
pub proof fn lemma_scan_finds_globals(m: Memory, base: u64)
    ensures
        m.scan(base) matches Ok(Ok(found)) ==> {
            &&& m.is_gnames(found.gnames) == Ok::<bool, crate::mem::Missing>(true)
            &&& m.pool(found.gnames) matches Ok(Some((_, format, block_ptrs)))
            &&& m.named(format, block_ptrs).names.name(0, 0) == Ok::<
                Option<Seq<char>>,
                crate::mem::Missing,
            >(Some("None"@))
            &&& m.named(format, block_ptrs).holds_objects(
                base,
                found.gobjects,
                found.layout.fuobject_item_size,
            )
            &&& m.named(format, block_ptrs).is_gworld(found.gworld) == Ok::<
                bool,
                crate::mem::Missing,
            >(true)
        },
{
    match m.scan(base) {
        Ok(Ok(found)) => {
            let (start, size) = m.text_section(base)->Ok_0->0;
            let gnames_targets = m.rip_targets(start, size, gnames_patterns(), 1)->Ok_0;
            lemma_first_hit_passes(m.gnames_check(), gnames_targets, gnames_targets.len());
            let (_, format, block_ptrs) = m.pool(found.gnames)->Ok_0->0;
            let r = m.named(format, block_ptrs);
            let targets = m.rip_targets(
                start,
                size,
                crate::scanner::gobjects::gobjects_patterns(),
                crate::scanner::gobjects::PATTERN_COUNT as nat,
            )->Ok_0;
            crate::scanner::gobjects::lemma_found_holds_objects(r, base, targets, targets.len());
            let gworld_targets = m.rip_targets(start, size, gworld_patterns(), 2)->Ok_0;
            lemma_first_hit_passes(r.gworld_check(), gworld_targets, gworld_targets.len());
        },
        _ => {},
    }
}

proof fn lemma_first_hit_settled(
    m: Memory,
    check: spec_fn(u64) -> Outcome<bool>,
    later: spec_fn(u64) -> Outcome<bool>,
    targets: Seq<u64>,
    n: nat,
)
    requires
        forall|addr: u64| m.settles(#[trigger] check(addr), later(addr)),
    ensures
        m.settles(first_hit(check, targets, n), first_hit(later, targets, n)),
    decreases n,
{
    if n > 0 {
        lemma_first_hit_settled(m, check, later, targets, (n - 1) as nat);
        assert(m.settles(check(targets[n - 1]), later(targets[n - 1])));
    }
}

/// A search for the first hit can go on after more pages have been fetched.
pub proof fn lemma_target_walk_keeps(
    walk: TargetWalk,
    m: Memory,
    m2: Memory,
    start: u64,
    size: u64,
    patterns: Seq<Seq<Option<u8>>>,
    check: spec_fn(u64) -> Outcome<bool>,
    later: spec_fn(u64) -> Outcome<bool>,
)
    requires
        walk.sound(m, start, size, patterns, check),
        m.grows_to(m2),
        forall|addr: u64| m.settles(#[trigger] check(addr), later(addr)),
    ensures
        walk.sound(m2, start, size, patterns, later),
{
    crate::scanner::pattern::lemma_target_list_keeps(walk.list, m, m2, start, size, patterns);
    lemma_first_hit_settled(m, check, later, walk.list.items(), walk.next as nat);
}

/// Fetching more pages never changes whether an allocator stands at an address.
pub proof fn lemma_gnames_check_settled(m: Memory, m2: Memory)
    requires
        m.grows_to(m2),
    ensures
        forall|addr: u64|
            m.settles(#[trigger] (m.gnames_check())(addr), (m2.gnames_check())(addr)),
{
    broadcast use {crate::mem::lemma_value_settled, crate::mem::lemma_fetch_settled};

    let check = m.gnames_check();
    let later = m2.gnames_check();
    assert forall|addr: u64| m.settles(#[trigger] check(addr), later(addr)) by {
        assert(m.settles(m.is_gnames(addr), m2.is_gnames(addr)));
    }
}

/// Fetching more pages never changes whether GWorld stands at an address.
pub proof fn lemma_gworld_check_settled(r: Remote, r2: Remote)
    requires
        r.grows_to(r2),
    ensures
        forall|addr: u64|
            r.mem.settles(#[trigger] (r.gworld_check())(addr), (r2.gworld_check())(addr)),
{
    broadcast use {crate::mem::lemma_value_settled, crate::ue::fname::lemma_name_settled};

    let check = r.gworld_check();
    let later = r2.gworld_check();
    assert forall|addr: u64| r.mem.settles(#[trigger] check(addr), later(addr)) by {
        assert(r.mem.settles(r.is_gworld(addr), r2.is_gworld(addr)));
    }
}

/// Fetching more pages never changes which allocator the code refers to.
pub proof fn lemma_gnames_settled(m: Memory, m2: Memory, start: u64, size: u64)
    requires
        m.grows_to(m2),
    ensures
        m.settles(m.gnames(start, size), m2.gnames(start, size)),
{
    crate::scanner::pattern::lemma_rip_targets_settled(m, m2, start, size, gnames_patterns(), 1);
    lemma_gnames_check_settled(m, m2);
    match m.rip_targets(start, size, gnames_patterns(), 1) {
        Ok(targets) => {
            lemma_first_hit_settled(
                m,
                m.gnames_check(),
                m2.gnames_check(),
                targets,
                targets.len(),
            );
        },
        Err(_) => {},
    }
}

/// Fetching more pages never changes which GWorld the code stores to.
pub proof fn lemma_gworld_settled(r: Remote, r2: Remote, start: u64, size: u64)
    requires
        r.grows_to(r2),
    ensures
        r.mem.settles(r.gworld(start, size), r2.gworld(start, size)),
{
    crate::scanner::pattern::lemma_rip_targets_settled(
        r.mem,
        r2.mem,
        start,
        size,
        gworld_patterns(),
        2,
    );
    lemma_gworld_check_settled(r, r2);
    match r.mem.rip_targets(start, size, gworld_patterns(), 2) {
        Ok(targets) => {
            lemma_first_hit_settled(
                r.mem,
                r.gworld_check(),
                r2.gworld_check(),
                targets,
                targets.len(),
            );
        },
        Err(_) => {},
    }
}

proof fn lemma_scan_objects_settled(
    r: Remote,
    r2: Remote,
    base: u64,
    start: u64,
    size: u64,
    gnames: u64,
)
    requires
        r.grows_to(r2),
    ensures
        r.mem.settles(
            r.scan_objects(base, start, size, gnames),
            r2.scan_objects(base, start, size, gnames),
        ),
{
    broadcast use crate::ue::fname::lemma_name_settled;

    crate::scanner::gobjects::lemma_gobjects_settled(r, r2, base, start, size);
    lemma_gworld_settled(r, r2, start, size);
}

/// Fetching more pages never changes what a scan gives.
pub proof fn lemma_scan_settled(m: Memory, m2: Memory, base: u64)
    requires
        m.grows_to(m2),
    ensures
        m.settles(m.scan(base), m2.scan(base)),
{
    crate::scanner::image::lemma_text_section_settled(m, m2, base);
    match m.text_section(base) {
        Ok(Some((start, size))) => {
            lemma_gnames_settled(m, m2, start, size);
            match m.gnames(start, size) {
                Ok(Some(gnames)) => {
                    crate::ue::fname::lemma_pool_settled(m, m2, gnames);
                    match m.pool(gnames) {
                        Ok(Some((_, format, block_ptrs))) => {
                            crate::ue::fname::lemma_names_grow(m, m2, block_ptrs, format);
                            lemma_scan_objects_settled(
                                m.named(format, block_ptrs),
                                m2.named(format, block_ptrs),
                                base,
                                start,
                                size,
                                gnames,
                            );
                        },
                        _ => {},
                    }
                },
                _ => {},
            }
        },
        _ => {},
    }
}

/// The part of a scan that needs names can go on too.
proof fn lemma_objects_sound_keeps(
    progress: ScanProgress,
    r: Remote,
    r2: Remote,
    base: u64,
    start: u64,
    size: u64,
)
    requires
        progress.objects_sound(r, base, start, size),
        r.grows_to(r2),
    ensures
        progress.objects_sound(r2, base, start, size),
{
    crate::scanner::gobjects::lemma_gobjects_walk_keeps(
        progress.gobjects,
        r,
        r2,
        base,
        start,
        size,
    );
    lemma_gworld_check_settled(r, r2);
    lemma_target_walk_keeps(
        progress.gworld,
        r.mem,
        r2.mem,
        start,
        size,
        gworld_patterns(),
        r.gworld_check(),
        r2.gworld_check(),
    );
}

/// A pool that is the one that GNames leads to stays it.
proof fn lemma_pool_of_keeps(pool: FNamePool, m: Memory, m2: Memory, gnames: u64)
    requires
        pool_of(pool, m, gnames),
        m.grows_to(m2),
    ensures
        pool_of(pool, m2, gnames),
{
    crate::ue::fname::lemma_pool_settled(m, m2, gnames);
    let (_, format, block_ptrs) = m.pool(gnames)->Ok_0->0;
    assert forall|m3: Memory| m2.grows_to(m3) implies #[trigger] pool.names(m3) == Names::of(
        m3,
        block_ptrs,
        format,
    ) by {
        crate::mem::lemma_grows_transitive(m, m2, m3);
    }
}

/// A scan can go on after more pages have been fetched.
pub proof fn lemma_scan_progress_keeps(progress: ScanProgress, m: Memory, m2: Memory, base: u64)
    requires
        progress.sound(m, base),
        m.grows_to(m2),
    ensures
        progress.sound(m2, base),
{
    if !progress.fresh() {
        let (start, size) = m.text_section(base)->Ok_0->0;
        crate::scanner::image::lemma_text_section_settled(m, m2, base);
        lemma_gnames_check_settled(m, m2);
        lemma_target_walk_keeps(
            progress.gnames,
            m,
            m2,
            start,
            size,
            gnames_patterns(),
            m.gnames_check(),
            m2.gnames_check(),
        );
        match progress.pool {
            Some(pool) => {
                lemma_gnames_settled(m, m2, start, size);
                lemma_pool_of_keeps(pool, m, m2, m.gnames(start, size)->Ok_0->0);
                crate::ue::fname::lemma_pool_grows(pool, m, m2);
                lemma_objects_sound_keeps(
                    progress,
                    pool.remote(m),
                    pool.remote(m2),
                    base,
                    start,
                    size,
                );
            },
            None => {},
        }
    }
}

} // verus!
