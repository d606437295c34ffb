//! FNamePool: the engine's interned names.

use crate::mem::{Memory, Outcome, ProcessHandle};
use crate::text::{from_utf16_lossy, from_utf8_lossy, push_decimal, str_equal};
use crate::ue::offsets::{
    FNAME_ALLOCATOR_BLOCKS, FNAME_POOL_MAX_BLOCKS, FNAME_POOL_OFFSET_UNITS, FNAME_POOL_SCAN_RANGE,
    MAX_NAME_LEN, MIN_VALID_PTR,
};
use std::collections::HashMap;
use vstd::prelude::*;
use vstd::string::*;

verus! {

broadcast use vstd::std_specs::hash::group_hash_axioms;

/// How the entries of a name pool are laid out.
#[derive(Clone, Copy, Debug, PartialEq, Eq, Structural)]
pub enum NameFormat {
    /// Header at +0, length in its upper ten bits.
    Shipping,
    /// Four bytes of ComparisonId, then a header with the length above its lowest bit.
    CasePreserving,
}

impl NameFormat {
    /// Bytes per offset unit.
    #[verifier::when_used_as_spec(spec_stride)]
    pub fn stride(self) -> (n: usize)
        ensures
            n == self.spec_stride(),
    {
        match self {
            NameFormat::Shipping => 2,
            NameFormat::CasePreserving => 4,
        }
    }

    pub open spec fn spec_stride(self) -> usize {
        match self {
            NameFormat::Shipping => 2,
            NameFormat::CasePreserving => 4,
        }
    }

    /// Where the header stands in an entry.
    #[verifier::when_used_as_spec(spec_header_off)]
    pub fn header_off(self) -> (n: usize)
        ensures
            n == self.spec_header_off(),
    {
        match self {
            NameFormat::Shipping => 0,
            NameFormat::CasePreserving => 4,
        }
    }

    pub open spec fn spec_header_off(self) -> usize {
        match self {
            NameFormat::Shipping => 0,
            NameFormat::CasePreserving => 4,
        }
    }

    /// How far the length is shifted up in the header.
    #[verifier::when_used_as_spec(spec_len_shift)]
    pub fn len_shift(self) -> (n: u32)
        ensures
            n == self.spec_len_shift(),
    {
        match self {
            NameFormat::Shipping => 6,
            NameFormat::CasePreserving => 1,
        }
    }

    pub open spec fn spec_len_shift(self) -> u32 {
        match self {
            NameFormat::Shipping => 6,
            NameFormat::CasePreserving => 1,
        }
    }
}

// ── Entries ─────────────────────────────────────────────────────────

/// The largest possible entry: ComparisonId, header, and a wide name of the greatest
/// length that is decoded.
pub const MAX_ENTRY_SIZE: usize = 4 + 2 + 2 * MAX_NAME_LEN;

/// The little-endian number in two bytes of `data`.
pub open spec fn u16_at(data: Seq<u8>, pos: int) -> u16 {
    (data[pos] + 256 * data[pos + 1]) as u16
}

fn get_u16(data: &[u8], pos: usize) -> (v: u16)
    requires
        pos + 2 <= data@.len(),
    ensures
        v == u16_at(data@, pos as int),
{
    data[pos] as u16 + 256 * (data[pos + 1] as u16)
}

/// The UTF-16 code units in `bytes`.
pub open spec fn units(bytes: Seq<u8>) -> Seq<u16> {
    Seq::new(bytes.len() / 2, |i: int| u16_at(bytes, 2 * i))
}

/// The text of the entry whose header stands at `pos` of a block: its length is
/// in the header above `len_shift` bits, the lowest bit says whether it is wide.
pub open spec fn entry_text(block: Seq<u8>, pos: int, len_shift: u32) -> Option<Seq<char>> {
    let header = u16_at(block, pos);
    let wide = header & 1 != 0;
    let len = (header >> len_shift) as int;
    let size = if wide {
        2 * len
    } else {
        len
    };
    if pos + 2 > block.len() || len == 0 || len > MAX_NAME_LEN || pos + 2 + size > block.len() {
        None
    } else if wide {
        Some(crate::text::utf16_text(units(block.subrange(pos + 2, pos + 2 + size))))
    } else {
        Some(crate::text::utf8_text(block.subrange(pos + 2, pos + 2 + size)))
    }
}

/// `text`, with the suffix that an FName number above zero stands for.
pub open spec fn numbered(text: Seq<char>, number: u32) -> Seq<char> {
    if number > 0 {
        text + seq!['_'] + crate::text::decimal((number - 1) as nat)
    } else {
        text
    }
}

/// What a name pool resolves from: the layout of its entries, and what reading
/// each block gives.
pub struct Names {
    pub format: NameFormat,
    pub blocks: Map<u32, Outcome<Option<Seq<u8>>>>,
}

impl Names {
    /// The name that a comparison index and a number stand for.
    pub open spec fn name(self, comparison_idx: u32, number: u32) -> Outcome<Option<Seq<char>>> {
        match self.blocks[comparison_idx >> 16] {
            Err(e) => Err(e),
            Ok(None) => Ok(None),
            Ok(Some(block)) => {
                let pos = (comparison_idx & 0xFFFF) * self.format.stride()
                    + self.format.header_off();
                match entry_text(block, pos, self.format.len_shift()) {
                    Some(text) => Ok(Some(numbered(text, number))),
                    None => Ok(None),
                }
            },
        }
    }

    /// Whether index 0 stands for `"None"`.
    pub open spec fn starts_with_none(self) -> Outcome<bool> {
        match self.name(0, 0) {
            Ok(name) => Ok(name == Some("None"@)),
            Err(e) => Err(e),
        }
    }

    /// The names of a pool whose blocks stand at `block_ptrs`.
    pub open spec fn of(m: Memory, block_ptrs: Seq<u64>, format: NameFormat) -> Names {
        Names {
            format,
            blocks: Map::new(
                |i: u32| true,
                |i: u32|
                    if i >= block_ptrs.len() || block_ptrs[i as int] == 0 {
                        Ok(None)
                    } else {
                        m.fetch(
                            block_ptrs[i as int],
                            (FNAME_POOL_OFFSET_UNITS * format.stride() + MAX_ENTRY_SIZE) as usize,
                        )
                    },
            ),
        }
    }

    /// These names, with `bytes` as block number `idx`.
    pub open spec fn with_block(self, idx: u32, bytes: Seq<u8>) -> Names {
        Names { format: self.format, blocks: self.blocks.insert(idx, Ok(Some(bytes))) }
    }

    /// `later` resolves everything that `self` resolves over the pages `m`.
    pub open spec fn grows_to(self, later: Names, m: Memory) -> bool {
        &&& self.format == later.format
        &&& forall|i: u32| m.settles(#[trigger] self.blocks[i], later.blocks[i])
    }
}

/// What can be told of a remote process: its memory, and its names.
pub struct Remote {
    pub mem: Memory,
    pub names: Names,
}

impl Memory {
    /// Both numbers of the FName struct at `addr` are known and can be read.
    pub open spec fn holds_fname(self, addr: u64) -> bool {
        &&& self.value::<u32>(addr) matches Ok(Some(_))
        &&& self.value::<u32>(addr.wrapping_add(4)) matches Ok(Some(_))
    }
}

impl Remote {
    /// The name that the FName struct at `addr` (u32 ComparisonIndex, u32 Number)
    /// stands for.
    pub open spec fn name_at(self, addr: u64) -> Outcome<Option<Seq<char>>> {
        match self.mem.value::<u32>(addr) {
            Err(e) => Err(e),
            Ok(None) => Ok(None),
            Ok(Some(idx)) => match self.mem.value::<u32>(addr.wrapping_add(4)) {
                Err(e) => Err(e),
                Ok(None) => Ok(None),
                Ok(Some(number)) => self.names.name(idx, number),
            },
        }
    }

    /// `later` tells everything that `self` tells.
    pub open spec fn grows_to(self, later: Remote) -> bool {
        &&& self.mem.grows_to(later.mem)
        &&& self.names.grows_to(later.names, self.mem)
    }
}

/// Decode the entry whose header stands at `pos`.
fn decode_entry(block: &[u8], pos: usize, len_shift: u32) -> (r: Option<String>)
    requires
        len_shift < 16,
        pos <= 0x10_0000,
    ensures
        (match r {
            Some(s) => Some(s@),
            None => None,
        }) == entry_text(block@, pos as int, len_shift),
{
    if pos + 2 > block.len() {
        return None;
    }
    let header: u16 = get_u16(block, pos);
    let is_wide = (header & 1) != 0;
    let len: usize = (header >> len_shift) as usize;
    if len == 0 || len > MAX_NAME_LEN {
        return None;
    }
    let start: usize = pos + 2;
    let size: usize = if is_wide {
        len * 2
    } else {
        len
    };
    if start + size > block.len() {
        return None;
    }
    let bytes = vstd::slice::slice_subrange(block, start, start + size);
    if is_wide {
        let mut chars: Vec<u16> = Vec::with_capacity(len);
        let mut i: usize = 0;
        while i < len
            invariant
                i <= len <= MAX_NAME_LEN,
                bytes@.len() == 2 * len,
                chars@.len() == i,
                forall|k: int| 0 <= k < i ==> chars@[k] == u16_at(bytes@, 2 * k),
            decreases len - i,
        {
            chars.push(get_u16(bytes, 2 * i));
            i = i + 1;
        }
        assert(chars@ =~= units(bytes@));
        Some(from_utf16_lossy(chars.as_slice()))
    } else {
        Some(from_utf8_lossy(bytes))
    }
}

// ── Pool ────────────────────────────────────────────────────────────

/// Block cache: maps block index to the raw bytes of that block.
pub struct BlockCache {
    blocks: HashMap<u32, Vec<u8>>,
    /// Max bytes per block: 0xFFFF * stride + MAX_ENTRY_SIZE.
    block_size: usize,
}

impl BlockCache {
    /// How many bytes are read of a block.
    pub closed spec fn size(self) -> usize {
        self.block_size
    }

    /// The blocks that are cached.
    pub closed spec fn cached(self) -> Map<u32, Vec<u8>> {
        self.blocks@
    }

    /// What asking for a block gives: what is cached of it, or what a read of
    /// `block_size` bytes at its address gives.
    pub open spec fn block(self, m: Memory, block_ptrs: Seq<u64>, idx: u32) -> Outcome<
        Option<Seq<u8>>,
    > {
        if self.cached().contains_key(idx) {
            Ok(Some(self.cached()[idx]@))
        } else if idx >= block_ptrs.len() || block_ptrs[idx as int] == 0 {
            Ok(None)
        } else {
            m.fetch(block_ptrs[idx as int], self.size())
        }
    }

    /// Each block holds up to FNAME_POOL_OFFSET_UNITS offset units of `stride` bytes,
    /// and there is room for the largest possible entry at the last of them.
    pub fn new(stride: usize) -> (cache: Self)
        requires
            FNAME_POOL_OFFSET_UNITS * stride + MAX_ENTRY_SIZE <= usize::MAX,
        ensures
            cache.size() == FNAME_POOL_OFFSET_UNITS * stride + MAX_ENTRY_SIZE,
            cache.cached() == Map::<u32, Vec<u8>>::empty(),
    {
        assert(0 <= FNAME_POOL_OFFSET_UNITS * stride);
        let block_size: usize = FNAME_POOL_OFFSET_UNITS * stride + MAX_ENTRY_SIZE;
        BlockCache { blocks: HashMap::new(), block_size }
    }

    pub fn get_or_read(
        &mut self,
        proc: &ProcessHandle,
        block_ptrs: &Vec<u64>,
        block_idx: u32,
    ) -> (r: Outcome<Option<&Vec<u8>>>)
        ensures
            (match r {
                Ok(Some(data)) => Ok(Some(data@)),
                Ok(None) => Ok(None),
                Err(e) => Err(e),
            }) == old(self).block(proc@, block_ptrs@, block_idx),
            final(self).size() == old(self).size(),
            final(self).cached() == (match r {
                Ok(Some(data)) => old(self).cached().insert(block_idx, *data),
                _ => old(self).cached(),
            }),
            !(r matches Ok(Some(_))) ==> *final(self) == *old(self),
    {
        if !self.blocks.contains_key(&block_idx) {
            if block_idx as usize >= block_ptrs.len() {
                return Ok(None);
            }
            let ptr: u64 = block_ptrs[block_idx as usize];
            if ptr == 0 {
                return Ok(None);
            }
            match proc.read_bytes(ptr, self.block_size)? {
                None => {
                    return Ok(None);
                },
                Some(data) => {
                    self.blocks.insert(block_idx, data);
                },
            }
        }
        let r = self.blocks.get(&block_idx);
        assert(self.blocks@ =~= old(self).blocks@.insert(block_idx, *r->0));
        Ok(r)
    }
}

/// How an allocator was reached from a GNames address.
#[derive(Clone, Copy, Debug, PartialEq, Eq, Structural)]
pub enum Route {
    /// The address is the allocator.
    Direct,
    /// The address holds a pointer to the allocator.
    Dereferenced,
    /// The allocator stands this far behind the address.
    PoolOffset(u64),
    /// The allocator stands this far behind what the address points to.
    DerefOffset(u64),
}

/// An address at which an FNameEntryAllocator may stand.
#[derive(Clone, Copy, Debug, PartialEq, Eq, Structural)]
pub struct Candidate {
    pub route: Route,
    pub base: u64,
}

/// A resolver for the names of a remote process.
pub struct FNamePool {
    block_ptrs: Vec<u64>,
    cache: BlockCache,
    format: NameFormat,
    source: Candidate,
}

impl FNamePool {
    /// What this pool resolves from, over the pages `m`. Where it was found makes no
    /// difference to that: see [`FNamePool::found_at`].
    pub closed spec fn names(self, m: Memory) -> Names {
        Names {
            format: self.format,
            blocks: Map::new(
                |i: u32| true,
                |i: u32| self.cache.block(m, self.block_ptrs@, i),
            ),
        }
    }

    /// Where this pool was found.
    pub closed spec fn found_at(self) -> Candidate {
        self.source
    }

    /// What can be told of the process over the pages `m`.
    pub open spec fn remote(self, m: Memory) -> Remote {
        Remote { mem: m, names: self.names(m) }
    }

    /// The blocks that are cached, by their number.
    pub closed spec fn cached(self) -> Map<u32, Seq<u8>> {
        self.cache.cached().map_values(|block: Vec<u8>| block@)
    }

    /// All that `other` has cached is cached here too, and a block that is not cached
    /// is read from where `other` reads it.
    #[verifier::opaque]
    pub open spec fn keeps(self, other: FNamePool) -> bool {
        &&& other.cached().submap_of(self.cached())
        &&& forall|m: Memory, i: u32|
            !self.cached().contains_key(i) ==> #[trigger] self.names(m).blocks[i]
                == other.names(m).blocks[i]
    }

    /// `self` resolves as `other` does, over the pages `m` and any that are
    /// fetched later, and has cached what `other` has cached.
    pub open spec fn same(self, other: FNamePool, m: Memory) -> bool {
        &&& self.found_at() == other.found_at()
        &&& forall|m2: Memory| m.grows_to(m2) ==> #[trigger] self.names(m2) == other.names(m2)
        &&& self.keeps(other)
    }

    /// `self` is `other` once a name of block number `idx` has been looked up over the
    /// pages `m`. A block that can be read is cached: from then on its names are those
    /// of the bytes that were read, over whatever pages. Nothing else changes.
    #[verifier::opaque]
    pub open spec fn looked_up(self, other: FNamePool, m: Memory, idx: u32) -> bool {
        match other.names(m).blocks[idx] {
            Ok(Some(bytes)) => {
                &&& self.cached() == other.cached().insert(idx, bytes)
                &&& forall|m2: Memory| #[trigger]
                    self.names(m2) == other.names(m2).with_block(idx, bytes)
            },
            _ => self == other,
        }
    }

    /// `self` is `other` once the FName struct at `addr` has been looked up over the
    /// pages `m`.
    pub open spec fn looked_up_at(self, other: FNamePool, m: Memory, addr: u64) -> bool {
        match (m.value::<u32>(addr), m.value::<u32>(addr.wrapping_add(4))) {
            (Ok(Some(idx)), Ok(Some(_))) => self.looked_up(other, m, idx >> 16),
            _ => self == other,
        }
    }

    pub fn format(&self) -> (format: NameFormat)
        ensures
            forall|m: Memory| (#[trigger] self.names(m)).format == format,
    {
        self.format
    }

    pub fn source(&self) -> (source: Candidate)
        ensures
            source == self.found_at(),
    {
        self.source
    }

    /// Resolve by comparison index + number directly.
    pub fn resolve_index(&mut self, proc: &ProcessHandle, comparison_idx: u32, number: u32) -> (r:
        Outcome<Option<String>>)
        ensures
            crate::mem::shown(r) == old(self).names(proc@).name(comparison_idx, number),
            final(self).same(*old(self), proc@),
            final(self).looked_up(*old(self), proc@, comparison_idx >> 16),
    {
        let block_idx: u32 = comparison_idx >> 16;
        let offset: usize = (comparison_idx & 0xFFFF) as usize;
        assert(comparison_idx & 0xFFFF <= 0xFFFF) by (bit_vector);
        let pos: usize = offset * self.format.stride() + self.format.header_off();
        let len_shift: u32 = self.format.len_shift();
        let text = match self.cache.get_or_read(proc, &self.block_ptrs, block_idx) {
            Ok(Some(block)) => Ok(decode_entry(block.as_slice(), pos, len_shift)),
            Ok(None) => Ok(None),
            Err(e) => Err(e),
        };
        proof {
            let m = proc@;
            assert forall|m2: Memory| m.grows_to(m2) implies #[trigger] self.names(m2) == old(
                self,
            ).names(m2) by {
                assert forall|i: u32|
                    self.cache.block(m2, self.block_ptrs@, i) == old(self).cache.block(
                        m2,
                        old(self).block_ptrs@,
                        i,
                    ) by {
                    if i == block_idx {
                        crate::mem::lemma_fetch_settled(
                            m,
                            m2,
                            self.block_ptrs@[i as int],
                            self.cache.size(),
                        );
                    }
                }
                assert(self.names(m2).blocks =~= old(self).names(m2).blocks);
            }
            lemma_block_cached(*old(self), *self, m, block_idx);
        }
        match text? {
            None => Ok(None),
            Some(mut name) => {
                if number > 0 {
                    proof {
                        reveal_strlit("_");
                    }
                    let ghost plain = name@;
                    name.append("_");
                    push_decimal(&mut name, (number - 1) as u64);
                    assert(name@ =~= numbered(plain, number));
                }
                Ok(Some(name))
            },
        }
    }

    /// Resolve an FName from its raw memory representation (comparison index + number).
    /// `fname_addr` points to the FName struct: u32 ComparisonIndex, u32 Number.
    pub fn resolve(&mut self, proc: &ProcessHandle, fname_addr: u64) -> (r: Outcome<Option<String>>)
        ensures
            crate::mem::shown(r) == old(self).remote(proc@).name_at(fname_addr),
            final(self).same(*old(self), proc@),
            final(self).looked_up_at(*old(self), proc@, fname_addr),
    {
        broadcast use lemma_pool_keeps_itself;

        let comparison_idx: u32 = match proc.read::<u32>(fname_addr)? {
            Some(v) => v,
            None => {
                return Ok(None);
            },
        };
        let number: u32 = match proc.read::<u32>(fname_addr.wrapping_add(4))? {
            Some(v) => v,
            None => {
                return Ok(None);
            },
        };
        self.resolve_index(proc, comparison_idx, number)
    }

    /// Validate the pool by checking that index 0 is `"None"`.
    pub fn validate(&mut self, proc: &ProcessHandle) -> (r: Outcome<bool>)
        ensures
            r == old(self).names(proc@).starts_with_none(),
            final(self).same(*old(self), proc@),
            final(self).looked_up(*old(self), proc@, 0),
    {
        assert(0u32 >> 16 == 0) by (bit_vector);
        match self.resolve_index(proc, 0, 0)? {
            Some(name) => Ok(str_equal(name.as_str(), "None")),
            None => Ok(false),
        }
    }
}

/// What asking for a block does to a pool.
proof fn lemma_block_cached(before: FNamePool, after: FNamePool, m: Memory, idx: u32)
    requires
        after.block_ptrs == before.block_ptrs,
        after.format == before.format,
        after.source == before.source,
        after.cache.size() == before.cache.size(),
        match before.cache.block(m, before.block_ptrs@, idx) {
            Ok(Some(bytes)) => {
                let data = after.cache.cached()[idx];
                data@ == bytes && after.cache.cached() == before.cache.cached().insert(idx, data)
            },
            _ => after == before,
        },
    ensures
        after.looked_up(before, m, idx),
        after.keeps(before),
{
    reveal(FNamePool::looked_up);
    reveal(FNamePool::keeps);
    match before.cache.block(m, before.block_ptrs@, idx) {
        Ok(Some(bytes)) => {
            assert(after.cached() =~= before.cached().insert(idx, bytes));
            assert forall|m2: Memory| #[trigger]
                after.names(m2) == before.names(m2).with_block(idx, bytes) by {
                assert(after.names(m2).blocks =~= before.names(m2).with_block(idx, bytes).blocks);
            }
        },
        _ => {},
    }
}

// ── Locating the pool ───────────────────────────────────────────────

/// The bytes of `"None"`.
pub open spec fn none_bytes() -> Seq<u8> {
    seq![0x4E, 0x6F, 0x6E, 0x65]
}

/// The first entry of a block decodes as `"None"`.
pub open spec fn reads_none(data: Seq<u8>, header_off: int, len_shift: u32) -> bool {
    &&& header_off + 6 <= data.len()
    &&& u16_at(data, header_off) >> len_shift == 4
    &&& data.subrange(header_off + 2, header_off + 6) == none_bytes()
}

/// Try to decode the first entry in a block as "None".
pub fn try_decode_none(data: &[u8], header_off: usize, len_shift: u32) -> (r: bool)
    requires
        len_shift < 16,
    ensures
        r == reads_none(data@, header_off as int, len_shift),
{
    if data.len() < 6 || header_off > data.len() - 6 {
        return false;
    }
    let header: u16 = get_u16(data, header_off);
    if header >> len_shift != 4 {
        return false;
    }
    let start: usize = header_off + 2;
    let r = data[start] == 0x4E && data[start + 1] == 0x6F && data[start + 2] == 0x6E && data[start
        + 3] == 0x65;
    proof {
        let part = data@.subrange(header_off + 2, header_off + 6);
        assert(part.len() == 4 && part[0] == data@[start as int] && part[1] == data@[start + 1]
            && part[2] == data@[start + 2] && part[3] == data@[start + 3]);
        if r {
            assert(part =~= none_bytes());
        }
    }
    r
}

/// How many steps of eight bytes the search for an allocator takes.
pub open spec fn scan_steps() -> nat {
    (FNAME_POOL_SCAN_RANGE / 8) as nat
}

/// The candidates that stand in steps of eight bytes behind `gnames`.
pub open spec fn pool_candidates(gnames: u64) -> Seq<Candidate> {
    Seq::new(
        scan_steps(),
        |i: int|
            Candidate {
                route: Route::PoolOffset((8 * (i + 1)) as u64),
                base: gnames.wrapping_add((8 * (i + 1)) as u64),
            },
    )
}

/// The candidates that stand in steps of eight bytes behind what `gnames` points to.
pub open spec fn deref_candidates(deref: u64) -> Seq<Candidate> {
    Seq::new(
        scan_steps(),
        |i: int|
            Candidate {
                route: Route::DerefOffset((8 * (i + 1)) as u64),
                base: deref.wrapping_add((8 * (i + 1)) as u64),
            },
    )
}

impl Memory {
    /// Where an allocator may stand, in the order in which the places are tried.
    pub open spec fn candidates(self, gnames: u64) -> Outcome<Seq<Candidate>> {
        let direct = seq![Candidate { route: Route::Direct, base: gnames }];
        match self.pointer(gnames) {
            Err(e) => Err(e),
            Ok(None) => Ok(direct + pool_candidates(gnames)),
            Ok(Some(deref)) => Ok(
                direct + seq![Candidate { route: Route::Dereferenced, base: deref }]
                    + pool_candidates(gnames) + deref_candidates(deref),
            ),
        }
    }

    /// The format in which the first name of the allocator at `base` is `"None"`.
    pub open spec fn allocator_format(self, base: u64) -> Outcome<Option<NameFormat>> {
        match self.pointer(base.wrapping_add(FNAME_ALLOCATOR_BLOCKS)) {
            Err(e) => Err(e),
            Ok(None) => Ok(None),
            Ok(Some(block0)) => if block0 <= MIN_VALID_PTR {
                Ok(None)
            } else {
                match self.fetch(block0, 256) {
                    Err(e) => Err(e),
                    Ok(None) => Ok(None),
                    Ok(Some(data)) => if reads_none(data, 0, 6) {
                        Ok(Some(NameFormat::Shipping))
                    } else if reads_none(data, 4, 1) {
                        Ok(Some(NameFormat::CasePreserving))
                    } else {
                        Ok(None)
                    },
                }
            },
        }
    }

    /// The block pointers behind those already `read`: up to the first that cannot
    /// be read, or to two nulls in a row behind the first three.
    pub open spec fn block_ptrs_from(self, blocks_base: u64, read: Seq<u64>) -> Outcome<Seq<u64>>
        decreases FNAME_POOL_MAX_BLOCKS - read.len(),
    {
        let i = read.len();
        if i >= FNAME_POOL_MAX_BLOCKS {
            Ok(read)
        } else {
            match self.value::<u64>(blocks_base.wrapping_add((8 * i) as u64)) {
                Err(e) => Err(e),
                Ok(None) => Ok(read),
                Ok(Some(v)) => if i > 2 && v == 0 && read[i - 1] == 0 {
                    Ok(read.push(v))
                } else {
                    self.block_ptrs_from(blocks_base, read.push(v))
                },
            }
        }
    }

    /// The first of `candidates`, from number `i` on, at which an allocator stands.
    pub open spec fn allocator_from(self, candidates: Seq<Candidate>, i: int) -> Outcome<
        Option<(Candidate, NameFormat)>,
    >
        decreases candidates.len() - i,
    {
        if i < 0 || i >= candidates.len() {
            Ok(None)
        } else {
            match self.allocator_format(candidates[i].base) {
                Err(e) => Err(e),
                Ok(Some(format)) => Ok(Some((candidates[i], format))),
                Ok(None) => self.allocator_from(candidates, i + 1),
            }
        }
    }

    /// The pool that a GNames address leads to: where its allocator stands, the
    /// format of its entries, and its block pointers.
    pub open spec fn pool(self, gnames: u64) -> Outcome<Option<(Candidate, NameFormat, Seq<u64>)>> {
        match self.candidates(gnames) {
            Err(e) => Err(e),
            Ok(candidates) => match self.allocator_from(candidates, 0) {
                Err(e) => Err(e),
                Ok(None) => Ok(None),
                Ok(Some((found, format))) => match self.block_ptrs_from(
                    found.base.wrapping_add(FNAME_ALLOCATOR_BLOCKS),
                    seq![],
                ) {
                    Err(e) => Err(e),
                    Ok(ptrs) => Ok(Some((found, format, ptrs))),
                },
            },
        }
    }
}

/// Build a list of candidate allocator base addresses to try.
#[verifier::rlimit(60)]
pub fn build_candidates(proc: &ProcessHandle, gnames_raw: u64) -> (r: Outcome<Vec<Candidate>>)
    ensures
        crate::mem::listed(r) == proc@.candidates(gnames_raw),
{
    let mut candidates: Vec<Candidate> = Vec::new();
    // 1. GNames IS the allocator directly (Blocks at gnames + 0x10)
    candidates.push(Candidate { route: Route::Direct, base: gnames_raw });
    // 2. GNames is a pointer to the allocator: dereference it
    let deref = proc.ptr(gnames_raw)?;
    if let Some(deref) = deref {
        candidates.push(Candidate { route: Route::Dereferenced, base: deref });
    }
    // 3. GNames points to FNamePool, allocator is at a fixed offset past hash shards.
    //    Common offsets seen in different games: 0x30, 0x40, etc.
    //    Scan in 8-byte steps up to FNAME_POOL_SCAN_RANGE to cover varying shard counts.
    let ghost start = candidates@;
    proof {
        let direct = seq![Candidate { route: Route::Direct, base: gnames_raw }];
        match deref {
            None => {
                assert(start =~= direct);
            },
            Some(deref) => {
                assert(start =~= direct + seq![
                    Candidate { route: Route::Dereferenced, base: deref },
                ]);
            },
        }
    }
    let mut off: u64 = 8;
    while off <= FNAME_POOL_SCAN_RANGE
        invariant
            8 <= off <= FNAME_POOL_SCAN_RANGE + 8,
            off % 8 == 0,
            candidates@ == start + pool_candidates(gnames_raw).take((off - 8) / 8),
        decreases FNAME_POOL_SCAN_RANGE + 8 - off,
    {
        candidates.push(
            Candidate { route: Route::PoolOffset(off), base: gnames_raw.wrapping_add(off) },
        );
        assert(candidates@ =~= start + pool_candidates(gnames_raw).take((off + 8 - 8) / 8));
        off = off + 8;
    }
    assert(pool_candidates(gnames_raw).take((off - 8) / 8) =~= pool_candidates(gnames_raw));
    assert(candidates@ == start + pool_candidates(gnames_raw));
    // 4. Same scan but on the dereferenced pointer
    if let Some(deref) = deref {
        let ghost start = candidates@;
        let mut off: u64 = 8;
        while off <= FNAME_POOL_SCAN_RANGE
            invariant
                8 <= off <= FNAME_POOL_SCAN_RANGE + 8,
                off % 8 == 0,
                candidates@ == start + deref_candidates(deref).take((off - 8) / 8),
            decreases FNAME_POOL_SCAN_RANGE + 8 - off,
        {
            candidates.push(
                Candidate { route: Route::DerefOffset(off), base: deref.wrapping_add(off) },
            );
            assert(candidates@ =~= start + deref_candidates(deref).take((off + 8 - 8) / 8));
            off = off + 8;
        }
        assert(deref_candidates(deref).take((off - 8) / 8) =~= deref_candidates(deref));
        assert(candidates@ == start + deref_candidates(deref));
    }
    Ok(candidates)
}

/// Read block pointers from the Blocks[] array.
pub fn read_block_ptrs(proc: &ProcessHandle, blocks_base: u64) -> (r: Outcome<Vec<u64>>)
    ensures
        crate::mem::listed(r) == proc@.block_ptrs_from(blocks_base, seq![]),
{
    let mut block_ptrs: Vec<u64> = Vec::new();
    assert(block_ptrs@ =~= seq![]);
    let mut i: usize = 0;
    while i < FNAME_POOL_MAX_BLOCKS
        invariant
            i <= FNAME_POOL_MAX_BLOCKS,
            block_ptrs@.len() == i,
            proc@.block_ptrs_from(blocks_base, seq![]) == proc@.block_ptrs_from(
                blocks_base,
                block_ptrs@,
            ),
        decreases FNAME_POOL_MAX_BLOCKS - i,
    {
        match proc.read::<u64>(blocks_base.wrapping_add(8 * i as u64))? {
            Some(v) => block_ptrs.push(v),
            None => {
                return Ok(block_ptrs);
            },
        }
        // Stop early once we hit consecutive nulls
        if i > 2 && block_ptrs[i] == 0 && block_ptrs[i - 1] == 0 {
            return Ok(block_ptrs);
        }
        i = i + 1;
    }
    Ok(block_ptrs)
}

impl FNamePool {
    /// Initialize with an explicit GNames address.
    ///
    /// The scanner ([`crate::scanner::scan`]) produces this address by finding
    /// an FNameEntryAllocator whose block 0 decodes to `"None"`. The address may
    /// also be that of an enclosing FNamePool (with hash shards before the
    /// allocator), or of a pointer to either.
    pub fn with_addr(proc: &ProcessHandle, gnames_addr: u64) -> (r: Outcome<Option<Self>>)
        ensures
            match r {
                Err(e) => proc@.pool(gnames_addr) == Err::<
                    Option<(Candidate, NameFormat, Seq<u64>)>,
                    crate::mem::Missing,
                >(e),
                Ok(None) => proc@.pool(gnames_addr) == Ok::<
                    Option<(Candidate, NameFormat, Seq<u64>)>,
                    crate::mem::Missing,
                >(None),
                Ok(Some(pool)) => {
                    &&& proc@.pool(gnames_addr) matches Ok(Some((found, format, ptrs)))
                    &&& pool.found_at() == found
                    &&& pool.cached() == Map::<u32, Seq<u8>>::empty()
                    &&& forall|m: Memory| #[trigger] pool.names(m) == Names::of(m, ptrs, format)
                },
            },
    {
        let candidates = build_candidates(proc, gnames_addr)?;
        let mut i: usize = 0;
        while i < candidates.len()
            invariant
                i <= candidates@.len(),
                proc@.candidates(gnames_addr) == Ok::<Seq<Candidate>, crate::mem::Missing>(
                    candidates@,
                ),
                proc@.allocator_from(candidates@, 0) == proc@.allocator_from(
                    candidates@,
                    i as int,
                ),
            decreases candidates.len() - i,
        {
            let candidate: Candidate = candidates[i];
            i = i + 1;
            let blocks_base: u64 = candidate.base.wrapping_add(FNAME_ALLOCATOR_BLOCKS);
            // Read Block[0] pointer
            let block0: u64 = match proc.ptr(blocks_base)? {
                Some(p) if p > MIN_VALID_PTR => p,
                _ => {
                    continue;
                },
            };
            // Try to read entry 0 from block 0 and see if it decodes to "None"
            let data = match proc.read_bytes(block0, 256)? {
                Some(d) => d,
                None => {
                    continue;
                },
            };
            let format = if try_decode_none(data.as_slice(), 0, 6) {
                NameFormat::Shipping
            } else if try_decode_none(data.as_slice(), 4, 1) {
                NameFormat::CasePreserving
            } else {
                continue;
            };
            let block_ptrs = read_block_ptrs(proc, blocks_base)?;
            let pool = FNamePool {
                block_ptrs,
                cache: BlockCache::new(format.stride()),
                format,
                source: candidate,
            };
            assert(pool.cached() =~= Map::empty());
            assert forall|m: Memory| #[trigger]
                pool.names(m) == Names::of(m, pool.block_ptrs@, format) by {
                assert(pool.names(m).blocks =~= Names::of(m, pool.block_ptrs@, format).blocks);
            }
            return Ok(Some(pool));
        }
        Ok(None)
    }
}

// ── Laws ────────────────────────────────────────────────────────────

/// A pool keeps what it has.
pub broadcast proof fn lemma_pool_keeps_itself(pool: FNamePool)
    ensures
        #[trigger] pool.keeps(pool),
{
    reveal(FNamePool::keeps);
}

/// What is kept twice is kept.
pub broadcast proof fn lemma_pool_keeps_transitive(
    first: FNamePool,
    second: FNamePool,
    third: FNamePool,
)
    requires
        #[trigger] second.keeps(first),
        #[trigger] third.keeps(second),
    ensures
        third.keeps(first),
{
    reveal(FNamePool::keeps);
    assert forall|i: u32| #[trigger] first.cached().dom().contains(i) implies third.cached().dom().contains(
        i,
    ) && first.cached()[i] == third.cached()[i] by {
        assert(second.cached().dom().contains(i));
        assert(third.cached().dom().contains(i));
    }
    assert forall|m: Memory, i: u32| !third.cached().contains_key(i) implies #[trigger] third.names(
        m,
    ).blocks[i] == first.names(m).blocks[i] by {
        assert(!second.cached().dom().contains(i)) by {
            assert(!third.cached().dom().contains(i));
        }
        assert(third.names(m).blocks[i] == second.names(m).blocks[i]);
        assert(second.names(m).blocks[i] == first.names(m).blocks[i]);
    }
}

/// A block that is cached stays what it is, over whatever pages.
pub proof fn lemma_cached_block_stays(before: FNamePool, after: FNamePool, m: Memory, i: u32)
    requires
        after.keeps(before),
        before.cached().contains_key(i),
    ensures
        after.cached().contains_key(i),
        before.names(m).blocks[i] == Ok::<Option<Seq<u8>>, crate::mem::Missing>(
            Some(before.cached()[i]),
        ),
        after.names(m).blocks[i] == before.names(m).blocks[i],
{
    reveal(FNamePool::keeps);
    assert(before.cached().dom().contains(i));
    assert(after.cached().dom().contains(i));
}

/// A block that is cached in between is what was read of it.
pub proof fn lemma_cached_block_was_read(before: FNamePool, after: FNamePool, m: Memory, i: u32)
    requires
        after.same(before, m),
        after.cached().contains_key(i),
    ensures
        before.names(m).blocks[i] == Ok::<Option<Seq<u8>>, crate::mem::Missing>(
            Some(after.cached()[i]),
        ),
{
    assert(m.grows_to(m));
    assert(after.names(m) == before.names(m));
}

/// An entry gives back the name that it was written with: a narrow one the text whose
/// UTF-8 bytes it holds.
pub proof fn lemma_narrow_entry(block: Seq<u8>, pos: int, format: NameFormat, text: Seq<char>)
    requires
        0 <= pos,
        0 < vstd::utf8::encode_utf8(text).len() < 0x400,
        crate::text::stands_at(block, vstd::utf8::encode_utf8(text), pos + 2),
        u16_at(block, pos) == (vstd::utf8::encode_utf8(text).len() as u16) << format.len_shift(),
    ensures
        entry_text(block, pos, format.len_shift()) == Some(text),
{
    let bytes = vstd::utf8::encode_utf8(text);
    let len = bytes.len() as u16;
    assert(len < 0x400 ==> (len << 6) >> 6 == len && (len << 6) & 1 == 0 && (len << 1) >> 1 == len
        && (len << 1) & 1 == 0) by (bit_vector);
    vstd::utf8::encode_utf8_valid_utf8(text);
    vstd::utf8::encode_utf8_decode_utf8(text);
}

/// A wide entry gives back the text that its code units encode.
pub proof fn lemma_wide_entry(block: Seq<u8>, pos: int, format: NameFormat, bytes: Seq<u8>)
    requires
        0 <= pos,
        0 < bytes.len() < 0x800,
        bytes.len() % 2 == 0,
        crate::text::stands_at(block, bytes, pos + 2),
        u16_at(block, pos) == ((bytes.len() / 2) as u16) << format.len_shift() | 1,
    ensures
        entry_text(block, pos, format.len_shift()) == Some(crate::text::utf16_text(units(bytes))),
{
    let len = (bytes.len() / 2) as u16;
    assert(len < 0x400 ==> ((len << 6) | 1) >> 6 == len && ((len << 6) | 1) & 1 == 1 && ((len << 1)
        | 1) >> 1 == len && ((len << 1) | 1) & 1 == 1) by (bit_vector);
}

/// Every entry fits in its block: one is refused for its length alone, whatever its
/// offset and whether it is wide or not.
pub proof fn lemma_every_entry_fits(
    m: Memory,
    block_ptrs: Seq<u64>,
    format: NameFormat,
    comparison_idx: u32,
    number: u32,
)
    requires
        Names::of(m, block_ptrs, format).blocks[comparison_idx >> 16] matches Ok(Some(_)),
    ensures
        ({
            let names = Names::of(m, block_ptrs, format);
            let block = names.blocks[comparison_idx >> 16]->Ok_0->0;
            let pos = (comparison_idx & 0xFFFF) * format.stride() + format.header_off();
            let len = u16_at(block, pos) >> format.len_shift();
            names.name(comparison_idx, number) matches Ok(name) && (name is Some <==> 0 < len
                <= MAX_NAME_LEN)
        }),
{
    let block = Names::of(m, block_ptrs, format).blocks[comparison_idx >> 16]->Ok_0->0;
    assert(comparison_idx & 0xFFFF <= 0xFFFF) by (bit_vector);
    assert(block.len() == FNAME_POOL_OFFSET_UNITS * format.stride() + MAX_ENTRY_SIZE);
}

/// An FName struct stands for what its comparison index and its number stand for, and
/// for nothing where one of them cannot be read.
pub proof fn lemma_fname_is_its_numbers(r: Remote, addr: u64)
    ensures
        r.mem.value::<u32>(addr) matches Ok(Some(idx)) ==> r.mem.value::<u32>(
            addr.wrapping_add(4),
        ) matches Ok(Some(number)) ==> r.name_at(addr) == r.names.name(idx, number),
        r.name_at(addr) is Ok && !r.mem.holds_fname(addr) ==> r.name_at(addr) == Ok::<
            Option<Seq<char>>,
            crate::mem::Missing,
        >(None),
{
}

/// Fetching more pages never changes a name that has been resolved, and a read that
/// resolving asks for is one that cannot be answered yet.
pub broadcast proof fn lemma_name_settled(r: Remote, r2: Remote, comparison_idx: u32, number: u32)
    requires
        #[trigger] r.grows_to(r2),
    ensures
        r.mem.settles(
            #[trigger] r.names.name(comparison_idx, number),
            r2.names.name(comparison_idx, number),
        ),
{
    assert(r.mem.settles(
        r.names.blocks[comparison_idx >> 16],
        r2.names.blocks[comparison_idx >> 16],
    ));
}

/// The same holds of the name of an FName struct.
pub broadcast proof fn lemma_name_at_settled(r: Remote, r2: Remote, addr: u64)
    requires
        #[trigger] r.grows_to(r2),
    ensures
        r.mem.settles(#[trigger] r.name_at(addr), r2.name_at(addr)),
{
    broadcast use {crate::mem::lemma_value_settled, lemma_name_settled};

}

/// A pool tells more, and nothing else, as pages are fetched.
pub proof fn lemma_pool_grows(pool: FNamePool, m: Memory, m2: Memory)
    requires
        m.grows_to(m2),
    ensures
        pool.remote(m).grows_to(pool.remote(m2)),
{
    let before = pool.names(m);
    let after = pool.names(m2);
    assert forall|i: u32| m.settles(#[trigger] before.blocks[i], after.blocks[i]) by {
        if !pool.cache.cached().contains_key(i) && i < pool.block_ptrs@.len() {
            crate::mem::lemma_fetch_settled(m, m2, pool.block_ptrs@[i as int], pool.cache.size());
        }
    }
}

/// The names of blocks at known addresses grow in the same way.
pub proof fn lemma_names_grow(m: Memory, m2: Memory, block_ptrs: Seq<u64>, format: NameFormat)
    requires
        m.grows_to(m2),
    ensures
        Names::of(m, block_ptrs, format).grows_to(Names::of(m2, block_ptrs, format), m),
{
    let before = Names::of(m, block_ptrs, format);
    let after = Names::of(m2, block_ptrs, format);
    assert forall|i: u32| m.settles(#[trigger] before.blocks[i], after.blocks[i]) by {
        if i < block_ptrs.len() {
            crate::mem::lemma_fetch_settled(
                m,
                m2,
                block_ptrs[i as int],
                (FNAME_POOL_OFFSET_UNITS * format.stride() + MAX_ENTRY_SIZE) as usize,
            );
        }
    }
}

proof fn lemma_allocator_settled(m: Memory, m2: Memory, candidates: Seq<Candidate>, i: int)
    requires
        m.grows_to(m2),
    ensures
        m.settles(m.allocator_from(candidates, i), m2.allocator_from(candidates, i)),
    decreases candidates.len() - i,
{
    broadcast use {crate::mem::lemma_value_settled, crate::mem::lemma_fetch_settled};

    if 0 <= i < candidates.len() {
        lemma_allocator_settled(m, m2, candidates, i + 1);
        assert(m.settles(
            m.allocator_format(candidates[i].base),
            m2.allocator_format(candidates[i].base),
        ));
    }
}

/// Fetching more pages never changes where an allocator may stand.
pub proof fn lemma_candidates_settled(m: Memory, m2: Memory, gnames: u64)
    requires
        m.grows_to(m2),
    ensures
        m.settles(m.candidates(gnames), m2.candidates(gnames)),
{
    broadcast use crate::mem::lemma_value_settled;

}

/// Fetching more pages never changes what asking for a block gives.
pub proof fn lemma_block_settled(
    cache: BlockCache,
    m: Memory,
    m2: Memory,
    block_ptrs: Seq<u64>,
    idx: u32,
)
    requires
        m.grows_to(m2),
    ensures
        m.settles(cache.block(m, block_ptrs, idx), cache.block(m2, block_ptrs, idx)),
{
    broadcast use crate::mem::lemma_fetch_settled;

}

/// Fetching more pages never changes the block pointers.
pub proof fn lemma_block_ptrs_settled(m: Memory, m2: Memory, blocks_base: u64, read: Seq<u64>)
    requires
        m.grows_to(m2),
    ensures
        m.settles(m.block_ptrs_from(blocks_base, read), m2.block_ptrs_from(blocks_base, read)),
    decreases FNAME_POOL_MAX_BLOCKS - read.len(),
{
    broadcast use crate::mem::lemma_value_settled;

    if read.len() < FNAME_POOL_MAX_BLOCKS {
        match m.value::<u64>(blocks_base.wrapping_add((8 * read.len()) as u64)) {
            Ok(Some(v)) => {
                lemma_block_ptrs_settled(m, m2, blocks_base, read.push(v));
            },
            _ => {},
        }
    }
}

/// Fetching more pages never changes which pool a GNames address leads to.
pub proof fn lemma_pool_settled(m: Memory, m2: Memory, gnames: u64)
    requires
        m.grows_to(m2),
    ensures
        m.settles(m.pool(gnames), m2.pool(gnames)),
{
    broadcast use crate::mem::lemma_value_settled;

    assert(m.settles(m.candidates(gnames), m2.candidates(gnames)));
    match m.candidates(gnames) {
        Ok(candidates) => {
            lemma_allocator_settled(m, m2, candidates, 0);
            match m.allocator_from(candidates, 0) {
                Ok(Some((found, _))) => {
                    lemma_block_ptrs_settled(
                        m,
                        m2,
                        found.base.wrapping_add(FNAME_ALLOCATOR_BLOCKS),
                        seq![],
                    );
                },
                _ => {},
            }
        },
        Err(_) => {},
    }
}

/// A pool that was found starts with the name "None", wherever its first block can be
/// read and the first entry is not wide.
pub proof fn lemma_pool_starts_with_none(m: Memory, gnames: u64)
    requires
        m.pool(gnames) matches Ok(Some((_, format, block_ptrs))) && block_ptrs.len() > 0 && {
            let block = Names::of(m, block_ptrs, format).blocks[0];
            block matches Ok(Some(data)) && u16_at(data, format.header_off() as int) & 1 == 0
        },
    ensures
        m.pool(gnames) matches Ok(Some((_, format, block_ptrs))) && Names::of(
            m,
            block_ptrs,
            format,
        ).name(0, 0) == Ok::<Option<Seq<char>>, crate::mem::Missing>(
            Some("None"@),
        ),
{
    let (found, format, ptrs) = m.pool(gnames)->Ok_0->0;
    let names = Names::of(m, ptrs, format);
    let block = names.blocks[0]->Ok_0->0;
    let candidates = m.candidates(gnames)->Ok_0;
    lemma_allocator_is_candidate(m, candidates, 0);
    assert(m.allocator_format(found.base) == Ok::<Option<NameFormat>, crate::mem::Missing>(
        Some(format),
    ));
    let base = found.base.wrapping_add(FNAME_ALLOCATOR_BLOCKS);
    lemma_block_ptrs_keep(m, base, seq![]);
    assert(base.wrapping_add(0) == base);
    let size = (FNAME_POOL_OFFSET_UNITS * format.stride() + MAX_ENTRY_SIZE) as usize;
    let block0 = ptrs[0];
    assert(m.value::<u64>(base) == Ok::<Option<u64>, crate::mem::Missing>(Some(block0)));
    let data = m.fetch(block0, 256)->Ok_0->0;
    assert(block.len() == size);
    assert forall|i: int| 0 <= i < 256 implies #[trigger] data[i] == block[i] by {}
    let off = format.header_off() as int;
    assert(reads_none(data, off, format.len_shift()));
    assert(block.subrange(off + 2, off + 6) =~= data.subrange(off + 2, off + 6));
    assert(0u32 >> 16 == 0 && 0u32 & 0xFFFF == 0) by (bit_vector);
    assert(u16_at(block, off) == u16_at(data, off));
    lemma_none_text();
}

/// The bytes of `"None"` are its encoding.
proof fn lemma_none_text()
    ensures
        crate::text::utf8_text(none_bytes()) == "None"@,
{
    reveal_strlit("None");
    let text = "None"@;
    assert(vstd::utf8::is_ascii_chars(text));
    vstd::utf8::is_ascii_chars_encode_utf8(text);
    assert(vstd::utf8::encode_utf8(text) =~= none_bytes());
    vstd::utf8::encode_utf8_valid_utf8(text);
    vstd::utf8::encode_utf8_decode_utf8(text);
}

proof fn lemma_allocator_is_candidate(m: Memory, candidates: Seq<Candidate>, i: int)
    ensures
        m.allocator_from(candidates, i) matches Ok(Some((found, format))) ==> m.allocator_format(
            found.base,
        ) == Ok::<Option<NameFormat>, crate::mem::Missing>(Some(format)),
    decreases candidates.len() - i,
{
    if 0 <= i < candidates.len() {
        lemma_allocator_is_candidate(m, candidates, i + 1);
    }
}

/// Block pointers once read stay in front, and the first one behind them is what the
/// array holds.
proof fn lemma_block_ptrs_keep(m: Memory, blocks_base: u64, read: Seq<u64>)
    ensures
        m.block_ptrs_from(blocks_base, read) matches Ok(ptrs) ==> read.is_prefix_of(ptrs) && (
        ptrs.len() > read.len() ==> m.value::<u64>(
            blocks_base.wrapping_add((8 * read.len()) as u64),
        ) == Ok::<Option<u64>, crate::mem::Missing>(Some(ptrs[read.len() as int]))),
    decreases FNAME_POOL_MAX_BLOCKS - read.len(),
{
    if read.len() < FNAME_POOL_MAX_BLOCKS {
        match m.value::<u64>(blocks_base.wrapping_add((8 * read.len()) as u64)) {
            Ok(Some(v)) => {
                lemma_block_ptrs_keep(m, blocks_base, read.push(v));
                match m.block_ptrs_from(blocks_base, read.push(v)) {
                    Ok(ptrs) => {
                        assert(read.push(v).is_prefix_of(ptrs) ==> read.is_prefix_of(ptrs)
                            && ptrs[read.len() as int] == v) by {
                            if read.push(v).is_prefix_of(ptrs) {
                                assert(ptrs.take((read.len() + 1) as int) =~= read.push(v));
                                assert(ptrs[read.len() as int] == ptrs.take(
                                    (read.len() + 1) as int,
                                )[read.len() as int]);
                                assert(ptrs.take(read.len() as int) =~= read);
                            }
                        }
                    },
                    Err(_) => {},
                }
            },
            _ => {},
        }
    }
}

} // verus!
