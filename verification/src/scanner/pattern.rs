//! Byte patterns in the image's code, and the addresses that its instructions refer to.

use crate::mem::{Memory, Outcome, ProcessHandle};
use crate::ue::offsets::MAX_USERSPACE;
use vstd::prelude::*;

verus! {

// ── Pattern matching ────────────────────────────────────────────────

/// How much is read at once.
pub const CHUNK_SIZE: usize = 4 * 1024 * 1024;

/// `pattern` matches `data` at position `at`; `None` matches any byte.
pub open spec fn matches_at(data: Seq<u8>, pattern: Seq<Option<u8>>, at: int) -> bool {
    &&& 0 <= at
    &&& at + pattern.len() <= data.len()
    &&& forall|j: int|
        0 <= j < pattern.len() ==> (#[trigger] pattern[j] is Some ==> data[at + j] == pattern[j]->0)
}

/// The addresses of the matches at the first `n` positions of the bytes at `addr`.
pub open spec fn hits(addr: u64, data: Seq<u8>, pattern: Seq<Option<u8>>, n: nat) -> Seq<u64>
    decreases n,
{
    if n == 0 {
        seq![]
    } else {
        let before = hits(addr, data, pattern, (n - 1) as nat);
        if matches_at(data, pattern, n - 1) {
            before.push(addr.wrapping_add((n - 1) as u64))
        } else {
            before
        }
    }
}

/// How many bytes are read at `offset` of a region.
pub open spec fn chunk_len(size: u64, offset: int) -> int {
    if size - offset < CHUNK_SIZE {
        size - offset
    } else {
        CHUNK_SIZE as int
    }
}

impl Memory {
    /// The matches of `pattern` in the bytes from `offset` on of the region of
    /// `size` bytes at `start`. The region is read in chunks that overlap by the
    /// length of the pattern; one that cannot be read is passed over. Behind a
    /// pattern that fills a chunk there is no other chunk.
    pub open spec fn matches_from(
        self,
        start: u64,
        size: u64,
        pattern: Seq<Option<u8>>,
        offset: int,
    ) -> Outcome<Seq<u64>>
        decreases size - offset + CHUNK_SIZE,
    {
        if offset >= size {
            Ok(seq![])
        } else {
            let addr = start.wrapping_add(offset as u64);
            let len = chunk_len(size, offset);
            let rest = if pattern.len() >= CHUNK_SIZE {
                Ok(seq![])
            } else {
                self.matches_from(start, size, pattern, offset + CHUNK_SIZE - pattern.len())
            };
            match self.fetch(addr, len as usize) {
                Err(e) => Err(e),
                Ok(None) => rest,
                Ok(Some(data)) => match rest {
                    Err(e) => Err(e),
                    Ok(rest) => Ok(hits(addr, data, pattern, data.len()) + rest),
                },
            }
        }
    }

    /// The matches of `pattern` in the region of `size` bytes at `start`.
    pub open spec fn pattern_matches(self, start: u64, size: u64, pattern: Seq<Option<u8>>) -> Outcome<
        Seq<u64>,
    > {
        if pattern.len() == 0 || size < pattern.len() {
            Ok(seq![])
        } else {
            self.matches_from(start, size, pattern, 0)
        }
    }
}

/// Whether `pattern` matches `data` at `at`.
fn match_pattern(data: &[u8], pattern: &[Option<u8>], at: usize) -> (r: bool)
    requires
        at + pattern@.len() <= data@.len(),
    ensures
        r == matches_at(data@, pattern@, at as int),
{
    let mut j: usize = 0;
    while j < pattern.len()
        invariant
            j <= pattern@.len(),
            at + pattern@.len() <= data.len(),
            forall|k: int|
                0 <= k < j ==> (#[trigger] pattern@[k] is Some ==> data@[at + k] == pattern@[k]->0),
        decreases pattern@.len() - j,
    {
        if let Some(expected) = pattern[j] {
            if data[at + j] != expected {
                return false;
            }
        }
        j = j + 1;
    }
    true
}

/// Append the matches of `pattern` in the bytes at `addr`.
fn push_hits(results: &mut Vec<u64>, addr: u64, data: &[u8], pattern: &[Option<u8>])
    requires
        pattern@.len() > 0,
    ensures
        final(results)@ == old(results)@ + hits(addr, data@, pattern@, data@.len()),
{
    let scan_end: usize = if data.len() >= pattern.len() {
        data.len() - (pattern.len() - 1)
    } else {
        0
    };
    let mut i: usize = 0;
    assert(results@ =~= old(results)@ + hits(addr, data@, pattern@, 0));
    while i < scan_end
        invariant
            i <= scan_end,
            scan_end > 0 ==> scan_end + pattern@.len() == data@.len() + 1,
            pattern@.len() > 0,
            results@ == old(results)@ + hits(addr, data@, pattern@, i as nat),
        decreases scan_end - i,
    {
        if match_pattern(data, pattern, i) {
            results.push(addr.wrapping_add(i as u64));
        }
        assert(results@ =~= old(results)@ + hits(addr, data@, pattern@, (i + 1) as nat));
        i = i + 1;
    }
    proof {
        lemma_no_hits_behind(addr, data@, pattern@, scan_end as nat, data@.len());
    }
}

/// Positions at which the pattern does not fit add nothing.
proof fn lemma_no_hits_behind(
    addr: u64,
    data: Seq<u8>,
    pattern: Seq<Option<u8>>,
    from: nat,
    to: nat,
)
    requires
        from <= to,
        from + pattern.len() > data.len(),
    ensures
        hits(addr, data, pattern, to) == hits(addr, data, pattern, from),
    decreases to - from,
{
    if from < to {
        lemma_no_hits_behind(addr, data, pattern, from, (to - 1) as nat);
    }
}

/// Scan a memory region for a byte pattern with `None` as wildcard.
pub fn scan_pattern(proc: &ProcessHandle, start: u64, size: u64, pattern: &[Option<u8>]) -> (r:
    Outcome<Vec<u64>>)
    ensures
        crate::mem::listed(r) == proc@.pattern_matches(start, size, pattern@),
{
    let mut results: Vec<u64> = Vec::new();
    let pat_len: usize = pattern.len();
    if pat_len == 0 || size < pat_len as u64 {
        return Ok(results);
    }
    let mut offset: u64 = 0;
    let ghost whole = proc@.pattern_matches(start, size, pattern@);
    proof {
        if whole is Ok {
            assert(results@ + whole->Ok_0 =~= whole->Ok_0);
        }
    }
    while offset < size
        invariant
            offset <= size,
            0 < pat_len,
            pat_len == pattern@.len(),
            whole == proc@.pattern_matches(start, size, pattern@),
            whole == (match proc@.matches_from(start, size, pattern@, offset as int) {
                Err(e) => Err(e),
                Ok(rest) => Ok(results@ + rest),
            }),
        decreases size - offset,
    {
        let addr: u64 = start.wrapping_add(offset);
        let left: u64 = size - offset;
        let read_len: usize = if left < CHUNK_SIZE as u64 {
            left as usize
        } else {
            CHUNK_SIZE
        };
        let ghost before = results@;
        // Overlap by pattern length to catch boundary matches
        let step: u64 = if pat_len < CHUNK_SIZE {
            (CHUNK_SIZE - pat_len) as u64
        } else {
            left
        };
        let next: u64 = if left <= step {
            size
        } else {
            offset + step
        };
        let ghost rest = proc@.matches_from(start, size, pattern@, next as int);
        assert(rest == (if pat_len >= CHUNK_SIZE {
            Ok(seq![])
        } else {
            proc@.matches_from(start, size, pattern@, offset + CHUNK_SIZE - pat_len)
        }));
        if let Some(data) = proc.read_bytes(addr, read_len)? {
            push_hits(&mut results, addr, data.as_slice(), pattern);
            proof {
                if rest is Ok {
                    assert(before + (hits(addr, data@, pattern@, data@.len()) + rest->Ok_0)
                        =~= results@ + rest->Ok_0);
                }
            }
        }
        offset = next;
    }
    assert(results@ + Seq::<u64>::empty() =~= results@);
    Ok(results)
}

// ── RIP-relative targets ────────────────────────────────────────────

/// Length of the instructions that are looked for.
pub const INSTR_LEN: u64 = 7;

/// Where the displacement stands in them.
pub const DISP_OFFSET: u64 = 3;

impl Memory {
    /// The address that an instruction of `instr_len` bytes at `addr` refers to
    /// through the displacement at `disp_offset`, if it is a user-space address.
    pub open spec fn rip_target(self, addr: u64, instr_len: u64, disp_offset: u64) -> Outcome<
        Option<u64>,
    > {
        match self.value::<i32>(addr.wrapping_add(disp_offset)) {
            Err(e) => Err(e),
            Ok(None) => Ok(None),
            Ok(Some(disp)) => {
                let target = (addr + instr_len + disp) % 0x1_0000_0000_0000_0000;
                if 0 < target <= MAX_USERSPACE {
                    Ok(Some(target as u64))
                } else {
                    Ok(None)
                }
            },
        }
    }

    /// What the instructions at `matches` refer to, by their number.
    pub open spec fn rip_items(self, matches: Seq<u64>) -> spec_fn(int) -> Outcome<Option<u64>> {
        |i: int| self.rip_target(matches[i], INSTR_LEN, DISP_OFFSET)
    }

    /// What the instructions that match `pattern` refer to.
    pub open spec fn pattern_targets(self, start: u64, size: u64, pattern: Seq<Option<u8>>) -> Outcome<
        Seq<u64>,
    > {
        match self.pattern_matches(start, size, pattern) {
            Err(e) => Err(e),
            Ok(matches) => crate::walk::collect(
                self.rip_items(matches),
                0,
                matches.len() as int,
            ),
        }
    }

    /// What the instructions that match the first `n` of `patterns` refer to, one
    /// pattern after the other.
    pub open spec fn rip_targets(
        self,
        start: u64,
        size: u64,
        patterns: Seq<Seq<Option<u8>>>,
        n: nat,
    ) -> Outcome<Seq<u64>>
        decreases n,
    {
        if n == 0 {
            Ok(seq![])
        } else {
            match self.rip_targets(start, size, patterns, (n - 1) as nat) {
                Err(e) => Err(e),
                Ok(before) => match self.pattern_targets(start, size, patterns[n - 1]) {
                    Err(e) => Err(e),
                    Ok(more) => Ok(before + more),
                },
            }
        }
    }
}

/// Resolve a RIP-relative address.
pub fn resolve_rip_relative(
    proc: &ProcessHandle,
    match_addr: u64,
    instr_len: u64,
    disp_offset: u64,
) -> (r: Outcome<Option<u64>>)
    ensures
        r == proc@.rip_target(match_addr, instr_len, disp_offset),
{
    let disp: i32 = match proc.read::<i32>(match_addr.wrapping_add(disp_offset))? {
        Some(v) => v,
        None => {
            return Ok(None);
        },
    };
    let sum: i128 = match_addr as i128 + instr_len as i128 + disp as i128;
    let target: i128 = (sum + 0x1_0000_0000_0000_0000) % 0x1_0000_0000_0000_0000;
    if target <= 0 || target > MAX_USERSPACE as i128 {
        return Ok(None);
    }
    Ok(Some(target as u64))
}

/// The patterns that a scan looks for.
pub open spec fn pattern_seqs(patterns: Seq<Vec<Option<u8>>>) -> Seq<Seq<Option<u8>>> {
    patterns.map_values(|p: Vec<Option<u8>>| p@)
}

/// The targets collected so far, pattern by pattern.
pub struct TargetList {
    done: usize,
    targets: Vec<u64>,
}

impl TargetList {
    /// How many patterns have been looked for.
    pub closed spec fn patterns_done(self) -> nat {
        self.done as nat
    }

    /// The targets found so far.
    pub closed spec fn items(self) -> Seq<u64> {
        self.targets@
    }

    /// The list holds the targets of the patterns that have been looked for.
    pub open spec fn sound(
        self,
        m: Memory,
        start: u64,
        size: u64,
        patterns: Seq<Seq<Option<u8>>>,
    ) -> bool {
        &&& self.patterns_done() <= patterns.len()
        &&& m.rip_targets(start, size, patterns, self.patterns_done()) == Ok::<
            Seq<u64>,
            crate::mem::Missing,
        >(self.items())
    }

    pub fn new() -> (list: Self)
        ensures
            list.patterns_done() == 0,
            list.items() == Seq::<u64>::empty(),
    {
        TargetList { done: 0, targets: Vec::new() }
    }

    pub fn len(&self) -> (n: usize)
        ensures
            n == self.items().len(),
    {
        self.targets.len()
    }

    pub fn get(&self, i: usize) -> (target: u64)
        requires
            i < self.items().len(),
        ensures
            target == self.items()[i as int],
    {
        self.targets[i]
    }
}

/// Collect all RIP-relative targets of one pattern.
fn collect_pattern_targets(proc: &ProcessHandle, start: u64, size: u64, pattern: &[Option<u8>]) -> (r:
    Outcome<Vec<u64>>)
    ensures
        crate::mem::listed(r) == proc@.pattern_targets(start, size, pattern@),
{
    let matches = scan_pattern(proc, start, size, pattern)?;
    let ghost step = proc@.rip_items(matches@);
    let mut targets: Vec<u64> = Vec::new();
    assert(targets@ =~= seq![]);
    let mut i: usize = 0;
    while i < matches.len()
        invariant
            i <= matches@.len(),
            step == proc@.rip_items(matches@),
            proc@.pattern_targets(start, size, pattern@) == crate::walk::collect(
                step,
                0,
                matches@.len() as int,
            ),
            crate::walk::collect(step, 0, i as int) == Ok::<Seq<u64>, crate::mem::Missing>(
                targets@,
            ),
        decreases matches@.len() - i,
    {
        proof {
            crate::walk::lemma_collect_next(step, 0, i as int);
        }
        let found: Option<u64> = match resolve_rip_relative(
            proc,
            matches[i],
            INSTR_LEN,
            DISP_OFFSET,
        ) {
            Ok(found) => found,
            Err(e) => {
                proof {
                    crate::walk::lemma_collect_stop(step, 0, i as int, matches@.len() as int);
                }
                return Err(e);
            },
        };
        let ghost before = targets@;
        if let Some(target) = found {
            targets.push(target);
        }
        assert(targets@ =~= before + crate::walk::optional(found));
        i = i + 1;
    }
    Ok(targets)
}

/// Collect all RIP-relative targets from LEA/MOV patterns.
pub fn collect_rip_targets(
    proc: &ProcessHandle,
    text_start: u64,
    text_size: u64,
    patterns: &Vec<Vec<Option<u8>>>,
    list: &mut TargetList,
) -> (r: Outcome<()>)
    requires
        old(list).sound(proc@, text_start, text_size, pattern_seqs(patterns@)),
    ensures
        proc@.rip_targets(
            text_start,
            text_size,
            pattern_seqs(patterns@),
            patterns@.len(),
        ) == (match r {
            Ok(_) => Ok(final(list).items()),
            Err(e) => Err(e),
        }),
        r is Ok ==> final(list).patterns_done() == patterns@.len(),
        final(list).sound(proc@, text_start, text_size, pattern_seqs(patterns@)),
        old(list).patterns_done() == patterns@.len() ==> *final(list) == *old(list),
{
    let ghost all = pattern_seqs(patterns@);
    while list.done < patterns.len()
        invariant
            all == pattern_seqs(patterns@),
            list.sound(proc@, text_start, text_size, all),
            old(list).patterns_done() == patterns@.len() ==> *list == *old(list),
        decreases patterns@.len() - list.done,
    {
        let ghost k = list.done as nat;
        assert(all[k as int] == patterns@[k as int]@);
        match collect_pattern_targets(proc, text_start, text_size, patterns[list.done].as_slice()) {
            Ok(mut more) => {
                list.targets.append(&mut more);
                list.done = list.done + 1;
            },
            Err(e) => {
                proof {
                    lemma_targets_stop(proc@, text_start, text_size, all, k, all.len());
                }
                return Err(e);
            },
        }
    }
    Ok(())
}

/// The read that a pattern asks for is the one that all of them ask for.
proof fn lemma_targets_stop(
    m: Memory,
    start: u64,
    size: u64,
    patterns: Seq<Seq<Option<u8>>>,
    at: nat,
    n: nat,
)
    requires
        at < n,
        m.rip_targets(start, size, patterns, at) is Ok,
        m.pattern_targets(start, size, patterns[at as int]) is Err,
    ensures
        m.rip_targets(start, size, patterns, n) == Err::<Seq<u64>, crate::mem::Missing>(
            m.pattern_targets(start, size, patterns[at as int])->Err_0,
        ),
    decreases n,
{
    if at + 1 < n {
        lemma_targets_stop(m, start, size, patterns, at, (n - 1) as nat);
    }
}

// ── Laws ────────────────────────────────────────────────────────────

/// Every hit is a match.
proof fn lemma_hits_match(addr: u64, data: Seq<u8>, pattern: Seq<Option<u8>>, n: nat, at: int) -> (i:
    int)
    requires
        0 <= at < hits(addr, data, pattern, n).len(),
    ensures
        0 <= i < n,
        matches_at(data, pattern, i),
        hits(addr, data, pattern, n)[at] == addr.wrapping_add(i as u64),
    decreases n,
{
    let before = hits(addr, data, pattern, (n - 1) as nat);
    if matches_at(data, pattern, n - 1) && at == before.len() {
        n - 1
    } else {
        lemma_hits_match(addr, data, pattern, (n - 1) as nat, at)
    }
}

/// Every match is a hit.
pub proof fn lemma_match_is_hit(addr: u64, data: Seq<u8>, pattern: Seq<Option<u8>>, n: nat, i: int)
    requires
        0 <= i < n,
        matches_at(data, pattern, i),
    ensures
        hits(addr, data, pattern, n).contains(addr.wrapping_add(i as u64)),
    decreases n,
{
    let before = hits(addr, data, pattern, (n - 1) as nat);
    let all = hits(addr, data, pattern, n);
    if i == n - 1 {
        assert(all[before.len() as int] == addr.wrapping_add(i as u64));
    } else {
        lemma_match_is_hit(addr, data, pattern, (n - 1) as nat, i);
        let k = before.index_of(addr.wrapping_add(i as u64));
        assert(all[k] == before[k]);
    }
}

/// Part of what can be read can be read.
pub proof fn lemma_fetch_part(m: Memory, addr: u64, len: usize, off: int, part: usize)
    requires
        0 <= off,
        off + part <= len,
        m.fetch(addr, len) matches Ok(Some(_)),
        addr + len <= u64::MAX + 1,
        addr + off <= u64::MAX,
    ensures
        m.fetch((addr + off) as u64, part) == Ok::<Option<Seq<u8>>, crate::mem::Missing>(
            Some(m.fetch(addr, len)->Ok_0->0.subrange(off, off + part)),
        ),
{
    let whole = m.fetch(addr, len)->Ok_0->0;
    let start = (addr + off) as u64;
    assert(m.known(start as int, part as int)) by {
        assert forall|a: int| start <= a < start + part implies m.pages.contains_key(
            #[trigger] crate::mem::page_of(a),
        ) by {
            assert(addr <= a < addr + len);
        }
    }
    assert forall|a: int| start <= a < start + part implies (#[trigger] m.byte_at(a)) is Some by {
        assert(addr <= a < addr + len);
    }
    assert(Seq::new(part as nat, |i: int| m.byte_at(start + i)->0) =~= whole.subrange(
        off,
        off + part,
    ));
}

proof fn lemma_matches_are_sound(
    m: Memory,
    start: u64,
    size: u64,
    pattern: Seq<Option<u8>>,
    offset: int,
    at: int,
)
    requires
        0 < pattern.len(),
        0 <= offset,
        start + size <= u64::MAX + 1,
        m.matches_from(start, size, pattern, offset) is Ok,
        0 <= at < m.matches_from(start, size, pattern, offset)->Ok_0.len(),
    ensures
        ({
            let a = m.matches_from(start, size, pattern, offset)->Ok_0[at];
            &&& start + offset <= a
            &&& a + pattern.len() <= start + size
            &&& m.fetch(a, pattern.len() as usize) matches Ok(Some(bytes)) && matches_at(
                bytes,
                pattern,
                0,
            )
        }),
    decreases size - offset + CHUNK_SIZE,
{
    let addr = start.wrapping_add(offset as u64);
    let len = chunk_len(size, offset);
    let next = offset + CHUNK_SIZE - pattern.len();
    let found = m.matches_from(start, size, pattern, offset)->Ok_0;
    match m.fetch(addr, len as usize) {
        Ok(Some(data)) => {
            let here = hits(addr, data, pattern, data.len());
            if at < here.len() {
                let i = lemma_hits_match(addr, data, pattern, data.len(), at);
                assert(found[at] == here[at]);
                assert(data.len() == len);
                assert(found[at] == addr + i);
                lemma_fetch_part(m, addr, len as usize, i, pattern.len() as usize);
                let bytes = data.subrange(i, i + pattern.len());
                assert forall|j: int|
                    0 <= j < pattern.len() && (#[trigger] pattern[j]) is Some implies bytes[0 + j]
                    == pattern[j]->0 by {
                    assert(bytes[j] == data[i + j]);
                }
                assert(matches_at(bytes, pattern, 0));
            } else {
                assert(found[at] == m.matches_from(start, size, pattern, next)->Ok_0[at
                    - here.len()]);
                lemma_matches_are_sound(m, start, size, pattern, next, at - here.len());
            }
        },
        _ => {
            lemma_matches_are_sound(m, start, size, pattern, next, at);
        },
    }
}

/// Every address that a scan reports holds the pattern, inside the region.
pub proof fn lemma_scan_is_sound(m: Memory, start: u64, size: u64, pattern: Seq<Option<u8>>, at: int)
    requires
        start + size <= u64::MAX + 1,
        m.pattern_matches(start, size, pattern) is Ok,
        0 <= at < m.pattern_matches(start, size, pattern)->Ok_0.len(),
    ensures
        ({
            let a = m.pattern_matches(start, size, pattern)->Ok_0[at];
            &&& start <= a
            &&& a + pattern.len() <= start + size
            &&& m.fetch(a, pattern.len() as usize) matches Ok(Some(bytes)) && matches_at(
                bytes,
                pattern,
                0,
            )
        }),
{
    lemma_matches_are_sound(m, start, size, pattern, 0, at);
}

proof fn lemma_matches_are_complete(
    m: Memory,
    start: u64,
    size: u64,
    pattern: Seq<Option<u8>>,
    offset: int,
    at: int,
)
    requires
        0 < pattern.len() < CHUNK_SIZE,
        0 <= offset <= at,
        start + size <= u64::MAX + 1,
        size <= usize::MAX,
        m.fetch(start, size as usize) matches Ok(Some(all)) && matches_at(all, pattern, at),
    ensures
        m.matches_from(start, size, pattern, offset) matches Ok(found) && found.contains(
            (start + at) as u64,
        ),
    decreases size - offset + CHUNK_SIZE,
{
    let all = m.fetch(start, size as usize)->Ok_0->0;
    let addr = start.wrapping_add(offset as u64);
    let len = chunk_len(size, offset);
    let next = offset + CHUNK_SIZE - pattern.len();
    assert(all.len() == size);
    assert(addr == start + offset);
    lemma_fetch_part(m, start, size as usize, offset, len as usize);
    let data = all.subrange(offset, offset + len);
    assert(m.fetch(addr, len as usize) == Ok::<Option<Seq<u8>>, crate::mem::Missing>(Some(data)));
    let here = hits(addr, data, pattern, data.len());
    if next <= at {
        lemma_matches_are_complete(m, start, size, pattern, next, at);
        let rest = m.matches_from(start, size, pattern, next)->Ok_0;
        let k = rest.index_of((start + at) as u64);
        assert((here + rest)[here.len() + k] == rest[k]);
    } else {
        let i = at - offset;
        assert(i + pattern.len() <= data.len());
        assert forall|j: int|
            0 <= j < pattern.len() && (#[trigger] pattern[j]) is Some implies data[i + j]
            == pattern[j]->0 by {
            assert(data[i + j] == all[at + j]);
        }
        lemma_match_is_hit(addr, data, pattern, data.len(), i);
        lemma_readable_is_answered(m, start, size, pattern, next);
        let rest = m.matches_from(start, size, pattern, next)->Ok_0;
        let k = here.index_of((start + at) as u64);
        assert((here + rest)[k] == here[k]);
    }
}

/// A region that can be read is scanned to its end.
pub proof fn lemma_readable_is_answered(
    m: Memory,
    start: u64,
    size: u64,
    pattern: Seq<Option<u8>>,
    offset: int,
)
    requires
        0 < pattern.len() < CHUNK_SIZE,
        0 <= offset,
        start + size <= u64::MAX + 1,
        size <= usize::MAX,
        m.fetch(start, size as usize) matches Ok(Some(_)),
    ensures
        m.matches_from(start, size, pattern, offset) is Ok,
    decreases size - offset + CHUNK_SIZE,
{
    if offset < size {
        let len = chunk_len(size, offset);
        assert(start.wrapping_add(offset as u64) == start + offset);
        lemma_fetch_part(m, start, size as usize, offset, len as usize);
        lemma_readable_is_answered(m, start, size, pattern, offset + CHUNK_SIZE - pattern.len());
    }
}

/// A scan of a region that can be read reports every place at which a pattern shorter
/// than a chunk matches, also where it reaches from one chunk into the next.
pub proof fn lemma_scan_is_complete(
    m: Memory,
    start: u64,
    size: u64,
    pattern: Seq<Option<u8>>,
    at: int,
)
    requires
        0 < pattern.len() < CHUNK_SIZE,
        start + size <= u64::MAX + 1,
        size <= usize::MAX,
        m.fetch(start, size as usize) matches Ok(Some(all)) && matches_at(all, pattern, at),
    ensures
        m.pattern_matches(start, size, pattern) matches Ok(found) && found.contains(
            (start + at) as u64,
        ),
{
    lemma_matches_are_complete(m, start, size, pattern, 0, at);
}

/// Addresses in ascending order; one may be there twice.
pub open spec fn ascending(addrs: Seq<u64>) -> bool {
    forall|i: int, j: int| 0 <= i < j < addrs.len() ==> addrs[i] <= addrs[j]
}

proof fn lemma_hits_ascend(addr: u64, data: Seq<u8>, pattern: Seq<Option<u8>>, n: nat)
    requires
        addr + n <= u64::MAX + 1,
    ensures
        forall|i: int, j: int|
            0 <= i < j < hits(addr, data, pattern, n).len() ==> hits(addr, data, pattern, n)[i]
                < hits(addr, data, pattern, n)[j],
        forall|i: int|
            0 <= i < hits(addr, data, pattern, n).len() ==> addr <= #[trigger] hits(
                addr,
                data,
                pattern,
                n,
            )[i] < addr + n,
    decreases n,
{
    if n > 0 {
        lemma_hits_ascend(addr, data, pattern, (n - 1) as nat);
        let before = hits(addr, data, pattern, (n - 1) as nat);
        let all = hits(addr, data, pattern, n);
        assert(addr.wrapping_add((n - 1) as u64) == addr + (n - 1));
        assert forall|i: int| 0 <= i < before.len() implies all[i] == #[trigger] before[i] by {}
        assert forall|i: int| 0 <= i < all.len() implies addr <= #[trigger] all[i] < addr + n by {
            if i < before.len() {
                assert(all[i] == before[i]);
            }
        }
        assert forall|i: int, j: int| 0 <= i < j < all.len() implies all[i] < all[j] by {
            assert(all[i] == before[i]);
            if j < before.len() {
                assert(all[j] == before[j]);
            }
        }
    }
}

proof fn lemma_matches_ascend(
    m: Memory,
    start: u64,
    size: u64,
    pattern: Seq<Option<u8>>,
    offset: int,
)
    requires
        0 < pattern.len(),
        0 <= offset,
        start + size <= u64::MAX + 1,
    ensures
        m.matches_from(start, size, pattern, offset) matches Ok(found) ==> ascending(found),
    decreases size - offset + CHUNK_SIZE,
{
    if offset < size && m.matches_from(start, size, pattern, offset) is Ok {
        let addr = start.wrapping_add(offset as u64);
        let len = chunk_len(size, offset);
        let next = offset + CHUNK_SIZE - pattern.len();
        let found = m.matches_from(start, size, pattern, offset)->Ok_0;
        match m.fetch(addr, len as usize) {
            Ok(Some(data)) => {
                let here = hits(addr, data, pattern, data.len());
                lemma_hits_ascend(addr, data, pattern, data.len());
                if pattern.len() < CHUNK_SIZE {
                    lemma_matches_ascend(m, start, size, pattern, next);
                    let rest = m.matches_from(start, size, pattern, next)->Ok_0;
                    assert forall|i: int, j: int| 0 <= i < j < found.len() implies found[i]
                        <= found[j] by {
                        if i < here.len() && j >= here.len() {
                            let k = lemma_hits_match(addr, data, pattern, data.len(), i);
                            lemma_matches_are_sound(m, start, size, pattern, next, j - here.len());
                            assert(found[j] == rest[j - here.len()]);
                            assert(found[i] == addr + k);
                        } else if i >= here.len() {
                            assert(found[i] == rest[i - here.len()]);
                            assert(found[j] == rest[j - here.len()]);
                        }
                    }
                } else {
                    assert(found =~= here);
                }
            },
            _ => {
                if pattern.len() < CHUNK_SIZE {
                    lemma_matches_ascend(m, start, size, pattern, next);
                }
            },
        }
    }
}

/// A scan reports addresses in ascending order. Where the region is smaller than a
/// chunk, none is reported twice.
pub proof fn lemma_scan_ascends(m: Memory, start: u64, size: u64, pattern: Seq<Option<u8>>)
    requires
        start + size <= u64::MAX + 1,
    ensures
        m.pattern_matches(start, size, pattern) matches Ok(found) ==> {
            &&& ascending(found)
            &&& size < CHUNK_SIZE ==> forall|i: int, j: int|
                0 <= i < j < found.len() ==> found[i] < found[j]
        },
{
    if pattern.len() > 0 && size >= pattern.len() {
        lemma_matches_ascend(m, start, size, pattern, 0);
        if size < CHUNK_SIZE {
            lemma_one_chunk(m, start, size, pattern);
        }
    }
}

/// A region that is smaller than a chunk is read at once. What the overlap reads again
/// is too short to hold the pattern.
proof fn lemma_one_chunk(m: Memory, start: u64, size: u64, pattern: Seq<Option<u8>>)
    requires
        0 < pattern.len() <= size < CHUNK_SIZE,
        start + size <= u64::MAX + 1,
    ensures
        m.matches_from(start, size, pattern, 0) matches Ok(found) ==> forall|i: int, j: int|
            0 <= i < j < found.len() ==> found[i] < found[j],
{
    if m.matches_from(start, size, pattern, 0) is Ok {
        let found = m.matches_from(start, size, pattern, 0)->Ok_0;
        let next = CHUNK_SIZE - pattern.len();
        let rest = m.matches_from(start, size, pattern, next)->Ok_0;
        assert(start.wrapping_add(0) == start);
        assert(rest =~= seq![]) by {
            if rest.len() > 0 {
                lemma_matches_are_sound(m, start, size, pattern, next, 0);
            }
        }
        match m.fetch(start, size as usize) {
            Ok(Some(data)) => {
                lemma_hits_ascend(start, data, pattern, data.len());
                assert(found =~= hits(start, data, pattern, data.len()));
            },
            _ => {
                assert(found =~= rest);
            },
        }
    }
}

proof fn lemma_matches_settled(
    m: Memory,
    m2: Memory,
    start: u64,
    size: u64,
    pattern: Seq<Option<u8>>,
    offset: int,
)
    requires
        m.grows_to(m2),
    ensures
        m.settles(
            m.matches_from(start, size, pattern, offset),
            m2.matches_from(start, size, pattern, offset),
        ),
    decreases size - offset + CHUNK_SIZE,
{
    broadcast use crate::mem::lemma_fetch_settled;

    if offset < size && pattern.len() < CHUNK_SIZE {
        lemma_matches_settled(
            m,
            m2,
            start,
            size,
            pattern,
            offset + CHUNK_SIZE - pattern.len(),
        );
    }
}

/// Fetching more pages never changes where a pattern matches.
pub proof fn lemma_pattern_matches_settled(
    m: Memory,
    m2: Memory,
    start: u64,
    size: u64,
    pattern: Seq<Option<u8>>,
)
    requires
        m.grows_to(m2),
    ensures
        m.settles(
            m.pattern_matches(start, size, pattern),
            m2.pattern_matches(start, size, pattern),
        ),
{
    lemma_matches_settled(m, m2, start, size, pattern, 0);
}

/// Fetching more pages never changes what an instruction refers to.
pub proof fn lemma_rip_target_settled(
    m: Memory,
    m2: Memory,
    addr: u64,
    instr_len: u64,
    disp_offset: u64,
)
    requires
        m.grows_to(m2),
    ensures
        m.settles(
            m.rip_target(addr, instr_len, disp_offset),
            m2.rip_target(addr, instr_len, disp_offset),
        ),
{
    broadcast use crate::mem::lemma_value_settled;

}

proof fn lemma_pattern_targets_settled(
    m: Memory,
    m2: Memory,
    start: u64,
    size: u64,
    pattern: Seq<Option<u8>>,
)
    requires
        m.grows_to(m2),
    ensures
        m.settles(
            m.pattern_targets(start, size, pattern),
            m2.pattern_targets(start, size, pattern),
        ),
{
    broadcast use crate::mem::lemma_value_settled;

    lemma_matches_settled(m, m2, start, size, pattern, 0);
    match m.pattern_matches(start, size, pattern) {
        Ok(matches) => {
            let step = m.rip_items(matches);
            let later = m2.rip_items(matches);
            assert forall|i: int| 0 <= i < matches.len() implies m.settles(
                #[trigger] step(i),
                later(i),
            ) by {
                assert(m.settles(
                    m.rip_target(matches[i], INSTR_LEN, DISP_OFFSET),
                    m2.rip_target(matches[i], INSTR_LEN, DISP_OFFSET),
                ));
            }
            crate::walk::lemma_collect_settled(m, step, later, 0, matches.len() as int);
        },
        Err(_) => {},
    }
}

/// Fetching more pages never changes what the code refers to.
pub proof fn lemma_rip_targets_settled(
    m: Memory,
    m2: Memory,
    start: u64,
    size: u64,
    patterns: Seq<Seq<Option<u8>>>,
    n: nat,
)
    requires
        m.grows_to(m2),
    ensures
        m.settles(
            m.rip_targets(start, size, patterns, n),
            m2.rip_targets(start, size, patterns, n),
        ),
    decreases n,
{
    if n > 0 {
        lemma_rip_targets_settled(m, m2, start, size, patterns, (n - 1) as nat);
        lemma_pattern_targets_settled(m, m2, start, size, patterns[n - 1]);
    }
}

/// A list of targets can be added to after more pages have been fetched.
pub proof fn lemma_target_list_keeps(
    list: TargetList,
    m: Memory,
    m2: Memory,
    start: u64,
    size: u64,
    patterns: Seq<Seq<Option<u8>>>,
)
    requires
        list.sound(m, start, size, patterns),
        m.grows_to(m2),
    ensures
        list.sound(m2, start, size, patterns),
{
    lemma_rip_targets_settled(m, m2, start, size, patterns, list.patterns_done());
}

/// What an instruction refers to is among the targets, if one of the patterns matches
/// the instruction.
pub proof fn lemma_match_is_target(
    m: Memory,
    start: u64,
    size: u64,
    patterns: Seq<Seq<Option<u8>>>,
    n: nat,
    k: int,
    at: int,
    target: u64,
)
    requires
        0 <= k < n <= patterns.len(),
        0 < patterns[k].len() < CHUNK_SIZE,
        start + size <= u64::MAX + 1,
        size <= usize::MAX,
        m.fetch(start, size as usize) matches Ok(Some(all)) && matches_at(all, patterns[k], at),
        m.rip_target((start + at) as u64, INSTR_LEN, DISP_OFFSET) == Ok::<
            Option<u64>,
            crate::mem::Missing,
        >(Some(target)),
        m.rip_targets(start, size, patterns, n) is Ok,
    ensures
        m.rip_targets(start, size, patterns, n)->Ok_0.contains(target),
    decreases n,
{
    let before = m.rip_targets(start, size, patterns, (n - 1) as nat)->Ok_0;
    let more = m.pattern_targets(start, size, patterns[n - 1])->Ok_0;
    if k == n - 1 {
        lemma_scan_is_complete(m, start, size, patterns[k], at);
        let matches = m.pattern_matches(start, size, patterns[k])->Ok_0;
        let i = matches.index_of((start + at) as u64);
        crate::walk::lemma_collect_has_each(m.rip_items(matches), 0, matches.len() as int, i);
        let j = more.index_of(target);
        assert((before + more)[before.len() + j] == target);
    } else {
        lemma_match_is_target(m, start, size, patterns, (n - 1) as nat, k, at, target);
        let j = before.index_of(target);
        assert((before + more)[j] == target);
    }
}

/// Every target is a user-space address.
pub proof fn lemma_targets_in_user_space(
    m: Memory,
    start: u64,
    size: u64,
    patterns: Seq<Seq<Option<u8>>>,
    n: nat,
)
    ensures
        m.rip_targets(start, size, patterns, n) matches Ok(targets) ==> forall|i: int|
            0 <= i < targets.len() ==> 0 < #[trigger] targets[i] <= MAX_USERSPACE,
    decreases n,
{
    if n > 0 {
        lemma_targets_in_user_space(m, start, size, patterns, (n - 1) as nat);
        match m.rip_targets(start, size, patterns, n) {
            Ok(targets) => {
                let before = m.rip_targets(start, size, patterns, (n - 1) as nat)->Ok_0;
                let matches = m.pattern_matches(start, size, patterns[n - 1])->Ok_0;
                assert forall|i: int| 0 <= i < targets.len() implies 0 < #[trigger] targets[i]
                    <= MAX_USERSPACE by {
                    if i >= before.len() {
                        let k = crate::walk::lemma_collect_from_steps(
                            m.rip_items(matches),
                            0,
                            matches.len() as int,
                            i - before.len(),
                        );
                    } else {
                        assert(targets[i] == before[i]);
                    }
                }
            },
            Err(_) => {},
        }
    }
}

} // verus!
