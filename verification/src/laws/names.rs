//! Names: where the pool has its blocks, and what an entry says.

use crate::mem::{Memory, Missing};
use crate::ue::fname::{Candidate, NameFormat, Names, Remote, Route};
use vstd::prelude::*;

verus! {

// ── Blocks ──────────────────────────────────────────────────────────

/// `list` is the part of the array of pointers at `base` that a pool reads: each entry
/// stands in its place, and between the entries from the third on there are no two nulls
/// in a row, but perhaps at the very end.
pub open spec fn reads_blocks(m: Memory, base: u64, list: Seq<u64>) -> bool {
    &&& list.len() <= 8192
    &&& forall|i: int|
        0 <= i < list.len() ==> m.holds::<u64>(
            base.wrapping_add((8 * i) as u64),
            #[trigger] list[i],
        )
    &&& forall|i: int|
        3 <= i < list.len() - 1 ==> !(#[trigger] list[i] == 0 && list[i - 1] == 0)
}

proof fn lemma_blocks_from(m: Memory, base: u64, read: Seq<u64>)
    requires
        reads_blocks(m, base, read),
        read.len() >= 4 ==> !(read[read.len() - 1] == 0 && read[read.len() - 2] == 0),
    ensures
        m.block_ptrs_from(base, read) matches Ok(list) ==> {
            &&& reads_blocks(m, base, list)
            &&& read.len() <= list.len()
            &&& list.take(read.len() as int) == read
            &&& {
                ||| list.len() == 8192
                ||| m.value::<u64>(base.wrapping_add((8 * list.len()) as u64)) == Ok::<
                    Option<u64>,
                    Missing,
                >(None)
                ||| list.len() >= 4 && list[list.len() - 1] == 0 && list[list.len() - 2] == 0
            }
        },
    decreases 8192 - read.len(),
{
    if read.len() >= 8192 {
        assert(read.take(read.len() as int) =~= read);
    } else {
        match m.value::<u64>(base.wrapping_add((8 * read.len()) as u64)) {
            Ok(Some(v)) => {
                let more = read.push(v);
                assert(more.take(read.len() as int) =~= read);
                assert(reads_blocks(m, base, more)) by {
                    assert forall|i: int| 0 <= i < more.len() implies m.holds::<u64>(
                        base.wrapping_add((8 * i) as u64),
                        #[trigger] more[i],
                    ) by {
                        if i < read.len() {
                            assert(more[i] == read[i]);
                        }
                    }
                    assert forall|i: int| 3 <= i < more.len() - 1 implies !(#[trigger] more[i] == 0
                        && more[i - 1] == 0) by {
                        assert(more[i] == read[i] && more[i - 1] == read[i - 1]);
                    }
                }
                if read.len() > 2 && v == 0 && read[read.len() - 1] == 0 {
                    assert(m.block_ptrs_from(base, read) == Ok::<Seq<u64>, Missing>(more));
                } else {
                    lemma_blocks_from(m, base, more);
                    if let Ok(list) = m.block_ptrs_from(base, more) {
                        assert(list.take(read.len() as int) =~= list.take(
                            more.len() as int,
                        ).take(read.len() as int));
                    }
                }
            },
            Ok(None) => {
                assert(read.take(read.len() as int) =~= read);
            },
            Err(_) => {},
        }
    }
}

/// The block list of a pool is the array of pointers 0x10 behind its allocator, from the
/// first pointer on. It ends behind 8192 of them, in front of one that cannot be read, or
/// behind two nulls in a row past the first three, and nowhere else.
pub proof fn lemma_block_list_is_the_array(
    m: Memory,
    gnames: u64,
    found: Candidate,
    format: NameFormat,
    list: Seq<u64>,
)
    requires
        m.pool(gnames) == Ok::<Option<(Candidate, NameFormat, Seq<u64>)>, Missing>(
            Some((found, format, list)),
        ),
    ensures
        reads_blocks(m, found.base.wrapping_add(0x10), list),
        ({
            ||| list.len() == 8192
            ||| m.value::<u64>(
                found.base.wrapping_add(0x10).wrapping_add((8 * list.len()) as u64),
            ) == Ok::<Option<u64>, Missing>(None)
            ||| list.len() >= 4 && list[list.len() - 1] == 0 && list[list.len() - 2] == 0
        }),
{
    lemma_blocks_from(m, found.base.wrapping_add(0x10), seq![]);
}

/// Every block is reached: where the pointers 0 to `k` of the array can all be read and
/// none of them is null, the list is longer than `k`, and its entry `k` is the pointer
/// in place `k`.
pub proof fn lemma_every_block_is_reached(
    m: Memory,
    gnames: u64,
    found: Candidate,
    format: NameFormat,
    list: Seq<u64>,
    ptrs: Seq<u64>,
    k: int,
)
    requires
        m.pool(gnames) == Ok::<Option<(Candidate, NameFormat, Seq<u64>)>, Missing>(
            Some((found, format, list)),
        ),
        0 <= k < ptrs.len() <= 8192,
        forall|i: int|
            0 <= i <= k ==> #[trigger] ptrs[i] != 0 && m.holds::<u64>(
                found.base.wrapping_add(0x10).wrapping_add((8 * i) as u64),
                ptrs[i],
            ),
    ensures
        list.len() > k,
        list[k] == ptrs[k],
{
    lemma_block_list_is_the_array(m, gnames, found, format, list);
    let base = found.base.wrapping_add(0x10);
    if list.len() <= k {
        let n = list.len() as int;
        assert(ptrs[n] != 0 && m.holds::<u64>(base.wrapping_add((8 * n) as u64), ptrs[n]));
        assert(list[n - 1] == 0 && list[n - 2] == 0);
        assert(ptrs[n - 1] != 0 && m.holds::<u64>(
            base.wrapping_add((8 * (n - 1)) as u64),
            ptrs[n - 1],
        ));
        assert(m.holds::<u64>(base.wrapping_add((8 * (n - 1)) as u64), list[n - 1]));
    } else {
        assert(m.holds::<u64>(base.wrapping_add((8 * k) as u64), list[k]));
        assert(m.holds::<u64>(base.wrapping_add((8 * k) as u64), ptrs[k]));
    }
}

// ── Where the pool is ───────────────────────────────────────────────

/// The first name block of the allocator at `base` starts with `data`.
pub open spec fn block_starts(m: Memory, base: u64, block0: u64, data: Seq<u8>) -> bool {
    &&& m.holds::<u64>(base.wrapping_add(0x10), block0)
    &&& block0 > 0x1_0000
    &&& data.len() == 256
    &&& m.shows(block0, data)
}

/// `data` starts with the name "None" in the shipping format: a length of four in the
/// upper ten bits of the first two bytes, then its letters.
pub open spec fn shipping_none(data: Seq<u8>) -> bool {
    &&& (data[0] + 0x100 * data[1]) / 64 == 4
    &&& data[2] == 0x4E && data[3] == 0x6F && data[4] == 0x6E && data[5] == 0x65
}

/// `data` starts with the name "None" in the case-preserving format: behind four bytes, a
/// length of four above the lowest bit, then its letters.
pub open spec fn case_preserving_none(data: Seq<u8>) -> bool {
    &&& (data[4] + 0x100 * data[5]) / 2 == 4
    &&& data[6] == 0x4E && data[7] == 0x6F && data[8] == 0x6E && data[9] == 0x65
}

/// An entry at `off` of a block reads "None" if its header, less its lowest bits, is four and
/// its letters are these; and not where the block ends before them.
pub proof fn lemma_reading_none(data: Seq<u8>, off: int, shift: u32)
    requires
        0 <= off,
    ensures
        crate::ue::fname::reads_none(data, off, shift) <==> {
            &&& off + 6 <= data.len()
            &&& ((data[off] + 0x100 * data[off + 1]) as u16) >> shift == 4
            &&& data[off + 2] == 0x4E
            &&& data[off + 3] == 0x6F
            &&& data[off + 4] == 0x6E
            &&& data[off + 5] == 0x65
        },
{
    if off + 6 <= data.len() {
        let part = data.subrange(off + 2, off + 6);
        assert(part[0] == data[off + 2] && part[1] == data[off + 3] && part[2] == data[off + 4]
            && part[3] == data[off + 5]);
        if part[0] == 0x4E && part[1] == 0x6F && part[2] == 0x6E && part[3] == 0x65 {
            assert(part =~= crate::ue::fname::none_bytes());
        }
    }
}

/// The bytes that are looked for at the start of a pool are these.
pub proof fn lemma_none_spelled_out(data: Seq<u8>)
    requires
        data.len() >= 10,
    ensures
        crate::ue::fname::reads_none(data, 0, 6) == shipping_none(data),
        crate::ue::fname::reads_none(data, 4, 1) == case_preserving_none(data),
{
    let low = crate::ue::fname::u16_at(data, 0);
    let high = crate::ue::fname::u16_at(data, 4);
    assert(low >> 6 == low / 64) by (bit_vector);
    assert(high >> 1 == high / 2) by (bit_vector);
    let none = crate::ue::fname::none_bytes();
    let first = data.subrange(2, 6);
    assert(first[0] == data[2] && first[1] == data[3] && first[2] == data[4] && first[3] == data[5]);
    if shipping_none(data) {
        assert(first =~= none);
    }
    let second = data.subrange(6, 10);
    assert(second[0] == data[6] && second[1] == data[7] && second[2] == data[8] && second[3]
        == data[9]);
    if case_preserving_none(data) {
        assert(second =~= none);
    }
}

proof fn lemma_allocator_found(m: Memory, candidates: Seq<Candidate>, i: int) -> (k: int)
    requires
        0 <= i,
        m.allocator_from(candidates, i) matches Ok(Some(_)),
    ensures
        i <= k < candidates.len(),
        m.allocator_from(candidates, i) matches Ok(Some((found, format))) && found
            == candidates[k] && m.allocator_format(found.base) == Ok::<Option<NameFormat>, Missing>(
            Some(format),
        ),
        forall|j: int|
            i <= j < k ==> m.allocator_format((#[trigger] candidates[j]).base) == Ok::<
                Option<NameFormat>,
                Missing,
            >(None),
    decreases candidates.len() - i,
{
    match m.allocator_format(candidates[i].base) {
        Ok(None) => lemma_allocator_found(m, candidates, i + 1),
        _ => i,
    }
}

proof fn lemma_no_allocator(m: Memory, candidates: Seq<Candidate>, i: int)
    requires
        0 <= i,
        m.allocator_from(candidates, i) == Ok::<Option<(Candidate, NameFormat)>, Missing>(None),
    ensures
        forall|j: int|
            i <= j < candidates.len() ==> m.allocator_format((#[trigger] candidates[j]).base)
                == Ok::<Option<NameFormat>, Missing>(None),
    decreases candidates.len() - i,
{
    if i < candidates.len() {
        lemma_no_allocator(m, candidates, i + 1);
    }
}

/// The place number `n` at which an allocator is looked for, where `deref` is the pointer
/// at `gnames`, if there is one: the address itself, what it points to, then each eighth byte behind the
/// address, up to 0x10000, then the same behind what it points to.
pub open spec fn place(gnames: u64, deref: Option<u64>, n: int) -> Option<Candidate> {
    let behind: int = match deref {
        Some(_) => 2,
        None => 1,
    };
    if n == 0 {
        Some(Candidate { route: Route::Direct, base: gnames })
    } else if n == 1 && deref is Some {
        Some(Candidate { route: Route::Dereferenced, base: deref->0 })
    } else if behind <= n < behind + 0x2000 {
        let off = (8 * (n - behind + 1)) as u64;
        Some(Candidate { route: Route::PoolOffset(off), base: gnames.wrapping_add(off) })
    } else if deref is Some && 0x2002 <= n < 0x4002 {
        let off = (8 * (n - 0x2002 + 1)) as u64;
        Some(Candidate { route: Route::DerefOffset(off), base: deref->0.wrapping_add(off) })
    } else {
        None
    }
}

proof fn lemma_places(m: Memory, gnames: u64, deref: u64)
    requires
        m.value_or::<u64>(gnames, 0) == Ok::<u64, Missing>(deref),
    ensures
        m.candidates(gnames) matches Ok(all) && {
            let to = if deref == 0 {
                None
            } else {
                Some(deref)
            };
            &&& all.len() == (if deref == 0 {
                0x2001int
            } else {
                0x4002int
            })
            &&& forall|n: int|
                0 <= n < all.len() ==> Some(#[trigger] all[n]) == place(gnames, to, n)
        },
{
}

/// A pool is the first place that has an allocator whose first block starts with "None",
/// and that block says in which format the names are.
pub proof fn lemma_pool_is_first_place(
    m: Memory,
    gnames: u64,
    deref: u64,
    found: Candidate,
    format: NameFormat,
    list: Seq<u64>,
) -> (r: (int, u64, Seq<u8>))
    requires
        m.value_or::<u64>(gnames, 0) == Ok::<u64, Missing>(deref),
        m.pool(gnames) == Ok::<Option<(Candidate, NameFormat, Seq<u64>)>, Missing>(
            Some((found, format, list)),
        ),
    ensures
        ({
            let to = if deref == 0 {
                None
            } else {
                Some(deref)
            };
            let (n, block0, data) = r;
            &&& 0 <= n
            &&& place(gnames, to, n) == Some(found)
            &&& block_starts(m, found.base, block0, data)
            &&& match format {
                NameFormat::Shipping => shipping_none(data),
                NameFormat::CasePreserving => case_preserving_none(data) && !shipping_none(data),
            }
            &&& forall|k: int, b: u64, d: Seq<u8>|
                0 <= k < n && #[trigger] block_starts(
                    m,
                    (#[trigger] place(gnames, to, k))->0.base,
                    b,
                    d,
                ) ==> !shipping_none(d) && !case_preserving_none(d)
        }),
{
    lemma_places(m, gnames, deref);
    let to = if deref == 0 {
        None
    } else {
        Some(deref)
    };
    let all = m.candidates(gnames)->Ok_0;
    let n = lemma_allocator_found(m, all, 0);
    let block0 = m.value::<u64>(found.base.wrapping_add(0x10))->Ok_0->0;
    let data = m.fetch(block0, 256)->Ok_0->0;
    assert(data.len() == 256);
    lemma_none_spelled_out(data);
    assert forall|k: int, b: u64, d: Seq<u8>|
        0 <= k < n && #[trigger] block_starts(
            m,
            (#[trigger] place(gnames, to, k))->0.base,
            b,
            d,
        ) implies !shipping_none(d) && !case_preserving_none(d) by {
        assert(Some(all[k]) == place(gnames, to, k));
        lemma_none_spelled_out(d);
    }
    (n, block0, data)
}

/// Where one of the places has an allocator whose first block starts with "None", a pool
/// is found.
pub proof fn lemma_place_with_none_is_found(
    m: Memory,
    gnames: u64,
    deref: u64,
    n: int,
    block0: u64,
    data: Seq<u8>,
)
    requires
        m.value_or::<u64>(gnames, 0) == Ok::<u64, Missing>(deref),
        m.pool(gnames) is Ok,
        0 <= n,
        ({
            let to = if deref == 0 {
                None
            } else {
                Some(deref)
            };
            &&& place(gnames, to, n) matches Some(at)
            &&& block_starts(m, at.base, block0, data)
        }),
        shipping_none(data) || case_preserving_none(data),
    ensures
        m.pool(gnames)->Ok_0 is Some,
{
    lemma_places(m, gnames, deref);
    let to = if deref == 0 {
        None
    } else {
        Some(deref)
    };
    let all = m.candidates(gnames)->Ok_0;
    lemma_none_spelled_out(data);
    assert(n < all.len());
    assert(Some(all[n]) == place(gnames, to, n));
    assert(m.allocator_format(all[n].base) matches Ok(Some(_)));
    if m.pool(gnames)->Ok_0 is None {
        lemma_no_allocator(m, all, 0);
    }
}

// ── Entries ─────────────────────────────────────────────────────────

/// Where the header of the entry stands that an index means: its lower sixteen bits count
/// in units of two bytes, or of four behind a word of four.
pub open spec fn header_pos(format: NameFormat, idx: u32) -> int {
    match format {
        NameFormat::Shipping => 2 * (idx % 0x1_0000),
        NameFormat::CasePreserving => 4 * (idx % 0x1_0000) + 4,
    }
}

/// How long the name is that a header announces.
pub open spec fn header_len(format: NameFormat, header: int) -> int {
    match format {
        NameFormat::Shipping => header / 64,
        NameFormat::CasePreserving => header / 2,
    }
}

/// The code units that bytes stand for, the lower byte of each first.
pub open spec fn code_units(bytes: Seq<u8>) -> Seq<u16> {
    Seq::new(bytes.len() / 2, |i: int| (bytes[2 * i] + 0x100 * bytes[2 * i + 1]) as u16)
}

/// The upper sixteen bits of an index choose the block, the lower ones the entry in it. A
/// name is there if the announced length is 1 to 1024 and the block goes that far: of
/// that many bytes if the header is even, and of twice as many if it is odd. It is given
/// as it is for number 0, and with "_" and the number less one behind it for any other.
pub proof fn lemma_index_finds_entry(names: Names, idx: u32, number: u32, block: Seq<u8>)
    requires
        names.blocks[idx / 0x1_0000] == Ok::<Option<Seq<u8>>, Missing>(Some(block)),
        header_pos(names.format, idx) + 2 <= block.len(),
    ensures
        ({
            let pos = header_pos(names.format, idx);
            let header = block[pos] + 0x100 * block[pos + 1];
            let len = header_len(names.format, header);
            let size = if header % 2 == 0 {
                len
            } else {
                2 * len
            };
            let bytes = block.subrange(pos + 2, pos + 2 + size);
            let text = if header % 2 == 0 {
                crate::text::utf8_text(bytes)
            } else {
                crate::text::utf16_text(code_units(bytes))
            };
            let fits = 1 <= len <= 1024 && pos + 2 + size <= block.len();
            &&& !fits ==> names.name(idx, number) == Ok::<Option<Seq<char>>, Missing>(None)
            &&& fits && number == 0 ==> names.name(idx, number) == Ok::<
                Option<Seq<char>>,
                Missing,
            >(Some(text))
            &&& fits && number > 0 ==> names.name(idx, number) == Ok::<Option<Seq<char>>, Missing>(
                Some(text + seq!['_'] + crate::text::decimal((number - 1) as nat)),
            )
        }),
{
    let pos = header_pos(names.format, idx);
    let header = crate::ue::fname::u16_at(block, pos);
    assert(idx >> 16 == idx / 0x1_0000) by (bit_vector);
    assert(idx & 0xFFFF == idx % 0x1_0000) by (bit_vector);
    assert(header >> 6 == header / 64 && header >> 1 == header / 2) by (bit_vector);
    assert(header & 1 == header % 2) by (bit_vector);
    assert(header == block[pos] + 0x100 * block[pos + 1]);
    let len = header_len(names.format, header as int);
    let bytes = block.subrange(pos + 2, pos + 2 + 2 * len);
    assert(crate::ue::fname::units(bytes) =~= code_units(bytes));
    assert(pos == (idx & 0xFFFF) * names.format.stride() + names.format.header_off()) by {
        match names.format {
            NameFormat::Shipping => {
                assert((idx & 0xFFFF) * 2 == 2 * (idx % 0x1_0000));
            },
            NameFormat::CasePreserving => {
                assert((idx & 0xFFFF) * 4 == 4 * (idx % 0x1_0000));
            },
        }
    }
    assert(len == header >> names.format.len_shift());
    assert(names.name(idx, number) == match crate::ue::fname::entry_text(
        block,
        pos,
        names.format.len_shift(),
    ) {
        Some(text) => Ok::<Option<Seq<char>>, Missing>(
            Some(crate::ue::fname::numbered(text, number)),
        ),
        None => Ok::<Option<Seq<char>>, Missing>(None),
    });
}

/// There is no name where there is no block, or where the block ends before the header.
pub proof fn lemma_no_entry(names: Names, idx: u32, number: u32, block: Seq<u8>)
    ensures
        names.blocks[idx / 0x1_0000] == Ok::<Option<Seq<u8>>, Missing>(None) ==> names.name(
            idx,
            number,
        ) == Ok::<Option<Seq<char>>, Missing>(None),
        names.blocks[idx / 0x1_0000] == Ok::<Option<Seq<u8>>, Missing>(Some(block)) && header_pos(
            names.format,
            idx,
        ) + 2 > block.len() ==> names.name(idx, number) == Ok::<Option<Seq<char>>, Missing>(None),
{
    assert(idx >> 16 == idx / 0x1_0000) by (bit_vector);
    assert(idx & 0xFFFF == idx % 0x1_0000) by (bit_vector);
    assert(header_pos(names.format, idx) == (idx & 0xFFFF) * names.format.stride()
        + names.format.header_off()) by {
        match names.format {
            NameFormat::Shipping => {
                assert((idx & 0xFFFF) * 2 == 2 * (idx % 0x1_0000));
            },
            NameFormat::CasePreserving => {
                assert((idx & 0xFFFF) * 4 == 4 * (idx % 0x1_0000));
            },
        }
    }
}

/// The blocks of a pool: one past the list, or whose pointer is null, has no names, and
/// any other is read so far that the longest entry at the last index fits.
pub proof fn lemma_blocks_are_read_whole(m: Memory, list: Seq<u64>, format: NameFormat, i: u32)
    ensures
        i >= list.len() || list[i as int] == 0 ==> Names::of(m, list, format).blocks[i] == Ok::<
            Option<Seq<u8>>,
            Missing,
        >(None),
        i < list.len() && list[i as int] != 0 ==> Names::of(m, list, format).blocks[i] == m.fetch(
            list[i as int],
            match format {
                NameFormat::Shipping => 133124usize,
                NameFormat::CasePreserving => 264194usize,
            },
        ),
{
}

/// An FName is an index and, four bytes behind it, a number.
pub proof fn lemma_fname_is_index_and_number(r: Remote, addr: u64, idx: u32, number: u32)
    requires
        r.mem.holds::<u32>(addr, idx),
        r.mem.holds::<u32>(addr.wrapping_add(4), number),
    ensures
        r.name_at(addr) == r.names.name(idx, number),
{
}

/// An FName of which a part cannot be read has no name.
pub proof fn lemma_cut_fname_has_no_name(r: Remote, addr: u64)
    requires
        r.mem.value::<u32>(addr) == Ok::<Option<u32>, Missing>(None) || (r.mem.value::<u32>(
            addr,
        ) matches Ok(Some(_)) && r.mem.value::<u32>(addr.wrapping_add(4)) == Ok::<
            Option<u32>,
            Missing,
        >(None)),
    ensures
        r.name_at(addr) == Ok::<Option<Seq<char>>, Missing>(None),
{
}

} // verus!
