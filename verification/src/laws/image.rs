//! The image: where its code is loaded.

use crate::mem::{Memory, Missing, Scalar};
use crate::scanner::image::ElfHeader;
use vstd::prelude::*;

verus! {

// ── PE ──────────────────────────────────────────────────────────────

/// The PE header of the image at `base`: its offset at 0x3C, its signature, the number of
/// sections at 0x06, the size of the optional header at 0x14, and behind that, from 0x18
/// on, the section headers, at `headers`.
pub open spec fn pe_stands(m: Memory, base: u64, pe: u64, count: u16, headers: u64) -> bool {
    &&& m.value::<u32>(base) matches Ok(magic) && magic != Some(0x464C_457Fu32)
    &&& m.value::<u32>(base.wrapping_add(0x3C)) matches Ok(Some(off)) && pe == base.wrapping_add(
        off as u64,
    )
    &&& m.holds::<u32>(pe, 0x4550)
    &&& m.holds::<u16>(pe.wrapping_add(0x06), count)
    &&& m.value::<u16>(pe.wrapping_add(0x14)) matches Ok(Some(optional)) && headers
        == pe.wrapping_add(0x18).wrapping_add(optional as u64)
}

/// Where section header number `i` stands.
pub open spec fn pe_header(headers: u64, i: int) -> u64 {
    headers.wrapping_add((40 * i) as u64)
}

/// The code of a PE image is its first section named .text: from the address at 0x0C of
/// its header, counted from the base, for as many bytes as the number at 0x08 says.
pub proof fn lemma_pe_code(
    m: Memory,
    base: u64,
    pe: u64,
    count: u16,
    headers: u64,
    names: Seq<Seq<u8>>,
    k: int,
    size: u32,
    addr: u32,
)
    requires
        pe_stands(m, base, pe, count, headers),
        0 <= k < count,
        names.len() == k + 1,
        forall|i: int|
            0 <= i <= k ==> m.fetch(pe_header(headers, i), 8) == Ok::<Option<Seq<u8>>, Missing>(
                Some(#[trigger] names[i]),
            ),
        forall|i: int|
            0 <= i < k ==> #[trigger] names[i] != seq![0x2Eu8, 0x74, 0x65, 0x78, 0x74, 0, 0, 0],
        names[k] == seq![0x2Eu8, 0x74, 0x65, 0x78, 0x74, 0, 0, 0],
        m.holds::<u32>(pe_header(headers, k).wrapping_add(0x08), size),
        m.holds::<u32>(pe_header(headers, k).wrapping_add(0x0C), addr),
    ensures
        m.text_section(base) == Ok::<Option<(u64, u64)>, Missing>(
            Some((base.wrapping_add(addr as u64), size as u64)),
        ),
{
    assert forall|i: int| 0 <= i < k implies (#[trigger] m.fetch(
        crate::scanner::image::pe_section(headers, i),
        8,
    ) matches Ok(Some(name)) && name != crate::scanner::image::text_name()) by {
        assert(m.fetch(pe_header(headers, i), 8) == Ok::<Option<Seq<u8>>, Missing>(
            Some(names[i]),
        ));
        assert(i * 40 == 40 * i);
    }
    assert(k * 40 == 40 * k);
    assert(m.fetch(pe_header(headers, k), 8) == Ok::<Option<Seq<u8>>, Missing>(Some(names[k])));
    crate::scanner::image::lemma_first_pe_text(m, base, headers, count, 0, k);
}

/// An image that has neither signature has no code that is found.
pub proof fn lemma_no_image(m: Memory, base: u64, off: u32, signature: u32)
    requires
        m.value::<u32>(base) matches Ok(magic) && magic != Some(0x464C_457Fu32),
        m.holds::<u32>(base.wrapping_add(0x3C), off),
        m.holds::<u32>(base.wrapping_add(off as u64), signature),
        signature != 0x4550,
    ensures
        m.text_section(base) == Ok::<Option<(u64, u64)>, Missing>(None),
{
}

/// A PE image none of whose sections is named .text has no code that is found; nor has one
/// of which a section header cannot be read before such a section.
pub proof fn lemma_no_pe_code(
    m: Memory,
    base: u64,
    pe: u64,
    count: u16,
    headers: u64,
    names: Seq<Seq<u8>>,
)
    requires
        pe_stands(m, base, pe, count, headers),
        names.len() <= count,
        forall|i: int|
            0 <= i < names.len() ==> m.fetch(pe_header(headers, i), 8) == Ok::<
                Option<Seq<u8>>,
                Missing,
            >(Some(#[trigger] names[i])),
        forall|i: int|
            0 <= i < names.len() ==> #[trigger] names[i] != seq![
                0x2Eu8,
                0x74,
                0x65,
                0x78,
                0x74,
                0,
                0,
                0,
            ],
        names.len() < count ==> m.fetch(pe_header(headers, names.len() as int), 8) == Ok::<
            Option<Seq<u8>>,
            Missing,
        >(None),
    ensures
        m.text_section(base) == Ok::<Option<(u64, u64)>, Missing>(None),
{
    lemma_no_pe_text_from(m, base, count, headers, names, 0);
}

proof fn lemma_no_pe_text_from(
    m: Memory,
    base: u64,
    count: u16,
    headers: u64,
    names: Seq<Seq<u8>>,
    i: int,
)
    requires
        0 <= i <= names.len() <= count,
        forall|i: int|
            0 <= i < names.len() ==> m.fetch(pe_header(headers, i), 8) == Ok::<
                Option<Seq<u8>>,
                Missing,
            >(Some(#[trigger] names[i])),
        forall|i: int|
            0 <= i < names.len() ==> #[trigger] names[i] != seq![
                0x2Eu8,
                0x74,
                0x65,
                0x78,
                0x74,
                0,
                0,
                0,
            ],
        names.len() < count ==> m.fetch(pe_header(headers, names.len() as int), 8) == Ok::<
            Option<Seq<u8>>,
            Missing,
        >(None),
    ensures
        m.pe_text_from(base, headers, count, i) == Ok::<Option<(u64, u64)>, Missing>(None),
    decreases names.len() - i,
{
    assert(i * 40 == 40 * i);
    if i < names.len() {
        assert(m.fetch(pe_header(headers, i), 8) == Ok::<Option<Seq<u8>>, Missing>(
            Some(names[i]),
        ));
        lemma_no_pe_text_from(m, base, count, headers, names, i + 1);
    }
}

// ── ELF ─────────────────────────────────────────────────────────────

proof fn lemma_field<T: Scalar>(m: Memory, addr: u64, len: usize, at: int)
    requires
        0 <= at,
        at + T::width() <= len,
        m.fetch(addr, len) matches Ok(Some(_)),
        addr + len <= 0x1_0000_0000_0000_0000,
        T::width() > 0,
    ensures
        m.holds::<T>(
            (addr + at) as u64,
            crate::scanner::image::field::<T>(m.fetch(addr, len)->Ok_0->0, at),
        ),
{
    crate::scanner::pattern::lemma_fetch_part(m, addr, len, at, T::width());
}

/// The header of an ELF image of 64 bits, little endian, with what it says of its segments
/// and sections: offset, size of a header, number; and the number of the section that has
/// the names.
pub open spec fn elf_stands(m: Memory, base: u64, header: ElfHeader) -> bool {
    &&& base + 64 <= 0x1_0000_0000_0000_0000
    &&& m.fetch(base, 64) matches Ok(Some(_))
    &&& m.holds::<u32>(base, 0x464C_457F)
    &&& m.holds::<u16>((base + 0x04) as u64, 0x0102)
    &&& m.holds::<u64>((base + 0x20) as u64, header.phoff)
    &&& m.holds::<u64>((base + 0x28) as u64, header.shoff)
    &&& m.holds::<u16>((base + 0x36) as u64, header.phentsize)
    &&& m.holds::<u16>((base + 0x38) as u64, header.phnum)
    &&& m.holds::<u16>((base + 0x3A) as u64, header.shentsize)
    &&& m.holds::<u16>((base + 0x3C) as u64, header.shnum)
    &&& m.holds::<u16>((base + 0x3E) as u64, header.shstrndx)
}

proof fn lemma_elf_header(m: Memory, base: u64, header: ElfHeader)
    requires
        elf_stands(m, base, header),
    ensures
        crate::scanner::image::elf_header(m.fetch(base, 64)->Ok_0->0) == Some(header),
{
    lemma_field::<u32>(m, base, 64, 0);
    lemma_field::<u16>(m, base, 64, 0x04);
    lemma_field::<u64>(m, base, 64, 0x20);
    lemma_field::<u64>(m, base, 64, 0x28);
    lemma_field::<u16>(m, base, 64, 0x36);
    lemma_field::<u16>(m, base, 64, 0x38);
    lemma_field::<u16>(m, base, 64, 0x3A);
    lemma_field::<u16>(m, base, 64, 0x3C);
    lemma_field::<u16>(m, base, 64, 0x3E);
}

/// Where segment header number `i` stands.
pub open spec fn elf_segment(base: u64, header: ElfHeader, i: int) -> u64 {
    base.wrapping_add(header.phoff).wrapping_add((i * header.phentsize) as u64)
}

/// Where section header number `i` stands.
pub open spec fn elf_section(base: u64, header: ElfHeader, i: int) -> u64 {
    base.wrapping_add(header.shoff).wrapping_add((i * header.shentsize) as u64)
}

/// A header of `len` bytes can be read at `at`.
pub open spec fn header_reads(m: Memory, at: u64, len: usize) -> bool {
    at + len <= 0x1_0000_0000_0000_0000 && m.fetch(at, len) matches Ok(Some(_))
}

/// The image was linked for the page of the first segment that is loaded: the first whose
/// header has the type 1, and that page is the one of the address at 0x10 of the header.
pub open spec fn linked_for(m: Memory, base: u64, header: ElfHeader, s: int, linked: u64) -> bool {
    &&& 0 <= s < header.phnum
    &&& forall|i: int|
        0 <= i <= s ==> header_reads(m, #[trigger] elf_segment(base, header, i), 56)
    &&& forall|i: int|
        0 <= i < s ==> !m.holds::<u32>(#[trigger] elf_segment(base, header, i), 1)
    &&& m.holds::<u32>(elf_segment(base, header, s), 1)
    &&& m.value::<u64>((elf_segment(base, header, s) + 0x10) as u64) matches Ok(Some(vaddr))
        && linked == vaddr - vaddr % 4096
}

proof fn lemma_linked(m: Memory, base: u64, header: ElfHeader, s: int, linked: u64, i: int)
    requires
        linked_for(m, base, header, s, linked),
        0 <= i <= s,
    ensures
        m.elf_link_base(base, header, i) == Ok::<Option<u64>, Missing>(Some(linked)),
    decreases s - i,
{
    let at = elf_segment(base, header, i);
    assert(header_reads(m, at, 56));
    lemma_field::<u32>(m, at, 56, 0);
    lemma_field::<u64>(m, at, 56, 0x10);
    assert((at + 0) as u64 == at);
    assert(at == header.segment(base, i));
    if i < s {
        assert(!m.holds::<u32>(at, 1));
        lemma_linked(m, base, header, s, linked, i + 1);
    }
}

/// The name of the section whose header stands at `at` is ".text": it stands in the table
/// of names as far in as the number at the start of the header says.
pub open spec fn named_text(m: Memory, names: u64, at: u64) -> bool {
    &&& m.value::<u32>(at) matches Ok(Some(off)) && m.fetch(names.wrapping_add(off as u64), 6)
        == Ok::<Option<Seq<u8>>, Missing>(Some(seq![0x2Eu8, 0x74, 0x65, 0x78, 0x74, 0]))
}

proof fn lemma_named_text(m: Memory, names: u64, at: u64)
    requires
        header_reads(m, at, 64),
        m.elf_is_text(names, m.fetch(at, 64)->Ok_0->0) is Ok,
    ensures
        m.elf_is_text(names, m.fetch(at, 64)->Ok_0->0) == Ok::<bool, Missing>(
            named_text(m, names, at),
        ),
{
    lemma_field::<u32>(m, at, 64, 0);
    assert((at + 0) as u64 == at);
}

/// The code of an ELF image is its first section named .text: at the address at 0x10 of
/// its header, moved by as much as the image is away from where it was linked for, for as
/// many bytes as the number at 0x20 says. The table of names is the section that the image
/// header names, at the offset at 0x18 of its header.
pub proof fn lemma_elf_code(
    m: Memory,
    base: u64,
    header: ElfHeader,
    s: int,
    linked: u64,
    names: u64,
    k: int,
    addr: u64,
    size: u64,
)
    requires
        elf_stands(m, base, header),
        linked_for(m, base, header, s, linked),
        0 < header.shstrndx < header.shnum,
        header_reads(m, elf_section(base, header, header.shstrndx as int), 64),
        m.value::<u64>(
            (elf_section(base, header, header.shstrndx as int) + 0x18) as u64,
        ) matches Ok(Some(off)) && names == base.wrapping_add(off),
        0 <= k < header.shnum,
        forall|i: int|
            0 <= i <= k ==> header_reads(m, #[trigger] elf_section(base, header, i), 64) && m.elf_is_text(
                names,
                m.fetch(elf_section(base, header, i), 64)->Ok_0->0,
            ) is Ok,
        forall|i: int|
            0 <= i < k ==> !named_text(m, names, #[trigger] elf_section(base, header, i)),
        named_text(m, names, elf_section(base, header, k)),
        m.holds::<u64>((elf_section(base, header, k) + 0x10) as u64, addr),
        m.holds::<u64>((elf_section(base, header, k) + 0x20) as u64, size),
    ensures
        m.text_section(base) == Ok::<Option<(u64, u64)>, Missing>(
            Some((base.wrapping_sub(linked).wrapping_add(addr), size)),
        ),
{
    lemma_elf_header(m, base, header);
    lemma_linked(m, base, header, s, linked, 0);
    let table = elf_section(base, header, header.shstrndx as int);
    lemma_field::<u64>(m, table, 64, 0x18);
    assert(table == header.section(base, header.shstrndx as int));
    let bias = base.wrapping_sub(linked);
    assert forall|i: int| 0 <= i < k implies (#[trigger] m.fetch(
        header.section(base, i),
        crate::scanner::image::ELF_SECTION_SIZE,
    ) matches Ok(Some(section)) && m.elf_is_text(names, section) == Ok::<bool, Missing>(false)) by {
        let at = elf_section(base, header, i);
        assert(at == header.section(base, i));
        assert(header_reads(m, at, 64));
        assert(!named_text(m, names, at));
        lemma_named_text(m, names, at);
    }
    let at = elf_section(base, header, k);
    assert(at == header.section(base, k));
    assert(header_reads(m, at, 64));
    lemma_named_text(m, names, at);
    lemma_field::<u64>(m, at, 64, 0x10);
    lemma_field::<u64>(m, at, 64, 0x20);
    crate::scanner::image::lemma_first_elf_text(m, base, header, bias, names, 0, k);
}

} // verus!
