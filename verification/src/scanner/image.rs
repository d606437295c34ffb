//! The header of the image, PE or ELF, and where its code stands.

use crate::mem::{Memory, Outcome, ProcessHandle, Scalar, PAGE_SIZE};
use crate::text::bytes_equal;
use vstd::prelude::*;

verus! {

// ── Fields of a header ──────────────────────────────────────────────

/// The number of type `T` that stands at `at` of a header.
pub open spec fn field<T: Scalar>(header: Seq<u8>, at: int) -> T {
    T::decode(header.subrange(at, at + T::width()))
}

fn get_field<T: Scalar>(header: &[u8], at: usize) -> (v: T)
    requires
        at + T::width() <= header@.len(),
    ensures
        v == field::<T>(header@, at as int),
{
    assert(at + T::width() <= header.len());
    T::from_le(vstd::slice::slice_subrange(header, at, at + T::size()))
}

// ── PE ──────────────────────────────────────────────────────────────

/// `PE\0\0`
pub const PE_SIGNATURE: u32 = 0x0000_4550;

/// Size of a section header of a PE image.
pub const SECTION_HEADER_SIZE: u64 = 40;

/// The name field of the .text section of a PE image: `.text`, padded with NULs.
pub open spec fn text_name() -> Seq<u8> {
    seq![0x2E, 0x74, 0x65, 0x78, 0x74, 0, 0, 0]
}

/// Where section header number `i` of a PE image stands.
pub open spec fn pe_section(headers: u64, i: int) -> u64 {
    headers.wrapping_add((i * SECTION_HEADER_SIZE) as u64)
}

impl Memory {
    /// What the PE section header at `sec` says: where the section starts, and how
    /// long it is.
    pub open spec fn pe_extent(self, base: u64, sec: u64) -> Outcome<Option<(u64, u64)>> {
        match self.value::<u32>(sec.wrapping_add(0x08)) {
            Err(e) => Err(e),
            Ok(None) => Ok(None),
            Ok(Some(size)) => match self.value::<u32>(sec.wrapping_add(0x0C)) {
                Err(e) => Err(e),
                Ok(None) => Ok(None),
                Ok(Some(addr)) => Ok(Some((base.wrapping_add(addr as u64), size as u64))),
            },
        }
    }

    /// Where the .text section starts and how long it is, looked for from header
    /// number `i` of `count` on; nothing if a header cannot be read.
    pub open spec fn pe_text_from(self, base: u64, headers: u64, count: u16, i: int) -> Outcome<
        Option<(u64, u64)>,
    >
        decreases count - i,
    {
        if i < 0 || i >= count {
            Ok(None)
        } else {
            match self.fetch(pe_section(headers, i), 8) {
                Err(e) => Err(e),
                Ok(None) => Ok(None),
                Ok(Some(name)) => if name == text_name() {
                    self.pe_extent(base, pe_section(headers, i))
                } else {
                    self.pe_text_from(base, headers, count, i + 1)
                },
            }
        }
    }

    /// Where the .text section of the PE image at `base` starts, and how long it is.
    pub open spec fn pe_text(self, base: u64) -> Outcome<Option<(u64, u64)>> {
        match self.value::<u32>(base.wrapping_add(0x3C)) {
            Err(e) => Err(e),
            Ok(None) => Ok(None),
            Ok(Some(e_lfanew)) => {
                let pe = base.wrapping_add(e_lfanew as u64);
                match self.value::<u32>(pe) {
                    Err(e) => Err(e),
                    Ok(None) => Ok(None),
                    Ok(Some(signature)) => if signature != PE_SIGNATURE {
                        Ok(None)
                    } else {
                        match self.value::<u16>(pe.wrapping_add(0x06)) {
                            Err(e) => Err(e),
                            Ok(None) => Ok(None),
                            Ok(Some(count)) => match self.value::<u16>(pe.wrapping_add(0x14)) {
                                Err(e) => Err(e),
                                Ok(None) => Ok(None),
                                Ok(Some(optional)) => self.pe_text_from(
                                    base,
                                    pe.wrapping_add(0x18).wrapping_add(optional as u64),
                                    count,
                                    0,
                                ),
                            },
                        }
                    },
                }
            },
        }
    }
}

fn is_text_name(name: &[u8]) -> (r: bool)
    ensures
        r == (name@ == text_name()),
{
    let text: [u8; 8] = [0x2E, 0x74, 0x65, 0x78, 0x74, 0, 0, 0];
    assert(text@ =~= text_name());
    bytes_equal(name, text.as_slice())
}

fn read_pe_extent(proc: &ProcessHandle, sec: u64) -> (r: Outcome<Option<(u64, u64)>>)
    ensures
        r == proc@.pe_extent(proc.base, sec),
{
    let virtual_size: u32 = match proc.read::<u32>(sec.wrapping_add(0x08))? {
        Some(v) => v,
        None => {
            return Ok(None);
        },
    };
    let virtual_addr: u32 = match proc.read::<u32>(sec.wrapping_add(0x0C))? {
        Some(v) => v,
        None => {
            return Ok(None);
        },
    };
    Ok(Some((proc.base.wrapping_add(virtual_addr as u64), virtual_size as u64)))
}

/// Parse the PE header to find the .text section's virtual address and size.
fn find_pe_text(proc: &ProcessHandle) -> (r: Outcome<Option<(u64, u64)>>)
    ensures
        r == proc@.pe_text(proc.base),
{
    let base: u64 = proc.base;
    let e_lfanew: u32 = match proc.read::<u32>(base.wrapping_add(0x3C))? {
        Some(v) => v,
        None => {
            return Ok(None);
        },
    };
    let pe_header: u64 = base.wrapping_add(e_lfanew as u64);
    match proc.read::<u32>(pe_header)? {
        Some(pe_sig) if pe_sig == PE_SIGNATURE => {},
        _ => {
            return Ok(None);
        },
    }
    let num_sections: u16 = match proc.read::<u16>(pe_header.wrapping_add(0x06))? {
        Some(v) => v,
        None => {
            return Ok(None);
        },
    };
    let optional_header_size: u16 = match proc.read::<u16>(pe_header.wrapping_add(0x14))? {
        Some(v) => v,
        None => {
            return Ok(None);
        },
    };
    let sections_start: u64 = pe_header.wrapping_add(0x18).wrapping_add(
        optional_header_size as u64,
    );
    let mut i: u16 = 0;
    while i < num_sections
        invariant
            i <= num_sections,
            base == proc.base,
            proc@.pe_text(base) == proc@.pe_text_from(
                base,
                sections_start,
                num_sections,
                i as int,
            ),
        decreases num_sections - i,
    {
        let sec: u64 = sections_start.wrapping_add(i as u64 * SECTION_HEADER_SIZE);
        let name = match proc.read_bytes(sec, 8)? {
            Some(name) => name,
            None => {
                return Ok(None);
            },
        };
        if is_text_name(name.as_slice()) {
            return read_pe_extent(proc, sec);
        }
        i = i + 1;
    }
    Ok(None)
}

// ── ELF ─────────────────────────────────────────────────────────────

/// `\x7FELF`
pub const ELF_MAGIC: u32 = 0x464C_457F;

/// What follows it in a 64-bit little-endian image: ELFCLASS64, ELFDATA2LSB.
pub const ELF64_LITTLE_ENDIAN: u16 = 0x0102;

/// Size of the header of a 64-bit ELF image.
pub const ELF_HEADER_SIZE: usize = 64;

/// Size of its section headers, as far as they are read.
pub const ELF_SECTION_SIZE: usize = 64;

/// Size of its program headers, as far as they are read.
pub const ELF_SEGMENT_SIZE: usize = 56;

/// The type of a segment that is loaded.
pub const PT_LOAD: u32 = 1;

/// The name of the .text section of an ELF image, with its NUL.
pub open spec fn elf_text_name() -> Seq<u8> {
    seq![0x2E, 0x74, 0x65, 0x78, 0x74, 0]
}

/// What is read of the header of an ELF image: where its tables stand in the file.
#[derive(Clone, Copy, Debug, PartialEq, Eq, Structural)]
pub struct ElfHeader {
    /// The program headers: offset, size of one, and number.
    pub phoff: u64,
    pub phentsize: u16,
    pub phnum: u16,
    /// The section headers: offset, size of one, and number.
    pub shoff: u64,
    pub shentsize: u16,
    pub shnum: u16,
    /// Which section holds the names of the sections.
    pub shstrndx: u16,
}

impl ElfHeader {
    /// Where program header number `i` stands in the image at `base`.
    pub open spec fn segment(self, base: u64, i: int) -> u64 {
        base.wrapping_add(self.phoff).wrapping_add((i * self.phentsize) as u64)
    }

    /// Where section header number `i` stands in the image at `base`.
    pub open spec fn section(self, base: u64, i: int) -> u64 {
        base.wrapping_add(self.shoff).wrapping_add((i * self.shentsize) as u64)
    }
}

/// The header that `bytes` hold, if they start a 64-bit little-endian ELF image.
pub open spec fn elf_header(bytes: Seq<u8>) -> Option<ElfHeader> {
    if field::<u32>(bytes, 0) == ELF_MAGIC && field::<u16>(bytes, 0x04) == ELF64_LITTLE_ENDIAN {
        Some(
            ElfHeader {
                phoff: field(bytes, 0x20),
                phentsize: field(bytes, 0x36),
                phnum: field(bytes, 0x38),
                shoff: field(bytes, 0x28),
                shentsize: field(bytes, 0x3A),
                shnum: field(bytes, 0x3C),
                shstrndx: field(bytes, 0x3E),
            },
        )
    } else {
        None
    }
}

/// The start of the page that address `a` is in.
pub open spec fn page_start(a: u64) -> u64 {
    (a - a % PAGE_SIZE) as u64
}

impl Memory {
    /// The address that the image at `base` is linked to start at: that of the page of
    /// its first loaded segment, looked for from program header number `i` on; zero if
    /// there is none.
    pub open spec fn elf_link_base(self, base: u64, header: ElfHeader, i: int) -> Outcome<
        Option<u64>,
    >
        decreases header.phnum - i,
    {
        if i < 0 || i >= header.phnum {
            Ok(Some(0))
        } else {
            match self.fetch(header.segment(base, i), ELF_SEGMENT_SIZE) {
                Err(e) => Err(e),
                Ok(None) => Ok(None),
                Ok(Some(segment)) => if field::<u32>(segment, 0) == PT_LOAD {
                    Ok(Some(page_start(field::<u64>(segment, 0x10))))
                } else {
                    self.elf_link_base(base, header, i + 1)
                },
            }
        }
    }

    /// Where the names of the sections stand in the image at `base`, which is mapped
    /// from the start of its file on.
    pub open spec fn elf_names(self, base: u64, header: ElfHeader) -> Outcome<Option<u64>> {
        if header.shstrndx == 0 || header.shstrndx >= header.shnum {
            Ok(None)
        } else {
            match self.fetch(header.section(base, header.shstrndx as int), ELF_SECTION_SIZE) {
                Err(e) => Err(e),
                Ok(None) => Ok(None),
                Ok(Some(section)) => Ok(Some(base.wrapping_add(field::<u64>(section, 0x18)))),
            }
        }
    }

    /// Whether the section header `section` is that of .text. A name that ends too
    /// early to be read is another name.
    pub open spec fn elf_is_text(self, names: u64, section: Seq<u8>) -> Outcome<bool> {
        match self.fetch(names.wrapping_add(field::<u32>(section, 0) as u64), 6) {
            Err(e) => Err(e),
            Ok(name) => Ok(name == Some(elf_text_name())),
        }
    }

    /// Where the .text section starts and how long it is, looked for from section
    /// header number `i` on; nothing if a header cannot be read. The addresses in the
    /// headers are moved by `bias`.
    pub open spec fn elf_text_from(
        self,
        base: u64,
        header: ElfHeader,
        bias: u64,
        names: u64,
        i: int,
    ) -> Outcome<Option<(u64, u64)>>
        decreases header.shnum - i,
    {
        if i < 0 || i >= header.shnum {
            Ok(None)
        } else {
            match self.fetch(header.section(base, i), ELF_SECTION_SIZE) {
                Err(e) => Err(e),
                Ok(None) => Ok(None),
                Ok(Some(section)) => match self.elf_is_text(names, section) {
                    Err(e) => Err(e),
                    Ok(true) => Ok(
                        Some(
                            (
                                bias.wrapping_add(field::<u64>(section, 0x10)),
                                field::<u64>(section, 0x20),
                            ),
                        ),
                    ),
                    Ok(false) => self.elf_text_from(base, header, bias, names, i + 1),
                },
            }
        }
    }

    /// Where the .text section of the ELF image at `base` starts, and how long it is.
    pub open spec fn elf_text(self, base: u64) -> Outcome<Option<(u64, u64)>> {
        match self.fetch(base, ELF_HEADER_SIZE) {
            Err(e) => Err(e),
            Ok(None) => Ok(None),
            Ok(Some(bytes)) => match elf_header(bytes) {
                None => Ok(None),
                Some(header) => match self.elf_link_base(base, header, 0) {
                    Err(e) => Err(e),
                    Ok(None) => Ok(None),
                    Ok(Some(linked)) => match self.elf_names(base, header) {
                        Err(e) => Err(e),
                        Ok(None) => Ok(None),
                        Ok(Some(names)) => self.elf_text_from(
                            base,
                            header,
                            base.wrapping_sub(linked),
                            names,
                            0,
                        ),
                    },
                },
            },
        }
    }

    /// Where the .text section of the image at `base`, PE or ELF, starts, and how long
    /// it is.
    pub open spec fn text_section(self, base: u64) -> Outcome<Option<(u64, u64)>> {
        match self.value::<u32>(base) {
            Err(e) => Err(e),
            Ok(magic) => if magic == Some(ELF_MAGIC) {
                self.elf_text(base)
            } else {
                self.pe_text(base)
            },
        }
    }
}

fn get_elf_header(bytes: &[u8]) -> (r: Option<ElfHeader>)
    requires
        bytes@.len() == ELF_HEADER_SIZE,
    ensures
        r == elf_header(bytes@),
{
    if get_field::<u32>(bytes, 0) != ELF_MAGIC || get_field::<u16>(bytes, 0x04)
        != ELF64_LITTLE_ENDIAN {
        return None;
    }
    Some(
        ElfHeader {
            phoff: get_field(bytes, 0x20),
            phentsize: get_field(bytes, 0x36),
            phnum: get_field(bytes, 0x38),
            shoff: get_field(bytes, 0x28),
            shentsize: get_field(bytes, 0x3A),
            shnum: get_field(bytes, 0x3C),
            shstrndx: get_field(bytes, 0x3E),
        },
    )
}

/// Where entry number `i` of a table at `offset` of the image at `base` stands.
fn table_entry(base: u64, offset: u64, entsize: u16, i: u16) -> (addr: u64)
    ensures
        addr == base.wrapping_add(offset).wrapping_add((i * entsize) as u64),
{
    assert(0 <= i * entsize <= 0xFFFF * 0xFFFF) by (nonlinear_arith)
        requires
            i <= 0xFFFF,
            entsize <= 0xFFFF,
    ;
    base.wrapping_add(offset).wrapping_add(i as u64 * entsize as u64)
}

fn read_elf_link_base(proc: &ProcessHandle, header: ElfHeader) -> (r: Outcome<Option<u64>>)
    ensures
        r == proc@.elf_link_base(proc.base, header, 0),
{
    let mut i: u16 = 0;
    while i < header.phnum
        invariant
            i <= header.phnum,
            proc@.elf_link_base(proc.base, header, 0) == proc@.elf_link_base(
                proc.base,
                header,
                i as int,
            ),
        decreases header.phnum - i,
    {
        let addr: u64 = table_entry(proc.base, header.phoff, header.phentsize, i);
        match proc.read_bytes(addr, ELF_SEGMENT_SIZE)? {
            None => {
                return Ok(None);
            },
            Some(segment) => {
                if get_field::<u32>(segment.as_slice(), 0) == PT_LOAD {
                    let vaddr: u64 = get_field(segment.as_slice(), 0x10);
                    return Ok(Some(vaddr - vaddr % PAGE_SIZE));
                }
            },
        }
        i = i + 1;
    }
    Ok(Some(0))
}

fn read_elf_names(proc: &ProcessHandle, header: ElfHeader) -> (r: Outcome<Option<u64>>)
    ensures
        r == proc@.elf_names(proc.base, header),
{
    if header.shstrndx == 0 || header.shstrndx >= header.shnum {
        return Ok(None);
    }
    let addr: u64 = table_entry(proc.base, header.shoff, header.shentsize, header.shstrndx);
    match proc.read_bytes(addr, ELF_SECTION_SIZE)? {
        Some(section) => {
            let offset: u64 = get_field(section.as_slice(), 0x18);
            Ok(Some(proc.base.wrapping_add(offset)))
        },
        None => Ok(None),
    }
}

fn names_text(proc: &ProcessHandle, names: u64, section: &[u8]) -> (r: Outcome<bool>)
    requires
        section@.len() == ELF_SECTION_SIZE,
    ensures
        r == proc@.elf_is_text(names, section@),
{
    let at: u32 = get_field(section, 0);
    let text: [u8; 6] = [0x2E, 0x74, 0x65, 0x78, 0x74, 0];
    assert(text@ =~= elf_text_name());
    match proc.read_bytes(names.wrapping_add(at as u64), 6)? {
        Some(name) => Ok(bytes_equal(name.as_slice(), text.as_slice())),
        None => Ok(false),
    }
}

fn find_elf_section(proc: &ProcessHandle, header: ElfHeader, bias: u64, names: u64) -> (r: Outcome<
    Option<(u64, u64)>,
>)
    ensures
        r == proc@.elf_text_from(proc.base, header, bias, names, 0),
{
    let mut i: u16 = 0;
    while i < header.shnum
        invariant
            i <= header.shnum,
            proc@.elf_text_from(proc.base, header, bias, names, 0) == proc@.elf_text_from(
                proc.base,
                header,
                bias,
                names,
                i as int,
            ),
        decreases header.shnum - i,
    {
        let addr: u64 = table_entry(proc.base, header.shoff, header.shentsize, i);
        match proc.read_bytes(addr, ELF_SECTION_SIZE)? {
            None => {
                return Ok(None);
            },
            Some(section) => {
                if names_text(proc, names, section.as_slice())? {
                    let sh_addr: u64 = get_field(section.as_slice(), 0x10);
                    let sh_size: u64 = get_field(section.as_slice(), 0x20);
                    return Ok(Some((bias.wrapping_add(sh_addr), sh_size)));
                }
            },
        }
        i = i + 1;
    }
    Ok(None)
}

/// Parse the ELF header to find the .text section's address and size.
fn find_elf_text(proc: &ProcessHandle) -> (r: Outcome<Option<(u64, u64)>>)
    ensures
        r == proc@.elf_text(proc.base),
{
    let bytes = match proc.read_bytes(proc.base, ELF_HEADER_SIZE)? {
        Some(bytes) => bytes,
        None => {
            return Ok(None);
        },
    };
    let header: ElfHeader = match get_elf_header(bytes.as_slice()) {
        Some(header) => header,
        None => {
            return Ok(None);
        },
    };
    let linked: u64 = match read_elf_link_base(proc, header)? {
        Some(linked) => linked,
        None => {
            return Ok(None);
        },
    };
    let names: u64 = match read_elf_names(proc, header)? {
        Some(names) => names,
        None => {
            return Ok(None);
        },
    };
    find_elf_section(proc, header, proc.base.wrapping_sub(linked), names)
}

/// Parse the PE or ELF header to find the .text section's address and size.
pub fn find_text_section(proc: &ProcessHandle) -> (r: Outcome<Option<(u64, u64)>>)
    ensures
        r == proc@.text_section(proc.base),
{
    match proc.read::<u32>(proc.base)? {
        Some(magic) if magic == ELF_MAGIC => find_elf_text(proc),
        _ => find_pe_text(proc),
    }
}

// ── Laws ────────────────────────────────────────────────────────────

/// The first section header of a PE image that is named .text is the one that counts.
pub proof fn lemma_first_pe_text(m: Memory, base: u64, headers: u64, count: u16, from: int, k: int)
    requires
        0 <= from <= k < count,
        forall|i: int|
            from <= i < k ==> (#[trigger] m.fetch(pe_section(headers, i), 8) matches Ok(Some(name))
                && name != text_name()),
        m.fetch(pe_section(headers, k), 8) == Ok::<Option<Seq<u8>>, crate::mem::Missing>(
            Some(text_name()),
        ),
    ensures
        m.pe_text_from(base, headers, count, from) == m.pe_extent(base, pe_section(headers, k)),
    decreases k - from,
{
    if from < k {
        assert(m.fetch(pe_section(headers, from), 8) matches Ok(Some(name)) && name != text_name());
        lemma_first_pe_text(m, base, headers, count, from + 1, k);
    }
}

/// The first section header of an ELF image that is named .text is the one that counts:
/// the section is found where it has been loaded, with the size that its header gives.
pub proof fn lemma_first_elf_text(
    m: Memory,
    base: u64,
    header: ElfHeader,
    bias: u64,
    names: u64,
    from: int,
    k: int,
)
    requires
        0 <= from <= k < header.shnum,
        forall|i: int|
            from <= i < k ==> (#[trigger] m.fetch(header.section(base, i), ELF_SECTION_SIZE) matches Ok(
                Some(section),
            ) && m.elf_is_text(names, section) == Ok::<bool, crate::mem::Missing>(false)),
        m.fetch(header.section(base, k), ELF_SECTION_SIZE) matches Ok(Some(section))
            && m.elf_is_text(names, section) == Ok::<bool, crate::mem::Missing>(true),
    ensures
        m.fetch(header.section(base, k), ELF_SECTION_SIZE) matches Ok(Some(section))
            && m.elf_text_from(base, header, bias, names, from) == Ok::<
            Option<(u64, u64)>,
            crate::mem::Missing,
        >(
            Some(
                (
                    bias.wrapping_add(field::<u64>(section, 0x10)),
                    field::<u64>(section, 0x20),
                ),
            ),
        ),
    decreases k - from,
{
    if from < k {
        assert(m.fetch(header.section(base, from), ELF_SECTION_SIZE) matches Ok(Some(section))
            && m.elf_is_text(names, section) == Ok::<bool, crate::mem::Missing>(false));
        lemma_first_elf_text(m, base, header, bias, names, from + 1, k);
    }
}

proof fn lemma_pe_text_from_settled(
    m: Memory,
    m2: Memory,
    base: u64,
    headers: u64,
    count: u16,
    i: int,
)
    requires
        m.grows_to(m2),
    ensures
        m.settles(
            m.pe_text_from(base, headers, count, i),
            m2.pe_text_from(base, headers, count, i),
        ),
    decreases count - i,
{
    broadcast use {crate::mem::lemma_value_settled, crate::mem::lemma_fetch_settled};

    if 0 <= i < count {
        lemma_pe_text_from_settled(m, m2, base, headers, count, i + 1);
    }
}

proof fn lemma_pe_text_settled(m: Memory, m2: Memory, base: u64)
    requires
        m.grows_to(m2),
    ensures
        m.settles(m.pe_text(base), m2.pe_text(base)),
{
    broadcast use crate::mem::lemma_value_settled;

    match m.value::<u32>(base.wrapping_add(0x3C)) {
        Ok(Some(e_lfanew)) => {
            let pe = base.wrapping_add(e_lfanew as u64);
            match (m.value::<u16>(pe.wrapping_add(0x06)), m.value::<u16>(pe.wrapping_add(0x14))) {
                (Ok(Some(count)), Ok(Some(optional))) => {
                    lemma_pe_text_from_settled(
                        m,
                        m2,
                        base,
                        pe.wrapping_add(0x18).wrapping_add(optional as u64),
                        count,
                        0,
                    );
                },
                _ => {},
            }
        },
        _ => {},
    }
}

proof fn lemma_elf_link_base_settled(m: Memory, m2: Memory, base: u64, header: ElfHeader, i: int)
    requires
        m.grows_to(m2),
    ensures
        m.settles(m.elf_link_base(base, header, i), m2.elf_link_base(base, header, i)),
    decreases header.phnum - i,
{
    broadcast use crate::mem::lemma_fetch_settled;

    if 0 <= i < header.phnum {
        lemma_elf_link_base_settled(m, m2, base, header, i + 1);
    }
}

proof fn lemma_elf_text_from_settled(
    m: Memory,
    m2: Memory,
    base: u64,
    header: ElfHeader,
    bias: u64,
    names: u64,
    i: int,
)
    requires
        m.grows_to(m2),
    ensures
        m.settles(
            m.elf_text_from(base, header, bias, names, i),
            m2.elf_text_from(base, header, bias, names, i),
        ),
    decreases header.shnum - i,
{
    broadcast use crate::mem::lemma_fetch_settled;

    if 0 <= i < header.shnum {
        lemma_elf_text_from_settled(m, m2, base, header, bias, names, i + 1);
    }
}

/// Fetching more pages never changes where the .text section is.
pub proof fn lemma_text_section_settled(m: Memory, m2: Memory, base: u64)
    requires
        m.grows_to(m2),
    ensures
        m.settles(m.text_section(base), m2.text_section(base)),
{
    broadcast use {crate::mem::lemma_value_settled, crate::mem::lemma_fetch_settled};

    lemma_pe_text_settled(m, m2, base);
    match m.fetch(base, ELF_HEADER_SIZE) {
        Ok(Some(bytes)) => match elf_header(bytes) {
            Some(header) => {
                lemma_elf_link_base_settled(m, m2, base, header, 0);
                assert(m.settles(m.elf_names(base, header), m2.elf_names(base, header)));
                match (m.elf_link_base(base, header, 0), m.elf_names(base, header)) {
                    (Ok(Some(linked)), Ok(Some(names))) => {
                        lemma_elf_text_from_settled(
                            m,
                            m2,
                            base,
                            header,
                            base.wrapping_sub(linked),
                            names,
                            0,
                        );
                    },
                    _ => {},
                }
            },
            None => {},
        },
        _ => {},
    }
}

} // verus!
