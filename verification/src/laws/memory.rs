//! Reads: which bytes they give, and which numbers the bytes stand for.

use crate::mem::{Memory, Missing};
use vstd::prelude::*;

verus! {

/// The byte of page memory at address `a`, in pages of 4096 bytes.
pub open spec fn page_byte(m: Memory, a: int) -> Option<u8> {
    match m.pages[(a / 4096) as u64] {
        Some(data) => if a % 4096 < data.len() {
            Some(data[a % 4096])
        } else {
            None
        },
        None => None,
    }
}

/// A read gives the bytes that stand at its addresses, one after the other; it asks for
/// itself while a page is missing, and gives nothing if a byte cannot be read.
pub proof fn lemma_read_gives_bytes_in_order(m: Memory, addr: u64, len: usize)
    ensures
        addr + len > 0x1_0000_0000_0000_0000 ==> m.fetch(addr, len) == Ok::<
            Option<Seq<u8>>,
            Missing,
        >(None),
        addr + len <= 0x1_0000_0000_0000_0000 ==> {
            let fetched = forall|a: int|
                addr <= a < addr + len ==> m.pages.contains_key(#[trigger] ((a / 4096) as u64));
            let readable = forall|a: int|
                addr <= a < addr + len ==> #[trigger] page_byte(m, a) is Some;
            &&& !fetched ==> m.fetch(addr, len) == Err::<Option<Seq<u8>>, Missing>(
                Missing { addr, len },
            )
            &&& fetched && !readable ==> m.fetch(addr, len) == Ok::<Option<Seq<u8>>, Missing>(None)
            &&& fetched && readable ==> {
                &&& m.fetch(addr, len) matches Ok(Some(bytes))
                &&& bytes.len() == len
                &&& forall|i: int|
                    0 <= i < len ==> Some(#[trigger] bytes[i]) == page_byte(m, addr + i)
            }
        },
{
    if addr + len <= 0x1_0000_0000_0000_0000 {
        let fetched = forall|a: int|
            addr <= a < addr + len ==> m.pages.contains_key(#[trigger] ((a / 4096) as u64));
        assert(fetched == m.known(addr as int, len as int)) by {
            if fetched {
                assert forall|a: int| addr <= a < addr + len implies m.pages.contains_key(
                    #[trigger] crate::mem::page_of(a),
                ) by {
                    assert(m.pages.contains_key((a / 4096) as u64));
                }
            }
            if m.known(addr as int, len as int) {
                assert forall|a: int| addr <= a < addr + len implies m.pages.contains_key(
                    #[trigger] ((a / 4096) as u64),
                ) by {
                    assert(m.pages.contains_key(crate::mem::page_of(a)));
                }
            }
        }
        if fetched {
            assert forall|a: int| addr <= a < addr + len implies #[trigger] m.byte_at(a)
                == page_byte(m, a) by {
                assert(m.pages.contains_key(crate::mem::page_of(a)));
            }
            assert forall|a: int| addr <= a < addr + len implies m.byte_at(a)
                == #[trigger] page_byte(m, a) by {
                assert(m.pages.contains_key(crate::mem::page_of(a)));
            }
        }
    }
}

/// Bytes stand for numbers with the lowest byte first; a signed number is negative if
/// its highest bit is set.
pub proof fn lemma_numbers_are_little_endian(m: Memory, addr: u64, b: Seq<u8>)
    requires
        b.len() == 8,
        m.fetch(addr, 1) == Ok::<Option<Seq<u8>>, Missing>(Some(b.take(1))),
        m.fetch(addr, 2) == Ok::<Option<Seq<u8>>, Missing>(Some(b.take(2))),
        m.fetch(addr, 4) == Ok::<Option<Seq<u8>>, Missing>(Some(b.take(4))),
        m.fetch(addr, 8) == Ok::<Option<Seq<u8>>, Missing>(Some(b)),
    ensures
        ({
            let low = b[0] + 0x100 * b[1] + 0x1_0000 * b[2] + 0x100_0000 * b[3];
            let all = low + 0x1_0000_0000 * b[4] + 0x100_0000_0000 * b[5] + 0x1_0000_0000_0000
                * b[6] + 0x100_0000_0000_0000 * b[7];
            &&& m.holds::<u8>(addr, b[0])
            &&& m.value::<u16>(addr) matches Ok(Some(v)) && v == b[0] + 0x100 * b[1]
            &&& m.value::<u32>(addr) matches Ok(Some(v)) && v == low
            &&& m.value::<u64>(addr) matches Ok(Some(v)) && v == all
            &&& m.value::<i32>(addr) matches Ok(Some(v)) && v == (if b[3] < 0x80 {
                low
            } else {
                low - 0x1_0000_0000
            })
            &&& m.value::<i64>(addr) matches Ok(Some(v)) && v == (if b[7] < 0x80 {
                all
            } else {
                all - 0x1_0000_0000_0000_0000
            })
        }),
{
    reveal_with_fuel(crate::mem::le, 9);
    let (b1, b2, b4) = (b.take(1), b.take(2), b.take(4));
    assert(crate::mem::le(b1) == b[0]);
    assert(crate::mem::le(b2) == b[0] + 0x100 * b[1]);
    assert(crate::mem::le(b4) == b[0] + 0x100 * b[1] + 0x1_0000 * b[2] + 0x100_0000 * b[3]);
    assert(crate::mem::le(b) == b[0] + 0x100 * b[1] + 0x1_0000 * b[2] + 0x100_0000 * b[3]
        + 0x1_0000_0000 * b[4] + 0x100_0000_0000 * b[5] + 0x1_0000_0000_0000 * b[6]
        + 0x100_0000_0000_0000 * b[7]);
}

/// A number whose bytes cannot be read is no number, and one whose bytes are not known
/// is asked for.
pub proof fn lemma_numbers_need_their_bytes(m: Memory, addr: u64)
    ensures
        m.value::<u8>(addr) is Err <==> m.fetch(addr, 1) is Err,
        m.value::<u16>(addr) is Err <==> m.fetch(addr, 2) is Err,
        m.value::<u32>(addr) is Err <==> m.fetch(addr, 4) is Err,
        m.value::<i32>(addr) is Err <==> m.fetch(addr, 4) is Err,
        m.value::<u64>(addr) is Err <==> m.fetch(addr, 8) is Err,
        m.value::<i64>(addr) is Err <==> m.fetch(addr, 8) is Err,
        m.value::<u32>(addr) matches Ok(None) <==> m.fetch(addr, 4) matches Ok(None),
        m.value::<i32>(addr) matches Ok(None) <==> m.fetch(addr, 4) matches Ok(None),
        m.value::<u64>(addr) matches Ok(None) <==> m.fetch(addr, 8) matches Ok(None),
        m.value::<u8>(addr) matches Ok(None) <==> m.fetch(addr, 1) matches Ok(None),
        m.value::<u16>(addr) matches Ok(None) <==> m.fetch(addr, 2) matches Ok(None),
        m.value::<i64>(addr) matches Ok(None) <==> m.fetch(addr, 8) matches Ok(None),
{
}

/// A pointer is a 64-bit number other than zero.
pub proof fn lemma_pointers_are_not_null(m: Memory, addr: u64, p: u64)
    ensures
        p != 0 && m.holds::<u64>(addr, p) <==> m.pointer(addr) == Ok::<Option<u64>, Missing>(
            Some(p),
        ),
        m.holds::<u64>(addr, 0) ==> m.pointer(addr) == Ok::<Option<u64>, Missing>(None),
        m.value::<u64>(addr) == Ok::<Option<u64>, Missing>(None) ==> m.pointer(addr) == Ok::<
            Option<u64>,
            Missing,
        >(None),
{
}

/// A default stands in for a number that cannot be read, and for no other.
pub proof fn lemma_defaults_stand_in(m: Memory, addr: u64, v: u64, w: u32, x: i32, y: u8)
    ensures
        forall|d: u64|
            m.holds::<u64>(addr, v) ==> #[trigger] m.value_or::<u64>(addr, d) == Ok::<
                u64,
                Missing,
            >(v),
        forall|d: u32|
            m.holds::<u32>(addr, w) ==> #[trigger] m.value_or::<u32>(addr, d) == Ok::<
                u32,
                Missing,
            >(w),
        forall|d: i32|
            m.holds::<i32>(addr, x) ==> #[trigger] m.value_or::<i32>(addr, d) == Ok::<
                i32,
                Missing,
            >(x),
        forall|d: u8|
            m.holds::<u8>(addr, y) ==> #[trigger] m.value_or::<u8>(addr, d) == Ok::<u8, Missing>(
                y,
            ),
        m.value::<u64>(addr) == Ok::<Option<u64>, Missing>(None) ==> m.value_or::<u64>(addr, v)
            == Ok::<u64, Missing>(v),
        m.value::<u32>(addr) == Ok::<Option<u32>, Missing>(None) ==> m.value_or::<u32>(addr, w)
            == Ok::<u32, Missing>(w),
        m.value::<i32>(addr) == Ok::<Option<i32>, Missing>(None) ==> m.value_or::<i32>(addr, x)
            == Ok::<i32, Missing>(x),
        m.value::<u8>(addr) == Ok::<Option<u8>, Missing>(None) ==> m.value_or::<u8>(addr, y)
            == Ok::<u8, Missing>(y),
{
}

/// A read needs the pages from that of its first byte to that of its last, and no others.
pub proof fn lemma_pages_of_a_read(read: Missing, page: u64)
    requires
        read.addr + read.len <= 0x1_0000_0000_0000_0000,
    ensures
        read.touches(page) <==> read.len > 0 && read.addr / 4096 <= page && page <= (read.addr
            + read.len - 1) / 4096,
{
    if read.len > 0 && read.addr / 4096 <= page && page <= (read.addr + read.len - 1) / 4096 {
        let a: int = if read.addr / 4096 == page {
            read.addr as int
        } else {
            page * 4096
        };
        assert(crate::mem::page_of(a) == page);
    }
}

/// At first nothing has been fetched, and every read of a byte is asked for.
pub proof fn lemma_nothing_at_first(addr: u64, len: usize)
    requires
        0 < len,
        addr + len <= 0x1_0000_0000_0000_0000,
    ensures
        Memory::empty().fetch(addr, len) == Err::<Option<Seq<u8>>, Missing>((Missing { addr, len })),
{
    assert(!Memory::empty().pages.contains_key(crate::mem::page_of(addr as int)));
}

/// A page once fetched keeps the answer that it was fetched with.
pub proof fn lemma_first_answer_stands(m: Memory, page: u64, one: Option<Seq<u8>>, other: Option<Seq<u8>>)
    ensures
        !m.pages.contains_key(page) ==> m.with_page(page, one).with_page(page, other).pages[page]
            == one,
        forall|p: u64|
            p != page ==> (#[trigger] m.with_page(page, one).pages.contains_key(p)
                == m.pages.contains_key(p) && m.with_page(page, one).pages[p] == m.pages[p]),
{
}

} // verus!
