//! The memory of another process, as far as it has been fetched.
//!
//! A [`ProcessHandle`] holds the pages fetched so far. A read of bytes that are all
//! known is answered, a read that needs another page asks for it: it comes back as
//! [`Missing`], and can be made again once its pages have been inserted.

use std::collections::HashMap;
use vstd::prelude::*;

verus! {

broadcast use vstd::std_specs::hash::group_hash_axioms;

/// Granularity at which remote memory is fetched and remembered.
pub const PAGE_SIZE: u64 = 4096;

/// A read that cannot be answered yet: some page of `[addr, addr + len)` has
/// not been fetched from the remote process.
#[derive(Clone, Copy, Debug, PartialEq, Eq, Structural)]
pub struct Missing {
    pub addr: u64,
    pub len: usize,
}

/// Either an answer, or the read that has to be fetched before there is one.
pub type Outcome<T> = Result<T, Missing>;

/// The deep view of an answer; a read that is asked for stays as it is.
pub open spec fn shown<T: DeepView>(r: Outcome<T>) -> Outcome<T::V> {
    match r {
        Ok(v) => Ok(v.deep_view()),
        Err(e) => Err(e),
    }
}

/// The items of a list that a computation came back with.
pub open spec fn listed<T>(r: Outcome<Vec<T>>) -> Outcome<Seq<T>> {
    match r {
        Ok(v) => Ok(v@),
        Err(e) => Err(e),
    }
}

/// The page that holds address `a`.
pub open spec fn page_of(a: int) -> u64 {
    (a / (PAGE_SIZE as int)) as u64
}

impl Missing {
    /// This read needs bytes of page `page`.
    pub open spec fn touches(self, page: u64) -> bool {
        exists|a: int|
            self.addr <= a < self.addr + self.len && a <= u64::MAX && page == #[trigger] page_of(a)
    }
}

/// The pages of a remote process fetched so far, by page number: `Some` holds
/// the readable bytes at the start of the page, `None` an unreadable page.
pub struct Memory {
    pub pages: Map<u64, Option<Seq<u8>>>,
}

impl Memory {
    /// Nothing has been fetched.
    pub open spec fn empty() -> Memory {
        Memory { pages: Map::empty() }
    }

    /// The byte at address `a`, if the page that holds it is known and readable there.
    pub open spec fn byte_at(self, a: int) -> Option<u8> {
        if self.pages.contains_key(page_of(a)) {
            match self.pages[page_of(a)] {
                Some(data) => if a % (PAGE_SIZE as int) < data.len() {
                    Some(data[a % (PAGE_SIZE as int)])
                } else {
                    None
                },
                None => None,
            }
        } else {
            None
        }
    }

    /// Every page of `[addr, addr + len)` has been fetched.
    pub open spec fn known(self, addr: int, len: int) -> bool {
        forall|a: int| addr <= a < addr + len ==> self.pages.contains_key(#[trigger] page_of(a))
    }

    /// What reading `len` bytes at `addr` gives: the bytes if all of them can be
    /// read, nothing if one of them cannot, and the read itself if a page of it
    /// has not been fetched.
    pub open spec fn fetch(self, addr: u64, len: usize) -> Outcome<Option<Seq<u8>>> {
        if addr + len > u64::MAX + 1 {
            Ok(None)
        } else if !self.known(addr as int, len as int) {
            Err(Missing { addr, len })
        } else if forall|a: int| addr <= a < addr + len ==> (#[trigger] self.byte_at(a)) is Some {
            Ok(Some(Seq::new(len as nat, |i: int| self.byte_at(addr + i)->0)))
        } else {
            Ok(None)
        }
    }

    /// The value of type `T` at `addr`; nothing if its bytes cannot all be read.
    pub open spec fn value<T: Scalar>(self, addr: u64) -> Outcome<Option<T>> {
        match self.fetch(addr, T::width()) {
            Err(e) => Err(e),
            Ok(None) => Ok(None),
            Ok(Some(bytes)) => Ok(Some(T::decode(bytes))),
        }
    }

    /// The value of type `T` at `addr`, or `default` if it cannot be read.
    pub open spec fn value_or<T: Scalar>(self, addr: u64, default: T) -> Outcome<T> {
        match self.value::<T>(addr) {
            Err(e) => Err(e),
            Ok(None) => Ok(default),
            Ok(Some(v)) => Ok(v),
        }
    }

    /// The non-null pointer at `addr`.
    pub open spec fn pointer(self, addr: u64) -> Outcome<Option<u64>> {
        match self.value::<u64>(addr) {
            Ok(Some(v)) => if v != 0 {
                Ok(Some(v))
            } else {
                Ok(None)
            },
            other => other,
        }
    }

    /// Memory once `page` has been fetched; the first answer for a page stands.
    pub open spec fn with_page(self, page: u64, data: Option<Seq<u8>>) -> Memory {
        if self.pages.contains_key(page) {
            self
        } else {
            Memory { pages: self.pages.insert(page, data) }
        }
    }

    /// `later` knows everything that `self` knows.
    pub open spec fn grows_to(self, later: Memory) -> bool {
        self.pages.submap_of(later.pages)
    }

    /// `before`, worked out over these pages, is settled: if it is an answer, it
    /// is also the answer `after` more pages have been fetched, and if it asks for
    /// a read, that read cannot be answered yet.
    pub open spec fn settles<T>(self, before: Outcome<T>, after: Outcome<T>) -> bool {
        match before {
            Ok(_) => after == before,
            Err(read) => self.fetch(read.addr, read.len) is Err,
        }
    }
}

/// The number that little-endian bytes stand for.
pub open spec fn le(bytes: Seq<u8>) -> nat
    decreases bytes.len(),
{
    if bytes.len() == 0 {
        0
    } else {
        bytes[0] as nat + 256 * le(bytes.drop_first())
    }
}

/// Little-endian bytes read as a two's complement number.
pub open spec fn le_signed(bytes: Seq<u8>, modulus: int) -> int {
    if 2 * le(bytes) < modulus {
        le(bytes) as int
    } else {
        le(bytes) - modulus
    }
}

/// The value of `N` little-endian bytes, for `N` at most eight.
proof fn lemma_le_unfold(b: Seq<u8>)
    ensures
        b.len() == 1 ==> le(b) == b[0],
        b.len() == 2 ==> le(b) == b[0] + 0x100 * b[1],
        b.len() == 4 ==> le(b) == b[0] + 0x100 * b[1] + 0x1_0000 * b[2] + 0x100_0000 * b[3],
        b.len() == 8 ==> le(b) == b[0] + 0x100 * b[1] + 0x1_0000 * b[2] + 0x100_0000 * b[3]
            + 0x1_0000_0000 * b[4] + 0x100_0000_0000 * b[5] + 0x1_0000_0000_0000 * b[6]
            + 0x100_0000_0000_0000 * b[7],
{
    reveal_with_fuel(le, 9);
}

/// Fixed-width little-endian numbers that can be read out of remote memory.
pub trait Scalar: Sized {
    /// How many bytes a value takes.
    spec fn width() -> usize;

    /// The value that `width()` bytes stand for.
    spec fn decode(bytes: Seq<u8>) -> Self;

    fn size() -> (n: usize)
        ensures
            n == Self::width(),
    ;

    fn from_le(bytes: &[u8]) -> (v: Self)
        requires
            bytes@.len() == Self::width(),
        ensures
            v == Self::decode(bytes@),
    ;
}

impl Scalar for u8 {
    open spec fn width() -> usize {
        1
    }

    open spec fn decode(bytes: Seq<u8>) -> Self {
        bytes[0]
    }

    fn size() -> (n: usize) {
        1
    }

    fn from_le(bytes: &[u8]) -> (v: Self) {
        bytes[0]
    }
}

impl Scalar for u16 {
    open spec fn width() -> usize {
        2
    }

    open spec fn decode(bytes: Seq<u8>) -> Self {
        le(bytes) as u16
    }

    fn size() -> (n: usize) {
        2
    }

    fn from_le(bytes: &[u8]) -> (v: Self) {
        proof {
            lemma_le_unfold(bytes@);
        }
        bytes[0] as u16 + 0x100 * (bytes[1] as u16)
    }
}

impl Scalar for u32 {
    open spec fn width() -> usize {
        4
    }

    open spec fn decode(bytes: Seq<u8>) -> Self {
        le(bytes) as u32
    }

    fn size() -> (n: usize) {
        4
    }

    fn from_le(bytes: &[u8]) -> (v: Self) {
        proof {
            lemma_le_unfold(bytes@);
        }
        bytes[0] as u32 + 0x100 * (bytes[1] as u32) + 0x1_0000 * (bytes[2] as u32) + 0x100_0000 * (
        bytes[3] as u32)
    }
}

impl Scalar for i32 {
    open spec fn width() -> usize {
        4
    }

    open spec fn decode(bytes: Seq<u8>) -> Self {
        le_signed(bytes, 0x1_0000_0000) as i32
    }

    fn size() -> (n: usize) {
        4
    }

    fn from_le(bytes: &[u8]) -> (v: Self) {
        proof {
            lemma_le_unfold(bytes@);
        }
        let low: i64 = bytes[0] as i64 + 0x100 * (bytes[1] as i64) + 0x1_0000 * (bytes[2] as i64)
            + 0x100_0000 * (bytes[3] as i64);
        if low < 0x8000_0000 {
            low as i32
        } else {
            (low - 0x1_0000_0000) as i32
        }
    }
}

impl Scalar for u64 {
    open spec fn width() -> usize {
        8
    }

    open spec fn decode(bytes: Seq<u8>) -> Self {
        le(bytes) as u64
    }

    fn size() -> (n: usize) {
        8
    }

    fn from_le(bytes: &[u8]) -> (v: Self) {
        assert(bytes@.take(8) =~= bytes@);
        read_u64_le(bytes)
    }
}

impl Scalar for i64 {
    open spec fn width() -> usize {
        8
    }

    open spec fn decode(bytes: Seq<u8>) -> Self {
        le_signed(bytes, 0x1_0000_0000_0000_0000) as i64
    }

    fn size() -> (n: usize) {
        8
    }

    fn from_le(bytes: &[u8]) -> (v: Self) {
        proof {
            lemma_le_unfold(bytes@);
            assert(bytes@.take(8) =~= bytes@);
        }
        let low: u64 = read_u64_le(bytes);
        if low < 0x8000_0000_0000_0000 {
            low as i64
        } else {
            (low as i128 - 0x1_0000_0000_0000_0000) as i64
        }
    }
}

/// Read the first 8 bytes as a little-endian u64.
pub fn read_u64_le(bytes: &[u8]) -> (v: u64)
    requires
        bytes@.len() >= 8,
    ensures
        v == le(bytes@.take(8)),
{
    proof {
        lemma_le_unfold(bytes@.take(8));
    }
    bytes[0] as u64 + 0x100 * (bytes[1] as u64) + 0x1_0000 * (bytes[2] as u64) + 0x100_0000 * (
    bytes[3] as u64) + 0x1_0000_0000 * (bytes[4] as u64) + 0x100_0000_0000 * (bytes[5] as u64)
        + 0x1_0000_0000_0000 * (bytes[6] as u64) + 0x100_0000_0000_0000 * (bytes[7] as u64)
}

/// The readable bytes of a page.
pub open spec fn page_bytes(page: Option<Vec<u8>>) -> Option<Seq<u8>> {
    match page {
        Some(data) => Some(data@),
        None => None,
    }
}

/// The pages fetched so far.
pub struct PageTable {
    pages: HashMap<u64, Option<Vec<u8>>>,
}

impl View for PageTable {
    type V = Memory;

    closed spec fn view(&self) -> Memory {
        Memory { pages: self.pages@.map_values(|page: Option<Vec<u8>>| page_bytes(page)) }
    }
}

impl PageTable {
    pub fn new() -> (table: Self)
        ensures
            table@ == Memory::empty(),
    {
        let table = PageTable { pages: HashMap::new() };
        assert(table@.pages =~= Map::empty());
        table
    }

    pub fn contains(&self, page: u64) -> (known: bool)
        ensures
            known == self@.pages.contains_key(page),
    {
        self.pages.contains_key(&page)
    }

    /// The readable bytes of a page that has been fetched.
    fn get(&self, page: u64) -> (data: Option<&Vec<u8>>)
        requires
            self@.pages.contains_key(page),
        ensures
            self@.pages[page] == (match data {
                Some(d) => Some(d@),
                None => None,
            }),
    {
        match self.pages.get(&page) {
            Some(Some(data)) => Some(data),
            _ => None,
        }
    }

    /// Remember what fetching page number `page` gave. What is already known of
    /// a page stays as it is.
    pub fn insert(&mut self, page: u64, data: Option<Vec<u8>>)
        ensures
            final(self)@ == old(self)@.with_page(page, page_bytes(data)),
    {
        if !self.pages.contains_key(&page) {
            self.pages.insert(page, data);
            assert(self@.pages =~= old(self)@.pages.insert(page, page_bytes(data)));
        }
    }
}

/// A remote process: its image base, and the part of its memory fetched so far.
pub struct ProcessHandle {
    pub pid: u32,
    pub base: u64,
    pub pages: PageTable,
}

/// A handle stands for the memory behind it; the id and the base of the process are
/// fields of their own.
impl View for ProcessHandle {
    type V = Memory;

    open spec fn view(&self) -> Memory {
        self.pages@
    }
}

impl ProcessHandle {
    /// A process of which nothing has been fetched yet.
    pub fn new(pid: u32, base: u64) -> (proc: Self)
        ensures
            proc.pid == pid,
            proc.base == base,
            proc@ == Memory::empty(),
    {
        ProcessHandle { pid, base, pages: PageTable::new() }
    }

    /// Remember what fetching page number `page` gave.
    pub fn insert_page(&mut self, page: u64, data: Option<Vec<u8>>)
        ensures
            final(self).pid == old(self).pid,
            final(self).base == old(self).base,
            final(self)@ == old(self)@.with_page(page, page_bytes(data)),
    {
        self.pages.insert(page, data);
    }

    /// The pages that have to be fetched before `read` can be answered, in order.
    pub fn missing_pages(&self, read: Missing) -> (wanted: Vec<u64>)
        ensures
            forall|p: u64|
                #[trigger] wanted@.contains(p) <==> read.touches(p) && !self@.pages.contains_key(p),
            forall|i: int, j: int| 0 <= i < j < wanted@.len() ==> wanted@[i] < wanted@[j],
    {
        let mut wanted: Vec<u64> = Vec::new();
        if read.len == 0 {
            return wanted;
        }
        let span: u64 = (read.len - 1) as u64;
        let end: u64 = if span > u64::MAX - read.addr {
            u64::MAX
        } else {
            read.addr + span
        };
        let first: u64 = read.addr / PAGE_SIZE;
        let last: u64 = end / PAGE_SIZE;
        let mut page: u64 = first;
        while page <= last
            invariant
                first <= page <= last + 1,
                last <= u64::MAX / PAGE_SIZE,
                forall|p: u64| #[trigger]
                    wanted@.contains(p) <==> first <= p < page && !self@.pages.contains_key(p),
                forall|i: int, j: int| 0 <= i < j < wanted@.len() ==> wanted@[i] < wanted@[j],
            decreases last + 1 - page,
        {
            let ghost before = wanted@;
            if !self.pages.contains(page) {
                assert(forall|i: int|
                    0 <= i < before.len() ==> before.contains(#[trigger] before[i]));
                wanted.push(page);
                assert forall|p: u64| #[trigger] wanted@.contains(p) <==> before.contains(p) || p == page by {
                    if before.contains(p) {
                        let i = before.index_of(p);
                        assert(wanted@[i] == p);
                    }
                    assert(wanted@[before.len() as int] == page);
                }
            }
            page = page + 1;
        }
        assert forall|p: u64| first <= p <= last <==> #[trigger] read.touches(p) by {
            if first <= p <= last {
                let start = p * PAGE_SIZE;
                let a = if start < read.addr { read.addr as int } else { start };
                assert(p == page_of(a));
            }
        }
        wanted
    }

    /// Read `len` bytes into a Vec.
    pub fn read_bytes(&self, addr: u64, len: usize) -> (r: Outcome<Option<Vec<u8>>>)
        ensures
            bytes_outcome(r) == self@.fetch(addr, len),
    {
        if len == 0 {
            let out: Vec<u8> = Vec::new();
            assert(out@ =~= Seq::new(0, |i: int| self@.byte_at(addr + i)->0));
            return Ok(Some(out));
        }
        let span: u64 = (len - 1) as u64;
        if span > u64::MAX - addr {
            return Ok(None);
        }
        let first: u64 = addr / PAGE_SIZE;
        let last: u64 = (addr + span) / PAGE_SIZE;
        let mut page: u64 = first;
        while page <= last
            invariant
                first <= page <= last + 1,
                last <= u64::MAX / PAGE_SIZE,
                first == addr / PAGE_SIZE,
                last == (addr + span) / (PAGE_SIZE as int),
                span == len - 1,
                addr + span <= u64::MAX,
                forall|p: u64| first <= p < page ==> self@.pages.contains_key(p),
            decreases last + 1 - page,
        {
            if !self.pages.contains(page) {
                proof {
                    let start = page * PAGE_SIZE;
                    let a = if start < addr { addr as int } else { start };
                    assert(addr <= a < addr + len);
                    assert(page_of(a) == page);
                }
                return Err(Missing { addr, len });
            }
            page = page + 1;
        }
        assert(self@.known(addr as int, len as int)) by {
            assert forall|a: int| addr <= a < addr + len implies self@.pages.contains_key(
                #[trigger] page_of(a),
            ) by {
                assert(first <= page_of(a) <= last);
            }
        }
        let mut out: Vec<u8> = Vec::with_capacity(len);
        let mut done: usize = 0;
        while done < len
            invariant
                done <= len,
                span == len - 1,
                addr + span <= u64::MAX,
                self@.known(addr as int, len as int),
                out@.len() == done,
                forall|i: int|
                    0 <= i < done ==> self@.byte_at(addr + i) == Some(#[trigger] out@[i]),
            decreases len - done,
        {
            let a: u64 = addr + done as u64;
            let page: u64 = a / PAGE_SIZE;
            let skip: usize = (a % PAGE_SIZE) as usize;
            let room: usize = PAGE_SIZE as usize - skip;
            let take: usize = if len - done < room { len - done } else { room };
            assert(page_of(a as int) == page);
            match self.pages.get(page) {
                None => {
                    assert(self@.byte_at(a as int) is None);
                    return Ok(None);
                },
                Some(data) => {
                    if data.len() < skip + take {
                        proof {
                            let bad = if data.len() < skip { a as int } else { a + (data.len() - skip) };
                            assert(page_of(bad) == page);
                            assert(self@.byte_at(bad) is None);
                            assert(addr <= bad < addr + len);
                        }
                        return Ok(None);
                    }
                    let ghost before = out@;
                    out.extend_from_slice(
                        vstd::slice::slice_subrange(data.as_slice(), skip, skip + take),
                    );
                    assert(out@ =~= before + data@.subrange(skip as int, skip + take));
                    assert forall|i: int| 0 <= i < done + take implies self@.byte_at(addr + i)
                        == Some(#[trigger] out@[i]) by {
                        if i < done {
                            assert(out@[i] == before[i]);
                        } else {
                            assert(page_of(addr + i) == page);
                        }
                    }
                    done = done + take;
                },
            }
        }
        assert(forall|a: int| addr <= a < addr + len ==> (#[trigger] self@.byte_at(a)) is Some) by {
            assert forall|a: int| addr <= a < addr + len implies (#[trigger] self@.byte_at(a)) is Some by {
                assert(self@.byte_at(addr + (a - addr)) == Some(out@[a - addr]));
            }
        }
        assert(out@ =~= Seq::new(len as nat, |i: int| self@.byte_at(addr + i)->0));
        Ok(Some(out))
    }

    /// Read a `T` from remote process memory.
    pub fn read<T: Scalar>(&self, addr: u64) -> (r: Outcome<Option<T>>)
        ensures
            r == self@.value::<T>(addr),
    {
        match self.read_bytes(addr, T::size())? {
            Some(bytes) => Ok(Some(T::from_le(bytes.as_slice()))),
            None => Ok(None),
        }
    }

    /// Read a `T`, or take `default` where it cannot be read.
    pub fn read_or<T: Scalar>(&self, addr: u64, default: T) -> (r: Outcome<T>)
        ensures
            r == self@.value_or::<T>(addr, default),
    {
        match self.read::<T>(addr)? {
            Some(v) => Ok(v),
            None => Ok(default),
        }
    }

    /// Read a non-null 64-bit pointer.
    pub fn ptr(&self, addr: u64) -> (r: Outcome<Option<u64>>)
        ensures
            r == self@.pointer(addr),
    {
        match self.read::<u64>(addr)? {
            Some(v) => if v != 0 {
                Ok(Some(v))
            } else {
                Ok(None)
            },
            None => Ok(None),
        }
    }
}

/// The bytes that a read came back with.
pub open spec fn bytes_outcome(r: Outcome<Option<Vec<u8>>>) -> Outcome<Option<Seq<u8>>> {
    match r {
        Ok(data) => Ok(page_bytes(data)),
        Err(e) => Err(e),
    }
}

// ── Laws ────────────────────────────────────────────────────────────

/// Fetching more pages never changes what a read has already given, and a read
/// that is asked for is one that cannot be answered yet.
pub broadcast proof fn lemma_fetch_settled(m: Memory, m2: Memory, addr: u64, len: usize)
    requires
        #[trigger] m.grows_to(m2),
    ensures
        m.settles(#[trigger] m.fetch(addr, len), m2.fetch(addr, len)),
{
    if m.fetch(addr, len) is Ok && addr + len <= u64::MAX + 1 {
        assert forall|a: int| addr <= a < addr + len implies m.pages.contains_key(page_of(a))
            && m2.pages.contains_key(#[trigger] page_of(a)) && m2.byte_at(a) == m.byte_at(a) by {
            assert(m.pages.dom().contains(page_of(a)));
        }
        assert(m2.known(addr as int, len as int));
        assert forall|a: int| addr <= a < addr + len implies #[trigger] m2.byte_at(a) == m.byte_at(
            a,
        ) by {
            assert(m2.pages.contains_key(page_of(a)));
        }
        assert forall|a: int| addr <= a < addr + len implies m2.byte_at(a) == #[trigger] m.byte_at(
            a,
        ) by {
            assert(m2.pages.contains_key(page_of(a)));
        }
        assert(Seq::new(len as nat, |i: int| m.byte_at(addr + i)->0) =~= Seq::new(
            len as nat,
            |i: int| m2.byte_at(addr + i)->0,
        ));
    }
}

/// The same holds of the numbers that reads give.
pub broadcast proof fn lemma_value_settled<T: Scalar>(m: Memory, m2: Memory, addr: u64)
    requires
        #[trigger] m.grows_to(m2),
    ensures
        m.settles(#[trigger] m.value::<T>(addr), m2.value::<T>(addr)),
{
    lemma_fetch_settled(m, m2, addr, T::width());
}

/// Fetching a page keeps everything that is known.
pub proof fn lemma_with_page_grows(m: Memory, page: u64, data: Option<Seq<u8>>)
    ensures
        m.grows_to(m.with_page(page, data)),
        m.with_page(page, data).pages.contains_key(page),
{
}

/// What grows twice has grown.
pub proof fn lemma_grows_transitive(m: Memory, m2: Memory, m3: Memory)
    requires
        m.grows_to(m2),
        m2.grows_to(m3),
    ensures
        m.grows_to(m3),
{
    assert forall|page: u64| #[trigger] m.pages.dom().contains(page) implies m3.pages.dom().contains(
        page,
    ) && m.pages[page] == m3.pages[page] by {
        assert(m2.pages.dom().contains(page));
        assert(m3.pages.dom().contains(page));
    }
}

/// Once every page that a read touches has been fetched, the read is answered.
pub proof fn lemma_fetched_read_is_answered(m: Memory, read: Missing)
    requires
        forall|page: u64| read.touches(page) ==> m.pages.contains_key(page),
    ensures
        m.fetch(read.addr, read.len) is Ok,
{
    if read.addr + read.len <= u64::MAX + 1 {
        assert forall|a: int| read.addr <= a < read.addr + read.len implies m.pages.contains_key(
            #[trigger] page_of(a),
        ) by {
            assert(read.touches(page_of(a)));
        }
    }
}

/// A read that cannot be answered yet needs a page that has not been fetched.
pub proof fn lemma_asked_read_needs_a_page(m: Memory, read: Missing)
    requires
        m.fetch(read.addr, read.len) is Err,
    ensures
        exists|page: u64| #[trigger] read.touches(page) && !m.pages.contains_key(page),
{
    let a = choose|a: int|
        read.addr <= a < read.addr + read.len && !m.pages.contains_key(#[trigger] page_of(a));
    assert(read.touches(page_of(a)));
}

/// Reading inside a page gives back the bytes that the page was fetched with.
pub proof fn lemma_read_gives_fetched_bytes(
    m: Memory,
    page: u64,
    data: Seq<u8>,
    offset: usize,
    len: usize,
)
    requires
        !m.pages.contains_key(page),
        page <= u64::MAX / PAGE_SIZE,
        offset + len <= data.len() <= PAGE_SIZE,
    ensures
        m.with_page(page, Some(data)).fetch((page * PAGE_SIZE + offset) as u64, len) == Ok::<
            Option<Seq<u8>>,
            Missing,
        >(Some(data.subrange(offset as int, offset + len))),
{
    let m2 = m.with_page(page, Some(data));
    let addr = (page * PAGE_SIZE + offset) as u64;
    assert forall|a: int| addr <= a < addr + len implies #[trigger] page_of(a) == page
        && m2.byte_at(a) == Some(data[a - page * PAGE_SIZE]) by {
        assert(a / (PAGE_SIZE as int) == page);
    }
    assert forall|a: int| addr <= a < addr + len implies #[trigger] m2.byte_at(a) == Some(
        data[a - page * PAGE_SIZE],
    ) by {
        assert(page_of(a) == page);
    }
    assert(Seq::new(len as nat, |i: int| m2.byte_at(addr + i)->0) =~= data.subrange(
        offset as int,
        offset + len,
    ));
}

} // verus!
