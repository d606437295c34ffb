//! FUObjectArray: the engine's table of every live object.

pub use crate::mem::read_u64_le;
use crate::mem::{Memory, Outcome, ProcessHandle};
use crate::scanner::EngineLayout;
use crate::ue::fname::{FNamePool, Remote};
use crate::ue::offsets::{
    FUOBJECT_ITEM_OBJ, MAX_OBJECTS, MAX_OUTER_DEPTH, OBJECTS_PER_CHUNK,
    UOBJECT_ARRAY_NUM_ELEMENTS, UOBJECT_ARRAY_OBJECTS, UOBJECT_CLASS, UOBJECT_FNAME,
    UOBJECT_OUTER,
};
use vstd::prelude::*;
use vstd::string::*;

verus! {

broadcast use {
    crate::ue::fname::lemma_pool_keeps_itself,
    crate::ue::fname::lemma_pool_keeps_transitive,
};

/// A resolved UObject reference.
#[derive(Clone, Copy, Debug, PartialEq, Eq, Structural)]
pub struct UObjectRef {
    pub addr: u64,
    pub class_addr: u64,
    pub name_idx: u32,
    pub name_number: u32,
    pub outer_addr: u64,
}

/// Reads and caches the GObjects array.
pub struct GObjects {
    /// All non-null UObject addresses with their basic fields.
    pub objects: Vec<UObjectRef>,
}

// ── Names of objects ────────────────────────────────────────────────

impl Remote {
    /// The name of the UObject at `addr`.
    pub open spec fn object_name(self, addr: u64) -> Outcome<Option<Seq<char>>> {
        self.name_at(addr.wrapping_add(UOBJECT_FNAME))
    }

    /// The names of the UObject at `addr` and of the objects around it, outermost
    /// first, `fuel` of them at most; nothing if one of them has no name.
    pub open spec fn path(self, addr: u64, fuel: nat) -> Outcome<Option<Seq<Seq<char>>>>
        decreases fuel,
    {
        if addr == 0 || fuel == 0 {
            Ok(Some(seq![]))
        } else {
            match self.object_name(addr) {
                Err(e) => Err(e),
                Ok(None) => Ok(None),
                Ok(Some(name)) => match self.mem.value_or::<u64>(
                    addr.wrapping_add(UOBJECT_OUTER),
                    0,
                ) {
                    Err(e) => Err(e),
                    Ok(outer) => match self.path(outer, (fuel - 1) as nat) {
                        Ok(Some(around)) => Ok(Some(around.push(name))),
                        other => other,
                    },
                },
            }
        }
    }

    /// The full path of the UObject at `addr`: Outer.Outer.Name
    pub open spec fn full_name(self, addr: u64) -> Outcome<Option<Seq<char>>> {
        match self.path(addr, MAX_OUTER_DEPTH as nat) {
            Ok(Some(parts)) => Ok(Some(crate::text::joined(parts, seq!['.']))),
            Ok(None) => Ok(None),
            Err(e) => Err(e),
        }
    }
}

/// Join names that stand innermost first.
fn join_outward(parts: &Vec<String>) -> (s: String)
    ensures
        s@ == crate::text::joined(parts.deep_view().reverse(), seq!['.']),
{
    let mut out = String::new();
    let ghost names = parts.deep_view().reverse();
    let mut i: usize = parts.len();
    proof {
        reveal_strlit(".");
        assert("."@ =~= seq!['.']);
        assert(names.take(0) =~= seq![]);
    }
    while i > 0
        invariant
            i <= parts@.len(),
            names == parts.deep_view().reverse(),
            "."@ == seq!['.'],
            out@ == crate::text::joined(names.take(parts@.len() - i), seq!['.']),
        decreases i,
    {
        i = i - 1;
        let ghost done = parts@.len() - i;
        assert(names.take(done).drop_last() =~= names.take(done - 1));
        assert(names.take(done).last() == parts@[i as int]@);
        if i + 1 < parts.len() {
            out.append(".");
        }
        let ghost before = out@;
        out.append(parts[i].as_str());
        proof {
            if done == 1 {
                assert(before =~= seq![]);
                assert(out@ =~= parts@[i as int]@);
            }
        }
    }
    assert(names.take(parts@.len() as int) =~= names);
    out
}

impl GObjects {
    /// Build the full path for a UObject: Outer.Outer.Name
    pub fn full_name(&self, proc: &ProcessHandle, names: &mut FNamePool, addr: u64) -> (r: Outcome<
        Option<String>,
    >)
        ensures
            crate::mem::shown(r) == old(names).remote(proc@).full_name(addr),
            final(names).same(*old(names), proc@),
    {
        let mut parts: Vec<String> = Vec::new();
        let mut current: u64 = addr;
        let mut depth: usize = 0;
        let ghost remote = names.remote(proc@);
        proof {
            match remote.path(addr, MAX_OUTER_DEPTH as nat) {
                Ok(Some(rest)) => {
                    assert(rest + parts.deep_view().reverse() =~= rest);
                },
                _ => {},
            }
        }
        while current != 0 && depth < MAX_OUTER_DEPTH
            invariant
                depth <= MAX_OUTER_DEPTH,
                names.same(*old(names), proc@),
                remote == old(names).remote(proc@),
                remote.path(addr, MAX_OUTER_DEPTH as nat) == (match remote.path(
                    current,
                    (MAX_OUTER_DEPTH - depth) as nat,
                ) {
                    Ok(Some(rest)) => Ok(Some(rest + parts.deep_view().reverse())),
                    other => other,
                }),
            decreases MAX_OUTER_DEPTH - depth,
        {
            assert(names.remote(proc@) == remote);
            let name = match names.resolve(proc, current.wrapping_add(UOBJECT_FNAME))? {
                Some(name) => name,
                None => {
                    return Ok(None);
                },
            };
            let outer: u64 = proc.read_or::<u64>(current.wrapping_add(UOBJECT_OUTER), 0)?;
            let ghost before = parts.deep_view();
            parts.push(name);
            proof {
                assert(parts.deep_view() =~= before.push(name@));
                match remote.path(outer, (MAX_OUTER_DEPTH - depth - 1) as nat) {
                    Ok(Some(rest)) => {
                        assert(rest.push(name@) + before.reverse() =~= rest
                            + parts.deep_view().reverse());
                    },
                    _ => {},
                }
            }
            current = outer;
            depth = depth + 1;
        }
        proof {
            assert(Seq::<Seq<char>>::empty() + parts.deep_view().reverse()
                =~= parts.deep_view().reverse());
        }
        Ok(Some(join_outward(&parts)))
    }
}

// ── The object array ────────────────────────────────────────────────

/// How many chunks hold `num` elements.
pub open spec fn chunk_count(num: int) -> int {
    (num + OBJECTS_PER_CHUNK - 1) / (OBJECTS_PER_CHUNK as int)
}

/// How many elements stand in chunk number `chunk`.
pub open spec fn elements_in(num: int, chunk: int) -> int {
    if num - chunk * OBJECTS_PER_CHUNK < OBJECTS_PER_CHUNK {
        num - chunk * OBJECTS_PER_CHUNK
    } else {
        OBJECTS_PER_CHUNK as int
    }
}

/// The 64-bit numbers that `bytes` hold.
pub open spec fn words(bytes: Seq<u8>) -> Seq<u64> {
    Seq::new(
        bytes.len() / 8,
        |i: int| crate::mem::le(bytes.subrange(8 * i, 8 * i + 8)) as u64,
    )
}

impl Memory {
    /// The UObject at `addr`.
    pub open spec fn object_ref(self, addr: u64) -> Outcome<Option<UObjectRef>> {
        let class_addr = self.value::<u64>(addr.wrapping_add(UOBJECT_CLASS));
        let name_idx = self.value::<u32>(addr.wrapping_add(UOBJECT_FNAME));
        let name_number = self.value::<u32>(addr.wrapping_add(UOBJECT_FNAME).wrapping_add(4));
        let outer_addr = self.value_or::<u64>(addr.wrapping_add(UOBJECT_OUTER), 0);
        match class_addr {
            Err(e) => Err(e),
            Ok(None) => Ok(None),
            Ok(Some(class_addr)) => match name_idx {
                Err(e) => Err(e),
                Ok(None) => Ok(None),
                Ok(Some(name_idx)) => match name_number {
                    Err(e) => Err(e),
                    Ok(None) => Ok(None),
                    Ok(Some(name_number)) => match outer_addr {
                        Err(e) => Err(e),
                        Ok(outer_addr) => Ok(
                            Some(UObjectRef { addr, class_addr, name_idx, name_number, outer_addr }),
                        ),
                    },
                },
            },
        }
    }

    /// The FUObjectArray at `addr`: its element count, which is above zero and at
    /// most `MAX_OBJECTS`, and its chunk pointers.
    pub open spec fn object_array(self, addr: u64) -> Outcome<Option<(int, Seq<u64>)>> {
        match self.pointer(addr.wrapping_add(UOBJECT_ARRAY_OBJECTS)) {
            Err(e) => Err(e),
            Ok(None) => Ok(None),
            Ok(Some(chunks_ptr)) => match self.value::<i32>(
                addr.wrapping_add(UOBJECT_ARRAY_NUM_ELEMENTS),
            ) {
                Err(e) => Err(e),
                Ok(None) => Ok(None),
                Ok(Some(num)) => if num <= 0 || num > MAX_OBJECTS {
                    Ok(None)
                } else {
                    match self.fetch(chunks_ptr, (8 * chunk_count(num as int)) as usize) {
                        Err(e) => Err(e),
                        Ok(None) => Ok(None),
                        Ok(Some(bytes)) => Ok(Some((num as int, words(bytes)))),
                    }
                },
            },
        }
    }

    /// The object that the FUObjectItem at `off` of a chunk refers to.
    pub open spec fn item_ref(self, data: Seq<u8>, off: int) -> Outcome<Option<UObjectRef>> {
        let obj = crate::mem::le(data.subrange(off, off + 8)) as u64;
        if off + 8 > data.len() || obj == 0 {
            Ok(None)
        } else {
            self.object_ref(obj)
        }
    }

    /// The object that element number `k` of an object array refers to.
    pub open spec fn element(
        self,
        num: int,
        chunk_ptrs: Seq<u64>,
        item_size: usize,
        k: int,
    ) -> Outcome<Option<UObjectRef>> {
        let chunk = k / (OBJECTS_PER_CHUNK as int);
        let off = (k % (OBJECTS_PER_CHUNK as int)) * item_size + FUOBJECT_ITEM_OBJ;
        if chunk_ptrs[chunk] == 0 {
            Ok(None)
        } else {
            match self.fetch(chunk_ptrs[chunk], (elements_in(num, chunk) * item_size) as usize) {
                Err(e) => Err(e),
                Ok(None) => Ok(None),
                Ok(Some(data)) => self.item_ref(data, off),
            }
        }
    }

    /// Each element of an object array by its number.
    pub open spec fn elements(self, num: int, chunk_ptrs: Seq<u64>, item_size: usize) -> spec_fn(
        int,
    ) -> Outcome<Option<UObjectRef>> {
        |k: int| self.element(num, chunk_ptrs, item_size, k)
    }

    /// Every object of the FUObjectArray at `addr`, in order.
    pub open spec fn objects(self, addr: u64, item_size: usize) -> Outcome<
        Option<Seq<UObjectRef>>,
    > {
        match self.object_array(addr) {
            Err(e) => Err(e),
            Ok(None) => Ok(None),
            Ok(Some((num, chunk_ptrs))) => match crate::walk::collect(
                self.elements(num, chunk_ptrs, item_size),
                0,
                num,
            ) {
                Err(e) => Err(e),
                Ok(objects) => Ok(Some(objects)),
            },
        }
    }
}

/// Read the UObject at `addr`.
pub fn read_uobject_ref(proc: &ProcessHandle, addr: u64) -> (r: Outcome<Option<UObjectRef>>)
    ensures
        r == proc@.object_ref(addr),
{
    let class_addr: u64 = match proc.read::<u64>(addr.wrapping_add(UOBJECT_CLASS))? {
        Some(v) => v,
        None => {
            return Ok(None);
        },
    };
    let name_idx: u32 = match proc.read::<u32>(addr.wrapping_add(UOBJECT_FNAME))? {
        Some(v) => v,
        None => {
            return Ok(None);
        },
    };
    let name_number: u32 = match proc.read::<u32>(
        addr.wrapping_add(UOBJECT_FNAME).wrapping_add(4),
    )? {
        Some(v) => v,
        None => {
            return Ok(None);
        },
    };
    let outer_addr: u64 = proc.read_or::<u64>(addr.wrapping_add(UOBJECT_OUTER), 0)?;
    Ok(Some(UObjectRef { addr, class_addr, name_idx, name_number, outer_addr }))
}

/// Read the object that the FUObjectItem at `off` of a chunk refers to.
fn read_item_ref(proc: &ProcessHandle, data: &[u8], off: usize) -> (r: Outcome<Option<UObjectRef>>)
    ensures
        r == proc@.item_ref(data@, off as int),
{
    if data.len() < 8 || off > data.len() - 8 {
        return Ok(None);
    }
    let word = vstd::slice::slice_subrange(data, off, off + 8);
    assert(word@.take(8) =~= word@);
    let obj_ptr: u64 = read_u64_le(word);
    if obj_ptr == 0 {
        return Ok(None);
    }
    read_uobject_ref(proc, obj_ptr)
}

/// Read the object that element number `k` of an object array refers to, out of the
/// bytes of the chunk that holds it.
fn read_element(
    proc: &ProcessHandle,
    data: &[u8],
    item_size: usize,
    k: usize,
    Ghost(num): Ghost<int>,
    Ghost(chunk_ptrs): Ghost<Seq<u64>>,
) -> (r: Outcome<Option<UObjectRef>>)
    requires
        OBJECTS_PER_CHUNK * item_size <= usize::MAX,
        chunk_ptrs[k as int / (OBJECTS_PER_CHUNK as int)] != 0,
        proc@.fetch(
            chunk_ptrs[k as int / (OBJECTS_PER_CHUNK as int)],
            (elements_in(num, k as int / (OBJECTS_PER_CHUNK as int)) * item_size) as usize,
        ) == Ok::<Option<Seq<u8>>, crate::mem::Missing>(Some(data@)),
    ensures
        r == proc@.element(num, chunk_ptrs, item_size, k as int),
{
    let i: usize = k % OBJECTS_PER_CHUNK;
    assert(i * item_size <= OBJECTS_PER_CHUNK * item_size) by (nonlinear_arith)
        requires
            i <= OBJECTS_PER_CHUNK,
            0 <= item_size,
    ;
    read_item_ref(proc, data, i * item_size + FUOBJECT_ITEM_OBJ)
}

/// Read the element count and the chunk pointers of the FUObjectArray at `addr`.
fn read_object_array(proc: &ProcessHandle, addr: u64) -> (r: Outcome<Option<(usize, Vec<u64>)>>)
    ensures
        proc@.object_array(addr) == (match r {
            Err(e) => Err(e),
            Ok(None) => Ok(None),
            Ok(Some((num, ptrs))) => Ok(Some((num as int, ptrs@))),
        }),
        r matches Ok(Some((num, ptrs))) ==> 0 < num <= MAX_OBJECTS && ptrs@.len() == chunk_count(
            num as int,
        ),
{
    let chunks_ptr: u64 = match proc.ptr(addr.wrapping_add(UOBJECT_ARRAY_OBJECTS))? {
        Some(p) => p,
        None => {
            return Ok(None);
        },
    };
    let num: i32 = match proc.read::<i32>(addr.wrapping_add(UOBJECT_ARRAY_NUM_ELEMENTS))? {
        Some(n) => n,
        None => {
            return Ok(None);
        },
    };
    if num <= 0 || num as usize > MAX_OBJECTS {
        return Ok(None);
    }
    let num_elements: usize = num as usize;
    let num_chunks: usize = (num_elements + OBJECTS_PER_CHUNK - 1) / OBJECTS_PER_CHUNK;
    let bytes = match proc.read_bytes(chunks_ptr, num_chunks * 8)? {
        Some(d) => d,
        None => {
            return Ok(None);
        },
    };
    let mut ptrs: Vec<u64> = Vec::with_capacity(num_chunks);
    let mut i: usize = 0;
    while i < num_chunks
        invariant
            i <= num_chunks <= MAX_OBJECTS,
            bytes@.len() == 8 * num_chunks,
            ptrs@.len() == i,
            forall|k: int|
                0 <= k < i ==> ptrs@[k] == crate::mem::le(
                    #[trigger] bytes@.subrange(8 * k, 8 * k + 8),
                ) as u64,
        decreases num_chunks - i,
    {
        let word = vstd::slice::slice_subrange(bytes.as_slice(), 8 * i, 8 * i + 8);
        assert(word@.take(8) =~= word@);
        let v: u64 = read_u64_le(word);
        ptrs.push(v);
        i = i + 1;
    }
    assert(ptrs@ =~= words(bytes@));
    Ok(Some((num_elements, ptrs)))
}

/// How far reading an object array has come. It saves the objects already read
/// while pages are fetched for the rest.
pub struct ObjectWalk {
    next: usize,
    objects: Vec<UObjectRef>,
}

impl ObjectWalk {
    /// The walk has come this far over the array at `addr`.
    pub closed spec fn sound(self, m: Memory, addr: u64, item_size: usize) -> bool {
        ||| self.next == 0 && self.objects@.len() == 0
        ||| (m.object_array(addr) matches Ok(Some((num, chunk_ptrs))) && self.next <= num
            && crate::walk::collect(
            m.elements(num, chunk_ptrs, item_size),
            0,
            self.next as int,
        ) == Ok::<Seq<UObjectRef>, crate::mem::Missing>(self.objects@))
    }

    /// A walk that has not begun.
    pub fn new() -> (walk: Self)
        ensures
            forall|m: Memory, addr: u64, item_size: usize|
                #[trigger] walk.sound(m, addr, item_size),
    {
        ObjectWalk { next: 0, objects: Vec::new() }
    }

    /// The objects of an array of `num` elements have been read up to this one.
    spec fn upto(self, m: Memory, num: int, chunk_ptrs: Seq<u64>, item_size: usize) -> bool {
        &&& self.next <= num
        &&& crate::walk::collect(m.elements(num, chunk_ptrs, item_size), 0, self.next as int)
            == Ok::<Seq<UObjectRef>, crate::mem::Missing>(self.objects@)
    }

    /// Read the elements up to number `end`, all of which stand in the chunk that holds
    /// `data`.
    fn read_chunk(
        &mut self,
        proc: &ProcessHandle,
        data: &[u8],
        item_size: usize,
        num: usize,
        chunk_ptrs: &Vec<u64>,
        end: usize,
    ) -> (r: Outcome<()>)
        requires
            old(self).upto(proc@, num as int, chunk_ptrs@, item_size),
            OBJECTS_PER_CHUNK * item_size <= usize::MAX,
            old(self).next < end <= num <= MAX_OBJECTS,
            (end - 1) / (OBJECTS_PER_CHUNK as int) == old(self).next as int / (
            OBJECTS_PER_CHUNK as int),
            ({
                let chunk = old(self).next as int / (OBJECTS_PER_CHUNK as int);
                &&& chunk_ptrs@[chunk] != 0
                &&& proc@.fetch(
                    chunk_ptrs@[chunk],
                    (elements_in(num as int, chunk) * item_size) as usize,
                ) == Ok::<Option<Seq<u8>>, crate::mem::Missing>(Some(data@))
            }),
        ensures
            final(self).upto(proc@, num as int, chunk_ptrs@, item_size),
            match r {
                Ok(_) => final(self).next == end,
                Err(e) => crate::walk::collect(
                    proc@.elements(num as int, chunk_ptrs@, item_size),
                    0,
                    num as int,
                ) == Err::<Seq<UObjectRef>, crate::mem::Missing>(e),
            },
    {
        let ghost begin = self.next as int;
        let ghost step = proc@.elements(num as int, chunk_ptrs@, item_size);
        while self.next < end
            invariant
                begin <= self.next <= end <= num <= MAX_OBJECTS,
                OBJECTS_PER_CHUNK * item_size <= usize::MAX,
                (end - 1) / (OBJECTS_PER_CHUNK as int) == begin / (OBJECTS_PER_CHUNK as int),
                chunk_ptrs@[begin / (OBJECTS_PER_CHUNK as int)] != 0,
                proc@.fetch(
                    chunk_ptrs@[begin / (OBJECTS_PER_CHUNK as int)],
                    (elements_in(num as int, begin / (OBJECTS_PER_CHUNK as int))
                        * item_size) as usize,
                ) == Ok::<Option<Seq<u8>>, crate::mem::Missing>(Some(data@)),
                step == proc@.elements(num as int, chunk_ptrs@, item_size),
                self.upto(proc@, num as int, chunk_ptrs@, item_size),
            decreases end - self.next,
        {
            let ghost k = self.next as int;
            proof {
                assert(k / (OBJECTS_PER_CHUNK as int) == begin / (OBJECTS_PER_CHUNK as int));
                crate::walk::lemma_collect_next(step, 0, k);
                if step(k) is Err {
                    crate::walk::lemma_collect_stop(step, 0, k, num as int);
                }
            }
            let found: Option<UObjectRef> = read_element(
                proc,
                data,
                item_size,
                self.next,
                Ghost(num as int),
                Ghost(chunk_ptrs@),
            )?;
            let ghost before = self.objects@;
            if let Some(obj) = found {
                self.objects.push(obj);
            }
            assert(self.objects@ =~= before + crate::walk::optional(found));
            self.next = self.next + 1;
        }
        Ok(())
    }
}

impl GObjects {
    /// Read the entire GObjects array using an explicit FUObjectArray address and
    /// the FUObjectItem stride of `layout`.
    ///
    /// The scanner ([`crate::scanner::scan`]) produces both.
    pub fn with_addr(
        proc: &ProcessHandle,
        gobjects_addr: u64,
        layout: EngineLayout,
        walk: &mut ObjectWalk,
    ) -> (r: Outcome<Option<Self>>)
        requires
            OBJECTS_PER_CHUNK * layout.fuobject_item_size <= usize::MAX,
            old(walk).sound(proc@, gobjects_addr, layout.fuobject_item_size),
        ensures
            proc@.objects(gobjects_addr, layout.fuobject_item_size) == (match r {
                Err(e) => Err(e),
                Ok(None) => Ok(None),
                Ok(Some(all)) => Ok(Some(all.objects@)),
            }),
            final(walk).sound(proc@, gobjects_addr, layout.fuobject_item_size),
    {
        let item_size: usize = layout.fuobject_item_size;
        let (num, chunk_ptrs) = match read_object_array(proc, gobjects_addr)? {
            Some(array) => array,
            None => {
                return Ok(None);
            },
        };
        let ghost step = proc@.elements(num as int, chunk_ptrs@, item_size);
        assert(proc@.object_array(gobjects_addr) == Ok::<
            Option<(int, Seq<u64>)>,
            crate::mem::Missing,
        >(Some((num as int, chunk_ptrs@))));
        assert(crate::walk::collect(step, 0, walk.next as int) == Ok::<
            Seq<UObjectRef>,
            crate::mem::Missing,
        >(walk.objects@)) by {
            if walk.next == 0 {
                assert(walk.objects@ =~= seq![]);
            }
        }
        while walk.next < num
            invariant
                num <= MAX_OBJECTS,
                item_size == layout.fuobject_item_size,
                OBJECTS_PER_CHUNK * item_size <= usize::MAX,
                chunk_ptrs@.len() == chunk_count(num as int),
                proc@.object_array(gobjects_addr) == Ok::<
                    Option<(int, Seq<u64>)>,
                    crate::mem::Missing,
                >(Some((num as int, chunk_ptrs@))),
                step == proc@.elements(num as int, chunk_ptrs@, item_size),
                walk.next <= num,
                crate::walk::collect(step, 0, walk.next as int) == Ok::<
                    Seq<UObjectRef>,
                    crate::mem::Missing,
                >(walk.objects@),
            decreases num - walk.next,
        {
            let chunk_idx: usize = walk.next / OBJECTS_PER_CHUNK;
            let start: usize = chunk_idx * OBJECTS_PER_CHUNK;
            let chunk_ptr: u64 = chunk_ptrs[chunk_idx];
            let remaining: usize = num - start;
            let count: usize = if remaining < OBJECTS_PER_CHUNK {
                remaining
            } else {
                OBJECTS_PER_CHUNK
            };
            let end: usize = start + count;
            let ghost begin = walk.next as int;
            assert(count * item_size <= OBJECTS_PER_CHUNK * item_size) by (nonlinear_arith)
                requires
                    count <= OBJECTS_PER_CHUNK,
                    0 <= item_size,
            ;
            let data = if chunk_ptr == 0 {
                None
            } else {
                match proc.read_bytes(chunk_ptr, count * item_size) {
                    Ok(data) => data,
                    Err(e) => {
                        proof {
                            crate::walk::lemma_collect_stop(step, 0, walk.next as int, num as int);
                        }
                        return Err(e);
                    },
                }
            };
            match data {
                None => {
                    proof {
                        assert forall|k: int| begin <= k < end implies #[trigger] step(k) == Ok::<
                            Option<UObjectRef>,
                            crate::mem::Missing,
                        >(None) by {
                            assert(k / (OBJECTS_PER_CHUNK as int) == chunk_idx);
                        }
                        crate::walk::lemma_collect_skip(step, 0, begin, end as int);
                    }
                    walk.next = end;
                },
                Some(data) => {
                    walk.read_chunk(proc, data.as_slice(), item_size, num, &chunk_ptrs, end)?;
                },
            }
        }
        let mut objects: Vec<UObjectRef> = Vec::new();
        std::mem::swap(&mut objects, &mut walk.objects);
        walk.next = 0;
        Ok(Some(GObjects { objects }))
    }
}

// ── A first look at the objects ─────────────────────────────────────

/// How many objects are named when the array is checked.
pub const VALIDATED_OBJECTS: usize = 20;

/// How many of `len` objects that is.
pub open spec fn validated_count(len: int) -> int {
    if len < VALIDATED_OBJECTS {
        len
    } else {
        VALIDATED_OBJECTS as int
    }
}

impl Remote {
    /// The name of an object that has been read, or `"???"` if it has none.
    pub open spec fn shown_name(self, obj: UObjectRef) -> Outcome<Option<Seq<char>>> {
        match self.names.name(obj.name_idx, obj.name_number) {
            Err(e) => Err(e),
            Ok(None) => Ok(Some("???"@)),
            Ok(Some(name)) => Ok(Some(name)),
        }
    }

    /// The names of `objects` by their number.
    pub open spec fn shown_names(self, objects: Seq<UObjectRef>) -> spec_fn(int) -> Outcome<
        Option<Seq<char>>,
    > {
        |i: int| self.shown_name(objects[i])
    }

    /// The names of the first few of `objects`.
    pub open spec fn first_names(self, objects: Seq<UObjectRef>) -> Outcome<Seq<Seq<char>>> {
        crate::walk::collect(
            self.shown_names(objects),
            0,
            validated_count(objects.len() as int),
        )
    }
}

impl GObjects {
    /// Name the first few objects, so that a reader can tell whether they make sense.
    pub fn validate(&self, proc: &ProcessHandle, names: &mut FNamePool) -> (r: Outcome<Vec<String>>)
        ensures
            crate::mem::shown(r) == old(names).remote(proc@).first_names(self.objects@),
            final(names).same(*old(names), proc@),
    {
        let count: usize = if self.objects.len() < VALIDATED_OBJECTS {
            self.objects.len()
        } else {
            VALIDATED_OBJECTS
        };
        let ghost remote = names.remote(proc@);
        let ghost step = remote.shown_names(self.objects@);
        let mut out: Vec<String> = Vec::new();
        assert(out.deep_view() =~= seq![]);
        let mut i: usize = 0;
        while i < count
            invariant
                i <= count <= self.objects@.len(),
                count == validated_count(self.objects@.len() as int),
                names.same(*old(names), proc@),
                remote == old(names).remote(proc@),
                step == remote.shown_names(self.objects@),
                crate::walk::collect(step, 0, i as int) == Ok::<
                    Seq<Seq<char>>,
                    crate::mem::Missing,
                >(out.deep_view()),
            decreases count - i,
        {
            let obj: UObjectRef = self.objects[i];
            proof {
                assert(names.remote(proc@) == remote);
                crate::walk::lemma_collect_next(step, 0, i as int);
            }
            let name = match names.resolve_index(proc, obj.name_idx, obj.name_number) {
                Ok(Some(name)) => name,
                Ok(None) => "???".to_owned(),
                Err(e) => {
                    proof {
                        crate::walk::lemma_collect_stop(step, 0, i as int, count as int);
                    }
                    return Err(e);
                },
            };
            let ghost before = out.deep_view();
            out.push(name);
            assert(out.deep_view() =~= before + crate::walk::optional(Some(name@)));
            i = i + 1;
        }
        Ok(out)
    }
}

// ── Laws ────────────────────────────────────────────────────────────

/// A full path names no more objects than the limit on outer objects says, even if
/// the objects around one another form a circle.
pub proof fn lemma_path_bounded(r: Remote, addr: u64, fuel: nat)
    ensures
        r.path(addr, fuel) matches Ok(Some(parts)) ==> parts.len() <= fuel,
    decreases fuel,
{
    if addr != 0 && fuel > 0 {
        match r.mem.value_or::<u64>(addr.wrapping_add(UOBJECT_OUTER), 0) {
            Ok(outer) => {
                lemma_path_bounded(r, outer, (fuel - 1) as nat);
            },
            Err(_) => {},
        }
    }
}

/// The last part of a path is the object's own name.
pub proof fn lemma_path_ends_with_name(r: Remote, addr: u64, fuel: nat)
    requires
        addr != 0,
        fuel > 0,
    ensures
        r.path(addr, fuel) matches Ok(Some(parts)) ==> parts.len() > 0 && r.object_name(addr)
            == Ok::<Option<Seq<char>>, crate::mem::Missing>(Some(parts.last())),
{
}

/// A path that ends before it is cut off is the same with less room for it.
proof fn lemma_path_room(r: Remote, addr: u64, fuel: nat)
    requires
        r.path(addr, fuel) matches Ok(Some(parts)) && parts.len() < fuel,
    ensures
        r.path(addr, (fuel - 1) as nat) == r.path(addr, fuel),
    decreases fuel,
{
    if addr != 0 {
        let outer = r.mem.value_or::<u64>(addr.wrapping_add(UOBJECT_OUTER), 0)->Ok_0;
        lemma_path_room(r, outer, (fuel - 1) as nat);
    }
}

/// The full name of an object is that of its outer object, a dot, and its own name;
/// without an outer object it is the name alone. A path of outer objects that fills
/// [`MAX_OUTER_DEPTH`] is left out: it is cut off at its outer end.
pub proof fn lemma_full_name_of_outer(r: Remote, addr: u64, outer: u64, name: Seq<char>)
    requires
        addr != 0,
        r.object_name(addr) == Ok::<Option<Seq<char>>, crate::mem::Missing>(Some(name)),
        r.mem.value_or::<u64>(addr.wrapping_add(UOBJECT_OUTER), 0) == Ok::<
            u64,
            crate::mem::Missing,
        >(outer),
        r.path(outer, MAX_OUTER_DEPTH as nat) matches Ok(Some(around)) ==> around.len()
            < MAX_OUTER_DEPTH,
    ensures
        outer == 0 ==> r.full_name(addr) == Ok::<Option<Seq<char>>, crate::mem::Missing>(
            Some(name),
        ),
        outer != 0 ==> match r.full_name(outer) {
            Ok(Some(full)) => r.full_name(addr) == Ok::<Option<Seq<char>>, crate::mem::Missing>(
                Some(full + seq!['.'] + name),
            ),
            _ => true,
        },
{
    match r.path(outer, MAX_OUTER_DEPTH as nat) {
        Ok(Some(around)) => {
            lemma_path_room(r, outer, MAX_OUTER_DEPTH as nat);
            let parts = around.push(name);
            assert(r.path(addr, MAX_OUTER_DEPTH as nat) == Ok::<
                Option<Seq<Seq<char>>>,
                crate::mem::Missing,
            >(Some(parts)));
            assert(parts.drop_last() =~= around);
            if outer != 0 {
                lemma_path_ends_with_name(r, outer, MAX_OUTER_DEPTH as nat);
            }
        },
        _ => {},
    }
}

proof fn lemma_path_settled(r: Remote, r2: Remote, addr: u64, fuel: nat)
    requires
        r.grows_to(r2),
    ensures
        r.mem.settles(r.path(addr, fuel), r2.path(addr, fuel)),
    decreases fuel,
{
    broadcast use {crate::mem::lemma_value_settled, crate::ue::fname::lemma_name_at_settled};

    if addr != 0 && fuel > 0 {
        match r.mem.value_or::<u64>(addr.wrapping_add(UOBJECT_OUTER), 0) {
            Ok(outer) => {
                lemma_path_settled(r, r2, outer, (fuel - 1) as nat);
            },
            Err(_) => {},
        }
    }
}

/// Fetching more pages never changes a full name.
pub broadcast proof fn lemma_full_name_settled(r: Remote, r2: Remote, addr: u64)
    requires
        #[trigger] r.grows_to(r2),
    ensures
        r.mem.settles(#[trigger] r.full_name(addr), r2.full_name(addr)),
{
    lemma_path_settled(r, r2, addr, MAX_OUTER_DEPTH as nat);
}

/// Fetching more pages never changes the names that a first look at the objects shows.
pub proof fn lemma_shown_names_settled(r: Remote, r2: Remote, objects: Seq<UObjectRef>, n: int)
    requires
        r.grows_to(r2),
    ensures
        r.mem.settles(
            crate::walk::collect(r.shown_names(objects), 0, n),
            crate::walk::collect(r2.shown_names(objects), 0, n),
        ),
{
    broadcast use crate::ue::fname::lemma_name_settled;

    let step = r.shown_names(objects);
    let later = r2.shown_names(objects);
    assert forall|i: int| 0 <= i < n implies r.mem.settles(#[trigger] step(i), later(i)) by {
        assert(r.mem.settles(r.shown_name(objects[i]), r2.shown_name(objects[i])));
    }
    crate::walk::lemma_collect_settled(r.mem, step, later, 0, n);
}

/// Fetching more pages never changes what is read of an object.
pub proof fn lemma_object_ref_settled(m: Memory, m2: Memory, addr: u64)
    requires
        m.grows_to(m2),
    ensures
        m.settles(m.object_ref(addr), m2.object_ref(addr)),
{
    broadcast use crate::mem::lemma_value_settled;

}

proof fn lemma_element_settled(
    m: Memory,
    m2: Memory,
    num: int,
    chunk_ptrs: Seq<u64>,
    item_size: usize,
    k: int,
)
    requires
        m.grows_to(m2),
    ensures
        m.settles(
            m.element(num, chunk_ptrs, item_size, k),
            m2.element(num, chunk_ptrs, item_size, k),
        ),
{
    broadcast use {crate::mem::lemma_value_settled, crate::mem::lemma_fetch_settled};

    let chunk = k / (OBJECTS_PER_CHUNK as int);
    let size = (elements_in(num, chunk) * item_size) as usize;
    match m.fetch(chunk_ptrs[chunk], size) {
        Ok(Some(data)) => {
            let off = (k % (OBJECTS_PER_CHUNK as int)) * item_size + FUOBJECT_ITEM_OBJ;
            let obj = crate::mem::le(data.subrange(off, off + 8)) as u64;
            assert(m.settles(m.object_ref(obj), m2.object_ref(obj)));
        },
        _ => {},
    }
}

proof fn lemma_elements_settled(
    m: Memory,
    m2: Memory,
    num: int,
    chunk_ptrs: Seq<u64>,
    item_size: usize,
    to: int,
)
    requires
        m.grows_to(m2),
    ensures
        m.settles(
            crate::walk::collect(m.elements(num, chunk_ptrs, item_size), 0, to),
            crate::walk::collect(m2.elements(num, chunk_ptrs, item_size), 0, to),
        ),
{
    let step = m.elements(num, chunk_ptrs, item_size);
    let later = m2.elements(num, chunk_ptrs, item_size);
    assert forall|k: int| 0 <= k < to implies m.settles(#[trigger] step(k), later(k)) by {
        lemma_element_settled(m, m2, num, chunk_ptrs, item_size, k);
    }
    crate::walk::lemma_collect_settled(m, step, later, 0, to);
}

proof fn lemma_object_array_settled(m: Memory, m2: Memory, addr: u64)
    requires
        m.grows_to(m2),
    ensures
        m.settles(m.object_array(addr), m2.object_array(addr)),
{
    broadcast use {crate::mem::lemma_value_settled, crate::mem::lemma_fetch_settled};

}

/// Fetching more pages never changes which objects an object array holds.
pub proof fn lemma_objects_settled(m: Memory, m2: Memory, addr: u64, item_size: usize)
    requires
        m.grows_to(m2),
    ensures
        m.settles(m.objects(addr, item_size), m2.objects(addr, item_size)),
{
    lemma_object_array_settled(m, m2, addr);
    match m.object_array(addr) {
        Ok(Some((num, chunk_ptrs))) => {
            lemma_elements_settled(m, m2, num, chunk_ptrs, item_size, num);
        },
        _ => {},
    }
}

/// A walk over an object array can go on after more pages have been fetched.
pub proof fn lemma_object_walk_keeps(
    walk: ObjectWalk,
    m: Memory,
    m2: Memory,
    addr: u64,
    item_size: usize,
)
    requires
        walk.sound(m, addr, item_size),
        m.grows_to(m2),
    ensures
        walk.sound(m2, addr, item_size),
{
    lemma_object_array_settled(m, m2, addr);
    match m.object_array(addr) {
        Ok(Some((num, chunk_ptrs))) => {
            lemma_elements_settled(m, m2, num, chunk_ptrs, item_size, walk.next as int);
        },
        _ => {},
    }
}

/// No object array holds a null object, or more objects than elements.
pub proof fn lemma_objects_are_elements(m: Memory, addr: u64, item_size: usize)
    ensures
        m.objects(addr, item_size) matches Ok(Some(objects)) ==> {
            &&& objects.len() <= MAX_OBJECTS
            &&& forall|i: int| 0 <= i < objects.len() ==> (#[trigger] objects[i]).addr != 0
        },
{
    match m.objects(addr, item_size) {
        Ok(Some(objects)) => {
            let (num, chunk_ptrs) = m.object_array(addr)->Ok_0->0;
            let step = m.elements(num, chunk_ptrs, item_size);
            crate::walk::lemma_collect_len(step, 0, num);
            assert forall|i: int| 0 <= i < objects.len() implies (#[trigger] objects[i]).addr != 0 by {
                let k = crate::walk::lemma_collect_from_steps(step, 0, num, i);
            }
        },
        _ => {},
    }
}

/// Every element that leads to an object is listed, at whatever stride the elements
/// stand.
pub proof fn lemma_every_element_is_listed(m: Memory, addr: u64, item_size: usize, k: int)
    requires
        m.objects(addr, item_size) matches Ok(Some(_)),
        m.object_array(addr) matches Ok(Some((num, chunk_ptrs))) && 0 <= k < num && m.element(
            num,
            chunk_ptrs,
            item_size,
            k,
        ) matches Ok(Some(_)),
    ensures
        m.object_array(addr) matches Ok(Some((num, chunk_ptrs))) && m.objects(
            addr,
            item_size,
        )->Ok_0->0.contains(m.element(num, chunk_ptrs, item_size, k)->Ok_0->0),
{
    let (num, chunk_ptrs) = m.object_array(addr)->Ok_0->0;
    crate::walk::lemma_collect_has_each(m.elements(num, chunk_ptrs, item_size), 0, num, k);
}

} // verus!
