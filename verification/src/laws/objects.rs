//! Objects: where the engine has them, and what their full names are.

use crate::mem::{Memory, Missing};
use crate::ue::fname::Remote;
use crate::ue::objects::UObjectRef;
use vstd::prelude::*;

verus! {

// ── Full names ──────────────────────────────────────────────────────

/// The name of an object stands at 0x18 of it; null has none.
pub proof fn lemma_object_name(r: Remote, addr: u64)
    ensures
        r.object_name(addr) == r.name_at(addr.wrapping_add(0x18)),
        addr != 0 ==> r.class_name(addr) == r.name_at(addr.wrapping_add(0x18)),
        r.class_name(0) == Ok::<Option<Seq<char>>, Missing>(None),
{
}

/// Node `i` has the address of the next one at 0x20.
pub open spec fn next_out(m: Memory, nodes: Seq<u64>, i: int) -> bool {
    m.value_or::<u64>(nodes[i].wrapping_add(0x20), 0) == Ok::<u64, Missing>(nodes[i + 1])
}

/// `nodes` are the object at `addr` and those around it, from the inside out: each has the
/// next one's address at 0x20, the last one has a null there or nothing that can be read,
/// and there are 32 of them at most.
pub open spec fn outward(m: Memory, addr: u64, nodes: Seq<u64>) -> bool {
    &&& nodes.len() <= 32
    &&& addr == 0 ==> nodes.len() == 0
    &&& addr != 0 ==> nodes.len() > 0 && nodes[0] == addr
    &&& forall|i: int| 0 <= i < nodes.len() ==> #[trigger] nodes[i] != 0
    &&& forall|i: int| 0 <= i < nodes.len() - 1 ==> #[trigger] next_out(m, nodes, i)
    &&& 0 < nodes.len() < 32 ==> m.points_nowhere(nodes.last().wrapping_add(0x20))
}

/// Each node has the name at 0x18 that `names` has in its place.
pub open spec fn names_of(r: Remote, nodes: Seq<u64>, names: Seq<Seq<char>>) -> bool {
    &&& names.len() == nodes.len()
    &&& forall|i: int|
        0 <= i < nodes.len() ==> r.called(nodes[i].wrapping_add(0x18), #[trigger] names[i])
}

proof fn lemma_path_of_nodes(
    r: Remote,
    addr: u64,
    nodes: Seq<u64>,
    names: Seq<Seq<char>>,
    i: int,
)
    requires
        outward(r.mem, addr, nodes),
        names_of(r, nodes, names),
        0 <= i < nodes.len(),
        nodes.len() == 32 ==> r.mem.value_or::<u64>(nodes[31].wrapping_add(0x20), 0) is Ok,
    ensures
        r.path(nodes[i], (32 - i) as nat) == Ok::<Option<Seq<Seq<char>>>, Missing>(
            Some(names.skip(i).reverse()),
        ),
    decreases nodes.len() - i,
{
    let fuel = (32 - i) as nat;
    let node = nodes[i];
    assert(r.called(node.wrapping_add(0x18), names[i]));
    if i + 1 < nodes.len() {
        lemma_path_of_nodes(r, addr, nodes, names, i + 1);
        let around = names.skip(i + 1).reverse();
        assert(next_out(r.mem, nodes, i));
        lemma_path_step(r, node, nodes[i + 1], names[i], fuel, around);
        assert(around.push(names[i]) =~= names.skip(i).reverse());
    } else {
        let outer = r.mem.value_or::<u64>(node.wrapping_add(0x20), 0)->Ok_0;
        assert(outer == 0 || fuel == 1);
        lemma_path_step(r, node, outer, names[i], fuel, seq![]);
        assert(Seq::<Seq<char>>::empty().push(names[i]) =~= names.skip(i).reverse());
    }
}

proof fn lemma_path_step(
    r: Remote,
    node: u64,
    outer: u64,
    name: Seq<char>,
    fuel: nat,
    around: Seq<Seq<char>>,
)
    requires
        node != 0,
        fuel > 0,
        r.called(node.wrapping_add(0x18), name),
        r.mem.value_or::<u64>(node.wrapping_add(0x20), 0) == Ok::<u64, Missing>(outer),
        r.path(outer, (fuel - 1) as nat) == Ok::<Option<Seq<Seq<char>>>, Missing>(Some(around)),
    ensures
        r.path(node, fuel) == Ok::<Option<Seq<Seq<char>>>, Missing>(Some(around.push(name))),
{
}

/// The full name of an object is its own name and those of the objects around it, with
/// dots between them, the outermost first.
pub proof fn lemma_full_name_is_the_way_in(
    r: Remote,
    addr: u64,
    nodes: Seq<u64>,
    names: Seq<Seq<char>>,
)
    requires
        outward(r.mem, addr, nodes),
        names_of(r, nodes, names),
        nodes.len() == 32 ==> r.mem.value_or::<u64>(nodes[31].wrapping_add(0x20), 0) is Ok,
    ensures
        r.full_name(addr) == Ok::<Option<Seq<char>>, Missing>(
            Some(crate::text::joined(names.reverse(), seq!['.'])),
        ),
{
    if nodes.len() > 0 {
        lemma_path_of_nodes(r, addr, nodes, names, 0);
        assert(names.skip(0) =~= names);
    } else {
        assert(names.reverse() =~= seq![]);
    }
}

/// An object without a name has no full name.
pub proof fn lemma_no_name_no_full_name(r: Remote, addr: u64)
    requires
        addr != 0,
        r.name_at(addr.wrapping_add(0x18)) == Ok::<Option<Seq<char>>, Missing>(None),
    ensures
        r.full_name(addr) == Ok::<Option<Seq<char>>, Missing>(None),
{
}

/// An object has no full name either if one of the objects around it, up to the 32nd, has
/// no name.
pub proof fn lemma_no_outer_name_no_full_name(
    r: Remote,
    addr: u64,
    nodes: Seq<u64>,
    names: Seq<Seq<char>>,
)
    requires
        addr != 0,
        0 < nodes.len() <= 32,
        nodes[0] == addr,
        names.len() == nodes.len() - 1,
        forall|i: int| 0 <= i < nodes.len() ==> #[trigger] nodes[i] != 0,
        forall|i: int| 0 <= i < nodes.len() - 1 ==> #[trigger] next_out(r.mem, nodes, i),
        forall|i: int|
            0 <= i < names.len() ==> r.called(nodes[i].wrapping_add(0x18), #[trigger] names[i]),
        r.name_at(nodes.last().wrapping_add(0x18)) == Ok::<Option<Seq<char>>, Missing>(None),
    ensures
        r.full_name(addr) == Ok::<Option<Seq<char>>, Missing>(None),
{
    lemma_no_path(r, nodes, names, 0);
}

proof fn lemma_no_path(r: Remote, nodes: Seq<u64>, names: Seq<Seq<char>>, i: int)
    requires
        0 <= i < nodes.len() <= 32,
        names.len() == nodes.len() - 1,
        forall|i: int| 0 <= i < nodes.len() ==> #[trigger] nodes[i] != 0,
        forall|i: int| 0 <= i < nodes.len() - 1 ==> #[trigger] next_out(r.mem, nodes, i),
        forall|i: int|
            0 <= i < names.len() ==> r.called(nodes[i].wrapping_add(0x18), #[trigger] names[i]),
        r.name_at(nodes.last().wrapping_add(0x18)) == Ok::<Option<Seq<char>>, Missing>(None),
    ensures
        r.path(nodes[i], (32 - i) as nat) == Ok::<Option<Seq<Seq<char>>>, Missing>(None),
    decreases nodes.len() - i,
{
    if i + 1 < nodes.len() {
        lemma_no_path(r, nodes, names, i + 1);
        assert(next_out(r.mem, nodes, i));
        assert(r.called(nodes[i].wrapping_add(0x18), names[i]));
    }
}

// ── The object array ────────────────────────────────────────────────

/// The fields of an object stand in memory: its class at 0x10, the index of its name at
/// 0x18, the number of its name at 0x1C, and the object around it at 0x20.
pub open spec fn object_stands(m: Memory, obj: UObjectRef) -> bool {
    &&& m.holds::<u64>(obj.addr.wrapping_add(0x10), obj.class_addr)
    &&& m.holds::<u32>(obj.addr.wrapping_add(0x18), obj.name_idx)
    &&& m.holds::<u32>(obj.addr.wrapping_add(0x1C), obj.name_number)
    &&& m.value_or::<u64>(obj.addr.wrapping_add(0x20), 0) == Ok::<u64, Missing>(obj.outer_addr)
}

/// An object is read as the fields that stand there, and as nothing if its class or its
/// name cannot be read.
pub proof fn lemma_object_fields(m: Memory, obj: UObjectRef)
    ensures
        m.object_ref(obj.addr) == Ok::<Option<UObjectRef>, Missing>(Some(obj)) <==> object_stands(
            m,
            obj,
        ),
        m.object_ref(obj.addr) == Ok::<Option<UObjectRef>, Missing>(None) ==> !object_stands(m, obj),
        m.object_ref(obj.addr) matches Ok(Some(read)) ==> read.addr == obj.addr,
{
    assert(obj.addr.wrapping_add(0x18).wrapping_add(4) == obj.addr.wrapping_add(0x1C));
}

/// How many chunks of 0x10000 elements `n` elements take.
pub open spec fn chunks_for(n: int) -> int {
    (n + 0xFFFF) / 0x1_0000
}

/// How many of `n` elements stand in the chunk that has element `k`.
pub open spec fn chunk_room(n: int, k: int) -> int {
    let first = (k / 0x1_0000) * 0x1_0000;
    if n - first < 0x1_0000 {
        n - first
    } else {
        0x1_0000
    }
}

/// An object array stands at `addr`: a pointer to its chunk pointers, and at 0x14 the
/// number of its elements, which is 1 to 10000000.
pub open spec fn array_stands(m: Memory, addr: u64, chunks: u64, n: i32) -> bool {
    &&& m.points(addr, chunks)
    &&& m.holds::<i32>(addr.wrapping_add(0x14), n)
    &&& 1 <= n <= 10_000_000
    &&& m.fetch(chunks, (8 * chunks_for(n as int)) as usize) matches Ok(Some(_))
}

/// Element `k` holds the pointer `obj`: the pointer to its chunk, `chunk`, stands in the
/// place k / 0x10000 of the chunk pointers, the chunk can be read, and `obj` stands at the
/// start of element k % 0x10000 of it.
pub open spec fn element_holds(
    m: Memory,
    chunks: u64,
    n: i32,
    item_size: usize,
    k: int,
    chunk: u64,
    obj: u64,
) -> bool {
    &&& m.points((chunks + 8 * (k / 0x1_0000)) as u64, chunk)
    &&& m.fetch(chunk, (chunk_room(n as int, k) * item_size) as usize) matches Ok(Some(_))
    &&& m.holds::<u64>((chunk + (k % 0x1_0000) * item_size) as u64, obj)
}

proof fn lemma_chunk_pointer(m: Memory, addr: u64, chunks: u64, n: i32, k: int)
    requires
        array_stands(m, addr, chunks, n),
        0 <= k < n,
    ensures
        m.object_array(addr) matches Ok(Some((num, ptrs))) && num == n && 0 <= k / 0x1_0000
            < ptrs.len() && m.holds::<u64>(
            (chunks + 8 * (k / 0x1_0000)) as u64,
            ptrs[k / 0x1_0000],
        ),
{
    let count = chunks_for(n as int);
    let len = (8 * count) as usize;
    let bytes = m.fetch(chunks, len)->Ok_0->0;
    let c = k / 0x1_0000;
    assert(addr.wrapping_add(0) == addr);
    assert(bytes.len() == 8 * count);
    assert(0 <= c < count);
    crate::scanner::pattern::lemma_fetch_part(m, chunks, len, 8 * c, 8);
}

proof fn lemma_element_pointer(
    m: Memory,
    chunks: u64,
    n: i32,
    item_size: usize,
    k: int,
    ptrs: Seq<u64>,
)
    requires
        8 <= item_size,
        0x1_0000 * item_size <= usize::MAX,
        0 <= k < n,
        0 <= k / 0x1_0000 < ptrs.len(),
        m.holds::<u64>((chunks + 8 * (k / 0x1_0000)) as u64, ptrs[k / 0x1_0000]),
        m.element(n as int, ptrs, item_size, k) is Ok,
    ensures
        ({
            let chunk = ptrs[k / 0x1_0000];
            let found = m.element(n as int, ptrs, item_size, k)->Ok_0;
            let obj = m.value::<u64>((chunk + (k % 0x1_0000) * item_size) as u64)->Ok_0->0;
            &&& found is Some ==> element_holds(m, chunks, n, item_size, k, chunk, obj) && obj != 0
                && found->0.addr == obj && m.object_ref(obj) == Ok::<Option<UObjectRef>, Missing>(
                found,
            )
            &&& forall|p: u64, o: u64| #[trigger]
                element_holds(m, chunks, n, item_size, k, p, o) && o != 0 ==> m.object_ref(o)
                    == Ok::<Option<UObjectRef>, Missing>(found)
        }),
{
    let chunk = ptrs[k / 0x1_0000];
    let room = chunk_room(n as int, k);
    let len = (room * item_size) as usize;
    let off = (k % 0x1_0000) * item_size;
    assert(room * item_size <= 0x1_0000 * item_size) by (nonlinear_arith)
        requires
            0 <= room <= 0x1_0000,
            0 <= item_size,
    ;
    assert(0 <= room * item_size) by (nonlinear_arith)
        requires
            0 <= room,
            0 <= item_size,
    ;
    assert(0 <= off && off + 8 <= room * item_size) by (nonlinear_arith)
        requires
            off == (k % 0x1_0000) * item_size,
            0 <= k % 0x1_0000 < room,
            8 <= item_size,
    ;
    if chunk != 0 {
        if let Ok(Some(data)) = m.fetch(chunk, len) {
            assert(data.len() == len);
            crate::scanner::pattern::lemma_fetch_part(m, chunk, len, off, 8);
            let obj = m.value::<u64>((chunk + off) as u64)->Ok_0->0;
            assert(crate::mem::le(data.subrange(off, off + 8)) as u64 == obj);
            assert(m.element(n as int, ptrs, item_size, k) == m.item_ref(data, off));
        }
    }
}

/// The objects of an array are what its elements point to, in their order: each element
/// that is not null and points to an object that can be read gives one.
pub proof fn lemma_objects_are_what_elements_point_to(
    m: Memory,
    addr: u64,
    chunks: u64,
    n: i32,
    item_size: usize,
    list: Seq<UObjectRef>,
) -> (q: (Seq<int>, Seq<u64>))
    requires
        8 <= item_size,
        0x1_0000 * item_size <= usize::MAX,
        array_stands(m, addr, chunks, n),
        m.objects(addr, item_size) == Ok::<Option<Seq<UObjectRef>>, Missing>(Some(list)),
    ensures
        q.0.len() == list.len(),
        q.1.len() == list.len(),
        forall|j: int| 0 <= j < q.0.len() ==> 0 <= #[trigger] q.0[j] < n,
        forall|j: int, l: int| 0 <= j < l < q.0.len() ==> #[trigger] q.0[j] < #[trigger] q.0[l],
        forall|j: int|
            0 <= j < q.0.len() ==> element_holds(
                m,
                chunks,
                n,
                item_size,
                #[trigger] q.0[j],
                q.1[j],
                list[j].addr,
            ) && list[j].addr != 0 && object_stands(m, list[j]),
        forall|k: int, chunk: u64, obj: UObjectRef|
            0 <= k < n && !#[trigger] q.0.contains(k) && #[trigger] element_holds(
                m,
                chunks,
                n,
                item_size,
                k,
                chunk,
                obj.addr,
            ) && obj.addr != 0 ==> !object_stands(m, obj),
{
    lemma_chunk_pointer(m, addr, chunks, n, 0);
    let ptrs = match m.object_array(addr) {
        Ok(Some((_, ptrs))) => ptrs,
        _ => seq![],
    };
    let step = m.elements(n as int, ptrs, item_size);
    let from = crate::laws::lemma_walk_picks(step, n as int);
    let places = Seq::new(from.len(), |j: int| ptrs[from[j] / 0x1_0000]);
    assert forall|j: int| 0 <= j < from.len() implies element_holds(
        m,
        chunks,
        n,
        item_size,
        #[trigger] from[j],
        places[j],
        list[j].addr,
    ) && list[j].addr != 0 && object_stands(m, list[j]) by {
        let k = from[j];
        assert(step(k) == Ok::<Option<UObjectRef>, Missing>(Some(list[j])));
        lemma_chunk_pointer(m, addr, chunks, n, k);
        lemma_element_pointer(m, chunks, n, item_size, k, ptrs);
        lemma_object_fields(m, list[j]);
    }
    assert forall|k: int, chunk: u64, obj: UObjectRef|
        0 <= k < n && !#[trigger] from.contains(k) && #[trigger] element_holds(
            m,
            chunks,
            n,
            item_size,
            k,
            chunk,
            obj.addr,
        ) && obj.addr != 0 implies !object_stands(m, obj) by {
        assert(step(k) == Ok::<Option<UObjectRef>, Missing>(None));
        lemma_chunk_pointer(m, addr, chunks, n, k);
        lemma_element_pointer(m, chunks, n, item_size, k, ptrs);
        lemma_object_fields(m, obj);
    }
    (from, places)
}

/// There is no object array where its chunk pointers cannot be read, or where the number of
/// elements is below one or above 10000000.
pub proof fn lemma_no_object_array(m: Memory, addr: u64, chunks: u64, n: i32, item_size: usize)
    ensures
        m.points_nowhere(addr) ==> m.objects(addr, item_size) == Ok::<
            Option<Seq<UObjectRef>>,
            Missing,
        >(None),
        m.points(addr, chunks) && m.holds::<i32>(addr.wrapping_add(0x14), n) && (n < 1 || n
            > 10_000_000) ==> m.objects(addr, item_size) == Ok::<Option<Seq<UObjectRef>>, Missing>(
            None,
        ),
        m.points(addr, chunks) && m.holds::<i32>(addr.wrapping_add(0x14), n) && 1 <= n
            <= 10_000_000 && m.fetch(chunks, (8 * chunks_for(n as int)) as usize) == Ok::<
            Option<Seq<u8>>,
            Missing,
        >(None) ==> m.objects(addr, item_size) == Ok::<Option<Seq<UObjectRef>>, Missing>(None),
        m.points(addr, chunks) && m.value::<i32>(addr.wrapping_add(0x14)) == Ok::<
            Option<i32>,
            Missing,
        >(None) ==> m.objects(addr, item_size) == Ok::<Option<Seq<UObjectRef>>, Missing>(None),
        array_stands(m, addr, chunks, n) && m.objects(addr, item_size) is Ok ==> m.objects(
            addr,
            item_size,
        )->Ok_0 is Some,
{
    assert(addr.wrapping_add(0) == addr);
}

// ── A first look ────────────────────────────────────────────────────

/// An object is shown by its name, or by "???" if it has none.
pub open spec fn shown_as(r: Remote, obj: UObjectRef, text: Seq<char>) -> bool {
    match r.names.name(obj.name_idx, obj.name_number) {
        Ok(Some(name)) => text == name,
        Ok(None) => text == "???"@,
        Err(_) => false,
    }
}

/// A first look names the first 20 objects, or all if there are fewer, each by its name or
/// by "???".
pub proof fn lemma_first_look(r: Remote, objects: Seq<UObjectRef>, list: Seq<Seq<char>>)
    requires
        r.first_names(objects) == Ok::<Seq<Seq<char>>, Missing>(list),
    ensures
        list.len() == (if objects.len() < 20 {
            objects.len() as int
        } else {
            20
        }),
        forall|i: int| 0 <= i < list.len() ==> shown_as(r, objects[i], #[trigger] list[i]),
{
    let n: int = if objects.len() < 20 {
        objects.len() as int
    } else {
        20
    };
    let step = r.shown_names(objects);
    let from = crate::laws::lemma_walk_picks(step, n);
    assert forall|i: int| 0 <= i < n implies from.contains(i) by {
        if !from.contains(i) {
            assert(step(i) == Ok::<Option<Seq<char>>, Missing>(None));
        }
    }
    crate::laws::lemma_all_numbers(from, n);
    assert forall|i: int| 0 <= i < list.len() implies shown_as(
        r,
        objects[i],
        #[trigger] list[i],
    ) by {
        assert(step(from[i]) == Ok::<Option<Seq<char>>, Missing>(Some(list[i])));
    }
}

} // verus!
