//! Classes: where the engine has the fields of a class, a function and a property.

use crate::mem::{Memory, Missing, Outcome};
use crate::ue::fname::Remote;
use crate::ue::objects::UObjectRef;
use crate::ue::props::{ClassView, FunctionView, PropertyView};
use vstd::prelude::*;

verus! {

// ── Types ───────────────────────────────────────────────────────────

/// The FProperty at `prop` has the class at `class`, and that is called `kind`.
pub open spec fn typed(r: Remote, prop: u64, class: u64, kind: Seq<char>) -> bool {
    &&& prop != 0
    &&& class != 0
    &&& r.mem.holds::<u64>(prop.wrapping_add(0x08), class)
    &&& r.called(class, kind)
}

/// There is no FProperty at `prop`, or it has no class, or the class `class` that it has
/// has no name.
pub open spec fn untyped(r: Remote, prop: u64, class: u64) -> bool {
    ||| prop == 0
    ||| r.mem.value_or::<u64>(prop.wrapping_add(0x08), 0) == Ok::<u64, Missing>(0)
    ||| r.mem.holds::<u64>(prop.wrapping_add(0x08), class) && r.name_at(class) == Ok::<
        Option<Seq<char>>,
        Missing,
    >(None)
}

/// What is said of the type of the FProperty at `prop`: its name, or a question mark.
pub open spec fn labelled(r: Remote, prop: u64, class: u64, label: Seq<char>) -> bool {
    typed(r, prop, class, label) || untyped(r, prop, class) && label == "?"@
}

proof fn lemma_type_of(r: Remote, prop: u64, class: u64, kind: Seq<char>)
    ensures
        typed(r, prop, class, kind) ==> r.field_class_name(prop) == Ok::<Option<Seq<char>>, Missing>(
            Some(kind),
        ),
        untyped(r, prop, class) ==> r.field_class_name(prop) == Ok::<Option<Seq<char>>, Missing>(
            None,
        ),
{
    assert(class.wrapping_add(0) == class);
}

/// The kinds of property that hold or refer to something else are told apart.
proof fn lemma_kinds_differ()
    ensures
        "ArrayProperty"@ != "StructProperty"@,
        "ArrayProperty"@ != "MapProperty"@,
        "ArrayProperty"@ != "SetProperty"@,
        "ArrayProperty"@ != "EnumProperty"@,
        "MapProperty"@ != "StructProperty"@,
        "MapProperty"@ != "SetProperty"@,
        "MapProperty"@ != "EnumProperty"@,
        "SetProperty"@ != "StructProperty"@,
        "SetProperty"@ != "EnumProperty"@,
        "EnumProperty"@ != "StructProperty"@,
        !crate::ue::props::refers_to_object("StructProperty"@),
        !crate::ue::props::refers_to_object("ArrayProperty"@),
        !crate::ue::props::refers_to_object("MapProperty"@),
        !crate::ue::props::refers_to_object("SetProperty"@),
        !crate::ue::props::refers_to_object("EnumProperty"@),
        "BoolProperty"@ != "StructProperty"@,
        "BoolProperty"@ != "ArrayProperty"@,
        "BoolProperty"@ != "MapProperty"@,
        "BoolProperty"@ != "SetProperty"@,
        "BoolProperty"@ != "EnumProperty"@,
        !crate::ue::props::refers_to_object("BoolProperty"@),
{
    reveal_strlit("StructProperty");
    reveal_strlit("ArrayProperty");
    reveal_strlit("MapProperty");
    reveal_strlit("SetProperty");
    reveal_strlit("EnumProperty");
    reveal_strlit("BoolProperty");
    reveal_strlit("ObjectProperty");
    reveal_strlit("ObjectPtrProperty");
    reveal_strlit("SoftObjectProperty");
    reveal_strlit("WeakObjectProperty");
    reveal_strlit("LazyObjectProperty");
    assert("StructProperty"@[0] == 'S');
    assert("ArrayProperty"@[0] == 'A');
    assert("MapProperty"@[0] == 'M');
    assert("SetProperty"@[1] == 'e');
    assert("EnumProperty"@[0] == 'E');
    assert("BoolProperty"@[0] == 'B');
    assert("ObjectProperty"@[0] == 'O');
    assert("SoftObjectProperty"@.len() == 18);
    assert("WeakObjectProperty"@[0] == 'W');
    assert("LazyObjectProperty"@[0] == 'L');
    assert("ObjectPtrProperty"@[0] == 'O');
    assert("SetProperty"@[0] == 'S');
    assert("SetProperty"@.len() == 11);
    assert("StructProperty"@.len() == 14);
}

/// A property that refers to one object is of one of five kinds.
pub open spec fn object_kind(kind: Seq<char>) -> bool {
    ||| kind == "ObjectProperty"@
    ||| kind == "ObjectPtrProperty"@
    ||| kind == "SoftObjectProperty"@
    ||| kind == "WeakObjectProperty"@
    ||| kind == "LazyObjectProperty"@
}

/// A property whose kind is none of those that hold or refer to something else.
pub open spec fn plain_kind(kind: Seq<char>) -> bool {
    &&& !object_kind(kind)
    &&& kind != "StructProperty"@
    &&& kind != "ArrayProperty"@
    &&& kind != "MapProperty"@
    &&& kind != "SetProperty"@
    &&& kind != "EnumProperty"@
}

/// The inner type of a map is the type of its keys, an arrow, and the type of its values,
/// with a question mark for one that has no name.
pub proof fn lemma_map_type_says_both(
    r: Remote,
    field: u64,
    key: u64,
    key_class: u64,
    k: Seq<char>,
    val: u64,
    val_class: u64,
    v: Seq<char>,
)
    requires
        r.mem.value_or::<u64>(field.wrapping_add(0x70), 0) == Ok::<u64, Missing>(key),
        r.mem.value_or::<u64>(field.wrapping_add(0x78), 0) == Ok::<u64, Missing>(val),
        labelled(r, key, key_class, k),
        labelled(r, val, val_class, v),
    ensures
        r.inner_type("MapProperty"@, field) == Ok::<Option<Seq<char>>, Missing>(
            Some(k + " -> "@ + v),
        ),
{
    lemma_kinds_differ();
    lemma_type_of(r, key, key_class, k);
    lemma_type_of(r, val, val_class, v);
}

/// Two maps whose value types have different names have different inner types.
pub proof fn lemma_map_types_tell_values_apart(
    r: Remote,
    one: u64,
    other: u64,
    key: (u64, u64, Seq<char>),
    val: (u64, u64, Seq<char>),
    other_val: (u64, u64, Seq<char>),
)
    requires
        r.mem.holds::<u64>(one.wrapping_add(0x70), key.0),
        r.mem.holds::<u64>(other.wrapping_add(0x70), key.0),
        r.mem.holds::<u64>(one.wrapping_add(0x78), val.0),
        r.mem.holds::<u64>(other.wrapping_add(0x78), other_val.0),
        typed(r, key.0, key.1, key.2),
        typed(r, val.0, val.1, val.2),
        typed(r, other_val.0, other_val.1, other_val.2),
        val.2 != other_val.2,
    ensures
        r.inner_type("MapProperty"@, one) != r.inner_type("MapProperty"@, other),
{
    lemma_map_type_says_both(r, one, key.0, key.1, key.2, val.0, val.1, val.2);
    lemma_map_type_says_both(r, other, key.0, key.1, key.2, other_val.0, other_val.1, other_val.2);
    if key.2 + " -> "@ + val.2 == key.2 + " -> "@ + other_val.2 {
        lemma_same_front_same_back(key.2 + " -> "@, val.2, other_val.2);
    }
}

/// What stands behind the arrow in a map's inner type is a question mark only if the
/// values have no type name, or one that is itself a question mark.
pub proof fn lemma_question_mark_is_no_name(
    r: Remote,
    field: u64,
    key: u64,
    key_class: u64,
    k: Seq<char>,
    val: u64,
    val_class: u64,
    v: Seq<char>,
)
    requires
        r.mem.value_or::<u64>(field.wrapping_add(0x70), 0) == Ok::<u64, Missing>(key),
        r.mem.value_or::<u64>(field.wrapping_add(0x78), 0) == Ok::<u64, Missing>(val),
        labelled(r, key, key_class, k),
        typed(r, val, val_class, v),
        r.inner_type("MapProperty"@, field) == Ok::<Option<Seq<char>>, Missing>(
            Some(k + " -> "@ + "?"@),
        ),
    ensures
        v == "?"@,
{
    lemma_map_type_says_both(r, field, key, key_class, k, val, val_class, v);
    lemma_same_front_same_back(k + " -> "@, v, "?"@);
}

proof fn lemma_same_front_same_back(front: Seq<char>, a: Seq<char>, b: Seq<char>)
    requires
        front + a == front + b,
    ensures
        a == b,
{
    assert((front + a).skip(front.len() as int) =~= a);
    assert((front + b).skip(front.len() as int) =~= b);
}

/// The inner type of a property that refers to an object, holds a struct or is an enum is
/// the name of what it points to; there is none where it points to nothing.
pub proof fn lemma_pointed_to_object_names_inner_type(
    r: Remote,
    kind: Seq<char>,
    field: u64,
    target: u64,
    name: Seq<char>,
)
    requires
        object_kind(kind) || kind == "StructProperty"@ || kind == "EnumProperty"@,
    ensures
        ({
            let at = if kind == "EnumProperty"@ {
                field.wrapping_add(0x78)
            } else {
                field.wrapping_add(0x70)
            };
            &&& target != 0 && r.mem.holds::<u64>(at, target) && r.called(
                target.wrapping_add(0x18),
                name,
            ) ==> r.inner_type(kind, field) == Ok::<Option<Seq<char>>, Missing>(Some(name))
            &&& r.mem.points_nowhere(at) ==> r.inner_type(kind, field) == Ok::<
                Option<Seq<char>>,
                Missing,
            >(None)
            &&& r.mem.points(at, target) && r.name_at(target.wrapping_add(0x18)) == Ok::<
                Option<Seq<char>>,
                Missing,
            >(None) ==> r.inner_type(kind, field) == Ok::<Option<Seq<char>>, Missing>(None)
        }),
{
    lemma_kinds_differ();
}

/// The inner type of an array or a set is the type of its items.
pub proof fn lemma_items_give_inner_type(
    r: Remote,
    kind: Seq<char>,
    field: u64,
    item: u64,
    class: u64,
    name: Seq<char>,
)
    requires
        kind == "ArrayProperty"@ || kind == "SetProperty"@,
        r.mem.value_or::<u64>(field.wrapping_add(0x70), 0) == Ok::<u64, Missing>(item),
    ensures
        typed(r, item, class, name) ==> r.inner_type(kind, field) == Ok::<
            Option<Seq<char>>,
            Missing,
        >(Some(name)),
        untyped(r, item, class) ==> r.inner_type(kind, field) == Ok::<Option<Seq<char>>, Missing>(
            None,
        ),
{
    lemma_kinds_differ();
    lemma_type_of(r, item, class, name);
}

/// No other kind of property has an inner type.
pub proof fn lemma_plain_property_has_no_inner_type(r: Remote, kind: Seq<char>, field: u64)
    requires
        plain_kind(kind),
    ensures
        r.inner_type(kind, field) == Ok::<Option<Seq<char>>, Missing>(None),
{
}

// ── Properties ──────────────────────────────────────────────────────

/// The fields of a dumped property are those that stand in the FProperty: its name at
/// 0x20, the size of its array at 0x30, of an item at 0x34, and its offset at 0x44. One
/// that cannot be read is empty, one, zero and zero.
pub proof fn lemma_property_fields(r: Remote, field: u64, p: PropertyView)
    requires
        r.property(field) == Ok::<Option<PropertyView>, Missing>(Some(p)),
    ensures
        r.name_at(field.wrapping_add(0x20)) matches Ok(name) && p.name == (match name {
            Some(name) => name,
            None => seq![],
        }),
        r.mem.value_or::<u32>(field.wrapping_add(0x30), 1) == Ok::<u32, Missing>(p.array_dim),
        r.mem.value_or::<u32>(field.wrapping_add(0x34), 0) == Ok::<u32, Missing>(p.size),
        r.mem.value_or::<u32>(field.wrapping_add(0x44), 0) == Ok::<u32, Missing>(p.offset),
        r.inner_type(p.prop_type, field) == Ok::<Option<Seq<char>>, Missing>(p.inner_type),
{
}

/// The type of a dumped property is the name of its class, or "Unknown".
pub proof fn lemma_property_type(r: Remote, field: u64, class: u64, kind: Seq<char>, p: PropertyView)
    requires
        field != 0,
        r.property(field) == Ok::<Option<PropertyView>, Missing>(Some(p)),
    ensures
        typed(r, field, class, kind) ==> p.prop_type == kind,
        untyped(r, field, class) ==> p.prop_type == "Unknown"@,
{
    assert(class.wrapping_add(0) == class);
}

/// The dumped inner type of a map is the type of its keys, an arrow, and the type of its
/// values.
pub proof fn lemma_dumped_map(
    r: Remote,
    field: u64,
    class: u64,
    p: PropertyView,
    key: u64,
    key_class: u64,
    k: Seq<char>,
    val: u64,
    val_class: u64,
    v: Seq<char>,
)
    requires
        typed(r, field, class, "MapProperty"@),
        r.property(field) == Ok::<Option<PropertyView>, Missing>(Some(p)),
        r.mem.value_or::<u64>(field.wrapping_add(0x70), 0) == Ok::<u64, Missing>(key),
        r.mem.value_or::<u64>(field.wrapping_add(0x78), 0) == Ok::<u64, Missing>(val),
        labelled(r, key, key_class, k),
        labelled(r, val, val_class, v),
    ensures
        p.prop_type == "MapProperty"@,
        p.inner_type == Some(k + " -> "@ + v),
{
    lemma_property_type(r, field, class, "MapProperty"@, p);
    lemma_property_fields(r, field, p);
    lemma_map_type_says_both(r, field, key, key_class, k, val, val_class, v);
}

/// A bool property, and no other, has the mask at 0x73. Where the mask is a single bit,
/// the bit's number is given; 0xFF stands for a mask that cannot be read.
pub proof fn lemma_bool_has_mask(r: Remote, field: u64, p: PropertyView)
    requires
        r.property(field) == Ok::<Option<PropertyView>, Missing>(Some(p)),
    ensures
        p.prop_type != "BoolProperty"@ ==> p.field_mask is None && p.bit_index is None,
        p.prop_type == "BoolProperty"@ ==> {
            &&& p.field_mask matches Some(mask)
            &&& r.mem.value_or::<u8>(field.wrapping_add(0x73), 0xFF) == Ok::<u8, Missing>(mask)
            &&& forall|b: u8|
                p.bit_index == Some(b) <==> b < 8 && mask == #[trigger] (1u8 << b)
        },
{
    if p.prop_type == "BoolProperty"@ {
        let mask = p.field_mask->0;
        assert forall|b: u8| p.bit_index == Some(b) <==> b < 8 && mask == #[trigger] (1u8 << b) by {
            assert(1u8 << 0u8 == 0x01 && 1u8 << 1u8 == 0x02 && 1u8 << 2u8 == 0x04 && 1u8 << 3u8
                == 0x08 && 1u8 << 4u8 == 0x10 && 1u8 << 5u8 == 0x20 && 1u8 << 6u8 == 0x40 && 1u8
                << 7u8 == 0x80) by (bit_vector);
        }
    }
}

// ── Linked lists ────────────────────────────────────────────────────

/// `nodes` are the addresses of a linked list whose first address stands at `start`: each
/// node has the next address `link` behind it, the last one has a null there or nothing
/// that can be read, and there are `limit` of them at most.
pub open spec fn follows(m: Memory, start: u64, link: u64, limit: int, nodes: Seq<u64>) -> bool {
    &&& nodes.len() <= limit
    &&& m.value_or::<u64>(start, 0) == Ok::<u64, Missing>(
        if nodes.len() > 0 {
            nodes[0]
        } else {
            0
        },
    )
    &&& forall|i: int| 0 <= i < nodes.len() ==> #[trigger] nodes[i] != 0
    &&& forall|i: int|
        0 <= i < nodes.len() - 1 ==> m.value_or::<u64>(
            (#[trigger] nodes[i]).wrapping_add(link),
            0,
        ) == Ok::<u64, Missing>(nodes[i + 1])
    &&& 0 < nodes.len() < limit ==> m.value_or::<u64>(nodes.last().wrapping_add(link), 0) == Ok::<
        u64,
        Missing,
    >(0)
}

proof fn lemma_chain_nodes<T>(
    r: Remote,
    item: spec_fn(u64) -> Outcome<Option<T>>,
    link: u64,
    node: u64,
    fuel: nat,
) -> (q: (Seq<u64>, Seq<int>))
    requires
        r.chain(item, link, node, fuel) is Ok,
    ensures
        q.0.len() <= fuel,
        node == 0 || fuel == 0 ==> q.0.len() == 0,
        node != 0 && fuel > 0 ==> q.0.len() > 0 && q.0[0] == node,
        forall|i: int| 0 <= i < q.0.len() ==> #[trigger] q.0[i] != 0,
        forall|i: int|
            0 <= i < q.0.len() - 1 ==> r.mem.value_or::<u64>(
                (#[trigger] q.0[i]).wrapping_add(link),
                0,
            ) == Ok::<u64, Missing>(q.0[i + 1]),
        0 < q.0.len() < fuel ==> r.mem.value_or::<u64>(q.0.last().wrapping_add(link), 0) == Ok::<
            u64,
            Missing,
        >(0),
        crate::laws::picks(
            r.chain(item, link, node, fuel)->Ok_0,
            |i: int| item(q.0[i]),
            q.0.len() as int,
            q.1,
        ),
    decreases fuel,
{
    if node == 0 || fuel == 0 {
        (seq![], seq![])
    } else {
        let next = r.mem.value_or::<u64>(node.wrapping_add(link), 0)->Ok_0;
        let (rest, picked) = lemma_chain_nodes(r, item, link, next, (fuel - 1) as nat);
        let nodes = seq![node] + rest;
        let tail = r.chain(item, link, next, (fuel - 1) as nat)->Ok_0;
        let list = r.chain(item, link, node, fuel)->Ok_0;
        let moved = picked.map_values(|k: int| k + 1);
        let from = match item(node) {
            Ok(Some(_)) => seq![0int] + moved,
            _ => moved,
        };
        let d: int = from.len() - moved.len();
        assert(list =~= crate::walk::optional(item(node)->Ok_0) + tail);
        assert(nodes[0] == node);
        assert forall|i: int| 0 <= i < nodes.len() - 1 implies r.mem.value_or::<u64>(
            (#[trigger] nodes[i]).wrapping_add(link),
            0,
        ) == Ok::<u64, Missing>(nodes[i + 1]) by {
            if i > 0 {
                assert(nodes[i] == rest[i - 1] && nodes[i + 1] == rest[i - 1 + 1]);
            }
        }
        if rest.len() > 0 {
            assert(nodes.last() == rest.last());
        }
        let step = |i: int| item(nodes[i]);
        let rest_step = |i: int| item(rest[i]);
        assert forall|k: int| 0 <= k < from.len() implies 0 <= #[trigger] from[k] < nodes.len()
            && step(from[k]) == Ok::<Option<T>, Missing>(Some(list[k])) by {
            if k >= d {
                assert(from[k] == picked[k - d] + 1);
                assert(rest_step(picked[k - d]) == Ok::<Option<T>, Missing>(Some(tail[k - d])));
                assert(nodes[from[k]] == rest[picked[k - d]]);
            }
        }
        assert forall|k: int, l: int| 0 <= k < l < from.len() implies #[trigger] from[k]
            < #[trigger] from[l] by {
            assert(from[l] == picked[l - d] + 1);
            if k >= d {
                assert(from[k] == picked[k - d] + 1);
            }
        }
        assert forall|i: int| 0 <= i < nodes.len() && !from.contains(i) implies #[trigger] step(i)
            == Ok::<Option<T>, Missing>(None) by {
            if i == 0 {
                if item(node)->Ok_0 is Some {
                    assert(from[0] == 0);
                }
            } else {
                if picked.contains(i - 1) {
                    let k = picked.index_of(i - 1);
                    assert(from[k + d] == i);
                }
                assert(rest_step(i - 1) == Ok::<Option<T>, Missing>(None));
                assert(nodes[i] == rest[i - 1]);
            }
        }
        (nodes, from)
    }
}

/// Where each node gives something, the list has one entry for each node.
proof fn lemma_full_chain<T>(
    r: Remote,
    item: spec_fn(u64) -> Outcome<Option<T>>,
    link: u64,
    start: u64,
    limit: nat,
    list: Seq<T>,
) -> (nodes: Seq<u64>)
    requires
        limit > 0,
        r.mem.value_or::<u64>(start, 0) is Ok,
        r.chain(item, link, r.mem.value_or::<u64>(start, 0)->Ok_0, limit) == Ok::<Seq<T>, Missing>(
            list,
        ),
        forall|node: u64| #[trigger] item(node) != Ok::<Option<T>, Missing>(None),
    ensures
        follows(r.mem, start, link, limit as int, nodes),
        nodes.len() == list.len(),
        forall|i: int|
            0 <= i < nodes.len() ==> item(#[trigger] nodes[i]) == Ok::<Option<T>, Missing>(
                Some(list[i]),
            ),
{
    let first = r.mem.value_or::<u64>(start, 0)->Ok_0;
    let (nodes, from) = lemma_chain_nodes(r, item, link, first, limit);
    let step = |i: int| item(nodes[i]);
    assert forall|i: int| 0 <= i < nodes.len() implies from.contains(i) by {
        if !from.contains(i) {
            assert(step(i) == Ok::<Option<T>, Missing>(None));
        }
    }
    crate::laws::lemma_all_numbers(from, nodes.len() as int);
    assert forall|i: int| 0 <= i < nodes.len() implies item(#[trigger] nodes[i]) == Ok::<
        Option<T>,
        Missing,
    >(Some(list[i])) by {
        assert(step(from[i]) == Ok::<Option<T>, Missing>(Some(list[i])));
    }
    nodes
}

/// The properties of a struct are those of the linked list that starts at 0x50 and goes on
/// at 0x18 of each, in its order, 4096 of them at most.
pub proof fn lemma_properties_are_listed(r: Remote, addr: u64, list: Seq<PropertyView>) -> (nodes:
    Seq<u64>)
    requires
        r.properties(addr) == Ok::<Seq<PropertyView>, Missing>(list),
    ensures
        follows(r.mem, addr.wrapping_add(0x50), 0x18, 4096, nodes),
        nodes.len() == list.len(),
        forall|i: int|
            0 <= i < nodes.len() ==> r.property(#[trigger] nodes[i]) == Ok::<
                Option<PropertyView>,
                Missing,
            >(Some(list[i])),
{
    let item = r.property_nodes();
    assert forall|node: u64| #[trigger] item(node) != Ok::<Option<PropertyView>, Missing>(None) by {
        assert(item(node) == r.property(node));
    }
    lemma_full_chain(r, item, 0x18, addr.wrapping_add(0x50), 4096, list)
}

// ── Functions ───────────────────────────────────────────────────────

/// The object at `addr` has the class at `class`, and that is called `name`.
pub open spec fn instance_of(r: Remote, addr: u64, class: u64, name: Seq<char>) -> bool {
    &&& class != 0
    &&& r.mem.holds::<u64>(addr.wrapping_add(0x10), class)
    &&& r.called(class.wrapping_add(0x18), name)
}

/// The functions of a struct are those of the linked list that starts at 0x48 and goes on
/// at 0x28 of each, in its order, 4096 nodes at most: what each node gives that is a
/// function.
pub proof fn lemma_functions_are_listed(r: Remote, addr: u64, list: Seq<FunctionView>) -> (q: (
    Seq<u64>,
    Seq<int>,
))
    requires
        r.functions(addr) == Ok::<Seq<FunctionView>, Missing>(list),
    ensures
        follows(r.mem, addr.wrapping_add(0x48), 0x28, 4096, q.0),
        crate::laws::picks(list, |i: int| r.function(q.0[i]), q.0.len() as int, q.1),
{
    let item = r.function_nodes();
    let first = r.mem.value_or::<u64>(addr.wrapping_add(0x48), 0)->Ok_0;
    let q = lemma_chain_nodes(r, item, 0x28, first, 4096);
    let step = |i: int| item(q.0[i]);
    let same = |i: int| r.function(q.0[i]);
    assert forall|k: int| 0 <= k < q.1.len() implies same(#[trigger] q.1[k]) == Ok::<
        Option<FunctionView>,
        Missing,
    >(Some(list[k])) by {
        assert(step(q.1[k]) == Ok::<Option<FunctionView>, Missing>(Some(list[k])));
    }
    assert forall|i: int| 0 <= i < q.0.len() && !q.1.contains(i) implies #[trigger] same(i) == Ok::<
        Option<FunctionView>,
        Missing,
    >(None) by {
        assert(step(i) == Ok::<Option<FunctionView>, Missing>(None));
    }
    q
}

/// A node is a function if its class is called "Function", and not if it is called
/// anything else or nothing.
pub proof fn lemma_functions_are_functions(r: Remote, addr: u64, class: u64, name: Seq<char>)
    requires
        r.function(addr) is Ok,
    ensures
        instance_of(r, addr, class, "Function"@) ==> r.function(addr)->Ok_0 is Some,
        instance_of(r, addr, class, name) && name != "Function"@ ==> r.function(addr)->Ok_0 is None,
        r.mem.points_nowhere(addr.wrapping_add(0x10)) ==> r.function(addr)->Ok_0 is None,
        r.mem.points(addr.wrapping_add(0x10), class) && r.name_at(class.wrapping_add(0x18)) == Ok::<
            Option<Seq<char>>,
            Missing,
        >(None) ==> r.function(addr)->Ok_0 is None,
{
}

/// The fields of a dumped function: its name by the index at 0x18 and the number at 0x1C,
/// with zero for one that cannot be read, its flags at 0xB0, its native code at 0xD8, its full name, and its parameters.
pub proof fn lemma_function_fields(r: Remote, addr: u64, idx: u32, number: u32, f: FunctionView)
    requires
        r.function(addr) == Ok::<Option<FunctionView>, Missing>(Some(f)),
    ensures
        r.mem.value_or::<u32>(addr.wrapping_add(0x18), 0) == Ok::<u32, Missing>(idx)
            && r.mem.value_or::<u32>(addr.wrapping_add(0x1C), 0) == Ok::<u32, Missing>(number)
            ==> (match r.names.name(idx, number) {
            Ok(Some(name)) => f.name == name,
            Ok(None) => f.name == Seq::<char>::empty(),
            Err(_) => false,
        }),
        r.mem.value_or::<u32>(addr.wrapping_add(0xB0), 0) == Ok::<u32, Missing>(f.flags),
        r.mem.value_or::<u64>(addr.wrapping_add(0xD8), 0) == Ok::<u64, Missing>(f.native_func),
        r.full_name(addr) matches Ok(full_name) && f.full_name == (match full_name {
            Some(full_name) => full_name,
            None => f.name,
        }),
        r.properties(addr) == Ok::<Seq<PropertyView>, Missing>(f.params),
{
    assert(addr.wrapping_add(0x18).wrapping_add(4) == addr.wrapping_add(0x1C));
}

// ── Classes ─────────────────────────────────────────────────────────

/// `filter`, if there is one, stands in the name or in the full name.
pub open spec fn passes(filter: Option<Seq<char>>, name: Seq<char>, full_name: Option<Seq<char>>) -> bool {
    match filter {
        None => true,
        Some(part) => crate::laws::text::has_part(name, part) || match full_name {
            Some(full_name) => crate::laws::text::has_part(full_name, part),
            None => crate::laws::text::has_part(seq![], part),
        },
    }
}

pub proof fn lemma_filter(filter: Option<Seq<char>>, name: Seq<char>, full_name: Option<Seq<char>>)
    ensures
        crate::ue::props::selects(
            filter,
            name,
            crate::ue::props::text_or(full_name, seq![]),
        ) == passes(filter, name, full_name),
{
    if let Some(part) = filter {
        crate::laws::text::lemma_part_of_text(name, part);
        crate::laws::text::lemma_part_of_text(crate::ue::props::text_or(full_name, seq![]), part);
    }
}

/// An object is dumped as a class exactly if its class is called "Class" or
/// "ScriptStruct", it has a name, and the filter stands in its name or its full name.
pub proof fn lemma_which_objects_are_classes(
    r: Remote,
    obj: UObjectRef,
    filter: Option<Seq<char>>,
    kind: Option<Seq<char>>,
    name: Option<Seq<char>>,
    full_name: Option<Seq<char>>,
)
    requires
        obj.class_addr == 0 ==> kind is None,
        obj.class_addr != 0 ==> r.name_at(obj.class_addr.wrapping_add(0x18)) == Ok::<
            Option<Seq<char>>,
            Missing,
        >(kind),
        r.names.name(obj.name_idx, obj.name_number) == Ok::<Option<Seq<char>>, Missing>(name),
        r.full_name(obj.addr) == Ok::<Option<Seq<char>>, Missing>(full_name),
        r.class(obj, filter) is Ok,
    ensures
        r.class(obj, filter)->Ok_0 is Some <==> (kind == Some("Class"@) || kind == Some(
            "ScriptStruct"@,
        )) && name is Some && passes(filter, name->0, full_name),
{
    lemma_filter(filter, name->0, full_name);
}

/// The fields of a dumped class: the names of the object, the name of the struct that the
/// pointer at 0x40 leads to, the size at 0x58, its properties and its functions.
pub proof fn lemma_class_fields(
    r: Remote,
    obj: UObjectRef,
    filter: Option<Seq<char>>,
    above: u64,
    idx: u32,
    number: u32,
    c: ClassView,
)
    requires
        r.class(obj, filter) == Ok::<Option<ClassView>, Missing>(Some(c)),
    ensures
        r.names.name(obj.name_idx, obj.name_number) == Ok::<Option<Seq<char>>, Missing>(
            Some(c.name),
        ),
        r.full_name(obj.addr) matches Ok(full_name) && c.full_name == (match full_name {
            Some(full_name) => full_name,
            None => c.name,
        }),
        above != 0 && r.mem.holds::<u64>(obj.addr.wrapping_add(0x40), above)
            && r.mem.value_or::<u32>(above.wrapping_add(0x18), 0) == Ok::<u32, Missing>(idx)
            && r.mem.value_or::<u32>(above.wrapping_add(0x1C), 0) == Ok::<u32, Missing>(number)
            ==> r.names.name(idx, number) == Ok::<Option<Seq<char>>, Missing>(c.parent),
        r.mem.value_or::<u64>(obj.addr.wrapping_add(0x40), 0) == Ok::<u64, Missing>(0)
            ==> c.parent is None,
        r.mem.value_or::<u32>(obj.addr.wrapping_add(0x58), 0) == Ok::<u32, Missing>(c.size),
        r.properties(obj.addr) == Ok::<Seq<PropertyView>, Missing>(c.properties),
        r.functions(obj.addr) == Ok::<Seq<FunctionView>, Missing>(c.functions),
{
    assert(above.wrapping_add(0x18).wrapping_add(4) == above.wrapping_add(0x1C));
}

/// The classes of a list of objects are what its objects are dumped as, in its order.
pub proof fn lemma_classes_are_in_order(
    r: Remote,
    objects: Seq<UObjectRef>,
    filter: Option<Seq<char>>,
    list: Seq<ClassView>,
) -> (from: Seq<int>)
    requires
        r.classes(objects, filter) == Ok::<Seq<ClassView>, Missing>(list),
    ensures
        crate::laws::picks(
            list,
            |i: int| r.class(objects[i], filter),
            objects.len() as int,
            from,
        ),
{
    let step = |i: int| r.class(objects[i], filter);
    assert(r.class_items(objects, filter) =~= step);
    crate::laws::lemma_walk_picks(step, objects.len() as int)
}

} // verus!
