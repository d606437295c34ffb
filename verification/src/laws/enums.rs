//! Enums: how the engine has the variants of an enum in memory.

use crate::mem::{Missing, Scalar};
use crate::ue::fname::Remote;
use crate::ue::objects::UObjectRef;
use crate::ue::props::{EnumView, VariantView};
use vstd::prelude::*;

verus! {

/// The number that four bytes stand for, the lowest first.
pub open spec fn four(b: Seq<u8>, at: int) -> int {
    b[at] + 0x100 * b[at + 1] + 0x1_0000 * b[at + 2] + 0x100_0000 * b[at + 3]
}

/// The bytes of `data` from `at` on are a pair: the index and the number of a name, and a
/// signed value of eight bytes, each with its lowest byte first.
pub open spec fn pair_stands_at(data: Seq<u8>, at: int, idx: u32, number: u32, v: i64) -> bool {
    &&& 0 <= at
    &&& at + 16 <= data.len()
    &&& four(data, at) == idx
    &&& four(data, at + 4) == number
    &&& four(data, at + 8) + 0x1_0000_0000 * four(data, at + 12) == (if v >= 0 {
        v as int
    } else {
        v + 0x1_0000_0000_0000_0000
    })
}

proof fn lemma_pair_decoded(data: Seq<u8>, at: int, idx: u32, number: u32, v: i64)
    requires
        pair_stands_at(data, at, idx, number, v),
    ensures
        <u32 as Scalar>::decode(data.subrange(at, at + 4)) == idx,
        <u32 as Scalar>::decode(data.subrange(at + 4, at + 8)) == number,
        <i64 as Scalar>::decode(data.subrange(at + 8, at + 16)) == v,
{
    reveal_with_fuel(crate::mem::le, 9);
    let a = data.subrange(at, at + 4);
    assert(crate::mem::le(a) == four(data, at));
    let b = data.subrange(at + 4, at + 8);
    assert(crate::mem::le(b) == four(data, at + 4));
    let c = data.subrange(at + 8, at + 16);
    assert(crate::mem::le(c) == four(data, at + 8) + 0x1_0000_0000 * four(data, at + 12));
}

/// A pair whose name is not empty is dumped as that name and its value; one whose name is
/// empty or is not there is left out.
pub proof fn lemma_pair_gives_variant(
    r: Remote,
    data: Seq<u8>,
    i: int,
    idx: u32,
    number: u32,
    v: i64,
)
    requires
        pair_stands_at(data, 16 * i, idx, number, v),
    ensures
        r.names.name(idx, number) matches Ok(Some(name)) ==> r.variant(data, i) == (if name.len()
            > 0 {
            Ok::<Option<VariantView>, Missing>(Some(VariantView { name, value: v }))
        } else {
            Ok::<Option<VariantView>, Missing>(None)
        }),
        r.names.name(idx, number) == Ok::<Option<Seq<char>>, Missing>(None) ==> r.variant(data, i)
            == Ok::<Option<VariantView>, Missing>(None),
{
    lemma_pair_decoded(data, 16 * i, idx, number, v);
    assert(i * 16 == 16 * i);
}

/// Pairs with different values give variants with different values.
pub proof fn lemma_variants_tell_values_apart(
    r: Remote,
    data: Seq<u8>,
    i: int,
    j: int,
    one: (u32, u32, i64),
    other: (u32, u32, i64),
)
    requires
        pair_stands_at(data, 16 * i, one.0, one.1, one.2),
        pair_stands_at(data, 16 * j, other.0, other.1, other.2),
        r.names.name(one.0, one.1) matches Ok(Some(name)) && name.len() > 0,
        r.names.name(other.0, other.1) matches Ok(Some(name)) && name.len() > 0,
        one.2 != other.2,
    ensures
        r.variant(data, i) matches Ok(Some(a)) && (r.variant(data, j) matches Ok(Some(b))
            && a.value != b.value),
{
    lemma_pair_gives_variant(r, data, i, one.0, one.1, one.2);
    lemma_pair_gives_variant(r, data, j, other.0, other.1, other.2);
}

/// The variants of an enum are those of the pairs of its array, in their order: the array
/// is what the pointer at 0x40 leads to, and the number of its pairs stands at 0x48.
pub proof fn lemma_variants_are_the_pairs(
    r: Remote,
    addr: u64,
    at: u64,
    n: i32,
    data: Seq<u8>,
    list: Seq<VariantView>,
) -> (from: Seq<int>)
    requires
        at != 0,
        r.mem.holds::<u64>(addr.wrapping_add(0x40), at),
        r.mem.holds::<i32>(addr.wrapping_add(0x48), n),
        1 <= n <= 1024,
        data.len() == 16 * n,
        r.mem.shows(at, data),
        r.variants(addr) == Ok::<Seq<VariantView>, Missing>(list),
    ensures
        crate::laws::picks(list, |i: int| r.variant(data, i), n as int, from),
{
    assert(addr.wrapping_add(0x40).wrapping_add(8) == addr.wrapping_add(0x48));
    let step = |i: int| r.variant(data, i);
    assert(r.variant_items(data) =~= step);
    crate::laws::lemma_walk_picks(step, n as int)
}

/// Where each pair of an enum's array has a name that is not empty, the enum has exactly
/// these names and values.
pub proof fn lemma_enum_round_trip(
    r: Remote,
    addr: u64,
    at: u64,
    data: Seq<u8>,
    pairs: Seq<(u32, u32, i64)>,
    names: Seq<Seq<char>>,
)
    requires
        at != 0,
        r.mem.holds::<u64>(addr.wrapping_add(0x40), at),
        1 <= pairs.len() <= 1024,
        names.len() == pairs.len(),
        r.mem.holds::<i32>(addr.wrapping_add(0x48), pairs.len() as i32),
        data.len() == 16 * pairs.len(),
        r.mem.shows(at, data),
        forall|i: int|
            0 <= i < pairs.len() ==> {
                let (idx, number, v) = #[trigger] pairs[i];
                &&& pair_stands_at(data, 16 * i, idx, number, v)
                &&& names[i].len() > 0
                &&& r.names.name(idx, number) == Ok::<Option<Seq<char>>, Missing>(Some(names[i]))
            },
    ensures
        r.variants(addr) matches Ok(list) && list.len() == pairs.len() && forall|i: int|
            0 <= i < list.len() ==> (#[trigger] list[i]).name == names[i] && list[i].value
                == pairs[i].2,
{
    assert(addr.wrapping_add(0x40).wrapping_add(8) == addr.wrapping_add(0x48));
    let n = pairs.len() as int;
    assert((n as i32) * 16 == 16 * n);
    lemma_round_trip_from(r, data, pairs, names, n);
}

proof fn lemma_round_trip_from(
    r: Remote,
    data: Seq<u8>,
    pairs: Seq<(u32, u32, i64)>,
    names: Seq<Seq<char>>,
    n: int,
)
    requires
        0 <= n <= pairs.len(),
        names.len() == pairs.len(),
        forall|i: int|
            0 <= i < pairs.len() ==> {
                let (idx, number, v) = #[trigger] pairs[i];
                &&& pair_stands_at(data, 16 * i, idx, number, v)
                &&& names[i].len() > 0
                &&& r.names.name(idx, number) == Ok::<Option<Seq<char>>, Missing>(Some(names[i]))
            },
    ensures
        crate::walk::collect(r.variant_items(data), 0, n) matches Ok(list) && list.len() == n
            && forall|i: int|
            0 <= i < n ==> (#[trigger] list[i]).name == names[i] && list[i].value == pairs[i].2,
    decreases n,
{
    if n > 0 {
        lemma_round_trip_from(r, data, pairs, names, n - 1);
        crate::walk::lemma_collect_next(r.variant_items(data), 0, n - 1);
        let (idx, number, v) = pairs[n - 1];
        lemma_pair_gives_variant(r, data, n - 1, idx, number, v);
    }
}

/// An enum has no variants where its array is null or cannot be read, or where the number
/// of its pairs is below one or above 1024.
pub proof fn lemma_no_variants(r: Remote, addr: u64, at: u64, n: i32)
    ensures
        r.mem.value_or::<u64>(addr.wrapping_add(0x40), 0) == Ok::<u64, Missing>(0) ==> r.variants(
            addr,
        ) == Ok::<Seq<VariantView>, Missing>(seq![]),
        r.mem.points(addr.wrapping_add(0x40), at) && r.mem.value_or::<i32>(
            addr.wrapping_add(0x48),
            0,
        ) == Ok::<i32, Missing>(n) && (n < 1 || n > 1024) ==> r.variants(addr) == Ok::<
            Seq<VariantView>,
            Missing,
        >(seq![]),
        r.mem.points(addr.wrapping_add(0x40), at) && r.mem.holds::<i32>(addr.wrapping_add(0x48), n)
            && 1 <= n <= 1024 && r.mem.fetch(at, (16 * n) as usize) == Ok::<
            Option<Seq<u8>>,
            Missing,
        >(None) ==> r.variants(addr) == Ok::<Seq<VariantView>, Missing>(seq![]),
{
    assert(addr.wrapping_add(0x40).wrapping_add(8) == addr.wrapping_add(0x48));
    assert(n * 16 == 16 * n);
}

/// An object is dumped as an enum exactly if its class is called "Enum", it has a name and
/// variants, and the filter stands in its name or its full name; the dump has these names
/// and variants.
pub proof fn lemma_which_objects_are_enums(
    r: Remote,
    obj: UObjectRef,
    filter: Option<Seq<char>>,
    kind: Option<Seq<char>>,
    name: Option<Seq<char>>,
    full_name: Option<Seq<char>>,
    variants: Seq<VariantView>,
)
    requires
        obj.class_addr == 0 ==> kind is None,
        obj.class_addr != 0 ==> r.name_at(obj.class_addr.wrapping_add(0x18)) == Ok::<
            Option<Seq<char>>,
            Missing,
        >(kind),
        r.names.name(obj.name_idx, obj.name_number) == Ok::<Option<Seq<char>>, Missing>(name),
        r.full_name(obj.addr) == Ok::<Option<Seq<char>>, Missing>(full_name),
        r.variants(obj.addr) == Ok::<Seq<VariantView>, Missing>(variants),
    ensures
        r.enumeration(obj, filter) matches Ok(dump) && (if kind == Some("Enum"@) && name is Some
            && variants.len() > 0 && crate::laws::classes::passes(filter, name->0, full_name) {
            dump == Some(
                (EnumView {
                    name: name->0,
                    full_name: match full_name {
                        Some(full_name) => full_name,
                        None => name->0,
                    },
                    variants,
                }),
            )
        } else {
            dump is None
        }),
{
    crate::laws::classes::lemma_filter(filter, name->0, full_name);
}

/// The enums of a list of objects are what its objects are dumped as, in its order.
pub proof fn lemma_enums_are_in_order(
    r: Remote,
    objects: Seq<UObjectRef>,
    filter: Option<Seq<char>>,
    list: Seq<EnumView>,
) -> (from: Seq<int>)
    requires
        r.enums(objects, filter) == Ok::<Seq<EnumView>, Missing>(list),
    ensures
        crate::laws::picks(
            list,
            |i: int| r.enumeration(objects[i], filter),
            objects.len() as int,
            from,
        ),
{
    let step = |i: int| r.enumeration(objects[i], filter);
    assert(r.enum_items(objects, filter) =~= step);
    crate::laws::lemma_walk_picks(step, objects.len() as int)
}

} // verus!
