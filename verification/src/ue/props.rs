//! FField and UField walks: what the classes, functions and enums of the engine hold.

use crate::mem::{Memory, Outcome, ProcessHandle, Scalar};
use crate::text::{str_contains, str_equal};
use crate::ue::fname::{FNamePool, Remote};
use crate::ue::objects::{GObjects, UObjectRef};
use crate::ue::offsets::{
    FARRAY_PROP_INNER, FBOOL_PROP_FIELD_MASK, FENUM_PROP_ENUM, FFIELD_CLASS_NAME,
    FFIELD_CLASS_PRIVATE, FFIELD_NAME, FFIELD_NEXT, FMAP_PROP_KEY, FMAP_PROP_VALUE,
    FOBJECT_PROP_CLASS, FPROPERTY_ARRAY_DIM, FPROPERTY_ELEMENT_SIZE, FPROPERTY_OFFSET,
    FSET_PROP_ELEMENT, FSTRUCT_PROP_STRUCT, MAX_ENUM_VARIANTS, MAX_FIELD_DEPTH, UENUM_NAMES,
    UENUM_VARIANT_STRIDE, UFIELD_NEXT, UFUNCTION_FLAGS, UFUNCTION_FUNC, UOBJECT_CLASS,
    UOBJECT_FNAME, USTRUCT_CHILDREN, USTRUCT_CHILD_PROPERTIES, USTRUCT_PROPERTIES_SIZE,
    USTRUCT_SUPER,
};
use std::collections::HashMap;
use vstd::prelude::*;
use vstd::string::*;

verus! {

broadcast use {
    vstd::std_specs::hash::group_hash_axioms,
    crate::ue::fname::lemma_pool_keeps_itself,
    crate::ue::fname::lemma_pool_keeps_transitive,
};

// ── Dumps ───────────────────────────────────────────────────────────

#[derive(Debug)]
pub struct ClassDump {
    pub name: String,
    pub full_name: String,
    pub parent: Option<String>,
    pub size: u32,
    pub properties: Vec<PropertyDump>,
    pub functions: Vec<FunctionDump>,
}

#[derive(Debug)]
pub struct FunctionDump {
    pub name: String,
    pub full_name: String,
    pub flags: u32,
    pub native_func: u64,
    pub params: Vec<PropertyDump>,
}

#[derive(Debug)]
pub struct PropertyDump {
    pub name: String,
    pub prop_type: String,
    pub offset: u32,
    pub size: u32,
    pub array_dim: u32,
    pub inner_type: Option<String>,
    /// For `BoolProperty` only: the single bit within the containing byte that
    /// this bool occupies, if it's a native bitfield (e.g. `uint8 bFoo : 1`).
    /// `None` for regular `bool` fields (whole byte).
    pub bit_index: Option<u8>,
    /// For `BoolProperty` only: the raw `FieldMask`. `0xFF` means full byte
    /// (regular bool). A single bit set means bitfield.
    pub field_mask: Option<u8>,
}

#[derive(Debug)]
pub struct EnumDump {
    pub name: String,
    pub full_name: String,
    pub variants: Vec<EnumVariant>,
}

#[derive(Debug)]
pub struct EnumVariant {
    pub name: String,
    pub value: i64,
}

/// A [`ClassDump`] as a mathematical value.
pub struct ClassView {
    pub name: Seq<char>,
    pub full_name: Seq<char>,
    pub parent: Option<Seq<char>>,
    pub size: u32,
    pub properties: Seq<PropertyView>,
    pub functions: Seq<FunctionView>,
}

/// A [`FunctionDump`] as a mathematical value.
pub struct FunctionView {
    pub name: Seq<char>,
    pub full_name: Seq<char>,
    pub flags: u32,
    pub native_func: u64,
    pub params: Seq<PropertyView>,
}

/// A [`PropertyDump`] as a mathematical value.
pub struct PropertyView {
    pub name: Seq<char>,
    pub prop_type: Seq<char>,
    pub offset: u32,
    pub size: u32,
    pub array_dim: u32,
    pub inner_type: Option<Seq<char>>,
    pub bit_index: Option<u8>,
    pub field_mask: Option<u8>,
}

/// An [`EnumDump`] as a mathematical value.
pub struct EnumView {
    pub name: Seq<char>,
    pub full_name: Seq<char>,
    pub variants: Seq<VariantView>,
}

/// An [`EnumVariant`] as a mathematical value.
pub struct VariantView {
    pub name: Seq<char>,
    pub value: i64,
}

impl DeepView for ClassDump {
    type V = ClassView;

    open spec fn deep_view(&self) -> ClassView {
        ClassView {
            name: self.name@,
            full_name: self.full_name@,
            parent: self.parent.deep_view(),
            size: self.size,
            properties: self.properties.deep_view(),
            functions: self.functions.deep_view(),
        }
    }
}

impl DeepView for FunctionDump {
    type V = FunctionView;

    open spec fn deep_view(&self) -> FunctionView {
        FunctionView {
            name: self.name@,
            full_name: self.full_name@,
            flags: self.flags,
            native_func: self.native_func,
            params: self.params.deep_view(),
        }
    }
}

impl DeepView for PropertyDump {
    type V = PropertyView;

    open spec fn deep_view(&self) -> PropertyView {
        PropertyView {
            name: self.name@,
            prop_type: self.prop_type@,
            offset: self.offset,
            size: self.size,
            array_dim: self.array_dim,
            inner_type: self.inner_type.deep_view(),
            bit_index: self.bit_index,
            field_mask: self.field_mask,
        }
    }
}

impl DeepView for EnumDump {
    type V = EnumView;

    open spec fn deep_view(&self) -> EnumView {
        EnumView {
            name: self.name@,
            full_name: self.full_name@,
            variants: self.variants.deep_view(),
        }
    }
}

impl DeepView for EnumVariant {
    type V = VariantView;

    open spec fn deep_view(&self) -> VariantView {
        VariantView { name: self.name@, value: self.value }
    }
}

// ── Cached names ────────────────────────────────────────────────────

/// Names already resolved, by the address of what they name.
pub struct NameCache {
    names: HashMap<u64, String>,
}

impl View for NameCache {
    type V = Map<u64, Seq<char>>;

    closed spec fn view(&self) -> Map<u64, Seq<char>> {
        self.names@.map_values(|name: String| name@)
    }
}

/// What a cache holds once `addr` has been looked up: a name that was found is added,
/// and nothing else changes.
pub open spec fn cache_after(
    cache: Map<u64, Seq<char>>,
    addr: u64,
    r: Outcome<Option<String>>,
) -> Map<u64, Seq<char>> {
    match r {
        Ok(Some(name)) => cache.insert(addr, name@),
        _ => cache,
    }
}

impl NameCache {
    /// Every cached name is the one that stands `offset` behind its address.
    pub open spec fn sound(self, remote: Remote, offset: u64) -> bool {
        forall|addr: u64| #[trigger]
            self@.contains_key(addr) ==> remote.name_at(addr.wrapping_add(offset)) == Ok::<
                Option<Seq<char>>,
                crate::mem::Missing,
            >(Some(self@[addr]))
    }

    /// All that `other` has cached is cached here too.
    #[verifier::opaque]
    pub open spec fn keeps(self, other: NameCache) -> bool {
        other@.submap_of(self@)
    }

    pub fn new() -> (cache: Self)
        ensures
            cache@ == Map::<u64, Seq<char>>::empty(),
            forall|remote: Remote, offset: u64| #[trigger] cache.sound(remote, offset),
    {
        let cache = NameCache { names: HashMap::new() };
        assert(cache@ =~= Map::empty());
        cache
    }

    /// Resolve the FName that stands `offset` behind `addr`. A cached name comes back
    /// without a read.
    fn get(&mut self, proc: &ProcessHandle, names: &mut FNamePool, addr: u64, offset: u64) -> (r:
        Outcome<Option<String>>)
        requires
            old(self).sound(old(names).remote(proc@), offset),
        ensures
            crate::mem::shown(r) == old(names).remote(proc@).name_at(addr.wrapping_add(offset)),
            final(self)@ == cache_after(old(self)@, addr, r),
            final(self).sound(old(names).remote(proc@), offset),
            final(self).keeps(*old(self)),
            final(names).same(*old(names), proc@),
            old(self)@.contains_key(addr) ==> {
                &&& r matches Ok(Some(name)) && name@ == old(self)@[addr]
                &&& *final(self) == *old(self)
                &&& *final(names) == *old(names)
            },
            !old(self)@.contains_key(addr) ==> final(names).looked_up_at(
                *old(names),
                proc@,
                addr.wrapping_add(offset),
            ),
    {
        proof {
            reveal(NameCache::keeps);
        }
        if let Some(cached) = self.names.get(&addr) {
            let name = cached.clone();
            assert(old(self)@.contains_key(addr));
            assert(self@ =~= self@.insert(addr, name@));
            return Ok(Some(name));
        }
        match names.resolve(proc, addr.wrapping_add(offset))? {
            Some(name) => {
                self.names.insert(addr, name.clone());
                assert(self@ =~= old(self)@.insert(addr, name@));
                Ok(Some(name))
            },
            None => Ok(None),
        }
    }
}

/// A cache keeps what it has.
pub broadcast proof fn lemma_cache_keeps_itself(cache: NameCache)
    ensures
        #[trigger] cache.keeps(cache),
{
    reveal(NameCache::keeps);
}

/// What is kept twice is kept.
pub broadcast proof fn lemma_keeps_transitive(first: NameCache, second: NameCache, third: NameCache)
    requires
        #[trigger] second.keeps(first),
        #[trigger] third.keeps(second),
    ensures
        third.keeps(first),
{
    reveal(NameCache::keeps);
    assert forall|addr: u64| #[trigger] first@.dom().contains(addr) implies third@.dom().contains(
        addr,
    ) && first@[addr] == third@[addr] by {
        assert(second@.dom().contains(addr));
        assert(third@.dom().contains(addr));
    }
}

impl Remote {
    /// The name of the UObject at `addr`, unless `addr` is null.
    pub open spec fn class_name(self, addr: u64) -> Outcome<Option<Seq<char>>> {
        if addr == 0 {
            Ok(None)
        } else {
            self.object_name(addr)
        }
    }
}

/// Cache helper: resolve the FName of a UObject (used for class lookups).
pub fn get_cached_name(
    proc: &ProcessHandle,
    names: &mut FNamePool,
    cache: &mut NameCache,
    addr: u64,
) -> (r: Outcome<Option<String>>)
    requires
        old(cache).sound(old(names).remote(proc@), UOBJECT_FNAME),
    ensures
        crate::mem::shown(r) == old(names).remote(proc@).class_name(addr),
        final(cache)@ == cache_after(old(cache)@, addr, r),
        final(cache).sound(old(names).remote(proc@), UOBJECT_FNAME),
        final(cache).keeps(*old(cache)),
        final(names).same(*old(names), proc@),
        addr == 0 ==> *final(cache) == *old(cache) && *final(names) == *old(names),
        addr != 0 && old(cache)@.contains_key(addr) ==> {
            &&& r matches Ok(Some(name)) && name@ == old(cache)@[addr]
            &&& *final(cache) == *old(cache)
            &&& *final(names) == *old(names)
        },
        addr != 0 && !old(cache)@.contains_key(addr) ==> final(names).looked_up_at(
            *old(names),
            proc@,
            addr.wrapping_add(UOBJECT_FNAME),
        ),
{
    broadcast use {lemma_cache_keeps_itself, lemma_keeps_transitive};

    if addr == 0 {
        return Ok(None);
    }
    cache.get(proc, names, addr, UOBJECT_FNAME)
}

/// Cache helper for FFieldClass name resolution.
pub fn get_cached_ffield_class_name(
    proc: &ProcessHandle,
    names: &mut FNamePool,
    cache: &mut NameCache,
    addr: u64,
) -> (r: Outcome<Option<String>>)
    requires
        old(cache).sound(old(names).remote(proc@), FFIELD_CLASS_NAME),
    ensures
        crate::mem::shown(r) == old(names).remote(proc@).name_at(
            addr.wrapping_add(FFIELD_CLASS_NAME),
        ),
        final(cache)@ == cache_after(old(cache)@, addr, r),
        final(cache).sound(old(names).remote(proc@), FFIELD_CLASS_NAME),
        final(cache).keeps(*old(cache)),
        final(names).same(*old(names), proc@),
        old(cache)@.contains_key(addr) ==> {
            &&& r matches Ok(Some(name)) && name@ == old(cache)@[addr]
            &&& *final(cache) == *old(cache)
            &&& *final(names) == *old(names)
        },
        !old(cache)@.contains_key(addr) ==> final(names).looked_up_at(
            *old(names),
            proc@,
            addr.wrapping_add(FFIELD_CLASS_NAME),
        ),
{
    cache.get(proc, names, addr, FFIELD_CLASS_NAME)
}

/// Read a UObject's FName (Name field).
pub fn read_uobject_name(proc: &ProcessHandle, names: &mut FNamePool, addr: u64) -> (r: Outcome<
    Option<String>,
>)
    ensures
        crate::mem::shown(r) == old(names).remote(proc@).object_name(addr),
        final(names).same(*old(names), proc@),
        final(names).looked_up_at(*old(names), proc@, addr.wrapping_add(UOBJECT_FNAME)),
{
    names.resolve(proc, addr.wrapping_add(UOBJECT_FNAME))
}

/// Read an FName at an arbitrary address.
pub fn read_fname_at(proc: &ProcessHandle, names: &mut FNamePool, addr: u64) -> (r: Outcome<
    Option<String>,
>)
    ensures
        crate::mem::shown(r) == old(names).remote(proc@).name_at(addr),
        final(names).same(*old(names), proc@),
        final(names).looked_up_at(*old(names), proc@, addr),
{
    names.resolve(proc, addr)
}

// ── Inner types ─────────────────────────────────────────────────────

impl Remote {
    /// The name of the UObject that the pointer at `addr` refers to.
    pub open spec fn pointee_name(self, addr: u64) -> Outcome<Option<Seq<char>>> {
        match self.mem.value_or::<u64>(addr, 0) {
            Err(e) => Err(e),
            Ok(inner) => self.class_name(inner),
        }
    }

    /// The type name of the FProperty at `prop`, unless `prop` is null or has no class.
    pub open spec fn field_class_name(self, prop: u64) -> Outcome<Option<Seq<char>>> {
        if prop == 0 {
            Ok(None)
        } else {
            match self.mem.value_or::<u64>(prop.wrapping_add(FFIELD_CLASS_PRIVATE), 0) {
                Err(e) => Err(e),
                Ok(cls) => if cls == 0 {
                    Ok(None)
                } else {
                    self.name_at(cls.wrapping_add(FFIELD_CLASS_NAME))
                },
            }
        }
    }

    /// The type name of the FProperty that the pointer at `addr` refers to.
    pub open spec fn pointee_type(self, addr: u64) -> Outcome<Option<Seq<char>>> {
        match self.mem.value_or::<u64>(addr, 0) {
            Err(e) => Err(e),
            Ok(inner) => self.field_class_name(inner),
        }
    }

    /// What a map property at `field` maps: `"Key -> Value"`, with `?` for a type
    /// that has no name.
    pub open spec fn map_type(self, field: u64) -> Outcome<Option<Seq<char>>> {
        match self.mem.value_or::<u64>(field.wrapping_add(FMAP_PROP_KEY), 0) {
            Err(e) => Err(e),
            Ok(key) => match self.mem.value_or::<u64>(field.wrapping_add(FMAP_PROP_VALUE), 0) {
                Err(e) => Err(e),
                Ok(val) => match self.field_class_name(key) {
                    Err(e) => Err(e),
                    Ok(key_name) => match self.field_class_name(val) {
                        Err(e) => Err(e),
                        Ok(val_name) => Ok(
                            Some(text_or(key_name, "?"@) + " -> "@ + text_or(val_name, "?"@)),
                        ),
                    },
                },
            },
        }
    }

    /// What a property of type `kind` at `field` holds or refers to.
    pub open spec fn inner_type(self, kind: Seq<char>, field: u64) -> Outcome<
        Option<Seq<char>>,
    > {
        if kind == "StructProperty"@ {
            self.pointee_name(field.wrapping_add(FSTRUCT_PROP_STRUCT))
        } else if refers_to_object(kind) {
            self.pointee_name(field.wrapping_add(FOBJECT_PROP_CLASS))
        } else if kind == "ArrayProperty"@ {
            self.pointee_type(field.wrapping_add(FARRAY_PROP_INNER))
        } else if kind == "MapProperty"@ {
            self.map_type(field)
        } else if kind == "SetProperty"@ {
            self.pointee_type(field.wrapping_add(FSET_PROP_ELEMENT))
        } else if kind == "EnumProperty"@ {
            self.pointee_name(field.wrapping_add(FENUM_PROP_ENUM))
        } else {
            Ok(None)
        }
    }
}

/// `text`, or `default` if there is none.
pub open spec fn text_or(text: Option<Seq<char>>, default: Seq<char>) -> Seq<char> {
    match text {
        Some(text) => text,
        None => default,
    }
}

/// A property type that refers to one object.
pub open spec fn refers_to_object(kind: Seq<char>) -> bool {
    ||| kind == "ObjectProperty"@
    ||| kind == "ObjectPtrProperty"@
    ||| kind == "SoftObjectProperty"@
    ||| kind == "WeakObjectProperty"@
    ||| kind == "LazyObjectProperty"@
}

fn is_object_property(kind: &str) -> (r: bool)
    ensures
        r == refers_to_object(kind@),
{
    str_equal(kind, "ObjectProperty") || str_equal(kind, "ObjectPtrProperty")
        || str_equal(kind, "SoftObjectProperty") || str_equal(kind, "WeakObjectProperty")
        || str_equal(kind, "LazyObjectProperty")
}

fn read_pointee_name(proc: &ProcessHandle, names: &mut FNamePool, addr: u64) -> (r: Outcome<
    Option<String>,
>)
    ensures
        crate::mem::shown(r) == old(names).remote(proc@).pointee_name(addr),
        final(names).same(*old(names), proc@),
{
    let inner: u64 = proc.read_or::<u64>(addr, 0)?;
    if inner != 0 {
        return read_uobject_name(proc, names, inner);
    }
    Ok(None)
}

fn read_field_class_name(proc: &ProcessHandle, names: &mut FNamePool, prop: u64) -> (r: Outcome<
    Option<String>,
>)
    ensures
        crate::mem::shown(r) == old(names).remote(proc@).field_class_name(prop),
        final(names).same(*old(names), proc@),
{
    if prop != 0 {
        let cls: u64 = proc.read_or::<u64>(prop.wrapping_add(FFIELD_CLASS_PRIVATE), 0)?;
        if cls != 0 {
            return read_fname_at(proc, names, cls.wrapping_add(FFIELD_CLASS_NAME));
        }
    }
    Ok(None)
}

fn read_pointee_type(proc: &ProcessHandle, names: &mut FNamePool, addr: u64) -> (r: Outcome<
    Option<String>,
>)
    ensures
        crate::mem::shown(r) == old(names).remote(proc@).pointee_type(addr),
        final(names).same(*old(names), proc@),
{
    let inner: u64 = proc.read_or::<u64>(addr, 0)?;
    read_field_class_name(proc, names, inner)
}

fn read_map_type(proc: &ProcessHandle, names: &mut FNamePool, field_addr: u64) -> (r: Outcome<
    Option<String>,
>)
    ensures
        crate::mem::shown(r) == old(names).remote(proc@).map_type(field_addr),
        final(names).same(*old(names), proc@),
{
    let key: u64 = proc.read_or::<u64>(field_addr.wrapping_add(FMAP_PROP_KEY), 0)?;
    let val: u64 = proc.read_or::<u64>(field_addr.wrapping_add(FMAP_PROP_VALUE), 0)?;
    let key_name = read_field_class_name(proc, names, key)?;
    assert(names.remote(proc@) == old(names).remote(proc@));
    let val_name = read_field_class_name(proc, names, val)?;
    let mut out = match key_name {
        Some(name) => name,
        None => "?".to_owned(),
    };
    out.append(" -> ");
    match val_name {
        Some(name) => out.append(name.as_str()),
        None => out.append("?"),
    }
    Ok(Some(out))
}

/// Resolve inner type info for known property subtypes.
pub fn resolve_inner_type(
    proc: &ProcessHandle,
    names: &mut FNamePool,
    kind: &str,
    field_addr: u64,
) -> (r: Outcome<Option<String>>)
    ensures
        crate::mem::shown(r) == old(names).remote(proc@).inner_type(kind@, field_addr),
        final(names).same(*old(names), proc@),
{
    if str_equal(kind, "StructProperty") {
        // FStructProperty::Struct -> UScriptStruct*, read its name
        read_pointee_name(proc, names, field_addr.wrapping_add(FSTRUCT_PROP_STRUCT))
    } else if is_object_property(kind) {
        read_pointee_name(proc, names, field_addr.wrapping_add(FOBJECT_PROP_CLASS))
    } else if str_equal(kind, "ArrayProperty") {
        // Inner is an FProperty: read its FFieldClass name
        read_pointee_type(proc, names, field_addr.wrapping_add(FARRAY_PROP_INNER))
    } else if str_equal(kind, "MapProperty") {
        read_map_type(proc, names, field_addr)
    } else if str_equal(kind, "SetProperty") {
        read_pointee_type(proc, names, field_addr.wrapping_add(FSET_PROP_ELEMENT))
    } else if str_equal(kind, "EnumProperty") {
        read_pointee_name(proc, names, field_addr.wrapping_add(FENUM_PROP_ENUM))
    } else {
        Ok(None)
    }
}

// ── Properties ──────────────────────────────────────────────────────

/// The bit that a `FieldMask` selects, if it selects exactly one.
pub open spec fn mask_bit(mask: u8) -> Option<u8> {
    if mask == 0x01 {
        Some(0)
    } else if mask == 0x02 {
        Some(1)
    } else if mask == 0x04 {
        Some(2)
    } else if mask == 0x08 {
        Some(3)
    } else if mask == 0x10 {
        Some(4)
    } else if mask == 0x20 {
        Some(5)
    } else if mask == 0x40 {
        Some(6)
    } else if mask == 0x80 {
        Some(7)
    } else {
        None
    }
}

/// FieldMask = 0xFF is a regular bool; a single bit set is a bitfield.
pub fn single_bit(mask: u8) -> (r: Option<u8>)
    ensures
        r == mask_bit(mask),
{
    match mask {
        0x01 => Some(0),
        0x02 => Some(1),
        0x04 => Some(2),
        0x08 => Some(3),
        0x10 => Some(4),
        0x20 => Some(5),
        0x40 => Some(6),
        0x80 => Some(7),
        _ => None,
    }
}

impl Remote {
    /// The type name of the FField at `field`.
    pub open spec fn property_type(self, field: u64) -> Outcome<Seq<char>> {
        match self.mem.value_or::<u64>(field.wrapping_add(FFIELD_CLASS_PRIVATE), 0) {
            Err(e) => Err(e),
            Ok(cls) => if cls == 0 {
                Ok("Unknown"@)
            } else {
                match self.name_at(cls.wrapping_add(FFIELD_CLASS_NAME)) {
                    Err(e) => Err(e),
                    Ok(name) => Ok(text_or(name, "Unknown"@)),
                }
            },
        }
    }

    /// The FieldMask of the FField at `field`, if its type has one.
    pub open spec fn property_mask(self, kind: Seq<char>, field: u64) -> Outcome<Option<u8>> {
        if kind == "BoolProperty"@ {
            match self.mem.value_or::<u8>(field.wrapping_add(FBOOL_PROP_FIELD_MASK), 0xFF) {
                Err(e) => Err(e),
                Ok(mask) => Ok(Some(mask)),
            }
        } else {
            Ok(None)
        }
    }

    /// The FProperty at `field`.
    pub open spec fn property(self, field: u64) -> Outcome<Option<PropertyView>> {
        let name = self.name_at(field.wrapping_add(FFIELD_NAME));
        let kind = self.property_type(field);
        let array_dim = self.mem.value_or::<u32>(field.wrapping_add(FPROPERTY_ARRAY_DIM), 1);
        let size = self.mem.value_or::<u32>(field.wrapping_add(FPROPERTY_ELEMENT_SIZE), 0);
        let offset = self.mem.value_or::<u32>(field.wrapping_add(FPROPERTY_OFFSET), 0);
        let inner_type = self.inner_type(kind->Ok_0, field);
        let mask = self.property_mask(kind->Ok_0, field);
        if name is Err {
            Err(name->Err_0)
        } else if kind is Err {
            Err(kind->Err_0)
        } else if array_dim is Err {
            Err(array_dim->Err_0)
        } else if size is Err {
            Err(size->Err_0)
        } else if offset is Err {
            Err(offset->Err_0)
        } else if inner_type is Err {
            Err(inner_type->Err_0)
        } else if mask is Err {
            Err(mask->Err_0)
        } else {
            Ok(
                Some(
                    PropertyView {
                        name: text_or(name->Ok_0, seq![]),
                        prop_type: kind->Ok_0,
                        offset: offset->Ok_0,
                        size: size->Ok_0,
                        array_dim: array_dim->Ok_0,
                        inner_type: inner_type->Ok_0,
                        bit_index: match mask->Ok_0 {
                            Some(mask) => mask_bit(mask),
                            None => None,
                        },
                        field_mask: mask->Ok_0,
                    },
                ),
            )
        }
    }

    /// What `item` gives for each node of a linked list that starts at `node`, over
    /// `fuel` nodes at most; each node holds the next one's address at `link`.
    pub open spec fn chain<T>(
        self,
        item: spec_fn(u64) -> Outcome<Option<T>>,
        link: u64,
        node: u64,
        fuel: nat,
    ) -> Outcome<Seq<T>>
        decreases fuel,
    {
        if node == 0 || fuel == 0 {
            Ok(seq![])
        } else {
            match item(node) {
                Err(e) => Err(e),
                Ok(found) => match self.mem.value_or::<u64>(node.wrapping_add(link), 0) {
                    Err(e) => Err(e),
                    Ok(next) => match self.chain(item, link, next, (fuel - 1) as nat) {
                        Err(e) => Err(e),
                        Ok(rest) => Ok(crate::walk::optional(found) + rest),
                    },
                },
            }
        }
    }

    /// The FProperty at each address.
    pub open spec fn property_nodes(self) -> spec_fn(u64) -> Outcome<Option<PropertyView>> {
        |field: u64| self.property(field)
    }

    /// The properties of the UStruct at `addr`.
    pub open spec fn properties(self, addr: u64) -> Outcome<Seq<PropertyView>> {
        match self.mem.value_or::<u64>(addr.wrapping_add(USTRUCT_CHILD_PROPERTIES), 0) {
            Err(e) => Err(e),
            Ok(first) => self.chain(
                self.property_nodes(),
                FFIELD_NEXT,
                first,
                MAX_FIELD_DEPTH as nat,
            ),
        }
    }
}

/// What is left of a chain once the nodes in front of `rest` have given `done`.
pub open spec fn behind<T>(done: Seq<T>, rest: Outcome<Seq<T>>) -> Outcome<Seq<T>> {
    match rest {
        Err(e) => Err(e),
        Ok(rest) => Ok(done + rest),
    }
}

/// Taking one node off a chain adds what it gives to what the nodes in front gave.
proof fn lemma_chain_step<T>(
    remote: Remote,
    item: spec_fn(u64) -> Outcome<Option<T>>,
    link: u64,
    node: u64,
    fuel: nat,
    done: Seq<T>,
)
    requires
        node != 0,
        fuel > 0,
        item(node) is Ok,
        remote.mem.value_or::<u64>(node.wrapping_add(link), 0) is Ok,
    ensures
        behind(done, remote.chain(item, link, node, fuel)) == behind(
            done + crate::walk::optional(item(node)->Ok_0),
            remote.chain(
                item,
                link,
                remote.mem.value_or::<u64>(node.wrapping_add(link), 0)->Ok_0,
                (fuel - 1) as nat,
            ),
        ),
{
    let found = crate::walk::optional(item(node)->Ok_0);
    match remote.chain(
        item,
        link,
        remote.mem.value_or::<u64>(node.wrapping_add(link), 0)->Ok_0,
        (fuel - 1) as nat,
    ) {
        Ok(rest) => {
            assert(done + (found + rest) =~= done + found + rest);
        },
        Err(_) => {},
    }
}

fn read_property_type(
    proc: &ProcessHandle,
    names: &mut FNamePool,
    field_class_cache: &mut NameCache,
    field_addr: u64,
) -> (r: Outcome<String>)
    requires
        old(field_class_cache).sound(old(names).remote(proc@), FFIELD_CLASS_NAME),
    ensures
        crate::mem::shown(r) == old(names).remote(proc@).property_type(field_addr),
        final(field_class_cache).sound(old(names).remote(proc@), FFIELD_CLASS_NAME),
        final(field_class_cache).keeps(*old(field_class_cache)),
        final(names).same(*old(names), proc@),
{
    broadcast use {lemma_cache_keeps_itself, lemma_keeps_transitive};

    let class_private: u64 = proc.read_or::<u64>(field_addr.wrapping_add(FFIELD_CLASS_PRIVATE), 0)?;
    if class_private == 0 {
        return Ok("Unknown".to_owned());
    }
    match get_cached_ffield_class_name(proc, names, field_class_cache, class_private)? {
        Some(name) => Ok(name),
        None => Ok("Unknown".to_owned()),
    }
}

/// Read the FProperty at `field_addr`.
fn read_property(
    proc: &ProcessHandle,
    names: &mut FNamePool,
    field_class_cache: &mut NameCache,
    field_addr: u64,
) -> (r: Outcome<PropertyDump>)
    requires
        old(field_class_cache).sound(old(names).remote(proc@), FFIELD_CLASS_NAME),
    ensures
        old(names).remote(proc@).property(field_addr) == (match r {
            Ok(p) => Ok(Some(p.deep_view())),
            Err(e) => Err(e),
        }),
        final(field_class_cache).sound(old(names).remote(proc@), FFIELD_CLASS_NAME),
        final(field_class_cache).keeps(*old(field_class_cache)),
        final(names).same(*old(names), proc@),
{
    broadcast use {lemma_cache_keeps_itself, lemma_keeps_transitive};

    let ghost remote = names.remote(proc@);
    let name = match names.resolve(proc, field_addr.wrapping_add(FFIELD_NAME))? {
        Some(name) => name,
        None => String::new(),
    };
    assert(names.remote(proc@) == remote);
    let prop_type = read_property_type(proc, names, field_class_cache, field_addr)?;
    assert(names.remote(proc@) == remote);
    let array_dim: u32 = proc.read_or::<u32>(field_addr.wrapping_add(FPROPERTY_ARRAY_DIM), 1)?;
    let size: u32 = proc.read_or::<u32>(field_addr.wrapping_add(FPROPERTY_ELEMENT_SIZE), 0)?;
    let offset: u32 = proc.read_or::<u32>(field_addr.wrapping_add(FPROPERTY_OFFSET), 0)?;
    // Try to resolve inner type info for container/struct properties
    let inner_type = resolve_inner_type(proc, names, prop_type.as_str(), field_addr)?;
    assert(names.remote(proc@) == remote);
    // BoolProperty gets extra FieldMask info for native bitfield detection.
    let (bit_index, field_mask) = if str_equal(prop_type.as_str(), "BoolProperty") {
        let mask: u8 = proc.read_or::<u8>(field_addr.wrapping_add(FBOOL_PROP_FIELD_MASK), 0xFF)?;
        (single_bit(mask), Some(mask))
    } else {
        (None, None)
    };
    Ok(PropertyDump { name, prop_type, offset, size, array_dim, inner_type, bit_index, field_mask })
}

/// Walk the ChildProperties linked list of a UStruct. Names that are cached stay cached.
pub fn walk_properties(
    proc: &ProcessHandle,
    names: &mut FNamePool,
    field_class_cache: &mut NameCache,
    struct_addr: u64,
) -> (r: Outcome<Vec<PropertyDump>>)
    requires
        old(field_class_cache).sound(old(names).remote(proc@), FFIELD_CLASS_NAME),
    ensures
        crate::mem::shown(r) == old(names).remote(proc@).properties(struct_addr),
        final(field_class_cache).sound(old(names).remote(proc@), FFIELD_CLASS_NAME),
        final(field_class_cache).keeps(*old(field_class_cache)),
        final(names).same(*old(names), proc@),
{
    let ghost remote = names.remote(proc@);
    let ghost item = remote.property_nodes();
    let mut props: Vec<PropertyDump> = Vec::new();
    proof {
        lemma_cache_keeps_itself(*field_class_cache);
    }
    let mut field_addr: u64 = proc.read_or::<u64>(
        struct_addr.wrapping_add(USTRUCT_CHILD_PROPERTIES),
        0,
    )?;
    let ghost whole = remote.chain(item, FFIELD_NEXT, field_addr, MAX_FIELD_DEPTH as nat);
    proof {
        assert(props.deep_view() =~= seq![]);
        if whole is Ok {
            assert(props.deep_view() + whole->Ok_0 =~= whole->Ok_0);
        }
    }
    let mut depth: usize = 0;
    while field_addr != 0 && depth < MAX_FIELD_DEPTH
        invariant
            depth <= MAX_FIELD_DEPTH,
            names.same(*old(names), proc@),
            remote == old(names).remote(proc@),
            item == remote.property_nodes(),
            field_class_cache.sound(remote, FFIELD_CLASS_NAME),
            field_class_cache.keeps(*old(field_class_cache)),
            remote.properties(struct_addr) == whole,
            whole == behind(
                props.deep_view(),
                remote.chain(item, FFIELD_NEXT, field_addr, (MAX_FIELD_DEPTH - depth) as nat),
            ),
        decreases MAX_FIELD_DEPTH - depth,
    {
        assert(names.remote(proc@) == remote);
        let ghost node = field_addr;
        let ghost cached = *field_class_cache;
        let read = read_property(proc, names, field_class_cache, field_addr);
        proof {
            lemma_keeps_transitive(*old(field_class_cache), cached, *field_class_cache);
        }
        let prop = read?;
        let ghost before = props.deep_view();
        let ghost seen = prop.deep_view();
        // Follow Next pointer
        field_addr = proc.read_or::<u64>(field_addr.wrapping_add(FFIELD_NEXT), 0)?;
        props.push(prop);
        proof {
            assert(props.deep_view() =~= before + crate::walk::optional(Some(seen)));
            lemma_chain_step(
                remote,
                item,
                FFIELD_NEXT,
                node,
                (MAX_FIELD_DEPTH - depth) as nat,
                before,
            );
        }
        depth = depth + 1;
    }
    assert(props.deep_view() + Seq::<PropertyView>::empty() =~= props.deep_view());
    Ok(props)
}

// ── Functions ───────────────────────────────────────────────────────

impl Remote {
    /// The name of the UObject at `addr`, with zero for what cannot be read of it.
    pub open spec fn lenient_name(self, addr: u64) -> Outcome<Option<Seq<char>>> {
        match self.mem.value_or::<u32>(addr.wrapping_add(UOBJECT_FNAME), 0) {
            Err(e) => Err(e),
            Ok(idx) => match self.mem.value_or::<u32>(
                addr.wrapping_add(UOBJECT_FNAME).wrapping_add(4),
                0,
            ) {
                Err(e) => Err(e),
                Ok(number) => self.names.name(idx, number),
            },
        }
    }

    /// The UFunction at `addr`.
    pub open spec fn function_at(self, addr: u64) -> Outcome<Option<FunctionView>> {
        let name = self.lenient_name(addr);
        let full_name = self.full_name(addr);
        let flags = self.mem.value_or::<u32>(addr.wrapping_add(UFUNCTION_FLAGS), 0);
        let native_func = self.mem.value_or::<u64>(addr.wrapping_add(UFUNCTION_FUNC), 0);
        let params = self.properties(addr);
        if name is Err {
            Err(name->Err_0)
        } else if full_name is Err {
            Err(full_name->Err_0)
        } else if flags is Err {
            Err(flags->Err_0)
        } else if native_func is Err {
            Err(native_func->Err_0)
        } else if params is Err {
            Err(params->Err_0)
        } else {
            Ok(
                Some(
                    FunctionView {
                        name: text_or(name->Ok_0, seq![]),
                        full_name: text_or(full_name->Ok_0, text_or(name->Ok_0, seq![])),
                        flags: flags->Ok_0,
                        native_func: native_func->Ok_0,
                        params: params->Ok_0,
                    },
                ),
            )
        }
    }

    /// The UField at `addr`, if it is a UFunction.
    pub open spec fn function(self, addr: u64) -> Outcome<Option<FunctionView>> {
        match self.mem.value_or::<u64>(addr.wrapping_add(UOBJECT_CLASS), 0) {
            Err(e) => Err(e),
            Ok(class_addr) => match self.class_name(class_addr) {
                Err(e) => Err(e),
                Ok(class) => if class == Some("Function"@) {
                    self.function_at(addr)
                } else {
                    Ok(None)
                },
            },
        }
    }

    /// The UFunction at each address.
    pub open spec fn function_nodes(self) -> spec_fn(u64) -> Outcome<Option<FunctionView>> {
        |addr: u64| self.function(addr)
    }

    /// The functions of the UStruct at `addr`.
    pub open spec fn functions(self, addr: u64) -> Outcome<Seq<FunctionView>> {
        match self.mem.value_or::<u64>(addr.wrapping_add(USTRUCT_CHILDREN), 0) {
            Err(e) => Err(e),
            Ok(first) => self.chain(
                self.function_nodes(),
                UFIELD_NEXT,
                first,
                MAX_FIELD_DEPTH as nat,
            ),
        }
    }
}

fn read_lenient_name(proc: &ProcessHandle, names: &mut FNamePool, addr: u64) -> (r: Outcome<
    Option<String>,
>)
    ensures
        crate::mem::shown(r) == old(names).remote(proc@).lenient_name(addr),
        final(names).same(*old(names), proc@),
{
    let idx: u32 = proc.read_or::<u32>(addr.wrapping_add(UOBJECT_FNAME), 0)?;
    let num: u32 = proc.read_or::<u32>(addr.wrapping_add(UOBJECT_FNAME).wrapping_add(4), 0)?;
    names.resolve_index(proc, idx, num)
}

/// Read the UFunction at `ufield_addr`.
fn read_function(
    proc: &ProcessHandle,
    names: &mut FNamePool,
    gobjects: &GObjects,
    field_class_cache: &mut NameCache,
    ufield_addr: u64,
) -> (r: Outcome<FunctionDump>)
    requires
        old(field_class_cache).sound(old(names).remote(proc@), FFIELD_CLASS_NAME),
    ensures
        old(names).remote(proc@).function_at(ufield_addr) == (match r {
            Ok(f) => Ok(Some(f.deep_view())),
            Err(e) => Err(e),
        }),
        final(field_class_cache).sound(old(names).remote(proc@), FFIELD_CLASS_NAME),
        final(field_class_cache).keeps(*old(field_class_cache)),
        final(names).same(*old(names), proc@),
{
    broadcast use {lemma_cache_keeps_itself, lemma_keeps_transitive};

    let ghost remote = names.remote(proc@);
    let name = match read_lenient_name(proc, names, ufield_addr)? {
        Some(name) => name,
        None => String::new(),
    };
    assert(names.remote(proc@) == remote);
    let full_name = match gobjects.full_name(proc, names, ufield_addr)? {
        Some(full) => full,
        None => name.clone(),
    };
    assert(names.remote(proc@) == remote);
    let flags: u32 = proc.read_or::<u32>(ufield_addr.wrapping_add(UFUNCTION_FLAGS), 0)?;
    let native_func: u64 = proc.read_or::<u64>(ufield_addr.wrapping_add(UFUNCTION_FUNC), 0)?;
    // Walk the function's own ChildProperties for parameters
    let params = walk_properties(proc, names, field_class_cache, ufield_addr)?;
    Ok(FunctionDump { name, full_name, flags, native_func, params })
}

/// Read the UField at `ufield_addr`, if its class says that it is a UFunction.
fn read_if_function(
    proc: &ProcessHandle,
    names: &mut FNamePool,
    gobjects: &GObjects,
    class_name_cache: &mut NameCache,
    field_class_cache: &mut NameCache,
    ufield_addr: u64,
) -> (r: Outcome<Option<FunctionDump>>)
    requires
        old(class_name_cache).sound(old(names).remote(proc@), UOBJECT_FNAME),
        old(field_class_cache).sound(old(names).remote(proc@), FFIELD_CLASS_NAME),
    ensures
        crate::mem::shown(r) == old(names).remote(proc@).function(ufield_addr),
        final(class_name_cache).sound(old(names).remote(proc@), UOBJECT_FNAME),
        final(class_name_cache).keeps(*old(class_name_cache)),
        final(field_class_cache).sound(old(names).remote(proc@), FFIELD_CLASS_NAME),
        final(field_class_cache).keeps(*old(field_class_cache)),
        final(names).same(*old(names), proc@),
{
    broadcast use {lemma_cache_keeps_itself, lemma_keeps_transitive};

    let ghost remote = names.remote(proc@);
    let class_addr: u64 = proc.read_or::<u64>(ufield_addr.wrapping_add(UOBJECT_CLASS), 0)?;
    let class_name = get_cached_name(proc, names, class_name_cache, class_addr)?;
    assert(names.remote(proc@) == remote);
    match class_name {
        Some(class_name) => {
            if !str_equal(class_name.as_str(), "Function") {
                return Ok(None);
            }
        },
        None => {
            return Ok(None);
        },
    }
    let found = read_function(proc, names, gobjects, field_class_cache, ufield_addr)?;
    Ok(Some(found))
}

/// Walk the Children linked list of a UStruct (UField chain to UFunctions). Names that
/// are cached stay cached.
pub fn walk_functions(
    proc: &ProcessHandle,
    names: &mut FNamePool,
    gobjects: &GObjects,
    class_name_cache: &mut NameCache,
    field_class_cache: &mut NameCache,
    struct_addr: u64,
) -> (r: Outcome<Vec<FunctionDump>>)
    requires
        old(class_name_cache).sound(old(names).remote(proc@), UOBJECT_FNAME),
        old(field_class_cache).sound(old(names).remote(proc@), FFIELD_CLASS_NAME),
    ensures
        crate::mem::shown(r) == old(names).remote(proc@).functions(struct_addr),
        final(class_name_cache).sound(old(names).remote(proc@), UOBJECT_FNAME),
        final(class_name_cache).keeps(*old(class_name_cache)),
        final(field_class_cache).sound(old(names).remote(proc@), FFIELD_CLASS_NAME),
        final(field_class_cache).keeps(*old(field_class_cache)),
        final(names).same(*old(names), proc@),
{
    let ghost remote = names.remote(proc@);
    let ghost item = remote.function_nodes();
    let mut funcs: Vec<FunctionDump> = Vec::new();
    proof {
        lemma_cache_keeps_itself(*class_name_cache);
        lemma_cache_keeps_itself(*field_class_cache);
    }
    let mut ufield_addr: u64 = proc.read_or::<u64>(struct_addr.wrapping_add(USTRUCT_CHILDREN), 0)?;
    let ghost whole = remote.chain(item, UFIELD_NEXT, ufield_addr, MAX_FIELD_DEPTH as nat);
    proof {
        assert(funcs.deep_view() =~= seq![]);
        if whole is Ok {
            assert(funcs.deep_view() + whole->Ok_0 =~= whole->Ok_0);
        }
    }
    let mut depth: usize = 0;
    while ufield_addr != 0 && depth < MAX_FIELD_DEPTH
        invariant
            depth <= MAX_FIELD_DEPTH,
            names.same(*old(names), proc@),
            remote == old(names).remote(proc@),
            item == remote.function_nodes(),
            class_name_cache.sound(remote, UOBJECT_FNAME),
            field_class_cache.sound(remote, FFIELD_CLASS_NAME),
            class_name_cache.keeps(*old(class_name_cache)),
            field_class_cache.keeps(*old(field_class_cache)),
            remote.functions(struct_addr) == whole,
            whole == behind(
                funcs.deep_view(),
                remote.chain(item, UFIELD_NEXT, ufield_addr, (MAX_FIELD_DEPTH - depth) as nat),
            ),
        decreases MAX_FIELD_DEPTH - depth,
    {
        assert(names.remote(proc@) == remote);
        let ghost node = ufield_addr;
        let ghost classes = *class_name_cache;
        let ghost fields = *field_class_cache;
        let read = read_if_function(
            proc,
            names,
            gobjects,
            class_name_cache,
            field_class_cache,
            ufield_addr,
        );
        proof {
            lemma_keeps_transitive(*old(class_name_cache), classes, *class_name_cache);
            lemma_keeps_transitive(*old(field_class_cache), fields, *field_class_cache);
        }
        let found = read?;
        let ghost before = funcs.deep_view();
        let ghost seen = found.deep_view();
        // Follow UField::Next
        ufield_addr = proc.read_or::<u64>(ufield_addr.wrapping_add(UFIELD_NEXT), 0)?;
        if let Some(func) = found {
            funcs.push(func);
        }
        proof {
            assert(funcs.deep_view() =~= before + crate::walk::optional(seen));
            lemma_chain_step(
                remote,
                item,
                UFIELD_NEXT,
                node,
                (MAX_FIELD_DEPTH - depth) as nat,
                before,
            );
        }
        depth = depth + 1;
    }
    assert(funcs.deep_view() + Seq::<FunctionView>::empty() =~= funcs.deep_view());
    Ok(funcs)
}

// ── Classes ─────────────────────────────────────────────────────────

/// `filter`, if there is one, occurs in a name or in a full name.
pub open spec fn selects(filter: Option<Seq<char>>, name: Seq<char>, full_name: Seq<char>) -> bool {
    match filter {
        Some(pat) => crate::text::contains_text(name, pat) || crate::text::contains_text(
            full_name,
            pat,
        ),
        None => true,
    }
}

fn is_selected(filter: Option<&str>, name: &str, full_name: &str) -> (r: bool)
    ensures
        r == selects(filter.deep_view(), name@, full_name@),
{
    match filter {
        Some(pat) => str_contains(name, pat) || str_contains(full_name, pat),
        None => true,
    }
}

impl Remote {
    /// The name of the UStruct that the one at `addr` extends.
    pub open spec fn parent(self, addr: u64) -> Outcome<Option<Seq<char>>> {
        match self.mem.value_or::<u64>(addr.wrapping_add(USTRUCT_SUPER), 0) {
            Err(e) => Err(e),
            Ok(above) => if above != 0 {
                self.lenient_name(above)
            } else {
                Ok(None)
            },
        }
    }

    /// The name and the full name of an object, the latter as far as it has one.
    pub open spec fn titles(self, obj: UObjectRef) -> Outcome<
        Option<(Seq<char>, Option<Seq<char>>)>,
    > {
        match self.names.name(obj.name_idx, obj.name_number) {
            Err(e) => Err(e),
            Ok(None) => Ok(None),
            Ok(Some(name)) => match self.full_name(obj.addr) {
                Err(e) => Err(e),
                Ok(full_name) => Ok(Some((name, full_name))),
            },
        }
    }

    /// The layout of the UStruct at `addr` of the given names.
    pub open spec fn class_at(
        self,
        addr: u64,
        name: Seq<char>,
        full_name: Seq<char>,
    ) -> Outcome<Option<ClassView>> {
        let parent = self.parent(addr);
        let size = self.mem.value_or::<u32>(addr.wrapping_add(USTRUCT_PROPERTIES_SIZE), 0);
        let properties = self.properties(addr);
        let functions = self.functions(addr);
        if parent is Err {
            Err(parent->Err_0)
        } else if size is Err {
            Err(size->Err_0)
        } else if properties is Err {
            Err(properties->Err_0)
        } else if functions is Err {
            Err(functions->Err_0)
        } else {
            Ok(
                Some(
                    ClassView {
                        name,
                        full_name,
                        parent: parent->Ok_0,
                        size: size->Ok_0,
                        properties: properties->Ok_0,
                        functions: functions->Ok_0,
                    },
                ),
            )
        }
    }

    /// The name of `obj`, and its full name or the name again, if `filter` selects it.
    pub open spec fn selected_titles(self, obj: UObjectRef, filter: Option<Seq<char>>) -> Outcome<
        Option<(Seq<char>, Seq<char>)>,
    > {
        match self.titles(obj) {
            Err(e) => Err(e),
            Ok(None) => Ok(None),
            Ok(Some((name, full_name))) => if selects(filter, name, text_or(full_name, seq![])) {
                Ok(Some((name, text_or(full_name, name))))
            } else {
                Ok(None)
            },
        }
    }

    /// The dump of an object, if it is a UClass or a UScriptStruct that `filter` selects.
    pub open spec fn class(self, obj: UObjectRef, filter: Option<Seq<char>>) -> Outcome<
        Option<ClassView>,
    > {
        match self.class_name(obj.class_addr) {
            Err(e) => Err(e),
            Ok(class) => if class != Some("Class"@) && class != Some("ScriptStruct"@) {
                Ok(None)
            } else {
                match self.titles(obj) {
                    Err(e) => Err(e),
                    Ok(None) => Ok(None),
                    Ok(Some((name, full_name))) => if selects(
                        filter,
                        name,
                        text_or(full_name, seq![]),
                    ) {
                        self.class_at(obj.addr, name, text_or(full_name, name))
                    } else {
                        Ok(None)
                    },
                }
            },
        }
    }

    /// The dump of each of `objects` by its number.
    pub open spec fn class_items(self, objects: Seq<UObjectRef>, filter: Option<Seq<char>>) -> spec_fn(
        int,
    ) -> Outcome<Option<ClassView>> {
        |i: int| self.class(objects[i], filter)
    }

    /// The dumps of all classes and structs among `objects` that `filter` selects.
    pub open spec fn classes(self, objects: Seq<UObjectRef>, filter: Option<Seq<char>>) -> Outcome<
        Seq<ClassView>,
    > {
        crate::walk::collect(self.class_items(objects, filter), 0, objects.len() as int)
    }
}

/// Resolve the name and the full name of `obj`.
fn read_titles(proc: &ProcessHandle, names: &mut FNamePool, gobjects: &GObjects, obj: UObjectRef) -> (r:
    Outcome<Option<(String, Option<String>)>>)
    ensures
        old(names).remote(proc@).titles(obj) == (match r {
            Err(e) => Err(e),
            Ok(None) => Ok(None),
            Ok(Some((name, full_name))) => Ok(Some((name@, full_name.deep_view()))),
        }),
        final(names).same(*old(names), proc@),
{
    let ghost remote = names.remote(proc@);
    let name = match names.resolve_index(proc, obj.name_idx, obj.name_number)? {
        Some(name) => name,
        None => {
            return Ok(None);
        },
    };
    assert(names.remote(proc@) == remote);
    let full_name = gobjects.full_name(proc, names, obj.addr)?;
    Ok(Some((name, full_name)))
}

/// Resolve the name of `obj`, and its full name or the name again, if `filter` selects
/// it.
fn read_selected(
    proc: &ProcessHandle,
    names: &mut FNamePool,
    gobjects: &GObjects,
    filter: Option<&str>,
    obj: UObjectRef,
) -> (r: Outcome<Option<(String, String)>>)
    ensures
        old(names).remote(proc@).selected_titles(obj, filter.deep_view()) == (match r {
            Err(e) => Err(e),
            Ok(None) => Ok(None),
            Ok(Some((name, full_name))) => Ok(Some((name@, full_name@))),
        }),
        final(names).same(*old(names), proc@),
{
    let (name, full) = match read_titles(proc, names, gobjects, obj)? {
        Some(titles) => titles,
        None => {
            return Ok(None);
        },
    };
    // Apply filter if specified
    let selected = match &full {
        Some(full) => is_selected(filter, name.as_str(), full.as_str()),
        None => {
            proof {
                reveal_strlit("");
                assert(""@ =~= seq![]);
            }
            is_selected(filter, name.as_str(), "")
        },
    };
    if !selected {
        return Ok(None);
    }
    let full_name = match full {
        Some(full) => full,
        None => name.clone(),
    };
    Ok(Some((name, full_name)))
}

/// Read the layout of the UStruct at `addr`.
fn read_class(
    proc: &ProcessHandle,
    names: &mut FNamePool,
    gobjects: &GObjects,
    class_name_cache: &mut NameCache,
    field_class_cache: &mut NameCache,
    addr: u64,
    name: String,
    full_name: String,
) -> (r: Outcome<ClassDump>)
    requires
        old(class_name_cache).sound(old(names).remote(proc@), UOBJECT_FNAME),
        old(field_class_cache).sound(old(names).remote(proc@), FFIELD_CLASS_NAME),
    ensures
        old(names).remote(proc@).class_at(addr, name@, full_name@) == (match r {
            Ok(c) => Ok(Some(c.deep_view())),
            Err(e) => Err(e),
        }),
        final(class_name_cache).sound(old(names).remote(proc@), UOBJECT_FNAME),
        final(field_class_cache).sound(old(names).remote(proc@), FFIELD_CLASS_NAME),
        final(names).same(*old(names), proc@),
{
    let ghost remote = names.remote(proc@);
    // Read SuperStruct
    let super_addr: u64 = proc.read_or::<u64>(addr.wrapping_add(USTRUCT_SUPER), 0)?;
    let parent = if super_addr != 0 {
        read_lenient_name(proc, names, super_addr)?
    } else {
        None
    };
    assert(names.remote(proc@) == remote);
    // Read PropertiesSize
    let size: u32 = proc.read_or::<u32>(addr.wrapping_add(USTRUCT_PROPERTIES_SIZE), 0)?;
    // Walk ChildProperties linked list (FField chain)
    let properties = walk_properties(proc, names, field_class_cache, addr)?;
    assert(names.remote(proc@) == remote);
    // Walk Children linked list (UField chain to UFunctions)
    let functions = walk_functions(
        proc,
        names,
        gobjects,
        class_name_cache,
        field_class_cache,
        addr,
    )?;
    Ok(ClassDump { name, full_name, parent, size, properties, functions })
}

/// Dump `obj`, if it is a UClass or a UScriptStruct that `filter` selects.
fn read_if_class(
    proc: &ProcessHandle,
    names: &mut FNamePool,
    gobjects: &GObjects,
    filter: Option<&str>,
    class_name_cache: &mut NameCache,
    field_class_cache: &mut NameCache,
    obj: UObjectRef,
) -> (r: Outcome<Option<ClassDump>>)
    requires
        old(class_name_cache).sound(old(names).remote(proc@), UOBJECT_FNAME),
        old(field_class_cache).sound(old(names).remote(proc@), FFIELD_CLASS_NAME),
    ensures
        crate::mem::shown(r) == old(names).remote(proc@).class(obj, filter.deep_view()),
        final(class_name_cache).sound(old(names).remote(proc@), UOBJECT_FNAME),
        final(field_class_cache).sound(old(names).remote(proc@), FFIELD_CLASS_NAME),
        final(names).same(*old(names), proc@),
{
    let ghost remote = names.remote(proc@);
    // Classes and structs are the objects whose class is named "Class" or "ScriptStruct".
    let class_name = get_cached_name(proc, names, class_name_cache, obj.class_addr)?;
    assert(names.remote(proc@) == remote);
    match class_name {
        Some(class_name) => {
            if !str_equal(class_name.as_str(), "Class") && !str_equal(
                class_name.as_str(),
                "ScriptStruct",
            ) {
                return Ok(None);
            }
        },
        None => {
            return Ok(None);
        },
    }
    let (name, full_name) = match read_selected(proc, names, gobjects, filter, obj)? {
        Some(titles) => titles,
        None => {
            return Ok(None);
        },
    };
    assert(names.remote(proc@) == remote);
    let class = read_class(
        proc,
        names,
        gobjects,
        class_name_cache,
        field_class_cache,
        obj.addr,
        name,
        full_name,
    )?;
    Ok(Some(class))
}

/// How far dumping the classes has come. It saves the classes already dumped
/// while pages are fetched for the rest.
pub struct ClassWalk {
    next: usize,
    classes: Vec<ClassDump>,
}

impl ClassWalk {
    /// The walk has come this far over `objects`.
    pub closed spec fn sound(
        self,
        remote: Remote,
        objects: Seq<UObjectRef>,
        filter: Option<Seq<char>>,
    ) -> bool {
        &&& self.next <= objects.len()
        &&& crate::walk::collect(remote.class_items(objects, filter), 0, self.next as int) == Ok::<
            Seq<ClassView>,
            crate::mem::Missing,
        >(self.classes.deep_view())
    }

    /// A walk that has not begun.
    pub fn new() -> (walk: Self)
        ensures
            forall|remote: Remote, objects: Seq<UObjectRef>, filter: Option<Seq<char>>| #[trigger]
                walk.sound(remote, objects, filter),
    {
        let walk = ClassWalk { next: 0, classes: Vec::new() };
        assert(walk.classes.deep_view() =~= seq![]);
        walk
    }
}

/// Walk all classes/structs and dump their property layouts.
pub fn dump_classes(
    proc: &ProcessHandle,
    names: &mut FNamePool,
    gobjects: &GObjects,
    filter: Option<&str>,
    walk: &mut ClassWalk,
) -> (r: Outcome<Vec<ClassDump>>)
    requires
        old(walk).sound(old(names).remote(proc@), gobjects.objects@, filter.deep_view()),
    ensures
        crate::mem::shown(r) == old(names).remote(proc@).classes(
            gobjects.objects@,
            filter.deep_view(),
        ),
        final(walk).sound(old(names).remote(proc@), gobjects.objects@, filter.deep_view()),
        final(names).same(*old(names), proc@),
{
    let ghost remote = names.remote(proc@);
    let ghost step = remote.class_items(gobjects.objects@, filter.deep_view());
    let mut class_name_cache = NameCache::new();
    let mut field_class_cache = NameCache::new();
    while walk.next < gobjects.objects.len()
        invariant
            walk.next <= gobjects.objects@.len(),
            names.same(*old(names), proc@),
            remote == old(names).remote(proc@),
            step == remote.class_items(gobjects.objects@, filter.deep_view()),
            class_name_cache.sound(remote, UOBJECT_FNAME),
            field_class_cache.sound(remote, FFIELD_CLASS_NAME),
            crate::walk::collect(step, 0, walk.next as int) == Ok::<
                Seq<ClassView>,
                crate::mem::Missing,
            >(walk.classes.deep_view()),
        decreases gobjects.objects@.len() - walk.next,
    {
        assert(names.remote(proc@) == remote);
        let ghost i = walk.next as int;
        let found = match read_if_class(
            proc,
            names,
            gobjects,
            filter,
            &mut class_name_cache,
            &mut field_class_cache,
            gobjects.objects[walk.next],
        ) {
            Ok(found) => found,
            Err(e) => {
                proof {
                    crate::walk::lemma_collect_stop(step, 0, i, gobjects.objects@.len() as int);
                }
                return Err(e);
            },
        };
        let ghost before = walk.classes.deep_view();
        let ghost seen = found.deep_view();
        if let Some(class) = found {
            walk.classes.push(class);
        }
        proof {
            crate::walk::lemma_collect_next(step, 0, i);
            assert(step(i) == Ok::<Option<ClassView>, crate::mem::Missing>(seen));
            assert(walk.classes.deep_view() =~= before + crate::walk::optional(seen));
        }
        walk.next = walk.next + 1;
    }
    let mut classes: Vec<ClassDump> = Vec::new();
    assert(classes.deep_view() =~= seq![]);
    std::mem::swap(&mut classes, &mut walk.classes);
    walk.next = 0;
    Ok(classes)
}

// ── Enums ───────────────────────────────────────────────────────────

impl Remote {
    /// Pair number `i` of the `(FName, i64)` pairs in `data`, if it has a name.
    pub open spec fn variant(self, data: Seq<u8>, i: int) -> Outcome<Option<VariantView>> {
        let base = i * UENUM_VARIANT_STRIDE;
        match self.names.name(
            <u32 as Scalar>::decode(data.subrange(base, base + 4)),
            <u32 as Scalar>::decode(data.subrange(base + 4, base + 8)),
        ) {
            Err(e) => Err(e),
            Ok(name) => if text_or(name, seq![]).len() == 0 {
                Ok(None)
            } else {
                Ok(
                    Some(
                        VariantView {
                            name: name->0,
                            value: <i64 as Scalar>::decode(data.subrange(base + 8, base + 16)),
                        },
                    ),
                )
            },
        }
    }

    /// The pairs in `data` by their number.
    pub open spec fn variant_items(self, data: Seq<u8>) -> spec_fn(int) -> Outcome<
        Option<VariantView>,
    > {
        |i: int| self.variant(data, i)
    }

    /// The variants of the UEnum at `addr`.
    pub open spec fn variants(self, addr: u64) -> Outcome<Seq<VariantView>> {
        let names_addr = addr.wrapping_add(UENUM_NAMES);
        match self.mem.pointer(names_addr) {
            Err(e) => Err(e),
            Ok(None) => Ok(seq![]),
            Ok(Some(data_ptr)) => match self.mem.value_or::<i32>(names_addr.wrapping_add(8), 0) {
                Err(e) => Err(e),
                Ok(len) => if len <= 0 || len > MAX_ENUM_VARIANTS {
                    Ok(seq![])
                } else {
                    match self.mem.fetch(data_ptr, (len * UENUM_VARIANT_STRIDE) as usize) {
                        Err(e) => Err(e),
                        Ok(None) => Ok(seq![]),
                        Ok(Some(data)) => crate::walk::collect(
                            self.variant_items(data),
                            0,
                            len as int,
                        ),
                    }
                },
            },
        }
    }

    /// The dump of an object, if it is a UEnum with variants that `filter` selects.
    pub open spec fn enumeration(self, obj: UObjectRef, filter: Option<Seq<char>>) -> Outcome<
        Option<EnumView>,
    > {
        match self.class_name(obj.class_addr) {
            Err(e) => Err(e),
            Ok(class) => if class != Some("Enum"@) {
                Ok(None)
            } else {
                match self.titles(obj) {
                    Err(e) => Err(e),
                    Ok(None) => Ok(None),
                    Ok(Some((name, full_name))) => if selects(
                        filter,
                        name,
                        text_or(full_name, seq![]),
                    ) {
                        match self.variants(obj.addr) {
                            Err(e) => Err(e),
                            Ok(variants) => if variants.len() == 0 {
                                Ok(None)
                            } else {
                                Ok(
                                    Some(
                                        EnumView {
                                            name,
                                            full_name: text_or(full_name, name),
                                            variants,
                                        },
                                    ),
                                )
                            },
                        }
                    } else {
                        Ok(None)
                    },
                }
            },
        }
    }

    /// The dump of each of `objects` by its number.
    pub open spec fn enum_items(self, objects: Seq<UObjectRef>, filter: Option<Seq<char>>) -> spec_fn(
        int,
    ) -> Outcome<Option<EnumView>> {
        |i: int| self.enumeration(objects[i], filter)
    }

    /// The dumps of all enums among `objects` that `filter` selects.
    pub open spec fn enums(self, objects: Seq<UObjectRef>, filter: Option<Seq<char>>) -> Outcome<
        Seq<EnumView>,
    > {
        crate::walk::collect(self.enum_items(objects, filter), 0, objects.len() as int)
    }
}

/// Read pair number `i` of the pairs in `data`.
fn read_variant(proc: &ProcessHandle, names: &mut FNamePool, data: &Vec<u8>, i: usize) -> (r:
    Outcome<Option<EnumVariant>>)
    requires
        i < MAX_ENUM_VARIANTS,
        (i + 1) * UENUM_VARIANT_STRIDE <= data@.len(),
    ensures
        crate::mem::shown(r) == old(names).remote(proc@).variant(data@, i as int),
        final(names).same(*old(names), proc@),
{
    let base: usize = i * UENUM_VARIANT_STRIDE;
    let bytes = data.as_slice();
    let comp_idx: u32 = <u32 as Scalar>::from_le(
        vstd::slice::slice_subrange(bytes, base, base + 4),
    );
    let number: u32 = <u32 as Scalar>::from_le(
        vstd::slice::slice_subrange(bytes, base + 4, base + 8),
    );
    let value: i64 = <i64 as Scalar>::from_le(
        vstd::slice::slice_subrange(bytes, base + 8, base + 16),
    );
    match names.resolve_index(proc, comp_idx, number)? {
        Some(name) => {
            if name.as_str().unicode_len() == 0 {
                Ok(None)
            } else {
                Ok(Some(EnumVariant { name, value }))
            }
        },
        None => Ok(None),
    }
}

/// Read `TArray<TPair<FName, int64>> Names` from a UEnum.
pub fn read_enum_variants(proc: &ProcessHandle, names: &mut FNamePool, enum_addr: u64) -> (r:
    Outcome<Vec<EnumVariant>>)
    ensures
        crate::mem::shown(r) == old(names).remote(proc@).variants(enum_addr),
        final(names).same(*old(names), proc@),
{
    let ghost remote = names.remote(proc@);
    let mut out: Vec<EnumVariant> = Vec::new();
    assert(out.deep_view() =~= seq![]);
    let names_addr: u64 = enum_addr.wrapping_add(UENUM_NAMES);
    let data_ptr: u64 = match proc.ptr(names_addr)? {
        Some(p) => p,
        None => {
            return Ok(out);
        },
    };
    let len: i32 = proc.read_or::<i32>(names_addr.wrapping_add(8), 0)?;
    if len <= 0 || len as usize > MAX_ENUM_VARIANTS {
        return Ok(out);
    }
    let count: usize = len as usize;
    let data = match proc.read_bytes(data_ptr, count * UENUM_VARIANT_STRIDE)? {
        Some(data) => data,
        None => {
            return Ok(out);
        },
    };
    let ghost step = remote.variant_items(data@);
    let mut i: usize = 0;
    while i < count
        invariant
            i <= count <= MAX_ENUM_VARIANTS,
            data@.len() == count * UENUM_VARIANT_STRIDE,
            names.same(*old(names), proc@),
            remote == old(names).remote(proc@),
            step == remote.variant_items(data@),
            remote.variants(enum_addr) == crate::walk::collect(step, 0, count as int),
            crate::walk::collect(step, 0, i as int) == Ok::<Seq<VariantView>, crate::mem::Missing>(
                out.deep_view(),
            ),
        decreases count - i,
    {
        assert(names.remote(proc@) == remote);
        let found = match read_variant(proc, names, &data, i) {
            Ok(found) => found,
            Err(e) => {
                proof {
                    crate::walk::lemma_collect_stop(step, 0, i as int, count as int);
                }
                return Err(e);
            },
        };
        let ghost before = out.deep_view();
        let ghost seen = found.deep_view();
        if let Some(variant) = found {
            out.push(variant);
        }
        proof {
            crate::walk::lemma_collect_next(step, 0, i as int);
            assert(out.deep_view() =~= before + crate::walk::optional(seen));
        }
        i = i + 1;
    }
    Ok(out)
}

/// Dump `obj`, if it is a UEnum with variants that `filter` selects.
fn read_if_enum(
    proc: &ProcessHandle,
    names: &mut FNamePool,
    gobjects: &GObjects,
    filter: Option<&str>,
    class_name_cache: &mut NameCache,
    obj: UObjectRef,
) -> (r: Outcome<Option<EnumDump>>)
    requires
        old(class_name_cache).sound(old(names).remote(proc@), UOBJECT_FNAME),
    ensures
        crate::mem::shown(r) == old(names).remote(proc@).enumeration(obj, filter.deep_view()),
        final(class_name_cache).sound(old(names).remote(proc@), UOBJECT_FNAME),
        final(names).same(*old(names), proc@),
{
    let ghost remote = names.remote(proc@);
    let class_name = get_cached_name(proc, names, class_name_cache, obj.class_addr)?;
    assert(names.remote(proc@) == remote);
    match class_name {
        Some(class_name) => {
            if !str_equal(class_name.as_str(), "Enum") {
                return Ok(None);
            }
        },
        None => {
            return Ok(None);
        },
    }
    let (name, full_name) = match read_selected(proc, names, gobjects, filter, obj)? {
        Some(titles) => titles,
        None => {
            return Ok(None);
        },
    };
    assert(names.remote(proc@) == remote);
    let variants = read_enum_variants(proc, names, obj.addr)?;
    if variants.len() == 0 {
        return Ok(None);
    }
    Ok(Some(EnumDump { name, full_name, variants }))
}

/// How far dumping the enums has come. It saves the enums already dumped while
/// pages are fetched for the rest.
pub struct EnumWalk {
    next: usize,
    enums: Vec<EnumDump>,
}

impl EnumWalk {
    /// The walk has come this far over `objects`.
    pub closed spec fn sound(
        self,
        remote: Remote,
        objects: Seq<UObjectRef>,
        filter: Option<Seq<char>>,
    ) -> bool {
        &&& self.next <= objects.len()
        &&& crate::walk::collect(remote.enum_items(objects, filter), 0, self.next as int) == Ok::<
            Seq<EnumView>,
            crate::mem::Missing,
        >(self.enums.deep_view())
    }

    /// A walk that has not begun.
    pub fn new() -> (walk: Self)
        ensures
            forall|remote: Remote, objects: Seq<UObjectRef>, filter: Option<Seq<char>>| #[trigger]
                walk.sound(remote, objects, filter),
    {
        let walk = EnumWalk { next: 0, enums: Vec::new() };
        assert(walk.enums.deep_view() =~= seq![]);
        walk
    }
}

/// Walk all UEnum instances in GObjects and dump their variant name/value pairs.
pub fn dump_enums(
    proc: &ProcessHandle,
    names: &mut FNamePool,
    gobjects: &GObjects,
    filter: Option<&str>,
    walk: &mut EnumWalk,
) -> (r: Outcome<Vec<EnumDump>>)
    requires
        old(walk).sound(old(names).remote(proc@), gobjects.objects@, filter.deep_view()),
    ensures
        crate::mem::shown(r) == old(names).remote(proc@).enums(
            gobjects.objects@,
            filter.deep_view(),
        ),
        final(walk).sound(old(names).remote(proc@), gobjects.objects@, filter.deep_view()),
        final(names).same(*old(names), proc@),
{
    let ghost remote = names.remote(proc@);
    let ghost step = remote.enum_items(gobjects.objects@, filter.deep_view());
    let mut class_name_cache = NameCache::new();
    while walk.next < gobjects.objects.len()
        invariant
            walk.next <= gobjects.objects@.len(),
            names.same(*old(names), proc@),
            remote == old(names).remote(proc@),
            step == remote.enum_items(gobjects.objects@, filter.deep_view()),
            class_name_cache.sound(remote, UOBJECT_FNAME),
            crate::walk::collect(step, 0, walk.next as int) == Ok::<
                Seq<EnumView>,
                crate::mem::Missing,
            >(walk.enums.deep_view()),
        decreases gobjects.objects@.len() - walk.next,
    {
        assert(names.remote(proc@) == remote);
        let ghost i = walk.next as int;
        let found = match read_if_enum(
            proc,
            names,
            gobjects,
            filter,
            &mut class_name_cache,
            gobjects.objects[walk.next],
        ) {
            Ok(found) => found,
            Err(e) => {
                proof {
                    crate::walk::lemma_collect_stop(step, 0, i, gobjects.objects@.len() as int);
                }
                return Err(e);
            },
        };
        let ghost before = walk.enums.deep_view();
        let ghost seen = found.deep_view();
        if let Some(item) = found {
            walk.enums.push(item);
        }
        proof {
            crate::walk::lemma_collect_next(step, 0, i);
            assert(step(i) == Ok::<Option<EnumView>, crate::mem::Missing>(seen));
            assert(walk.enums.deep_view() =~= before + crate::walk::optional(seen));
        }
        walk.next = walk.next + 1;
    }
    let mut enums: Vec<EnumDump> = Vec::new();
    assert(enums.deep_view() =~= seq![]);
    std::mem::swap(&mut enums, &mut walk.enums);
    walk.next = 0;
    Ok(enums)
}

// ── Laws ────────────────────────────────────────────────────────────

/// A `FieldMask` selects a bit if that bit alone is set, and no other way. The mask of
/// a regular bool, 0xFF, selects none.
pub proof fn lemma_mask_bit(mask: u8)
    ensures
        mask_bit(mask) matches Some(bit) ==> bit < 8 && 1u8 << bit == mask,
        mask_bit(mask) is None ==> forall|bit: u8| bit < 8 ==> #[trigger] (1u8 << bit) != mask,
        mask == 0xFF || mask == 0 ==> mask_bit(mask) is None,
{
    assert(1u8 << 0 == 0x01 && 1u8 << 1 == 0x02 && 1u8 << 2 == 0x04 && 1u8 << 3 == 0x08 && 1u8 << 4
        == 0x10 && 1u8 << 5 == 0x20 && 1u8 << 6 == 0x40 && 1u8 << 7 == 0x80) by (bit_vector);
    assert forall|bit: u8| bit < 8 implies mask_bit(#[trigger] (1u8 << bit)) == Some(bit) by {
        assert(bit == 0 || bit == 1 || bit == 2 || bit == 3 || bit == 4 || bit == 5 || bit == 6
            || bit == 7);
    }
}

/// Only a `BoolProperty` has a mask, and only a mask has a bit.
pub proof fn lemma_only_bools_have_masks(r: Remote, field: u64)
    ensures
        r.property(field) matches Ok(Some(p)) ==> {
            &&& p.field_mask is Some <==> p.prop_type == "BoolProperty"@
            &&& p.field_mask is None ==> p.bit_index is None
            &&& p.field_mask matches Some(mask) ==> p.bit_index == mask_bit(mask)
        },
{
}

/// A linked list gives no more items than its limit, even if it runs in a circle.
pub proof fn lemma_chain_bounded<T>(
    r: Remote,
    item: spec_fn(u64) -> Outcome<Option<T>>,
    link: u64,
    node: u64,
    fuel: nat,
)
    ensures
        r.chain(item, link, node, fuel) matches Ok(items) ==> items.len() <= fuel,
    decreases fuel,
{
    if node != 0 && fuel > 0 {
        match r.mem.value_or::<u64>(node.wrapping_add(link), 0) {
            Ok(next) => {
                lemma_chain_bounded(r, item, link, next, (fuel - 1) as nat);
            },
            Err(_) => {},
        }
    }
}

/// A struct has no more properties and functions than the limit on fields.
pub proof fn lemma_fields_bounded(r: Remote, addr: u64)
    ensures
        r.properties(addr) matches Ok(properties) ==> properties.len() <= MAX_FIELD_DEPTH,
        r.functions(addr) matches Ok(functions) ==> functions.len() <= MAX_FIELD_DEPTH,
{
    match r.mem.value_or::<u64>(addr.wrapping_add(USTRUCT_CHILD_PROPERTIES), 0) {
        Ok(first) => {
            lemma_chain_bounded(r, r.property_nodes(), FFIELD_NEXT, first, MAX_FIELD_DEPTH as nat);
        },
        Err(_) => {},
    }
    match r.mem.value_or::<u64>(addr.wrapping_add(USTRUCT_CHILDREN), 0) {
        Ok(first) => {
            lemma_chain_bounded(r, r.function_nodes(), UFIELD_NEXT, first, MAX_FIELD_DEPTH as nat);
        },
        Err(_) => {},
    }
}

/// An enum has no variant without a name, and no more variants than the limit.
pub proof fn lemma_variants_are_named(r: Remote, addr: u64)
    ensures
        r.variants(addr) matches Ok(variants) ==> {
            &&& variants.len() <= MAX_ENUM_VARIANTS
            &&& forall|i: int| 0 <= i < variants.len() ==> (#[trigger] variants[i]).name.len() > 0
        },
{
    let names_addr = addr.wrapping_add(UENUM_NAMES);
    match r.mem.pointer(names_addr) {
        Ok(Some(data_ptr)) => match r.mem.value_or::<i32>(names_addr.wrapping_add(8), 0) {
            Ok(len) => if 0 < len <= MAX_ENUM_VARIANTS {
                match r.mem.fetch(data_ptr, (len * UENUM_VARIANT_STRIDE) as usize) {
                    Ok(Some(data)) => {
                        let step = r.variant_items(data);
                        crate::walk::lemma_collect_len(step, 0, len as int);
                        match crate::walk::collect(step, 0, len as int) {
                            Ok(variants) => {
                                assert forall|i: int| 0 <= i < variants.len() implies (
                                #[trigger] variants[i]).name.len() > 0 by {
                                    let k = crate::walk::lemma_collect_from_steps(
                                        step,
                                        0,
                                        len as int,
                                        i,
                                    );
                                }
                            },
                            Err(_) => {},
                        }
                    },
                    _ => {},
                }
            },
            Err(_) => {},
        },
        _ => {},
    }
}

/// No text is in an empty text but the empty one, which is in every text.
proof fn lemma_empty_text(name: Seq<char>, pat: Seq<char>)
    ensures
        crate::text::contains_text(seq![], pat) ==> crate::text::contains_text(name, pat),
{
    if crate::text::contains_text(seq![], pat) {
        let at = choose|at: int| crate::text::stands_at(Seq::<char>::empty(), pat, at);
        assert(name.subrange(0, 0) =~= pat);
        assert(crate::text::stands_at(name, pat, 0));
    }
}

/// With a filter, only classes whose name or full path contains it are dumped.
pub proof fn lemma_classes_are_selected(
    r: Remote,
    objects: Seq<UObjectRef>,
    filter: Option<Seq<char>>,
)
    ensures
        r.classes(objects, filter) matches Ok(classes) ==> forall|i: int|
            0 <= i < classes.len() ==> selects(
                filter,
                (#[trigger] classes[i]).name,
                classes[i].full_name,
            ),
{
    let step = r.class_items(objects, filter);
    match r.classes(objects, filter) {
        Ok(classes) => {
            assert forall|i: int| 0 <= i < classes.len() implies selects(
                filter,
                (#[trigger] classes[i]).name,
                classes[i].full_name,
            ) by {
                let k = crate::walk::lemma_collect_from_steps(step, 0, objects.len() as int, i);
                if filter is Some {
                    lemma_empty_text(classes[i].name, filter->0);
                }
            }
        },
        Err(_) => {},
    }
}

/// With a filter, only enums whose name or full path contains it are dumped; and no
/// enum is dumped without variants.
pub proof fn lemma_enums_are_selected(
    r: Remote,
    objects: Seq<UObjectRef>,
    filter: Option<Seq<char>>,
)
    ensures
        r.enums(objects, filter) matches Ok(enums) ==> forall|i: int|
            0 <= i < enums.len() ==> (#[trigger] enums[i]).variants.len() > 0 && selects(
                filter,
                enums[i].name,
                enums[i].full_name,
            ),
{
    let step = r.enum_items(objects, filter);
    match r.enums(objects, filter) {
        Ok(enums) => {
            assert forall|i: int| 0 <= i < enums.len() implies (
            #[trigger] enums[i]).variants.len() > 0 && selects(
                filter,
                enums[i].name,
                enums[i].full_name,
            ) by {
                let k = crate::walk::lemma_collect_from_steps(step, 0, objects.len() as int, i);
                if filter is Some {
                    lemma_empty_text(enums[i].name, filter->0);
                }
            }
        },
        Err(_) => {},
    }
}

/// Every UClass and UScriptStruct that has a name is dumped, if there is no filter.
pub proof fn lemma_every_class_is_dumped(r: Remote, objects: Seq<UObjectRef>, i: int)
    requires
        r.classes(objects, None) is Ok,
        0 <= i < objects.len(),
        r.class_name(objects[i].class_addr) == Ok::<Option<Seq<char>>, crate::mem::Missing>(
            Some("Class"@),
        ) || r.class_name(objects[i].class_addr) == Ok::<Option<Seq<char>>, crate::mem::Missing>(
            Some("ScriptStruct"@),
        ),
        r.names.name(objects[i].name_idx, objects[i].name_number) matches Ok(Some(_)),
    ensures
        r.class(objects[i], None) matches Ok(Some(class)) && class.name == r.names.name(
            objects[i].name_idx,
            objects[i].name_number,
        )->Ok_0->0 && r.classes(objects, None)->Ok_0.contains(class),
{
    let step = r.class_items(objects, None);
    let n = objects.len() as int;
    if step(i) is Err {
        crate::walk::lemma_collect_cut(step, 0, i, n);
    }
    crate::walk::lemma_collect_has_each(step, 0, n, i);
}

/// Every UEnum that has a name and a named variant is dumped, if there is no filter.
pub proof fn lemma_every_enum_is_dumped(r: Remote, objects: Seq<UObjectRef>, i: int)
    requires
        r.enums(objects, None) is Ok,
        0 <= i < objects.len(),
        r.class_name(objects[i].class_addr) == Ok::<Option<Seq<char>>, crate::mem::Missing>(
            Some("Enum"@),
        ),
        r.names.name(objects[i].name_idx, objects[i].name_number) matches Ok(Some(_)),
        r.variants(objects[i].addr) matches Ok(variants) ==> variants.len() > 0,
    ensures
        r.enumeration(objects[i], None) matches Ok(Some(item)) && item.name == r.names.name(
            objects[i].name_idx,
            objects[i].name_number,
        )->Ok_0->0 && r.enums(objects, None)->Ok_0.contains(item),
{
    let step = r.enum_items(objects, None);
    let n = objects.len() as int;
    if step(i) is Err {
        crate::walk::lemma_collect_cut(step, 0, i, n);
    }
    crate::walk::lemma_collect_has_each(step, 0, n, i);
}

/// A class is kept by `filter`.
pub open spec fn class_kept(filter: Option<Seq<char>>) -> spec_fn(ClassView) -> bool {
    |c: ClassView| selects(filter, c.name, c.full_name)
}

/// A filter leaves out classes and changes none: what is dumped with it is what is
/// dumped without it, less the classes that it does not select.
pub proof fn lemma_filter_only_leaves_out(
    r: Remote,
    objects: Seq<UObjectRef>,
    filter: Option<Seq<char>>,
)
    requires
        r.classes(objects, None) is Ok,
    ensures
        r.classes(objects, filter) == Ok::<Seq<ClassView>, crate::mem::Missing>(
            r.classes(objects, None)->Ok_0.filter(class_kept(filter)),
        ),
{
    lemma_filter_upto(r, objects, filter, objects.len());
}

proof fn lemma_filter_upto(
    r: Remote,
    objects: Seq<UObjectRef>,
    filter: Option<Seq<char>>,
    n: nat,
)
    requires
        n <= objects.len(),
        crate::walk::collect(r.class_items(objects, None), 0, n as int) is Ok,
    ensures
        crate::walk::collect(r.class_items(objects, filter), 0, n as int) == Ok::<
            Seq<ClassView>,
            crate::mem::Missing,
        >(
            crate::walk::collect(
                r.class_items(objects, None),
                0,
                n as int,
            )->Ok_0.filter(class_kept(filter)),
        ),
    decreases n,
{
    let all = r.class_items(objects, None);
    let some = r.class_items(objects, filter);
    let kept = class_kept(filter);
    reveal(Seq::filter);
    if n > 0 {
        let i = n - 1;
        crate::walk::lemma_collect_next(all, 0, i);
        crate::walk::lemma_collect_next(some, 0, i);
        lemma_filter_upto(r, objects, filter, i as nat);
        let before = crate::walk::collect(all, 0, i)->Ok_0;
        assert(all(i) is Ok);
        match all(i)->Ok_0 {
            Some(class) => {
                if filter is Some {
                    lemma_empty_text(class.name, filter->0);
                }
                assert(before + crate::walk::optional(Some(class)) =~= before.push(class));
                assert(before.push(class).drop_last() =~= before);
                assert(before.push(class).last() == class);
                if kept(class) {
                    assert(some(i) == all(i));
                    assert(before.filter(kept) + crate::walk::optional(Some(class))
                        =~= before.filter(kept).push(class));
                } else {
                    assert(some(i) == Ok::<Option<ClassView>, crate::mem::Missing>(None));
                    assert(before.filter(kept) + crate::walk::optional(None::<ClassView>)
                        =~= before.filter(kept));
                }
            },
            None => {
                assert(some(i) == Ok::<Option<ClassView>, crate::mem::Missing>(None));
                assert(before + crate::walk::optional(None::<ClassView>) =~= before);
                assert(before.filter(kept) + crate::walk::optional(None::<ClassView>)
                    =~= before.filter(kept));
            },
        }
    } else {
        assert(Seq::<ClassView>::empty().filter(kept) =~= seq![]);
    }
}

/// A cache of names can be used on after more pages have been fetched.
pub proof fn lemma_name_cache_keeps(cache: NameCache, r: Remote, r2: Remote, offset: u64)
    requires
        cache.sound(r, offset),
        r.grows_to(r2),
    ensures
        cache.sound(r2, offset),
{
    broadcast use crate::ue::fname::lemma_name_at_settled;

    assert forall|addr: u64| #[trigger] cache@.contains_key(addr) implies r2.name_at(
        addr.wrapping_add(offset),
    ) == Ok::<Option<Seq<char>>, crate::mem::Missing>(Some(cache@[addr])) by {
        assert(r.mem.settles(
            r.name_at(addr.wrapping_add(offset)),
            r2.name_at(addr.wrapping_add(offset)),
        ));
    }
}

/// Fetching more pages never changes what a property holds or refers to.
pub proof fn lemma_inner_type_settled(r: Remote, r2: Remote, kind: Seq<char>, field: u64)
    requires
        r.grows_to(r2),
    ensures
        r.mem.settles(r.inner_type(kind, field), r2.inner_type(kind, field)),
{
    broadcast use {crate::mem::lemma_value_settled, crate::ue::fname::lemma_name_at_settled};

}

proof fn lemma_property_settled(r: Remote, r2: Remote, field: u64)
    requires
        r.grows_to(r2),
    ensures
        r.mem.settles(r.property(field), r2.property(field)),
{
    broadcast use {crate::mem::lemma_value_settled, crate::ue::fname::lemma_name_at_settled};

    let kind = r.property_type(field);
    assert(r.mem.settles(kind, r2.property_type(field)));
    if kind is Ok {
        lemma_inner_type_settled(r, r2, kind->Ok_0, field);
        assert(r.mem.settles(
            r.property_mask(kind->Ok_0, field),
            r2.property_mask(kind->Ok_0, field),
        ));
    }
}

proof fn lemma_chain_settled<T>(
    r: Remote,
    r2: Remote,
    item: spec_fn(u64) -> Outcome<Option<T>>,
    later: spec_fn(u64) -> Outcome<Option<T>>,
    link: u64,
    node: u64,
    fuel: nat,
)
    requires
        r.grows_to(r2),
        forall|addr: u64| r.mem.settles(#[trigger] item(addr), later(addr)),
    ensures
        r.mem.settles(r.chain(item, link, node, fuel), r2.chain(later, link, node, fuel)),
    decreases fuel,
{
    broadcast use crate::mem::lemma_value_settled;

    if node != 0 && fuel > 0 {
        assert(r.mem.settles(item(node), later(node)));
        match r.mem.value_or::<u64>(node.wrapping_add(link), 0) {
            Ok(next) => {
                lemma_chain_settled(r, r2, item, later, link, next, (fuel - 1) as nat);
            },
            Err(_) => {},
        }
    }
}

/// Fetching more pages never changes the properties of a struct.
pub broadcast proof fn lemma_properties_settled(r: Remote, r2: Remote, addr: u64)
    requires
        #[trigger] r.grows_to(r2),
    ensures
        r.mem.settles(#[trigger] r.properties(addr), r2.properties(addr)),
{
    broadcast use crate::mem::lemma_value_settled;

    let item = r.property_nodes();
    let later = r2.property_nodes();
    assert forall|field: u64| r.mem.settles(#[trigger] item(field), later(field)) by {
        lemma_property_settled(r, r2, field);
    }
    match r.mem.value_or::<u64>(addr.wrapping_add(USTRUCT_CHILD_PROPERTIES), 0) {
        Ok(first) => {
            lemma_chain_settled(r, r2, item, later, FFIELD_NEXT, first, MAX_FIELD_DEPTH as nat);
        },
        Err(_) => {},
    }
}

proof fn lemma_lenient_name_settled(r: Remote, r2: Remote, addr: u64)
    requires
        r.grows_to(r2),
    ensures
        r.mem.settles(r.lenient_name(addr), r2.lenient_name(addr)),
{
    broadcast use {crate::mem::lemma_value_settled, crate::ue::fname::lemma_name_settled};

}

proof fn lemma_function_settled(r: Remote, r2: Remote, addr: u64)
    requires
        r.grows_to(r2),
    ensures
        r.mem.settles(r.function(addr), r2.function(addr)),
{
    broadcast use {
        crate::mem::lemma_value_settled,
        crate::ue::fname::lemma_name_at_settled,
        crate::ue::objects::lemma_full_name_settled,
        lemma_properties_settled,
    };

    lemma_lenient_name_settled(r, r2, addr);
    assert(r.mem.settles(r.function_at(addr), r2.function_at(addr)));
}

/// Fetching more pages never changes the functions of a struct.
pub broadcast proof fn lemma_functions_settled(r: Remote, r2: Remote, addr: u64)
    requires
        #[trigger] r.grows_to(r2),
    ensures
        r.mem.settles(#[trigger] r.functions(addr), r2.functions(addr)),
{
    broadcast use crate::mem::lemma_value_settled;

    let item = r.function_nodes();
    let later = r2.function_nodes();
    assert forall|node: u64| r.mem.settles(#[trigger] item(node), later(node)) by {
        lemma_function_settled(r, r2, node);
    }
    match r.mem.value_or::<u64>(addr.wrapping_add(USTRUCT_CHILDREN), 0) {
        Ok(first) => {
            lemma_chain_settled(r, r2, item, later, UFIELD_NEXT, first, MAX_FIELD_DEPTH as nat);
        },
        Err(_) => {},
    }
}

proof fn lemma_titles_settled(r: Remote, r2: Remote, obj: UObjectRef)
    requires
        r.grows_to(r2),
    ensures
        r.mem.settles(r.titles(obj), r2.titles(obj)),
{
    broadcast use {
        crate::ue::fname::lemma_name_settled,
        crate::ue::objects::lemma_full_name_settled,
    };

}

proof fn lemma_class_at_settled(
    r: Remote,
    r2: Remote,
    addr: u64,
    name: Seq<char>,
    full_name: Seq<char>,
)
    requires
        r.grows_to(r2),
    ensures
        r.mem.settles(r.class_at(addr, name, full_name), r2.class_at(addr, name, full_name)),
{
    broadcast use {
        crate::mem::lemma_value_settled,
        lemma_properties_settled,
        lemma_functions_settled,
    };

    match r.mem.value_or::<u64>(addr.wrapping_add(USTRUCT_SUPER), 0) {
        Ok(above) => {
            lemma_lenient_name_settled(r, r2, above);
        },
        Err(_) => {},
    }
    assert(r.mem.settles(r.parent(addr), r2.parent(addr)));
}

proof fn lemma_class_settled(
    r: Remote,
    r2: Remote,
    obj: UObjectRef,
    filter: Option<Seq<char>>,
)
    requires
        r.grows_to(r2),
    ensures
        r.mem.settles(r.class(obj, filter), r2.class(obj, filter)),
{
    broadcast use crate::ue::fname::lemma_name_at_settled;

    lemma_titles_settled(r, r2, obj);
    assert(r.mem.settles(r.class_name(obj.class_addr), r2.class_name(obj.class_addr)));
    match r.titles(obj) {
        Ok(Some((name, full_name))) => {
            lemma_class_at_settled(r, r2, obj.addr, name, text_or(full_name, name));
        },
        _ => {},
    }
}

proof fn lemma_classes_upto_settled(
    r: Remote,
    r2: Remote,
    objects: Seq<UObjectRef>,
    filter: Option<Seq<char>>,
    to: int,
)
    requires
        r.grows_to(r2),
    ensures
        r.mem.settles(
            crate::walk::collect(r.class_items(objects, filter), 0, to),
            crate::walk::collect(r2.class_items(objects, filter), 0, to),
        ),
{
    let step = r.class_items(objects, filter);
    let later = r2.class_items(objects, filter);
    assert forall|i: int| 0 <= i < to implies r.mem.settles(#[trigger] step(i), later(i)) by {
        lemma_class_settled(r, r2, objects[i], filter);
    }
    crate::walk::lemma_collect_settled(r.mem, step, later, 0, to);
}

/// Fetching more pages never changes a dump of classes.
pub proof fn lemma_classes_settled(
    r: Remote,
    r2: Remote,
    objects: Seq<UObjectRef>,
    filter: Option<Seq<char>>,
)
    requires
        r.grows_to(r2),
    ensures
        r.mem.settles(r.classes(objects, filter), r2.classes(objects, filter)),
{
    lemma_classes_upto_settled(r, r2, objects, filter, objects.len() as int);
}

/// A dump of classes can go on after more pages have been fetched.
pub proof fn lemma_class_walk_keeps(
    walk: ClassWalk,
    r: Remote,
    r2: Remote,
    objects: Seq<UObjectRef>,
    filter: Option<Seq<char>>,
)
    requires
        walk.sound(r, objects, filter),
        r.grows_to(r2),
    ensures
        walk.sound(r2, objects, filter),
{
    lemma_classes_upto_settled(r, r2, objects, filter, walk.next as int);
}

/// Fetching more pages never changes the variants of an enum.
pub proof fn lemma_variants_settled(r: Remote, r2: Remote, addr: u64)
    requires
        r.grows_to(r2),
    ensures
        r.mem.settles(r.variants(addr), r2.variants(addr)),
{
    broadcast use {
        crate::mem::lemma_value_settled,
        crate::mem::lemma_fetch_settled,
        crate::ue::fname::lemma_name_settled,
    };

    let names_addr = addr.wrapping_add(UENUM_NAMES);
    match r.mem.pointer(names_addr) {
        Ok(Some(data_ptr)) => match r.mem.value_or::<i32>(names_addr.wrapping_add(8), 0) {
            Ok(len) => if 0 < len <= MAX_ENUM_VARIANTS {
                match r.mem.fetch(data_ptr, (len * UENUM_VARIANT_STRIDE) as usize) {
                    Ok(Some(data)) => {
                        let step = r.variant_items(data);
                        let later = r2.variant_items(data);
                        assert forall|i: int| 0 <= i < len implies r.mem.settles(
                            #[trigger] step(i),
                            later(i),
                        ) by {
                            assert(r.mem.settles(r.variant(data, i), r2.variant(data, i)));
                        }
                        crate::walk::lemma_collect_settled(r.mem, step, later, 0, len as int);
                    },
                    _ => {},
                }
            },
            Err(_) => {},
        },
        _ => {},
    }
}

proof fn lemma_enum_settled(r: Remote, r2: Remote, obj: UObjectRef, filter: Option<Seq<char>>)
    requires
        r.grows_to(r2),
    ensures
        r.mem.settles(r.enumeration(obj, filter), r2.enumeration(obj, filter)),
{
    broadcast use crate::ue::fname::lemma_name_at_settled;

    lemma_titles_settled(r, r2, obj);
    lemma_variants_settled(r, r2, obj.addr);
    assert(r.mem.settles(r.class_name(obj.class_addr), r2.class_name(obj.class_addr)));
}

proof fn lemma_enums_upto_settled(
    r: Remote,
    r2: Remote,
    objects: Seq<UObjectRef>,
    filter: Option<Seq<char>>,
    to: int,
)
    requires
        r.grows_to(r2),
    ensures
        r.mem.settles(
            crate::walk::collect(r.enum_items(objects, filter), 0, to),
            crate::walk::collect(r2.enum_items(objects, filter), 0, to),
        ),
{
    let step = r.enum_items(objects, filter);
    let later = r2.enum_items(objects, filter);
    assert forall|i: int| 0 <= i < to implies r.mem.settles(#[trigger] step(i), later(i)) by {
        lemma_enum_settled(r, r2, objects[i], filter);
    }
    crate::walk::lemma_collect_settled(r.mem, step, later, 0, to);
}

/// Fetching more pages never changes a dump of enums.
pub proof fn lemma_enums_settled(
    r: Remote,
    r2: Remote,
    objects: Seq<UObjectRef>,
    filter: Option<Seq<char>>,
)
    requires
        r.grows_to(r2),
    ensures
        r.mem.settles(r.enums(objects, filter), r2.enums(objects, filter)),
{
    lemma_enums_upto_settled(r, r2, objects, filter, objects.len() as int);
}

/// A dump of enums can go on after more pages have been fetched.
pub proof fn lemma_enum_walk_keeps(
    walk: EnumWalk,
    r: Remote,
    r2: Remote,
    objects: Seq<UObjectRef>,
    filter: Option<Seq<char>>,
)
    requires
        walk.sound(r, objects, filter),
        r.grows_to(r2),
    ensures
        walk.sound(r2, objects, filter),
{
    lemma_enums_upto_settled(r, r2, objects, filter, walk.next as int);
}

} // verus!
