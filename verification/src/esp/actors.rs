//! The actors of a level.

use crate::esp::players::read_array_len;
use crate::esp::{actor_location, Vec3Bits, OBJ_CLASS, OBJ_NAME};
use crate::mem::{Memory, Outcome, ProcessHandle};
use crate::ue::fname::{FNamePool, Remote};
use vstd::prelude::*;
use vstd::string::*;

verus! {

broadcast use {
    crate::ue::fname::lemma_pool_keeps_itself,
    crate::ue::fname::lemma_pool_keeps_transitive,
};

// ── Actors ──────────────────────────────────────────────────────────

impl Remote {
    /// The name of the class of the object at `obj`.
    pub open spec fn actor_class(self, obj: u64) -> Outcome<Option<Seq<char>>> {
        match self.mem.pointer(obj.wrapping_add(OBJ_CLASS)) {
            Err(e) => Err(e),
            Ok(None) => Ok(None),
            Ok(Some(class)) => self.name_at(class.wrapping_add(OBJ_NAME)),
        }
    }

    /// Element number `i` of the array at `data`, if it is an object whose class has
    /// a name that is not empty.
    pub open spec fn named_items(self, data: u64) -> spec_fn(int) -> Outcome<Option<Seq<char>>> {
        |i: int|
            match self.mem.pointer(data.wrapping_add((8 * i) as u64)) {
                Err(e) => Err(e),
                Ok(None) => Ok(None),
                Ok(Some(actor)) => match self.actor_class(actor) {
                    Err(e) => Err(e),
                    Ok(None) => Ok(None),
                    Ok(Some(name)) => if name.len() > 0 {
                        Ok(Some(name))
                    } else {
                        Ok(None)
                    },
                },
            }
    }

    /// The array at `addr` looks like a TArray<AActor*>: it has a plausible length,
    /// and its first few elements are objects whose class has a name.
    pub open spec fn is_actor_array(self, addr: u64) -> Outcome<bool> {
        match self.mem.pointer(addr) {
            Err(e) => Err(e),
            Ok(None) => Ok(false),
            Ok(Some(data)) => match self.mem.value::<i32>(addr.wrapping_add(8)) {
                Err(e) => Err(e),
                Ok(None) => Ok(false),
                Ok(Some(count)) => match self.mem.value::<i32>(addr.wrapping_add(12)) {
                    Err(e) => Err(e),
                    Ok(None) => Ok(false),
                    Ok(Some(max)) => if count < 1 || count > MAX_ACTORS || max < count || max
                        > count + MAX_ACTOR_SLACK {
                        Ok(false)
                    } else {
                        let probe = if count < ACTOR_PROBES {
                            count as int
                        } else {
                            ACTOR_PROBES as int
                        };
                        match crate::walk::collect(self.named_items(data), 0, probe) {
                            Err(e) => Err(e),
                            Ok(found) => Ok(found.len() == probe),
                        }
                    },
                },
            },
        }
    }

    /// The first offset from `off` on, in steps of eight, at which the level object
    /// at `level` has an array of actors.
    pub open spec fn actors_offset_from(self, level: u64, off: u64) -> Outcome<Option<u64>>
        decreases ACTORS_SCAN_END + 8 - off,
    {
        if off >= ACTORS_SCAN_END {
            Ok(None)
        } else {
            match self.is_actor_array(level.wrapping_add(off)) {
                Err(e) => Err(e),
                Ok(hit) => if hit {
                    Ok(Some(off))
                } else {
                    self.actors_offset_from(level, (off + 8) as u64)
                },
            }
        }
    }

    /// Where ULevel::Actors stands in the level object at `level`.
    pub open spec fn actors_offset(self, level: u64) -> Outcome<Option<u64>> {
        self.actors_offset_from(level, ACTORS_SCAN_START)
    }
}

/// Where the search for ULevel::Actors starts.
pub const ACTORS_SCAN_START: u64 = 0x80;

/// Where the search for ULevel::Actors ends.
pub const ACTORS_SCAN_END: u64 = 0x300;

/// A level has no more actors than this.
pub const MAX_ACTORS: i32 = 0x20000;

/// An array of actors has no more unused room than this.
pub const MAX_ACTOR_SLACK: i32 = 0x8000;

/// How many elements of a plausible array are looked at.
pub const ACTOR_PROBES: i32 = 8;

/// Read a UObject's class name (ClassPrivate to FName).
pub fn class_name(proc: &ProcessHandle, names: &mut FNamePool, obj: u64) -> (r: Outcome<
    Option<String>,
>)
    ensures
        crate::mem::shown(r) == old(names).remote(proc@).actor_class(obj),
        final(names).same(*old(names), proc@),
        match proc@.pointer(obj.wrapping_add(OBJ_CLASS)) {
            Ok(Some(class)) => final(names).looked_up_at(
                *old(names),
                proc@,
                class.wrapping_add(OBJ_NAME),
            ),
            _ => *final(names) == *old(names),
        },
{
    match proc.ptr(obj.wrapping_add(OBJ_CLASS))? {
        Some(class) => names.resolve(proc, class.wrapping_add(OBJ_NAME)),
        None => Ok(None),
    }
}

/// Whether each of the first `probe` elements of the array at `data` is an object
/// whose class has a name.
fn all_named(proc: &ProcessHandle, names: &mut FNamePool, data: u64, probe: usize) -> (r: Outcome<bool>)
    requires
        probe <= ACTOR_PROBES,
    ensures
        r == (match crate::walk::collect(
            old(names).remote(proc@).named_items(data),
            0,
            probe as int,
        ) {
            Err(e) => Err(e),
            Ok(found) => Ok(found.len() == probe),
        }),
        final(names).same(*old(names), proc@),
{
    let ghost remote = names.remote(proc@);
    let ghost step = remote.named_items(data);
    let ghost mut found: Seq<Seq<char>> = seq![];
    let mut valid: usize = 0;
    let mut i: usize = 0;
    while i < probe
        invariant
            i <= probe <= ACTOR_PROBES,
            names.same(*old(names), proc@),
            remote == old(names).remote(proc@),
            step == remote.named_items(data),
            crate::walk::collect(step, 0, i as int) == Ok::<Seq<Seq<char>>, crate::mem::Missing>(
                found,
            ),
            valid == found.len(),
            valid <= i,
        decreases probe - i,
    {
        assert(names.remote(proc@) == remote);
        proof {
            crate::walk::lemma_collect_next(step, 0, i as int);
            if step(i as int) is Err {
                crate::walk::lemma_collect_stop(step, 0, i as int, probe as int);
            } else {
                found = found + crate::walk::optional(step(i as int)->Ok_0);
            }
        }
        if let Some(actor) = proc.ptr(data.wrapping_add(8 * i as u64))? {
            if let Some(name) = class_name(proc, names, actor)? {
                if name.as_str().unicode_len() > 0 {
                    valid = valid + 1;
                }
            }
        }
        i = i + 1;
    }
    Ok(valid == probe)
}

fn looks_like_actors(proc: &ProcessHandle, names: &mut FNamePool, addr: u64) -> (r: Outcome<bool>)
    ensures
        r == old(names).remote(proc@).is_actor_array(addr),
        final(names).same(*old(names), proc@),
{
    let data: u64 = match proc.ptr(addr)? {
        Some(p) => p,
        None => {
            return Ok(false);
        },
    };
    let count: i32 = match proc.read::<i32>(addr.wrapping_add(8))? {
        Some(n) => n,
        None => {
            return Ok(false);
        },
    };
    let max: i32 = match proc.read::<i32>(addr.wrapping_add(12))? {
        Some(n) => n,
        None => {
            return Ok(false);
        },
    };
    if count < 1 || count > MAX_ACTORS || max < count || max > count + MAX_ACTOR_SLACK {
        return Ok(false);
    }
    let probe: usize = if count < ACTOR_PROBES {
        count as usize
    } else {
        ACTOR_PROBES as usize
    };
    all_named(proc, names, data, probe)
}

/// Auto-detect ULevel::Actors (a TArray<AActor*> that isn't a UPROPERTY, so
/// its offset isn't in the dump). Scan the level object for a plausible array.
pub fn find_actors_offset(proc: &ProcessHandle, names: &mut FNamePool, level: u64) -> (r: Outcome<
    Option<u64>,
>)
    ensures
        r == old(names).remote(proc@).actors_offset(level),
        final(names).same(*old(names), proc@),
{
    let ghost remote = names.remote(proc@);
    let mut off: u64 = ACTORS_SCAN_START;
    while off < ACTORS_SCAN_END
        invariant
            off <= ACTORS_SCAN_END + 8,
            names.same(*old(names), proc@),
            remote == old(names).remote(proc@),
            remote.actors_offset(level) == remote.actors_offset_from(level, off),
        decreases ACTORS_SCAN_END + 8 - off,
    {
        assert(names.remote(proc@) == remote);
        if looks_like_actors(proc, names, level.wrapping_add(off))? {
            return Ok(Some(off));
        }
        off = off + 8;
    }
    Ok(None)
}

/// An actor of a level.
#[derive(Debug)]
pub struct Actor {
    pub addr: u64,
    pub class: String,
    pub location: Option<Vec3Bits>,
}

/// An [`Actor`] as a mathematical value.
pub struct ActorInfo {
    pub addr: u64,
    pub class: Seq<char>,
    pub location: Option<Vec3Bits>,
}

impl DeepView for Actor {
    type V = ActorInfo;

    open spec fn deep_view(&self) -> ActorInfo {
        ActorInfo { addr: self.addr, class: self.class@, location: self.location }
    }
}

impl Remote {
    /// The actors of the array at `data` by their number; those whose class has no
    /// name are left out.
    pub open spec fn actor_items(self, data: u64) -> spec_fn(int) -> Outcome<Option<ActorInfo>> {
        |i: int|
            match self.mem.pointer(data.wrapping_add((8 * i) as u64)) {
                Err(e) => Err(e),
                Ok(None) => Ok(None),
                Ok(Some(addr)) => match self.actor_class(addr) {
                    Err(e) => Err(e),
                    Ok(None) => Ok(None),
                    Ok(Some(class)) => match self.mem.location(addr) {
                        Err(e) => Err(e),
                        Ok(location) => Ok(Some(ActorInfo { addr, class, location })),
                    },
                },
            }
    }
}

impl Memory {
    /// The elements of the array of actors at `addr`: where they stand, and how many
    /// there are.
    pub open spec fn actor_array(self, addr: u64, most: usize) -> Outcome<Option<(u64, int)>> {
        match self.pointer(addr) {
            Err(e) => Err(e),
            Ok(None) => Ok(None),
            Ok(Some(data)) => match self.array_len(addr, most) {
                Err(e) => Err(e),
                Ok(count) => Ok(Some((data, count))),
            },
        }
    }
}

impl Remote {
    /// The actors of the array at `addr`.
    pub open spec fn actors(self, addr: u64) -> Outcome<Seq<ActorInfo>> {
        match self.mem.actor_array(addr, MAX_ACTORS as usize) {
            Err(e) => Err(e),
            Ok(None) => Ok(seq![]),
            Ok(Some((data, count))) => crate::walk::collect(self.actor_items(data), 0, count),
        }
    }
}

/// How far reading the actors of a level has come.
pub struct ActorWalk {
    next: usize,
    actors: Vec<Actor>,
}

impl ActorWalk {
    /// The walk has not begun.
    pub closed spec fn fresh(self) -> bool {
        self.next == 0 && self.actors.deep_view() == Seq::<ActorInfo>::empty()
    }

    /// The walk has come this far over the array at `addr`.
    pub closed spec fn sound(self, remote: Remote, addr: u64) -> bool {
        ||| self.fresh()
        ||| (remote.mem.actor_array(addr, MAX_ACTORS as usize) matches Ok(Some((data, count)))
            && self.next <= count && crate::walk::collect(
            remote.actor_items(data),
            0,
            self.next as int,
        ) == Ok::<Seq<ActorInfo>, crate::mem::Missing>(self.actors.deep_view()))
    }

    /// A walk that has not begun.
    pub fn new() -> (walk: Self)
        ensures
            walk.fresh(),
            forall|remote: Remote, addr: u64| #[trigger] walk.sound(remote, addr),
    {
        let walk = ActorWalk { next: 0, actors: Vec::new() };
        assert(walk.actors.deep_view() =~= seq![]);
        walk
    }
}

fn read_actor(proc: &ProcessHandle, names: &mut FNamePool, data: u64, i: usize) -> (r: Outcome<
    Option<Actor>,
>)
    requires
        i < MAX_ACTORS,
    ensures
        crate::mem::shown(r) == (old(names).remote(proc@).actor_items(data))(i as int),
        final(names).same(*old(names), proc@),
{
    let addr: u64 = match proc.ptr(data.wrapping_add(8 * i as u64))? {
        Some(p) => p,
        None => {
            return Ok(None);
        },
    };
    let class = match class_name(proc, names, addr)? {
        Some(class) => class,
        None => {
            return Ok(None);
        },
    };
    let location: Option<Vec3Bits> = actor_location(proc, addr)?;
    Ok(Some(Actor { addr, class, location }))
}

/// Read the actors of the array at `addr`.
pub fn read_actors(
    proc: &ProcessHandle,
    names: &mut FNamePool,
    addr: u64,
    walk: &mut ActorWalk,
) -> (r: Outcome<Vec<Actor>>)
    requires
        old(walk).sound(old(names).remote(proc@), addr),
    ensures
        crate::mem::shown(r) == old(names).remote(proc@).actors(addr),
        final(walk).sound(old(names).remote(proc@), addr),
        final(names).same(*old(names), proc@),
{
    let ghost remote = names.remote(proc@);
    let data: u64 = match proc.ptr(addr)? {
        Some(p) => p,
        None => {
            let none: Vec<Actor> = Vec::new();
            assert(none.deep_view() =~= seq![]);
            return Ok(none);
        },
    };
    let count: usize = read_array_len(proc, addr, MAX_ACTORS as usize)?;
    let ghost step = remote.actor_items(data);
    while walk.next < count
        invariant
            walk.next <= count <= MAX_ACTORS,
            names.same(*old(names), proc@),
            remote == old(names).remote(proc@),
            remote.mem.actor_array(addr, MAX_ACTORS as usize) == Ok::<
                Option<(u64, int)>,
                crate::mem::Missing,
            >(Some((data, count as int))),
            step == remote.actor_items(data),
            crate::walk::collect(step, 0, walk.next as int) == Ok::<
                Seq<ActorInfo>,
                crate::mem::Missing,
            >(walk.actors.deep_view()),
        decreases count - walk.next,
    {
        assert(names.remote(proc@) == remote);
        let ghost i = walk.next as int;
        proof {
            crate::walk::lemma_collect_next(step, 0, i);
            if step(i) is Err {
                crate::walk::lemma_collect_stop(step, 0, i, count as int);
            }
        }
        let found = read_actor(proc, names, data, walk.next)?;
        let ghost before = walk.actors.deep_view();
        let ghost seen = found.deep_view();
        if let Some(actor) = found {
            walk.actors.push(actor);
        }
        assert(walk.actors.deep_view() =~= before + crate::walk::optional(seen));
        walk.next = walk.next + 1;
    }
    let mut actors: Vec<Actor> = Vec::new();
    assert(actors.deep_view() =~= seq![]);
    std::mem::swap(&mut actors, &mut walk.actors);
    walk.next = 0;
    Ok(actors)
}

// ── Laws ────────────────────────────────────────────────────────────

/// Fetching more pages never changes the class of an actor.
pub proof fn lemma_actor_class_settled(r: Remote, r2: Remote, obj: u64)
    requires
        r.grows_to(r2),
    ensures
        r.mem.settles(r.actor_class(obj), r2.actor_class(obj)),
{
    broadcast use {crate::mem::lemma_value_settled, crate::ue::fname::lemma_name_at_settled};

}

proof fn lemma_actor_array_hit_settled(r: Remote, r2: Remote, addr: u64)
    requires
        r.grows_to(r2),
    ensures
        r.mem.settles(r.is_actor_array(addr), r2.is_actor_array(addr)),
{
    broadcast use crate::mem::lemma_value_settled;

    match r.mem.pointer(addr) {
        Ok(Some(data)) => {
            let step = r.named_items(data);
            let later = r2.named_items(data);
            assert forall|i: int| r.mem.settles(#[trigger] step(i), later(i)) by {
                match r.mem.pointer(data.wrapping_add((8 * i) as u64)) {
                    Ok(Some(actor)) => {
                        lemma_actor_class_settled(r, r2, actor);
                    },
                    _ => {},
                }
            }
            match r.mem.value::<i32>(addr.wrapping_add(8)) {
                Ok(Some(count)) => {
                    let probe = if count < ACTOR_PROBES {
                        count as int
                    } else {
                        ACTOR_PROBES as int
                    };
                    crate::walk::lemma_collect_settled(r.mem, step, later, 0, probe);
                },
                _ => {},
            }
        },
        _ => {},
    }
}

proof fn lemma_actors_offset_from_settled(r: Remote, r2: Remote, level: u64, off: u64)
    requires
        r.grows_to(r2),
    ensures
        r.mem.settles(r.actors_offset_from(level, off), r2.actors_offset_from(level, off)),
    decreases ACTORS_SCAN_END + 8 - off,
{
    if off < ACTORS_SCAN_END {
        lemma_actor_array_hit_settled(r, r2, level.wrapping_add(off));
        lemma_actors_offset_from_settled(r, r2, level, (off + 8) as u64);
    }
}

/// Fetching more pages never changes where the actors of a level are.
pub proof fn lemma_actors_offset_settled(r: Remote, r2: Remote, level: u64)
    requires
        r.grows_to(r2),
    ensures
        r.mem.settles(r.actors_offset(level), r2.actors_offset(level)),
{
    lemma_actors_offset_from_settled(r, r2, level, ACTORS_SCAN_START);
}

/// The offset that is found is a multiple of eight in the range that is searched, and
/// what stands there looks like an array of actors.
pub proof fn lemma_actors_offset_found(r: Remote, level: u64, from: u64)
    requires
        from % 8 == 0,
    ensures
        r.actors_offset_from(level, from) matches Ok(Some(off)) ==> {
            &&& from <= off < ACTORS_SCAN_END
            &&& off % 8 == 0
            &&& r.is_actor_array(level.wrapping_add(off)) == Ok::<bool, crate::mem::Missing>(true)
        },
    decreases ACTORS_SCAN_END + 8 - from,
{
    if from < ACTORS_SCAN_END {
        lemma_actors_offset_found(r, level, (from + 8) as u64);
    }
}

proof fn lemma_actors_upto_settled(r: Remote, r2: Remote, data: u64, to: int)
    requires
        r.grows_to(r2),
    ensures
        r.mem.settles(
            crate::walk::collect(r.actor_items(data), 0, to),
            crate::walk::collect(r2.actor_items(data), 0, to),
        ),
{
    broadcast use {crate::mem::lemma_value_settled, crate::esp::lemma_location_settled};

    let step = r.actor_items(data);
    let later = r2.actor_items(data);
    assert forall|i: int| 0 <= i < to implies r.mem.settles(#[trigger] step(i), later(i)) by {
        match r.mem.pointer(data.wrapping_add((8 * i) as u64)) {
            Ok(Some(actor)) => {
                lemma_actor_class_settled(r, r2, actor);
            },
            _ => {},
        }
    }
    crate::walk::lemma_collect_settled(r.mem, step, later, 0, to);
}

/// A walk that has not begun has nothing wrong.
pub proof fn lemma_fresh_actor_walk(walk: ActorWalk, r: Remote, addr: u64)
    requires
        walk.fresh(),
    ensures
        walk.sound(r, addr),
{
}

/// Fetching more pages never changes an array of actors.
pub broadcast proof fn lemma_actor_array_settled(m: Memory, m2: Memory, addr: u64, most: usize)
    requires
        #[trigger] m.grows_to(m2),
    ensures
        m.settles(#[trigger] m.actor_array(addr, most), m2.actor_array(addr, most)),
{
    broadcast use crate::mem::lemma_value_settled;

}

/// Fetching more pages never changes the actors.
pub proof fn lemma_actors_settled(r: Remote, r2: Remote, addr: u64)
    requires
        r.grows_to(r2),
    ensures
        r.mem.settles(r.actors(addr), r2.actors(addr)),
{
    broadcast use lemma_actor_array_settled;

    match r.mem.actor_array(addr, MAX_ACTORS as usize) {
        Ok(Some((data, count))) => {
            lemma_actors_upto_settled(r, r2, data, count);
        },
        _ => {},
    }
}

/// Reading the actors can go on after more pages have been fetched.
pub proof fn lemma_actor_walk_keeps(walk: ActorWalk, r: Remote, r2: Remote, addr: u64)
    requires
        walk.sound(r, addr),
        r.grows_to(r2),
    ensures
        walk.sound(r2, addr),
{
    broadcast use lemma_actor_array_settled;

    match r.mem.actor_array(addr, MAX_ACTORS as usize) {
        Ok(Some((data, _))) => {
            lemma_actors_upto_settled(r, r2, data, walk.next as int);
        },
        _ => {},
    }
}

} // verus!
