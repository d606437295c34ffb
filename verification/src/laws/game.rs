//! The running game: where it has the camera, the players and the actors.

use crate::esp::actors::ActorInfo;
use crate::esp::players::PlayerInfo;
use crate::esp::{CameraBits, Vec3Bits};
use crate::mem::{Memory, Missing, Outcome};
use crate::ue::fname::Remote;
use vstd::prelude::*;

verus! {

// ── Plain reads ─────────────────────────────────────────────────────

/// Three numbers of eight bytes stand at `addr`, one behind the other.
pub open spec fn vector_stands_at(m: Memory, addr: u64, v: Vec3Bits) -> bool {
    &&& addr + 24 <= 0x1_0000_0000_0000_0000
    &&& m.fetch(addr, 24) matches Ok(Some(_))
    &&& m.holds::<u64>(addr, v.x)
    &&& m.holds::<u64>((addr + 8) as u64, v.y)
    &&& m.holds::<u64>((addr + 16) as u64, v.z)
}

proof fn lemma_vector(m: Memory, addr: u64, v: Vec3Bits)
    ensures
        vector_stands_at(m, addr, v) ==> m.vec3(addr) == Ok::<Option<Vec3Bits>, Missing>(Some(v)),
        m.vec3(addr) == Ok::<Option<Vec3Bits>, Missing>(Some(v)) ==> vector_stands_at(m, addr, v),
{
    if let Ok(Some(bytes)) = m.fetch(addr, 24) {
        crate::scanner::pattern::lemma_fetch_part(m, addr, 24, 0, 8);
        crate::scanner::pattern::lemma_fetch_part(m, addr, 24, 8, 8);
        crate::scanner::pattern::lemma_fetch_part(m, addr, 24, 16, 8);
    }
}

/// An actor stands where the vector at 0x140 of its root says; the pointer to the root
/// stands at 0x1B8 of the actor.
pub proof fn lemma_where_an_actor_stands(m: Memory, actor: u64, root: u64, pos: Vec3Bits)
    ensures
        m.points(actor.wrapping_add(0x1B8), root) && vector_stands_at(
            m,
            root.wrapping_add(0x140),
            pos,
        ) ==> m.location(actor) == Ok::<Option<Vec3Bits>, Missing>(Some(pos)),
        m.points(actor.wrapping_add(0x1B8), root) && m.location(actor) == Ok::<
            Option<Vec3Bits>,
            Missing,
        >(Some(pos)) ==> vector_stands_at(m, root.wrapping_add(0x140), pos),
        m.points_nowhere(actor.wrapping_add(0x1B8)) ==> m.location(actor) == Ok::<
            Option<Vec3Bits>,
            Missing,
        >(None),
        m.points(actor.wrapping_add(0x1B8), root) && m.fetch(root.wrapping_add(0x140), 24) == Ok::<
            Option<Seq<u8>>,
            Missing,
        >(None) ==> m.location(actor) == Ok::<Option<Vec3Bits>, Missing>(None),
{
    lemma_vector(m, root.wrapping_add(0x140), pos);
}

/// The first element of an array of pointers is what the first of its data points to; an
/// array whose length, 8 behind its start, is below one has none.
pub proof fn lemma_first_element(m: Memory, addr: u64, data: u64, n: i32, first: u64)
    requires
        m.points(addr, data),
        m.holds::<i32>(addr.wrapping_add(8), n),
    ensures
        n >= 1 && m.points(data, first) ==> m.tarray_first(addr) == Ok::<Option<u64>, Missing>(
            Some(first),
        ),
        n < 1 || m.points_nowhere(data) ==> m.tarray_first(addr) == Ok::<Option<u64>, Missing>(None),
{
}

/// A text of the engine has its data where its first pointer leads and its length, in code
/// units of two bytes, 8 behind. It is read without the NULs at its end if it has 1 to 512
/// units, and not at all otherwise.
pub proof fn lemma_engine_text(m: Memory, addr: u64, data: u64, n: i32, bytes: Seq<u8>)
    requires
        m.points(addr, data),
        m.holds::<i32>(addr.wrapping_add(8), n),
    ensures
        1 <= n <= 512 && bytes.len() == 2 * n && m.shows(data, bytes) ==> m.fstring(addr) == Ok::<
            Option<Seq<char>>,
            Missing,
        >(
            Some(
                crate::text::trimmed(
                    crate::text::utf16_text(crate::laws::names::code_units(bytes)),
                ),
            ),
        ),
        n < 1 || n > 512 ==> m.fstring(addr) == Ok::<Option<Seq<char>>, Missing>(None),
        1 <= n <= 512 && m.fetch(data, (2 * n) as usize) == Ok::<Option<Seq<u8>>, Missing>(None)
            ==> m.fstring(addr) == Ok::<Option<Seq<char>>, Missing>(None),
{
    assert(crate::ue::fname::units(bytes) =~= crate::laws::names::code_units(bytes));
}

/// There is no text, and no first element, where there is no pointer to it or no length.
pub proof fn lemma_no_engine_text(m: Memory, addr: u64, data: u64)
    requires
        m.points_nowhere(addr) || m.points(addr, data) && m.value::<i32>(addr.wrapping_add(8))
            == Ok::<Option<i32>, Missing>(None),
    ensures
        m.fstring(addr) == Ok::<Option<Seq<char>>, Missing>(None),
        m.tarray_first(addr) == Ok::<Option<u64>, Missing>(None),
{
}

// ── The local player ────────────────────────────────────────────────

/// The way from a world to the controller of its local player: the game instance at
/// 0x228, its array of local players at 0x38, the first of them, and the controller at
/// 0x30 of it.
pub open spec fn controls(
    m: Memory,
    world: u64,
    instance: u64,
    players: u64,
    n: i32,
    player: u64,
    pc: u64,
) -> bool {
    &&& m.points(world.wrapping_add(0x228), instance)
    &&& m.points(instance.wrapping_add(0x38), players)
    &&& m.holds::<i32>(instance.wrapping_add(0x40), n)
    &&& n >= 1
    &&& m.points(players, player)
    &&& m.points(player.wrapping_add(0x30), pc)
}

/// The camera is that of the local player: the camera manager at 0x360 of the controller
/// has the location at 0x1540, the rotation at 0x1558 and the field of view at 0x1570. The
/// pawn is what the pointer at 0x350 of the controller leads to, or none.
pub proof fn lemma_camera_of_local_player(
    m: Memory,
    world: u64,
    instance: u64,
    players: u64,
    n: i32,
    player: u64,
    pc: u64,
    manager: u64,
    cam: CameraBits,
    pawn: u64,
)
    requires
        controls(m, world, instance, players, n, player, pc),
        m.points(pc.wrapping_add(0x360), manager),
        vector_stands_at(m, manager.wrapping_add(0x1540), cam.loc),
        vector_stands_at(m, manager.wrapping_add(0x1558), cam.rot),
        m.holds::<u32>(manager.wrapping_add(0x1570), cam.fov),
        m.value_or::<u64>(pc.wrapping_add(0x350), 0) == Ok::<u64, Missing>(pawn),
    ensures
        m.camera(world) == Ok::<Option<(CameraBits, u64)>, Missing>(Some((cam, pawn))),
{
    assert(instance.wrapping_add(0x38).wrapping_add(8) == instance.wrapping_add(0x40));
    let pov = manager.wrapping_add(0x1530).wrapping_add(0x10);
    assert(pov.wrapping_add(0) == manager.wrapping_add(0x1540));
    assert(pov.wrapping_add(0x18) == manager.wrapping_add(0x1558));
    assert(pov.wrapping_add(0x30) == manager.wrapping_add(0x1570));
    lemma_vector(m, manager.wrapping_add(0x1540), cam.loc);
    lemma_vector(m, manager.wrapping_add(0x1558), cam.rot);
}

/// There is no camera without a controller, without a camera manager, or where its
/// location cannot be read.
pub proof fn lemma_no_camera(
    m: Memory,
    world: u64,
    instance: u64,
    players: u64,
    n: i32,
    player: u64,
    pc: u64,
    manager: u64,
)
    ensures
        m.points_nowhere(world.wrapping_add(0x228)) ==> m.camera(world) == Ok::<
            Option<(CameraBits, u64)>,
            Missing,
        >(None),
        m.points(world.wrapping_add(0x228), instance) && m.points(
            instance.wrapping_add(0x38),
            players,
        ) && m.holds::<i32>(instance.wrapping_add(0x40), n) && n < 1 ==> m.camera(world) == Ok::<
            Option<(CameraBits, u64)>,
            Missing,
        >(None),
        controls(m, world, instance, players, n, player, pc) && m.points_nowhere(
            pc.wrapping_add(0x360),
        ) ==> m.camera(world) == Ok::<Option<(CameraBits, u64)>, Missing>(None),
        controls(m, world, instance, players, n, player, pc) && m.points(
            pc.wrapping_add(0x360),
            manager,
        ) && m.fetch(manager.wrapping_add(0x1540), 24) == Ok::<Option<Seq<u8>>, Missing>(None)
            ==> m.camera(world) == Ok::<Option<(CameraBits, u64)>, Missing>(None),
{
    assert(instance.wrapping_add(0x38).wrapping_add(8) == instance.wrapping_add(0x40));
    let pov = manager.wrapping_add(0x1530).wrapping_add(0x10);
    assert(pov.wrapping_add(0) == manager.wrapping_add(0x1540));
}

/// The local player's name is the text at 0x340 of the player state, to which the pointer
/// at 0x2B0 of the controller leads.
pub proof fn lemma_local_name(
    m: Memory,
    world: u64,
    instance: u64,
    players: u64,
    n: i32,
    player: u64,
    pc: u64,
    state: u64,
)
    requires
        controls(m, world, instance, players, n, player, pc),
    ensures
        m.points(pc.wrapping_add(0x2B0), state) ==> m.local_name(world) == m.fstring(
            state.wrapping_add(0x340),
        ),
        m.points_nowhere(pc.wrapping_add(0x2B0)) ==> m.local_name(world) == Ok::<
            Option<Seq<char>>,
            Missing,
        >(None),
{
    assert(instance.wrapping_add(0x38).wrapping_add(8) == instance.wrapping_add(0x40));
}

// ── Players ─────────────────────────────────────────────────────────

/// The fields of a player: the name at 0x340 of the player state, or "Player"; a spectator
/// if one of the bits 2 and 4 of the byte at 0x2B2 is set; the pawn at 0x320; and the
/// local player if that is the local player's pawn.
pub proof fn lemma_player_fields(m: Memory, state: u64, self_pawn: u64, p: PlayerInfo)
    requires
        m.player_at(state, self_pawn) == Ok::<Option<PlayerInfo>, Missing>(Some(p)),
    ensures
        m.fstring(state.wrapping_add(0x340)) matches Ok(name) && p.name == (match name {
            Some(name) => name,
            None => "Player"@,
        }),
        m.value_or::<u8>(state.wrapping_add(0x2B2), 0) matches Ok(flags) && p.spectator == ((flags
            / 2) % 2 == 1 || (flags / 4) % 2 == 1),
        m.value_or::<u64>(state.wrapping_add(0x320), 0) == Ok::<u64, Missing>(p.pawn),
        p.is_self <==> p.pawn != 0 && p.pawn == self_pawn,
{
    let flags = m.value_or::<u8>(state.wrapping_add(0x2B2), 0)->Ok_0;
    assert((flags & (2u8 | 4u8) != 0) == ((flags / 2) % 2 == 1 || (flags / 4) % 2 == 1))
        by (bit_vector);
}

/// A player's health is the number at 0x3C of the health set, to which the pointer at
/// 0x3B0 of the player state leads.
pub proof fn lemma_player_health(m: Memory, state: u64, self_pawn: u64, set: u64, p: PlayerInfo)
    requires
        m.player_at(state, self_pawn) == Ok::<Option<PlayerInfo>, Missing>(Some(p)),
    ensures
        m.points(state.wrapping_add(0x3B0), set) ==> m.value::<u32>(set.wrapping_add(0x3C)) == Ok::<
            Option<u32>,
            Missing,
        >(p.health),
        m.points_nowhere(state.wrapping_add(0x3B0)) ==> p.health is None,
{
    assert(set.wrapping_add(0x30).wrapping_add(0x0C) == set.wrapping_add(0x3C));
}

/// A player is drawn exactly if they are not a spectator and not the local player, have a
/// pawn, and are not known to be dead: their health, if there is one, is a 32-bit float
/// with a clear sign that is neither zero nor no number.
pub proof fn lemma_who_is_drawn(p: PlayerInfo)
    ensures
        p.drawable() <==> !p.spectator && !p.is_self && p.pawn != 0 && (match p.health {
            None => true,
            Some(bits) => {
                let sign = bits / 0x8000_0000;
                let exponent = (bits / 0x80_0000) % 0x100;
                let fraction = bits % 0x80_0000;
                sign == 0 && !(exponent == 0 && fraction == 0) && !(exponent == 0xFF && fraction
                    != 0)
            },
        }),
{
}

/// How many elements of an array are read: its length, 8 behind its start, but none for a
/// length below zero, and no more than a limit.
pub open spec fn counts(m: Memory, addr: u64, limit: int, n: int) -> bool {
    m.value_or::<i32>(addr.wrapping_add(8), 0) matches Ok(len) && n == (if len < 0 {
        0
    } else if len > limit {
        limit
    } else {
        len as int
    })
}

/// The players are those of the array at 0x2C0 of the game state, to which the pointer at
/// 0x1B0 of the world leads, 64 of them at most: one for each element that is not null, in
/// their order.
pub proof fn lemma_players_are_listed(
    m: Memory,
    world: u64,
    cam: CameraBits,
    self_pawn: u64,
    state: u64,
    data: u64,
    n: int,
    list: Seq<PlayerInfo>,
) -> (from: Seq<int>)
    requires
        m.camera(world) == Ok::<Option<(CameraBits, u64)>, Missing>(Some((cam, self_pawn)))
            || m.camera(world) == Ok::<Option<(CameraBits, u64)>, Missing>(None) && self_pawn == 0,
        m.points(world.wrapping_add(0x1B0), state),
        m.points(state.wrapping_add(0x2C0), data),
        counts(m, state.wrapping_add(0x2C0), 64, n),
        m.players(world) == Ok::<Seq<PlayerInfo>, Missing>(list),
    ensures
        from.len() == list.len(),
        forall|k: int| 0 <= k < from.len() ==> 0 <= #[trigger] from[k] < n,
        forall|k: int, l: int| 0 <= k < l < from.len() ==> #[trigger] from[k] < #[trigger] from[l],
        forall|k: int|
            0 <= k < from.len() ==> (m.value::<u64>(
                data.wrapping_add((8 * #[trigger] from[k]) as u64),
            ) matches Ok(Some(ps)) && ps != 0 && m.player_at(ps, self_pawn) == Ok::<
                Option<PlayerInfo>,
                Missing,
            >(Some(list[k]))),
        forall|i: int|
            0 <= i < n && !#[trigger] from.contains(i) ==> m.points_nowhere(
                data.wrapping_add((8 * i) as u64),
            ),
{
    let step = m.player_items(data, self_pawn);
    let from = crate::laws::lemma_walk_picks(step, n);
    assert forall|k: int| 0 <= k < from.len() implies (m.value::<u64>(
        data.wrapping_add((8 * #[trigger] from[k]) as u64),
    ) matches Ok(Some(ps)) && ps != 0 && m.player_at(ps, self_pawn) == Ok::<
        Option<PlayerInfo>,
        Missing,
    >(Some(list[k]))) by {
        assert(step(from[k]) == Ok::<Option<PlayerInfo>, Missing>(Some(list[k])));
    }
    assert forall|i: int| 0 <= i < n && !#[trigger] from.contains(i) implies m.points_nowhere(
        data.wrapping_add((8 * i) as u64),
    ) by {
        assert(step(i) == Ok::<Option<PlayerInfo>, Missing>(None));
    }
    from
}

/// There are no players without a game state, or without an array of them.
pub proof fn lemma_no_players(m: Memory, world: u64, state: u64)
    requires
        m.camera(world) is Ok,
        m.points_nowhere(world.wrapping_add(0x1B0)) || m.points(world.wrapping_add(0x1B0), state)
            && m.points_nowhere(state.wrapping_add(0x2C0)),
    ensures
        m.players(world) == Ok::<Seq<PlayerInfo>, Missing>(seq![]),
{
}

// ── Actors ──────────────────────────────────────────────────────────

/// The object at `obj` is of the class at `class`, and that is called `name`.
pub open spec fn classed(r: Remote, obj: u64, class: u64, name: Seq<char>) -> bool {
    r.mem.points(obj.wrapping_add(0x10), class) && r.called(class.wrapping_add(0x18), name)
}

/// The class of an actor is what the pointer at 0x10 of it leads to, and the name of that
/// stands at 0x18 of it.
pub proof fn lemma_actor_class(r: Remote, obj: u64, class: u64, name: Seq<char>)
    ensures
        classed(r, obj, class, name) ==> r.actor_class(obj) == Ok::<Option<Seq<char>>, Missing>(
            Some(name),
        ),
        r.mem.points_nowhere(obj.wrapping_add(0x10)) ==> r.actor_class(obj) == Ok::<
            Option<Seq<char>>,
            Missing,
        >(None),
        r.mem.points(obj.wrapping_add(0x10), class) && r.name_at(class.wrapping_add(0x18)) == Ok::<
            Option<Seq<char>>,
            Missing,
        >(None) ==> r.actor_class(obj) == Ok::<Option<Seq<char>>, Missing>(None),
{
}

/// The array at `addr` is one of actors: it has 1 to 0x20000 elements, and room for these
/// and 0x8000 more at most; and each of the first eight of them is an object whose class
/// has a name that is not empty.
pub open spec fn looks_like_actors(
    r: Remote,
    addr: u64,
    data: u64,
    n: i32,
    room: i32,
    objs: Seq<(u64, u64, Seq<char>)>,
) -> bool {
    &&& r.mem.points(addr, data)
    &&& r.mem.holds::<i32>(addr.wrapping_add(8), n)
    &&& r.mem.holds::<i32>(addr.wrapping_add(12), room)
    &&& 1 <= n <= 0x2_0000
    &&& n <= room <= n + 0x8000
    &&& objs.len() == (if n < 8 {
        n as int
    } else {
        8
    })
    &&& forall|i: int|
        0 <= i < objs.len() ==> {
            let (obj, class, name) = #[trigger] objs[i];
            &&& r.mem.points(data.wrapping_add((8 * i) as u64), obj)
            &&& classed(r, obj, class, name)
            &&& name.len() > 0
        }
}

proof fn lemma_named_upto(r: Remote, data: u64, objs: Seq<(u64, u64, Seq<char>)>, n: int)
    requires
        0 <= n <= objs.len(),
        forall|i: int|
            0 <= i < objs.len() ==> {
                let (obj, class, name) = #[trigger] objs[i];
                &&& r.mem.points(data.wrapping_add((8 * i) as u64), obj)
                &&& classed(r, obj, class, name)
                &&& name.len() > 0
            },
    ensures
        crate::walk::collect(r.named_items(data), 0, n) matches Ok(found) && found.len() == n,
    decreases n,
{
    if n > 0 {
        lemma_named_upto(r, data, objs, n - 1);
        crate::walk::lemma_collect_next(r.named_items(data), 0, n - 1);
        let (obj, class, name) = objs[n - 1];
        assert((r.named_items(data))(n - 1) == Ok::<Option<Seq<char>>, Missing>(Some(name)));
    }
}

/// An array that looks like one of actors is taken for one.
pub proof fn lemma_actor_array_is_seen(
    r: Remote,
    addr: u64,
    data: u64,
    n: i32,
    room: i32,
    objs: Seq<(u64, u64, Seq<char>)>,
)
    requires
        looks_like_actors(r, addr, data, n, room, objs),
    ensures
        r.is_actor_array(addr) == Ok::<bool, Missing>(true),
{
    lemma_named_upto(r, data, objs, objs.len() as int);
}

/// What is taken for an array of actors looks like one.
pub proof fn lemma_seen_actor_array(r: Remote, addr: u64) -> (q: (
    u64,
    i32,
    i32,
    Seq<(u64, u64, Seq<char>)>,
))
    requires
        r.is_actor_array(addr) == Ok::<bool, Missing>(true),
    ensures
        looks_like_actors(r, addr, q.0, q.1, q.2, q.3),
{
    let data = r.mem.value::<u64>(addr)->Ok_0->0;
    let n = r.mem.value::<i32>(addr.wrapping_add(8))->Ok_0->0;
    let room = r.mem.value::<i32>(addr.wrapping_add(12))->Ok_0->0;
    let probe: int = if n < 8 {
        n as int
    } else {
        8
    };
    let step = r.named_items(data);
    let found = crate::walk::collect(step, 0, probe)->Ok_0;
    let from = crate::laws::lemma_walk_picks(step, probe);
    let obj_at = |i: int| r.mem.value::<u64>(data.wrapping_add((8 * i) as u64))->Ok_0->0;
    let class_at = |i: int| r.mem.value::<u64>(obj_at(i).wrapping_add(0x10))->Ok_0->0;
    let name_of = |i: int| r.name_at(class_at(i).wrapping_add(0x18))->Ok_0->0;
    let objs = Seq::new(probe as nat, |i: int| (obj_at(i), class_at(i), name_of(i)));
    lemma_ascending_fill(from, probe);
    assert forall|i: int| 0 <= i < objs.len() implies {
        let (obj, class, name) = #[trigger] objs[i];
        &&& r.mem.points(data.wrapping_add((8 * i) as u64), obj)
        &&& classed(r, obj, class, name)
        &&& name.len() > 0
    } by {
        assert(from[i] == i);
        assert(step(from[i]) == Ok::<Option<Seq<char>>, Missing>(Some(found[i])));
    }
    (data, n, room, objs)
}

/// As many ascending numbers below `n` as there are, are all of them.
proof fn lemma_ascending_fill(from: Seq<int>, n: int)
    requires
        from.len() == n,
        forall|k: int| 0 <= k < from.len() ==> 0 <= #[trigger] from[k] < n,
        forall|k: int, l: int|
            0 <= k < l < from.len() ==> #[trigger] from[k] < #[trigger] from[l],
    ensures
        forall|k: int| 0 <= k < n ==> #[trigger] from[k] == k,
{
    assert forall|k: int| 0 <= k < n implies #[trigger] from[k] >= k by {
        lemma_at_least(from, k);
    }
    assert forall|k: int| 0 <= k < n implies #[trigger] from[k] <= k by {
        lemma_at_most(from, n, k);
    }
}

proof fn lemma_at_least(from: Seq<int>, k: int)
    requires
        0 <= k < from.len(),
        forall|k: int| 0 <= k < from.len() ==> 0 <= #[trigger] from[k],
        forall|k: int, l: int|
            0 <= k < l < from.len() ==> #[trigger] from[k] < #[trigger] from[l],
    ensures
        from[k] >= k,
    decreases k,
{
    if k > 0 {
        lemma_at_least(from, k - 1);
        assert(from[k - 1] < from[k]);
    }
}

proof fn lemma_at_most(from: Seq<int>, n: int, k: int)
    requires
        0 <= k < from.len(),
        from.len() == n,
        forall|k: int| 0 <= k < from.len() ==> #[trigger] from[k] < n,
        forall|k: int, l: int|
            0 <= k < l < from.len() ==> #[trigger] from[k] < #[trigger] from[l],
    ensures
        from[k] <= k,
    decreases n - k,
{
    if k < n - 1 {
        lemma_at_most(from, n, k + 1);
        assert(from[k] < from[k + 1]);
    }
}

/// Place number `k` of those in a level at which its actors are looked for.
pub open spec fn actors_place(k: int) -> u64 {
    (0x80 + 8 * k) as u64
}

/// What looking at the places in turn takes, if looking at them one by one gives `seen`.
spec fn taken_of(seen: Seq<Outcome<bool>>, i: int) -> Outcome<Option<u64>>
    decreases seen.len() - i,
{
    if i < 0 || i >= seen.len() {
        Ok(None)
    } else {
        match seen[i] {
            Err(e) => Err(e),
            Ok(true) => Ok(Some(actors_place(i))),
            Ok(false) => taken_of(seen, i + 1),
        }
    }
}

proof fn lemma_next_place(r: Remote, level: u64, i: int)
    requires
        0 <= i < 80,
    ensures
        r.actors_offset_from(level, actors_place(i)) == (match r.is_actor_array(
            level.wrapping_add(actors_place(i)),
        ) {
            Err(e) => Err(e),
            Ok(true) => Ok(Some(actors_place(i))),
            Ok(false) => r.actors_offset_from(level, actors_place(i + 1)),
        }),
{
}

proof fn lemma_places_in_turn(r: Remote, level: u64, seen: Seq<Outcome<bool>>, i: int)
    requires
        0 <= i <= 80,
        seen.len() == 80,
        forall|k: int|
            0 <= k < 80 ==> #[trigger] seen[k] == r.is_actor_array(
                level.wrapping_add(actors_place(k)),
            ),
    ensures
        r.actors_offset_from(level, actors_place(i)) == taken_of(seen, i),
    decreases 80 - i,
{
    if i < 80 {
        lemma_next_place(r, level, i);
        lemma_places_in_turn(r, level, seen, i + 1);
        assert(seen[i] == r.is_actor_array(level.wrapping_add(actors_place(i))));
    }
}

proof fn lemma_taken_is_first(seen: Seq<Outcome<bool>>, i: int, off: u64) -> (k: int)
    requires
        0 <= i,
        taken_of(seen, i) == Ok::<Option<u64>, Missing>(Some(off)),
    ensures
        i <= k < seen.len(),
        off == actors_place(k),
        seen[k] == Ok::<bool, Missing>(true),
        forall|j: int| i <= j < k ==> #[trigger] seen[j] == Ok::<bool, Missing>(false),
    decreases seen.len() - i,
{
    match seen[i] {
        Ok(true) => i,
        _ => lemma_taken_is_first(seen, i + 1, off),
    }
}

proof fn lemma_one_is_taken(seen: Seq<Outcome<bool>>, i: int, k: int)
    requires
        0 <= i <= k < seen.len() <= 80,
        seen[k] == Ok::<bool, Missing>(true),
        taken_of(seen, i) is Ok,
    ensures
        taken_of(seen, i) matches Ok(Some(off)) && off <= actors_place(k),
    decreases k - i,
{
    if i < k && seen[i] == Ok::<bool, Missing>(false) {
        lemma_one_is_taken(seen, i + 1, k);
    }
}

/// The actors of a level are looked for at 0x80, 0x88 and so on up to, not including,
/// 0x300. What is taken is an array of actors in one of these places, and none of those in
/// front of it has one.
pub proof fn lemma_taken_actor_array(r: Remote, level: u64, off: u64, before: int) -> (k: int)
    requires
        r.actors_offset(level) == Ok::<Option<u64>, Missing>(Some(off)),
    ensures
        0 <= k < 80,
        off == actors_place(k),
        r.is_actor_array(level.wrapping_add(off)) == Ok::<bool, Missing>(true),
        0 <= before < k ==> r.is_actor_array(level.wrapping_add(actors_place(before))) == Ok::<
            bool,
            Missing,
        >(false),
{
    let seen = Seq::new(80, |k: int| r.is_actor_array(level.wrapping_add(actors_place(k))));
    lemma_places_in_turn(r, level, seen, 0);
    let k = lemma_taken_is_first(seen, 0, off);
    if 0 <= before < k {
        assert(seen[before] == Ok::<bool, Missing>(false));
    }
    k
}

/// Where an array of actors stands in one of the places, one is taken, and none further
/// behind.
pub proof fn lemma_actor_array_is_taken(r: Remote, level: u64, k: int)
    requires
        0 <= k < 80,
        r.is_actor_array(level.wrapping_add(actors_place(k))) == Ok::<bool, Missing>(true),
        r.actors_offset(level) is Ok,
    ensures
        r.actors_offset(level) matches Ok(Some(taken)) && taken <= actors_place(k),
{
    let seen = Seq::new(80, |k: int| r.is_actor_array(level.wrapping_add(actors_place(k))));
    lemma_places_in_turn(r, level, seen, 0);
    lemma_one_is_taken(seen, 0, k);
}

/// There are no actors where there is no array of them.
pub proof fn lemma_no_actors(r: Remote, addr: u64)
    requires
        r.mem.points_nowhere(addr),
    ensures
        r.actors(addr) == Ok::<Seq<ActorInfo>, Missing>(seq![]),
{
}

/// The actors of an array are its elements that are objects of a class with a name, in
/// their order, 0x20000 of them at most; each with where it stands.
pub proof fn lemma_actors_are_listed(
    r: Remote,
    addr: u64,
    data: u64,
    n: int,
    list: Seq<ActorInfo>,
) -> (from: Seq<int>)
    requires
        r.mem.points(addr, data),
        counts(r.mem, addr, 0x2_0000, n),
        r.actors(addr) == Ok::<Seq<ActorInfo>, Missing>(list),
    ensures
        from.len() == list.len(),
        forall|k: int| 0 <= k < from.len() ==> 0 <= #[trigger] from[k] < n,
        forall|k: int, l: int| 0 <= k < l < from.len() ==> #[trigger] from[k] < #[trigger] from[l],
        forall|k: int|
            0 <= k < from.len() ==> {
                &&& r.mem.points(data.wrapping_add((8 * #[trigger] from[k]) as u64), list[k].addr)
                &&& r.actor_class(list[k].addr) == Ok::<Option<Seq<char>>, Missing>(
                    Some(list[k].class),
                )
                &&& r.mem.location(list[k].addr) == Ok::<Option<Vec3Bits>, Missing>(
                    list[k].location,
                )
            },
        forall|i: int, obj: u64|
            0 <= i < n && !#[trigger] from.contains(i) && #[trigger] r.mem.points(
                data.wrapping_add((8 * i) as u64),
                obj,
            ) ==> r.actor_class(obj) == Ok::<Option<Seq<char>>, Missing>(None),
{
    let step = r.actor_items(data);
    let from = crate::laws::lemma_walk_picks(step, n);
    assert forall|k: int| 0 <= k < from.len() implies {
        &&& r.mem.points(data.wrapping_add((8 * #[trigger] from[k]) as u64), list[k].addr)
        &&& r.actor_class(list[k].addr) == Ok::<Option<Seq<char>>, Missing>(Some(list[k].class))
        &&& r.mem.location(list[k].addr) == Ok::<Option<Vec3Bits>, Missing>(list[k].location)
    } by {
        assert(step(from[k]) == Ok::<Option<ActorInfo>, Missing>(Some(list[k])));
    }
    assert forall|i: int, obj: u64|
        0 <= i < n && !#[trigger] from.contains(i) && #[trigger] r.mem.points(
            data.wrapping_add((8 * i) as u64),
            obj,
        ) implies r.actor_class(obj) == Ok::<Option<Seq<char>>, Missing>(None) by {
        assert(step(i) == Ok::<Option<ActorInfo>, Missing>(None));
    }
    from
}

} // verus!
