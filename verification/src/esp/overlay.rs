//! What the overlay shows.

use crate::esp::players::{read_array_len, read_players, PlayerInfo, PlayerView};
use crate::esp::{
    actor_location, read_camera, CameraBits, Vec3Bits, MAX_DRAWN_ACTORS, OBJ_CLASS, PARTY_SLOT,
    WORLD_PERSISTENT_LEVEL,
};
use crate::mem::{Memory, Outcome, ProcessHandle};
use crate::search::LabelCache;
use crate::text::{push_signed, str_contains, strip_prefix, strip_suffix};
use crate::ue::fname::{FNamePool, Remote};
use vstd::prelude::*;
use vstd::string::*;

verus! {

broadcast use {
    crate::ue::fname::lemma_pool_keeps_itself,
    crate::ue::fname::lemma_pool_keeps_transitive,
};

// ── Labels ──────────────────────────────────────────────────────────

impl Memory {
    /// Best human-readable label for an actor of class `class`:
    /// - the local player's pawn has the local player's name
    /// - a party-slot actor is "Member N" (no per-actor name exists)
    /// - anything else is its class name minus BP_/_C noise
    pub open spec fn actor_label(
        self,
        actor: u64,
        class: Seq<char>,
        pawn: u64,
        local: Seq<char>,
    ) -> Outcome<Seq<char>> {
        if actor == pawn && local.len() > 0 {
            Ok(local)
        } else if crate::text::contains_text(class, "PartyMember"@) {
            match self.value_or::<i32>(actor.wrapping_add(PARTY_SLOT), (-1) as i32) {
                Err(e) => Err(e),
                Ok(slot) => Ok("Member "@ + crate::text::signed_decimal(slot as int)),
            }
        } else {
            Ok(
                crate::text::without_prefix(
                    crate::text::without_suffix(class, "_C"@),
                    "BP_"@,
                ),
            )
        }
    }
}

/// Best human-readable label for an actor.
pub fn display_name(proc: &ProcessHandle, actor: u64, class: &str, pawn: u64, local: &str) -> (r:
    Outcome<String>)
    ensures
        crate::mem::shown(r) == proc@.actor_label(actor, class@, pawn, local@),
{
    if actor == pawn && local.unicode_len() > 0 {
        return Ok(local.to_owned());
    }
    if str_contains(class, "PartyMember") {
        let slot: i32 = proc.read_or::<i32>(actor.wrapping_add(PARTY_SLOT), -1)?;
        let mut label = "Member ".to_owned();
        push_signed(&mut label, slot);
        return Ok(label);
    }
    Ok(strip_prefix(strip_suffix(class, "_C"), "BP_").to_owned())
}

/// Which actors are marked.
#[derive(Debug)]
pub enum ActorFilter {
    /// All of them.
    All,
    /// Those whose class name contains a text.
    Contains(String),
    /// Party members, characters and pawns.
    Living,
}

impl ActorFilter {
    /// What was asked for: everything, a class name, or neither.
    pub open spec fn asked(filter: Option<String>, draw_all: bool) -> ActorFilter {
        if draw_all {
            ActorFilter::All
        } else {
            match filter {
                Some(text) => ActorFilter::Contains(text),
                None => ActorFilter::Living,
            }
        }
    }

    /// What was asked for: everything, a class name, or neither.
    pub fn new(filter: Option<String>, draw_all: bool) -> (r: Self)
        ensures
            r == ActorFilter::asked(filter, draw_all),
    {
        if draw_all {
            ActorFilter::All
        } else {
            match filter {
                Some(text) => ActorFilter::Contains(text),
                None => ActorFilter::Living,
            }
        }
    }

    /// An actor of class `class` is marked.
    pub open spec fn wanted(self, class: Seq<char>) -> bool {
        match self {
            ActorFilter::All => true,
            ActorFilter::Contains(text) => crate::text::contains_text(class, text@),
            ActorFilter::Living => {
                ||| crate::text::contains_text(class, "PartyMember"@)
                ||| crate::text::contains_text(class, "Character"@)
                ||| crate::text::contains_text(class, "Pawn"@)
            },
        }
    }

    /// Whether an actor of class `class` is marked.
    pub fn wants(&self, class: &str) -> (r: bool)
        ensures
            r == self.wanted(class@),
    {
        match self {
            ActorFilter::All => true,
            ActorFilter::Contains(text) => str_contains(class, text.as_str()),
            ActorFilter::Living => str_contains(class, "PartyMember") || str_contains(
                class,
                "Character",
            ) || str_contains(class, "Pawn"),
        }
    }
}

// ── Markers ─────────────────────────────────────────────────────────

/// Something to mark on screen.
#[derive(Debug)]
pub struct Marker {
    pub pos: Vec3Bits,
    pub name: String,
    pub enemy: bool,
}

/// A [`Marker`] as a mathematical value.
pub struct MarkerInfo {
    pub pos: Vec3Bits,
    pub name: Seq<char>,
    pub enemy: bool,
}

impl DeepView for Marker {
    type V = MarkerInfo;

    open spec fn deep_view(&self) -> MarkerInfo {
        MarkerInfo { pos: self.pos, name: self.name@, enemy: self.enemy }
    }
}

/// What one frame shows.
#[derive(Debug)]
pub struct Scene {
    pub camera: CameraBits,
    pub markers: Vec<Marker>,
}

/// A [`Scene`] as a mathematical value.
pub struct SceneInfo {
    pub camera: CameraBits,
    pub markers: Seq<MarkerInfo>,
}

impl DeepView for Scene {
    type V = SceneInfo;

    open spec fn deep_view(&self) -> SceneInfo {
        SceneInfo { camera: self.camera, markers: self.markers.deep_view() }
    }
}

impl Memory {
    /// The mark of a player, by their number: drawable players that stand somewhere.
    pub open spec fn player_marks(self, players: Seq<PlayerInfo>) -> spec_fn(int) -> Outcome<
        Option<MarkerInfo>,
    > {
        |i: int|
            if !players[i].drawable() {
                Ok(None)
            } else {
                match self.location(players[i].pawn) {
                    Err(e) => Err(e),
                    Ok(None) => Ok(None),
                    Ok(Some(pos)) => Ok(
                        Some(MarkerInfo { pos, name: players[i].name, enemy: true }),
                    ),
                }
            }
    }

    /// The players to mark in the world that `gworld` points to; nothing if there is
    /// no world or no camera.
    pub open spec fn player_scene(self, gworld: u64) -> Outcome<Option<SceneInfo>> {
        match self.pointer(gworld) {
            Err(e) => Err(e),
            Ok(None) => Ok(None),
            Ok(Some(world)) => match self.camera(world) {
                Err(e) => Err(e),
                Ok(None) => Ok(None),
                Ok(Some((camera, _))) => match self.players(world) {
                    Err(e) => Err(e),
                    Ok(players) => match crate::walk::collect(
                        self.player_marks(players),
                        0,
                        players.len() as int,
                    ) {
                        Err(e) => Err(e),
                        Ok(markers) => Ok(Some(SceneInfo { camera, markers })),
                    },
                },
            },
        }
    }
}

/// Mark the drawable players that stand somewhere.
fn mark_players(proc: &ProcessHandle, players: &Vec<PlayerView>) -> (r: Outcome<Vec<Marker>>)
    ensures
        crate::mem::shown(r) == crate::walk::collect(
            proc@.player_marks(players.deep_view()),
            0,
            players@.len() as int,
        ),
{
    let ghost all = players.deep_view();
    let ghost step = proc@.player_marks(all);
    let mut markers: Vec<Marker> = Vec::new();
    assert(markers.deep_view() =~= seq![]);
    let mut i: usize = 0;
    while i < players.len()
        invariant
            i <= players@.len(),
            all == players.deep_view(),
            step == proc@.player_marks(all),
            crate::walk::collect(step, 0, i as int) == Ok::<Seq<MarkerInfo>, crate::mem::Missing>(
                markers.deep_view(),
            ),
        decreases players@.len() - i,
    {
        proof {
            crate::walk::lemma_collect_next(step, 0, i as int);
            if step(i as int) is Err {
                crate::walk::lemma_collect_stop(step, 0, i as int, players@.len() as int);
            }
        }
        assert(all[i as int] == players@[i as int].deep_view());
        let ghost before = markers.deep_view();
        let mut found: Option<Marker> = None;
        if players[i].drawable() {
            if let Some(pos) = actor_location(proc, players[i].pawn)? {
                found = Some(Marker { pos, name: players[i].name.clone(), enemy: true });
            }
        }
        let ghost seen = found.deep_view();
        if let Some(marker) = found {
            markers.push(marker);
        }
        assert(markers.deep_view() =~= before + crate::walk::optional(seen));
        i = i + 1;
    }
    Ok(markers)
}

/// Player source: GameState.PlayerArray, skipping spectators and dead.
pub fn collect_player_targets(proc: &ProcessHandle, gworld: u64) -> (r: Outcome<Option<Scene>>)
    ensures
        crate::mem::shown(r) == proc@.player_scene(gworld),
{
    let world: u64 = match proc.ptr(gworld)? {
        Some(p) => p,
        None => {
            return Ok(None);
        },
    };
    let camera: CameraBits = match read_camera(proc, world)? {
        Some((camera, _)) => camera,
        None => {
            return Ok(None);
        },
    };
    let players = read_players(proc, world)?;
    let markers = mark_players(proc, &players)?;
    Ok(Some(Scene { camera, markers }))
}

/// A class whose actors are marked as enemies.
pub open spec fn is_enemy(class: Seq<char>) -> bool {
    crate::text::contains_text(class, "PartyMember"@) || crate::text::contains_text(
        class,
        "Enemy"@,
    )
}

impl Memory {
    /// The mark of the actor at `addr` whose class is named `class`, if it is wanted
    /// and stands somewhere.
    pub open spec fn actor_mark(
        self,
        addr: u64,
        class: Seq<char>,
        pawn: u64,
        local: Seq<char>,
        filter: ActorFilter,
    ) -> Outcome<Option<MarkerInfo>> {
        if class.len() == 0 || !filter.wanted(class) {
            Ok(None)
        } else {
            match self.location(addr) {
                Err(e) => Err(e),
                Ok(None) => Ok(None),
                Ok(Some(pos)) => match self.actor_label(addr, class, pawn, local) {
                    Err(e) => Err(e),
                    Ok(name) => Ok(Some(MarkerInfo { pos, name, enemy: is_enemy(class) })),
                },
            }
        }
    }

    /// The marks of the actors in the array at `data`, by their number. `labels` says
    /// what the class at an address is named.
    pub open spec fn actor_marks(
        self,
        labels: spec_fn(u64) -> Outcome<Seq<char>>,
        data: u64,
        pawn: u64,
        local: Seq<char>,
        filter: ActorFilter,
    ) -> spec_fn(int) -> Outcome<Option<MarkerInfo>> {
        |i: int|
            match self.pointer(data.wrapping_add((8 * i) as u64)) {
                Err(e) => Err(e),
                Ok(None) => Ok(None),
                Ok(Some(addr)) => match self.pointer(addr.wrapping_add(OBJ_CLASS)) {
                    Err(e) => Err(e),
                    Ok(None) => Ok(None),
                    Ok(Some(class_addr)) => match labels(class_addr) {
                        Err(e) => Err(e),
                        Ok(class) => self.actor_mark(addr, class, pawn, local, filter),
                    },
                },
            }
    }

    /// What a frame is made from: the camera, the local player's pawn, and where the
    /// actors stand and how many of them are drawn.
    pub open spec fn frame(self, gworld: u64, actors_off: u64) -> Outcome<
        Option<(CameraBits, u64, u64, int)>,
    > {
        match self.pointer(gworld) {
            Err(e) => Err(e),
            Ok(None) => Ok(None),
            Ok(Some(world)) => match self.camera(world) {
                Err(e) => Err(e),
                Ok(None) => Ok(None),
                Ok(Some((camera, pawn))) => match self.pointer(
                    world.wrapping_add(WORLD_PERSISTENT_LEVEL),
                ) {
                    Err(e) => Err(e),
                    Ok(None) => Ok(None),
                    Ok(Some(level)) => match self.actor_array(
                        level.wrapping_add(actors_off),
                        MAX_DRAWN_ACTORS,
                    ) {
                        Err(e) => Err(e),
                        Ok(None) => Ok(None),
                        Ok(Some((data, count))) => Ok(Some((camera, pawn, data, count))),
                    },
                },
            },
        }
    }

    /// The actors to mark in the world that `gworld` points to; nothing if there is
    /// no world, camera or level.
    pub open spec fn actor_scene(
        self,
        labels: spec_fn(u64) -> Outcome<Seq<char>>,
        gworld: u64,
        actors_off: u64,
        local: Seq<char>,
        filter: ActorFilter,
    ) -> Outcome<Option<SceneInfo>> {
        match self.frame(gworld, actors_off) {
            Err(e) => Err(e),
            Ok(None) => Ok(None),
            Ok(Some((camera, pawn, data, count))) => match crate::walk::collect(
                self.actor_marks(labels, data, pawn, local, filter),
                0,
                count,
            ) {
                Err(e) => Err(e),
                Ok(markers) => Ok(Some(SceneInfo { camera, markers })),
            },
        }
    }
}

impl LabelCache {
    /// What the class at each address is named.
    pub open spec fn labels(self, remote: Remote) -> spec_fn(u64) -> Outcome<Seq<char>> {
        |class_addr: u64| self.label(remote, class_addr)
    }
}

fn read_frame(proc: &ProcessHandle, gworld: u64, actors_off: u64) -> (r: Outcome<
    Option<(CameraBits, u64, u64, usize)>,
>)
    ensures
        proc@.frame(gworld, actors_off) == (match r {
            Err(e) => Err(e),
            Ok(None) => Ok(None),
            Ok(Some((camera, pawn, data, count))) => Ok(Some((camera, pawn, data, count as int))),
        }),
        r matches Ok(Some((_, _, _, count))) ==> count <= MAX_DRAWN_ACTORS,
{
    let world: u64 = match proc.ptr(gworld)? {
        Some(p) => p,
        None => {
            return Ok(None);
        },
    };
    let (camera, pawn) = match read_camera(proc, world)? {
        Some(found) => found,
        None => {
            return Ok(None);
        },
    };
    let level: u64 = match proc.ptr(world.wrapping_add(WORLD_PERSISTENT_LEVEL))? {
        Some(p) => p,
        None => {
            return Ok(None);
        },
    };
    let array: u64 = level.wrapping_add(actors_off);
    let data: u64 = match proc.ptr(array)? {
        Some(p) => p,
        None => {
            return Ok(None);
        },
    };
    let count: usize = read_array_len(proc, array, MAX_DRAWN_ACTORS)?;
    Ok(Some((camera, pawn, data, count)))
}

fn read_mark(
    proc: &ProcessHandle,
    addr: u64,
    class: &str,
    pawn: u64,
    local_name: &str,
    filter: &ActorFilter,
) -> (r: Outcome<Option<Marker>>)
    ensures
        crate::mem::shown(r) == proc@.actor_mark(addr, class@, pawn, local_name@, *filter),
{
    if class.unicode_len() == 0 || !filter.wants(class) {
        return Ok(None);
    }
    let pos: Vec3Bits = match actor_location(proc, addr)? {
        Some(pos) => pos,
        None => {
            return Ok(None);
        },
    };
    let name = display_name(proc, addr, class, pawn, local_name)?;
    let enemy = str_contains(class, "PartyMember") || str_contains(class, "Enemy");
    Ok(Some(Marker { pos, name, enemy }))
}

fn read_actor_mark(
    proc: &ProcessHandle,
    names: &mut FNamePool,
    cache: &mut LabelCache,
    data: u64,
    i: usize,
    pawn: u64,
    local_name: &str,
    filter: &ActorFilter,
) -> (r: Outcome<Option<Marker>>)
    requires
        i < MAX_DRAWN_ACTORS,
    ensures
        crate::mem::shown(r) == (proc@.actor_marks(
            old(cache).labels(old(names).remote(proc@)),
            data,
            pawn,
            local_name@,
            *filter,
        ))(i as int),
        final(cache).same(*old(cache), old(names).remote(proc@)),
        final(cache).keeps(*old(cache)),
        final(names).same(*old(names), proc@),
{
    proof {
        reveal(LabelCache::keeps);
    }
    let addr: u64 = match proc.ptr(data.wrapping_add(8 * i as u64))? {
        Some(p) => p,
        None => {
            return Ok(None);
        },
    };
    let class_addr: u64 = match proc.ptr(addr.wrapping_add(OBJ_CLASS))? {
        Some(p) => p,
        None => {
            return Ok(None);
        },
    };
    let class = cache.get(proc, names, class_addr)?;
    read_mark(proc, addr, class.as_str(), pawn, local_name, filter)
}

/// How far reading the marks of a frame has come.
pub struct MarkerWalk {
    next: usize,
    markers: Vec<Marker>,
}

impl MarkerWalk {
    /// The walk has come this far over the actors of the frame.
    pub closed spec fn sound(
        self,
        m: Memory,
        labels: spec_fn(u64) -> Outcome<Seq<char>>,
        gworld: u64,
        actors_off: u64,
        local: Seq<char>,
        filter: ActorFilter,
    ) -> bool {
        ||| self.next == 0 && self.markers.deep_view() == Seq::<MarkerInfo>::empty()
        ||| (m.frame(gworld, actors_off) matches Ok(Some((_, pawn, data, count))) && self.next
            <= count && crate::walk::collect(
            m.actor_marks(labels, data, pawn, local, filter),
            0,
            self.next as int,
        ) == Ok::<Seq<MarkerInfo>, crate::mem::Missing>(self.markers.deep_view()))
    }

    /// A walk that has not begun.
    pub fn new() -> (walk: Self)
        ensures
            forall|
                m: Memory,
                labels: spec_fn(u64) -> Outcome<Seq<char>>,
                gworld: u64,
                actors_off: u64,
                local: Seq<char>,
                filter: ActorFilter,
            | #[trigger]
                walk.sound(m, labels, gworld, actors_off, local, filter),
    {
        let walk = MarkerWalk { next: 0, markers: Vec::new() };
        assert(walk.markers.deep_view() =~= seq![]);
        walk
    }
}

/// Actor source: the actors of the persistent level that `filter` wants. Names that
/// are cached stay cached.
pub fn collect_targets(
    proc: &ProcessHandle,
    names: &mut FNamePool,
    cache: &mut LabelCache,
    gworld: u64,
    actors_off: u64,
    local_name: &str,
    filter: &ActorFilter,
    walk: &mut MarkerWalk,
) -> (r: Outcome<Option<Scene>>)
    requires
        old(walk).sound(
            proc@,
            old(cache).labels(old(names).remote(proc@)),
            gworld,
            actors_off,
            local_name@,
            *filter,
        ),
    ensures
        crate::mem::shown(r) == proc@.actor_scene(
            old(cache).labels(old(names).remote(proc@)),
            gworld,
            actors_off,
            local_name@,
            *filter,
        ),
        final(walk).sound(
            proc@,
            old(cache).labels(old(names).remote(proc@)),
            gworld,
            actors_off,
            local_name@,
            *filter,
        ),
        final(cache).same(*old(cache), old(names).remote(proc@)),
        final(cache).keeps(*old(cache)),
        final(names).same(*old(names), proc@),
{
    let ghost remote = names.remote(proc@);
    let ghost labels = cache.labels(remote);
    assert(cache.keeps(*old(cache))) by {
        reveal(LabelCache::keeps);
    }
    let (camera, pawn, data, count) = match read_frame(proc, gworld, actors_off)? {
        Some(frame) => frame,
        None => {
            return Ok(None);
        },
    };
    let ghost step = proc@.actor_marks(labels, data, pawn, local_name@, *filter);
    while walk.next < count
        invariant
            walk.next <= count <= MAX_DRAWN_ACTORS,
            names.same(*old(names), proc@),
            remote == old(names).remote(proc@),
            labels == old(cache).labels(remote),
            cache.same(*old(cache), remote),
            cache.keeps(*old(cache)),
            proc@.frame(gworld, actors_off) == Ok::<
                Option<(CameraBits, u64, u64, int)>,
                crate::mem::Missing,
            >(Some((camera, pawn, data, count as int))),
            step == proc@.actor_marks(labels, data, pawn, local_name@, *filter),
            crate::walk::collect(step, 0, walk.next as int) == Ok::<
                Seq<MarkerInfo>,
                crate::mem::Missing,
            >(walk.markers.deep_view()),
        decreases count - walk.next,
    {
        assert(names.remote(proc@) == remote);
        assert(cache.labels(remote) =~= labels);
        let ghost i = walk.next as int;
        let ghost cached = *cache;
        proof {
            crate::walk::lemma_collect_next(step, 0, i);
            if step(i) is Err {
                crate::walk::lemma_collect_stop(step, 0, i, count as int);
            }
        }
        let marked = read_actor_mark(
            proc,
            names,
            cache,
            data,
            walk.next,
            pawn,
            local_name,
            filter,
        );
        proof {
            crate::search::lemma_keeps_transitive(*old(cache), cached, *cache);
        }
        let found = marked?;
        let ghost before = walk.markers.deep_view();
        let ghost seen = found.deep_view();
        if let Some(marker) = found {
            walk.markers.push(marker);
        }
        assert(walk.markers.deep_view() =~= before + crate::walk::optional(seen));
        walk.next = walk.next + 1;
    }
    let mut markers: Vec<Marker> = Vec::new();
    assert(markers.deep_view() =~= seq![]);
    std::mem::swap(&mut markers, &mut walk.markers);
    walk.next = 0;
    Ok(Some(Scene { camera, markers }))
}

// ── Drawing ─────────────────────────────────────────────────────────

/// A COLORREF: red in the lowest byte.
pub open spec fn color_of(r: u8, g: u8, b: u8) -> int {
    r + 0x100 * g + 0x1_0000 * b
}

/// A COLORREF: red in the lowest byte.
pub fn rgb(r: u8, g: u8, b: u8) -> (color: u32)
    ensures
        color == color_of(r, g, b),
{
    r as u32 + 0x100 * (g as u32) + 0x1_0000 * (b as u32)
}

/// Smallest side of a game window.
pub const MIN_WINDOW_SIDE: i32 = 100;

/// A visible window of the process itself, wider and higher than the smallest side.
pub open spec fn game_window(own: bool, visible: bool, width: int, height: int) -> bool {
    own && visible && width > MIN_WINDOW_SIDE && height > MIN_WINDOW_SIDE
}

/// Whether a window of the process `owner` with a client area from `(left, top)` to
/// `(right, bottom)` is the window of the game `pid`.
pub fn is_game_window(
    owner: u32,
    pid: u32,
    visible: bool,
    left: i32,
    top: i32,
    right: i32,
    bottom: i32,
) -> (r: bool)
    ensures
        r == game_window(owner == pid, visible, right - left, bottom - top),
{
    owner == pid && visible && right as i64 - left as i64 > MIN_WINDOW_SIDE as i64 && bottom as i64
        - top as i64 > MIN_WINDOW_SIDE as i64
}

// ── Laws ────────────────────────────────────────────────────────────

/// Every mark of a player is that of a drawable one, under their name and where their
/// pawn stands.
pub proof fn lemma_marks_are_drawable(m: Memory, players: Seq<PlayerInfo>)
    ensures
        crate::walk::collect(m.player_marks(players), 0, players.len() as int) matches Ok(markers)
            ==> forall|i: int|
            0 <= i < markers.len() ==> marks_player(m, players, #[trigger] markers[i]),
{
    let step = m.player_marks(players);
    match crate::walk::collect(step, 0, players.len() as int) {
        Ok(markers) => {
            assert forall|i: int| 0 <= i < markers.len() implies marks_player(
                m,
                players,
                #[trigger] markers[i],
            ) by {
                let k = crate::walk::lemma_collect_from_steps(step, 0, players.len() as int, i);
                assert(players[k].drawable());
            }
        },
        Err(_) => {},
    }
}

/// `marker` is the mark of a drawable player.
pub open spec fn marks_player(m: Memory, players: Seq<PlayerInfo>, marker: MarkerInfo) -> bool {
    exists|k: int|
        0 <= k < players.len() && (#[trigger] players[k]).drawable() && marker.enemy && marker.name
            == players[k].name && m.location(players[k].pawn) == Ok::<
            Option<Vec3Bits>,
            crate::mem::Missing,
        >(Some(marker.pos))
}

/// Fetching more pages never changes the label of an actor.
pub proof fn lemma_actor_label_settled(
    m: Memory,
    m2: Memory,
    actor: u64,
    class: Seq<char>,
    pawn: u64,
    local: Seq<char>,
)
    requires
        m.grows_to(m2),
    ensures
        m.settles(
            m.actor_label(actor, class, pawn, local),
            m2.actor_label(actor, class, pawn, local),
        ),
{
    broadcast use crate::mem::lemma_value_settled;

}

/// Fetching more pages never changes which players are marked.
pub proof fn lemma_player_scene_settled(m: Memory, m2: Memory, gworld: u64)
    requires
        m.grows_to(m2),
    ensures
        m.settles(m.player_scene(gworld), m2.player_scene(gworld)),
{
    broadcast use {
        crate::mem::lemma_value_settled,
        crate::esp::lemma_camera_settled,
        crate::esp::lemma_location_settled,
    };

    match m.pointer(gworld) {
        Ok(Some(world)) => {
            crate::esp::players::lemma_players_settled(m, m2, world);
            match m.players(world) {
                Ok(players) => {
                    let step = m.player_marks(players);
                    let later = m2.player_marks(players);
                    assert forall|i: int| 0 <= i < players.len() implies m.settles(
                        #[trigger] step(i),
                        later(i),
                    ) by {
                        assert(m.settles(
                            m.location(players[i].pawn),
                            m2.location(players[i].pawn),
                        ));
                    }
                    crate::walk::lemma_collect_settled(m, step, later, 0, players.len() as int);
                },
                Err(_) => {},
            }
        },
        _ => {},
    }
}

proof fn lemma_frame_settled(m: Memory, m2: Memory, gworld: u64, actors_off: u64)
    requires
        m.grows_to(m2),
    ensures
        m.settles(m.frame(gworld, actors_off), m2.frame(gworld, actors_off)),
{
    broadcast use {
        crate::mem::lemma_value_settled,
        crate::esp::lemma_camera_settled,
        crate::esp::actors::lemma_actor_array_settled,
    };

}

proof fn lemma_marks_upto_settled(
    m: Memory,
    m2: Memory,
    labels: spec_fn(u64) -> Outcome<Seq<char>>,
    later: spec_fn(u64) -> Outcome<Seq<char>>,
    data: u64,
    pawn: u64,
    local: Seq<char>,
    filter: ActorFilter,
    to: int,
)
    requires
        m.grows_to(m2),
        forall|class_addr: u64| m.settles(#[trigger] labels(class_addr), later(class_addr)),
    ensures
        m.settles(
            crate::walk::collect(m.actor_marks(labels, data, pawn, local, filter), 0, to),
            crate::walk::collect(m2.actor_marks(later, data, pawn, local, filter), 0, to),
        ),
{
    broadcast use {crate::mem::lemma_value_settled, crate::esp::lemma_location_settled};

    let step = m.actor_marks(labels, data, pawn, local, filter);
    let step2 = m2.actor_marks(later, data, pawn, local, filter);
    assert forall|i: int| 0 <= i < to implies m.settles(#[trigger] step(i), step2(i)) by {
        match m.pointer(data.wrapping_add((8 * i) as u64)) {
            Ok(Some(addr)) => match m.pointer(addr.wrapping_add(OBJ_CLASS)) {
                Ok(Some(class_addr)) => {
                    assert(m.settles(labels(class_addr), later(class_addr)));
                    if labels(class_addr) is Ok {
                        let class = labels(class_addr)->Ok_0;
                        assert(m.settles(
                            m.actor_label(addr, class, pawn, local),
                            m2.actor_label(addr, class, pawn, local),
                        ));
                        assert(m.settles(
                            m.actor_mark(addr, class, pawn, local, filter),
                            m2.actor_mark(addr, class, pawn, local, filter),
                        ));
                    }
                },
                _ => {},
            },
            _ => {},
        }
    }
    crate::walk::lemma_collect_settled(m, step, step2, 0, to);
}

/// Fetching more pages never changes which actors are marked.
pub proof fn lemma_actor_scene_settled(
    m: Memory,
    m2: Memory,
    labels: spec_fn(u64) -> Outcome<Seq<char>>,
    later: spec_fn(u64) -> Outcome<Seq<char>>,
    gworld: u64,
    actors_off: u64,
    local: Seq<char>,
    filter: ActorFilter,
)
    requires
        m.grows_to(m2),
        forall|class_addr: u64| m.settles(#[trigger] labels(class_addr), later(class_addr)),
    ensures
        m.settles(
            m.actor_scene(labels, gworld, actors_off, local, filter),
            m2.actor_scene(later, gworld, actors_off, local, filter),
        ),
{
    lemma_frame_settled(m, m2, gworld, actors_off);
    match m.frame(gworld, actors_off) {
        Ok(Some((_, pawn, data, count))) => {
            lemma_marks_upto_settled(m, m2, labels, later, data, pawn, local, filter, count);
        },
        _ => {},
    }
}

/// Reading the marks of a frame can go on after more pages have been fetched.
pub proof fn lemma_marker_walk_keeps(
    walk: MarkerWalk,
    m: Memory,
    m2: Memory,
    labels: spec_fn(u64) -> Outcome<Seq<char>>,
    later: spec_fn(u64) -> Outcome<Seq<char>>,
    gworld: u64,
    actors_off: u64,
    local: Seq<char>,
    filter: ActorFilter,
)
    requires
        walk.sound(m, labels, gworld, actors_off, local, filter),
        m.grows_to(m2),
        forall|class_addr: u64| m.settles(#[trigger] labels(class_addr), later(class_addr)),
    ensures
        walk.sound(m2, later, gworld, actors_off, local, filter),
{
    lemma_frame_settled(m, m2, gworld, actors_off);
    match m.frame(gworld, actors_off) {
        Ok(Some((_, pawn, data, _))) => {
            lemma_marks_upto_settled(
                m,
                m2,
                labels,
                later,
                data,
                pawn,
                local,
                filter,
                walk.next as int,
            );
        },
        _ => {},
    }
}

} // verus!
