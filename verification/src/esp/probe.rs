//! The chain from GWorld to the actors of the level, and a report on all that hangs
//! on it.

use crate::esp::actors::{
    class_name, find_actors_offset, read_actors, Actor, ActorInfo, ActorWalk, MAX_ACTORS,
};
use crate::esp::players::{read_array_len, read_players, PlayerInfo, PlayerView};
use crate::esp::{
    actor_location, local_player_name, read_camera, CameraBits, Vec3Bits, WORLD_PERSISTENT_LEVEL,
};
use crate::mem::{Outcome, ProcessHandle};
use crate::ue::fname::{FNamePool, Remote};
use vstd::prelude::*;

verus! {

broadcast use {
    crate::ue::fname::lemma_pool_keeps_itself,
    crate::ue::fname::lemma_pool_keeps_transitive,
};

/// Where the chain breaks.
#[derive(Clone, Copy, Debug, PartialEq, Eq, Structural)]
pub enum ProbeFailure {
    /// GWorld is null.
    NoWorld,
    /// The camera cannot be reached.
    NoCamera,
    /// The world has no persistent level.
    NoLevel,
    /// The level has no array of actors.
    NoActors,
}

// ── The level ───────────────────────────────────────────────────────

/// The persistent level, and where its actors are.
#[derive(Clone, Copy, Debug, PartialEq, Eq, Structural)]
pub struct LevelActors {
    pub level: u64,
    /// The offset of ULevel::Actors.
    pub actors_off: u64,
}

impl LevelActors {
    /// Where the array of actors stands.
    pub open spec fn array(self) -> u64 {
        self.level.wrapping_add(self.actors_off)
    }
}

impl Remote {
    /// The persistent level of `world`, and where its actors are.
    pub open spec fn level_actors(self, world: u64) -> Outcome<Result<LevelActors, ProbeFailure>> {
        match self.mem.pointer(world.wrapping_add(WORLD_PERSISTENT_LEVEL)) {
            Err(e) => Err(e),
            Ok(None) => Ok(Err(ProbeFailure::NoLevel)),
            Ok(Some(level)) => match self.actors_offset(level) {
                Err(e) => Err(e),
                Ok(None) => Ok(Err(ProbeFailure::NoActors)),
                Ok(Some(actors_off)) => Ok(Ok(LevelActors { level, actors_off })),
            },
        }
    }
}

/// Find the persistent level of `world` and its actors.
pub fn find_level_actors(proc: &ProcessHandle, names: &mut FNamePool, world: u64) -> (r: Outcome<
    Result<LevelActors, ProbeFailure>,
>)
    ensures
        r == old(names).remote(proc@).level_actors(world),
        final(names).same(*old(names), proc@),
{
    let level: u64 = match proc.ptr(world.wrapping_add(WORLD_PERSISTENT_LEVEL))? {
        Some(p) => p,
        None => {
            return Ok(Err(ProbeFailure::NoLevel));
        },
    };
    match find_actors_offset(proc, names, level)? {
        Some(actors_off) => Ok(Ok(LevelActors { level, actors_off })),
        None => Ok(Err(ProbeFailure::NoActors)),
    }
}

// ── What the overlay starts from ────────────────────────────────────

/// What the overlay has to know before it draws.
#[derive(Debug)]
pub struct OverlayStart {
    pub actors_off: u64,
    /// The local player's name, or no text.
    pub local_name: String,
}

/// An [`OverlayStart`] as a mathematical value.
pub struct StartInfo {
    pub actors_off: u64,
    pub local_name: Seq<char>,
}

/// The deep view of what the overlay starts from.
pub open spec fn start_shown(r: Outcome<Result<OverlayStart, ProbeFailure>>) -> Outcome<
    Result<StartInfo, ProbeFailure>,
> {
    match r {
        Err(e) => Err(e),
        Ok(Err(failure)) => Ok(Err(failure)),
        Ok(Ok(start)) => Ok(
            Ok(StartInfo { actors_off: start.actors_off, local_name: start.local_name@ }),
        ),
    }
}

impl Remote {
    /// What the overlay starts from in the world that `gworld` points to.
    pub open spec fn overlay_start(self, gworld: u64) -> Outcome<Result<StartInfo, ProbeFailure>> {
        match self.mem.pointer(gworld) {
            Err(e) => Err(e),
            Ok(None) => Ok(Err(ProbeFailure::NoWorld)),
            Ok(Some(world)) => match self.level_actors(world) {
                Err(e) => Err(e),
                Ok(Err(failure)) => Ok(Err(failure)),
                Ok(Ok(found)) => match self.mem.local_name(world) {
                    Err(e) => Err(e),
                    Ok(name) => Ok(
                        Ok(
                            StartInfo {
                                actors_off: found.actors_off,
                                local_name: crate::ue::props::text_or(name, seq![]),
                            },
                        ),
                    ),
                },
            },
        }
    }
}

/// Locate ULevel::Actors (its offset is layout-constant across levels) and read the
/// local player's name.
pub fn start_overlay(proc: &ProcessHandle, names: &mut FNamePool, gworld: u64) -> (r: Outcome<
    Result<OverlayStart, ProbeFailure>,
>)
    ensures
        start_shown(r) == old(names).remote(proc@).overlay_start(gworld),
        final(names).same(*old(names), proc@),
{
    let world: u64 = match proc.ptr(gworld)? {
        Some(p) => p,
        None => {
            return Ok(Err(ProbeFailure::NoWorld));
        },
    };
    let found: LevelActors = match find_level_actors(proc, names, world)? {
        Ok(found) => found,
        Err(failure) => {
            return Ok(Err(failure));
        },
    };
    let local_name = match local_player_name(proc, world)? {
        Some(name) => name,
        None => String::new(),
    };
    Ok(Ok(OverlayStart { actors_off: found.actors_off, local_name }))
}

// ── The report ──────────────────────────────────────────────────────

/// The local player's pawn: where it stands, and its class or no text.
#[derive(Debug)]
pub struct PawnPlace {
    pub pos: Vec3Bits,
    pub class: String,
}

/// A [`PawnPlace`] as a mathematical value.
pub struct PlaceInfo {
    pub pos: Vec3Bits,
    pub class: Seq<char>,
}

impl DeepView for PawnPlace {
    type V = PlaceInfo;

    open spec fn deep_view(&self) -> PlaceInfo {
        PlaceInfo { pos: self.pos, class: self.class@ }
    }
}

/// All that hangs on GWorld.
#[derive(Debug)]
pub struct ProbeReport {
    pub world: u64,
    pub camera: CameraBits,
    pub pawn: Option<PawnPlace>,
    pub found: LevelActors,
    /// The length of the array of actors.
    pub actor_count: usize,
    pub actors: Vec<Actor>,
    pub local_name: Option<String>,
    pub players: Vec<PlayerView>,
}

/// A [`ProbeReport`] as a mathematical value.
pub struct ReportInfo {
    pub world: u64,
    pub camera: CameraBits,
    pub pawn: Option<PlaceInfo>,
    pub found: LevelActors,
    pub actor_count: int,
    pub actors: Seq<ActorInfo>,
    pub local_name: Option<Seq<char>>,
    pub players: Seq<PlayerInfo>,
}

/// The deep view of a probe.
pub open spec fn probe_shown(r: Outcome<Result<ProbeReport, ProbeFailure>>) -> Outcome<
    Result<ReportInfo, ProbeFailure>,
> {
    match r {
        Err(e) => Err(e),
        Ok(Err(failure)) => Ok(Err(failure)),
        Ok(Ok(report)) => Ok(
            Ok(
                ReportInfo {
                    world: report.world,
                    camera: report.camera,
                    pawn: report.pawn.deep_view(),
                    found: report.found,
                    actor_count: report.actor_count as int,
                    actors: report.actors.deep_view(),
                    local_name: report.local_name.deep_view(),
                    players: report.players.deep_view(),
                },
            ),
        ),
    }
}

impl Remote {
    /// Where the pawn at `pawn` stands, if there is one and it stands somewhere.
    pub open spec fn pawn_place(self, pawn: u64) -> Outcome<Option<PlaceInfo>> {
        if pawn == 0 {
            Ok(None)
        } else {
            match self.mem.location(pawn) {
                Err(e) => Err(e),
                Ok(None) => Ok(None),
                Ok(Some(pos)) => match self.actor_class(pawn) {
                    Err(e) => Err(e),
                    Ok(class) => Ok(
                        Some(PlaceInfo { pos, class: crate::ue::props::text_or(class, seq![]) }),
                    ),
                },
            }
        }
    }

    /// The report on `world` and the actors of its level.
    pub open spec fn report(
        self,
        world: u64,
        camera: CameraBits,
        pawn: Option<PlaceInfo>,
        found: LevelActors,
    ) -> Outcome<Result<ReportInfo, ProbeFailure>> {
        let actor_count = self.mem.array_len(found.array(), MAX_ACTORS as usize);
        let actors = self.actors(found.array());
        let local_name = self.mem.local_name(world);
        let players = self.mem.players(world);
        if actor_count is Err {
            Err(actor_count->Err_0)
        } else if actors is Err {
            Err(actors->Err_0)
        } else if local_name is Err {
            Err(local_name->Err_0)
        } else if players is Err {
            Err(players->Err_0)
        } else {
            Ok(
                Ok(
                    ReportInfo {
                        world,
                        camera,
                        pawn,
                        found,
                        actor_count: actor_count->Ok_0,
                        actors: actors->Ok_0,
                        local_name: local_name->Ok_0,
                        players: players->Ok_0,
                    },
                ),
            )
        }
    }

    /// The report on what `gworld` points to.
    pub open spec fn probe_world(self, gworld: u64) -> Outcome<Result<ReportInfo, ProbeFailure>> {
        match self.mem.pointer(gworld) {
            Err(e) => Err(e),
            Ok(None) => Ok(Err(ProbeFailure::NoWorld)),
            Ok(Some(world)) => match self.mem.camera(world) {
                Err(e) => Err(e),
                Ok(None) => Ok(Err(ProbeFailure::NoCamera)),
                Ok(Some((camera, body))) => match self.pawn_place(body) {
                    Err(e) => Err(e),
                    Ok(pawn) => match self.level_actors(world) {
                        Err(e) => Err(e),
                        Ok(Err(failure)) => Ok(Err(failure)),
                        Ok(Ok(found)) => self.report(world, camera, pawn, found),
                    },
                },
            },
        }
    }
}

/// How far a probe has come.
pub struct ProbeWalk {
    walk: ActorWalk,
}

impl ProbeWalk {
    /// The probe of what `gworld` points to has come this far.
    pub closed spec fn sound(self, remote: Remote, gworld: u64) -> bool {
        ||| self.walk.fresh()
        ||| {
            &&& remote.mem.pointer(gworld) matches Ok(Some(world))
            &&& remote.level_actors(world) matches Ok(Ok(found))
            &&& self.walk.sound(remote, found.array())
        }
    }

    /// A probe that has not begun.
    pub fn new() -> (walk: Self)
        ensures
            forall|remote: Remote, gworld: u64| #[trigger] walk.sound(remote, gworld),
    {
        ProbeWalk { walk: ActorWalk::new() }
    }
}

fn read_pawn_place(proc: &ProcessHandle, names: &mut FNamePool, pawn: u64) -> (r: Outcome<
    Option<PawnPlace>,
>)
    ensures
        crate::mem::shown(r) == old(names).remote(proc@).pawn_place(pawn),
        final(names).same(*old(names), proc@),
{
    if pawn == 0 {
        return Ok(None);
    }
    let pos: Vec3Bits = match actor_location(proc, pawn)? {
        Some(pos) => pos,
        None => {
            return Ok(None);
        },
    };
    let class = match class_name(proc, names, pawn)? {
        Some(class) => class,
        None => String::new(),
    };
    Ok(Some(PawnPlace { pos, class }))
}

fn read_report(
    proc: &ProcessHandle,
    names: &mut FNamePool,
    world: u64,
    camera: CameraBits,
    pawn: Option<PawnPlace>,
    found: LevelActors,
    walk: &mut ActorWalk,
) -> (r: Outcome<Result<ProbeReport, ProbeFailure>>)
    requires
        old(walk).sound(old(names).remote(proc@), found.array()),
    ensures
        probe_shown(r) == old(names).remote(proc@).report(
            world,
            camera,
            pawn.deep_view(),
            found,
        ),
        final(walk).sound(old(names).remote(proc@), found.array()),
        final(names).same(*old(names), proc@),
{
    let array: u64 = found.level.wrapping_add(found.actors_off);
    let actor_count: usize = read_array_len(proc, array, MAX_ACTORS as usize)?;
    let actors = read_actors(proc, names, array, walk)?;
    let local_name = local_player_name(proc, world)?;
    let players = read_players(proc, world)?;
    Ok(
        Ok(
            ProbeReport { world, camera, pawn, found, actor_count, actors, local_name, players },
        ),
    )
}

/// Follow the chain from GWorld, and read all that hangs on it.
pub fn probe(proc: &ProcessHandle, names: &mut FNamePool, gworld: u64, walk: &mut ProbeWalk) -> (r:
    Outcome<Result<ProbeReport, ProbeFailure>>)
    requires
        old(walk).sound(old(names).remote(proc@), gworld),
    ensures
        probe_shown(r) == old(names).remote(proc@).probe_world(gworld),
        final(walk).sound(old(names).remote(proc@), gworld),
        final(names).same(*old(names), proc@),
{
    let ghost remote = names.remote(proc@);
    let world: u64 = match proc.ptr(gworld)? {
        Some(p) => p,
        None => {
            return Ok(Err(ProbeFailure::NoWorld));
        },
    };
    let (camera, body) = match read_camera(proc, world)? {
        Some(found) => found,
        None => {
            return Ok(Err(ProbeFailure::NoCamera));
        },
    };
    let pawn = read_pawn_place(proc, names, body)?;
    assert(names.remote(proc@) == remote);
    let found: LevelActors = match find_level_actors(proc, names, world)? {
        Ok(found) => found,
        Err(failure) => {
            return Ok(Err(failure));
        },
    };
    assert(names.remote(proc@) == remote);
    proof {
        if walk.walk.fresh() {
            crate::esp::actors::lemma_fresh_actor_walk(walk.walk, remote, found.array());
        }
    }
    read_report(proc, names, world, camera, pawn, found, &mut walk.walk)
}

// ── What of it is shown ─────────────────────────────────────────────

/// How many actors that can be seen are shown as samples.
pub const SAMPLE_ACTORS: usize = 15;

/// The numbers of those that can be seen, in order.
pub open spec fn visible_indices(visible: Seq<bool>) -> Seq<usize>
    decreases visible.len(),
{
    if visible.len() == 0 {
        seq![]
    } else {
        let before = visible_indices(visible.drop_last());
        if visible.last() {
            before.push((visible.len() - 1) as usize)
        } else {
            before
        }
    }
}

/// The numbers of the first of those that can be seen, `most` at most.
pub open spec fn seen_first(visible: Seq<bool>, most: usize) -> Seq<usize> {
    let all = visible_indices(visible);
    if all.len() < most {
        all
    } else {
        all.take(most as int)
    }
}

/// How many can be seen, and the numbers of the first of them, `most` at most.
pub fn first_visible(visible: &Vec<bool>, most: usize) -> (r: (usize, Vec<usize>))
    ensures
        r.0 == visible_indices(visible@).len(),
        r.1@ == seen_first(visible@, most),
{
    let mut count: usize = 0;
    let mut first: Vec<usize> = Vec::new();
    let mut i: usize = 0;
    assert(visible@.take(0) =~= seq![]);
    assert(first@ =~= visible_indices(visible@.take(0)));
    while i < visible.len()
        invariant
            i <= visible@.len(),
            count <= i,
            count == visible_indices(visible@.take(i as int)).len(),
            first@ == (if count < most {
                visible_indices(visible@.take(i as int))
            } else {
                visible_indices(visible@.take(i as int)).take(most as int)
            }),
        decreases visible@.len() - i,
    {
        let ghost before = visible_indices(visible@.take(i as int));
        assert(visible@.take(i + 1).drop_last() =~= visible@.take(i as int));
        if visible[i] {
            if count < most {
                first.push(i);
            }
            count = count + 1;
            assert(visible_indices(visible@.take(i + 1)) =~= before.push(i));
            assert(first@ =~= (if count < most {
                before.push(i)
            } else {
                before.push(i).take(most as int)
            }));
        }
        i = i + 1;
    }
    assert(visible@.take(i as int) =~= visible@);
    (count, first)
}

// ── Laws ────────────────────────────────────────────────────────────

/// Fetching more pages never changes where the actors of a level are.
pub proof fn lemma_level_actors_settled(r: Remote, r2: Remote, world: u64)
    requires
        r.grows_to(r2),
    ensures
        r.mem.settles(r.level_actors(world), r2.level_actors(world)),
{
    broadcast use crate::mem::lemma_value_settled;

    match r.mem.pointer(world.wrapping_add(WORLD_PERSISTENT_LEVEL)) {
        Ok(Some(level)) => {
            crate::esp::actors::lemma_actors_offset_settled(r, r2, level);
        },
        _ => {},
    }
}

/// Fetching more pages never changes what the overlay starts from.
pub proof fn lemma_overlay_start_settled(r: Remote, r2: Remote, gworld: u64)
    requires
        r.grows_to(r2),
    ensures
        r.mem.settles(r.overlay_start(gworld), r2.overlay_start(gworld)),
{
    broadcast use crate::mem::lemma_value_settled;

    match r.mem.pointer(gworld) {
        Ok(Some(world)) => {
            lemma_level_actors_settled(r, r2, world);
            crate::esp::lemma_local_name_settled(r.mem, r2.mem, world);
        },
        _ => {},
    }
}

proof fn lemma_report_settled(
    r: Remote,
    r2: Remote,
    world: u64,
    camera: CameraBits,
    pawn: Option<PlaceInfo>,
    found: LevelActors,
)
    requires
        r.grows_to(r2),
    ensures
        r.mem.settles(
            r.report(world, camera, pawn, found),
            r2.report(world, camera, pawn, found),
        ),
{
    broadcast use crate::mem::lemma_value_settled;

    crate::esp::actors::lemma_actors_settled(r, r2, found.array());
    crate::esp::lemma_local_name_settled(r.mem, r2.mem, world);
    crate::esp::players::lemma_players_settled(r.mem, r2.mem, world);
    assert(r.mem.settles(
        r.mem.array_len(found.array(), MAX_ACTORS as usize),
        r2.mem.array_len(found.array(), MAX_ACTORS as usize),
    ));
}

proof fn lemma_pawn_place_settled(r: Remote, r2: Remote, pawn: u64)
    requires
        r.grows_to(r2),
    ensures
        r.mem.settles(r.pawn_place(pawn), r2.pawn_place(pawn)),
{
    broadcast use crate::esp::lemma_location_settled;

    crate::esp::actors::lemma_actor_class_settled(r, r2, pawn);
}

/// A report comes with an array of actors that is not empty and not longer than
/// [`MAX_ACTORS`], and with no more actors than the array has elements.
pub proof fn lemma_report_counts_actors(r: Remote, gworld: u64)
    ensures
        r.probe_world(gworld) matches Ok(Ok(report)) ==> {
            &&& 1 <= report.actor_count <= MAX_ACTORS
            &&& report.actors.len() <= report.actor_count
            &&& r.mem.value::<i32>(report.found.array().wrapping_add(8)) == Ok::<
                Option<i32>,
                crate::mem::Missing,
            >(Some(report.actor_count as i32))
        },
{
    match r.probe_world(gworld) {
        Ok(Ok(report)) => {
            crate::esp::actors::lemma_actors_offset_found(
                r,
                report.found.level,
                crate::esp::actors::ACTORS_SCAN_START,
            );
            match r.mem.pointer(report.found.array()) {
                Ok(Some(data)) => {
                    crate::walk::lemma_collect_len(r.actor_items(data), 0, report.actor_count);
                },
                _ => {},
            }
        },
        _ => {},
    }
}

/// Fetching more pages never changes a report.
pub proof fn lemma_probe_settled(r: Remote, r2: Remote, gworld: u64)
    requires
        r.grows_to(r2),
    ensures
        r.mem.settles(r.probe_world(gworld), r2.probe_world(gworld)),
{
    broadcast use {crate::mem::lemma_value_settled, crate::esp::lemma_camera_settled};

    match r.mem.pointer(gworld) {
        Ok(Some(world)) => {
            lemma_level_actors_settled(r, r2, world);
            match r.mem.camera(world) {
                Ok(Some((camera, body))) => {
                    lemma_pawn_place_settled(r, r2, body);
                    match (r.pawn_place(body), r.level_actors(world)) {
                        (Ok(pawn), Ok(Ok(found))) => {
                            lemma_report_settled(r, r2, world, camera, pawn, found);
                        },
                        _ => {},
                    }
                },
                _ => {},
            }
        },
        _ => {},
    }
}

/// A probe can go on after more pages have been fetched.
pub proof fn lemma_probe_walk_keeps(walk: ProbeWalk, r: Remote, r2: Remote, gworld: u64)
    requires
        walk.sound(r, gworld),
        r.grows_to(r2),
    ensures
        walk.sound(r2, gworld),
{
    broadcast use crate::mem::lemma_value_settled;

    if !walk.walk.fresh() {
        let world = r.mem.pointer(gworld)->Ok_0->0;
        lemma_level_actors_settled(r, r2, world);
        let found = r.level_actors(world)->Ok_0->Ok_0;
        crate::esp::actors::lemma_actor_walk_keeps(walk.walk, r, r2, found.array());
    }
}

} // verus!
