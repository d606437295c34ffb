//! The players of the game.

use crate::esp::{
    read_camera, read_fstring, read_pointer_or_null, ATTRDATA_CURRENT_VALUE, ATTR_CURRENT_HEALTH,
    GS_PLAYER_ARRAY, MAX_PLAYERS, PLAYERSTATE_NAME, PS_FLAGS_BYTE, PS_HEALTH_ATTRSET,
    PS_MASK_ONLY_SPECTATOR, PS_MASK_SPECTATOR, PS_PAWN_PRIVATE, WORLD_GAMESTATE,
};
use crate::mem::{Memory, Outcome, ProcessHandle};
use vstd::prelude::*;
use vstd::string::*;

verus! {

// ── Players ─────────────────────────────────────────────────────────

/// A player of the game.
#[derive(Debug)]
pub struct PlayerView {
    pub name: String,
    pub spectator: bool,
    /// Zero if the player has no pawn (dead or respawning).
    pub pawn: u64,
    /// An f32; nothing if the player has no health set.
    pub health: Option<u32>,
    pub is_self: bool,
}

/// A [`PlayerView`] as a mathematical value.
pub struct PlayerInfo {
    pub name: Seq<char>,
    pub spectator: bool,
    pub pawn: u64,
    pub health: Option<u32>,
    pub is_self: bool,
}

impl DeepView for PlayerView {
    type V = PlayerInfo;

    open spec fn deep_view(&self) -> PlayerInfo {
        PlayerInfo {
            name: self.name@,
            spectator: self.spectator,
            pawn: self.pawn,
            health: self.health,
            is_self: self.is_self,
        }
    }
}

/// The f32 of these bits is above zero: its sign is clear, and it is neither zero
/// nor NaN.
pub open spec fn is_positive(bits: u32) -> bool {
    0 < bits <= 0x7F80_0000
}

impl PlayerInfo {
    /// A live, drawable opponent: has a pawn, not a spectator, not dead, not us.
    pub open spec fn drawable(self) -> bool {
        &&& !self.spectator
        &&& !self.is_self
        &&& self.pawn != 0
        &&& self.health matches Some(bits) ==> is_positive(bits)
    }
}

impl PlayerView {
    /// A live, drawable opponent: has a pawn, not a spectator, not dead, not us.
    pub fn drawable(&self) -> (r: bool)
        ensures
            r == self.deep_view().drawable(),
    {
        !self.spectator && !self.is_self && self.pawn != 0 && (match self.health {
            Some(bits) => 0 < bits && bits <= 0x7F80_0000,
            None => true,
        })
    }
}

impl Memory {
    /// The health that the player state at `ps` shows.
    pub open spec fn health(self, ps: u64) -> Outcome<Option<u32>> {
        match self.pointer(ps.wrapping_add(PS_HEALTH_ATTRSET)) {
            Err(e) => Err(e),
            Ok(None) => Ok(None),
            Ok(Some(set)) => self.value::<u32>(
                set.wrapping_add(ATTR_CURRENT_HEALTH).wrapping_add(ATTRDATA_CURRENT_VALUE),
            ),
        }
    }

    /// The player whose state stands at `ps`; `self_pawn` is the local player's pawn.
    pub open spec fn player_at(self, ps: u64, self_pawn: u64) -> Outcome<Option<PlayerInfo>> {
        let flags = self.value_or::<u8>(ps.wrapping_add(PS_FLAGS_BYTE), 0);
        let pawn = self.pointer_or_null(ps.wrapping_add(PS_PAWN_PRIVATE));
        let health = self.health(ps);
        let name = self.fstring(ps.wrapping_add(PLAYERSTATE_NAME));
        if flags is Err {
            Err(flags->Err_0)
        } else if pawn is Err {
            Err(pawn->Err_0)
        } else if health is Err {
            Err(health->Err_0)
        } else if name is Err {
            Err(name->Err_0)
        } else {
            Ok(
                Some(
                    PlayerInfo {
                        name: crate::ue::props::text_or(name->Ok_0, "Player"@),
                        spectator: flags->Ok_0 & (PS_MASK_SPECTATOR | PS_MASK_ONLY_SPECTATOR) != 0,
                        pawn: pawn->Ok_0,
                        health: health->Ok_0,
                        is_self: pawn->Ok_0 != 0 && pawn->Ok_0 == self_pawn,
                    },
                ),
            )
        }
    }

    /// The players of the array at `data` by their number.
    pub open spec fn player_items(self, data: u64, self_pawn: u64) -> spec_fn(int) -> Outcome<
        Option<PlayerInfo>,
    > {
        |i: int|
            match self.pointer(data.wrapping_add((8 * i) as u64)) {
                Err(e) => Err(e),
                Ok(None) => Ok(None),
                Ok(Some(ps)) => self.player_at(ps, self_pawn),
            }
    }

    /// The length of the TArray at `addr`, `most` at most and zero at least.
    pub open spec fn array_len(self, addr: u64, most: usize) -> Outcome<int> {
        match self.value_or::<i32>(addr.wrapping_add(8), 0) {
            Err(e) => Err(e),
            Ok(count) => Ok(
                if count < 0 {
                    0
                } else if count > most {
                    most as int
                } else {
                    count as int
                },
            ),
        }
    }

    /// The pawn of the local player, or zero.
    pub open spec fn self_pawn(self, world: u64) -> Outcome<u64> {
        match self.camera(world) {
            Err(e) => Err(e),
            Ok(None) => Ok(0),
            Ok(Some((_, pawn))) => Ok(pawn),
        }
    }

    /// The array of players of `world`.
    pub open spec fn player_array(self, world: u64) -> Outcome<Option<(u64, int)>> {
        match self.pointer(world.wrapping_add(WORLD_GAMESTATE)) {
            Err(e) => Err(e),
            Ok(None) => Ok(None),
            Ok(Some(gs)) => match self.pointer(gs.wrapping_add(GS_PLAYER_ARRAY)) {
                Err(e) => Err(e),
                Ok(None) => Ok(None),
                Ok(Some(data)) => match self.array_len(
                    gs.wrapping_add(GS_PLAYER_ARRAY),
                    MAX_PLAYERS,
                ) {
                    Err(e) => Err(e),
                    Ok(count) => Ok(Some((data, count))),
                },
            },
        }
    }

    /// The players of `world`.
    pub open spec fn players(self, world: u64) -> Outcome<Seq<PlayerInfo>> {
        match self.self_pawn(world) {
            Err(e) => Err(e),
            Ok(self_pawn) => match self.player_array(world) {
                Err(e) => Err(e),
                Ok(None) => Ok(seq![]),
                Ok(Some((data, count))) => crate::walk::collect(
                    self.player_items(data, self_pawn),
                    0,
                    count,
                ),
            },
        }
    }
}

pub(crate) fn read_array_len(proc: &ProcessHandle, addr: u64, most: usize) -> (r: Outcome<usize>)
    requires
        most <= 0x100_0000,
    ensures
        proc@.array_len(addr, most) == (match r {
            Ok(n) => Ok(n as int),
            Err(e) => Err(e),
        }),
        r matches Ok(n) ==> n <= most,
{
    let count: i32 = proc.read_or::<i32>(addr.wrapping_add(8), 0)?;
    if count < 0 {
        Ok(0)
    } else if count as usize > most {
        Ok(most)
    } else {
        Ok(count as usize)
    }
}

fn read_player(proc: &ProcessHandle, ps: u64, self_pawn: u64) -> (r: Outcome<PlayerView>)
    ensures
        proc@.player_at(ps, self_pawn) == (match r {
            Ok(p) => Ok(Some(p.deep_view())),
            Err(e) => Err(e),
        }),
{
    let flags: u8 = proc.read_or::<u8>(ps.wrapping_add(PS_FLAGS_BYTE), 0)?;
    let pawn: u64 = read_pointer_or_null(proc, ps.wrapping_add(PS_PAWN_PRIVATE))?;
    let health: Option<u32> = match proc.ptr(ps.wrapping_add(PS_HEALTH_ATTRSET))? {
        Some(set) => proc.read::<u32>(
            set.wrapping_add(ATTR_CURRENT_HEALTH).wrapping_add(ATTRDATA_CURRENT_VALUE),
        )?,
        None => None,
    };
    let name = match read_fstring(proc, ps.wrapping_add(PLAYERSTATE_NAME))? {
        Some(name) => name,
        None => "Player".to_owned(),
    };
    Ok(
        PlayerView {
            name,
            spectator: flags & (PS_MASK_SPECTATOR | PS_MASK_ONLY_SPECTATOR) != 0,
            pawn,
            health,
            is_self: pawn != 0 && pawn == self_pawn,
        },
    )
}

/// Walk GameState.PlayerArray and read each player's name/flags/pawn/health.
pub fn read_players(proc: &ProcessHandle, world: u64) -> (r: Outcome<Vec<PlayerView>>)
    ensures
        crate::mem::shown(r) == proc@.players(world),
{
    let mut out: Vec<PlayerView> = Vec::new();
    assert(out.deep_view() =~= seq![]);
    let self_pawn: u64 = match read_camera(proc, world)? {
        Some((_, pawn)) => pawn,
        None => 0,
    };
    let gs: u64 = match proc.ptr(world.wrapping_add(WORLD_GAMESTATE))? {
        Some(p) => p,
        None => {
            return Ok(out);
        },
    };
    let data: u64 = match proc.ptr(gs.wrapping_add(GS_PLAYER_ARRAY))? {
        Some(p) => p,
        None => {
            return Ok(out);
        },
    };
    let count: usize = read_array_len(proc, gs.wrapping_add(GS_PLAYER_ARRAY), MAX_PLAYERS)?;
    let ghost step = proc@.player_items(data, self_pawn);
    let mut i: usize = 0;
    while i < count
        invariant
            i <= count <= MAX_PLAYERS,
            step == proc@.player_items(data, self_pawn),
            proc@.players(world) == crate::walk::collect(step, 0, count as int),
            crate::walk::collect(step, 0, i as int) == Ok::<Seq<PlayerInfo>, crate::mem::Missing>(
                out.deep_view(),
            ),
        decreases count - i,
    {
        proof {
            crate::walk::lemma_collect_next(step, 0, i as int);
            if step(i as int) is Err {
                crate::walk::lemma_collect_stop(step, 0, i as int, count as int);
            }
        }
        let ghost before = out.deep_view();
        match proc.ptr(data.wrapping_add(8 * i as u64))? {
            Some(ps) => {
                let player = read_player(proc, ps, self_pawn)?;
                let ghost seen = player.deep_view();
                out.push(player);
                assert(out.deep_view() =~= before + crate::walk::optional(Some(seen)));
            },
            None => {
                assert(before + crate::walk::optional(None::<PlayerInfo>) =~= before);
            },
        }
        i = i + 1;
    }
    Ok(out)
}

// ── Laws ────────────────────────────────────────────────────────────

/// Spectators, the dead, those without a pawn and the local player are not drawn.
pub proof fn lemma_not_drawable(player: PlayerInfo)
    ensures
        player.spectator ==> !player.drawable(),
        player.is_self ==> !player.drawable(),
        player.pawn == 0 ==> !player.drawable(),
        player.health == Some(0u32) ==> !player.drawable(),
{
}

/// The local player is the one whose pawn the camera belongs to, and no more players
/// are read than the limit says.
pub proof fn lemma_players(m: Memory, world: u64)
    ensures
        m.players(world) matches Ok(players) ==> {
            &&& players.len() <= MAX_PLAYERS
            &&& forall|i: int|
                0 <= i < players.len() ==> ((#[trigger] players[i]).is_self <==> players[i].pawn != 0
                    && m.self_pawn(world) == Ok::<u64, crate::mem::Missing>(players[i].pawn))
        },
{
    match m.players(world) {
        Ok(players) => match m.player_array(world) {
            Ok(Some((data, count))) => {
                let step = m.player_items(data, m.self_pawn(world)->Ok_0);
                crate::walk::lemma_collect_len(step, 0, count);
                assert forall|i: int| 0 <= i < players.len() implies ((
                #[trigger] players[i]).is_self <==> players[i].pawn != 0 && m.self_pawn(world)
                    == Ok::<u64, crate::mem::Missing>(players[i].pawn)) by {
                    let k = crate::walk::lemma_collect_from_steps(step, 0, count, i);
                }
            },
            _ => {},
        },
        Err(_) => {},
    }
}

/// Fetching more pages never changes the players.
pub proof fn lemma_players_settled(m: Memory, m2: Memory, world: u64)
    requires
        m.grows_to(m2),
    ensures
        m.settles(m.players(world), m2.players(world)),
{
    broadcast use {
        crate::mem::lemma_value_settled,
        crate::esp::lemma_camera_settled,
        crate::esp::lemma_fstring_settled,
    };

    assert(m.settles(m.self_pawn(world), m2.self_pawn(world)));
    assert(m.settles(m.player_array(world), m2.player_array(world)));
    match (m.self_pawn(world), m.player_array(world)) {
        (Ok(self_pawn), Ok(Some((data, count)))) => {
            let step = m.player_items(data, self_pawn);
            let later = m2.player_items(data, self_pawn);
            assert forall|i: int| 0 <= i < count implies m.settles(#[trigger] step(i), later(i)) by {
                match m.pointer(data.wrapping_add((8 * i) as u64)) {
                    Ok(Some(ps)) => {
                        assert(m.settles(m.health(ps), m2.health(ps)));
                        assert(m.settles(
                            m.player_at(ps, self_pawn),
                            m2.player_at(ps, self_pawn),
                        ));
                    },
                    _ => {},
                }
            }
            crate::walk::lemma_collect_settled(m, step, later, 0, count);
        },
        _ => {},
    }
}

} // verus!
