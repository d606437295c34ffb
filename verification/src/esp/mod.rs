//! Reads the camera, the players and the actors of a running game, for an overlay
//! that marks them on screen.
//!
//! Floating-point numbers are carried as the bits that the game stores.

pub mod actors;
pub mod histogram;
pub mod overlay;
pub mod players;
pub mod probe;

use crate::mem::{Memory, Outcome, ProcessHandle, Scalar};
use crate::text::{from_utf16_lossy, trim_nuls};
use vstd::prelude::*;
use vstd::string::*;

verus! {

// ── Offsets ─────────────────────────────────────────────────────────

pub const OBJ_CLASS: u64 = 0x10;

pub const OBJ_NAME: u64 = 0x18;

pub const WORLD_GAME_INSTANCE: u64 = 0x228;

pub const WORLD_PERSISTENT_LEVEL: u64 = 0x30;

/// TArray<ULocalPlayer*>
pub const GI_LOCAL_PLAYERS: u64 = 0x38;

pub const PLAYER_PLAYER_CONTROLLER: u64 = 0x30;

pub const PC_ACK_PAWN: u64 = 0x350;

pub const PC_CAMERA_MANAGER: u64 = 0x360;

/// FCameraCacheEntry
pub const CAMERA_CACHE: u64 = 0x1530;

/// FMinimalViewInfo within the cache entry
pub const CACHE_POV: u64 = 0x10;

/// FVector (3x f64)
pub const POV_LOCATION: u64 = 0x00;

/// FRotator (3x f64: Pitch, Yaw, Roll)
pub const POV_ROTATION: u64 = 0x18;

/// f32
pub const POV_FOV: u64 = 0x30;

/// AActor::RootComponent
pub const ACTOR_ROOT: u64 = 0x1b8;

/// USceneComponent::RelativeLocation (3x f64)
pub const SCENE_REL_LOCATION: u64 = 0x140;

pub const CONTROLLER_PLAYER_STATE: u64 = 0x2b0;

/// FString PlayerNamePrivate
pub const PLAYERSTATE_NAME: u64 = 0x340;

/// UWorld::GameState
pub const WORLD_GAMESTATE: u64 = 0x1b0;

/// AGameStateBase::PlayerArray (TArray<APlayerState*>)
pub const GS_PLAYER_ARRAY: u64 = 0x2c0;

/// Packed bools.
pub const PS_FLAGS_BYTE: u64 = 0x2b2;

/// bIsSpectator
pub const PS_MASK_SPECTATOR: u8 = 0x02;

/// bOnlySpectator
pub const PS_MASK_ONLY_SPECTATOR: u8 = 0x04;

/// APlayerState::PawnPrivate
pub const PS_PAWN_PRIVATE: u64 = 0x320;

/// RedpointAbilityPlayerState::HealthAttributeSet
pub const PS_HEALTH_ATTRSET: u64 = 0x3b0;

/// RedpointAttributeSetHealth::CurrentHealth (FGameplayAttributeData)
pub const ATTR_CURRENT_HEALTH: u64 = 0x30;

/// FGameplayAttributeData::CurrentValue (f32)
pub const ATTRDATA_CURRENT_VALUE: u64 = 0x0c;

/// RedpointPartyMember::PartyMemberSlot
pub const PARTY_SLOT: u64 = 0x2e8;

/// Reject FStrings longer than this.
pub const MAX_FSTRING_LEN: i32 = 512;

/// Read no more players than this.
pub const MAX_PLAYERS: usize = 64;

/// Draw no more actors than this.
pub const MAX_DRAWN_ACTORS: usize = 0x4000;

// ── Plain reads ─────────────────────────────────────────────────────

/// Three f64 as the game stores them.
#[derive(Clone, Copy, Debug, PartialEq, Eq, Structural)]
pub struct Vec3Bits {
    pub x: u64,
    pub y: u64,
    pub z: u64,
}

/// The point of view of a camera.
#[derive(Clone, Copy, Debug, PartialEq, Eq, Structural)]
pub struct CameraBits {
    pub loc: Vec3Bits,
    /// Pitch, yaw, roll in degrees.
    pub rot: Vec3Bits,
    /// An f32, in degrees.
    pub fov: u32,
}

/// The numbers in 24 bytes.
pub open spec fn vec3_of(bytes: Seq<u8>) -> Vec3Bits {
    Vec3Bits {
        x: <u64 as Scalar>::decode(bytes.subrange(0, 8)),
        y: <u64 as Scalar>::decode(bytes.subrange(8, 16)),
        z: <u64 as Scalar>::decode(bytes.subrange(16, 24)),
    }
}

impl Memory {
    /// The vector at `addr`.
    pub open spec fn vec3(self, addr: u64) -> Outcome<Option<Vec3Bits>> {
        match self.fetch(addr, 24) {
            Err(e) => Err(e),
            Ok(None) => Ok(None),
            Ok(Some(bytes)) => Ok(Some(vec3_of(bytes))),
        }
    }

    /// What the first element of the TArray<*> at `addr` points to.
    pub open spec fn tarray_first(self, addr: u64) -> Outcome<Option<u64>> {
        match self.pointer(addr) {
            Err(e) => Err(e),
            Ok(None) => Ok(None),
            Ok(Some(data)) => match self.value::<i32>(addr.wrapping_add(8)) {
                Err(e) => Err(e),
                Ok(None) => Ok(None),
                Ok(Some(count)) => if count < 1 {
                    Ok(None)
                } else {
                    self.pointer(data)
                },
            },
        }
    }

    /// The text of the FString at `addr`, without the NULs at its end.
    pub open spec fn fstring(self, addr: u64) -> Outcome<Option<Seq<char>>> {
        match self.pointer(addr) {
            Err(e) => Err(e),
            Ok(None) => Ok(None),
            Ok(Some(data)) => match self.value::<i32>(addr.wrapping_add(8)) {
                Err(e) => Err(e),
                Ok(None) => Ok(None),
                Ok(Some(len)) => if len <= 0 || len > MAX_FSTRING_LEN {
                    Ok(None)
                } else {
                    match self.fetch(data, (2 * len) as usize) {
                        Err(e) => Err(e),
                        Ok(None) => Ok(None),
                        Ok(Some(bytes)) => Ok(
                            Some(
                                crate::text::trimmed(
                                    crate::text::utf16_text(crate::ue::fname::units(bytes)),
                                ),
                            ),
                        ),
                    }
                },
            },
        }
    }

    /// World-space location of an actor via RootComponent.RelativeLocation. It is
    /// correct for top-level actors (pawns, characters); actors attached to a moving
    /// parent are off.
    pub open spec fn location(self, actor: u64) -> Outcome<Option<Vec3Bits>> {
        match self.pointer(actor.wrapping_add(ACTOR_ROOT)) {
            Err(e) => Err(e),
            Ok(None) => Ok(None),
            Ok(Some(root)) => self.vec3(root.wrapping_add(SCENE_REL_LOCATION)),
        }
    }

    /// The controller of the local player of `world`.
    pub open spec fn controller(self, world: u64) -> Outcome<Option<u64>> {
        match self.pointer(world.wrapping_add(WORLD_GAME_INSTANCE)) {
            Err(e) => Err(e),
            Ok(None) => Ok(None),
            Ok(Some(instance)) => match self.tarray_first(
                instance.wrapping_add(GI_LOCAL_PLAYERS),
            ) {
                Err(e) => Err(e),
                Ok(None) => Ok(None),
                Ok(Some(player)) => self.pointer(player.wrapping_add(PLAYER_PLAYER_CONTROLLER)),
            },
        }
    }

    /// The point of view at `pov`.
    pub open spec fn pov(self, pov: u64) -> Outcome<Option<CameraBits>> {
        match self.vec3(pov.wrapping_add(POV_LOCATION)) {
            Err(e) => Err(e),
            Ok(None) => Ok(None),
            Ok(Some(loc)) => match self.vec3(pov.wrapping_add(POV_ROTATION)) {
                Err(e) => Err(e),
                Ok(None) => Ok(None),
                Ok(Some(rot)) => match self.value::<u32>(pov.wrapping_add(POV_FOV)) {
                    Err(e) => Err(e),
                    Ok(None) => Ok(None),
                    Ok(Some(fov)) => Ok(Some(CameraBits { loc, rot, fov })),
                },
            },
        }
    }

    /// A pointer, or zero where there is none.
    pub open spec fn pointer_or_null(self, addr: u64) -> Outcome<u64> {
        match self.pointer(addr) {
            Err(e) => Err(e),
            Ok(None) => Ok(0),
            Ok(Some(p)) => Ok(p),
        }
    }

    /// The camera of the local player of `world`, and their pawn, which is zero if
    /// they have none.
    pub open spec fn camera(self, world: u64) -> Outcome<Option<(CameraBits, u64)>> {
        match self.controller(world) {
            Err(e) => Err(e),
            Ok(None) => Ok(None),
            Ok(Some(pc)) => match self.pointer(pc.wrapping_add(PC_CAMERA_MANAGER)) {
                Err(e) => Err(e),
                Ok(None) => Ok(None),
                Ok(Some(manager)) => match self.pov(
                    manager.wrapping_add(CAMERA_CACHE).wrapping_add(CACHE_POV),
                ) {
                    Err(e) => Err(e),
                    Ok(None) => Ok(None),
                    Ok(Some(cam)) => match self.pointer_or_null(pc.wrapping_add(PC_ACK_PAWN)) {
                        Err(e) => Err(e),
                        Ok(pawn) => Ok(Some((cam, pawn))),
                    },
                },
            },
        }
    }

    /// Local player's display name via PlayerController, PlayerState,
    /// PlayerNamePrivate.
    pub open spec fn local_name(self, world: u64) -> Outcome<Option<Seq<char>>> {
        match self.controller(world) {
            Err(e) => Err(e),
            Ok(None) => Ok(None),
            Ok(Some(pc)) => match self.pointer(pc.wrapping_add(CONTROLLER_PLAYER_STATE)) {
                Err(e) => Err(e),
                Ok(None) => Ok(None),
                Ok(Some(ps)) => self.fstring(ps.wrapping_add(PLAYERSTATE_NAME)),
            },
        }
    }
}

fn read_vec3(proc: &ProcessHandle, addr: u64) -> (r: Outcome<Option<Vec3Bits>>)
    ensures
        r == proc@.vec3(addr),
{
    match proc.read_bytes(addr, 24)? {
        Some(bytes) => {
            let all = bytes.as_slice();
            Ok(
                Some(
                    Vec3Bits {
                        x: <u64 as Scalar>::from_le(vstd::slice::slice_subrange(all, 0, 8)),
                        y: <u64 as Scalar>::from_le(vstd::slice::slice_subrange(all, 8, 16)),
                        z: <u64 as Scalar>::from_le(vstd::slice::slice_subrange(all, 16, 24)),
                    },
                ),
            )
        },
        None => Ok(None),
    }
}

/// First element of a TArray<*> at `addr`. Returns the pointed-to object.
pub fn tarray_first(proc: &ProcessHandle, addr: u64) -> (r: Outcome<Option<u64>>)
    ensures
        r == proc@.tarray_first(addr),
{
    let data: u64 = match proc.ptr(addr)? {
        Some(p) => p,
        None => {
            return Ok(None);
        },
    };
    match proc.read::<i32>(addr.wrapping_add(8))? {
        Some(count) => {
            if count < 1 {
                return Ok(None);
            }
        },
        None => {
            return Ok(None);
        },
    }
    proc.ptr(data)
}

/// Read a UE FString { *u16 data, i32 len, i32 max } as a Rust String.
pub fn read_fstring(proc: &ProcessHandle, addr: u64) -> (r: Outcome<Option<String>>)
    ensures
        crate::mem::shown(r) == proc@.fstring(addr),
{
    let data: u64 = match proc.ptr(addr)? {
        Some(p) => p,
        None => {
            return Ok(None);
        },
    };
    let len: i32 = match proc.read::<i32>(addr.wrapping_add(8))? {
        Some(len) => len,
        None => {
            return Ok(None);
        },
    };
    if len <= 0 || len > MAX_FSTRING_LEN {
        return Ok(None);
    }
    let count: usize = len as usize;
    let bytes = match proc.read_bytes(data, 2 * count)? {
        Some(bytes) => bytes,
        None => {
            return Ok(None);
        },
    };
    let mut utf16: Vec<u16> = Vec::with_capacity(count);
    let mut i: usize = 0;
    while i < count
        invariant
            i <= count <= MAX_FSTRING_LEN,
            bytes@.len() == 2 * count,
            utf16@.len() == i,
            forall|k: int|
                0 <= k < i ==> utf16@[k] == crate::ue::fname::u16_at(bytes@, 2 * k),
        decreases count - i,
    {
        utf16.push(bytes[2 * i] as u16 + 256 * (bytes[2 * i + 1] as u16));
        i = i + 1;
    }
    assert(utf16@ =~= crate::ue::fname::units(bytes@));
    let text = from_utf16_lossy(utf16.as_slice());
    Ok(Some(trim_nuls(text.as_str())))
}

/// World-space location of an actor.
pub fn actor_location(proc: &ProcessHandle, actor: u64) -> (r: Outcome<Option<Vec3Bits>>)
    ensures
        r == proc@.location(actor),
{
    match proc.ptr(actor.wrapping_add(ACTOR_ROOT))? {
        Some(root) => read_vec3(proc, root.wrapping_add(SCENE_REL_LOCATION)),
        None => Ok(None),
    }
}

fn read_controller(proc: &ProcessHandle, world: u64) -> (r: Outcome<Option<u64>>)
    ensures
        r == proc@.controller(world),
{
    let instance: u64 = match proc.ptr(world.wrapping_add(WORLD_GAME_INSTANCE))? {
        Some(p) => p,
        None => {
            return Ok(None);
        },
    };
    match tarray_first(proc, instance.wrapping_add(GI_LOCAL_PLAYERS))? {
        Some(player) => proc.ptr(player.wrapping_add(PLAYER_PLAYER_CONTROLLER)),
        None => Ok(None),
    }
}

fn read_pov(proc: &ProcessHandle, pov: u64) -> (r: Outcome<Option<CameraBits>>)
    ensures
        r == proc@.pov(pov),
{
    let loc: Vec3Bits = match read_vec3(proc, pov.wrapping_add(POV_LOCATION))? {
        Some(v) => v,
        None => {
            return Ok(None);
        },
    };
    let rot: Vec3Bits = match read_vec3(proc, pov.wrapping_add(POV_ROTATION))? {
        Some(v) => v,
        None => {
            return Ok(None);
        },
    };
    match proc.read::<u32>(pov.wrapping_add(POV_FOV))? {
        Some(fov) => Ok(Some(CameraBits { loc, rot, fov })),
        None => Ok(None),
    }
}

pub(crate) fn read_pointer_or_null(proc: &ProcessHandle, addr: u64) -> (r: Outcome<u64>)
    ensures
        r == proc@.pointer_or_null(addr),
{
    match proc.ptr(addr)? {
        Some(p) => Ok(p),
        None => Ok(0),
    }
}

/// Resolve the GWorld to camera + player chain.
pub fn read_camera(proc: &ProcessHandle, world: u64) -> (r: Outcome<Option<(CameraBits, u64)>>)
    ensures
        r == proc@.camera(world),
{
    let pc: u64 = match read_controller(proc, world)? {
        Some(p) => p,
        None => {
            return Ok(None);
        },
    };
    let manager: u64 = match proc.ptr(pc.wrapping_add(PC_CAMERA_MANAGER))? {
        Some(p) => p,
        None => {
            return Ok(None);
        },
    };
    let cam: CameraBits = match read_pov(
        proc,
        manager.wrapping_add(CAMERA_CACHE).wrapping_add(CACHE_POV),
    )? {
        Some(cam) => cam,
        None => {
            return Ok(None);
        },
    };
    let pawn: u64 = read_pointer_or_null(proc, pc.wrapping_add(PC_ACK_PAWN))?;
    Ok(Some((cam, pawn)))
}

/// Local player's display name.
pub fn local_player_name(proc: &ProcessHandle, world: u64) -> (r: Outcome<Option<String>>)
    ensures
        crate::mem::shown(r) == proc@.local_name(world),
{
    let pc: u64 = match read_controller(proc, world)? {
        Some(p) => p,
        None => {
            return Ok(None);
        },
    };
    match proc.ptr(pc.wrapping_add(CONTROLLER_PLAYER_STATE))? {
        Some(ps) => read_fstring(proc, ps.wrapping_add(PLAYERSTATE_NAME)),
        None => Ok(None),
    }
}

// ── Laws ────────────────────────────────────────────────────────────

/// Fetching more pages never changes the camera.
pub broadcast proof fn lemma_camera_settled(m: Memory, m2: Memory, world: u64)
    requires
        #[trigger] m.grows_to(m2),
    ensures
        m.settles(#[trigger] m.camera(world), m2.camera(world)),
{
    broadcast use {crate::mem::lemma_value_settled, crate::mem::lemma_fetch_settled};

    assert(m.settles(m.controller(world), m2.controller(world)));
    match m.controller(world) {
        Ok(Some(pc)) => match m.pointer(pc.wrapping_add(PC_CAMERA_MANAGER)) {
            Ok(Some(manager)) => {
                let pov = manager.wrapping_add(CAMERA_CACHE).wrapping_add(CACHE_POV);
                assert(m.settles(m.pov(pov), m2.pov(pov)));
            },
            _ => {},
        },
        _ => {},
    }
}

/// Fetching more pages never changes the first element of an array.
pub proof fn lemma_tarray_first_settled(m: Memory, m2: Memory, addr: u64)
    requires
        m.grows_to(m2),
    ensures
        m.settles(m.tarray_first(addr), m2.tarray_first(addr)),
{
    broadcast use crate::mem::lemma_value_settled;

}

/// Fetching more pages never changes the text of an FString.
pub broadcast proof fn lemma_fstring_settled(m: Memory, m2: Memory, addr: u64)
    requires
        #[trigger] m.grows_to(m2),
    ensures
        m.settles(#[trigger] m.fstring(addr), m2.fstring(addr)),
{
    broadcast use {crate::mem::lemma_value_settled, crate::mem::lemma_fetch_settled};

}

/// Fetching more pages never changes where an actor is.
pub broadcast proof fn lemma_location_settled(m: Memory, m2: Memory, actor: u64)
    requires
        #[trigger] m.grows_to(m2),
    ensures
        m.settles(#[trigger] m.location(actor), m2.location(actor)),
{
    broadcast use {crate::mem::lemma_value_settled, crate::mem::lemma_fetch_settled};

}

/// Fetching more pages never changes the local player's name.
pub proof fn lemma_local_name_settled(m: Memory, m2: Memory, world: u64)
    requires
        m.grows_to(m2),
    ensures
        m.settles(m.local_name(world), m2.local_name(world)),
{
    broadcast use {crate::mem::lemma_value_settled, lemma_fstring_settled};

    assert(m.settles(m.controller(world), m2.controller(world)));
}

/// An FString's text does not end in NUL.
pub proof fn lemma_fstring_is_trimmed(m: Memory, addr: u64)
    ensures
        m.fstring(addr) matches Ok(Some(text)) ==> text.len() > 0 ==> text.last() != '\0',
{
    match m.fstring(addr) {
        Ok(Some(_)) => {
            let data = m.pointer(addr)->Ok_0->0;
            let len = m.value::<i32>(addr.wrapping_add(8))->Ok_0->0;
            let bytes = m.fetch(data, (2 * len) as usize)->Ok_0->0;
            lemma_trimmed(crate::text::utf16_text(crate::ue::fname::units(bytes)));
        },
        _ => {},
    }
}

proof fn lemma_trimmed(text: Seq<char>)
    ensures
        crate::text::trimmed(text).len() > 0 ==> crate::text::trimmed(text).last() != '\0',
    decreases text.len(),
{
    if text.len() > 0 {
        lemma_trimmed(text.drop_last());
    }
}

} // verus!
