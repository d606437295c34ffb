//! The overlay: which actors and players a scene marks, and how.

use crate::esp::overlay::{ActorFilter, MarkerInfo, SceneInfo};
use crate::esp::players::PlayerInfo;
use crate::esp::{CameraBits, Vec3Bits};
use crate::mem::{Memory, Missing, Outcome};
use crate::search::LabelCache;
use crate::ue::fname::Remote;
use vstd::prelude::*;

verus! {

// ── Classes ─────────────────────────────────────────────────────────

/// A class is called what the name at 0x18 of it says, or nothing.
pub proof fn lemma_class_label(r: Remote, class: u64, text: Seq<char>)
    ensures
        r.called(class.wrapping_add(0x18), text) ==> r.class_label(class) == Ok::<
            Seq<char>,
            Missing,
        >(text),
        r.name_at(class.wrapping_add(0x18)) == Ok::<Option<Seq<char>>, Missing>(None)
            ==> r.class_label(class) == Ok::<Seq<char>, Missing>(seq![]),
{
}

/// A cached name of a class stands; one that is not cached is the one in memory.
pub proof fn lemma_cached_label(cache: LabelCache, r: Remote, class: u64)
    ensures
        cache@.contains_key(class) ==> (cache.labels(r))(class) == Ok::<Seq<char>, Missing>(
            cache@[class],
        ),
        !cache@.contains_key(class) ==> (cache.labels(r))(class) == r.class_label(class),
{
}

/// A class is that of an enemy if "Enemy" or "PartyMember" stands in its name, and not
/// otherwise.
pub open spec fn hostile(class: Seq<char>) -> bool {
    crate::laws::text::has_part(class, "Enemy"@) || crate::laws::text::has_part(
        class,
        "PartyMember"@,
    )
}

proof fn lemma_hostile(class: Seq<char>)
    ensures
        crate::esp::overlay::is_enemy(class) == hostile(class),
{
    crate::laws::text::lemma_part_of_text(class, "Enemy"@);
    crate::laws::text::lemma_part_of_text(class, "PartyMember"@);
}

/// Which classes are wanted: all of them, those in whose name a text stands, or those in
/// whose name "PartyMember", "Character" or "Pawn" stands.
pub proof fn lemma_which_classes_are_wanted(filter: ActorFilter, class: Seq<char>)
    ensures
        filter.wanted(class) == (match filter {
            ActorFilter::All => true,
            ActorFilter::Contains(text) => crate::laws::text::has_part(class, text@),
            ActorFilter::Living => crate::laws::text::has_part(class, "PartyMember"@)
                || crate::laws::text::has_part(class, "Character"@) || crate::laws::text::has_part(
                class,
                "Pawn"@,
            ),
        }),
{
    crate::laws::text::lemma_part_of_text(class, "PartyMember"@);
    crate::laws::text::lemma_part_of_text(class, "Character"@);
    crate::laws::text::lemma_part_of_text(class, "Pawn"@);
    if let ActorFilter::Contains(text) = filter {
        crate::laws::text::lemma_part_of_text(class, text@);
    }
}

// ── Labels ──────────────────────────────────────────────────────────

/// The local player's pawn is labelled with the local player's name, if that is not empty.
pub proof fn lemma_own_label(m: Memory, actor: u64, class: Seq<char>, local: Seq<char>)
    requires
        local.len() > 0,
    ensures
        m.actor_label(actor, class, actor, local) == Ok::<Seq<char>, Missing>(local),
{
}

/// Any other party member is labelled with the number of its slot, which stands at 0x2E8
/// of it, or with -1.
pub proof fn lemma_member_label(
    m: Memory,
    actor: u64,
    class: Seq<char>,
    pawn: u64,
    local: Seq<char>,
    slot: i32,
)
    requires
        actor != pawn || local.len() == 0,
        crate::laws::text::has_part(class, "PartyMember"@),
        m.value_or::<i32>(actor.wrapping_add(0x2E8), -1i32) == Ok::<i32, Missing>(slot),
    ensures
        m.actor_label(actor, class, pawn, local) == Ok::<Seq<char>, Missing>(
            "Member "@ + (if slot < 0 {
                seq!['-'] + crate::text::decimal((-slot) as nat)
            } else {
                crate::text::decimal(slot as nat)
            }),
        ),
{
    crate::laws::text::lemma_part_of_text(class, "PartyMember"@);
}

/// Any other actor is labelled with the name of its class, without "_C" at its end and
/// "BP_" at its start.
pub proof fn lemma_class_name_label(
    m: Memory,
    actor: u64,
    class: Seq<char>,
    pawn: u64,
    local: Seq<char>,
    mid: Seq<char>,
)
    requires
        actor != pawn || local.len() == 0,
        !crate::laws::text::has_part(class, "PartyMember"@),
    ensures
        class == "BP_"@ + mid + "_C"@ ==> m.actor_label(actor, class, pawn, local) == Ok::<
            Seq<char>,
            Missing,
        >(mid),
        class == mid + "_C"@ && (forall|back: Seq<char>| mid != #[trigger] ("BP_"@ + back))
            ==> m.actor_label(actor, class, pawn, local) == Ok::<Seq<char>, Missing>(mid),
        class == "BP_"@ + mid && (forall|front: Seq<char>| class != #[trigger] (front + "_C"@))
            ==> m.actor_label(actor, class, pawn, local) == Ok::<Seq<char>, Missing>(mid),
        class == mid && (forall|front: Seq<char>| class != #[trigger] (front + "_C"@)) && (forall|
            back: Seq<char>,
        | class != #[trigger] ("BP_"@ + back)) ==> m.actor_label(actor, class, pawn, local) == Ok::<
            Seq<char>,
            Missing,
        >(mid),
{
    crate::laws::text::lemma_part_of_text(class, "PartyMember"@);
    crate::laws::text::lemma_suffix_comes_off("BP_"@ + mid, "_C"@, class);
    crate::laws::text::lemma_suffix_comes_off(mid, "_C"@, class);
    crate::laws::text::lemma_prefix_comes_off("BP_"@, mid, mid);
    crate::laws::text::lemma_prefix_comes_off("BP_"@, mid, class);
}

// ── Actors ──────────────────────────────────────────────────────────

/// Element `i` of the array of actors at `data` is the actor at `actor`, whose class, at
/// `class`, is called `text`.
pub open spec fn element_is(
    m: Memory,
    labels: spec_fn(u64) -> Outcome<Seq<char>>,
    data: u64,
    i: int,
    actor: u64,
    class: u64,
    text: Seq<char>,
) -> bool {
    &&& m.points(data.wrapping_add((8 * i) as u64), actor)
    &&& m.points(actor.wrapping_add(0x10), class)
    &&& labels(class) == Ok::<Seq<char>, Missing>(text)
}

/// An actor is marked as an enemy if "Enemy" or "PartyMember" stands in the name of its
/// class, and not otherwise; it is marked where it stands, with its label, if it is
/// wanted, stands somewhere, and its class has a name.
pub proof fn lemma_how_an_actor_is_marked(
    m: Memory,
    labels: spec_fn(u64) -> Outcome<Seq<char>>,
    data: u64,
    i: int,
    actor: u64,
    class: u64,
    text: Seq<char>,
    pawn: u64,
    local: Seq<char>,
    filter: ActorFilter,
    pos: Vec3Bits,
    label: Seq<char>,
)
    requires
        element_is(m, labels, data, i, actor, class, text),
    ensures
        ({
            let mark = (m.actor_marks(labels, data, pawn, local, filter))(i);
            &&& text.len() == 0 || !filter.wanted(text) ==> mark == Ok::<
                Option<MarkerInfo>,
                Missing,
            >(None)
            &&& m.location(actor) == Ok::<Option<Vec3Bits>, Missing>(None) ==> mark == Ok::<
                Option<MarkerInfo>,
                Missing,
            >(None)
            &&& text.len() > 0 && filter.wanted(text) && m.location(actor) == Ok::<
                Option<Vec3Bits>,
                Missing,
            >(Some(pos)) && m.actor_label(actor, text, pawn, local) == Ok::<Seq<char>, Missing>(
                label,
            ) ==> mark == Ok::<Option<MarkerInfo>, Missing>(
                Some((MarkerInfo { pos, name: label, enemy: hostile(text) })),
            )
        }),
{
    lemma_hostile(text);
}

/// The way from GWorld to the actors of a frame: the world that it points to, its level at
/// 0x30, and the array of actors there, of which 0x4000 are drawn at most.
pub open spec fn frame_shows(
    m: Memory,
    gworld: u64,
    off: u64,
    world: u64,
    level: u64,
    data: u64,
    n: int,
) -> bool {
    &&& m.points(gworld, world)
    &&& m.points(world.wrapping_add(0x30), level)
    &&& m.points(level.wrapping_add(off), data)
    &&& crate::laws::game::counts(m, level.wrapping_add(off), 0x4000, n)
}

/// The marker of a scene: it stands for an actor whose class has a name that is wanted, is
/// where that actor stands, has its label, and is an enemy's exactly if "Enemy" or
/// "PartyMember" stands in the name of the class.
pub open spec fn marks_actor(
    m: Memory,
    labels: spec_fn(u64) -> Outcome<Seq<char>>,
    data: u64,
    i: int,
    pawn: u64,
    local: Seq<char>,
    filter: ActorFilter,
    marker: MarkerInfo,
    actor: u64,
    class: u64,
    text: Seq<char>,
) -> bool {
    &&& element_is(m, labels, data, i, actor, class, text)
    &&& text.len() > 0
    &&& filter.wanted(text)
    &&& m.location(actor) == Ok::<Option<Vec3Bits>, Missing>(Some(marker.pos))
    &&& m.actor_label(actor, text, pawn, local) == Ok::<Seq<char>, Missing>(marker.name)
    &&& marker.enemy == hostile(text)
}

/// The markers of a scene are those of the elements of the actor array, in their order:
/// each stands for one element, and an element that has none is no actor with a class, or
/// one whose class has no name, or is not wanted, or stands nowhere.
pub proof fn lemma_scene_marks_the_actors(
    m: Memory,
    labels: spec_fn(u64) -> Outcome<Seq<char>>,
    gworld: u64,
    off: u64,
    world: u64,
    level: u64,
    data: u64,
    n: int,
    cam: CameraBits,
    pawn: u64,
    local: Seq<char>,
    filter: ActorFilter,
    scene: SceneInfo,
) -> (q: (Seq<int>, Seq<(u64, u64, Seq<char>)>))
    requires
        frame_shows(m, gworld, off, world, level, data, n),
        m.camera(world) == Ok::<Option<(CameraBits, u64)>, Missing>(Some((cam, pawn))),
        m.actor_scene(labels, gworld, off, local, filter) == Ok::<Option<SceneInfo>, Missing>(
            Some(scene),
        ),
    ensures
        scene.camera == cam,
        q.0.len() == scene.markers.len(),
        q.1.len() == scene.markers.len(),
        forall|k: int| 0 <= k < q.0.len() ==> 0 <= #[trigger] q.0[k] < n,
        forall|k: int, l: int| 0 <= k < l < q.0.len() ==> #[trigger] q.0[k] < #[trigger] q.0[l],
        forall|k: int|
            0 <= k < q.0.len() ==> {
                let (actor, class, text) = q.1[k];
                marks_actor(
                    m,
                    labels,
                    data,
                    #[trigger] q.0[k],
                    pawn,
                    local,
                    filter,
                    scene.markers[k],
                    actor,
                    class,
                    text,
                )
            },
        forall|i: int, actor: u64, class: u64, text: Seq<char>|
            0 <= i < n && !q.0.contains(i) && #[trigger] element_is(
                m,
                labels,
                data,
                i,
                actor,
                class,
                text,
            ) ==> text.len() == 0 || !filter.wanted(text) || m.location(actor) == Ok::<
                Option<Vec3Bits>,
                Missing,
            >(None),
{
    let step = m.actor_marks(labels, data, pawn, local, filter);
    let from = crate::laws::lemma_walk_picks(step, n);
    let actor_at = |k: int| m.value::<u64>(data.wrapping_add((8 * from[k]) as u64))->Ok_0->0;
    let class_at = |k: int| m.value::<u64>(actor_at(k).wrapping_add(0x10))->Ok_0->0;
    let found = Seq::new(
        from.len(),
        |k: int| (actor_at(k), class_at(k), labels(class_at(k))->Ok_0),
    );
    assert forall|k: int| 0 <= k < from.len() implies {
        let (actor, class, text) = found[k];
        marks_actor(
            m,
            labels,
            data,
            #[trigger] from[k],
            pawn,
            local,
            filter,
            scene.markers[k],
            actor,
            class,
            text,
        )
    } by {
        assert(step(from[k]) == Ok::<Option<MarkerInfo>, Missing>(Some(scene.markers[k])));
        lemma_hostile(labels(class_at(k))->Ok_0);
    }
    assert forall|i: int, actor: u64, class: u64, text: Seq<char>|
        0 <= i < n && !from.contains(i) && #[trigger] element_is(
            m,
            labels,
            data,
            i,
            actor,
            class,
            text,
        ) implies text.len() == 0 || !filter.wanted(text) || m.location(actor) == Ok::<
        Option<Vec3Bits>,
        Missing,
    >(None) by {
        assert(step(i) == Ok::<Option<MarkerInfo>, Missing>(None));
    }
    (from, found)
}

/// A marked actor whose class is called something with "Enemy" or "PartyMember" in it, in
/// memory, is an enemy in the scene; one whose class is called anything else is not.
pub proof fn lemma_enemies_by_their_class(
    r: Remote,
    cache: LabelCache,
    data: u64,
    i: int,
    actor: u64,
    class: u64,
    a: Seq<char>,
    b: Seq<char>,
    text: Seq<char>,
    pawn: u64,
    local: Seq<char>,
    filter: ActorFilter,
    mark: MarkerInfo,
)
    requires
        !cache@.contains_key(class) || cache@[class] == text,
        r.mem.points(data.wrapping_add((8 * i) as u64), actor),
        r.mem.points(actor.wrapping_add(0x10), class),
        r.called(class.wrapping_add(0x18), text),
        (r.mem.actor_marks(cache.labels(r), data, pawn, local, filter))(i) == Ok::<
            Option<MarkerInfo>,
            Missing,
        >(Some(mark)),
    ensures
        text == a + "Enemy"@ + b ==> mark.enemy,
        text == a + "PartyMember"@ + b ==> mark.enemy,
        (forall|x: Seq<char>, y: Seq<char>|
            text != #[trigger] (x + "Enemy"@ + y)) && (forall|x: Seq<char>, y: Seq<char>|
            text != #[trigger] (x + "PartyMember"@ + y)) ==> !mark.enemy,
{
    lemma_cached_label(cache, r, class);
    lemma_class_label(r, class, text);
    lemma_hostile(text);
}

/// The enemies of a scene, by the class names in memory: a marker stands for an actor of
/// the array whose class has a name, and is an enemy's exactly if that name is something
/// with "Enemy" or "PartyMember" in it.
pub proof fn lemma_enemies_of_a_scene(
    r: Remote,
    cache: LabelCache,
    gworld: u64,
    off: u64,
    world: u64,
    level: u64,
    data: u64,
    n: int,
    cam: CameraBits,
    pawn: u64,
    local: Seq<char>,
    filter: ActorFilter,
    scene: SceneInfo,
    k: int,
) -> (q: (int, u64, u64, Seq<char>))
    requires
        frame_shows(r.mem, gworld, off, world, level, data, n),
        r.mem.camera(world) == Ok::<Option<(CameraBits, u64)>, Missing>(Some((cam, pawn))),
        r.mem.actor_scene(cache.labels(r), gworld, off, local, filter) == Ok::<
            Option<SceneInfo>,
            Missing,
        >(Some(scene)),
        forall|class: u64| #[trigger]
            cache@.contains_key(class) ==> r.class_label(class) == Ok::<Seq<char>, Missing>(
                cache@[class],
            ),
        0 <= k < scene.markers.len(),
    ensures
        ({
            let (i, actor, class, text) = q;
            &&& 0 <= i < n
            &&& r.mem.points(data.wrapping_add((8 * i) as u64), actor)
            &&& r.mem.points(actor.wrapping_add(0x10), class)
            &&& r.called(class.wrapping_add(0x18), text)
            &&& scene.markers[k].enemy <==> (exists|a: Seq<char>, b: Seq<char>|
                text == #[trigger] (a + "Enemy"@ + b)) || (exists|a: Seq<char>, b: Seq<char>|
                text == #[trigger] (a + "PartyMember"@ + b))
        }),
{
    let (from, found) = lemma_scene_marks_the_actors(
        r.mem,
        cache.labels(r),
        gworld,
        off,
        world,
        level,
        data,
        n,
        cam,
        pawn,
        local,
        filter,
        scene,
    );
    let (actor, class, text) = found[k];
    assert(marks_actor(
        r.mem,
        cache.labels(r),
        data,
        from[k],
        pawn,
        local,
        filter,
        scene.markers[k],
        actor,
        class,
        text,
    ));
    lemma_cached_label(cache, r, class);
    assert(r.class_label(class) == Ok::<Seq<char>, Missing>(text));
    (from[k], actor, class, text)
}

// ── Players ─────────────────────────────────────────────────────────

/// The markers of a player scene are those of the drawable players that stand somewhere,
/// in their order: where their pawn stands, with their name, as enemies.
pub proof fn lemma_scene_marks_the_players(
    m: Memory,
    gworld: u64,
    world: u64,
    cam: CameraBits,
    pawn: u64,
    players: Seq<PlayerInfo>,
    scene: SceneInfo,
) -> (from: Seq<int>)
    requires
        m.points(gworld, world),
        m.camera(world) == Ok::<Option<(CameraBits, u64)>, Missing>(Some((cam, pawn))),
        m.players(world) == Ok::<Seq<PlayerInfo>, Missing>(players),
        m.player_scene(gworld) == Ok::<Option<SceneInfo>, Missing>(Some(scene)),
    ensures
        scene.camera == cam,
        from.len() == scene.markers.len(),
        forall|k: int| 0 <= k < from.len() ==> 0 <= #[trigger] from[k] < players.len(),
        forall|k: int, l: int| 0 <= k < l < from.len() ==> #[trigger] from[k] < #[trigger] from[l],
        forall|k: int|
            0 <= k < from.len() ==> {
                let player = players[#[trigger] from[k]];
                &&& player.drawable()
                &&& m.location(player.pawn) == Ok::<Option<Vec3Bits>, Missing>(
                    Some(scene.markers[k].pos),
                )
                &&& scene.markers[k].name == player.name
                &&& scene.markers[k].enemy
            },
        forall|i: int|
            0 <= i < players.len() && !#[trigger] from.contains(i) ==> !players[i].drawable()
                || m.location(players[i].pawn) == Ok::<Option<Vec3Bits>, Missing>(None),
{
    let step = m.player_marks(players);
    let from = crate::laws::lemma_walk_picks(step, players.len() as int);
    assert forall|k: int| 0 <= k < from.len() implies {
        let player = players[#[trigger] from[k]];
        &&& player.drawable()
        &&& m.location(player.pawn) == Ok::<Option<Vec3Bits>, Missing>(Some(scene.markers[k].pos))
        &&& scene.markers[k].name == player.name
        &&& scene.markers[k].enemy
    } by {
        assert(step(from[k]) == Ok::<Option<MarkerInfo>, Missing>(Some(scene.markers[k])));
    }
    assert forall|i: int| 0 <= i < players.len() && !#[trigger] from.contains(i) implies !players[i].drawable()
        || m.location(players[i].pawn) == Ok::<Option<Vec3Bits>, Missing>(None) by {
        assert(step(i) == Ok::<Option<MarkerInfo>, Missing>(None));
    }
    from
}

/// There is a scene where there is a world, a camera and, for actors, a level with an
/// array of them; and none where there is no world or no camera.
pub proof fn lemma_when_there_is_a_scene(
    m: Memory,
    labels: spec_fn(u64) -> Outcome<Seq<char>>,
    gworld: u64,
    off: u64,
    world: u64,
    level: u64,
    data: u64,
    n: int,
    cam: CameraBits,
    pawn: u64,
    local: Seq<char>,
    filter: ActorFilter,
)
    requires
        m.player_scene(gworld) is Ok,
        m.actor_scene(labels, gworld, off, local, filter) is Ok,
    ensures
        m.points_nowhere(gworld) ==> m.player_scene(gworld)->Ok_0 is None && m.actor_scene(
            labels,
            gworld,
            off,
            local,
            filter,
        )->Ok_0 is None,
        m.points(gworld, world) && m.camera(world) == Ok::<Option<(CameraBits, u64)>, Missing>(None)
            ==> m.player_scene(gworld)->Ok_0 is None && m.actor_scene(
            labels,
            gworld,
            off,
            local,
            filter,
        )->Ok_0 is None,
        m.points(gworld, world) && m.camera(world) == Ok::<Option<(CameraBits, u64)>, Missing>(
            Some((cam, pawn)),
        ) ==> m.player_scene(gworld)->Ok_0 is Some,
        frame_shows(m, gworld, off, world, level, data, n) && m.camera(world) == Ok::<
            Option<(CameraBits, u64)>,
            Missing,
        >(Some((cam, pawn))) ==> m.actor_scene(labels, gworld, off, local, filter)->Ok_0 is Some,
{
}

} // verus!
