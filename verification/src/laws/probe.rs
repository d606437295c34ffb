//! The probe: how far the way from GWorld goes, and what it shows.

use crate::esp::actors::ActorInfo;
use crate::esp::overlay::ActorFilter;
use crate::esp::players::PlayerInfo;
use crate::esp::probe::{LevelActors, PlaceInfo, ProbeFailure, ReportInfo, StartInfo};
use crate::esp::{CameraBits, Vec3Bits};
use crate::mem::{Memory, Missing};
use crate::ue::fname::Remote;
use vstd::prelude::*;

verus! {

/// The level of a world is what the pointer at 0x30 of it leads to; without one, or
/// without actors in it, the way ends there.
pub proof fn lemma_level_of_a_world(r: Remote, world: u64, level: u64, off: u64)
    ensures
        r.mem.points_nowhere(world.wrapping_add(0x30)) ==> r.level_actors(world) == Ok::<
            Result<LevelActors, ProbeFailure>,
            Missing,
        >(Err(ProbeFailure::NoLevel)),
        r.mem.points(world.wrapping_add(0x30), level) && r.actors_offset(level) == Ok::<
            Option<u64>,
            Missing,
        >(None) ==> r.level_actors(world) == Ok::<Result<LevelActors, ProbeFailure>, Missing>(
            Err(ProbeFailure::NoActors),
        ),
        r.mem.points(world.wrapping_add(0x30), level) && r.actors_offset(level) == Ok::<
            Option<u64>,
            Missing,
        >(Some(off)) ==> r.level_actors(world) == Ok::<Result<LevelActors, ProbeFailure>, Missing>(
            Ok((LevelActors { level, actors_off: off })),
        ),
{
}

/// The overlay starts from the offset of the actors and the local player's name, or an
/// empty one; and not without a world, a level or actors.
pub proof fn lemma_overlay_starts(
    r: Remote,
    gworld: u64,
    world: u64,
    found: LevelActors,
    failure: ProbeFailure,
    name: Option<Seq<char>>,
)
    ensures
        r.mem.points_nowhere(gworld) ==> r.overlay_start(gworld) == Ok::<
            Result<StartInfo, ProbeFailure>,
            Missing,
        >(Err(ProbeFailure::NoWorld)),
        r.mem.points(gworld, world) && r.level_actors(world) == Ok::<
            Result<LevelActors, ProbeFailure>,
            Missing,
        >(Err(failure)) ==> r.overlay_start(gworld) == Ok::<
            Result<StartInfo, ProbeFailure>,
            Missing,
        >(Err(failure)),
        r.mem.points(gworld, world) && r.level_actors(world) == Ok::<
            Result<LevelActors, ProbeFailure>,
            Missing,
        >(Ok(found)) && r.mem.local_name(world) == Ok::<Option<Seq<char>>, Missing>(name)
            ==> r.overlay_start(gworld) == Ok::<Result<StartInfo, ProbeFailure>, Missing>(
            Ok(
                (StartInfo {
                    actors_off: found.actors_off,
                    local_name: match name {
                        Some(name) => name,
                        None => seq![],
                    },
                }),
            ),
        ),
{
}

/// The pawn is shown where it stands, with the name of its class or an empty one; a pawn
/// that is null or stands nowhere is not shown.
pub proof fn lemma_pawn_is_shown(r: Remote, pawn: u64, pos: Vec3Bits, class: Option<Seq<char>>)
    ensures
        pawn == 0 || r.mem.location(pawn) == Ok::<Option<Vec3Bits>, Missing>(None)
            ==> r.pawn_place(pawn) == Ok::<Option<PlaceInfo>, Missing>(None),
        pawn != 0 && r.mem.location(pawn) == Ok::<Option<Vec3Bits>, Missing>(Some(pos))
            && r.actor_class(pawn) == Ok::<Option<Seq<char>>, Missing>(class) ==> r.pawn_place(pawn)
            == Ok::<Option<PlaceInfo>, Missing>(
            Some(
                (PlaceInfo {
                    pos,
                    class: match class {
                        Some(class) => class,
                        None => seq![],
                    },
                }),
            ),
        ),
{
}

/// A report shows the world, its camera, the pawn, the level and its actors, how many
/// elements their array has, 0x20000 at most, the local player's name, and the players.
pub proof fn lemma_report_shows(
    r: Remote,
    gworld: u64,
    world: u64,
    camera: CameraBits,
    body: u64,
    found: LevelActors,
    report: ReportInfo,
)
    requires
        r.mem.points(gworld, world),
        r.mem.camera(world) == Ok::<Option<(CameraBits, u64)>, Missing>(Some((camera, body))),
        r.level_actors(world) == Ok::<Result<LevelActors, ProbeFailure>, Missing>(Ok(found)),
        r.probe_world(gworld) == Ok::<Result<ReportInfo, ProbeFailure>, Missing>(Ok(report)),
    ensures
        report.world == world,
        report.camera == camera,
        r.pawn_place(body) == Ok::<Option<PlaceInfo>, Missing>(report.pawn),
        report.found == found,
        crate::laws::game::counts(
            r.mem,
            found.level.wrapping_add(found.actors_off),
            0x2_0000,
            report.actor_count,
        ),
        r.actors(found.level.wrapping_add(found.actors_off)) == Ok::<Seq<ActorInfo>, Missing>(
            report.actors,
        ),
        r.mem.local_name(world) == Ok::<Option<Seq<char>>, Missing>(report.local_name),
        r.mem.players(world) == Ok::<Seq<PlayerInfo>, Missing>(report.players),
{
}

/// Where the way breaks: without a world, without a camera, and then without a level or
/// its actors; nowhere else.
pub proof fn lemma_where_the_way_breaks(
    r: Remote,
    gworld: u64,
    world: u64,
    camera: CameraBits,
    body: u64,
    failure: ProbeFailure,
    found: LevelActors,
)
    requires
        r.probe_world(gworld) is Ok,
    ensures
        r.mem.points_nowhere(gworld) ==> r.probe_world(gworld)->Ok_0 == Err::<
            ReportInfo,
            ProbeFailure,
        >(ProbeFailure::NoWorld),
        r.mem.points(gworld, world) && r.mem.camera(world) == Ok::<
            Option<(CameraBits, u64)>,
            Missing,
        >(None) ==> r.probe_world(gworld)->Ok_0 == Err::<ReportInfo, ProbeFailure>(
            ProbeFailure::NoCamera,
        ),
        r.mem.points(gworld, world) && r.mem.camera(world) == Ok::<
            Option<(CameraBits, u64)>,
            Missing,
        >(Some((camera, body))) && r.level_actors(world) == Ok::<
            Result<LevelActors, ProbeFailure>,
            Missing,
        >(Err(failure)) ==> r.probe_world(gworld)->Ok_0 == Err::<ReportInfo, ProbeFailure>(failure),
        r.mem.points(gworld, world) && r.mem.camera(world) == Ok::<
            Option<(CameraBits, u64)>,
            Missing,
        >(Some((camera, body))) && r.level_actors(world) == Ok::<
            Result<LevelActors, ProbeFailure>,
            Missing,
        >(Ok(found)) ==> r.probe_world(gworld)->Ok_0 is Ok,
{
}

// ── What is shown ───────────────────────────────────────────────────

proof fn lemma_seen_numbers(visible: Seq<bool>)
    requires
        visible.len() <= usize::MAX,
    ensures
        ({
            let all = crate::esp::probe::visible_indices(visible);
            &&& all.len() <= visible.len()
            &&& forall|k: int|
                0 <= k < all.len() ==> (#[trigger] all[k]) < visible.len() && visible[all[k] as int]
            &&& forall|k: int, l: int|
                0 <= k < l < all.len() ==> #[trigger] all[k] < #[trigger] all[l]
            &&& forall|i: usize| i < visible.len() && visible[i as int] ==> #[trigger] all.contains(i)
        }),
    decreases visible.len(),
{
    if visible.len() > 0 {
        let front = visible.drop_last();
        lemma_seen_numbers(front);
        let before = crate::esp::probe::visible_indices(front);
        let all = crate::esp::probe::visible_indices(visible);
        assert forall|k: int| 0 <= k < all.len() implies (#[trigger] all[k]) < visible.len()
            && visible[all[k] as int] by {
            if k < before.len() {
                assert(all[k] == before[k]);
                assert(front[before[k] as int] == visible[before[k] as int]);
            }
        }
        assert forall|k: int, l: int| 0 <= k < l < all.len() implies #[trigger] all[k]
            < #[trigger] all[l] by {
            assert(all[k] == before[k]);
            if l < before.len() {
                assert(all[l] == before[l]);
            }
        }
        assert forall|i: usize| i < visible.len() && visible[i as int] implies #[trigger] all.contains(
            i,
        ) by {
            if i == visible.len() - 1 {
                assert(all[before.len() as int] == i);
            } else {
                assert(front[i as int] == visible[i as int]);
                assert(before.contains(i));
                let k = before.index_of(i);
                assert(all[k] == i);
            }
        }
    }
}

/// Those that can be seen are counted, each once, in their order; of these the first are
/// given, as many as asked for.
pub proof fn lemma_first_seen(visible: Seq<bool>, most: usize)
    requires
        visible.len() <= usize::MAX,
    ensures
        ({
            let all = crate::esp::probe::visible_indices(visible);
            let first = crate::esp::probe::seen_first(visible, most);
            &&& forall|k: int|
                0 <= k < all.len() ==> (#[trigger] all[k]) < visible.len() && visible[all[k] as int]
            &&& forall|k: int, l: int|
                0 <= k < l < all.len() ==> #[trigger] all[k] < #[trigger] all[l]
            &&& forall|i: usize| i < visible.len() && visible[i as int] ==> #[trigger] all.contains(i)
            &&& first.len() == (if all.len() < most {
                all.len() as int
            } else {
                most as int
            })
            &&& forall|k: int| 0 <= k < first.len() ==> #[trigger] first[k] == all[k]
        }),
{
    lemma_seen_numbers(visible);
}

/// A histogram is cut behind its first 30 entries.
pub proof fn lemma_thirty_are_shown<T>(entries: Seq<T>)
    ensures
        ({
            let top = crate::esp::histogram::top_of(entries);
            &&& top.len() == (if entries.len() < 30 {
                entries.len() as int
            } else {
                30
            })
            &&& forall|k: int| 0 <= k < top.len() ==> #[trigger] top[k] == entries[k]
        }),
{
}

/// A histogram has each class that occurs, once, with how often it occurs.
pub proof fn lemma_histogram_counts(
    entries: Seq<(Seq<char>, usize)>,
    actors: Seq<ActorInfo>,
    class: Seq<char>,
)
    requires
        crate::esp::histogram::counts(entries, crate::esp::histogram::classes_of(actors)),
        crate::esp::histogram::most_frequent_first(entries),
    ensures
        forall|i: int|
            0 <= i < actors.len() && (#[trigger] actors[i]).class == class ==> exists|k: int|
                0 <= k < entries.len() && (#[trigger] entries[k]).0 == class,
        forall|k: int, l: int|
            0 <= k < entries.len() && 0 <= l < entries.len() && (#[trigger] entries[k]).0 == (
            #[trigger] entries[l]).0 ==> k == l,
        forall|k: int, l: int|
            0 <= k < l < entries.len() ==> (#[trigger] entries[k]).1 >= (#[trigger] entries[l]).1,
        forall|k: int|
            0 <= k < entries.len() && (#[trigger] entries[k]).0 == class ==> entries[k].1
                == actors.filter(|a: ActorInfo| a.class == class).len(),
{
    let classes = crate::esp::histogram::classes_of(actors);
    assert forall|i: int| 0 <= i < actors.len() && (#[trigger] actors[i]).class == class implies exists|
        k: int,
    |
        0 <= k < entries.len() && (#[trigger] entries[k]).0 == class by {
        assert(crate::esp::histogram::stands_in(entries, classes[i]));
    }
    lemma_occurrences(actors, class);
    assert forall|k: int, l: int|
        0 <= k < entries.len() && 0 <= l < entries.len() && (#[trigger] entries[k]).0 == (
        #[trigger] entries[l]).0 implies k == l by {
        if k < l {
            assert(entries[k].0 != entries[l].0);
        }
        if l < k {
            assert(entries[l].0 != entries[k].0);
        }
    }
}

proof fn lemma_occurrences(actors: Seq<ActorInfo>, class: Seq<char>)
    ensures
        crate::esp::histogram::classes_of(actors).to_multiset().count(class) == actors.filter(
            |a: ActorInfo| a.class == class,
        ).len(),
    decreases actors.len(),
{
    broadcast use vstd::seq_lib::group_to_multiset_ensures;

    let classes = crate::esp::histogram::classes_of(actors);
    let same = |a: ActorInfo| a.class == class;
    reveal(Seq::filter);
    if actors.len() == 0 {
        assert(classes =~= seq![]);
        assert(classes.to_multiset().count(class) == 0) by {
            if classes.to_multiset().count(class) > 0 {
                assert(classes.contains(class));
            }
        }
    } else {
        lemma_occurrences(actors.drop_last(), class);
        let front = crate::esp::histogram::classes_of(actors.drop_last());
        assert(classes =~= front.push(actors.last().class));
        assert(classes.to_multiset() =~= front.to_multiset().insert(actors.last().class));
    }
}

/// What is asked for decides which classes are marked.
pub proof fn lemma_what_was_asked_for(filter: Option<String>, draw_all: bool, class: Seq<char>)
    ensures
        draw_all ==> ActorFilter::asked(filter, draw_all).wanted(class),
        !draw_all && filter is Some ==> ActorFilter::asked(filter, draw_all).wanted(class)
            == crate::laws::text::has_part(class, filter->0@),
        !draw_all && filter is None ==> ActorFilter::asked(filter, draw_all).wanted(class) == (
        crate::laws::text::has_part(class, "PartyMember"@) || crate::laws::text::has_part(
            class,
            "Character"@,
        ) || crate::laws::text::has_part(class, "Pawn"@)),
{
    crate::laws::overlay::lemma_which_classes_are_wanted(
        ActorFilter::asked(filter, draw_all),
        class,
    );
}

/// The three parts of a color can be told from it, red in the lowest byte.
pub proof fn lemma_parts_of_a_color(r: u8, g: u8, b: u8)
    ensures
        ({
            let color = crate::esp::overlay::color_of(r, g, b);
            &&& color % 0x100 == r
            &&& (color / 0x100) % 0x100 == g
            &&& color / 0x1_0000 == b
        }),
{
}

/// The window of the game is one of its own that can be seen and is more than 100 wide and
/// more than 100 high.
pub proof fn lemma_which_window(own: bool, visible: bool, width: int, height: int)
    ensures
        crate::esp::overlay::game_window(own, visible, width, height) <==> own && visible && width
            >= 101 && height >= 101,
{
}

} // verus!
