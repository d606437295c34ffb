//! Views: what is said of a result is said of its fields, each under its own name.

use crate::esp::actors::Actor;
use crate::esp::histogram::ClassCount;
use crate::esp::overlay::{Marker, Scene};
use crate::esp::players::PlayerView;
use crate::esp::probe::{OverlayStart, PawnPlace, ProbeFailure, ProbeReport};
use crate::mem::Missing;
use crate::scanner::gobjects::{
    GObjectsSearch, NearMiss, SearchView, StrideResult, Validation, ValidationView,
};
use crate::scanner::{FailureView, ScanFailure, ScanResults};
use crate::search::ObjectHit;
use crate::ue::props::{ClassDump, EnumDump, EnumVariant, FunctionDump, PropertyDump};
use vstd::prelude::*;

verus! {

/// A read that is asked for is shown as it is, and an answer by its own view.
pub proof fn lemma_outcomes_are_shown<T: DeepView>(
    answer: T,
    list: Vec<T>,
    read: Missing,
    page: Vec<u8>,
)
    ensures
        crate::mem::shown(Ok::<T, Missing>(answer)) == Ok::<T::V, Missing>(answer.deep_view()),
        crate::mem::shown(Err::<T, Missing>(read)) == Err::<T::V, Missing>(read),
        crate::mem::listed(Ok::<Vec<T>, Missing>(list)) == Ok::<Seq<T>, Missing>(list@),
        crate::mem::listed(Err::<Vec<T>, Missing>(read)) == Err::<Seq<T>, Missing>(read),
        crate::mem::page_bytes(Some(page)) == Some(page@),
        crate::mem::page_bytes(None) is None,
        crate::mem::bytes_outcome(Ok::<Option<Vec<u8>>, Missing>(Some(page))) == Ok::<
            Option<Seq<u8>>,
            Missing,
        >(Some(page@)),
        crate::mem::bytes_outcome(Ok::<Option<Vec<u8>>, Missing>(None)) == Ok::<
            Option<Seq<u8>>,
            Missing,
        >(None),
        crate::mem::bytes_outcome(Err::<Option<Vec<u8>>, Missing>(read)) == Err::<
            Option<Seq<u8>>,
            Missing,
        >(read),
{
}

/// A class, a function and a property are shown field by field.
pub proof fn lemma_classes_are_shown(c: ClassDump, f: FunctionDump, p: PropertyDump)
    ensures
        c.deep_view().name == c.name@,
        c.deep_view().full_name == c.full_name@,
        c.deep_view().parent == c.parent.deep_view(),
        c.deep_view().size == c.size,
        c.deep_view().properties == c.properties.deep_view(),
        c.deep_view().functions == c.functions.deep_view(),
        f.deep_view().name == f.name@,
        f.deep_view().full_name == f.full_name@,
        f.deep_view().flags == f.flags,
        f.deep_view().native_func == f.native_func,
        f.deep_view().params == f.params.deep_view(),
        p.deep_view().name == p.name@,
        p.deep_view().prop_type == p.prop_type@,
        p.deep_view().offset == p.offset,
        p.deep_view().size == p.size,
        p.deep_view().array_dim == p.array_dim,
        p.deep_view().inner_type == p.inner_type.deep_view(),
        p.deep_view().bit_index == p.bit_index,
        p.deep_view().field_mask == p.field_mask,
{
}

/// An enum and a variant are shown field by field.
pub proof fn lemma_enums_are_shown(e: EnumDump, v: EnumVariant)
    ensures
        e.deep_view().name == e.name@,
        e.deep_view().full_name == e.full_name@,
        e.deep_view().variants == e.variants.deep_view(),
        v.deep_view().name == v.name@,
        v.deep_view().value == v.value,
{
}

/// A scene, a marker, a player, an actor and an entry of a histogram are shown field by
/// field.
pub proof fn lemma_game_is_shown(s: Scene, k: Marker, p: PlayerView, a: Actor, c: ClassCount)
    ensures
        s.deep_view().camera == s.camera,
        s.deep_view().markers == s.markers.deep_view(),
        k.deep_view().pos == k.pos,
        k.deep_view().name == k.name@,
        k.deep_view().enemy == k.enemy,
        p.deep_view().name == p.name@,
        p.deep_view().spectator == p.spectator,
        p.deep_view().pawn == p.pawn,
        p.deep_view().health == p.health,
        p.deep_view().is_self == p.is_self,
        a.deep_view().addr == a.addr,
        a.deep_view().class == a.class@,
        a.deep_view().location == a.location,
        c.deep_view() == (c.class@, c.count),
{
}

/// A report, where the overlay starts, and why neither is there are shown as they are.
pub proof fn lemma_probes_are_shown(
    report: ProbeReport,
    start: OverlayStart,
    place: PawnPlace,
    failure: ProbeFailure,
    read: Missing,
)
    ensures
        place.deep_view().pos == place.pos,
        place.deep_view().class == place.class@,
        crate::esp::probe::probe_shown(Ok(Ok(report))) matches Ok(Ok(shown)) && {
            &&& shown.world == report.world
            &&& shown.camera == report.camera
            &&& shown.pawn == report.pawn.deep_view()
            &&& shown.found == report.found
            &&& shown.actor_count == report.actor_count
            &&& shown.actors == report.actors.deep_view()
            &&& shown.local_name == report.local_name.deep_view()
            &&& shown.players == report.players.deep_view()
        },
        crate::esp::probe::probe_shown(Ok(Err(failure))) matches Ok(Err(shown)) && shown == failure,
        crate::esp::probe::probe_shown(Err(read)) matches Err(shown) && shown == read,
        crate::esp::probe::start_shown(Ok(Ok(start))) matches Ok(Ok(shown)) && shown.actors_off
            == start.actors_off && shown.local_name == start.local_name@,
        crate::esp::probe::start_shown(Ok(Err(failure))) matches Ok(Err(shown)) && shown == failure,
        crate::esp::probe::start_shown(Err(read)) matches Err(shown) && shown == read,
{
}

/// A hit of a search is shown field by field.
pub proof fn lemma_hits_are_shown(hit: ObjectHit)
    ensures
        hit.deep_view().addr == hit.addr,
        hit.deep_view().class_addr == hit.class_addr,
        hit.deep_view().class_name == hit.class_name@,
        hit.deep_view().full == hit.full@,
{
}

/// What a stride shows and a near miss are shown field by field.
pub proof fn lemma_near_misses_are_shown(s: StrideResult, n: NearMiss)
    ensures
        s.deep_view().stride == s.stride,
        s.deep_view().valid == s.valid,
        s.deep_view().unique == s.unique,
        s.deep_view().known == s.known,
        s.deep_view().samples == s.samples.deep_view(),
        n.deep_view().addr == n.addr,
        n.deep_view().base_off == n.base_off,
        n.deep_view().num_elements == n.num_elements,
        n.deep_view().chunks_ptr == n.chunks_ptr,
        n.deep_view().chunk0 == n.chunk0,
        n.deep_view().stride_results == n.stride_results.deep_view(),
        match n.chunk0_preview {
            Some(bytes) => n.deep_view().chunk0_preview == Some(bytes@),
            None => n.deep_view().chunk0_preview is None,
        },
{
}

/// A verdict, the end of a search and the end of a scan are shown as what they are.
pub proof fn lemma_scans_are_shown(
    verdict: Validation,
    search: GObjectsSearch,
    failure: ScanFailure,
    found: ScanResults,
    read: Missing,
)
    ensures
        match verdict {
            Validation::Valid { effective_addr, stride } => verdict.deep_view() == (
            ValidationView::Valid { effective_addr, stride }),
            Validation::NearMiss(miss) => verdict.deep_view() == ValidationView::NearMiss(
                miss.deep_view(),
            ),
            Validation::Reject => verdict.deep_view() is Reject,
        },
        match search {
            GObjectsSearch::Found { addr, layout } => search.deep_view() == (SearchView::Found {
                addr,
                stride: layout.fuobject_item_size,
            }),
            GObjectsSearch::NotFound(misses) => search.deep_view() == SearchView::NotFound(
                misses.deep_view(),
            ),
        },
        match failure {
            ScanFailure::NoTextSection => failure.deep_view() is NoTextSection,
            ScanFailure::NoGNames => failure.deep_view() is NoGNames,
            ScanFailure::NoNamePool => failure.deep_view() is NoNamePool,
            ScanFailure::BadNamePool => failure.deep_view() is BadNamePool,
            ScanFailure::NoGObjects(misses) => failure.deep_view() == FailureView::NoGObjects(
                misses.deep_view(),
            ),
            ScanFailure::NoGWorld => failure.deep_view() is NoGWorld,
        },
        crate::scanner::scan_shown(Ok(Ok(found))) == Ok::<
            Result<ScanResults, FailureView>,
            Missing,
        >(Ok(found)),
        crate::scanner::scan_shown(Ok(Err(failure))) == Ok::<
            Result<ScanResults, FailureView>,
            Missing,
        >(Err(failure.deep_view())),
        crate::scanner::scan_shown(Err(read)) == Err::<Result<ScanResults, FailureView>, Missing>(
            read,
        ),
{
}

} // verus!
