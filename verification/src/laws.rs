//! Promises that span the operations of a document.
use crate::document::{
    lemma_begun, lemma_gathered, lemma_prolonged, lemma_shown_positions,
};
use crate::effects::EffectGraphModel;
use crate::geometry::{lemma_rank_of_key, Bounds, CanvasSize, LayerId, TileKey, TileSpan};
use crate::spatial::{covering_segments, numbered, with_entry, TileEntryModel};
use crate::state::{drawn_apart, CoverageModel, DocumentModel};
use crate::strokes::{
    BrushProfile, CommandModel, LayerModel, StrokeId, StrokePoint, StrokeState,
};
use vstd::prelude::*;

verus! {

/// Whether the geometry of `after` starts with that of `before`.
pub open spec fn geometry_extends(before: DocumentModel, after: DocumentModel) -> bool {
    &&& before.points.is_prefix_of(after.points)
    &&& before.segments.is_prefix_of(after.segments)
}

/// Geometry is append-only: contacts add points and segments at the end, and no
/// command removes or rewrites any.
pub proof fn law_geometry_is_append_only(
    document: DocumentModel,
    id: StrokeId,
    point: StrokePoint,
    reach: Bounds,
    profile: BrushProfile,
    coverage: CoverageModel,
    all_coverage: Seq<CoverageModel>,
    size: CanvasSize,
    number: u32,
    effects: EffectGraphModel,
    name: Seq<char>,
    layer: LayerId,
    position: usize,
    ready: Set<usize>,
)
    ensures
        geometry_extends(document, document.begun(point, reach, profile)),
        geometry_extends(document, document.extended(id, point, reach)),
        geometry_extends(document, document.ended(id, coverage)),
        geometry_extends(document, document.cleared()),
        geometry_extends(document, document.undone()),
        geometry_extends(document, document.redone()),
        geometry_extends(document, document.resized(size)),
        geometry_extends(document, document.device_lost()),
        geometry_extends(document, document.layout_changed()),
        geometry_extends(document, document.tiles_resized(number, all_coverage)),
        geometry_extends(document, document.radius_changed(number, all_coverage)),
        geometry_extends(document, document.effects_replaced(effects)),
        geometry_extends(document, document.layer_added(name)),
        geometry_extends(document, document.layer_moved(layer, position)),
        geometry_extends(document, document.handed_over(ready)),
{
}

/// Whether every stroke of `before` is still there with its identity, layer and
/// brush, and with the same points and segments.
pub open spec fn strokes_kept(before: DocumentModel, after: DocumentModel) -> bool {
    &&& before.strokes.len() <= after.strokes.len()
    &&& forall|i: int|
        0 <= i < before.strokes.len() ==> {
            let old_stroke = #[trigger] before.strokes[i];
            let new_stroke = after.strokes[i];
            &&& new_stroke.id == old_stroke.id
            &&& new_stroke.first_point == old_stroke.first_point
            &&& new_stroke.point_count == old_stroke.point_count
            &&& new_stroke.first_segment == old_stroke.first_segment
            &&& new_stroke.segment_count == old_stroke.segment_count
            &&& new_stroke.layer == old_stroke.layer
            &&& new_stroke.brush == old_stroke.brush
        }
}

/// Stroke identities and their point and segment ranges are stable: undo, redo
/// and all other commands keep them, and so do other contacts.
pub proof fn law_strokes_keep_their_ranges(
    document: DocumentModel,
    id: StrokeId,
    point: StrokePoint,
    reach: Bounds,
    profile: BrushProfile,
    coverage: CoverageModel,
    all_coverage: Seq<CoverageModel>,
    size: CanvasSize,
    number: u32,
    effects: EffectGraphModel,
    name: Seq<char>,
    layer: LayerId,
    position: usize,
    ready: Set<usize>,
)
    requires
        document.well_formed(),
    ensures
        strokes_kept(document, document.undone()),
        strokes_kept(document, document.redone()),
        strokes_kept(document, document.begun(point, reach, profile)),
        document.active.contains_key(id.0) ==> strokes_kept(
            document,
            document.ended(id, coverage),
        ),
        strokes_kept(document, document.cleared()),
        strokes_kept(document, document.resized(size)),
        strokes_kept(document, document.device_lost()),
        strokes_kept(document, document.layout_changed()),
        strokes_kept(document, document.tiles_resized(number, all_coverage)),
        strokes_kept(document, document.radius_changed(number, all_coverage)),
        strokes_kept(document, document.effects_replaced(effects)),
        strokes_kept(document, document.layer_added(name)),
        strokes_kept(document, document.layer_moved(layer, position)),
        strokes_kept(document, document.handed_over(ready)),
        document.active.contains_key(id.0) ==> {
            let after = document.extended(id, point, reach);
            &&& after.strokes.len() == document.strokes.len()
            &&& forall|i: int|
                0 <= i < document.strokes.len() && i != document.active[id.0].metadata_index
                    ==> #[trigger] after.strokes[i] == document.strokes[i]
        },
{
}

/// A new edit leaves nothing to redo.
pub proof fn law_new_edits_discard_redo(
    document: DocumentModel,
    id: StrokeId,
    coverage: CoverageModel,
    size: CanvasSize,
    name: Seq<char>,
    layer: LayerId,
    position: usize,
    change: spec_fn(LayerModel) -> LayerModel,
    command: CommandModel,
)
    ensures
        document.ended(id, coverage).redo.len() == 0,
        document.resized(size).redo.len() == 0,
        document.layer_added(name).redo.len() == 0,
        document.layer_moved(layer, position).redo.len() == 0,
        document.layer_edited(layer, change, command).redo.len() == 0,
        document.cleared().undo != document.undo ==> document.cleared().redo.len() == 0,
{
}

/// A sample equal to the latest point of its contact changes nothing, and
/// neither does a sample of a contact that is not active.
pub proof fn law_duplicate_samples_do_not_extend(
    document: DocumentModel,
    id: StrokeId,
    point: StrokePoint,
)
    requires
        !document.active.contains_key(id.0) || document.points[document.active[id.0].last_point as int].same_number(
            point,
        ),
    ensures
        !document.extends(id, point),
{
}

/// Each new segment of a contact bridges its previous point and its new one.
pub proof fn law_segments_bridge_the_tip(
    document: DocumentModel,
    id: StrokeId,
    point: StrokePoint,
    reach: Bounds,
)
    requires
        document.well_formed(),
        document.has_room(id),
        document.active.contains_key(id.0),
    ensures
        ({
            let after = document.extended(id, point, reach);
            let segment = after.segments.last();
            &&& after.points[segment.start as int]
                == document.points[document.active[id.0].last_point as int]
            &&& segment.end == after.points.len() - 1
            &&& after.points[segment.end as int] == point
            &&& after.active[id.0].last_point == segment.end
            &&& segment.layer
                == document.strokes[document.active[id.0].metadata_index as int].layer
        }),
{
    let i = document.active[id.0].metadata_index as int;
    let stroke = document.strokes[i];
    assert(document.stroke_in_range(stroke));
    assert(document.owns_geometry(stroke));
    let gathered = document.gathered(id);
    if !document.drawn_last(i) {
        let copied = document.points.subrange(
            stroke.first_point as int,
            stroke.first_point + stroke.point_count,
        );
        assert(gathered.points[gathered.active[id.0].last_point as int]
            == copied[stroke.point_count - 1]);
    }
}

/// Every editing command advances the revision; zero is never reached.
pub proof fn law_edits_advance_the_revision(
    document: DocumentModel,
    id: StrokeId,
    coverage: CoverageModel,
    size: CanvasSize,
    name: Seq<char>,
)
    ensures
        document.next_revision() != 0,
        document.revision < u64::MAX ==> document.next_revision() > document.revision,
        document.ended(id, coverage).revision == document.next_revision(),
        document.resized(size).revision == document.next_revision(),
        document.undone().revision == document.next_revision(),
        document.redone().revision == document.next_revision(),
        document.device_lost().revision == document.next_revision(),
        document.layout_changed().revision == document.next_revision(),
        document.layer_added(name).revision == document.next_revision(),
        document.cleared().undo.len() > document.undo.len() ==> document.cleared().revision
            == document.next_revision(),
{
}

/// Taking back and repeating commands does not send the history through the
/// overlay: at most the one stroke of the command joins it, and strokes that a clear
/// took away come back without it.
pub proof fn law_history_never_expands_the_overlay(document: DocumentModel, i: usize)
    ensures
        document.undo.len() > 0 ==> document.undone().overlay.subset_of(document.overlay),
        document.redo.len() > 0 && document.redone().overlay.contains(i)
            && !document.overlay.contains(i) ==> document.redo.last()
            == CommandModel::AddStroke(i),
{
    if document.redo.len() > 0 {
        match document.redo.last() {
            CommandModel::AddStroke(index) => {
                if seq![index].contains(i) {
                    assert(i == index);
                }
            },
            _ => {},
        }
    }
}

/// Whether `after` keeps the invalidations of `before`, and none of the new ones lets
/// stale tiles be shown.
pub open spec fn hides_stale_tiles(before: DocumentModel, after: DocumentModel) -> bool {
    &&& before.invalidations.is_prefix_of(after.invalidations)
    &&& forall|k: int|
        before.invalidations.len() <= k < after.invalidations.len()
            ==> !(#[trigger] after.invalidations[k]).allow_stale_display
}

/// Undo, redo, clear, resizing and device recovery hide stale tiles: what they show is
/// no longer part of the picture.
pub proof fn law_history_hides_stale_tiles(document: DocumentModel, size: CanvasSize)
    ensures
        hides_stale_tiles(document, document.undone()),
        hides_stale_tiles(document, document.redone()),
        hides_stale_tiles(document, document.cleared()),
        hides_stale_tiles(document, document.resized(size)),
        hides_stale_tiles(document, document.device_lost()),
{
}

/// Points in the range of a stroke.
pub open spec fn ink(document: DocumentModel, i: int) -> Seq<StrokePoint> {
    let stroke = document.strokes[i];
    document.points.subrange(
        stroke.first_point as int,
        stroke.first_point + stroke.point_count,
    )
}

/// Whether the range of a stroke holds exactly the points, in order, and the segments that
/// join them: the dot of the first, then one from each to the next.
pub open spec fn holds_ink(document: DocumentModel, i: int, points: Seq<StrokePoint>) -> bool {
    let stroke = document.strokes[i];
    &&& stroke.point_count == points.len()
    &&& ink(document, i) == points
    &&& document.owns_geometry(stroke)
}

/// Each contact owns one range of points and segments, and never shares it: a further
/// sample joins the range of its contact, behind what the contact drew before, and leaves
/// the ranges of all other strokes alone, be they drawn at the same time or not.
pub proof fn law_contacts_keep_ranges_of_their_own(
    document: DocumentModel,
    id: StrokeId,
    point: StrokePoint,
    reach: Bounds,
)
    requires
        document.well_formed(),
        document.active.contains_key(id.0),
        document.has_room(id),
    ensures
        ({
            let i = document.active[id.0].metadata_index as int;
            let after = document.extended(id, point, reach);
            &&& after.well_formed()
            &&& holds_ink(document, i, ink(document, i))
            &&& holds_ink(after, i, ink(document, i).push(point))
            &&& forall|j: int|
                0 <= j < document.strokes.len() && j != i ==> {
                    &&& (#[trigger] after.strokes[j]) == document.strokes[j]
                    &&& ink(after, j) == ink(document, j)
                    &&& drawn_apart(after.strokes[i], after.strokes[j])
                }
            &&& document.segments.is_prefix_of(after.segments)
        }),
{
    let i = document.active[id.0].metadata_index as int;
    let gathered = document.gathered(id);
    let after = document.extended(id, point, reach);
    let (old_stroke, stroke) = (document.strokes[i], after.strokes[i]);
    lemma_gathered(document, id);
    lemma_prolonged(gathered, id, point, reach);
    assert(document.stroke_in_range(old_stroke));
    assert(document.owns_geometry(old_stroke));
    assert(after.active.contains_key(id.0) && after.owns_geometry(stroke));
    assert(ink(gathered, i) =~= ink(document, i)) by {
        if !document.drawn_last(i) {
            assert(gathered.points.subrange(
                document.points.len() as int,
                document.points.len() + old_stroke.point_count,
            ) =~= document.points.subrange(
                old_stroke.first_point as int,
                old_stroke.first_point + old_stroke.point_count,
            ));
        }
    }
    assert(ink(after, i) =~= ink(gathered, i).push(point));
    assert forall|j: int| 0 <= j < document.strokes.len() && j != i implies {
        &&& (#[trigger] after.strokes[j]) == document.strokes[j]
        &&& ink(after, j) == ink(document, j)
        &&& drawn_apart(after.strokes[i], after.strokes[j])
    } by {
        assert(document.stroke_in_range(document.strokes[j]));
        assert(gathered.points.subrange(0, document.points.len() as int) =~= document.points);
        assert(ink(after, j) =~= ink(document, j)) by {
            let other = document.strokes[j];
            assert forall|n: int|
                other.first_point <= n < other.first_point
                    + other.point_count implies after.points[n] == document.points[n] by {
                assert(gathered.points[n] == document.points[n]);
            }
        }
        assert(!after.strokes[i].complete);
    }
    assert(document.segments =~= after.segments.subrange(0, document.segments.len() as int)) by {
        assert(document.segments =~= gathered.segments.subrange(
            0,
            document.segments.len() as int,
        ));
        assert forall|s: int| 0 <= s < document.segments.len() implies after.segments[s]
            == document.segments[s] by {
            assert(gathered.segments[s] == document.segments[s]);
        }
    }
}

/// Two contacts that draw together: after the second began, a further sample of the first
/// gives it two points and two segments in one piece, and the second keeps its dot.
pub proof fn law_contacts_drawn_together_stay_apart(
    document: DocumentModel,
    first: StrokePoint,
    second: StrokePoint,
    third: StrokePoint,
    reaches: (Bounds, Bounds, Bounds),
    profiles: (BrushProfile, BrushProfile),
)
    requires
        document.well_formed(),
        document.points.len() + 2 < u32::MAX,
        document.segments.len() + 2 < u32::MAX,
        document.strokes.len() + 2 <= usize::MAX,
    ensures
        ({
            let one = document.strokes.len() as int;
            let other = one + 1;
            let begun = document.begun(first, reaches.0, profiles.0).begun(
                second,
                reaches.1,
                profiles.1,
            );
            let after = begun.extended(StrokeId(document.next_stroke), third, reaches.2);
            &&& after.well_formed()
            &&& after.strokes[one].id == StrokeId(document.next_stroke)
            &&& holds_ink(after, one, seq![first, third])
            &&& holds_ink(after, other, seq![second])
            &&& drawn_apart(after.strokes[one], after.strokes[other])
        }),
{
    let one = document.strokes.len() as int;
    let other = one + 1;
    let id = StrokeId(document.next_stroke);
    let half = document.begun(first, reaches.0, profiles.0);
    lemma_begun(document, first, reaches.0, profiles.0);
    let begun = half.begun(second, reaches.1, profiles.1);
    lemma_begun(half, second, reaches.1, profiles.1);
    assert(half.next_stroke != document.next_stroke);
    assert(begun.active.contains_key(id.0));
    assert(begun.active[id.0].metadata_index == one);
    law_contacts_keep_ranges_of_their_own(begun, id, third, reaches.2);
    let after = begun.extended(id, third, reaches.2);
    assert(ink(begun, one) =~= seq![first]);
    assert(seq![first].push(third) =~= seq![first, third]);
    assert(ink(begun, other) =~= seq![second]);
    assert(after.strokes[other] == begun.strokes[other]);
    assert(begun.segments == after.segments.subrange(0, begun.segments.len() as int));
    assert(after.active.contains_key(half.next_stroke));
    assert(after.owns_geometry(after.strokes[other]));
}

/// Nothing is visible after clearing: contacts are over, and every stroke is complete and
/// hidden.
pub proof fn law_clearing_hides_every_stroke(document: DocumentModel)
    requires
        document.well_formed(),
        document.strokes.len() <= usize::MAX,
    ensures
        document.cleared().active.is_empty(),
        document.cleared().strokes.len() == document.strokes.len(),
        forall|i: int|
            0 <= i < document.strokes.len() ==> (#[trigger] document.cleared().strokes[i]).complete
                && !document.cleared().strokes[i].visible,
{
    let idle = document.contacts_abandoned();
    lemma_shown_positions(idle, idle.strokes.len());
    assert forall|i: int| 0 <= i < document.strokes.len() implies (
    #[trigger] document.cleared().strokes[i]).complete && !document.cleared().strokes[i].visible by {
        if !document.strokes[i].complete {
            assert(document.is_contact(i));
            assert(document.contact_at(i));
        }
        assert(idle.strokes[i].complete);
    }
}

/// Device recovery never moves completed strokes into the live overlay: the
/// overlay only shrinks, and every shown stroke waits for the tile cache.
pub proof fn law_device_recovery_never_expands_the_overlay(document: DocumentModel)
    ensures
        document.device_lost().overlay.subset_of(document.overlay),
        forall|i: int|
            0 <= i < document.strokes.len() && (#[trigger] document.strokes[i]).visible
                && document.strokes[i].complete ==> {
                &&& document.device_lost().strokes[i].state == StrokeState::PendingCache
                &&& document.device_lost().strokes[i].revision == document.next_revision()
                &&& i <= usize::MAX ==> !document.device_lost().overlay.contains(i as usize)
            },
        document.device_lost().undo == document.undo,
        document.device_lost().redo == document.redo,
{
}

/// Segments that cover a tile are listed in ascending order, each once.
pub proof fn lemma_covering_segments(
    spans: Seq<TileSpan>,
    first: u32,
    count: nat,
    x: i32,
    y: i32,
)
    requires
        count <= spans.len(),
        first + count <= u32::MAX + 1,
    ensures
        forall|k: int|
            0 <= k < covering_segments(spans, first, count, x, y).len() ==> {
                let segment = #[trigger] covering_segments(spans, first, count, x, y)[k];
                &&& first <= segment < first + count
                &&& spans[segment - first].covers(x, y)
            },
        forall|s: int|
            0 <= s < count && (#[trigger] spans[s]).covers(x, y) ==> covering_segments(
                spans,
                first,
                count,
                x,
                y,
            ).contains((first + s) as u32),
        forall|a: int, b: int|
            0 <= a < b < covering_segments(spans, first, count, x, y).len() ==> (
            #[trigger] covering_segments(spans, first, count, x, y)[a]) < (
            #[trigger] covering_segments(spans, first, count, x, y)[b]),
    decreases count,
{
    if count > 0 {
        lemma_covering_segments(spans, first, (count - 1) as nat, x, y);
        let before = covering_segments(spans, first, (count - 1) as nat, x, y);
        let all = covering_segments(spans, first, count, x, y);
        assert forall|s: int| 0 <= s < count && (#[trigger] spans[s]).covers(
            x,
            y,
        ) implies all.contains((first + s) as u32) by {
            if s < count - 1 {
                let k = choose|k: int| 0 <= k < before.len() && before[k] == (first + s) as u32;
                assert(all[k] == (first + s) as u32);
            } else {
                assert(all[all.len() - 1] == (first + s) as u32);
            }
        }
    }
}

/// The spatial index holds of a completed stroke exactly the segments that
/// reach a tile, and leaves the entries of other strokes alone.
pub proof fn law_index_holds_only_local_segments(
    document: DocumentModel,
    id: StrokeId,
    coverage: CoverageModel,
    key: TileKey,
)
    requires
        document.well_formed(),
        document.active.contains_key(id.0),
        document.covers_stroke(document.active[id.0].metadata_index as int, coverage),
    ensures
        ({
            let index = document.active[id.0].metadata_index;
            let stroke = document.strokes[index as int];
            let count = numbered(stroke.first_segment, coverage.segments.len());
            let before = document.tile_entries(key);
            let after = document.ended(id, coverage).tile_entries(key);
            let hits = covering_segments(
                coverage.segments,
                stroke.first_segment,
                count,
                key.x,
                key.y,
            );
            &&& if key.layer == stroke.layer && hits.len() > 0 {
                after == with_entry(
                    before,
                    TileEntryModel { stroke_index: index, segments: hits },
                )
            } else {
                after == before
            }
            &&& forall|s: int|
                0 <= s < count ==> ((#[trigger] coverage.segments[s]).covers(key.x, key.y)
                    <==> hits.contains((stroke.first_segment + s) as u32))
        }),
{
    let index = document.active[id.0].metadata_index;
    let stroke = document.strokes[index as int];
    let count = numbered(stroke.first_segment, coverage.segments.len());
    lemma_rank_of_key(key);
    lemma_covering_segments(coverage.segments, stroke.first_segment, count, key.x, key.y);
    let hits = covering_segments(
        coverage.segments,
        stroke.first_segment,
        count,
        key.x,
        key.y,
    );
    assert forall|s: int| 0 <= s < count implies ((#[trigger] coverage.segments[s]).covers(
        key.x,
        key.y,
    ) <==> hits.contains((stroke.first_segment + s) as u32)) by {
        if hits.contains((stroke.first_segment + s) as u32) {
            let k = choose|k: int|
                0 <= k < hits.len() && hits[k] == (stroke.first_segment + s) as u32;
            assert(coverage.segments[hits[k] - stroke.first_segment].covers(key.x, key.y));
        }
    }
}

/// A stroke that is handed over leaves the overlay and counts as cached; all others
/// stay in the overlay.
pub proof fn law_handover_retires_the_overlay(
    document: DocumentModel,
    ready: Set<usize>,
    i: usize,
)
    requires
        ready.contains(i),
        i < document.strokes.len(),
    ensures
        !document.handed_over(ready).overlay.contains(i),
        document.handed_over(ready).strokes[i as int].state == StrokeState::Cached,
        forall|j: usize|
            document.overlay.contains(j) && !ready.contains(j)
                ==> #[trigger] document.handed_over(ready).overlay.contains(j),
{
}

} // verus!
