//! What commands on a document do to its strokes, layers and tiles.
use crate::geometry::{lemma_span_tiles, Bounds, CanvasSize, LayerId, TileKey, Vector};
use crate::geometry_laws::{comes_before, lies_within, measured, no_number, reaches_around};
use crate::layers::{
    distinct_layers, has_layer, layer_position, lemma_layer_found, lemma_layer_position,
};
use crate::laws::law_contacts_keep_ranges_of_their_own;
use crate::maintenance::lemma_affected_finitely;
use crate::ordered::{ascending, lemma_listing_exists};
use crate::scalar::Scalar;
use crate::state::{
    affected_ranks, completed_in, keys_of, listed_in, CoverageModel, DocumentModel,
};
use crate::strokes::{
    BrushProfile, CommandModel, LayerModel, StrokeId, StrokeModel, StrokePoint, StrokeState,
    TileInvalidationCause,
};
use vstd::prelude::*;

verus! {

/// Whether a change of a document leaves its layers, canvas, history, effects and recipes
/// alone.
pub open spec fn rest_kept(before: DocumentModel, after: DocumentModel) -> bool {
    &&& after.layers == before.layers
    &&& after.active_layer == before.active_layer
    &&& after.next_layer == before.next_layer
    &&& after.canvas_size == before.canvas_size
    &&& after.effects == before.effects
    &&& after.materials == before.materials
    &&& after.tile_size == before.tile_size
    &&& after.effect_radius_px == before.effect_radius_px
    &&& after.geometry_generation == before.geometry_generation
    &&& after.contact_generation == before.contact_generation
}

/// Whether a segment joins two points with the paint, the mode and the layer of a stroke.
pub open spec fn joins(
    document: DocumentModel,
    segment: int,
    start: int,
    end: int,
    brush: BrushProfile,
    layer: LayerId,
) -> bool {
    let drawn = document.segments[segment];
    &&& drawn.start == start
    &&& drawn.end == end
    &&& drawn.model == brush.paint.model
    &&& drawn.material == brush.paint.material
    &&& drawn.deposition == brush.deposition
    &&& drawn.layer == layer
}

/// A stroke begins as a dot at the sample, with the brush that is held and on the layer that
/// is selected. It is shown by the overlay, and nothing else changes.
pub proof fn law_strokes_begin_as_a_dot(
    document: DocumentModel,
    point: StrokePoint,
    reach: Bounds,
    profile: BrushProfile,
)
    requires
        document.points.len() <= u32::MAX,
        document.segments.len() <= u32::MAX,
        document.strokes.len() < usize::MAX,
    ensures
        ({
            let after = document.begun(point, reach, profile);
            let i = document.strokes.len() as int;
            let stroke = after.strokes[i];
            &&& after.strokes.len() == i + 1
            &&& forall|j: int|
                0 <= j < i ==> #[trigger] after.strokes[j] == document.strokes[j]
            &&& stroke.id.0 == document.next_stroke
            &&& after.next_stroke != document.next_stroke
            &&& stroke.brush == profile
            &&& stroke.layer == document.active_layer
            &&& stroke.bounds == reach
            &&& stroke.visible && !stroke.complete
            &&& stroke.state == StrokeState::Active
            &&& stroke.affected_tiles.len() == 0
            &&& stroke.point_count == 1 && stroke.segment_count == 1
            &&& after.points.len() == document.points.len() + 1
            &&& after.points[stroke.first_point as int] == point
            &&& after.segments.len() == document.segments.len() + 1
            &&& stroke.first_segment == document.segments.len()
            &&& joins(
                after,
                stroke.first_segment as int,
                stroke.first_point as int,
                stroke.first_point as int,
                profile,
                document.active_layer,
            )
            &&& after.overlay.contains(i as usize)
            &&& after.lookup[document.next_stroke] == i
            &&& after.active.contains_key(document.next_stroke)
            &&& after.active[document.next_stroke].metadata_index == i
            &&& after.undo == document.undo && after.redo == document.redo
            &&& after.revision == document.revision
            &&& after.invalidations == document.invalidations
            &&& rest_kept(document, after)
        }),
{
}

/// A sample makes a stroke longer by a point and by a segment from its tip to the point, of
/// the same brush and layer, and widens its bounds to hold what they held and the reach of
/// the sample. History, tiles and the rest of the document stay as they are.
pub proof fn law_samples_lengthen_a_stroke(
    document: DocumentModel,
    id: StrokeId,
    point: StrokePoint,
    reach: Bounds,
    within: Vector,
)
    requires
        document.well_formed(),
        document.active.contains_key(id.0),
        document.has_room(id),
        measured(document.strokes[document.active[id.0].metadata_index as int].bounds),
        measured(reach),
    ensures
        ({
            let i = document.active[id.0].metadata_index as int;
            let after = document.extended(id, point, reach);
            let (before, stroke) = (document.strokes[i], after.strokes[i]);
            &&& stroke.point_count == before.point_count + 1
            &&& stroke.segment_count == before.segment_count + 1
            &&& stroke.id == before.id && stroke.brush == before.brush && stroke.layer
                == before.layer
            &&& stroke.visible == before.visible && stroke.complete == before.complete
            &&& stroke.state == before.state
            &&& after.points[stroke.first_point + stroke.point_count - 1] == point
            &&& joins(
                after,
                stroke.first_segment + stroke.segment_count - 1,
                stroke.first_point + stroke.point_count - 2,
                stroke.first_point + stroke.point_count - 1,
                before.brush,
                before.layer,
            )
            &&& measured(stroke.bounds)
            &&& reaches_around(stroke.bounds, before.bounds)
            &&& reaches_around(stroke.bounds, reach)
            &&& lies_within(within, before.bounds) || lies_within(within, reach) ==> lies_within(
                within,
                stroke.bounds,
            )
            &&& after.undo == document.undo && after.redo == document.redo
            &&& after.revision == document.revision
            &&& after.overlay == document.overlay
            &&& after.invalidations == document.invalidations
            &&& rest_kept(document, after)
        }),
{
    law_contacts_keep_ranges_of_their_own(document, id, point, reach);
    let i = document.active[id.0].metadata_index as int;
    let gathered = document.gathered(id);
    let after = document.extended(id, point, reach);
    let stroke = after.strokes[i];
    assert(document.stroke_in_range(document.strokes[i]));
    assert(document.owns_geometry(document.strokes[i]));
    crate::document::lemma_gathered(document, id);
    assert(gathered.owns_geometry(gathered.strokes[i]));
    assert(after.segments[gathered.segments.len() as int] == after.segments.last());
}

/// The document after a contact moved on over samples, each with its reach.
pub open spec fn moved_over(
    document: DocumentModel,
    id: StrokeId,
    samples: Seq<(StrokePoint, Bounds)>,
) -> DocumentModel
    decreases samples.len(),
{
    if samples.len() == 0 {
        document
    } else {
        moved_over(document, id, samples.drop_last()).extended(
            id,
            samples.last().0,
            samples.last().1,
        )
    }
}

/// The bounds of a stroke enclose, on both axes, the reach of every sample that was appended
/// to it, and what they enclosed before.
pub proof fn law_bounds_enclose_the_reach_of_every_sample(
    document: DocumentModel,
    id: StrokeId,
    samples: Seq<(StrokePoint, Bounds)>,
)
    requires
        document.active.contains_key(id.0),
        document.active[id.0].metadata_index < document.strokes.len(),
        measured(document.strokes[document.active[id.0].metadata_index as int].bounds),
        forall|k: int| 0 <= k < samples.len() ==> measured((#[trigger] samples[k]).1),
    ensures
        ({
            let i = document.active[id.0].metadata_index as int;
            let after = moved_over(document, id, samples);
            let bounds = after.strokes[i].bounds;
            &&& after.active.contains_key(id.0)
            &&& after.active[id.0].metadata_index == i
            &&& after.strokes.len() == document.strokes.len()
            &&& measured(bounds)
            &&& reaches_around(bounds, document.strokes[i].bounds)
            &&& forall|k: int|
                0 <= k < samples.len() ==> reaches_around(bounds, (#[trigger] samples[k]).1)
        }),
    decreases samples.len(),
{
    if samples.len() > 0 {
        let i = document.active[id.0].metadata_index as int;
        let early = samples.drop_last();
        assert forall|k: int| 0 <= k < early.len() implies measured((#[trigger] early[k]).1) by {
            assert(early[k] == samples[k]);
        }
        law_bounds_enclose_the_reach_of_every_sample(document, id, early);
        let before = moved_over(document, id, early);
        let last = samples.last();
        assert(measured(samples[samples.len() - 1].1));
        let after = before.extended(id, last.0, last.1);
        assert(after.strokes[i].bounds == before.strokes[i].bounds.joined(last.1));
        let bounds = after.strokes[i].bounds;
        assert forall|k: int| 0 <= k < samples.len() implies reaches_around(
            bounds,
            (#[trigger] samples[k]).1,
        ) by {
            if k < early.len() {
                assert(early[k] == samples[k]);
                assert(measured(early[k].1));
            }
        }
    }
}

/// Whether a tile is reported stale by the latest change, at the revision it led to.
pub open spec fn reported(
    before: DocumentModel,
    after: DocumentModel,
    key: TileKey,
    stale: bool,
) -> bool {
    exists|n: int|
        {
            &&& before.invalidations.len() <= n < after.invalidations.len()
            &&& (#[trigger] after.invalidations[n]).key == key
            &&& after.invalidations[n].revision == after.revision
            &&& after.invalidations[n].allow_stale_display == stale
            &&& after.invalidations[n].halo_radius_px == after.effect_radius_px
        }
}

/// Whether earlier reports are still there, and every later one is for a tile of some kind.
pub open spec fn reports_only(
    before: DocumentModel,
    after: DocumentModel,
    wanted: spec_fn(TileKey) -> bool,
) -> bool {
    &&& before.invalidations.len() <= after.invalidations.len()
    &&& forall|n: int|
        0 <= n < before.invalidations.len() ==> #[trigger] after.invalidations[n]
            == before.invalidations[n]
    &&& forall|n: int|
        before.invalidations.len() <= n < after.invalidations.len() ==> wanted(
            (#[trigger] after.invalidations[n]).key,
        )
}

/// Whether a completed stroke of the document reaches the tile.
pub open spec fn inked(strokes: Seq<StrokeModel>) -> spec_fn(TileKey) -> bool {
    |key: TileKey|
        exists|i: int|
            0 <= i < strokes.len() && strokes[i].complete && (
            #[trigger] strokes[i]).affected_tiles.contains(key)
}

/// Whether one of the listed strokes reaches the tile.
pub open spec fn inked_by(strokes: Seq<StrokeModel>, indices: Seq<usize>) -> spec_fn(
    TileKey,
) -> bool {
    |key: TileKey|
        exists|k: int|
            0 <= k < indices.len() && strokes[(#[trigger] indices[k]) as int]
                .affected_tiles.contains(key)
}

/// The keys of affected tiles are those that a listed stroke affects.
proof fn lemma_keys_of_affected(
    strokes: Seq<StrokeModel>,
    listed: spec_fn(int) -> bool,
    key: TileKey,
)
    ensures
        keys_of(affected_ranks(strokes, listed)).contains(key) <==> exists|i: int|
            0 <= i < strokes.len() && listed(i) && (#[trigger] strokes[i]).affected_tiles.contains(
                key,
            ),
{
    let ranks = affected_ranks(strokes, listed);
    let keys = keys_of(ranks);
    lemma_affected_finitely(strokes, listed);
    lemma_listing_exists(ranks);
    crate::geometry::lemma_rank_of_key(key);
    if keys.contains(key) {
        let n = choose|n: int| 0 <= n < keys.len() && keys[n] == key;
        let rank = ascending(ranks)[n];
        assert(ascending(ranks).contains(rank));
        assert(ranks.contains(rank));
        let (i, k) = choose|i: int, k: int|
            0 <= i < strokes.len() && listed(i) && 0 <= k < strokes[i].affected_tiles.len()
                && (#[trigger] strokes[i].affected_tiles[k]).spec_rank() == rank;
        crate::geometry::lemma_rank_of_key(strokes[i].affected_tiles[k]);
        assert(strokes[i].affected_tiles[k] == key);
        assert(strokes[i].affected_tiles.contains(key));
    }
    if exists|i: int|
        0 <= i < strokes.len() && listed(i) && (#[trigger] strokes[i]).affected_tiles.contains(
            key,
        ) {
        let i = choose|i: int|
            0 <= i < strokes.len() && listed(i) && (#[trigger] strokes[i]).affected_tiles.contains(
                key,
            );
        let k = choose|k: int|
            0 <= k < strokes[i].affected_tiles.len() && strokes[i].affected_tiles[k] == key;
        assert(strokes[i].affected_tiles[k].spec_rank() == key.spec_rank());
        assert(ranks.contains(key.spec_rank()));
        let n = choose|n: int|
            0 <= n < ascending(ranks).len() && ascending(ranks)[n] == key.spec_rank();
        assert(keys[n] == key);
    }
}

/// Reporting all tiles reports those that completed strokes reach, and no others.
proof fn lemma_all_reported(document: DocumentModel, cause: TileInvalidationCause)
    ensures
        ({
            let after = document.invalidated_all(cause);
            &&& reports_only(document, after, inked(document.strokes))
            &&& forall|key: TileKey| #[trigger]
                inked(document.strokes)(key) ==> reported(document, after, key, false)
        }),
{
    let after = document.invalidated_all(cause);
    let listed = completed_in(document.strokes);
    let keys = keys_of(affected_ranks(document.strokes, listed));
    let old_count = document.invalidations.len() as int;
    assert forall|n: int| old_count <= n < after.invalidations.len() implies inked(
        document.strokes,
    )((#[trigger] after.invalidations[n]).key) by {
        let key = keys[n - old_count];
        assert(after.invalidations[n].key == key);
        assert(keys.contains(key));
        lemma_keys_of_affected(document.strokes, listed, key);
        let i = choose|i: int|
            0 <= i < document.strokes.len() && listed(i) && (
            #[trigger] document.strokes[i]).affected_tiles.contains(key);
        assert(document.strokes[i].complete);
    }
    assert forall|key: TileKey| #[trigger] inked(document.strokes)(key) implies reported(
        document,
        after,
        key,
        false,
    ) by {
        lemma_keys_of_affected(document.strokes, listed, key);
        let i = choose|i: int|
            0 <= i < document.strokes.len() && document.strokes[i].complete && (
            #[trigger] document.strokes[i]).affected_tiles.contains(key);
        assert(listed(i));
        let n = choose|n: int| 0 <= n < keys.len() && keys[n] == key;
        assert(after.invalidations[old_count + n].key == key);
    }
}

/// Reporting the tiles of listed strokes reports those and no others.
proof fn lemma_listed_reported(
    document: DocumentModel,
    indices: Seq<usize>,
    cause: TileInvalidationCause,
)
    requires
        forall|k: int| 0 <= k < indices.len() ==> (#[trigger] indices[k]) < document.strokes.len(),
    ensures
        ({
            let after = document.invalidated_indices(indices, cause);
            &&& reports_only(document, after, inked_by(document.strokes, indices))
            &&& forall|key: TileKey| #[trigger]
                inked_by(document.strokes, indices)(key) ==> reported(
                    document,
                    after,
                    key,
                    false,
                )
        }),
{
    let after = document.invalidated_indices(indices, cause);
    let listed = listed_in(indices);
    let keys = keys_of(affected_ranks(document.strokes, listed));
    let old_count = document.invalidations.len() as int;
    assert forall|n: int| old_count <= n < after.invalidations.len() implies inked_by(
        document.strokes,
        indices,
    )((#[trigger] after.invalidations[n]).key) by {
        let key = keys[n - old_count];
        assert(after.invalidations[n].key == key);
        assert(keys.contains(key));
        lemma_keys_of_affected(document.strokes, listed, key);
        let i = choose|i: int|
            0 <= i < document.strokes.len() && listed(i) && (
            #[trigger] document.strokes[i]).affected_tiles.contains(key);
        let k = choose|k: int| 0 <= k < indices.len() && indices[k] == i as usize;
        assert(document.strokes[indices[k] as int].affected_tiles.contains(key));
    }
    assert forall|key: TileKey| #[trigger] inked_by(document.strokes, indices)(
        key,
    ) implies reported(document, after, key, false) by {
        lemma_keys_of_affected(document.strokes, listed, key);
        let k = choose|k: int|
            0 <= k < indices.len() && document.strokes[(#[trigger] indices[k]) as int]
                .affected_tiles.contains(key);
        let i = indices[k] as int;
        assert(indices.contains(i as usize));
        assert(listed(i));
        assert(document.strokes[i].affected_tiles.contains(key));
        let n = choose|n: int| 0 <= n < keys.len() && keys[n] == key;
        assert(after.invalidations[old_count + n].key == key);
    }
}

/// A contact that ends leaves a completed stroke that waits for the tile cache and stays in
/// the overlay until then. Exactly the tiles of its layer from the first to the last column
/// and row of its coverage count as affected and are reported stale, which may be shown
/// meanwhile. The completion can be undone.
pub proof fn law_completed_strokes_wait_for_their_tiles(
    document: DocumentModel,
    id: StrokeId,
    coverage: CoverageModel,
    key: TileKey,
)
    requires
        document.well_formed(),
        document.active.contains_key(id.0),
        document.strokes.len() <= usize::MAX,
    ensures
        ({
            let i = document.active[id.0].metadata_index;
            let after = document.ended(id, coverage);
            let (before, stroke) = (document.strokes[i as int], after.strokes[i as int]);
            let covered = key.layer == before.layer && coverage.affected.min_x <= key.x
                <= coverage.affected.max_x && coverage.affected.min_y <= key.y
                <= coverage.affected.max_y;
            &&& stroke.complete && stroke.visible == before.visible
            &&& stroke.state == StrokeState::PendingCache
            &&& stroke.revision == after.revision
            &&& stroke.affected_tiles.contains(key) == covered
            &&& covered ==> reported(document, after, key, true)
            &&& !covered ==> !reported(document, after, key, true) && !reported(
                document,
                after,
                key,
                false,
            )
            &&& stroke.id == before.id && stroke.layer == before.layer && stroke.brush
                == before.brush
            &&& stroke.first_point == before.first_point && stroke.point_count
                == before.point_count
            &&& stroke.first_segment == before.first_segment && stroke.segment_count
                == before.segment_count
            &&& !after.active.contains_key(id.0)
            &&& forall|other: u64|
                other != id.0 && document.active.contains_key(other)
                    ==> #[trigger] after.active.contains_key(other)
            &&& after.overlay == document.overlay
            &&& after.undo.len() == document.undo.len() + 1
            &&& after.undo.last() == CommandModel::AddStroke(i)
            &&& after.redo.len() == 0
            &&& after.revision == document.next_revision()
            &&& after.points == document.points && after.segments == document.segments
            &&& rest_kept(document, after)
        }),
{
    let i = document.active[id.0].metadata_index as int;
    let before = document.strokes[i];
    let after = document.ended(id, coverage);
    let tiles = coverage.affected.tiles(before.layer);
    lemma_span_tiles(coverage.affected, before.layer, key);
    let old_count = document.invalidations.len() as int;
    if tiles.contains(key) {
        let n = choose|n: int| 0 <= n < tiles.len() && tiles[n] == key;
        assert(after.invalidations[old_count + n].key == key);
    } else {
        assert forall|n: int| old_count <= n < after.invalidations.len() implies (
        #[trigger] after.invalidations[n]).key != key by {
            assert(after.invalidations[n].key == tiles[n - old_count]);
            assert(tiles.contains(tiles[n - old_count]));
        }
    }
}

/// Whether everything a stroke is made of stays as it is.
pub open spec fn same_make(a: StrokeModel, b: StrokeModel) -> bool {
    &&& a.id == b.id && a.layer == b.layer && a.brush == b.brush && a.bounds == b.bounds
    &&& a.first_point == b.first_point && a.point_count == b.point_count
    &&& a.first_segment == b.first_segment && a.segment_count == b.segment_count
    &&& a.complete == b.complete && a.affected_tiles == b.affected_tiles
}

/// Undoing a completed stroke hides that stroke and no other, and reports its tiles as not
/// to be shown; redoing it shows it again and reports them again.
pub proof fn law_undone_strokes_leave_their_tiles(
    document: DocumentModel,
    index: usize,
    key: TileKey,
)
    requires
        document.well_formed(),
        document.undo.len() > 0 ==> document.undo.last() == CommandModel::AddStroke(index),
        document.redo.len() > 0 ==> document.redo.last() == CommandModel::AddStroke(index),
    ensures
        document.undo.len() > 0 ==> {
            let after = document.undone();
            &&& !after.strokes[index as int].visible
            &&& after.strokes[index as int].state == StrokeState::Hidden
            &&& !after.overlay.contains(index)
            &&& after.strokes.len() == document.strokes.len()
            &&& forall|j: int|
                0 <= j < document.strokes.len() && j != index ==> #[trigger] after.strokes[j]
                    == document.strokes[j]
            &&& same_make(after.strokes[index as int], document.strokes[index as int])
            &&& document.strokes[index as int].affected_tiles.contains(key) == reported(
                document,
                after,
                key,
                false,
            )
            &&& rest_kept(document, after)
        },
        document.redo.len() > 0 ==> {
            let after = document.redone();
            &&& after.strokes[index as int].visible
            &&& after.strokes[index as int].state == StrokeState::PendingCache
            &&& after.strokes[index as int].revision == after.revision
            &&& after.overlay.contains(index)
            &&& forall|j: int|
                0 <= j < document.strokes.len() && j != index ==> #[trigger] after.strokes[j]
                    == document.strokes[j]
            &&& same_make(after.strokes[index as int], document.strokes[index as int])
            &&& document.strokes[index as int].affected_tiles.contains(key) == reported(
                document,
                after,
                key,
                false,
            )
            &&& rest_kept(document, after)
        },
{
    if document.undo.len() > 0 {
        assert(document.command_in_range(document.undo[document.undo.len() - 1]));
        let popped = DocumentModel { undo: document.undo.drop_last(), ..document }.bumped();
        lemma_stroke_replayed(popped, index, false, key);
        let after = document.undone();
        assert(after.invalidations == popped.replayed(
            CommandModel::AddStroke(index),
            false,
        ).invalidations);
        lemma_reported_alike(
            popped,
            popped.replayed(CommandModel::AddStroke(index), false),
            document,
            after,
            key,
        );
    }
    if document.redo.len() > 0 {
        assert(document.command_in_range(document.redo[document.redo.len() - 1]));
        let popped = DocumentModel { redo: document.redo.drop_last(), ..document }.bumped();
        lemma_stroke_replayed(popped, index, true, key);
        let after = document.redone();
        lemma_reported_alike(
            popped,
            popped.replayed(CommandModel::AddStroke(index), true),
            document,
            after,
            key,
        );
    }
}

/// What is reported does not depend on the history.
proof fn lemma_reported_alike(
    a: DocumentModel,
    b: DocumentModel,
    c: DocumentModel,
    d: DocumentModel,
    key: TileKey,
)
    requires
        a.invalidations == c.invalidations,
        b.invalidations == d.invalidations,
        b.revision == d.revision,
        b.effect_radius_px == d.effect_radius_px,
    ensures
        reported(a, b, key, false) == reported(c, d, key, false),
{
    if reported(a, b, key, false) {
        let n = choose|n: int|
            {
                &&& a.invalidations.len() <= n < b.invalidations.len()
                &&& (#[trigger] b.invalidations[n]).key == key
                &&& b.invalidations[n].revision == b.revision
                &&& b.invalidations[n].allow_stale_display == false
                &&& b.invalidations[n].halo_radius_px == b.effect_radius_px
            };
        assert(d.invalidations[n].key == key);
    }
    if reported(c, d, key, false) {
        let n = choose|n: int|
            {
                &&& c.invalidations.len() <= n < d.invalidations.len()
                &&& (#[trigger] d.invalidations[n]).key == key
                &&& d.invalidations[n].revision == d.revision
                &&& d.invalidations[n].allow_stale_display == false
                &&& d.invalidations[n].halo_radius_px == d.effect_radius_px
            };
        assert(b.invalidations[n].key == key);
    }
}

proof fn lemma_stroke_replayed(
    document: DocumentModel,
    index: usize,
    forward: bool,
    key: TileKey,
)
    requires
        index < document.strokes.len(),
    ensures
        ({
            let after = document.replayed(CommandModel::AddStroke(index), forward);
            &&& after.strokes.len() == document.strokes.len()
            &&& after.strokes[index as int].visible == forward
            &&& after.strokes[index as int].revision == document.revision
            &&& after.strokes[index as int].state == (if forward {
                StrokeState::PendingCache
            } else {
                StrokeState::Hidden
            })
            &&& same_make(after.strokes[index as int], document.strokes[index as int])
            &&& forall|j: int|
                0 <= j < document.strokes.len() && j != index ==> #[trigger] after.strokes[j]
                    == document.strokes[j]
            &&& after.overlay.contains(index) == forward
            &&& document.strokes[index as int].affected_tiles.contains(key) == reported(
                document,
                after,
                key,
                false,
            )
        }),
{
    let one = seq![index];
    assert(one[0] == index);
    assert(one.contains(index));
    assert(one.to_set().contains(index));
    let hidden = document.with_visibility(one, forward, true);
    assert forall|j: int| 0 <= j < document.strokes.len() && j != index implies #[trigger]
        hidden.strokes[j] == document.strokes[j] by {
        assert(!listed_in(one)(j));
    }
    assert(listed_in(one)(index as int));
    lemma_listed_reported(hidden, one, TileInvalidationCause::UndoRedo);
    let after = hidden.invalidated_indices(one, TileInvalidationCause::UndoRedo);
    assert(after == document.replayed(CommandModel::AddStroke(index), forward));
    let wanted = inked_by(hidden.strokes, one);
    if document.strokes[index as int].affected_tiles.contains(key) {
        assert(hidden.strokes[one[0] as int].affected_tiles.contains(key));
        assert(wanted(key));
        lemma_reported_alike(hidden, after, document, after, key);
    }
    if reported(document, after, key, false) {
        let n = choose|n: int|
            {
                &&& document.invalidations.len() <= n < after.invalidations.len()
                &&& (#[trigger] after.invalidations[n]).key == key
                &&& after.invalidations[n].revision == after.revision
                &&& after.invalidations[n].allow_stale_display == false
                &&& after.invalidations[n].halo_radius_px == after.effect_radius_px
            };
        assert(wanted(after.invalidations[n].key));
    }
}

/// Where the device, the layout of the cache, the extent or the effects change, every tile
/// that a completed stroke reaches is reported, and none else. A lost device and another
/// layout leave every shown stroke waiting for the cache, at the new revision.
pub proof fn law_derived_changes_report_every_inked_tile(
    document: DocumentModel,
    size: CanvasSize,
    effects: crate::effects::EffectGraphModel,
    key: TileKey,
)
    ensures
        ({
            let after = document.device_lost();
            &&& inked(document.strokes)(key) == reported(document, after, key, false)
            &&& after.geometry_generation != document.geometry_generation
            &&& forall|i: int|
                0 <= i < document.strokes.len() && document.strokes[i].visible
                    && document.strokes[i].complete ==> (#[trigger] after.strokes[i]).state
                    == StrokeState::PendingCache && after.strokes[i].revision == after.revision
        }),
        ({
            let after = document.layout_changed();
            &&& inked(document.strokes)(key) == reported(document, after, key, false)
            &&& forall|i: int|
                0 <= i < document.strokes.len() && document.strokes[i].visible
                    && document.strokes[i].complete ==> (#[trigger] after.strokes[i]).state
                    == StrokeState::PendingCache && after.strokes[i].revision == after.revision
        }),
        inked(document.strokes)(key) == reported(document, document.resized(size), key, false),
        inked(document.strokes)(key) == reported(
            document,
            document.effects_replaced(effects),
            key,
            false,
        ),
{
    lemma_all_reported_then(
        DocumentModel {
            geometry_generation: document.geometry_generation.wrapping_add(1),
            ..document
        }.bumped(),
        document,
        document.device_lost(),
        TileInvalidationCause::DeviceLoss,
        key,
    );
    lemma_all_reported_then(
        document.bumped(),
        document,
        document.layout_changed(),
        TileInvalidationCause::CacheLayout,
        key,
    );
    lemma_all_reported_then(
        DocumentModel { canvas_size: size, ..document }.bumped(),
        document,
        document.resized(size),
        TileInvalidationCause::Resize,
        key,
    );
    lemma_all_reported_then(
        DocumentModel { effects, ..document }.bumped(),
        document,
        document.effects_replaced(effects),
        TileInvalidationCause::EffectDependency,
        key,
    );
}

proof fn lemma_all_reported_then(
    changed: DocumentModel,
    before: DocumentModel,
    after: DocumentModel,
    cause: TileInvalidationCause,
    key: TileKey,
)
    requires
        changed.strokes == before.strokes,
        changed.invalidations == before.invalidations,
        after.invalidations == changed.invalidated_all(cause).invalidations,
        after.revision == changed.revision,
        after.effect_radius_px == changed.effect_radius_px,
    ensures
        inked(before.strokes)(key) == reported(before, after, key, false),
{
    let all = changed.invalidated_all(cause);
    lemma_all_reported(changed, cause);
    lemma_reported_alike(changed, all, before, after, key);
    if reported(changed, all, key, false) {
        let n = choose|n: int|
            {
                &&& changed.invalidations.len() <= n < all.invalidations.len()
                &&& (#[trigger] all.invalidations[n]).key == key
                &&& all.invalidations[n].revision == all.revision
                &&& all.invalidations[n].allow_stale_display == false
                &&& all.invalidations[n].halo_radius_px == all.effect_radius_px
            };
        assert(inked(changed.strokes)(all.invalidations[n].key));
    }
}

/// Whether an edit is recorded: it can be undone, nothing is left to redo, and revisions
/// move on.
pub open spec fn edited_once(before: DocumentModel, after: DocumentModel) -> bool {
    &&& after.undo.len() == before.undo.len() + 1
    &&& after.redo.len() == 0
    &&& after.revision == before.next_revision()
}

/// Whether two lists of layers differ at one place at most, and in nothing but one layer's
/// identity-free properties there.
pub open spec fn differ_at(a: Seq<LayerModel>, b: Seq<LayerModel>, place: int) -> bool {
    &&& a.len() == b.len()
    &&& forall|i: int| 0 <= i < a.len() && i != place ==> #[trigger] a[i] == b[i]
    &&& 0 <= place < a.len() ==> a[place].id == b[place].id && a[place].composite
        == b[place].composite
}

/// Showing, fading and renaming a layer changes that property of that layer and nothing
/// else: the property has the value asked for, an opacity the nearest between nothing and
/// everything. Asking for what is so already, or of a layer that is not there, changes
/// nothing.
pub proof fn law_layer_edits_change_one_property(
    document: DocumentModel,
    id: LayerId,
    visible: bool,
    opacity: Scalar,
    name: Seq<char>,
    place: int,
)
    requires
        distinct_layers(document.layers),
        0 <= place < document.layers.len(),
        document.layers[place].id == id,
        !no_number(opacity.bits),
    ensures
        ({
            let after = document.layer_shown(id, visible);
            let layer = after.layers[place];
            &&& differ_at(document.layers, after.layers, place)
            &&& layer.visible == visible
            &&& layer.opacity == document.layers[place].opacity && layer.name
                == document.layers[place].name
            &&& document.layers[place].visible == visible ==> after == document
            &&& document.layers[place].visible != visible ==> edited_once(document, after)
                && after.layer_revision != document.layer_revision
            &&& after.strokes == document.strokes && after.canvas_size == document.canvas_size
        }),
        ({
            let after = document.layer_faded(id, opacity);
            let layer = after.layers[place];
            &&& differ_at(document.layers, after.layers, place)
            &&& layer.visible == document.layers[place].visible && layer.name
                == document.layers[place].name
            &&& comes_before(opacity.bits, 0) ==> layer.opacity.same_number(Scalar { bits: 0 })
            &&& comes_before(0x3f80_0000, opacity.bits) ==> layer.opacity.same_number(
                Scalar { bits: 0x3f80_0000 },
            )
            &&& !comes_before(opacity.bits, 0) && !comes_before(0x3f80_0000, opacity.bits)
                ==> layer.opacity.same_number(opacity)
            &&& layer.opacity.same_number(document.layers[place].opacity) ==> after == document
            &&& after != document ==> edited_once(document, after) && after.layer_revision
                != document.layer_revision
            &&& after.strokes == document.strokes && after.canvas_size == document.canvas_size
        }),
        ({
            let after = document.layer_named(id, name);
            let layer = after.layers[place];
            &&& differ_at(document.layers, after.layers, place)
            &&& layer.name == name
            &&& layer.visible == document.layers[place].visible && layer.opacity
                == document.layers[place].opacity
            &&& document.layers[place].name == name ==> after == document
            &&& document.layers[place].name != name ==> edited_once(document, after)
                && after.layer_revision != document.layer_revision
            &&& after.strokes == document.strokes && after.canvas_size == document.canvas_size
        }),
{
    lemma_place_of(document.layers, id, place);
}

/// A layer of a list without twins is where it is found.
proof fn lemma_place_of(layers: Seq<LayerModel>, id: LayerId, place: int)
    requires
        distinct_layers(layers),
        0 <= place < layers.len(),
        layers[place].id == id,
    ensures
        has_layer(layers, id),
        layer_position(layers, id) == place,
{
    lemma_layer_found(layers, place);
    lemma_layer_position(layers, id);
    let found = layer_position(layers, id);
    if found < place {
        assert(layers[found].id != layers[place].id);
    } else if found > place {
        assert(layers[place].id != id);
    }
}

/// Edits of layers that are not there change nothing.
pub proof fn law_unknown_layers_cannot_be_edited(
    document: DocumentModel,
    id: LayerId,
    visible: bool,
    opacity: Scalar,
    name: Seq<char>,
    index: usize,
)
    requires
        forall|i: int| 0 <= i < document.layers.len() ==> (#[trigger] document.layers[i]).id != id,
    ensures
        document.layer_selected(id) == document,
        document.layer_shown(id, visible) == document,
        document.layer_faded(id, opacity) == document,
        document.layer_named(id, name) == document,
        document.layer_put(id, index) == document,
{
    lemma_layer_position(document.layers, id);
    if has_layer(document.layers, id) {
        assert(document.layers[layer_position(document.layers, id)].id != id);
    }
}

/// A layer that is put at a position is there afterwards, or on top where there are not so
/// many layers, and the others keep their order.
pub proof fn law_layers_are_put_where_asked(
    document: DocumentModel,
    id: LayerId,
    index: usize,
    place: int,
)
    requires
        distinct_layers(document.layers),
        document.layers.len() <= usize::MAX,
        0 <= place < document.layers.len(),
        document.layers[place].id == id,
    ensures
        ({
            let after = document.layer_put(id, index);
            let target: int = if index < document.layers.len() {
                index as int
            } else {
                document.layers.len() - 1
            };
            &&& after.layers.len() == document.layers.len()
            &&& after.layers[target] == document.layers[place]
            &&& after.layers.remove(target) == document.layers.remove(place)
            &&& target == place ==> after == document
            &&& target != place ==> edited_once(document, after) && after.layer_revision
                != document.layer_revision
            &&& after.strokes == document.strokes
            &&& after.active_layer == document.active_layer
        }),
{
    lemma_place_of(document.layers, id, place);
    let after = document.layer_put(id, index);
    let target: int = if index < document.layers.len() {
        index as int
    } else {
        document.layers.len() - 1
    };
    if target == place {
        assert(after == document);
    } else {
        let rest = document.layers.remove(place);
        assert(after.layers == rest.insert(target, document.layers[place]));
        assert(rest.insert(target, document.layers[place]).remove(target) =~= rest);
    }
}

/// A new layer lies on top of the others, visible and opaque and with the name asked for, has
/// an identity that is not handed out again, and receives the next strokes. Selecting a layer
/// makes the next strokes go there and changes nothing else.
pub proof fn law_new_layers_lie_on_top(document: DocumentModel, name: Seq<char>, id: LayerId)
    ensures
        ({
            let after = document.layer_added(name);
            let layer = after.layers.last();
            &&& after.layers.len() == document.layers.len() + 1
            &&& forall|i: int|
                0 <= i < document.layers.len() ==> #[trigger] after.layers[i]
                    == document.layers[i]
            &&& layer.name == name && layer.visible
            &&& layer.opacity.bits == 0x3f80_0000
            &&& layer.id.0 == document.next_layer
            &&& after.next_layer != document.next_layer
            &&& after.active_layer == layer.id
            &&& edited_once(document, after)
            &&& after.layer_revision != document.layer_revision
            &&& after.strokes == document.strokes && after.canvas_size == document.canvas_size
        }),
        has_layer(document.layers, id) ==> {
            let after = document.layer_selected(id);
            &&& after.active_layer == id
            &&& after.layers == document.layers && after.undo == document.undo && after.redo
                == document.redo && after.revision == document.revision && after.strokes
                == document.strokes
        },
{
}

/// The canvas has the extent asked for, a pixel at least on each side. Strokes keep their
/// coordinates, and asking for the same extent changes nothing.
pub proof fn law_canvases_have_the_extent_asked_for(document: DocumentModel, size: CanvasSize)
    requires
        document.canvas_size.width > 0,
        document.canvas_size.height > 0,
    ensures
        ({
            let after = document.extent_set(size);
            &&& size.width > 0 ==> after.canvas_size.width == size.width
            &&& size.height > 0 ==> after.canvas_size.height == size.height
            &&& size.width == 0 ==> after.canvas_size.width == 1
            &&& size.height == 0 ==> after.canvas_size.height == 1
            &&& after.points == document.points && after.segments == document.segments
            &&& after.strokes == document.strokes && after.layers == document.layers
            &&& after.canvas_size == document.canvas_size ==> after == document
            &&& after.canvas_size != document.canvas_size ==> edited_once(document, after)
        }),
{
}

/// A new document has one visible, opaque layer that receives strokes, and no history.
pub proof fn law_documents_begin_empty()
    ensures
        ({
            let document = DocumentModel::initial();
            &&& document.points.len() == 0 && document.segments.len() == 0
            &&& document.strokes.len() == 0
            &&& document.undo.len() == 0 && document.redo.len() == 0
            &&& document.layers.len() == 1
            &&& document.layers[0].visible && document.layers[0].opacity.bits == 0x3f80_0000
            &&& document.active_layer == document.layers[0].id
            &&& document.layers[0].id.0 < document.next_layer
            &&& document.canvas_size.width == 4096 && document.canvas_size.height == 4096
            &&& document.tile_size == 256
            &&& document.effect_radius_px == 0
            &&& document.revision == 0 && document.next_stroke == 0
            &&& document.overlay.is_empty() && document.active.is_empty()
            &&& document.invalidations.len() == 0
        }),
{
}

/// Whether the overlay has to draw a stroke: it is shown, on a layer that is shown and not
/// fully transparent.
pub open spec fn needs_overlay(document: DocumentModel, i: int) -> bool {
    &&& document.strokes[i].visible
    &&& exists|p: int|
        {
            &&& 0 <= p < document.layers.len()
            &&& (#[trigger] document.layers[p]).id == document.strokes[i].layer
            &&& document.layers[p].visible
            &&& !no_number(document.layers[p].opacity.bits)
            &&& comes_before(0, document.layers[p].opacity.bits)
        }
}

/// The overlay draws, in document order, the segments of exactly the strokes in it that are
/// shown on a layer that is shown and not fully transparent, each on its layer.
pub proof fn law_overlays_draw_what_is_shown(document: DocumentModel)
    requires
        document.well_formed(),
        distinct_layers(document.layers),
        document.overlay.finite(),
    ensures
        exists|drawn: Seq<usize>| #[trigger] overlay_is(document, drawn),
{
    let indices = ascending(document.overlay);
    lemma_listing_exists(document.overlay);
    assert forall|k: int| 0 <= k < indices.len() implies (#[trigger] indices[k])
        < document.strokes.len() by {
        assert(indices.contains(indices[k]));
        assert(document.overlay.contains(indices[k]));
    }
    assert forall|a: int, b: int| 0 <= a < b < indices.len() implies indices[a] < indices[b] by {
        lemma_rank_of_position(indices[a], indices[b]);
    }
    let drawn = lemma_drawn_ranges(document, indices, indices.len());
    assert forall|i: usize|
        document.overlay.contains(i) && needs_overlay(document, i as int) implies #[trigger]
        drawn.contains(i) by {
        let k = choose|k: int| 0 <= k < indices.len() && indices[k] == i;
        assert(needs_overlay(document, indices[k] as int));
    }
    assert forall|k: int| 0 <= k < drawn.len() implies document.overlay.contains(
        #[trigger] drawn[k],
    ) && needs_overlay(document, drawn[k] as int) by {
        assert(indices.contains(drawn[k]));
    }
    assert(overlay_is(document, drawn));
}

/// Ranks of positions are the positions.
proof fn lemma_rank_of_position(a: usize, b: usize)
    ensures
        crate::ordered::Ranked::rank(a) == a,
        crate::ordered::Ranked::rank(b) == b,
{
}

/// Whether the overlay draws the listed strokes: those that need it, in document order, each
/// with its layer and the range of its segments.
pub open spec fn overlay_is(document: DocumentModel, drawn: Seq<usize>) -> bool {
    let ranges = document.overlay_ranges();
    &&& ranges.len() == drawn.len()
    &&& forall|a: int, b: int| 0 <= a < b < drawn.len() ==> drawn[a] < drawn[b]
    &&& forall|k: int|
        0 <= k < drawn.len() ==> document.overlay.contains(#[trigger] drawn[k]) && needs_overlay(
            document,
            drawn[k] as int,
        )
    &&& forall|i: usize|
        document.overlay.contains(i) && needs_overlay(document, i as int)
            ==> #[trigger] drawn.contains(i)
    &&& forall|k: int|
        0 <= k < drawn.len() ==> {
            let stroke = document.strokes[drawn[k] as int];
            &&& (#[trigger] ranges[k]).0 == stroke.layer
            &&& ranges[k].1.start == stroke.first_segment
            &&& stroke.first_segment + stroke.segment_count <= u32::MAX ==> ranges[k].1.end
                - ranges[k].1.start == stroke.segment_count
        }
}

proof fn lemma_needs_overlay(document: DocumentModel, i: int)
    requires
        distinct_layers(document.layers),
        0 <= i < document.strokes.len(),
    ensures
        document.overlay_draws(i) == needs_overlay(document, i),
{
    let id = document.strokes[i].layer;
    lemma_layer_position(document.layers, id);
    if document.overlay_draws(i) {
        let p = layer_position(document.layers, id);
        assert(document.layers[p].id == id);
    }
    if needs_overlay(document, i) {
        let p = choose|p: int|
            {
                &&& 0 <= p < document.layers.len()
                &&& (#[trigger] document.layers[p]).id == document.strokes[i].layer
                &&& document.layers[p].visible
                &&& !no_number(document.layers[p].opacity.bits)
                &&& comes_before(0, document.layers[p].opacity.bits)
            };
        lemma_place_of(document.layers, id, p);
    }
}

/// The strokes among the first `count` listed ones that the overlay draws.
proof fn lemma_drawn_ranges(
    document: DocumentModel,
    indices: Seq<usize>,
    count: nat,
) -> (drawn: Seq<usize>)
    requires
        distinct_layers(document.layers),
        count <= indices.len(),
        forall|k: int| 0 <= k < indices.len() ==> (#[trigger] indices[k]) < document.strokes.len(),
        forall|a: int, b: int| 0 <= a < b < indices.len() ==> indices[a] < indices[b],
    ensures
        document.drawn_ranges(indices, count).len() == drawn.len(),
        forall|a: int, b: int| 0 <= a < b < drawn.len() ==> drawn[a] < drawn[b],
        forall|k: int|
            0 <= k < drawn.len() ==> indices.take(count as int).contains(#[trigger] drawn[k])
                && indices.contains(drawn[k]) && needs_overlay(document, drawn[k] as int),
        forall|k: int|
            0 <= k < count && needs_overlay(document, (#[trigger] indices[k]) as int)
                ==> drawn.contains(indices[k]),
        forall|k: int|
            0 <= k < drawn.len() ==> {
                let stroke = document.strokes[drawn[k] as int];
                let range = #[trigger] document.drawn_ranges(indices, count)[k];
                &&& range.0 == stroke.layer
                &&& range.1.start == stroke.first_segment
                &&& stroke.first_segment + stroke.segment_count <= u32::MAX ==> range.1.end
                    - range.1.start == stroke.segment_count
            },
    decreases count,
{
    if count == 0 {
        Seq::empty()
    } else {
        let before = lemma_drawn_ranges(document, indices, (count - 1) as nat);
        let i = indices[count - 1];
        let few = indices.take(count - 1);
        let more = indices.take(count as int);
        assert(more[count - 1] == i);
        assert forall|index: usize| few.contains(index) implies #[trigger] more.contains(index)
            && index < i by {
            let k = choose|k: int| 0 <= k < few.len() && few[k] == index;
            assert(more[k] == index);
            assert(indices[k] < indices[count - 1]);
        }
        lemma_needs_overlay(document, i as int);
        if document.overlay_draws(i as int) {
            let drawn = before.push(i);
            assert forall|k: int|
                0 <= k < count && needs_overlay(
                    document,
                    (#[trigger] indices[k]) as int,
                ) implies drawn.contains(indices[k]) by {
                if k < count - 1 {
                    let n = choose|n: int| 0 <= n < before.len() && before[n] == indices[k];
                    assert(drawn[n] == indices[k]);
                } else {
                    assert(drawn[before.len() as int] == i);
                }
            }
            assert forall|k: int| 0 <= k < drawn.len() implies more.contains(#[trigger] drawn[k])
                && indices.contains(drawn[k]) && needs_overlay(document, drawn[k] as int) by {
                if k < before.len() {
                    assert(drawn[k] == before[k]);
                    assert(few.contains(before[k]));
                }
            }
            assert forall|a: int, b: int| 0 <= a < b < drawn.len() implies drawn[a]
                < drawn[b] by {
                assert(few.contains(before[a]));
                if b < before.len() {
                    assert(before[a] < before[b]);
                }
            }
            assert forall|k: int| 0 <= k < drawn.len() implies {
                let stroke = document.strokes[drawn[k] as int];
                let range = #[trigger] document.drawn_ranges(indices, count)[k];
                &&& range.0 == stroke.layer
                &&& range.1.start == stroke.first_segment
                &&& stroke.first_segment + stroke.segment_count <= u32::MAX ==> range.1.end
                    - range.1.start == stroke.segment_count
            } by {
                if k < before.len() {
                    assert(document.drawn_ranges(indices, count)[k] == document.drawn_ranges(
                        indices,
                        (count - 1) as nat,
                    )[k]);
                }
            }
            drawn
        } else {
            assert forall|k: int| 0 <= k < before.len() implies more.contains(
                #[trigger] before[k],
            ) by {
                assert(few.contains(before[k]));
            }
            before
        }
    }
}

} // verus!
