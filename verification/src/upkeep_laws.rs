//! What keeps the tiles, the index and the history of a document true to its strokes.
use crate::cache::{CacheModel, TileRenderFeedback};
use crate::cache_laws::emptied;
use crate::document::StrokeDocument;
use crate::document_laws::{inked, law_derived_changes_report_every_inked_tile, reported};
use crate::geometry::{lemma_rank_of_key, lemma_span_tiles, LayerId, TileKey};
use crate::laws::lemma_covering_segments;
use crate::layers::distinct_layers;
use crate::maintenance::{adopted, briefed, prepared, reconfigured, served_strokes};
use crate::replay_laws::{names_local_segments, spans_tile};
use crate::spatial::{covering_segments, entry_place, lemma_entry_place, numbered, TileEntryModel};
use crate::state::{rebuilt_index, CoverageModel, DocumentModel};
use crate::strokes::{
    CanvasLayer, SegmentRange, StrokeId, StrokeMetadata, StrokeModel, StrokeState,
    TileInvalidationCause,
};
use crate::surface::LayoutModel;
use vstd::prelude::*;

verus! {

/// Whether a stroke is to be found under a tile: it is complete, on the layer of the tile, and
/// one of its segments spans the tile.
pub open spec fn belongs_under(
    stroke: StrokeModel,
    coverage: CoverageModel,
    key: TileKey,
) -> bool {
    &&& stroke.complete
    &&& stroke.layer == key.layer
    &&& exists|s: int|
        0 <= s < coverage.segments.len() && spans_tile(#[trigger] coverage.segments[s], key)
}

/// Whether entries list exactly the first `count` strokes that belong under a tile, in
/// document order, each with exactly its segments that span the tile.
pub open spec fn lists_strokes(
    entries: Seq<TileEntryModel>,
    strokes: Seq<StrokeModel>,
    coverage: Seq<CoverageModel>,
    key: TileKey,
    count: int,
) -> bool {
    &&& forall|a: int, b: int|
        0 <= a < b < entries.len() ==> (#[trigger] entries[a]).stroke_index < (
        #[trigger] entries[b]).stroke_index
    &&& forall|k: int|
        0 <= k < entries.len() ==> {
            let i = (#[trigger] entries[k]).stroke_index as int;
            &&& i < count
            &&& belongs_under(strokes[i], coverage[i], key)
            &&& names_local_segments(
                entries[k],
                strokes[i].first_segment,
                coverage[i].segments,
                key,
            )
        }
    &&& forall|i: int|
        0 <= i < count && belongs_under(#[trigger] strokes[i], coverage[i], key) ==> exists|
            k: int,
        |
            0 <= k < entries.len() && (#[trigger] entries[k]).stroke_index == i
}

/// Whether segment numbers of completed strokes fit.
pub open spec fn numbers_fit(strokes: Seq<StrokeModel>, coverage: Seq<CoverageModel>) -> bool {
    forall|i: int|
        0 <= i < strokes.len() && (#[trigger] strokes[i]).complete ==> strokes[i].first_segment
            + coverage[i].segments.len() <= u32::MAX
}

proof fn lemma_rebuilt(
    strokes: Seq<StrokeModel>,
    coverage: Seq<CoverageModel>,
    count: nat,
    key: TileKey,
)
    requires
        count <= strokes.len() <= usize::MAX,
        numbers_fit(strokes, coverage),
    ensures
        lists_strokes(
            crate::spatial::entries_at(rebuilt_index(strokes, coverage, count), key.spec_rank()),
            strokes,
            coverage,
            key,
            count as int,
        ),
    decreases count,
{
    lemma_rank_of_key(key);
    let rank = key.spec_rank();
    let after = crate::spatial::entries_at(rebuilt_index(strokes, coverage, count), rank);
    if count > 0 {
        lemma_rebuilt(strokes, coverage, (count - 1) as nat, key);
        let before = crate::spatial::entries_at(
            rebuilt_index(strokes, coverage, (count - 1) as nat),
            rank,
        );
        let i = count - 1;
        let (stroke, cover) = (strokes[i], coverage[i]);
        if stroke.complete {
            let first = stroke.first_segment;
            let spans = cover.segments;
            assert(first + spans.len() <= u32::MAX);
            assert(numbered(first, spans.len()) == spans.len());
            lemma_covering_segments(spans, first, spans.len(), key.x, key.y);
            let hits = covering_segments(spans, first, spans.len(), key.x, key.y);
            let entry = TileEntryModel { stroke_index: i as usize, segments: hits };
            if belongs_under(stroke, cover, key) {
                let s = choose|s: int| 0 <= s < spans.len() && spans_tile(#[trigger] spans[s], key);
                assert(spans[s].covers(key.x, key.y));
                assert(hits.contains((first + s) as u32));
                assert(hits.len() > 0);
                let place = entry_place(before, i as usize);
                lemma_entry_place(before, i as usize);
                assert(place == before.len()) by {
                    if place < before.len() {
                        assert(before[place].stroke_index > i as usize);
                    }
                }
                assert(after =~= before.push(entry));
                assert(names_local_segments(entry, first, spans, key));
                assert forall|k: int| 0 <= k < after.len() implies {
                    let j = (#[trigger] after[k]).stroke_index as int;
                    &&& j < count
                    &&& belongs_under(strokes[j], coverage[j], key)
                    &&& names_local_segments(
                        after[k],
                        strokes[j].first_segment,
                        coverage[j].segments,
                        key,
                    )
                } by {
                    if k < before.len() {
                        assert(after[k] == before[k]);
                    }
                }
                assert forall|a: int, b: int| 0 <= a < b < after.len() implies (
                #[trigger] after[a]).stroke_index < (#[trigger] after[b]).stroke_index by {
                    assert(after[a] == before[a]);
                    if b < before.len() {
                        assert(after[b] == before[b]);
                    }
                }
                assert forall|j: int|
                    0 <= j < count && belongs_under(
                        #[trigger] strokes[j],
                        coverage[j],
                        key,
                    ) implies exists|k: int|
                    0 <= k < after.len() && (#[trigger] after[k]).stroke_index == j by {
                    if j < i {
                        let k = choose|k: int|
                            0 <= k < before.len() && (#[trigger] before[k]).stroke_index == j;
                        assert(after[k] == before[k]);
                    } else {
                        assert(after[before.len() as int].stroke_index == j);
                    }
                }
            } else {
                assert(stroke.layer == key.layer ==> hits.len() == 0) by {
                    if stroke.layer == key.layer && hits.len() > 0 {
                        assert(spans[hits[0] - first].covers(key.x, key.y));
                        assert(spans_tile(spans[hits[0] - first], key));
                    }
                }
                assert(after == before);
            }
        } else {
            assert(after == before);
        }
    } else {
        assert(after =~= Seq::empty());
    }
}

/// An index that is rebuilt lists under every tile exactly the completed strokes that reach
/// it, in document order and each with its segments there; the tiles that a completed stroke
/// affects are those of its layer in its coverage. Nothing else about strokes changes.
pub proof fn law_rebuilt_indices_list_what_reaches_a_tile(
    document: DocumentModel,
    coverage: Seq<CoverageModel>,
    key: TileKey,
    i: int,
)
    requires
        document.strokes.len() <= usize::MAX,
        numbers_fit(document.strokes, coverage),
        0 <= i < document.strokes.len(),
    ensures
        ({
            let after = document.recovered(coverage);
            let (before, stroke) = (document.strokes[i], after.strokes[i]);
            &&& lists_strokes(
                after.tile_entries(key),
                document.strokes,
                coverage,
                key,
                document.strokes.len() as int,
            )
            &&& after.strokes.len() == document.strokes.len()
            &&& before.complete ==> (stroke.affected_tiles.contains(key) <==> key.layer
                == before.layer && spans_tile(coverage[i].affected, key))
            &&& !before.complete ==> stroke == before
            &&& stroke.visible == before.visible && stroke.complete == before.complete
                && stroke.layer == before.layer && stroke.brush == before.brush
                && stroke.first_segment == before.first_segment && stroke.segment_count
                == before.segment_count && stroke.id == before.id && stroke.state
                == before.state && stroke.revision == before.revision
            &&& after.overlay == document.overlay && after.undo == document.undo
        }),
{
    lemma_rebuilt(document.strokes, coverage, document.strokes.len(), key);
    lemma_span_tiles(coverage[i].affected, document.strokes[i].layer, key);
}

/// Under another tile size or effect radius all tiles are listed anew, and every one that a
/// completed stroke reaches is reported at the next revision.
pub proof fn law_other_sizes_report_every_inked_tile(
    document: DocumentModel,
    size: u32,
    radius: u32,
    coverage: Seq<CoverageModel>,
    key: TileKey,
)
    ensures
        ({
            let after = document.tiles_resized(size, coverage);
            &&& after.tile_size == size
            &&& after.effect_radius_px == document.effect_radius_px
            &&& after.revision == document.next_revision()
            &&& after.strokes == document.recovered(coverage).strokes
            &&& after.index == document.recovered(coverage).index
            &&& inked(after.strokes)(key) ==> reported(document, after, key, false)
        }),
        ({
            let after = document.radius_changed(radius, coverage);
            &&& after.effect_radius_px == radius
            &&& after.tile_size == document.tile_size
            &&& after.revision == document.next_revision()
            &&& after.strokes == document.recovered(coverage).strokes
            &&& after.index == document.recovered(coverage).index
            &&& inked(after.strokes)(key) ==> reported(document, after, key, false)
        }),
{
    let resized = DocumentModel { tile_size: size, ..document }.recovered(coverage);
    lemma_reported_by_effects(resized, key);
    let widened = DocumentModel { effect_radius_px: radius, ..document }.recovered(coverage);
    lemma_reported_by_effects(widened, key);
}

/// Reporting everything at the next revision reports every inked tile, whatever the cause.
proof fn lemma_reported_by_effects(document: DocumentModel, key: TileKey)
    ensures
        inked(document.strokes)(key) ==> {
            &&& reported(
                document,
                document.bumped().invalidated_all(
                    TileInvalidationCause::Resize,
                ),
                key,
                false,
            )
            &&& reported(
                document,
                document.bumped().invalidated_all(
                    TileInvalidationCause::EffectDependency,
                ),
                key,
                false,
            )
        },
{
    law_derived_changes_report_every_inked_tile(
        document,
        document.canvas_size,
        document.effects,
        key,
    );
    let a = document.resized(document.canvas_size);
    let b = document.bumped().invalidated_all(TileInvalidationCause::Resize);
    let c = document.effects_replaced(document.effects);
    let d = document.bumped().invalidated_all(
        TileInvalidationCause::EffectDependency,
    );
    if inked(document.strokes)(key) {
        lemma_carried_over(document, a, b, key);
        lemma_carried_over(document, c, d, key);
    }
}

proof fn lemma_carried_over(
    before: DocumentModel,
    a: DocumentModel,
    b: DocumentModel,
    key: TileKey,
)
    requires
        a.invalidations == b.invalidations,
        a.revision == b.revision,
        a.effect_radius_px == b.effect_radius_px,
        reported(before, a, key, false),
    ensures
        reported(before, b, key, false),
{
    let n = choose|n: int|
        {
            &&& before.invalidations.len() <= n < a.invalidations.len()
            &&& (#[trigger] a.invalidations[n]).key == key
            &&& a.invalidations[n].revision == a.revision
            &&& a.invalidations[n].allow_stale_display == false
            &&& a.invalidations[n].halo_radius_px == a.effect_radius_px
        };
    assert(b.invalidations[n].key == key);
}

/// Whenever the cache is emptied, because the document is another, the layout or the budget
/// changed or the device was lost, every tile that a completed stroke reaches is reported, so
/// that nothing that was drawn is missing for long.
pub proof fn law_emptied_caches_are_filled_again(
    document: DocumentModel,
    cache: CacheModel,
    layout: LayoutModel,
    budget: u64,
    reports: Seq<TileRenderFeedback>,
    key: TileKey,
)
    ensures
        ({
            let (after, kept) = adopted(document, cache);
            &&& kept.document_generation == Some(document.geometry_generation)
            &&& cache.document_generation == Some(document.geometry_generation) ==> after
                == document && kept == cache
            &&& cache.document_generation != Some(document.geometry_generation) ==> emptied(kept)
                && (inked(document.strokes)(key) ==> reported(document, after, key, false))
        }),
        ({
            let (after, kept) = reconfigured(document, cache, layout, budget);
            &&& kept.layout == Some(layout) && kept.budget == budget
            &&& cache.layout == Some(layout) && cache.budget == budget ==> after == document
                && kept == cache
            &&& cache.layout != Some(layout) || cache.budget != budget ==> emptied(kept) && (
            inked(document.strokes)(key) ==> reported(document, after, key, false))
        }),
        ({
            let (after, kept) = briefed(document, cache, reports);
            &&& !reports.contains(TileRenderFeedback::DeviceReset) ==> after == document && kept
                == cache.informed_by(reports, reports.len())
            &&& reports.contains(TileRenderFeedback::DeviceReset) ==> emptied(kept) && (inked(
                document.strokes,
            )(key) ==> reported(document, after, key, false)) && kept.document_generation
                == Some(after.geometry_generation)
        }),
{
    law_derived_changes_report_every_inked_tile(
        document,
        document.canvas_size,
        document.effects,
        key,
    );
}

/// After preparation the document and the cache agree: on the document's generation, the tile
/// size and the layout, and the document has the radius of the effects.
pub proof fn law_prepared_tiles_agree_with_the_document(
    document: DocumentModel,
    cache: CacheModel,
    layout: LayoutModel,
    budget: u64,
    radius: u32,
    reports: Seq<TileRenderFeedback>,
    resized: Seq<CoverageModel>,
    widened: Seq<CoverageModel>,
)
    ensures
        ({
            let (after, kept) = prepared(
                document,
                cache,
                layout,
                budget,
                radius,
                reports,
                resized,
                widened,
            );
            &&& after.tile_size == layout.tile_size
            &&& after.effect_radius_px == radius
            &&& after.points == document.points && after.segments == document.segments
            &&& after.undo == document.undo && after.redo == document.redo
            &&& kept.document_generation == Some(after.geometry_generation)
            &&& kept.layout == Some(layout)
            &&& kept.budget == budget
        }),
{
    let (known, first) = adopted(document, cache);
    let sized = crate::maintenance::at_tile_size(known, layout.tile_size, resized);
    let reached = crate::maintenance::at_radius(sized, radius, widened);
    let (laid_out, configured) = reconfigured(reached, first, layout, budget);
    lemma_informed_keeps(configured, reports, reports.len());
}

/// Reports of the render side change neither layout, budget nor generation.
proof fn lemma_informed_keeps(cache: CacheModel, reports: Seq<TileRenderFeedback>, count: nat)
    ensures
        cache.informed_by(reports, count).layout == cache.layout,
        cache.informed_by(reports, count).budget == cache.budget,
        cache.informed_by(reports, count).document_generation == cache.document_generation,
    decreases count,
{
    if count > 0 {
        lemma_informed_keeps(cache, reports, (count - 1) as nat);
    }
}

/// A stroke leaves the overlay for the tiles once all tiles it affects are ready at its
/// revision, and only if it is complete, shown and in the overlay.
pub proof fn law_strokes_leave_the_overlay_for_ready_tiles(
    document: DocumentModel,
    cache: CacheModel,
    i: usize,
)
    requires
        i < document.strokes.len(),
    ensures
        ({
            let stroke = document.strokes[i as int];
            let leaves = document.overlay.contains(i) && stroke.complete && stroke.visible
                && forall|k: int|
                0 <= k < stroke.affected_tiles.len() ==> cache.tile_ready(
                    #[trigger] stroke.affected_tiles[k],
                    stroke.revision,
                );
            let after = document.handed_over(served_strokes(document, cache));
            &&& leaves ==> !after.overlay.contains(i) && after.strokes[i as int].state
                == StrokeState::Cached
            &&& !leaves ==> (after.overlay.contains(i) <==> document.overlay.contains(i))
                && after.strokes[i as int] == stroke
            &&& after.strokes[i as int].visible == stroke.visible && after.strokes[i as int].layer
                == stroke.layer
        }),
{
    let set = served_strokes(document, cache);
    let stroke = document.strokes[i as int];
    if document.overlay.contains(i) && stroke.complete && stroke.visible && forall|k: int|
        0 <= k < stroke.affected_tiles.len() ==> cache.tile_ready(
            #[trigger] stroke.affected_tiles[k],
            stroke.revision,
        ) {
        assert(set.contains(i));
    } else {
        assert(!set.contains(i));
    }
}

/// Clearing ends contacts, hides exactly the strokes that were shown, and reports their
/// tiles; it can be undone where something was shown. Geometry, layers and extent stay.
pub proof fn law_clearing_takes_away_what_is_shown(document: DocumentModel, i: int, key: TileKey)
    requires
        document.well_formed(),
        document.strokes.len() <= usize::MAX,
        0 <= i < document.strokes.len(),
    ensures
        ({
            let after = document.cleared();
            let (before, stroke) = (document.strokes[i], after.strokes[i]);
            let shown = before.visible && before.complete;
            &&& !stroke.visible
            &&& stroke.affected_tiles == before.affected_tiles && stroke.brush == before.brush
                && stroke.layer == before.layer && stroke.first_segment == before.first_segment
                && stroke.segment_count == before.segment_count
            &&& shown ==> !after.overlay.contains(i as usize)
            &&& shown && before.affected_tiles.contains(key) ==> reported(
                document,
                after,
                key,
                false,
            )
            &&& shown ==> after.undo.len() == document.undo.len() + 1 && after.undo.last()
                is Clear && after.undo.last()->Clear_0.contains(i as usize) && after.redo.len()
                == 0
            &&& after.points == document.points && after.segments == document.segments
                && after.layers == document.layers && after.canvas_size == document.canvas_size
        }),
{
    let idle = document.contacts_abandoned();
    let changed = idle.shown_positions(idle.strokes.len());
    lemma_shown(idle, idle.strokes.len());
    let after = document.cleared();
    crate::laws::law_clearing_hides_every_stroke(document);
    let before = document.strokes[i];
    if before.visible && before.complete {
        assert(!document.contact_at(i)) by {
            if document.contact_at(i) {
                assert(document.is_contact(i));
            }
        }
        assert(idle.strokes[i] == before);
        assert(changed.contains(i as usize));
        let hidden = idle.bumped().with_visibility(changed, false, false);
        let told = hidden.invalidated_indices(
            changed,
            TileInvalidationCause::Clear,
        );
        assert(changed.to_set().contains(i as usize));
        if before.affected_tiles.contains(key) {
            lemma_listed_tile(hidden, changed, i as usize, key);
            lemma_carried(hidden, told, document, after, key);
        }
    }
}

/// The shown strokes are listed.
proof fn lemma_shown(document: DocumentModel, count: nat)
    requires
        count <= document.strokes.len() <= usize::MAX,
    ensures
        forall|i: usize| #[trigger]
            document.shown_positions(count).contains(i) <==> i < count
                && document.strokes[i as int].visible && document.strokes[i as int].complete,
    decreases count,
{
    let list = document.shown_positions(count);
    if count > 0 {
        lemma_shown(document, (count - 1) as nat);
        let before = document.shown_positions((count - 1) as nat);
        let last = (count - 1) as usize;
        assert forall|i: usize| #[trigger] list.contains(i) <==> i < count
            && document.strokes[i as int].visible && document.strokes[i as int].complete by {
            if before.contains(i) {
                let k = choose|k: int| 0 <= k < before.len() && before[k] == i;
                assert(list[k] == i);
            }
            if i == last && document.strokes[i as int].visible
                && document.strokes[i as int].complete {
                assert(list[before.len() as int] == i);
            }
            if list.contains(i) {
                let k = choose|k: int| 0 <= k < list.len() && list[k] == i;
                if k < before.len() {
                    assert(before[k] == i);
                }
            }
        }
    } else {
        assert(list =~= Seq::empty());
    }
}

proof fn lemma_listed_tile(
    document: DocumentModel,
    indices: Seq<usize>,
    i: usize,
    key: TileKey,
)
    requires
        indices.contains(i),
        i < document.strokes.len(),
        document.strokes[i as int].affected_tiles.contains(key),
    ensures
        reported(
            document,
            document.invalidated_indices(
                indices,
                TileInvalidationCause::Clear,
            ),
            key,
            false,
        ),
{
    let listed = crate::state::listed_in(indices);
    let ranks = crate::state::affected_ranks(document.strokes, listed);
    crate::maintenance::lemma_affected_finitely(document.strokes, listed);
    crate::ordered::lemma_listing_exists(ranks);
    lemma_rank_of_key(key);
    let tiles = document.strokes[i as int].affected_tiles;
    let k = choose|k: int| 0 <= k < tiles.len() && tiles[k] == key;
    assert(listed(i as int));
    assert(document.strokes[i as int].affected_tiles[k].spec_rank() == key.spec_rank());
    assert(ranks.contains(key.spec_rank()));
    let keys = crate::state::keys_of(ranks);
    let all = crate::ordered::ascending(ranks);
    assert(all.contains(key.spec_rank()));
    let n = choose|n: int| 0 <= n < all.len() && all[n] == key.spec_rank();
    assert(keys[n] == key);
    let after = document.invalidated_indices(
        indices,
        TileInvalidationCause::Clear,
    );
    assert(after.invalidations[document.invalidations.len() + n].key == key);
}

proof fn lemma_carried(
    a: DocumentModel,
    b: DocumentModel,
    c: DocumentModel,
    d: DocumentModel,
    key: TileKey,
)
    requires
        a.invalidations == c.invalidations,
        b.invalidations == d.invalidations,
        b.revision == d.revision,
        b.effect_radius_px == d.effect_radius_px,
        reported(a, b, key, false),
    ensures
        reported(c, d, key, false),
{
    let n = choose|n: int|
        {
            &&& a.invalidations.len() <= n < b.invalidations.len()
            &&& (#[trigger] b.invalidations[n]).key == key
            &&& b.invalidations[n].revision == b.revision
            &&& b.invalidations[n].allow_stale_display == false
            &&& b.invalidations[n].halo_radius_px == b.effect_radius_px
        };
    assert(d.invalidations[n].key == key);
}

/// A loaded document takes the place of another as it is, and is told from it by generations
/// that are not the other's. Fetching what is stale takes it all, and nothing else.
pub proof fn law_loaded_documents_are_told_from_others(
    loaded: DocumentModel,
    other: DocumentModel,
)
    ensures
        ({
            let after = loaded.replacing(other);
            &&& after.geometry_generation != other.geometry_generation
            &&& after.contact_generation != other.contact_generation
            &&& after.points == loaded.points && after.segments == loaded.segments
                && after.strokes == loaded.strokes && after.layers == loaded.layers
                && after.undo == loaded.undo && after.redo == loaded.redo && after.effects
                == loaded.effects && after.materials == loaded.materials && after.index
                == loaded.index && after.canvas_size == loaded.canvas_size && after.revision
                == loaded.revision && after.invalidations == loaded.invalidations
        }),
        loaded.drained().invalidations.len() == 0,
        loaded.drained().strokes == loaded.strokes,
        loaded.drained().revision == loaded.revision,
{
}

/// Layers and strokes are found by their identity, and the place of a layer is where it is.
pub proof fn law_parts_are_found_by_identity(
    document: StrokeDocument,
    id: LayerId,
    layer: Option<&CanvasLayer>,
    index: Option<usize>,
    stroke_id: StrokeId,
    stroke: Option<&StrokeMetadata>,
    drawing: bool,
)
    requires
        document.well_formed(),
        distinct_layers(document@.layers),
        call_ensures(StrokeDocument::layer, (&document, id), layer),
        call_ensures(StrokeDocument::layer_index, (&document, id), index),
        call_ensures(StrokeDocument::stroke, (&document, stroke_id), stroke),
        call_ensures(StrokeDocument::is_drawing, (&document,), drawing),
    ensures
        layer is Some <==> index is Some,
        layer matches Some(found) ==> found.id == id && document@.layers[index->0 as int]
            == found@,
        layer is None ==> forall|n: int|
            0 <= n < document@.layers.len() ==> (#[trigger] document@.layers[n]).id != id,
        stroke matches Some(found) ==> found.id == stroke_id && exists|i: int|
            0 <= i < document@.strokes.len() && #[trigger] document@.strokes[i] == found@,
        drawing <==> exists|contact: u64| document@.active.contains_key(contact),
{
    if layer is None {
        assert forall|n: int| 0 <= n < document@.layers.len() implies (
        #[trigger] document@.layers[n]).id != id by {
            if document@.layers[n].id == id {
                crate::layers::lemma_layer_found(document@.layers, n);
            }
        }
    }
    if let Some(found) = stroke {
        let i = document@.lookup[stroke_id.0] as int;
        assert(document@.strokes[i] == found@);
    }
    if drawing {
        let contact = document@.active.dom().choose();
        assert(document@.active.contains_key(contact)) by {
            assert(!document@.active.dom().is_empty()) by {
                if document@.active.dom().is_empty() {
                    assert(document@.active =~= Map::empty());
                }
            }
        }
    }
    if exists|contact: u64| document@.active.contains_key(contact) {
        let contact = choose|contact: u64| document@.active.contains_key(contact);
        assert(document@.active.dom().contains(contact));
    }
}

/// The ranges that the overlay draws are listed with and without their layers alike.
pub proof fn law_overlay_ranges_are_listed_alike(
    document: StrokeDocument,
    layered: Vec<(LayerId, SegmentRange)>,
    plain: Vec<SegmentRange>,
)
    requires
        document.well_formed(),
        call_ensures(StrokeDocument::overlay_layer_segment_ranges, (&document,), layered),
        call_ensures(StrokeDocument::overlay_segment_ranges, (&document,), plain),
    ensures
        plain@.len() == layered@.len(),
        forall|k: int| 0 <= k < plain@.len() ==> #[trigger] plain@[k] == layered@[k].1,
{
}

/// Whether everything that was reported last has one cause, and nothing before it changed.
pub open spec fn reported_because(
    before: DocumentModel,
    after: DocumentModel,
    cause: TileInvalidationCause,
) -> bool {
    &&& before.invalidations.len() <= after.invalidations.len()
    &&& forall|n: int|
        0 <= n < before.invalidations.len() ==> #[trigger] after.invalidations[n]
            == before.invalidations[n]
    &&& forall|n: int|
        before.invalidations.len() <= n < after.invalidations.len() ==> (
        #[trigger] after.invalidations[n]).cause == cause
}

/// Tiles are reported with the cause for which they are stale.
pub proof fn law_reports_state_their_cause(
    document: DocumentModel,
    id: StrokeId,
    coverage: CoverageModel,
    all: Seq<CoverageModel>,
    size: u32,
)
    requires
        document.strokes.len() <= usize::MAX,
    ensures
        reported_because(
            document,
            document.ended(id, coverage),
            TileInvalidationCause::StrokeCommit,
        ),
        reported_because(document, document.device_lost(), TileInvalidationCause::DeviceLoss),
        reported_because(document, document.layout_changed(), TileInvalidationCause::CacheLayout),
        reported_because(
            document,
            document.resized(document.canvas_size),
            TileInvalidationCause::Resize,
        ),
        reported_because(
            document,
            document.effects_replaced(document.effects),
            TileInvalidationCause::EffectDependency,
        ),
        reported_because(
            document,
            document.radius_changed(size, all),
            TileInvalidationCause::EffectDependency,
        ),
        reported_because(
            document,
            document.tiles_resized(size, all),
            TileInvalidationCause::Resize,
        ),
        reported_because(document, document.cleared(), TileInvalidationCause::Clear),
{
}

/// A contact whose points and segments are moved behind those of others keeps its shape: its
/// points are the same in the same order, and each of its segments joins the same ones, with
/// the same paint on the same layer. What was drawn before stays where it is.
pub proof fn law_moved_contacts_keep_their_shape(document: DocumentModel, id: StrokeId, k: int)
    requires
        document.well_formed(),
        document.active.contains_key(id.0),
        document.has_room(id),
        0 <= k < document.strokes[document.active[id.0].metadata_index as int].segment_count,
    ensures
        ({
            let i = document.active[id.0].metadata_index as int;
            let after = document.gathered(id);
            let (before, stroke) = (document.strokes[i], after.strokes[i]);
            let old = document.segments[before.first_segment + k];
            let new = after.segments[stroke.first_segment + k];
            &&& stroke.point_count == before.point_count
            &&& stroke.segment_count == before.segment_count
            &&& after.points[stroke.first_point + k] == document.points[before.first_point + k]
            &&& new.start - stroke.first_point == old.start - before.first_point
            &&& new.end - stroke.first_point == old.end - before.first_point
            &&& new.material == old.material && new.model == old.model && new.deposition
                == old.deposition && new.layer == old.layer
            &&& document.points.is_prefix_of(after.points)
            &&& document.segments.is_prefix_of(after.segments)
            &&& stroke.first_point + stroke.point_count == after.points.len()
            &&& stroke.first_segment + stroke.segment_count == after.segments.len()
        }),
{
    let i = document.active[id.0].metadata_index as int;
    let after = document.gathered(id);
    let (before, stroke) = (document.strokes[i], after.strokes[i]);
    crate::document::lemma_gathered(document, id);
    assert(document.stroke_in_range(before));
    assert(document.owns_geometry(before));
    assert(after.owns_geometry(stroke));
    assert(document.segments[before.first_segment + k] == crate::state::own_segment(before, k));
    assert(after.segments[stroke.first_segment + k] == crate::state::own_segment(stroke, k));
    assert(document.points.is_prefix_of(after.points)) by {
        assert(after.points.take(document.points.len() as int) =~= document.points);
    }
    assert(document.segments.is_prefix_of(after.segments)) by {
        assert(after.segments.take(document.segments.len() as int) =~= document.segments);
    }
}

/// The first segment of a contact is a dot at its first point, and each further one leads from
/// one point to the next.
pub proof fn law_contacts_draw_from_point_to_point(document: DocumentModel, id: StrokeId, k: int)
    requires
        document.well_formed(),
        document.active.contains_key(id.0),
        0 <= k < document.strokes[document.active[id.0].metadata_index as int].segment_count,
        document.points.len() <= u32::MAX,
    ensures
        ({
            let stroke = document.strokes[document.active[id.0].metadata_index as int];
            let segment = document.segments[stroke.first_segment + k];
            &&& segment.end == stroke.first_point + k
            &&& k == 0 ==> segment.start == segment.end
            &&& k > 0 ==> segment.start + 1 == segment.end
            &&& segment.layer == stroke.layer
            &&& segment.deposition == stroke.brush.deposition
        }),
{
    let stroke = document.strokes[document.active[id.0].metadata_index as int];
    assert(document.owns_geometry(stroke));
    assert(document.stroke_in_range(stroke));
    assert(document.segments[stroke.first_segment + k] == crate::state::own_segment(stroke, k));
}

} // verus!
