//! Keeping the tile cache in step with the document, frame by frame.
use crate::cache::{CacheModel, TileRenderFeedback};
use crate::cache_steps::lemma_looked_at;
use crate::document::{confirmed, contested, coverage_models, StrokeDocument};
use crate::effects::{
    node_models, EffectDescriptor, EffectGraphModel, EffectInfluence, EffectRegistry,
};
use crate::geometry::{lemma_rank_of_key, TileKey, TileSpan};
use crate::influence::clipped;
use crate::ordered::{ascending, lemma_listing_exists};
use crate::paint::{PaintModelDescriptor, PaintPlaneDescriptor};
use crate::state::{affected_ranks, completed_in, keys_of, CoverageModel, DocumentModel};
use crate::strokes::{
    StrokeCoverage, StrokeModel, StrokeRendererSettings, TileInvalidationCause,
};
use crate::surface::{model_layout, planes_fit, tile_edge, LayoutModel};
use crate::tiles::CanvasTileCache;
use vstd::prelude::*;
use vstd::set_lib::{lemma_int_range, lemma_len_subset, set_int_range};

verus! {

/// Radius of the document's effects: zero where one of them depends on the whole
/// surface, else the largest sum of their local radii along a dependency path.
pub open spec fn effects_reach(
    graph: EffectGraphModel,
    registry: Map<u64, EffectDescriptor>,
) -> u32 {
    if graph.reads_globally(registry) { 0 } else { clipped(graph.combined_radius(registry)) }
}

/// Neighborhood that tile invalidations of the document have to respect.
pub fn effect_radius(document: &StrokeDocument, effects: &EffectRegistry) -> (radius: u32)
    requires
        document.well_formed(),
        effects.well_formed(),
    ensures
        radius == effects_reach(document@.effects, effects@),
{
    match document.effects().combined_influence(effects) {
        EffectInfluence::Local { radius_px } => radius_px,
        EffectInfluence::Global => 0,
    }
}

/// The document after its edits were spread to all that depends on them: where an
/// effect depends on the whole surface, an edit of any tile makes every tile stale.
pub open spec fn edits_spread(
    document: DocumentModel,
    registry: Map<u64, EffectDescriptor>,
) -> DocumentModel {
    if document.effects.reads_globally(registry) && document.invalidations.len() > 0 {
        document.invalidated_all(TileInvalidationCause::EffectDependency)
    } else {
        document
    }
}

/// Spreads pending edits to all tiles where an effect depends on the whole surface.
pub fn spread_edits(document: &mut StrokeDocument, effects: &EffectRegistry)
    requires
        old(document).well_formed(),
        effects.well_formed(),
    ensures
        final(document).well_formed(),
        old(document)@.coherent() ==> final(document)@.coherent(),
        final(document)@ == edits_spread(old(document)@, effects@),
{
    match document.effects().combined_influence(effects) {
        EffectInfluence::Local { .. } => {},
        EffectInfluence::Global => {
            document.invalidate_after_edits();
        },
    }
}

/// Only finitely many tiles are affected.
pub proof fn lemma_affected_finitely(strokes: Seq<StrokeModel>, listed: spec_fn(int) -> bool)
    ensures
        affected_ranks(strokes, listed).finite(),
{
    let numbers = set_int_range(0, u128::MAX + 1);
    let as_rank = |number: int| number as u128;
    lemma_int_range(0, u128::MAX + 1);
    numbers.lemma_map_finite(as_rank);
    assert forall|rank: u128| affected_ranks(strokes, listed).contains(
        rank,
    ) implies #[trigger] numbers.map(as_rank).contains(rank) by {
        assert(numbers.contains(rank as int) && rank == as_rank(rank as int));
    }
    lemma_len_subset(affected_ranks(strokes, listed), numbers.map(as_rank));
}

/// An effect on the whole surface makes every tile stale at every edit: where anything is
/// reported stale, each tile that a completed stroke affects is reported as well.
pub proof fn law_global_effects_spread_every_edit(
    document: DocumentModel,
    registry: Map<u64, EffectDescriptor>,
    i: int,
    k: int,
)
    requires
        document.effects.reads_globally(registry),
        document.invalidations.len() > 0,
        0 <= i < document.strokes.len(),
        document.strokes[i].complete,
        0 <= k < document.strokes[i].affected_tiles.len(),
    ensures
        ({
            let stale = edits_spread(document, registry).invalidations;
            exists|n: int|
                {
                    &&& 0 <= n < stale.len()
                    &&& (#[trigger] stale[n]).key == document.strokes[i].affected_tiles[k]
                    &&& stale[n].revision == document.revision
                    &&& !stale[n].allow_stale_display
                }
        }),
{
    let listed = completed_in(document.strokes);
    let ranks = affected_ranks(document.strokes, listed);
    let key = document.strokes[i].affected_tiles[k];
    assert(listed(i));
    assert(ranks.contains(key.spec_rank()));
    lemma_affected_finitely(document.strokes, listed);
    lemma_listing_exists(ranks);
    lemma_rank_of_key(key);
    let place = choose|place: int|
        0 <= place < ascending(ranks).len() && ascending(ranks)[place] == key.spec_rank();
    let stale = edits_spread(document, registry).invalidations;
    assert(keys_of(ranks)[place] == key);
    assert(stale[document.invalidations.len() + place].key == key);
}

/// Transient planes of the first `count` effect nodes that take part.
pub open spec fn node_planes(
    graph: EffectGraphModel,
    registry: Map<u64, EffectDescriptor>,
    count: nat,
) -> Seq<PaintPlaneDescriptor>
    decreases count,
{
    if count == 0 {
        Seq::empty()
    } else {
        let before = node_planes(graph, registry, (count - 1) as nat);
        if graph.participates(registry, count - 1) {
            before + registry[graph.nodes[count - 1].effect.0 as u64].scratch_planes@
        } else {
            before
        }
    }
}

/// Transient planes of a paint model and of the effects that take part.
pub open spec fn planes_at_work(
    model: Seq<PaintPlaneDescriptor>,
    graph: EffectGraphModel,
    registry: Map<u64, EffectDescriptor>,
) -> Seq<PaintPlaneDescriptor> {
    model + node_planes(graph, registry, graph.nodes.len())
}

fn append_planes(output: &mut Vec<PaintPlaneDescriptor>, planes: &Vec<PaintPlaneDescriptor>)
    ensures
        final(output)@ == old(output)@ + planes@,
{
    let ghost before = output@;
    for i in 0..planes.len()
        invariant
            output@ == before + planes@.take(i as int),
    {
        output.push(planes[i]);
        assert(output@ =~= before + planes@.take(i + 1));
    }
    assert(planes@.take(planes@.len() as int) =~= planes@);
}

/// Transient planes of a paint model and of the effects that take part.
pub fn work_planes(
    model: &PaintModelDescriptor,
    document: &StrokeDocument,
    effects: &EffectRegistry,
) -> (planes: Vec<PaintPlaneDescriptor>)
    requires
        effects.well_formed(),
    ensures
        planes@ == planes_at_work(model.scratch_planes@, document@.effects, effects@),
{
    let mut planes: Vec<PaintPlaneDescriptor> = Vec::new();
    append_planes(&mut planes, &model.scratch_planes);
    let ghost own = model.scratch_planes@;
    let ghost graph = document@.effects;
    let nodes = document.effects().nodes();
    assert(planes@ =~= own + node_planes(graph, effects@, 0));
    for i in 0..nodes.len()
        invariant
            effects.well_formed(),
            node_models(nodes@) == graph.nodes,
            planes@ == own + node_planes(graph, effects@, i as nat),
    {
        assert(node_models(nodes@)[i as int] == nodes@[i as int]@);
        let ghost earlier = planes@;
        if nodes[i].enabled {
            if let Some(descriptor) = effects.get(nodes[i].effect) {
                assert(graph.participates(effects@, i as int));
                append_planes(&mut planes, &descriptor.scratch_planes);
            }
        }
        assert(planes@ =~= own + node_planes(graph, effects@, (i + 1) as nat));
    }
    planes
}

/// Document and cache after the cache noticed which geometry it belongs to.
pub open spec fn adopted(document: DocumentModel, cache: CacheModel) -> (
    DocumentModel,
    CacheModel,
) {
    if cache.document_generation == Some(document.geometry_generation) {
        (document, cache)
    } else {
        (
            document.layout_changed(),
            CacheModel {
                document_generation: Some(document.geometry_generation),
                ..cache.reset()
            },
        )
    }
}

/// The document at the configured tile size.
pub open spec fn at_tile_size(
    document: DocumentModel,
    size: u32,
    coverage: Seq<CoverageModel>,
) -> DocumentModel {
    if document.tile_size == size { document } else { document.tiles_resized(size, coverage) }
}

/// The document at the radius of its effects.
pub open spec fn at_radius(
    document: DocumentModel,
    radius: u32,
    coverage: Seq<CoverageModel>,
) -> DocumentModel {
    if document.effect_radius_px == radius { document } else {
        document.radius_changed(radius, coverage)
    }
}

/// Document and cache after the configuration was applied.
pub open spec fn reconfigured(
    document: DocumentModel,
    cache: CacheModel,
    layout: LayoutModel,
    budget: u64,
) -> (DocumentModel, CacheModel) {
    if cache.layout == Some(layout) && cache.budget == budget {
        (document, cache)
    } else {
        (document.layout_changed(), cache.configured(layout, budget))
    }
}

/// Document and cache after the reports of the render side were taken in.
pub open spec fn briefed(
    document: DocumentModel,
    cache: CacheModel,
    reports: Seq<TileRenderFeedback>,
) -> (DocumentModel, CacheModel) {
    let informed = cache.informed_by(reports, reports.len());
    if reports.contains(TileRenderFeedback::DeviceReset) {
        let lost = document.device_lost();
        (
            lost,
            CacheModel {
                document_generation: Some(lost.geometry_generation),
                ..informed.reset()
            },
        )
    } else {
        (document, informed)
    }
}

/// Document and cache before a frame's invalidations are taken in.
pub open spec fn prepared(
    document: DocumentModel,
    cache: CacheModel,
    layout: LayoutModel,
    budget: u64,
    radius: u32,
    reports: Seq<TileRenderFeedback>,
    resized: Seq<CoverageModel>,
    widened: Seq<CoverageModel>,
) -> (DocumentModel, CacheModel) {
    let (known, kept) = adopted(document, cache);
    let sized = at_tile_size(known, layout.tile_size, resized);
    let reached = at_radius(sized, radius, widened);
    let (laid_out, configured) = reconfigured(reached, kept, layout, budget);
    briefed(laid_out, configured, reports)
}

/// A changed layout keeps what coverage depends on.
proof fn lemma_layout_changed_covers(document: DocumentModel, coverage: Seq<CoverageModel>)
    requires
        document.covers_strokes(coverage),
    ensures
        document.layout_changed().covers_strokes(coverage),
{
    let after = document.layout_changed();
    assert(after.strokes.len() == document.strokes.len());
    assert forall|i: int|
        0 <= i < after.strokes.len()
            && (#[trigger] after.strokes[i]).complete implies after.covers_stroke(
        i,
        coverage[i],
    ) by {
        assert(document.strokes[i].complete);
    }
}

/// A changed tile size keeps what coverage depends on.
proof fn lemma_tiles_resized_covers(
    document: DocumentModel,
    size: u32,
    resized: Seq<CoverageModel>,
    coverage: Seq<CoverageModel>,
)
    requires
        document.covers_strokes(coverage),
    ensures
        document.tiles_resized(size, resized).covers_strokes(coverage),
{
    let after = document.tiles_resized(size, resized);
    assert(after.strokes.len() == document.strokes.len());
    assert forall|i: int|
        0 <= i < after.strokes.len()
            && (#[trigger] after.strokes[i]).complete implies after.covers_stroke(
        i,
        coverage[i],
    ) by {
        assert(document.strokes[i].complete);
    }
}

/// Brings document and cache to the configured layout and takes in the reports of
/// the render side.
///
/// `resized` names, for every stroke, the tiles of the configured size under it,
/// and `widened` the tiles under it once it is widened by `radius_px`; each is
/// read only where the document had another size or radius.
pub fn prepare_tiles(
    document: &mut StrokeDocument,
    cache: &mut CanvasTileCache,
    model: &PaintModelDescriptor,
    settings: &StrokeRendererSettings,
    radius_px: u32,
    reports: &Vec<TileRenderFeedback>,
    resized: &Vec<StrokeCoverage>,
    widened: &Vec<StrokeCoverage>,
)
    requires
        old(document).well_formed(),
        old(cache).well_formed(),
        planes_fit(model.persistent_planes@, tile_edge(settings.tile_size), 1),
        old(document)@.tile_size != tile_edge(settings.tile_size)
            ==> old(document)@.covers_strokes(coverage_models(resized@)),
        old(document)@.effect_radius_px != radius_px ==> old(document)@.covers_strokes(
            coverage_models(widened@),
        ),
    ensures
        final(document).well_formed(),
        old(document)@.coherent() ==> final(document)@.coherent(),
        final(cache).well_formed(),
        (final(document)@, final(cache)@) == prepared(
            old(document)@,
            old(cache)@,
            model_layout(model.id, model.version, model.persistent_planes@, settings.tile_size),
            settings.gpu_cache_budget_bytes,
            radius_px,
            reports@,
            coverage_models(resized@),
            coverage_models(widened@),
        ),
{
    let ghost first = document@;
    proof {
        if first.tile_size != tile_edge(settings.tile_size) {
            lemma_layout_changed_covers(first, coverage_models(resized@));
        }
        if first.effect_radius_px != radius_px {
            lemma_layout_changed_covers(first, coverage_models(widened@));
        }
    }
    let generation: u64 = document.geometry_generation();
    let adopted_already = match cache.document_generation() {
        Some(known) => known == generation,
        None => false,
    };
    if !adopted_already {
        cache.reset_records();
        cache.set_document_generation(generation);
        document.invalidate_cache_layout();
    }
    let ghost known = document@;
    document.set_tile_size(settings.tile_size, resized);
    proof {
        if first.effect_radius_px != radius_px {
            lemma_tiles_resized_covers(
                known,
                tile_edge(settings.tile_size),
                coverage_models(resized@),
                coverage_models(widened@),
            );
        }
    }
    document.set_effect_radius(radius_px, widened);
    if cache.configure(model, settings.tile_size, settings.gpu_cache_budget_bytes) {
        document.invalidate_cache_layout();
    }
    if cache.apply_feedback(reports) {
        cache.reset_records();
        document.regenerate_after_device_loss();
        cache.set_document_generation(document.geometry_generation());
    }
}

/// Positions of the strokes whose tiles all serve them: the overlay lets them go.
pub open spec fn served_strokes(document: DocumentModel, cache: CacheModel) -> Set<usize> {
    Set::new(
        |i: usize|
            document.awaits_handover(i) && forall|k: int|
                0 <= k < document.strokes[i as int].affected_tiles.len() ==> cache.tile_ready(
                    #[trigger] document.strokes[i as int].affected_tiles[k],
                    document.strokes[i as int].revision,
                ),
    )
}

/// Number of tiles that one frame may replay.
pub open spec fn replay_budget(settings: StrokeRendererSettings, drawing: bool) -> u32 {
    if drawing { settings.max_dirty_tiles_while_drawing } else {
        settings.max_dirty_tiles_while_idle
    }
}

/// Number of tiles on which effects may run in one frame.
pub open spec fn effect_budget(settings: StrokeRendererSettings, drawing: bool) -> u32 {
    if drawing { settings.max_effect_tiles_while_drawing } else {
        settings.max_effect_tiles_while_idle
    }
}

/// Lets the overlay go of strokes whose tiles all serve them.
pub fn hand_over(document: &mut StrokeDocument, cache: &CanvasTileCache)
    requires
        old(document).well_formed(),
    ensures
        final(document).well_formed(),
        old(document)@.coherent() ==> final(document)@.coherent(),
        final(document)@ == old(document)@.handed_over(
            served_strokes(old(document)@, cache@),
        ),
{
    let ghost before = document@;
    let probe = |key: TileKey, revision: u64| -> (ready: bool)
        ensures
            ready == cache@.tile_ready(key, revision),
        { cache.tile_is_ready(key, revision) };
    document.refresh_cache_handoffs(probe);
    proof {
        let ready = choose|ready: Set<usize>|
            {
                &&& document@ == #[trigger] before.handed_over(ready)
                &&& forall|i: usize| #[trigger]
                    ready.contains(i) ==> before.awaits_handover(i) && confirmed(
                        probe,
                        before.strokes[i as int],
                    )
                &&& forall|i: usize|
                    before.awaits_handover(i) && !#[trigger] ready.contains(i) ==> contested(
                        probe,
                        before.strokes[i as int],
                    )
            };
        assert(ready =~= served_strokes(before, cache@)) by {
            assert forall|i: usize| ready.contains(i) <==> served_strokes(
                before,
                cache@,
            ).contains(i) by {
                if ready.contains(i) {
                    assert(confirmed(probe, before.strokes[i as int]));
                }
                if before.awaits_handover(i) && !ready.contains(i) {
                    assert(contested(probe, before.strokes[i as int]));
                }
            }
        }
    }
}

/// Updates visibility, schedules tile work within the frame's budgets, and lets
/// the overlay go of strokes whose tiles all serve them.
pub fn advance_tiles(
    document: &mut StrokeDocument,
    cache: &mut CanvasTileCache,
    settings: &StrokeRendererSettings,
    planes: &Vec<PaintPlaneDescriptor>,
    view: Option<TileSpan>,
)
    requires
        old(document).well_formed(),
        old(cache).well_formed(),
        ({
            let drawing = !old(document)@.active.is_empty();
            let tiles = replay_budget(*settings, drawing);
            let effects = effect_budget(*settings, drawing);
            planes_fit(
                planes@,
                old(cache)@.tile_size(),
                if tiles < effects { tiles } else { effects },
            )
        }),
    ensures
        final(document).well_formed(),
        old(document)@.coherent() ==> final(document)@.coherent(),
        final(cache).well_formed(),
        ({
            let drawing = !old(document)@.active.is_empty();
            let seen = old(cache)@.looked_at(old(document)@, view);
            let display = final(cache)@.batch.display;
            &&& seen.lists_displayed(old(document)@, display)
            &&& final(cache)@ == seen.scheduled(
                old(document)@,
                replay_budget(*settings, drawing),
                effect_budget(*settings, drawing),
                planes@,
                display,
            )
        }),
        final(document)@ == old(document)@.handed_over(
            served_strokes(old(document)@, final(cache)@),
        ),
{
    let ghost before = document@;
    let ghost first = cache@;
    proof {
        cache.lemma_value_well_formed();
        lemma_looked_at(first, before, view);
    }
    cache.update_visibility(document, view);
    let drawing = document.is_drawing();
    let budget: u32 = if drawing {
        settings.max_dirty_tiles_while_drawing
    } else {
        settings.max_dirty_tiles_while_idle
    };
    let effects: u32 = if drawing {
        settings.max_effect_tiles_while_drawing
    } else {
        settings.max_effect_tiles_while_idle
    };
    cache.schedule(document, budget, effects, planes);
    hand_over(document, cache);
}

/// A released stroke stays in the overlay until all of its tiles serve it, and leaves
/// it in that very frame: no stroke is left in the overlay while all of its tiles
/// serve it. Contacts and hidden strokes are not touched.
pub proof fn law_released_strokes_are_shown_by_overlay_or_tiles(
    document: DocumentModel,
    cache: CacheModel,
    i: usize,
)
    requires
        document.well_formed(),
        i < document.strokes.len(),
    ensures
        ({
            let stroke = document.strokes[i as int];
            let after = document.handed_over(served_strokes(document, cache));
            let served = forall|k: int|
                0 <= k < stroke.affected_tiles.len() ==> cache.tile_ready(
                    #[trigger] stroke.affected_tiles[k],
                    stroke.revision,
                );
            if document.awaits_handover(i) {
                &&& after.overlay.contains(i) <==> !served
                &&& served ==> after.strokes[i as int].state is Cached
            } else {
                &&& after.overlay.contains(i) <==> document.overlay.contains(i)
                &&& after.strokes[i as int] == stroke
            }
        }),
{
}

} // verus!
