use hamerons_stroke_render::cache::TileRenderFeedback;
use hamerons_stroke_render::effects::pass_through_descriptor;
use hamerons_stroke_render::geometry::{
    halo_is_addressable, tiles_for_span, Bounds, TileSpan, Vector,
};
use hamerons_stroke_render::maintenance::{
    advance_tiles, effect_radius, hand_over, prepare_tiles, spread_edits, work_planes,
};
use hamerons_stroke_render::strokes::{StrokeCoverage, TileInvalidation, TileInvalidationCause};
use hamerons_stroke_render::surface::planes_are_addressable;
use hamerons_stroke_render::tiles::replay_for_tile;
use hamerons_stroke_render::{
    neighbor_halo, CanvasTileCache, DepositionOrdering, EffectDescriptor, EffectDomain,
    EffectGraph, EffectId, EffectInfluence, EffectRegistry, LayerId, PaintModelDescriptor,
    PaintModelId, PaintPlaneClearValue, PaintPlaneDescriptor, PaintPlaneFormat, RgbaPaintModel,
    Scalar, StrokeDelta, StrokeDocument, StrokeId, StrokePoint, StrokeRendererSettings,
    StrokeState, TileCacheState, TileKey, TileSurfaceLayout,
};

fn scalar(value: f32) -> Scalar {
    Scalar::from_bits(value.to_bits())
}

fn vector(x: f32, y: f32) -> Vector {
    Vector { x: scalar(x), y: scalar(y) }
}

fn number(value: Scalar) -> f32 {
    f32::from_bits(value.bits)
}

fn reach(point: StrokePoint) -> Bounds {
    let radius =
        number(point.half_width).max(0.0) * number(point.aspect_ratio).max(1.0) + 2.0;
    let x = number(point.position.x);
    let y = number(point.position.y);
    Bounds { min: vector(x - radius, y - radius), max: vector(x + radius, y + radius) }
}

fn span(bounds: Bounds, margin: f32, tile_size: u32) -> TileSpan {
    let edge = tile_size.max(1) as f32;
    TileSpan {
        min_x: ((number(bounds.min.x) - margin) / edge).floor() as i32,
        min_y: ((number(bounds.min.y) - margin) / edge).floor() as i32,
        max_x: ((number(bounds.max.x) + margin) / edge).floor() as i32,
        max_y: ((number(bounds.max.y) + margin) / edge).floor() as i32,
    }
}

fn joined(a: Bounds, b: Bounds) -> Bounds {
    Bounds {
        min: vector(
            number(a.min.x).min(number(b.min.x)),
            number(a.min.y).min(number(b.min.y)),
        ),
        max: vector(
            number(a.max.x).max(number(b.max.x)),
            number(a.max.y).max(number(b.max.y)),
        ),
    }
}

fn coverage_at(document: &StrokeDocument, index: usize, tile_size: u32) -> StrokeCoverage {
    let stroke = &document.strokes()[index];
    let first = stroke.first_segment as usize;
    let last = first + stroke.segment_count as usize;
    let mut segments = Vec::new();
    for segment in &document.segments()[first..last] {
        let a = reach(document.points()[segment.start as usize]);
        let b = reach(document.points()[segment.end as usize]);
        segments.push(span(joined(a, b), 0.0, tile_size));
    }
    StrokeCoverage {
        affected: span(stroke.bounds, document.effect_radius_px() as f32, tile_size),
        segments,
    }
}

fn coverage(document: &StrokeDocument, index: usize) -> StrokeCoverage {
    coverage_at(document, index, document.tile_size())
}

fn begin(document: &mut StrokeDocument, first: StrokePoint) -> (StrokeId, StrokeDelta) {
    document.begin_stroke(first, reach(first), StrokeRendererSettings::default().pen)
}

fn append(
    document: &mut StrokeDocument,
    stroke: StrokeId,
    next: StrokePoint,
) -> Option<StrokeDelta> {
    document.append_point(stroke, next, reach(next))
}

fn end(document: &mut StrokeDocument, stroke: StrokeId) -> Option<StrokeDelta> {
    let index = document.strokes().iter().position(|item| item.id == stroke).unwrap();
    let covered = coverage(document, index);
    document.end_stroke(stroke, &covered)
}

fn point(x: f32) -> StrokePoint {
    StrokePoint {
        position: vector(x, 8.0),
        half_width: scalar(1.0),
        aspect_ratio: scalar(1.0),
        flow: scalar(1.0),
        orientation: vector(0.0, 1.0),
        twist_radians: scalar(0.0),
    }
}

fn drawn(document: &mut StrokeDocument, x: f32) -> StrokeId {
    let (stroke, _) = begin(document, point(x));
    append(document, stroke, point(x + 1.0));
    end(document, stroke).unwrap();
    stroke
}

fn plane(name: &'static str, format: PaintPlaneFormat) -> PaintPlaneDescriptor {
    PaintPlaneDescriptor { name, semantic: "mock", format, clear: PaintPlaneClearValue::Zero }
}

fn mock_two_plane_model() -> PaintModelDescriptor {
    PaintModelDescriptor {
        id: PaintModelId(77),
        version: 3,
        name: "mock pigment",
        persistent_planes: vec![
            plane("absorption", PaintPlaneFormat::Rgba16Float),
            plane("concentration", PaintPlaneFormat::R32Float),
        ],
        scratch_planes: vec![plane("mix_scratch", PaintPlaneFormat::R32Float)],
        deposition_ordering: DepositionOrdering::Strict,
    }
}

fn commit(key: TileKey, revision: u64) -> TileInvalidation {
    TileInvalidation {
        key,
        revision,
        cause: TileInvalidationCause::StrokeCommit,
        allow_stale_display: false,
        halo_radius_px: 0,
    }
}

fn tile(x: i32) -> TileKey {
    TileKey::new(LayerId(0), x, 0)
}

fn row(from: i32, to: i32) -> Option<TileSpan> {
    Some(TileSpan { min_x: from, min_y: 0, max_x: to, max_y: 0 })
}

fn complete(cache: &mut CanvasTileCache) {
    let reports: Vec<TileRenderFeedback> = cache
        .batch()
        .jobs
        .iter()
        .map(|job| TileRenderFeedback::Complete { key: job.key, revision: job.revision })
        .collect();
    assert!(!cache.apply_feedback(&reports));
}

fn small_cache(model: &PaintModelDescriptor, slots: u64) -> CanvasTileCache {
    let bytes = TileSurfaceLayout::from_model(model, 16).bytes_per_tile;
    let mut cache = CanvasTileCache::default();
    assert!(cache.configure(model, 16, bytes * slots));
    cache
}

#[test]
fn mock_two_plane_model_drives_allocation_and_budget() {
    let layout = TileSurfaceLayout::from_model(&mock_two_plane_model(), 64);
    assert_eq!(layout.planes.len(), 2);
    assert_eq!(layout.bytes_per_tile, 64 * 64 * (8 + 4));

    let mut cache = CanvasTileCache::default();
    assert!(cache.configure(&mock_two_plane_model(), 64, layout.bytes_per_tile * 2));
    cache.invalidate(TileInvalidation {
        key: TileKey::new(LayerId(0), 0, 0),
        revision: 1,
        cause: TileInvalidationCause::StrokeCommit,
        allow_stale_display: false,
        halo_radius_px: 0,
    });
    assert_eq!(cache.ensure_slot(TileKey::new(LayerId(0), 0, 0)), Some(0));
    assert_eq!(cache.stats().persistent_bytes, layout.bytes_per_tile);
}

#[test]
fn nonzero_radius_requests_complete_neighbor_halo() {
    let center = TileKey::new(LayerId(2), -3, 8);
    let halo = neighbor_halo(center, 257, 256);
    assert_eq!(halo.len(), 24);
    assert!(halo.contains(&TileKey::new(LayerId(2), -5, 6)));
    assert!(halo.contains(&TileKey::new(LayerId(2), -1, 10)));
    assert!(!halo.contains(&center));
}

#[test]
fn cache_handoff_uses_a_complete_displayable_tile_without_double_presenting() {
    let model = mock_two_plane_model();
    let bytes = TileSurfaceLayout::from_model(&model, 16).bytes_per_tile;
    let mut cache = CanvasTileCache::default();
    cache.configure(&model, 16, bytes);
    let key = TileKey::new(LayerId(0), 0, 0);
    cache.invalidate(TileInvalidation {
        key,
        revision: 7,
        cause: TileInvalidationCause::StrokeCommit,
        allow_stale_display: false,
        halo_radius_px: 0,
    });
    assert_eq!(cache.ensure_slot(key), Some(0));
    cache.schedule(&StrokeDocument::default(), 1, 0, &Vec::new());
    assert_eq!(cache.tile_state(key), Some(TileCacheState::Scheduled));

    assert!(!cache.apply_feedback(&vec![TileRenderFeedback::Complete { key, revision: 7 }]));
    assert_eq!(cache.tile_state(key), Some(TileCacheState::Ready));
    assert!(cache.tile_is_ready(key, 7));

    assert!(!cache.apply_feedback(&vec![TileRenderFeedback::Presented { key, revision: 7 }]));
    assert!(cache.tile_is_ready(key, 7));
}

#[test]
fn display_batch_respects_document_layer_order_and_opacity() {
    let model = RgbaPaintModel::descriptor();
    let bytes = TileSurfaceLayout::from_model(&model, 16).bytes_per_tile * 4;
    let mut cache = CanvasTileCache::default();
    cache.configure(&model, 16, bytes);
    let mut document = StrokeDocument::default();
    let lower = document.active_layer();
    let upper = document.add_layer("Upper");
    document.set_layer_opacity(upper, scalar(0.35));

    for layer in [lower, upper] {
        cache.invalidate(TileInvalidation {
            key: TileKey::new(layer, 0, 0),
            revision: 1,
            cause: TileInvalidationCause::StrokeCommit,
            allow_stale_display: false,
            halo_radius_px: 0,
        });
    }
    cache.schedule(&document, 2, 0, &Vec::new());
    complete(&mut cache);
    cache.update_visibility(&document, row(0, 0));

    cache.schedule(&document, 0, 0, &Vec::new());
    assert_eq!(cache.batch().display.len(), 2);
    assert_eq!(cache.batch().display[0].key.layer, lower);
    assert_eq!(number(cache.batch().display[0].opacity), 1.0);
    assert_eq!(cache.batch().display[1].key.layer, upper);
    assert_eq!(number(cache.batch().display[1].opacity), 0.35);

    document.move_layer(upper, 0);
    cache.schedule(&document, 0, 0, &Vec::new());
    assert_eq!(cache.batch().display[0].key.layer, upper);
}

#[test]
fn eviction_only_reuses_clean_offscreen_slots() {
    let model = mock_two_plane_model();
    let bytes = TileSurfaceLayout::from_model(&model, 16).bytes_per_tile;
    let mut cache = CanvasTileCache::default();
    cache.configure(&model, 16, bytes);
    let first = TileKey::new(LayerId(0), 0, 0);
    let second = TileKey::new(LayerId(0), 1, 0);
    cache.invalidate(commit(first, 1));
    assert_eq!(cache.ensure_slot(first), Some(0));
    cache.schedule(&StrokeDocument::default(), 1, 0, &Vec::new());
    complete(&mut cache);
    assert_eq!(cache.tile_state(first), Some(TileCacheState::Ready));
    cache.invalidate(commit(second, 2));
    assert_eq!(cache.ensure_slot(second), Some(0));
    assert_eq!(cache.tile_state(first), Some(TileCacheState::Evicted));
    assert_eq!(cache.stats().evicted_tiles, 1);
}

#[test]
fn dirty_or_visible_tiles_keep_their_slots() {
    let document = StrokeDocument::default();
    let mut cache = small_cache(&mock_two_plane_model(), 1);
    cache.invalidate(commit(tile(0), 1));
    assert_eq!(cache.ensure_slot(tile(0)), Some(0));
    cache.invalidate(commit(tile(1), 1));
    assert_eq!(cache.ensure_slot(tile(1)), None);

    let mut cache = small_cache(&mock_two_plane_model(), 1);
    cache.invalidate(commit(tile(0), 1));
    cache.schedule(&document, 1, 0, &Vec::new());
    complete(&mut cache);
    cache.update_visibility(&document, row(0, 0));
    cache.invalidate(commit(tile(1), 1));
    assert_eq!(cache.ensure_slot(tile(1)), None);
    assert_eq!(cache.stats().evicted_tiles, 0);
}

#[test]
fn the_tile_that_was_seen_longest_ago_goes_first() {
    let document = StrokeDocument::default();
    let mut cache = small_cache(&mock_two_plane_model(), 2);
    cache.invalidate(commit(tile(0), 1));
    cache.invalidate(commit(tile(1), 1));
    cache.schedule(&document, 2, 0, &Vec::new());
    complete(&mut cache);
    cache.update_visibility(&document, row(0, 0));
    cache.update_visibility(&document, row(1, 1));
    cache.update_visibility(&document, None);
    cache.invalidate(commit(tile(2), 2));
    assert!(cache.ensure_slot(tile(2)).is_some());
    assert_eq!(cache.tile_state(tile(0)), Some(TileCacheState::Evicted));
    assert_eq!(cache.tile_state(tile(1)), Some(TileCacheState::Ready));
}

#[test]
fn stale_completions_are_ignored() {
    let document = StrokeDocument::default();
    let mut cache = small_cache(&mock_two_plane_model(), 4);
    cache.invalidate(commit(tile(0), 1));
    cache.schedule(&document, 1, 0, &Vec::new());
    cache.invalidate(commit(tile(0), 2));
    cache.apply_feedback(&vec![TileRenderFeedback::Complete { key: tile(0), revision: 1 }]);
    assert_eq!(cache.tile_state(tile(0)), Some(TileCacheState::Dirty));
    assert!(!cache.tile_is_ready(tile(0), 1));
    assert_eq!(cache.stats().rasterized_tiles, 0);
}

#[test]
fn evicted_tiles_are_replayed_when_they_come_back() {
    let document = StrokeDocument::default();
    let mut cache = small_cache(&mock_two_plane_model(), 1);
    cache.invalidate(commit(tile(0), 1));
    cache.schedule(&document, 1, 0, &Vec::new());
    complete(&mut cache);
    cache.invalidate(commit(tile(1), 2));
    cache.schedule(&document, 1, 0, &Vec::new());
    complete(&mut cache);
    assert_eq!(cache.tile_state(tile(0)), Some(TileCacheState::Evicted));
    cache.update_visibility(&document, row(0, 0));
    assert_eq!(cache.tile_state(tile(0)), Some(TileCacheState::Dirty));
    cache.schedule(&document, 1, 0, &Vec::new());
    complete(&mut cache);
    assert_eq!(cache.tile_state(tile(0)), Some(TileCacheState::Ready));
    assert_eq!(cache.stats().regenerated_tiles, 1);
}

#[test]
fn tiles_in_view_are_replayed_first_and_within_the_budget() {
    let mut document = StrokeDocument::default();
    let covered = Vec::new();
    document.set_tile_size(16, &covered);
    let mut cache = small_cache(&mock_two_plane_model(), 8);
    for x in 0..4 {
        cache.invalidate(commit(tile(x), 1));
    }
    cache.update_visibility(&document, row(2, 3));
    cache.schedule(&document, 3, 0, &Vec::new());
    let keys: Vec<TileKey> = cache.batch().jobs.iter().map(|job| job.key).collect();
    assert_eq!(keys, vec![tile(2), tile(3), tile(0)]);
    assert_eq!(cache.tile_state(tile(1)), Some(TileCacheState::Dirty));
    assert_eq!(cache.stats().dirty_tiles, 4);
}

#[test]
fn retried_tiles_are_queued_again() {
    let document = StrokeDocument::default();
    let mut cache = small_cache(&mock_two_plane_model(), 2);
    cache.invalidate(commit(tile(0), 5));
    cache.schedule(&document, 1, 0, &Vec::new());
    cache.apply_feedback(&vec![TileRenderFeedback::Retry { key: tile(0), revision: 5 }]);
    assert_eq!(cache.tile_state(tile(0)), Some(TileCacheState::Dirty));
    cache.schedule(&document, 1, 0, &Vec::new());
    assert_eq!(cache.batch().jobs.len(), 1);
    assert_eq!(cache.batch().jobs[0].revision, 5);
}

#[test]
fn the_device_limits_the_slots() {
    let mut cache = small_cache(&mock_two_plane_model(), 9);
    let reports = vec![
        TileRenderFeedback::Capacity { max_slots: 1 },
        TileRenderFeedback::DeviceReset,
    ];
    assert!(cache.apply_feedback(&reports));
    cache.invalidate(commit(tile(0), 1));
    cache.invalidate(commit(tile(1), 1));
    assert_eq!(cache.ensure_slot(tile(0)), Some(0));
    assert_eq!(cache.ensure_slot(tile(1)), None);
    assert_eq!(cache.ensure_slot(tile(0)), Some(0));
}

#[test]
fn another_layout_forgets_all_tiles() {
    let mut cache = small_cache(&mock_two_plane_model(), 2);
    cache.invalidate(commit(tile(0), 1));
    let budget = TileSurfaceLayout::from_model(&mock_two_plane_model(), 16).bytes_per_tile * 2;
    assert!(!cache.configure(&mock_two_plane_model(), 16, budget));
    assert_eq!(cache.tile_state(tile(0)), Some(TileCacheState::Dirty));
    assert!(cache.configure(&mock_two_plane_model(), 32, budget));
    assert_eq!(cache.tile_state(tile(0)), None);
    assert_eq!(cache.layout().unwrap().tile_size, 32);
}

#[test]
fn scratch_planes_are_counted_while_work_runs() {
    let document = StrokeDocument::default();
    let mut cache = small_cache(&mock_two_plane_model(), 4);
    cache.invalidate(commit(tile(0), 1));
    cache.invalidate(commit(tile(1), 1));
    let planes = vec![plane("scratch", PaintPlaneFormat::R32Float)];
    assert!(planes_are_addressable(&planes, 16, 2));
    cache.schedule(&document, 2, 2, &planes);
    assert_eq!(cache.stats().scratch_high_water_bytes, 16 * 16 * 4 * 2);
}

#[test]
fn replays_follow_document_order_and_leave_out_hidden_strokes() {
    let mut document = StrokeDocument::default();
    drawn(&mut document, 4.0);
    drawn(&mut document, 6.0);
    drawn(&mut document, 9.0);
    document.undo();
    let replay = replay_for_tile(&document, tile(0));
    assert_eq!(replay.len(), 2);
    assert_eq!(replay[0].segment_indices, vec![0, 1]);
    assert_eq!(replay[1].segment_indices, vec![2, 3]);
    assert!(replay_for_tile(&document, tile(9)).is_empty());
}

#[test]
fn halos_that_leave_the_plane_are_recognized() {
    assert!(halo_is_addressable(TileKey::new(LayerId(0), 0, 0), 40, 16));
    assert!(!halo_is_addressable(TileKey::new(LayerId(0), i32::MAX, 0), 40, 16));
    assert!(halo_is_addressable(TileKey::new(LayerId(0), i32::MAX, 0), 0, 16));
    assert!(neighbor_halo(tile(0), 0, 16).is_empty());
    assert_eq!(neighbor_halo(tile(0), 16, 16).len(), 8);
}

#[test]
fn spans_list_their_tiles_row_by_row() {
    let tiles = tiles_for_span(
        TileSpan { min_x: 0, min_y: 5, max_x: 1, max_y: 6 },
        LayerId(3),
    );
    assert_eq!(
        tiles,
        vec![
            TileKey::new(LayerId(3), 0, 5),
            TileKey::new(LayerId(3), 1, 5),
            TileKey::new(LayerId(3), 0, 6),
            TileKey::new(LayerId(3), 1, 6),
        ]
    );
    let nothing = TileSpan { min_x: 2, min_y: 0, max_x: 1, max_y: 4 };
    assert!(tiles_for_span(nothing, LayerId(3)).is_empty());
}

#[test]
fn a_frame_of_maintenance_hands_strokes_over_to_tiles() {
    let mut document = StrokeDocument::default();
    let mut cache = CanvasTileCache::default();
    let model = RgbaPaintModel::descriptor();
    let settings = StrokeRendererSettings::default();
    let mut effects = EffectRegistry::default();
    effects.register(pass_through_descriptor());
    assert_eq!(effect_radius(&document, &effects), 0);
    let planes = work_planes(&model, &document, &effects);
    let nothing = Vec::new();
    let reports = Vec::new();
    prepare_tiles(
        &mut document, &mut cache, &model, &settings, 0, &reports, &nothing, &nothing,
    );
    assert_eq!(cache.layout().unwrap().tile_size, settings.tile_size);

    let stroke = drawn(&mut document, 4.0);
    let covered = vec![coverage(&document, 0)];
    prepare_tiles(
        &mut document, &mut cache, &model, &settings, 0, &reports, &covered, &covered,
    );
    let pending = document.drain_invalidations();
    cache.invalidate_all(&pending);
    advance_tiles(&mut document, &mut cache, &settings, &planes, row(0, 0));
    assert_eq!(cache.batch().jobs.len(), document.stroke(stroke).unwrap().affected_tiles.len());
    assert_eq!(document.stroke(stroke).unwrap().state, StrokeState::PendingCache);

    complete(&mut cache);
    hand_over(&mut document, &cache);
    assert_eq!(document.stroke(stroke).unwrap().state, StrokeState::Cached);
    assert!(document.overlay_segment_ranges().is_empty());
}

#[test]
fn scratch_planes_of_effects_join_those_of_the_model() {
    let mut effects = EffectRegistry::default();
    effects.register(EffectDescriptor {
        id: EffectId(3),
        implementation_version: 1,
        domain: EffectDomain::LinearDisplayRgba,
        influence: EffectInfluence::Local { radius_px: 12 },
        scratch_planes: vec![plane("blur", PaintPlaneFormat::Rgba8Unorm)],
    });
    let mut document = StrokeDocument::default();
    let mut graph = EffectGraph::default();
    graph.add_node(EffectId(3), 1);
    document.set_effects(graph);
    assert_eq!(effect_radius(&document, &effects), 12);
    let names: Vec<&str> = work_planes(&mock_two_plane_model(), &document, &effects)
        .iter()
        .map(|plane| plane.name)
        .collect();
    assert_eq!(names, vec!["mix_scratch", "blur"]);
}

#[test]
fn contacts_that_end_out_of_order_are_replayed_in_document_order() {
    let mut document = StrokeDocument::default();
    let (first, _) = begin(&mut document, point(4.0));
    let (second, _) = begin(&mut document, point(6.0));
    let (third, _) = begin(&mut document, point(8.0));
    end(&mut document, third).unwrap();
    end(&mut document, first).unwrap();
    end(&mut document, second).unwrap();
    let replay = replay_for_tile(&document, tile(0));
    let listed: Vec<Vec<u32>> =
        replay.iter().map(|stroke| stroke.segment_indices.clone()).collect();
    assert_eq!(listed, vec![vec![0], vec![1], vec![2]]);
}

#[test]
fn history_keeps_stroke_ranges_and_new_edits_discard_redo() {
    let mut document = StrokeDocument::default();
    let first = drawn(&mut document, 4.0);
    let second = drawn(&mut document, 40.0);
    let ranges = |document: &StrokeDocument| -> Vec<(StrokeId, u32, u32, u32, u32)> {
        document
            .strokes()
            .iter()
            .map(|item| {
                (
                    item.id,
                    item.first_point,
                    item.point_count,
                    item.first_segment,
                    item.segment_count,
                )
            })
            .collect()
    };
    let before = ranges(&document);
    assert_eq!(before, vec![(first, 0, 2, 0, 2), (second, 2, 2, 2, 2)]);
    assert!(document.undo());
    assert_eq!(ranges(&document), before);
    assert!(document.redo());
    assert_eq!(ranges(&document), before);
    document.undo();
    drawn(&mut document, 80.0);
    assert!(!document.redo());
    assert_eq!(ranges(&document)[..2], before[..]);
}

#[test]
fn an_effect_on_the_whole_surface_spreads_every_edit() {
    let mut effects = EffectRegistry::default();
    effects.register(EffectDescriptor {
        id: EffectId(4),
        implementation_version: 1,
        domain: EffectDomain::LinearDisplayRgba,
        influence: EffectInfluence::Global,
        scratch_planes: Vec::new(),
    });
    let mut document = StrokeDocument::default();
    let far = drawn(&mut document, 2000.0);
    let mut graph = EffectGraph::default();
    graph.add_node(EffectId(4), 1);
    document.set_effects(graph);
    document.drain_invalidations();
    assert_eq!(effect_radius(&document, &effects), 0);
    spread_edits(&mut document, &effects);
    assert!(document.drain_invalidations().is_empty());

    let near = drawn(&mut document, 4.0);
    spread_edits(&mut document, &effects);
    let stale: Vec<TileKey> =
        document.drain_invalidations().iter().map(|item| item.key).collect();
    for stroke in [near, far] {
        for key in &document.stroke(stroke).unwrap().affected_tiles {
            assert!(stale.contains(key));
        }
    }

    let mut local = EffectGraph::default();
    local.add_node(EffectId(0), 1);
    document.set_effects(local);
    document.drain_invalidations();
    drawn(&mut document, 8.0);
    spread_edits(&mut document, &effects);
    let stale: Vec<TileKey> =
        document.drain_invalidations().iter().map(|item| item.key).collect();
    assert!(!stale.contains(&document.stroke(far).unwrap().affected_tiles[0]));
}
