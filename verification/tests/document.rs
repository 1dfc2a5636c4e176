use hamerons_stroke_render::geometry::{Bounds, CanvasSize, TileSpan, Vector};
use hamerons_stroke_render::paint::{Rgba, RGBA_MODEL_VERSION};
use hamerons_stroke_render::strokes::{StrokeCoverage, TileInvalidation, TileInvalidationCause};
use hamerons_stroke_render::{
    BrushSizeSpace, CanvasLayer, DepositionMode, EffectGraph, EffectId, EffectNodeId, LayerId,
    PaintMaterialId, PaintMaterialPayload,
    PaintMaterialRecord, PaintMaterialRef, PaintModelId, RgbaMaterial, RgbaPaintModel, Scalar,
    StrokeDelta, StrokeDeltaBatch, StrokeDocument, StrokeId, StrokePoint, StrokeRendererSettings,
    StrokeState, StrokeStore, TileKey, RGBA_PAINT_MODEL_ID,
};
use std::collections::BTreeSet;

fn scalar(value: f32) -> Scalar {
    Scalar::from_bits(value.to_bits())
}

fn vector(x: f32, y: f32) -> Vector {
    Vector { x: scalar(x), y: scalar(y) }
}

fn number(value: Scalar) -> f32 {
    f32::from_bits(value.bits)
}

fn reach(point: StrokePoint) -> Bounds {
    let radius =
        number(point.half_width).max(0.0) * number(point.aspect_ratio).max(1.0) + 2.0;
    let x = number(point.position.x);
    let y = number(point.position.y);
    Bounds { min: vector(x - radius, y - radius), max: vector(x + radius, y + radius) }
}

fn span(bounds: Bounds, margin: f32, tile_size: u32) -> TileSpan {
    let edge = tile_size.max(1) as f32;
    TileSpan {
        min_x: ((number(bounds.min.x) - margin) / edge).floor() as i32,
        min_y: ((number(bounds.min.y) - margin) / edge).floor() as i32,
        max_x: ((number(bounds.max.x) + margin) / edge).floor() as i32,
        max_y: ((number(bounds.max.y) + margin) / edge).floor() as i32,
    }
}

fn joined(a: Bounds, b: Bounds) -> Bounds {
    Bounds {
        min: vector(
            number(a.min.x).min(number(b.min.x)),
            number(a.min.y).min(number(b.min.y)),
        ),
        max: vector(
            number(a.max.x).max(number(b.max.x)),
            number(a.max.y).max(number(b.max.y)),
        ),
    }
}

fn coverage_at(document: &StrokeDocument, index: usize, tile_size: u32) -> StrokeCoverage {
    let stroke = &document.strokes()[index];
    let first = stroke.first_segment as usize;
    let last = first + stroke.segment_count as usize;
    let mut segments = Vec::new();
    for segment in &document.segments()[first..last] {
        let a = reach(document.points()[segment.start as usize]);
        let b = reach(document.points()[segment.end as usize]);
        segments.push(span(joined(a, b), 0.0, tile_size));
    }
    StrokeCoverage {
        affected: span(stroke.bounds, document.effect_radius_px() as f32, tile_size),
        segments,
    }
}

fn coverage(document: &StrokeDocument, index: usize) -> StrokeCoverage {
    coverage_at(document, index, document.tile_size())
}

fn begin(document: &mut StrokeDocument, first: StrokePoint) -> (StrokeId, StrokeDelta) {
    document.begin_stroke(first, reach(first), StrokeRendererSettings::default().pen)
}

fn append(
    document: &mut StrokeDocument,
    stroke: StrokeId,
    next: StrokePoint,
) -> Option<StrokeDelta> {
    document.append_point(stroke, next, reach(next))
}

fn end(document: &mut StrokeDocument, stroke: StrokeId) -> Option<StrokeDelta> {
    let index = document.strokes().iter().position(|item| item.id == stroke).unwrap();
    let covered = coverage(document, index);
    document.end_stroke(stroke, &covered)
}

fn point(x: f32) -> StrokePoint {
    StrokePoint {
        position: vector(x, 2.0),
        half_width: scalar(3.0),
        aspect_ratio: scalar(1.0),
        flow: scalar(1.0),
        orientation: vector(0.0, 1.0),
        twist_radians: scalar(0.0),
    }
}

fn drawn(document: &mut StrokeDocument, x: f32) -> StrokeId {
    let (stroke, _) = begin(document, point(x));
    end(document, stroke).unwrap();
    stroke
}

fn keys(invalidations: &[TileInvalidation]) -> BTreeSet<TileKey> {
    invalidations.iter().map(|item| item.key).collect()
}

#[test]
fn stroke_storage_is_append_only_and_bridges_the_tip() {
    let mut store = StrokeStore::default();
    let (stroke, started) = begin(&mut store, point(0.0));
    let appended = append(&mut store, stroke, point(1.0)).unwrap();
    end(&mut store, stroke).unwrap();

    assert!(matches!(started, StrokeDelta::Begin { segment: 0, .. }));
    assert!(matches!(appended, StrokeDelta::Append { segment: 1, .. }));
    assert_eq!(store.points().len(), 2);
    assert_eq!(store.segments()[0].start, store.segments()[0].end);
    assert_eq!(store.segments()[1].end, 1);
    assert!(store.strokes()[0].complete);
}

#[test]
fn new_strokes_use_stable_active_layers_and_layer_edits_are_undoable() {
    let mut document = StrokeDocument::default();
    let upper = document.add_layer("Upper");
    let (stroke, _) = begin(&mut document, point(0.0));
    end(&mut document, stroke).unwrap();
    assert_eq!(document.stroke(stroke).unwrap().layer, upper);
    assert!(document
        .stroke(stroke)
        .unwrap()
        .affected_tiles
        .iter()
        .all(|key| key.layer == upper));

    document.set_layer_opacity(upper, scalar(0.4));
    document.set_layer_visibility(upper, false);
    assert!(!document.layer(upper).unwrap().visible);
    assert!(document.undo());
    assert!(document.layer(upper).unwrap().visible);
    assert!(document.undo());
    assert_eq!(number(document.layer(upper).unwrap().opacity), 1.0);
    assert!(document.redo());
    assert_eq!(number(document.layer(upper).unwrap().opacity), 0.4);
}

#[test]
fn normal_layer_order_changes_without_rewriting_stroke_geometry() {
    let mut document = StrokeDocument::default();
    let point_count = document.points().len();
    let second = document.add_layer("Second");
    let third = document.add_layer("Third");
    assert_eq!(document.layer_index(second), Some(1));
    assert_eq!(document.layer_index(third), Some(2));
    assert!(document.move_layer(third, 0));
    assert_eq!(document.layer_index(third), Some(0));
    assert_eq!(document.points().len(), point_count);
    assert!(document.undo());
    assert_eq!(document.layer_index(third), Some(2));
}

#[test]
fn device_recovery_never_expands_completed_history_into_the_live_overlay() {
    let mut document = StrokeDocument::default();
    for x in 0..32 {
        let (stroke, _) = begin(&mut document, point(x as f32));
        end(&mut document, stroke).unwrap();
    }
    document.regenerate_after_device_loss();
    let ranges = document.overlay_segment_ranges();
    assert!(ranges.is_empty());
    assert!(document
        .strokes()
        .iter()
        .all(|stroke| stroke.state == StrokeState::PendingCache));
}

#[test]
fn versioned_pigment_payload_identity_is_immutable() {
    let mut document = StrokeDocument::default();
    let reference = PaintMaterialRef {
        model: PaintModelId(91),
        model_version: 4,
        material: PaintMaterialId(12),
    };
    let record = PaintMaterialRecord {
        reference,
        payload: PaintMaterialPayload::ModelData {
            schema_version: 2,
            bytes: vec![3, 1, 4, 1, 5],
        },
    };
    document.add_paint_material(record.clone()).unwrap();
    document.add_paint_material(record.clone()).unwrap();
    assert_eq!(document.paint_materials().get(reference), Some(&record));

    let changed = PaintMaterialRecord {
        payload: PaintMaterialPayload::ModelData {
            schema_version: 2,
            bytes: vec![9],
        },
        ..record
    };
    assert!(document.add_paint_material(changed).is_err());
}

#[test]
fn document_rgba_recipes_restore_their_exact_runtime_material_ids() {
    let mut document = StrokeDocument::default();
    let reference = PaintMaterialRef {
        model: PaintModelId(RGBA_PAINT_MODEL_ID),
        model_version: RGBA_MODEL_VERSION,
        material: PaintMaterialId(7),
    };
    let rgba = Rgba {
        red: scalar(0.2),
        green: scalar(0.1),
        blue: scalar(0.05),
        alpha: scalar(0.4),
    };
    document
        .add_paint_material(PaintMaterialRecord {
            reference,
            payload: PaintMaterialPayload::PremultipliedLinearRgba(rgba),
        })
        .unwrap();
    let mut runtime = RgbaPaintModel::default();
    runtime.sync_from_document(document.paint_materials());
    assert_eq!(runtime.materials()[7].premultiplied_linear_rgba, rgba);
}

#[test]
fn duplicate_samples_do_not_grow_the_queue() {
    let mut store = StrokeStore::default();
    let (stroke, _) = begin(&mut store, point(0.0));
    assert!(append(&mut store, stroke, point(0.0)).is_none());
    assert_eq!(store.points().len(), 1);
    assert_eq!(store.segments().len(), 1);
}

#[test]
fn thousand_sample_synthetic_batch_keeps_the_exact_tip() {
    let mut store = StrokeStore::default();
    let (stroke, _) = begin(&mut store, point(0.0));
    for index in 1_u16..=1_000 {
        append(&mut store, stroke, point(f32::from(index))).unwrap();
    }

    assert_eq!(store.points().len(), 1_001);
    assert_eq!(store.segments().len(), 1_001);
    assert_eq!(store.segments().last().unwrap().end, 1_000);
    assert_eq!(number(store.points().last().unwrap().position.x), 1_000.0);
}

#[test]
fn undo_redo_preserves_vector_history_and_invalidates_the_same_tiles() {
    let mut document = StrokeDocument::default();
    let (stroke, _) = begin(&mut document, point(0.0));
    append(&mut document, stroke, point(300.0)).unwrap();
    end(&mut document, stroke).unwrap();
    let point_count = document.points().len();
    let affected: BTreeSet<TileKey> =
        document.stroke(stroke).unwrap().affected_tiles.iter().copied().collect();
    let committed_revision = document.revision();

    let initial = document.drain_invalidations();
    assert_eq!(keys(&initial), affected);

    assert!(document.undo());
    assert!(document.revision() > committed_revision);
    assert_eq!(document.points().len(), point_count);
    assert!(!document.stroke(stroke).unwrap().visible);
    let undone = document.drain_invalidations();
    assert_eq!(keys(&undone), affected);

    assert!(document.redo());
    assert!(document.stroke(stroke).unwrap().visible);
    assert_eq!(document.points().len(), point_count);
}

#[test]
fn active_overlay_retires_only_after_every_tile_revision_is_ready() {
    let mut document = StrokeDocument::default();
    let (stroke, _) = begin(&mut document, point(0.0));
    append(&mut document, stroke, point(300.0)).unwrap();
    end(&mut document, stroke).unwrap();
    let required = document.stroke(stroke).unwrap().affected_tiles.clone();
    let revision = document.stroke(stroke).unwrap().revision;
    assert!(!document.overlay_segment_ranges().is_empty());

    let first = required[0];
    document.refresh_cache_handoffs(|key: TileKey, ready_revision: u64| {
        key == first && ready_revision == revision
    });
    assert!(!document.overlay_segment_ranges().is_empty());

    document.refresh_cache_handoffs(|_: TileKey, ready_revision: u64| ready_revision == revision);
    assert!(document.overlay_segment_ranges().is_empty());
    assert_eq!(document.stroke(stroke).unwrap().state, StrokeState::Cached);
}

#[test]
fn tile_spatial_index_contains_only_local_segments() {
    let mut document = StrokeDocument::default();
    let (stroke, _) = begin(&mut document, point(0.0));
    for x in 1..=1_000 {
        append(&mut document, stroke, point(x as f32)).unwrap();
    }
    end(&mut document, stroke).unwrap();

    let left = document.tile_strokes(TileKey::new(LayerId(0), 0, 0)).unwrap();
    let right = document.tile_strokes(TileKey::new(LayerId(0), 3, 0)).unwrap();
    assert_eq!(left.len(), 1);
    assert_eq!(right.len(), 1);
    assert!(left[0].segments.len() < document.strokes()[0].segment_count as usize);
    assert!(right[0].segments.len() < document.strokes()[0].segment_count as usize);
}

#[test]
fn undo_and_redo_of_everything_restore_the_picture() {
    let mut document = StrokeDocument::default();
    let lower = document.active_layer();
    let stroke = drawn(&mut document, 4.0);
    let upper = document.add_layer("Upper");
    document.rename_layer(upper, "Ink");
    document.move_layer(upper, 0);
    document.resize(CanvasSize { width: 40, height: 30 });
    document.clear();
    assert!(!document.stroke(stroke).unwrap().visible);
    let undoable = document.undo_len();
    assert_eq!(undoable, 6);

    for _ in 0..undoable {
        assert!(document.undo());
    }
    assert!(!document.undo());
    assert_eq!(document.redo_len(), 6);
    assert_eq!(document.layers().len(), 1);
    assert_eq!(document.active_layer(), lower);
    assert!(!document.stroke(stroke).unwrap().visible);

    for _ in 0..undoable {
        assert!(document.redo());
    }
    assert!(!document.redo());
    assert_eq!(document.layers().len(), 2);
    assert_eq!(document.layer_index(upper), Some(0));
    assert_eq!(document.layer(upper).unwrap().name, "Ink");
    assert_eq!(document.canvas_size(), CanvasSize { width: 40, height: 30 });
    assert!(!document.stroke(stroke).unwrap().visible);
    assert!(document.undo());
    assert!(document.stroke(stroke).unwrap().visible);
}

#[test]
fn a_new_edit_forgets_what_was_undone() {
    let mut document = StrokeDocument::default();
    drawn(&mut document, 4.0);
    assert!(document.undo());
    assert_eq!(document.redo_len(), 1);
    drawn(&mut document, 90.0);
    assert_eq!(document.redo_len(), 0);
    assert!(!document.redo());
}

#[test]
fn clearing_hides_strokes_and_keeps_their_geometry() {
    let mut document = StrokeDocument::default();
    let stroke = drawn(&mut document, 4.0);
    let tiles: BTreeSet<TileKey> =
        document.stroke(stroke).unwrap().affected_tiles.iter().copied().collect();
    document.drain_invalidations();
    document.clear();
    assert_eq!(document.points().len(), 1);
    assert_eq!(document.stroke(stroke).unwrap().state, StrokeState::Hidden);
    let cleared = document.drain_invalidations();
    assert_eq!(keys(&cleared), tiles);
    assert!(cleared.iter().all(|item| item.cause == TileInvalidationCause::Clear));
}

#[test]
fn layer_edits_refuse_unknown_layers() {
    let mut document = StrokeDocument::default();
    let stranger = LayerId(40);
    assert!(!document.set_active_layer(stranger));
    assert!(!document.set_layer_visibility(stranger, false));
    assert!(!document.set_layer_opacity(stranger, scalar(0.5)));
    assert!(!document.rename_layer(stranger, "Name"));
    assert!(!document.move_layer(stranger, 0));
    assert!(document.layer(stranger).is_none());
    assert_eq!(document.undo_len(), 0);
}

#[test]
fn layer_opacity_is_kept_between_nothing_and_everything() {
    let mut document = StrokeDocument::default();
    let layer = document.active_layer();
    assert!(document.set_layer_opacity(layer, scalar(7.5)));
    assert_eq!(number(document.layer(layer).unwrap().opacity), 1.0);
    assert!(document.set_layer_opacity(layer, scalar(-3.0)));
    assert_eq!(number(document.layer(layer).unwrap().opacity), 0.0);
}

#[test]
fn invisible_layers_are_left_out_of_the_overlay() {
    let mut document = StrokeDocument::default();
    let layer = document.active_layer();
    begin(&mut document, point(4.0));
    let shown = document.overlay_layer_segment_ranges();
    assert_eq!(shown.len(), 1);
    assert_eq!(shown[0].0, layer);
    assert_eq!((shown[0].1.start, shown[0].1.end), (0, 1));
    document.set_layer_visibility(layer, false);
    assert!(document.overlay_layer_segment_ranges().is_empty());
    document.set_layer_visibility(layer, true);
    document.set_layer_opacity(layer, scalar(0.0));
    assert!(document.overlay_segment_ranges().is_empty());
}

#[test]
fn strokes_that_are_not_active_take_no_points() {
    let mut document = StrokeDocument::default();
    let stroke = drawn(&mut document, 4.0);
    assert!(!document.is_drawing());
    assert!(append(&mut document, stroke, point(9.0)).is_none());
    assert!(end(&mut document, stroke).is_none());
    assert_eq!(document.points().len(), 1);
}

#[test]
fn stroke_bounds_cover_every_point() {
    let mut document = StrokeDocument::default();
    let (stroke, _) = begin(&mut document, point(10.0));
    append(&mut document, stroke, point(30.0));
    let bounds = document.stroke(stroke).unwrap().bounds;
    assert_eq!(bounds, Bounds { min: vector(5.0, -3.0), max: vector(35.0, 7.0) });
}

#[test]
fn a_new_tile_size_moves_strokes_to_new_tiles() {
    let mut document = StrokeDocument::default();
    let stroke = drawn(&mut document, 100.0);
    document.drain_invalidations();
    let covered = vec![coverage_at(&document, 0, 32)];
    document.set_tile_size(32, &covered);
    assert_eq!(document.tile_size(), 32);
    let tiles = document.stroke(stroke).unwrap().affected_tiles.clone();
    assert_eq!(
        tiles,
        vec![
            TileKey::new(LayerId(0), 2, -1),
            TileKey::new(LayerId(0), 3, -1),
            TileKey::new(LayerId(0), 2, 0),
            TileKey::new(LayerId(0), 3, 0),
        ]
    );
    assert!(document.tile_has_visible_strokes(TileKey::new(LayerId(0), 3, 0)));
    assert!(!document.tile_has_visible_strokes(TileKey::new(LayerId(0), 0, 0)));
    let moved = document.drain_invalidations();
    assert!(moved.iter().all(|item| item.cause == TileInvalidationCause::Resize));
}

#[test]
fn an_effect_radius_widens_what_a_stroke_touches() {
    let mut document = StrokeDocument::default();
    let stroke = drawn(&mut document, 100.0);
    let narrow = document.stroke(stroke).unwrap().affected_tiles.len();
    let wide = StrokeCoverage {
        affected: span(document.strokes()[0].bounds, 400.0, document.tile_size()),
        segments: coverage(&document, 0).segments,
    };
    document.drain_invalidations();
    document.set_effect_radius(400, &vec![wide]);
    assert_eq!(document.effect_radius_px(), 400);
    assert!(document.stroke(stroke).unwrap().affected_tiles.len() > narrow);
    let widened = document.drain_invalidations();
    assert!(widened.iter().all(|item| item.cause == TileInvalidationCause::EffectDependency
        && item.halo_radius_px == 400));
}

#[test]
fn runtime_materials_enter_the_document_once() {
    let mut document = StrokeDocument::default();
    let mut runtime = RgbaPaintModel::default();
    let revision = runtime.revision();
    let colour = Rgba {
        red: scalar(0.5),
        green: scalar(0.25),
        blue: scalar(0.0),
        alpha: scalar(1.0),
    };
    let id = runtime.add_material(RgbaMaterial { premultiplied_linear_rgba: colour });
    assert!(runtime.revision() != revision);
    document.sync_rgba_materials(&runtime);
    let before = document.revision();
    document.sync_rgba_materials(&runtime);
    assert_eq!(document.revision(), before);
    let reference = PaintMaterialRef {
        model: PaintModelId(RGBA_PAINT_MODEL_ID),
        model_version: RGBA_MODEL_VERSION,
        material: id,
    };
    match &document.paint_materials().get(reference).unwrap().payload {
        PaintMaterialPayload::PremultipliedLinearRgba(stored) => assert_eq!(*stored, colour),
        PaintMaterialPayload::ModelData { .. } => panic!("a colour was expected"),
    }
}

#[test]
fn settings_begin_with_a_pen_and_an_eraser() {
    let settings = StrokeRendererSettings::default();
    assert_eq!(settings.pen.deposition, DepositionMode::Normal);
    assert_eq!(settings.eraser.deposition, DepositionMode::Erase);
    assert_eq!(settings.pen.size_space, BrushSizeSpace::Screen);
    assert_eq!(settings.pen.paint.model, PaintModelId(RGBA_PAINT_MODEL_ID));
    assert!(settings.pen.paint.material != settings.eraser.paint.material);
}

#[test]
fn documents_begin_with_one_visible_layer() {
    let document = StrokeDocument::default();
    assert_eq!(document.layers(), &vec![CanvasLayer::default()]);
    assert!(document.layers()[0].visible);
    assert_eq!(number(document.layers()[0].opacity), 1.0);
    assert_eq!(document.active_layer(), LayerId::default());
    assert_eq!(document.undo_len(), 0);
    assert!(document.strokes().is_empty());
}

#[test]
fn a_batch_holds_the_deltas_of_one_frame() {
    let mut batch = StrokeDeltaBatch::new();
    batch.begin_frame();
    batch.push(StrokeDelta::End { stroke: StrokeId(3) });
    assert_eq!(batch.deltas(), &vec![StrokeDelta::End { stroke: StrokeId(3) }]);
    let frame = batch.frame();
    batch.begin_frame();
    assert!(batch.deltas().is_empty());
    assert_eq!(batch.frame(), frame + 1);
}

#[test]
fn undoing_a_clear_does_not_send_the_history_through_the_overlay() {
    let mut document = StrokeDocument::default();
    for x in 0..32 {
        let (stroke, _) = begin(&mut document, point(x as f32));
        end(&mut document, stroke).unwrap();
    }
    document.clear();
    assert!(document.overlay_segment_ranges().is_empty());
    document.drain_invalidations();
    assert!(document.undo());
    assert!(document.overlay_segment_ranges().is_empty());
    assert!(document
        .strokes()
        .iter()
        .all(|stroke| stroke.visible && stroke.state == StrokeState::PendingCache));
    let stale = document.drain_invalidations();
    assert!(!stale.is_empty());
    assert!(stale.iter().all(|item| !item.allow_stale_display));

    assert!(document.undo());
    assert!(document.redo());
    assert_eq!(document.overlay_segment_ranges().len(), 1);
}

#[test]
fn contacts_keep_ranges_of_their_own() {
    let mut document = StrokeDocument::default();
    let (left, _) = begin(&mut document, point(0.0));
    let (right, _) = begin(&mut document, point(500.0));
    append(&mut document, left, point(10.0)).unwrap();
    append(&mut document, right, point(510.0)).unwrap();
    let moved = append(&mut document, left, point(20.0)).unwrap();
    assert!(matches!(moved, StrokeDelta::Append { .. }));
    end(&mut document, left).unwrap();
    end(&mut document, right).unwrap();

    for (stroke, expected) in
        [(left, vec![0.0, 10.0, 20.0]), (right, vec![500.0, 510.0])]
    {
        let record = document.stroke(stroke).unwrap();
        let first = record.first_point as usize;
        let last = first + record.point_count as usize;
        let places: Vec<f32> =
            document.points()[first..last].iter().map(|item| number(item.position.x)).collect();
        assert_eq!(places, expected);
        let from = record.first_segment as usize;
        let to = from + record.segment_count as usize;
        assert_eq!(to - from, expected.len());
        for (place, segment) in document.segments()[from..to].iter().enumerate() {
            assert_eq!(segment.end as usize, first + place);
            assert_eq!(segment.start as usize, first + place.saturating_sub(1));
        }
    }
    let one = document.stroke(left).unwrap();
    let other = document.stroke(right).unwrap();
    assert!(
        one.first_segment + one.segment_count <= other.first_segment
            || other.first_segment + other.segment_count <= one.first_segment
    );
}

#[test]
fn every_edit_is_taken_back_by_undo_and_repeated_by_redo() {
    let mut document = StrokeDocument::default();
    let upper = document.add_layer("Upper");
    drawn(&mut document, 4.0);
    drawn(&mut document, 40.0);
    let edits: Vec<fn(&mut StrokeDocument, LayerId)> = vec![
        |document, _| document.clear(),
        |document, _| assert!(document.resize(CanvasSize { width: 33, height: 44 })),
        |document, layer| assert!(document.set_layer_visibility(layer, false)),
        |document, layer| assert!(document.set_layer_opacity(layer, scalar(0.25))),
        |document, layer| assert!(document.rename_layer(layer, "Renamed")),
        |document, layer| assert!(document.move_layer(layer, 0)),
    ];
    let picture = |document: &StrokeDocument| {
        (
            document.layers().clone(),
            document.canvas_size(),
            document.strokes().iter().map(|item| item.visible).collect::<Vec<bool>>(),
            document.points().clone(),
            document.segments().clone(),
        )
    };
    for edit in edits {
        let before = picture(&document);
        let revision = document.revision();
        edit(&mut document, upper);
        let after = picture(&document);
        assert!(before != after);
        assert!(document.undo());
        assert!(picture(&document) == before);
        assert_eq!(document.redo_len(), 1);
        assert!(document.revision() > revision);
        assert!(document.redo());
        assert!(picture(&document) == after);
        assert!(document.undo());
    }
}

#[test]
fn handovers_ask_only_about_affected_tiles_of_waiting_strokes() {
    let mut document = StrokeDocument::default();
    let stroke = drawn(&mut document, 4.0);
    let (active, _) = begin(&mut document, point(900.0));
    let waiting = document.stroke(stroke).unwrap();
    let tiles = waiting.affected_tiles.clone();
    let revision = waiting.revision;
    document.refresh_cache_handoffs(|key, wanted| {
        assert!(tiles.contains(&key));
        assert_eq!(wanted, revision);
        true
    });
    assert_eq!(document.stroke(stroke).unwrap().state, StrokeState::Cached);
    assert_eq!(document.stroke(active).unwrap().state, StrokeState::Active);
}

#[test]
fn nothing_is_visible_after_clearing() {
    let mut document = StrokeDocument::default();
    drawn(&mut document, 4.0);
    let (contact, _) = begin(&mut document, point(40.0));
    document.clear();
    assert!(document.strokes().iter().all(|item| item.complete && !item.visible));
    assert!(append(&mut document, contact, point(50.0)).is_none());
    assert!(document.overlay_segment_ranges().is_empty());
}

#[test]
fn setting_effects_replaces_the_graph() {
    let graph = |reversed: bool| {
        let mut graph = EffectGraph::default();
        let a = graph.add_node(EffectId(1), 1);
        let b = graph.add_node(EffectId(2), 1);
        if reversed {
            graph.add_dependency(a, b).unwrap();
        } else {
            graph.add_dependency(b, a).unwrap();
        }
        graph
    };
    let mut document = StrokeDocument::default();
    document.set_effects(graph(false));
    assert_eq!(
        document.effects().topological_order(),
        Some(vec![EffectNodeId(0), EffectNodeId(1), EffectNodeId(2)])
    );
    document.set_effects(graph(true));
    assert_eq!(
        document.effects().topological_order(),
        Some(vec![EffectNodeId(0), EffectNodeId(2), EffectNodeId(1)])
    );
    let before = document.revision();
    document.set_effects(graph(true));
    assert_eq!(document.revision(), before);
}
