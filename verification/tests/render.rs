use hamerons_stroke_render::cache::{TileDisplayInstance, TileRenderFeedback};
use hamerons_stroke_render::device::{
    completion_reports, presentation_reports, retry_reports, TileDemand, TileDeviceState,
    TileDispatch, TilePreparation,
};
use hamerons_stroke_render::diagnostics::log_is_due;
use hamerons_stroke_render::extraction::{
    extract_strokes, extract_tiles, ExtractionState, LayerRun, OverlayLayer,
};
use hamerons_stroke_render::geometry::{Bounds, TileSpan, Vector};
use hamerons_stroke_render::gpu::{
    pack_mode, GpuCanvasLayer, GpuLiveLayer, GpuLiveStroke, GpuReplayStroke, GpuStrokePoint,
    GpuStrokeSegment, GpuTileInstance, GpuTileJob,
};
use hamerons_stroke_render::overlay::{
    active_layer_slot, extent_to_create, limit_is_news, plan_live_masks, MaskExtent,
};
use hamerons_stroke_render::presentation::{queue_overlay, queue_tiles};
use hamerons_stroke_render::strokes::{SegmentRange, StrokeCoverage};
use hamerons_stroke_render::tiles::{TileRasterJob, TileReplayStroke, TileWorkBatch};
use hamerons_stroke_render::upload::{
    plan_append, plan_replace, round_up, StrokeBufferStatus, TileBindingStatus, Upload,
};
use hamerons_stroke_render::{
    DepositionMode, LayerId, PaintMaterialId, PaintModelId, RgbaPaintModel, Scalar,
    StrokeDocument, StrokePoint, StrokeRendererSettings, StrokeSegment, StrokeTelemetry,
    TileCacheStats, TileKey,
};
use std::time::Duration;

fn scalar(value: f32) -> Scalar {
    Scalar::from_bits(value.to_bits())
}

fn vector(x: f32, y: f32) -> Vector {
    Vector { x: scalar(x), y: scalar(y) }
}

fn point(x: f32) -> StrokePoint {
    StrokePoint {
        position: vector(x, 2.0),
        half_width: scalar(3.0),
        aspect_ratio: scalar(1.5),
        flow: scalar(0.5),
        orientation: vector(0.0, 1.0),
        twist_radians: scalar(0.25),
    }
}

fn reach(x: f32) -> Bounds {
    Bounds { min: vector(x - 5.0, -3.0), max: vector(x + 5.0, 7.0) }
}

fn segment(start: u32) -> GpuStrokeSegment {
    GpuStrokeSegment { start, end: start, material: 0, model_and_deposition: 40 + start, layer: 0 }
}

fn range(layer: u32, start: u32) -> (LayerId, SegmentRange) {
    (LayerId(layer), SegmentRange { start, end: start + 1 })
}

fn demand(jobs: u32, instances: u32, required_slots: u32) -> TileDemand {
    TileDemand { serial: 1, tile_size: 16, jobs, instances, required_slots }
}

fn tile(layer: u32, x: i32) -> TileKey {
    TileKey::new(LayerId(layer), x, 0)
}

#[test]
fn gpu_layouts_remain_shader_compatible() {
    assert_eq!(std::mem::size_of::<GpuStrokePoint>(), 32);
    assert_eq!(std::mem::size_of::<GpuStrokeSegment>(), 20);

    let packed = GpuStrokeSegment::pack(StrokeSegment {
        start: 0,
        end: 1,
        model: PaintModelId(7),
        material: PaintMaterialId(3),
        deposition: DepositionMode::Erase,
        layer: LayerId(5),
    });
    assert_eq!(packed.model_and_deposition, 0x8000_0007);
    assert_eq!(packed.layer, 5);
}

#[test]
fn extracted_age_duration_fits_telemetry() {
    let mut telemetry = StrokeTelemetry::default();
    telemetry.record_extraction_ages(
        Duration::from_millis(5).as_micros(),
        Duration::from_millis(3).as_micros(),
    );
    assert_eq!(
        Duration::from_micros(telemetry.snapshot().extracted_sample_age_micros),
        Duration::from_millis(3)
    );
    assert_eq!(
        Duration::from_micros(telemetry.snapshot().oldest_extracted_sample_age_micros),
        Duration::from_millis(5)
    );
}

#[test]
fn deposition_mode_uses_the_same_high_bit_as_live_ink() {
    let packed = pack_mode(PaintModelId(9), DepositionMode::Erase);
    assert_eq!(packed, 0x8000_0009);
    assert_eq!(packed, (9 & 0x7fff_ffff) | (DepositionMode::Erase.code() << 31));
}

#[test]
fn normal_ink_leaves_the_high_bit_clear() {
    assert_eq!(pack_mode(PaintModelId(9), DepositionMode::Normal), 9);
    assert_eq!(pack_mode(PaintModelId(0xffff_ffff), DepositionMode::Normal), 0x7fff_ffff);
}

#[test]
fn packed_points_keep_every_channel() {
    let packed = GpuStrokePoint::pack(point(4.0));
    assert_eq!(packed.position, vector(4.0, 2.0));
    assert_eq!(packed.half_width, scalar(3.0));
    assert_eq!(packed.aspect_ratio, scalar(1.5));
    assert_eq!(packed.flow, scalar(0.5));
    assert_eq!(packed.orientation, vector(0.0, 1.0));
    assert_eq!(packed.twist_radians, scalar(0.25));
}

#[test]
fn telemetry_counts_what_it_is_told() {
    let mut telemetry = StrokeTelemetry::new();
    telemetry.record_input_batch(3, 250, 10, 9);
    telemetry.record_input_batch(1, 100, 12, 11);
    telemetry.record_upload(64, 2);
    telemetry.record_upload(16, 0);
    telemetry.record_tiles(7, TileCacheStats { resident_tiles: 4, ..TileCacheStats::zero() });
    let snapshot = telemetry.snapshot();
    assert_eq!(snapshot.pen_messages, 4);
    assert_eq!(snapshot.max_batch_depth, 3);
    assert_eq!(snapshot.last_batch_depth, 1);
    assert_eq!(snapshot.resident_points, 12);
    assert_eq!(snapshot.resident_segments, 11);
    assert_eq!(snapshot.uploaded_bytes_last_frame, 16);
    assert_eq!(snapshot.uploaded_bytes_total, 80);
    assert_eq!(snapshot.gpu_reallocations, 2);
    assert_eq!(snapshot.document_revision, 7);
    assert_eq!(snapshot.resident_tiles, 4);
}

#[test]
fn diagnostics_are_logged_once_in_a_while() {
    assert!(!log_is_due(false, None));
    assert!(log_is_due(true, None));
    assert!(!log_is_due(true, Some(10)));
    assert!(log_is_due(true, Some(60_000_000_000)));
}

#[test]
fn powers_of_two_are_found() {
    assert_eq!(round_up(0), 1);
    assert_eq!(round_up(1), 1);
    assert_eq!(round_up(5), 8);
    assert_eq!(round_up(64), 64);
    assert_eq!(round_up(65), 128);
}

#[test]
fn appending_uploads_only_what_is_new() {
    let grown = plan_append(0, 3, false, 64, 0, false);
    assert_eq!(grown.reserve, Some(64));
    assert_eq!(grown.upload, Upload::Everything);
    let more = plan_append(3, 2, false, 64, 64, true);
    assert_eq!(more.reserve, None);
    assert_eq!(more.upload, Upload::From(3));
    assert_eq!(more.written, 2);
    let over = plan_append(60, 10, false, 64, 64, true);
    assert_eq!(over.reserve, Some(128));
    assert_eq!(over.written, 70);
    let reset = plan_append(60, 10, true, 64, 64, true);
    assert_eq!(reset.upload, Upload::Everything);
    assert_eq!(reset.written, 10);
    let idle = plan_append(60, 0, false, 64, 64, true);
    assert_eq!(idle.upload, Upload::Nothing);
}

#[test]
fn replacing_uploads_everything() {
    let first = plan_replace(3, 0, false);
    assert_eq!(first.reserve, Some(4));
    assert_eq!(first.written, 3);
    assert_eq!(plan_replace(4, 4, true).reserve, None);
    assert_eq!(plan_replace(5, 4, true).reserve, Some(8));
    assert_eq!(plan_replace(0, 4, true).upload, Upload::Nothing);
}

#[test]
fn reallocations_make_bindings_stale() {
    let mut status = StrokeBufferStatus::new();
    assert!(status.bind_group_dirty);
    status.bind_group_dirty = false;
    status.updated(0, false);
    assert!(!status.bind_group_dirty);
    status.updated(0, true);
    assert!(status.bind_group_dirty);
    assert_eq!(status.reallocation_generation, 0);
    status.updated(2, false);
    assert_eq!(status.reallocation_generation, 1);
}

#[test]
fn each_live_stroke_gets_a_mask_and_each_layer_a_surface() {
    let ranges = vec![range(1, 0), range(0, 1), range(1, 9)];
    let layers = vec![
        GpuCanvasLayer { opacity: scalar(0.5), visible: 1 },
        GpuCanvasLayer { opacity: scalar(0.75), visible: 1 },
    ];
    let plan = plan_live_masks(&ranges, &vec![segment(0), segment(1)], &layers, 256);
    assert_eq!(plan.active_layers, vec![LayerId(1), LayerId(0)]);
    assert_eq!(plan.required_strokes, 3);
    assert_eq!(plan.stroke_capacity, 4);
    assert_eq!(plan.layer_capacity, 2);
    assert_eq!(
        plan.live_strokes,
        vec![
            GpuLiveStroke { mask_layer: 0, canvas_layer: 1, model_and_deposition: 40 },
            GpuLiveStroke { mask_layer: 1, canvas_layer: 0, model_and_deposition: 41 },
            GpuLiveStroke { mask_layer: 2, canvas_layer: 1, model_and_deposition: 0 },
        ]
    );
    assert_eq!(
        plan.live_layers,
        vec![
            GpuLiveLayer {
                canvas_layer: 1,
                texture_layer: 0,
                opacity: scalar(0.75),
                stroke_count: 3
            },
            GpuLiveLayer {
                canvas_layer: 0,
                texture_layer: 1,
                opacity: scalar(0.5),
                stroke_count: 3
            },
        ]
    );
    assert_eq!(active_layer_slot(&plan.active_layers, LayerId(0)), Some(1));
    assert_eq!(active_layer_slot(&plan.active_layers, LayerId(7)), None);
}

#[test]
fn masks_stay_within_the_device_limit() {
    let ranges = vec![range(0, 0), range(3, 0), range(4, 0)];
    let plan = plan_live_masks(&ranges, &Vec::new(), &Vec::new(), 2);
    assert_eq!(plan.live_strokes.len(), 2);
    assert_eq!(plan.active_layers, vec![LayerId(0), LayerId(3)]);
    assert_eq!(plan.stroke_capacity, 2);
    assert_eq!(plan.live_layers[1].opacity, scalar(0.0));
    let idle = plan_live_masks(&Vec::new(), &Vec::new(), &Vec::new(), 0);
    assert_eq!(idle.stroke_capacity, 1);
    assert_eq!(idle.layer_capacity, 1);

    let mut warned = None;
    assert!(limit_is_news(&mut warned, 3, 2));
    assert!(!limit_is_news(&mut warned, 3, 2));
    assert!(limit_is_news(&mut warned, 4, 2));
    assert!(!limit_is_news(&mut warned, 2, 2));
    assert_eq!(warned, None);
}

#[test]
fn masks_are_created_where_they_do_not_suffice() {
    let wanted = MaskExtent { width: 1, height: 600, stroke_capacity: 4, layer_capacity: 2 };
    assert_eq!(extent_to_create(None, 0, 600, 4, 2), Some(wanted));
    assert_eq!(extent_to_create(Some(wanted), 0, 600, 2, 2), None);
    assert_eq!(
        extent_to_create(Some(wanted), 0, 600, 8, 2),
        Some(MaskExtent { stroke_capacity: 8, ..wanted })
    );
    assert_eq!(
        extent_to_create(Some(wanted), 0, 500, 4, 2),
        Some(MaskExtent { height: 500, ..wanted })
    );
}

#[test]
fn a_new_device_reports_its_slots_and_its_loss() {
    let mut state = TileDeviceState::new();
    let (preparation, reports) = state.prepare(demand(0, 0, 0), 16 * 16 * 4 * 10);
    assert_eq!(preparation, TilePreparation::Proceed);
    assert_eq!(
        reports,
        vec![TileRenderFeedback::Capacity { max_slots: 10 }, TileRenderFeedback::DeviceReset]
    );
    let (_, again) = state.prepare(demand(0, 0, 0), 16 * 16 * 4 * 10);
    assert!(again.is_empty());
}

#[test]
fn lost_tiles_are_asked_for_once() {
    let mut state = TileDeviceState::new();
    state.prepare(demand(1, 0, 0), 1 << 20);
    let (preparation, reports) = state.prepare(demand(0, 3, 3), 1 << 20);
    assert_eq!(preparation, TilePreparation::Wait);
    assert_eq!(reports, vec![TileRenderFeedback::DeviceReset]);
    let (_, again) = state.prepare(demand(0, 3, 3), 1 << 20);
    assert!(again.is_empty());
    assert_eq!(state.instance_count, 0);
}

#[test]
fn tile_memory_grows_by_powers_of_two_within_the_limit() {
    let slot = 16 * 16 * 4;
    let mut state = TileDeviceState::new();
    assert_eq!(state.prepare(demand(3, 0, 3), slot * 100).0, TilePreparation::Grow(4));
    assert_eq!(state.prepare(demand(1, 2, 4), slot * 100).0, TilePreparation::Proceed);
    assert_eq!(state.instance_count, 2);
    assert_eq!(state.prepare(demand(1, 2, 5), slot * 6).0, TilePreparation::Grow(6));
    assert_eq!(state.prepare(demand(1, 2, 7), slot * 6).0, TilePreparation::Refuse);
    assert_eq!(state.job_count, 0);
    assert_eq!(state.dispatch(1, 16, true), TileDispatch::Skip);
}

#[test]
fn batches_run_once_and_only_when_everything_is_ready() {
    let mut state = TileDeviceState::new();
    state.prepare(demand(2, 0, 2), 1 << 20);
    let mut waiting = state;
    assert_eq!(waiting.dispatch(1, 20, false), TileDispatch::Retry);
    assert_eq!(state.dispatch(1, 20, true), TileDispatch::Run { workgroups: 3, jobs: 2 });
    assert_eq!(state.dispatch(1, 20, true), TileDispatch::Skip);
}

#[test]
fn reports_name_every_tile() {
    let tiles = vec![(tile(0, 1), 5), (tile(2, 3), 6)];
    assert_eq!(
        completion_reports(&tiles),
        vec![
            TileRenderFeedback::Complete { key: tile(0, 1), revision: 5 },
            TileRenderFeedback::Complete { key: tile(2, 3), revision: 6 },
        ]
    );
    assert_eq!(
        retry_reports(&tiles)[1],
        TileRenderFeedback::Retry { key: tile(2, 3), revision: 6 }
    );
    assert_eq!(
        presentation_reports(&tiles)[0],
        TileRenderFeedback::Presented { key: tile(0, 1), revision: 5 }
    );
}

#[test]
fn extraction_copies_geometry_once() {
    let mut document = StrokeDocument::default();
    let materials = RgbaPaintModel::default();
    let mut state = ExtractionState::default();
    let pen = StrokeRendererSettings::default().pen;
    let (stroke, _) = document.begin_stroke(point(1.0), reach(1.0), pen);
    let first = extract_strokes(&mut state, &document, &materials);
    assert!(first.reset);
    assert_eq!(first.points.len(), 1);
    assert!(first.materials.is_some());
    assert!(first.layers.is_some());
    assert_eq!(first.overlay_ranges, vec![range(0, 0)]);

    document.append_point(stroke, point(2.0), reach(2.0));
    let second = extract_strokes(&mut state, &document, &materials);
    assert!(!second.reset);
    assert_eq!(second.points, vec![GpuStrokePoint::pack(point(2.0))]);
    assert_eq!(second.segments.len(), 1);
    assert!(second.materials.is_none());
    assert!(second.layers.is_none());
    assert!(second.has_new_points);

    let third = extract_strokes(&mut state, &document, &materials);
    assert!(third.points.is_empty());
    assert!(!third.has_new_points);

    let span = TileSpan { min_x: 0, min_y: 0, max_x: 0, max_y: 0 };
    document.end_stroke(stroke, &StrokeCoverage { affected: span, segments: vec![span, span] });
    document.replace_loaded(StrokeDocument::default());
    let replaced = extract_strokes(&mut state, &document, &materials);
    assert!(replaced.reset);
    assert!(replaced.points.is_empty());
}

#[test]
fn tile_batches_are_flattened() {
    let replay = |first: u32| TileReplayStroke {
        segment_indices: vec![first, first + 1],
        material: PaintMaterialId(3),
        model: PaintModelId(2),
        deposition: DepositionMode::Erase,
    };
    let instance = |layer: u32, slot: u32, order: u32| TileDisplayInstance {
        key: tile(layer, 4),
        slot,
        revision: 8,
        opacity: scalar(0.5),
        layer_order: order,
        layer_count: 2,
    };
    let batch = TileWorkBatch {
        serial: 12,
        tile_size: 32,
        jobs: vec![
            TileRasterJob {
                key: tile(0, -2),
                slot: 5,
                revision: 7,
                replay: vec![replay(0), replay(6)],
                halo: Vec::new(),
            },
            TileRasterJob {
                key: tile(0, 1),
                slot: 0,
                revision: 7,
                replay: vec![replay(9)],
                halo: Vec::new(),
            },
        ],
        display: vec![instance(0, 2, 0), instance(0, 3, 0), instance(1, 6, 1)],
    };
    let extracted = extract_tiles(&batch);
    assert_eq!(extracted.serial, 12);
    assert_eq!(extracted.jobs.len(), 2);
    assert_eq!(extracted.jobs[0].replay_start, 0);
    assert_eq!(extracted.jobs[0].replay_count, 2);
    assert_eq!(extracted.jobs[0].origin_x, -64);
    assert_eq!(extracted.jobs[1].replay_start, 2);
    assert_eq!(extracted.segment_indices, vec![0, 1, 6, 7, 9, 10]);
    assert_eq!(extracted.replay[1].segment_index_start, 2);
    assert_eq!(extracted.replay[1].model_and_deposition, 0x8000_0002);
    assert_eq!(extracted.required_slots, 7);
    assert_eq!(extracted.completions, vec![(tile(0, -2), 7), (tile(0, 1), 7)]);
    assert_eq!(extracted.presentations.len(), 3);
    assert_eq!(extracted.runs.len(), 2);
    assert_eq!((extracted.runs[0].start, extracted.runs[0].end), (0, 2));
    assert_eq!((extracted.runs[1].start, extracted.runs[1].end), (2, 3));
    assert_eq!(extracted.runs[1].layer, LayerId(1));
    assert_eq!(extracted.runs[1].order, 1);
}

#[test]
fn every_layer_is_drawn_through_the_overlay_or_directly() {
    let overlay: Vec<OverlayLayer> = (0..3)
        .map(|order| OverlayLayer { layer: LayerId(order + 10), order, layer_count: 3 })
        .collect();
    let runs: Vec<LayerRun> = (0..3)
        .map(|order| LayerRun {
            layer: LayerId(order + 10),
            start: order,
            end: order + 1,
            order,
            layer_count: 3,
        })
        .collect();
    let live = queue_overlay(&overlay, &vec![LayerId(12), LayerId(10)], true);
    assert_eq!(live.positions, vec![0, 2]);
    assert_eq!(live.layers, vec![LayerId(10), LayerId(12)]);
    let tiles = queue_tiles(&runs, &live.layers, true);
    assert_eq!(tiles.direct, vec![1]);
    assert!(tiles.presented);

    let waiting = queue_overlay(&overlay, &vec![LayerId(12), LayerId(10)], false);
    assert!(waiting.positions.is_empty());
    let tiles = queue_tiles(&runs, &waiting.layers, true);
    assert_eq!(tiles.direct, vec![0, 1, 2]);
    let unready = queue_tiles(&runs, &waiting.layers, false);
    assert!(unready.direct.is_empty());
    assert!(!unready.presented);
    assert!(!queue_tiles(&Vec::new(), &live.layers, true).presented);
}

#[test]
fn tile_bindings_are_renewed_with_either_set_of_buffers() {
    let mut status = TileBindingStatus::new();
    assert!(status.is_stale(1));
    status.bound(1);
    assert!(!status.is_stale(1));
    assert!(status.is_stale(2));
    assert!(status.is_stale(1));
    status.bound(2);
    status.updated(false);
    assert!(!status.is_stale(2));
    status.updated(true);
    assert!(status.is_stale(2));
}

#[test]
fn tile_gpu_layouts_match_wgsl_storage_structs() {
    assert_eq!(std::mem::size_of::<GpuTileJob>(), 32);
    assert_eq!(std::mem::size_of::<GpuReplayStroke>(), 16);
    assert_eq!(std::mem::size_of::<GpuTileInstance>(), 20);
}
