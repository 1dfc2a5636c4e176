use hamerons_stroke_render::archive::{
    ArchiveDocument, ArchiveHistoryCommand, ArchiveLayer, DOCUMENT_SCHEMA_VERSION,
};
use hamerons_stroke_render::effects::pass_through_descriptor;
use hamerons_stroke_render::geometry::{Bounds, CanvasSize, TileSpan, Vector};
use hamerons_stroke_render::strokes::{StrokeCoverage, TileInvalidationCause};
use hamerons_stroke_render::validate::{migrate_archive, validate_archive};
use hamerons_stroke_render::{
    CheckpointRequest, DocumentCheckpointManager, DocumentCompatibilityIssue, DocumentIoError,
    DocumentSaveReport, EffectGraph, EffectId, EffectRegistry, LoadedStrokeDocument,
    PaintMaterialId, PaintMaterialPayload, PaintMaterialRecord, PaintMaterialRef, PaintModelId,
    PaintModelRegistry, RgbaPaintModel, Scalar, StrokeDelta, StrokeDocument, StrokeId,
    StrokePoint, StrokeRendererSettings, StrokeState,
};

fn scalar(value: f32) -> Scalar {
    Scalar::from_bits(value.to_bits())
}

fn vector(x: f32, y: f32) -> Vector {
    Vector { x: scalar(x), y: scalar(y) }
}

fn number(value: Scalar) -> f32 {
    f32::from_bits(value.bits)
}

fn reach(point: StrokePoint) -> Bounds {
    let radius =
        number(point.half_width).max(0.0) * number(point.aspect_ratio).max(1.0) + 2.0;
    let x = number(point.position.x);
    let y = number(point.position.y);
    Bounds { min: vector(x - radius, y - radius), max: vector(x + radius, y + radius) }
}

fn span(bounds: Bounds, margin: f32, tile_size: u32) -> TileSpan {
    let edge = tile_size.max(1) as f32;
    TileSpan {
        min_x: ((number(bounds.min.x) - margin) / edge).floor() as i32,
        min_y: ((number(bounds.min.y) - margin) / edge).floor() as i32,
        max_x: ((number(bounds.max.x) + margin) / edge).floor() as i32,
        max_y: ((number(bounds.max.y) + margin) / edge).floor() as i32,
    }
}

fn joined(a: Bounds, b: Bounds) -> Bounds {
    Bounds {
        min: vector(
            number(a.min.x).min(number(b.min.x)),
            number(a.min.y).min(number(b.min.y)),
        ),
        max: vector(
            number(a.max.x).max(number(b.max.x)),
            number(a.max.y).max(number(b.max.y)),
        ),
    }
}

fn coverage_at(document: &StrokeDocument, index: usize, tile_size: u32) -> StrokeCoverage {
    let stroke = &document.strokes()[index];
    let first = stroke.first_segment as usize;
    let last = first + stroke.segment_count as usize;
    let mut segments = Vec::new();
    for segment in &document.segments()[first..last] {
        let a = reach(document.points()[segment.start as usize]);
        let b = reach(document.points()[segment.end as usize]);
        segments.push(span(joined(a, b), 0.0, tile_size));
    }
    StrokeCoverage {
        affected: span(stroke.bounds, document.effect_radius_px() as f32, tile_size),
        segments,
    }
}

fn coverage(document: &StrokeDocument, index: usize) -> StrokeCoverage {
    coverage_at(document, index, document.tile_size())
}

fn begin(document: &mut StrokeDocument, first: StrokePoint) -> (StrokeId, StrokeDelta) {
    document.begin_stroke(first, reach(first), StrokeRendererSettings::default().pen)
}

fn append(
    document: &mut StrokeDocument,
    stroke: StrokeId,
    next: StrokePoint,
) -> Option<StrokeDelta> {
    document.append_point(stroke, next, reach(next))
}

fn end(document: &mut StrokeDocument, stroke: StrokeId) -> Option<StrokeDelta> {
    let index = document.strokes().iter().position(|item| item.id == stroke).unwrap();
    let covered = coverage(document, index);
    document.end_stroke(stroke, &covered)
}

fn point(x: f32, y: f32) -> StrokePoint {
    StrokePoint {
        position: vector(x, y),
        half_width: scalar(3.5),
        aspect_ratio: scalar(1.75),
        flow: scalar(0.75),
        orientation: vector(0.0, 1.0),
        twist_radians: scalar(0.25),
    }
}

fn registries() -> (PaintModelRegistry, EffectRegistry) {
    let mut models = PaintModelRegistry::default();
    models.register(RgbaPaintModel::descriptor());
    let mut effects = EffectRegistry::default();
    effects.register(pass_through_descriptor());
    (models, effects)
}

fn all_coverage(document: &StrokeDocument) -> Vec<StrokeCoverage> {
    (0..document.strokes().len()).map(|index| coverage(document, index)).collect()
}

fn inked() -> (StrokeDocument, StrokeId) {
    let mut document = StrokeDocument::default();
    let (stroke, _) = begin(&mut document, point(0.0, 0.0));
    append(&mut document, stroke, point(30.0, 12.0)).unwrap();
    end(&mut document, stroke).unwrap();
    (document, stroke)
}

fn saved(document: &StrokeDocument) -> ArchiveDocument {
    ArchiveDocument::from_document(document).unwrap()
}

fn reopened(document: &StrokeDocument) -> LoadedStrokeDocument {
    let (models, effects) = registries();
    StrokeDocument::load_archive(saved(document), &all_coverage(document), &models, &effects)
        .unwrap()
}

fn refusal(archive: &ArchiveDocument) -> String {
    match validate_archive(archive) {
        Err(DocumentIoError::InvalidDocument(reason)) => reason,
        Err(_) => panic!("another failure was reported"),
        Ok(()) => panic!("the document was accepted"),
    }
}

#[test]
fn kra_round_trip_preserves_ids_layers_materials_effects_and_history() {
    let mut document = StrokeDocument::default();
    let upper = document.add_layer("Upper & Ink");
    document.set_layer_opacity(upper, scalar(0.625));
    let (stroke, _) = begin(&mut document, point(1.0, 2.0));
    append(&mut document, stroke, point(20.0, 9.0)).unwrap();
    end(&mut document, stroke).unwrap();
    document.undo();

    let mut loaded = reopened(&document);

    assert!(loaded.compatibility_issues.is_empty());
    assert_eq!(loaded.document.active_layer(), upper);
    assert_eq!(loaded.document.layers(), document.layers());
    assert_eq!(loaded.document.points(), document.points());
    assert_eq!(loaded.document.segments(), document.segments());
    assert_eq!(loaded.document.strokes()[0].id, stroke);
    assert_eq!(loaded.document.redo_len(), 1);
    assert!(loaded.document.redo());
    assert!(loaded.document.stroke(stroke).unwrap().visible);
}

#[test]
fn unsupported_versions_are_reported_without_losing_opaque_payloads() {
    let mut document = StrokeDocument::default();
    let reference = PaintMaterialRef {
        model: PaintModelId(77),
        model_version: 9,
        material: PaintMaterialId(4),
    };
    let record = PaintMaterialRecord {
        reference,
        payload: PaintMaterialPayload::ModelData {
            schema_version: 3,
            bytes: vec![9, 8, 7, 6],
        },
    };
    document.add_paint_material(record.clone()).unwrap();
    let (models, effects) = registries();
    let issues = document.compatibility_issues(&models, &effects);
    assert!(matches!(
        issues.as_slice(),
        [DocumentCompatibilityIssue::PaintModelUnavailable {
            model: PaintModelId(77),
            required_version: 9
        }]
    ));
    assert_eq!(document.paint_materials().get(reference), Some(&record));
}

#[test]
fn schema_one_payloads_migrate_to_explicit_layer_state() {
    let document = StrokeDocument::default();
    let mut archive = ArchiveDocument::from_document(&document).unwrap();
    archive.schema_version = 1;
    archive.active_layer = 99;
    archive.next_layer = 0;
    assert_eq!(migrate_archive(&mut archive).unwrap(), Some(1));
    assert_eq!(archive.schema_version, DOCUMENT_SCHEMA_VERSION);
    assert_eq!(archive.active_layer, 0);
    assert_eq!(archive.next_layer, 1);
    archive.into_document(&Vec::new()).unwrap();
}

#[test]
fn failed_save_leaves_the_previous_valid_kra_intact() {
    let mut document = StrokeDocument::default();
    let first = saved(&document);
    let (stroke, _) = begin(&mut document, point(4.0, 5.0));
    assert!(matches!(
        ArchiveDocument::from_document(&document),
        Err(DocumentIoError::ActiveContacts)
    ));
    end(&mut document, stroke).unwrap();

    let (models, effects) = registries();
    let loaded =
        StrokeDocument::load_archive(first, &Vec::new(), &models, &effects).unwrap();
    assert!(loaded.document.strokes().is_empty());
}

#[test]
fn background_checkpoints_are_single_flight_and_skip_unchanged_revisions() {
    let document = StrokeDocument::default();
    let mut checkpoints = DocumentCheckpointManager::default();
    let (started, archive) = checkpoints.request(&document, "/tmp/a.kra").unwrap();
    assert_eq!(started, CheckpointRequest::Started);
    assert!(checkpoints.is_busy());
    let (busy, nothing) = checkpoints.request(&document, "/tmp/a.kra").unwrap();
    assert_eq!(busy, CheckpointRequest::Busy);
    assert!(nothing.is_none());
    assert!(checkpoints.poll(None).is_none());
    let outcome = DocumentSaveReport {
        path: "/tmp/a.kra".to_string(),
        revision: archive.unwrap().revision,
        bytes_written: 10,
    };
    let report = checkpoints.poll(Some(Ok(outcome))).unwrap().unwrap();
    assert_eq!(report.revision, document.revision());
    let (unchanged, nothing) = checkpoints.request(&document, "/tmp/a.kra").unwrap();
    assert_eq!(unchanged, CheckpointRequest::Unchanged);
    assert!(nothing.is_none());
    let (elsewhere, _) = checkpoints.request(&document, "/tmp/b.kra").unwrap();
    assert_eq!(elsewhere, CheckpointRequest::Started);
}

#[test]
fn compute_completion_is_not_serialized_as_a_live_overlay_recovery_strategy() {
    let mut document = StrokeDocument::default();
    let (stroke, _) = begin(&mut document, point(0.0, 0.0));
    end(&mut document, stroke).unwrap();
    let covered = all_coverage(&document);
    let archive = ArchiveDocument::from_document(&document).unwrap();
    let restored = archive.into_document(&covered).unwrap();
    assert!(restored.overlay_segment_ranges().is_empty());
    assert_eq!(restored.stroke(stroke).unwrap().state, StrokeState::PendingCache);
}

#[test]
fn failed_checkpoints_are_tried_again() {
    let document = StrokeDocument::default();
    let mut checkpoints = DocumentCheckpointManager::new();
    checkpoints.request(&document, "a.kra").unwrap();
    let failed = checkpoints.poll(Some(Err(DocumentIoError::BackgroundWorkerPanicked)));
    assert!(matches!(failed, Some(Err(DocumentIoError::BackgroundWorkerPanicked))));
    assert!(!checkpoints.is_busy());
    let (again, archive) = checkpoints.request(&document, "a.kra").unwrap();
    assert_eq!(again, CheckpointRequest::Started);
    assert!(archive.is_some());
}

#[test]
fn checkpoints_wait_until_contacts_are_lifted() {
    let mut document = StrokeDocument::default();
    begin(&mut document, point(4.0, 5.0));
    let mut checkpoints = DocumentCheckpointManager::new();
    assert!(matches!(
        checkpoints.request(&document, "a.kra"),
        Err(DocumentIoError::ActiveContacts)
    ));
    assert!(!checkpoints.is_busy());
}

#[test]
fn a_reopened_document_saves_to_the_same_archive() {
    let (mut document, stroke) = inked();
    document.add_layer("Second");
    document.clear();
    document.undo();
    let mut graph = EffectGraph::default();
    graph.add_node_with_parameters(EffectId(0), 1, vec![5, 6]);
    document.set_effects(graph);
    let loaded = reopened(&document);
    assert_eq!(loaded.source_schema_version, DOCUMENT_SCHEMA_VERSION);
    assert_eq!(loaded.migrated_from, None);
    let first = saved(&document);
    let second = saved(&loaded.document);
    assert_eq!(second.revision, first.revision);
    assert_eq!(second.points, first.points);
    assert_eq!(second.segments, first.segments);
    assert_eq!(second.strokes, first.strokes);
    assert_eq!(second.materials, first.materials);
    assert_eq!(second.effects.nodes, first.effects.nodes);
    assert_eq!(second.undo.len(), first.undo.len());
    assert_eq!(second.redo.len(), first.redo.len());
    assert_eq!(second.next_stroke, first.next_stroke);
    assert_eq!(loaded.document.stroke(stroke).unwrap().affected_tiles,
        document.stroke(stroke).unwrap().affected_tiles);
}

#[test]
fn reopened_documents_ask_for_all_their_tiles() {
    let (document, stroke) = inked();
    let mut loaded = reopened(&document);
    let pending = loaded.document.drain_invalidations();
    let wanted = &document.stroke(stroke).unwrap().affected_tiles;
    assert_eq!(pending.len(), wanted.len());
    assert!(pending.iter().all(|item| wanted.contains(&item.key)
        && item.cause == TileInvalidationCause::CacheLayout));
}

#[test]
fn later_schema_versions_are_refused() {
    let mut archive = saved(&StrokeDocument::default());
    archive.schema_version = DOCUMENT_SCHEMA_VERSION + 1;
    let error = migrate_archive(&mut archive).unwrap_err();
    assert!(matches!(
        error,
        DocumentIoError::UnsupportedSchema { found: 4, supported: 3 }
    ));
    assert_eq!(error.message(), "document schema 4 is newer than supported schema 3");
}

#[test]
fn a_missing_schema_version_is_refused() {
    let mut archive = saved(&StrokeDocument::default());
    archive.schema_version = 0;
    match migrate_archive(&mut archive) {
        Err(DocumentIoError::InvalidDocument(reason)) => {
            assert_eq!(reason, "missing document schema version")
        }
        _ => panic!("the document was accepted"),
    }
}

#[test]
fn the_second_schema_version_needs_no_changes() {
    let mut archive = saved(&StrokeDocument::default());
    archive.schema_version = 2;
    archive.next_layer = 17;
    assert_eq!(migrate_archive(&mut archive).unwrap(), Some(2));
    assert_eq!(archive.schema_version, 3);
    assert_eq!(archive.next_layer, 17);
}

#[test]
fn first_version_documents_without_layers_get_one() {
    let mut archive = saved(&StrokeDocument::default());
    archive.schema_version = 1;
    archive.layers.clear();
    assert_eq!(migrate_archive(&mut archive).unwrap(), Some(1));
    assert_eq!(archive.layers.len(), 1);
    assert_eq!(archive.layers[0].name, "Paint");
    assert_eq!(number(archive.layers[0].opacity), 1.0);
    assert!(archive.layers[0].visible);
}

#[test]
fn every_fault_of_a_document_has_its_reason() {
    let (document, _) = inked();
    let mut archive = saved(&document);
    archive.format = "something else".to_string();
    assert_eq!(refusal(&archive), "unrecognized Hamerons document payload");

    let mut archive = saved(&document);
    archive.schema_version = 2;
    assert_eq!(refusal(&archive), "document migration did not reach the current schema");

    let mut archive = saved(&document);
    archive.canvas_size = CanvasSize { width: 0, height: 5 };
    assert_eq!(refusal(&archive), "canvas and tile dimensions must be nonzero");

    let mut archive = saved(&document);
    archive.tile_size = 0;
    assert_eq!(refusal(&archive), "canvas and tile dimensions must be nonzero");

    let mut archive = saved(&document);
    archive.layers[0].opacity = scalar(1.5);
    assert_eq!(refusal(&archive), "layers contain invalid ids, opacity, or blend modes");

    let mut archive = saved(&document);
    archive.layers.push(ArchiveLayer {
        id: 0,
        name: "Twin".to_string(),
        opacity: scalar(1.0),
        composite: 0,
        visible: true,
    });
    assert_eq!(refusal(&archive), "layers contain invalid ids, opacity, or blend modes");

    let mut archive = saved(&document);
    archive.active_layer = 5;
    assert_eq!(refusal(&archive), "active layer does not exist");

    let mut archive = saved(&document);
    archive.points[0].half_width = scalar(f32::NAN);
    assert_eq!(refusal(&archive), "stroke points contain non-finite geometry");

    let mut archive = saved(&document);
    archive.points[0].aspect_ratio = scalar(0.5);
    assert_eq!(refusal(&archive), "stroke points contain non-finite geometry");

    let mut archive = saved(&document);
    archive.segments[0].end = 900;
    assert_eq!(refusal(&archive), "segments contain invalid point, layer, or deposition ids");

    let mut archive = saved(&document);
    let copy = archive.materials[0].clone();
    archive.materials.push(copy);
    assert_eq!(refusal(&archive), "material identities are duplicated");

    let mut archive = saved(&document);
    archive.strokes[0].brush.material = 600;
    assert_eq!(refusal(&archive), "stroke metadata or material references are invalid");

    let mut archive = saved(&document);
    archive.strokes[0].point_count = 80;
    assert_eq!(refusal(&archive), "stroke metadata or material references are invalid");

    let mut archive = saved(&document);
    archive.segments[1].model = 6;
    assert_eq!(refusal(&archive), "stroke segment metadata disagrees with its owner");

    assert!(validate_archive(&saved(&document)).is_ok());
}

#[test]
fn history_that_names_unknown_strokes_is_refused() {
    let (document, _) = inked();
    let mut archive = saved(&document);
    archive.undo.push(ArchiveHistoryCommand::AddStroke(700));
    let covered = all_coverage(&document);
    assert!(matches!(
        archive.into_document(&covered),
        Err(DocumentIoError::InvalidDocument(_))
    ));
}

#[test]
fn effects_in_a_circle_are_refused() {
    let (mut document, _) = inked();
    let mut graph = EffectGraph::default();
    let a = graph.add_node(EffectId(0), 1);
    let b = graph.add_node(EffectId(0), 1);
    graph.add_dependency(b, a).unwrap();
    document.set_effects(graph);
    let covered = all_coverage(&document);
    let mut archive = saved(&document);
    archive.effects.dependencies.push((a.0, vec![b]));
    assert!(matches!(
        archive.into_document(&covered),
        Err(DocumentIoError::InvalidDocument(_))
    ));
}

#[test]
fn issues_come_in_a_fixed_order_and_once() {
    let (mut document, _) = inked();
    let mut graph = EffectGraph::default();
    graph.add_node(EffectId(8), 2);
    graph.add_node(EffectId(8), 2);
    graph.add_node(EffectId(0), 5);
    document.set_effects(graph);
    let (_, effects) = registries();
    let models = PaintModelRegistry::new();
    let issues = document.compatibility_issues(&models, &effects);
    assert_eq!(
        issues,
        vec![
            DocumentCompatibilityIssue::PaintModelUnavailable {
                model: PaintModelId(0),
                required_version: 1,
            },
            DocumentCompatibilityIssue::EffectUnavailable {
                effect: EffectId(8),
                required_version: 2,
            },
            DocumentCompatibilityIssue::EffectVersionMismatch {
                effect: EffectId(0),
                required_version: 5,
                available_version: 1,
            },
        ]
    );
}

#[test]
fn a_newer_model_version_is_reported() {
    let (document, _) = inked();
    let (_, effects) = registries();
    let mut models = PaintModelRegistry::new();
    let mut descriptor = RgbaPaintModel::descriptor();
    descriptor.version = 6;
    models.register(descriptor);
    assert_eq!(
        document.compatibility_issues(&models, &effects),
        vec![DocumentCompatibilityIssue::PaintModelVersionMismatch {
            model: PaintModelId(0),
            required_version: 1,
            available_version: 6,
        }]
    );
}

#[test]
fn failures_explain_themselves() {
    assert_eq!(
        DocumentIoError::Io("gone".to_string()).message(),
        "document I/O failed: gone"
    );
    assert_eq!(
        DocumentIoError::Archive("torn".to_string()).message(),
        "invalid .kra archive: torn"
    );
    assert_eq!(
        DocumentIoError::Encode("odd".to_string()).message(),
        "document encoding failed: odd"
    );
    assert_eq!(
        DocumentIoError::InvalidDocument("bad".to_string()).message(),
        "invalid document: bad"
    );
    assert_eq!(
        DocumentIoError::ActiveContacts.message(),
        "cannot checkpoint while a drawing contact is active"
    );
    assert_eq!(
        DocumentIoError::BackgroundWorkerPanicked.message(),
        "background checkpoint worker panicked"
    );
}

#[test]
fn undone_strokes_on_undone_layers_are_loaded() {
    let mut document = StrokeDocument::default();
    document.add_layer("Above");
    let (stroke, _) = begin(&mut document, point(5.0, 6.0));
    append(&mut document, stroke, point(25.0, 16.0)).unwrap();
    end(&mut document, stroke).unwrap();
    assert!(document.undo());
    assert!(document.undo());
    assert_eq!(document.layers().len(), 1);

    let mut loaded = reopened(&document).document;
    assert_eq!(loaded.redo_len(), 2);
    assert_eq!(loaded.points(), document.points());
    assert_eq!(loaded.layers(), document.layers());
    assert!(loaded.redo());
    assert!(loaded.redo());
    assert!(document.redo());
    assert!(document.redo());
    assert_eq!(loaded.layers(), document.layers());
    assert!(loaded.stroke(stroke).unwrap().visible);
}

#[test]
fn strokes_on_forgotten_layers_are_loaded() {
    let mut document = StrokeDocument::default();
    document.add_layer("Above");
    let (stroke, _) = begin(&mut document, point(5.0, 6.0));
    end(&mut document, stroke).unwrap();
    document.undo();
    document.undo();
    assert!(document.resize(CanvasSize { width: 70, height: 80 }));
    assert_eq!(document.redo_len(), 0);

    let loaded = reopened(&document).document;
    assert_eq!(loaded.points(), document.points());
    assert_eq!(loaded.undo_len(), document.undo_len());
    assert_eq!(loaded.canvas_size(), document.canvas_size());
}

#[test]
fn strokes_on_layers_that_never_existed_are_refused() {
    let (document, _) = inked();
    let mut archive = saved(&document);
    archive.strokes[0].layer = 70;
    assert!(validate_archive(&archive).is_err());
    let mut archive = saved(&document);
    archive.segments[0].layer = 70;
    assert_eq!(refusal(&archive), "segments contain invalid point, layer, or deposition ids");
}

#[test]
fn effect_graphs_that_differ_in_their_dependencies_are_told_apart() {
    let (mut document, _) = inked();
    let mut graph = EffectGraph::default();
    let a = graph.add_node(EffectId(0), 1);
    let b = graph.add_node(EffectId(0), 1);
    let (revision, next_node, nodes, _) = graph.persistence_parts();
    let nodes = nodes.clone();
    let mut one_way = std::collections::BTreeMap::new();
    one_way.insert(b.0, vec![a]);
    let mut other_way = std::collections::BTreeMap::new();
    other_way.insert(a.0, vec![b]);
    let first =
        EffectGraph::from_persistence_parts(revision, next_node, nodes.clone(), one_way).unwrap();
    let second =
        EffectGraph::from_persistence_parts(revision, next_node, nodes, other_way).unwrap();
    document.set_effects(first);
    let order = document.effects().topological_order().unwrap();
    assert_eq!(order, vec![order[0], a, b]);
    let before = document.revision();
    document.set_effects(second);
    assert_ne!(document.revision(), before);
    assert_eq!(document.effects().topological_order().unwrap(), vec![order[0], b, a]);
}

#[test]
fn contacts_drawn_at_once_survive_saving() {
    let mut document = StrokeDocument::default();
    let (left, _) = begin(&mut document, point(0.0, 0.0));
    let (right, _) = begin(&mut document, point(300.0, 0.0));
    for step in 1..5 {
        append(&mut document, left, point(step as f32 * 9.0, 4.0)).unwrap();
        append(&mut document, right, point(300.0 + step as f32 * 9.0, 4.0)).unwrap();
    }
    end(&mut document, left).unwrap();
    end(&mut document, right).unwrap();
    assert!(document.undo());

    let mut loaded = reopened(&document).document;
    assert_eq!(loaded.points(), document.points());
    assert_eq!(loaded.segments(), document.segments());
    for (one, other) in loaded.strokes().iter().zip(document.strokes()) {
        assert_eq!(one.id, other.id);
        assert_eq!(one.first_point, other.first_point);
        assert_eq!(one.point_count, 5);
        assert_eq!(one.first_segment, other.first_segment);
        assert_eq!(one.segment_count, 5);
        assert_eq!(one.visible, other.visible);
    }
    assert!(loaded.redo());
    assert!(loaded.stroke(right).unwrap().visible);
    assert!(loaded.undo());
    assert!(loaded.undo());
    assert!(!loaded.stroke(left).unwrap().visible);
}

#[test]
fn layers_that_no_command_added_are_not_taken_back() {
    let (mut document, _) = inked();
    let upper = document.add_layer("Above");
    let (stroke, _) = begin(&mut document, point(5.0, 6.0));
    end(&mut document, stroke).unwrap();
    document.undo();
    document.undo();
    assert!(validate_archive(&saved(&document)).is_ok());

    let mut archive = saved(&document);
    for layer in &mut archive.layers {
        layer.id = 5;
    }
    archive.active_layer = 5;
    archive.next_layer = 6;
    for segment in &mut archive.segments {
        if segment.layer == 0 {
            segment.layer = 5;
        }
    }
    for item in &mut archive.strokes {
        if item.layer == 0 {
            item.layer = 5;
        }
    }
    assert_eq!(refusal(&archive), "segments contain invalid point, layer, or deposition ids");

    let mut archive = saved(&document);
    archive.undo.clear();
    archive.redo.clear();
    assert_eq!(refusal(&archive), "segments contain invalid point, layer, or deposition ids");

    let mut archive = saved(&document);
    archive.next_layer = upper.0;
    assert_eq!(refusal(&archive), "segments contain invalid point, layer, or deposition ids");

    let mut archive = saved(&document);
    archive.layers.push(ArchiveLayer {
        id: 2,
        name: "Stray".to_string(),
        opacity: scalar(1.0),
        composite: 0,
        visible: true,
    });
    archive.next_layer = 3;
    assert_eq!(refusal(&archive), "segments contain invalid point, layer, or deposition ids");
}

#[test]
fn layers_added_later_leave_those_taken_back_in_memory() {
    let (mut document, _) = inked();
    document.add_layer("Taken back");
    let (stroke, _) = begin(&mut document, point(5.0, 6.0));
    end(&mut document, stroke).unwrap();
    document.undo();
    document.undo();
    document.add_layer("Kept");
    let loaded = reopened(&document).document;
    assert_eq!(loaded.layers(), document.layers());
    assert_eq!(loaded.stroke(stroke).unwrap().layer, document.stroke(stroke).unwrap().layer);
}

#[test]
fn a_contact_whose_layer_was_taken_back_is_loaded() {
    let mut document = StrokeDocument::default();
    document.add_layer("Above");
    let (stroke, _) = begin(&mut document, point(5.0, 6.0));
    assert!(document.undo());
    append(&mut document, stroke, point(9.0, 6.0)).unwrap();
    end(&mut document, stroke).unwrap();
    let loaded = reopened(&document).document;
    assert_eq!(loaded.points(), document.points());
    assert!(loaded.stroke(stroke).unwrap().visible);
}
