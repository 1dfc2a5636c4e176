//! What saved documents hold, which of them are accepted, and what becomes of them.
use crate::archive::{
    saved_command, sorted_ids, ArchiveBrush, ArchiveCommandModel, ArchiveDocument, ArchiveLayer,
    ArchiveLayerModel, ArchiveModel, ArchiveSegment, ArchiveStroke,
};
use crate::compatibility::DocumentCompatibilityIssue;
use crate::document::StrokeDocument;
use crate::effects::{EffectNodeId, EffectRegistry};
use crate::errors::DocumentIoError;
use crate::geometry_laws::{comes_before, no_number};
use crate::paint::{DepositionMode, PaintMaterialRef, PaintModelRegistry};
use crate::restore::{loaded_command, loaded_document, stroke_above};
use crate::scalar::Scalar;
use crate::strokes::{
    BrushProfile, CanvasLayer, CommandModel, StrokeMetadata, StrokeModel, StrokePoint,
    StrokeSegment, StrokeState,
};
use crate::validate::{
    layer_above, migrated, next_layer_number, remembers_layer, stroke_fault, strokes_fault,
    validate_archive,
};
use vstd::prelude::*;

verus! {

/// Whether a number stands for a way of depositing: one for erasing, none for painting.
pub open spec fn stands_for(number: u8, mode: DepositionMode) -> bool {
    match mode {
        DepositionMode::Normal => number == 0,
        DepositionMode::Erase => number == 1,
    }
}

/// Whether a saved segment and a segment say the same.
pub open spec fn same_segment(saved: ArchiveSegment, segment: StrokeSegment) -> bool {
    &&& saved.start == segment.start
    &&& saved.end == segment.end
    &&& saved.model == segment.model.0
    &&& saved.material == segment.material.0
    &&& stands_for(saved.deposition, segment.deposition)
    &&& saved.layer == segment.layer.0
}

/// Whether a saved brush and a brush say the same.
pub open spec fn same_brush(saved: ArchiveBrush, brush: BrushProfile) -> bool {
    &&& saved.model == brush.paint.model.0
    &&& saved.model_version == brush.paint.model_version
    &&& saved.material == brush.paint.material.0
    &&& stands_for(saved.deposition, brush.deposition)
    &&& saved.diameter == brush.diameter
    &&& brush.size_space is Document ==> saved.size_space == 0
    &&& brush.size_space is Screen ==> saved.size_space == 1
    &&& saved.minimum_diameter_ratio == brush.minimum_diameter_ratio
    &&& saved.pressure_gamma == brush.pressure_gamma
    &&& saved.flow == brush.flow
}

/// Whether a saved stroke and a stroke say the same.
pub open spec fn same_saved_stroke(saved: ArchiveStroke, stroke: StrokeModel) -> bool {
    &&& saved.id == stroke.id.0
    &&& saved.first_point == stroke.first_point
    &&& saved.point_count == stroke.point_count
    &&& saved.first_segment == stroke.first_segment
    &&& saved.segment_count == stroke.segment_count
    &&& saved.layer == stroke.layer.0
    &&& same_brush(saved.brush, stroke.brush)
    &&& saved.bounds == stroke.bounds
    &&& saved.visible == stroke.visible
}

/// A document without contacts is saved whole: its extent, counters, samples, segments,
/// strokes and layers in their order, and its history. While contacts draw, it is refused.
pub proof fn law_saved_documents_hold_everything(
    document: StrokeDocument,
    result: Result<ArchiveDocument, DocumentIoError>,
)
    requires
        document.well_formed(),
        call_ensures(ArchiveDocument::from_document, (&document,), result),
    ensures
        result is Ok <==> document@.active.is_empty() && forall|i: int|
            0 <= i < document@.strokes.len() ==> (#[trigger] document@.strokes[i]).complete,
        result is Err ==> result->Err_0 is ActiveContacts,
        result matches Ok(archive) ==> {
            &&& archive.schema_version == 3
            &&& archive.format@ == "org.hamerons.stroke-document"@
            &&& archive.canvas_size == document@.canvas_size
            &&& archive.tile_size == document@.tile_size
            &&& archive.revision == document@.revision
            &&& archive.next_stroke == document@.next_stroke
            &&& archive.next_layer == document@.next_layer
            &&& archive.active_layer == document@.active_layer.0
            &&& archive.points@ == document@.points
            &&& archive.segments@.len() == document@.segments.len()
            &&& forall|s: int|
                0 <= s < archive.segments@.len() ==> same_segment(
                    #[trigger] archive.segments@[s],
                    document@.segments[s],
                )
            &&& archive.strokes@.len() == document@.strokes.len()
            &&& forall|i: int|
                0 <= i < archive.strokes@.len() ==> same_saved_stroke(
                    #[trigger] archive.strokes@[i],
                    document@.strokes[i],
                )
            &&& archive.layers@.len() == document@.layers.len()
            &&& forall|n: int|
                0 <= n < archive.layers@.len() ==> {
                    let layer = #[trigger] archive.layers@[n];
                    &&& layer.id == document@.layers[n].id.0
                    &&& layer.name@ == document@.layers[n].name
                    &&& layer.opacity == document@.layers[n].opacity
                    &&& layer.visible == document@.layers[n].visible
                    &&& layer.composite == 0
                }
            &&& archive.effects.revision == document@.effects.revision
            &&& archive.effects.next_node == document@.effects.next_node
            &&& archive.undo@.len() == document@.undo.len()
            &&& archive.redo@.len() == document@.redo.len()
        },
{
    if result is Ok {
        let archive = result->Ok_0;
        let model = archive@;
        assert(model.undo.len() == document@.undo.len());
        assert(model.redo.len() == document@.redo.len());
        assert forall|s: int| 0 <= s < archive.segments@.len() implies same_segment(
            #[trigger] archive.segments@[s],
            document@.segments[s],
        ) by {
            assert(model.segments[s] == ArchiveSegment::saved(document@.segments[s]));
        }
        assert forall|i: int| 0 <= i < archive.strokes@.len() implies same_saved_stroke(
            #[trigger] archive.strokes@[i],
            document@.strokes[i],
        ) by {
            assert(model.strokes[i] == ArchiveStroke::saved(document@.strokes[i]));
        }
        assert(model.layers.len() == document@.layers.len());
        assert forall|n: int| 0 <= n < archive.layers@.len() implies {
            let layer = #[trigger] archive.layers@[n];
            &&& layer.id == document@.layers[n].id.0
            &&& layer.name@ == document@.layers[n].name
            &&& layer.opacity == document@.layers[n].opacity
            &&& layer.visible == document@.layers[n].visible
            &&& layer.composite == 0
        } by {
            assert(model.layers[n] == archive.layers@[n]@);
            assert(model.layers[n] == ArchiveLayerModel::saved(document@.layers[n]));
        }
    }
}

/// What is loaded says the same as what was saved: segments, brushes, strokes and layers. A
/// loaded stroke is complete, and waits for the tile cache where it is shown.
pub proof fn law_loaded_parts_say_the_same(
    saved_segment: ArchiveSegment,
    segment: StrokeSegment,
    saved_stroke: ArchiveStroke,
    revision: u64,
    stroke: StrokeMetadata,
    saved_brush: ArchiveBrush,
    brush: BrushProfile,
    saved_layer: ArchiveLayer,
    layer: CanvasLayer,
)
    requires
        call_ensures(ArchiveSegment::into_segment, (saved_segment,), segment),
        call_ensures(ArchiveStroke::into_stroke, (saved_stroke, revision), stroke),
        call_ensures(ArchiveBrush::into_brush, (saved_brush,), brush),
        call_ensures(ArchiveLayer::to_layer, (&saved_layer,), layer),
        saved_segment.deposition <= 1,
        saved_brush.deposition <= 1 && saved_brush.size_space <= 1,
        saved_stroke.brush.deposition <= 1 && saved_stroke.brush.size_space <= 1,
    ensures
        same_segment(saved_segment, segment),
        same_brush(saved_brush, brush),
        same_saved_stroke(saved_stroke, stroke@),
        stroke@.complete,
        stroke@.revision == revision,
        stroke@.state == (if saved_stroke.visible {
            StrokeState::PendingCache
        } else {
            StrokeState::Hidden
        }),
        layer@.id.0 == saved_layer.id,
        layer@.name == saved_layer.name@,
        layer@.opacity == saved_layer.opacity,
        layer@.visible == saved_layer.visible,
{
}

/// Saved commands name strokes by their identity and everything else as it is, with what was
/// before and what was after; loaded ones name strokes by their place again.
pub proof fn law_saved_commands_name_their_strokes(
    strokes: Seq<StrokeModel>,
    index: usize,
    indices: Seq<usize>,
    command: CommandModel,
    lookup: Map<u64, usize>,
)
    ensures
        saved_command(CommandModel::AddStroke(index), strokes) == ArchiveCommandModel::AddStroke(
            strokes[index as int].id.0,
        ),
        saved_command(CommandModel::Clear(indices), strokes) matches ArchiveCommandModel::Clear(
            ids,
        ) && ids.len() == indices.len() && forall|k: int|
            0 <= k < ids.len() ==> #[trigger] ids[k] == strokes[indices[k] as int].id.0,
        match (command, saved_command(command, strokes)) {
            (
                CommandModel::Resize { before, after },
                ArchiveCommandModel::Resize { before: b, after: a },
            ) => b == before && a == after,
            (
                CommandModel::AddLayer { layer, index: place },
                ArchiveCommandModel::AddLayer { layer: l, index: p },
            ) => l.id == layer.id.0 && l.name == layer.name && l.opacity == layer.opacity
                && l.visible == layer.visible && p == place,
            (
                CommandModel::LayerVisibility { layer, before, after },
                ArchiveCommandModel::LayerVisibility { layer: l, before: b, after: a },
            ) => l == layer.0 && b == before && a == after,
            (
                CommandModel::LayerOpacity { layer, before, after },
                ArchiveCommandModel::LayerOpacity { layer: l, before: b, after: a },
            ) => l == layer.0 && b == before && a == after,
            (
                CommandModel::LayerMove { layer, before, after },
                ArchiveCommandModel::LayerMove { layer: l, before: b, after: a },
            ) => l == layer.0 && b == before && a == after,
            (
                CommandModel::LayerRename { layer, before, after },
                ArchiveCommandModel::LayerRename { layer: l, before: b, after: a },
            ) => l == layer.0 && b == before && a == after,
            (CommandModel::AddStroke(_), ArchiveCommandModel::AddStroke(_)) => true,
            (CommandModel::Clear(_), ArchiveCommandModel::Clear(_)) => true,
            _ => false,
        },
        loaded_command(
            saved_command(CommandModel::AddStroke(index), strokes),
            lookup,
        ) == CommandModel::AddStroke(lookup[strokes[index as int].id.0]),
{
}

/// Sorting lists the same nodes from the lowest number to the highest.
pub proof fn law_sorted_dependencies_ascend(ids: Seq<EffectNodeId>)
    ensures
        sorted_ids(ids).len() == ids.len(),
        forall|a: int, b: int|
            0 <= a < b < sorted_ids(ids).len() ==> (#[trigger] sorted_ids(ids)[a]).0 <= (
            #[trigger] sorted_ids(ids)[b]).0,
        sorted_ids(ids).to_multiset() == ids.to_multiset(),
    decreases ids.len(),
{
    if ids.len() > 0 {
        let front = ids.drop_last();
        law_sorted_dependencies_ascend(front);
        lemma_inserted(sorted_ids(front), ids.last());
        assert(ids =~= front.push(ids.last()));
        vstd::seq_lib::to_multiset_build(front, ids.last());
    } else {
        assert(sorted_ids(ids) =~= ids);
    }
}

proof fn lemma_inserted(sorted: Seq<EffectNodeId>, id: EffectNodeId)
    requires
        forall|a: int, b: int|
            0 <= a < b < sorted.len() ==> (#[trigger] sorted[a]).0 <= (#[trigger] sorted[b]).0,
    ensures
        ({
            let after = crate::archive::insert_id(sorted, id);
            &&& after.len() == sorted.len() + 1
            &&& forall|a: int, b: int|
                0 <= a < b < after.len() ==> (#[trigger] after[a]).0 <= (#[trigger] after[b]).0
            &&& after.to_multiset() == sorted.to_multiset().insert(id)
            &&& forall|a: int|
                0 <= a < after.len() ==> (#[trigger] after[a]) == id || sorted.contains(after[a])
        }),
    decreases sorted.len(),
{
    let after = crate::archive::insert_id(sorted, id);
    if sorted.len() == 0 || sorted.last().0 <= id.0 {
        vstd::seq_lib::to_multiset_build(sorted, id);
        assert forall|a: int| 0 <= a < after.len() implies (#[trigger] after[a]) == id
            || sorted.contains(after[a]) by {
            if a < sorted.len() {
                assert(sorted[a] == after[a]);
            }
        }
    } else {
        let front = sorted.drop_last();
        lemma_inserted(front, id);
        let early = crate::archive::insert_id(front, id);
        assert(after == early.push(sorted.last()));
        vstd::seq_lib::to_multiset_build(early, sorted.last());
        vstd::seq_lib::to_multiset_build(front, sorted.last());
        assert(sorted =~= front.push(sorted.last()));
        assert(after.to_multiset() =~= sorted.to_multiset().insert(id));
        assert forall|a: int| 0 <= a < after.len() implies (#[trigger] after[a]) == id
            || sorted.contains(after[a]) by {
            if a < early.len() {
                assert(early[a] == after[a]);
                if early[a] != id {
                    let k = choose|k: int| 0 <= k < front.len() && front[k] == early[a];
                    assert(sorted[k] == after[a]);
                }
            } else {
                assert(sorted[sorted.len() - 1] == after[a]);
            }
        }
        assert forall|a: int, b: int| 0 <= a < b < after.len() implies (#[trigger] after[a]).0 <= (
        #[trigger] after[b]).0 by {
            if b < early.len() {
                assert(early[a].0 <= early[b].0);
            } else {
                assert(early[a] == after[a]);
                if early[a] != id {
                    let k = choose|k: int| 0 <= k < front.len() && front[k] == early[a];
                    assert(sorted[k].0 <= sorted[sorted.len() - 1].0);
                }
            }
        }
    }
}

/// Whether a number is neither infinite nor no number.
pub open spec fn is_finite_number(value: Scalar) -> bool {
    comes_before(0xff80_0000, value.bits) && comes_before(value.bits, 0x7f80_0000) && !no_number(
        value.bits,
    )
}

/// Whether a saved sample has finite numbers only, no negative width and a shape at least as
/// long as it is wide.
pub open spec fn sound_sample(point: StrokePoint) -> bool {
    &&& is_finite_number(point.position.x) && is_finite_number(point.position.y)
    &&& is_finite_number(point.half_width) && !comes_before(point.half_width.bits, 0)
    &&& is_finite_number(point.aspect_ratio) && !comes_before(
        point.aspect_ratio.bits,
        0x3f80_0000,
    )
    &&& is_finite_number(point.flow) && is_finite_number(point.twist_radians)
    &&& is_finite_number(point.orientation.x) && is_finite_number(point.orientation.y)
}

/// Whether a saved layer has an opacity between nothing and everything.
pub open spec fn sound_layer(layer: ArchiveLayerModel) -> bool {
    &&& is_finite_number(layer.opacity)
    &&& !comes_before(layer.opacity.bits, 0)
    &&& !comes_before(0x3f80_0000, layer.opacity.bits)
    &&& layer.composite == 0
}

/// Whether a saved segment joins saved samples on a layer that is remembered.
pub open spec fn sound_segment(archive: ArchiveModel, segment: ArchiveSegment) -> bool {
    &&& segment.start < archive.points.len() && segment.end < archive.points.len()
    &&& segment.deposition == 0 || segment.deposition == 1
    &&& remembers_layer(archive, segment.layer)
}

/// Whether a saved stroke owns saved samples and segments, which agree with it, has bounds
/// and a brush of finite numbers, and a paint that is saved too.
pub open spec fn sound_stroke(archive: ArchiveModel, i: int) -> bool {
    let stroke = archive.strokes[i];
    let brush = stroke.brush;
    &&& forall|j: int| 0 <= j < i ==> (#[trigger] archive.strokes[j]).id != stroke.id
    &&& stroke.first_point + stroke.point_count <= archive.points.len()
    &&& stroke.first_segment + stroke.segment_count <= archive.segments.len()
    &&& remembers_layer(archive, stroke.layer)
    &&& is_finite_number(stroke.bounds.min.x) && is_finite_number(stroke.bounds.min.y)
    &&& is_finite_number(stroke.bounds.max.x) && is_finite_number(stroke.bounds.max.y)
    &&& !comes_before(stroke.bounds.max.x.bits, stroke.bounds.min.x.bits)
    &&& !comes_before(stroke.bounds.max.y.bits, stroke.bounds.min.y.bits)
    &&& brush.deposition <= 1 && brush.size_space <= 1
    &&& is_finite_number(brush.diameter) && is_finite_number(brush.minimum_diameter_ratio)
        && is_finite_number(brush.pressure_gamma) && is_finite_number(brush.flow)
    &&& exists|m: int|
        {
            &&& 0 <= m < archive.materials.len()
            &&& (#[trigger] archive.materials[m]).reference.model.0 == brush.model
            &&& archive.materials[m].reference.model_version == brush.model_version
            &&& archive.materials[m].reference.material.0 == brush.material
        }
    &&& forall|s: int|
        stroke.first_segment <= s < stroke.first_segment + stroke.segment_count ==> {
            let segment = #[trigger] archive.segments[s];
            segment.layer == stroke.layer && segment.model == brush.model && segment.material
                == brush.material && segment.deposition == brush.deposition
        }
}

/// Whether a saved document is sound in all its parts.
pub open spec fn sound_archive(archive: ArchiveModel) -> bool {
    &&& archive.format == "org.hamerons.stroke-document"@
    &&& archive.schema_version == 3
    &&& archive.canvas_size.width > 0 && archive.canvas_size.height > 0 && archive.tile_size > 0
    &&& archive.layers.len() > 0
    &&& forall|n: int| 0 <= n < archive.layers.len() ==> sound_layer(#[trigger] archive.layers[n])
    &&& forall|n: int, m: int|
        0 <= n < m < archive.layers.len() ==> (#[trigger] archive.layers[n]).id != (
        #[trigger] archive.layers[m]).id
    &&& exists|n: int|
        0 <= n < archive.layers.len() && (#[trigger] archive.layers[n]).id
            == archive.active_layer
    &&& forall|i: int| 0 <= i < archive.points.len() ==> sound_sample(#[trigger] archive.points[i])
    &&& forall|s: int|
        0 <= s < archive.segments.len() ==> sound_segment(archive, #[trigger] archive.segments[s])
    &&& forall|n: int, m: int|
        0 <= n < m < archive.materials.len() ==> (#[trigger] archive.materials[n]).reference != (
        #[trigger] archive.materials[m]).reference
    &&& forall|i: int| 0 <= i < archive.strokes.len() ==> #[trigger] sound_stroke(archive, i)
}

/// A saved document is accepted exactly where it is sound in all its parts, and otherwise
/// refused as invalid.
pub proof fn law_sound_documents_are_accepted(
    archive: ArchiveDocument,
    result: Result<(), DocumentIoError>,
)
    requires
        call_ensures(validate_archive, (&archive,), result),
    ensures
        result is Ok <==> sound_archive(archive@),
        result is Err ==> result->Err_0 is InvalidDocument,
{
    let model = archive@;
    assert forall|n: int| 0 <= n < model.layers.len() implies (#[trigger] model.layers[n]).valid()
        == sound_layer(model.layers[n]) by {}
    assert forall|i: int| 0 <= i < model.points.len() implies crate::validate::point_valid(
        #[trigger] model.points[i],
    ) == sound_sample(model.points[i]) by {}
    assert forall|s: int| 0 <= s < model.segments.len() implies crate::validate::segment_valid(
        model,
        #[trigger] model.segments[s],
    ) == sound_segment(model, model.segments[s]) by {}
    assert forall|i: int| 0 <= i < model.strokes.len() implies #[trigger] sound_stroke(model, i) == (
    stroke_fault(model, i) is None) by {
        lemma_sound_stroke(model, i);
    }
    if strokes_fault(model, model.strokes.len()) is None {
        assert forall|i: int| 0 <= i < model.strokes.len() implies #[trigger] sound_stroke(
            model,
            i,
        ) by {
            crate::validate::lemma_no_stroke_fault(model, model.strokes.len(), i);
        }
    } else {
        lemma_some_stroke_fault(model, model.strokes.len());
        let i = choose|i: int|
            0 <= i < model.strokes.len() && #[trigger] stroke_fault(model, i) is Some;
        assert(!sound_stroke(model, i));
    }
    assert(crate::validate::knows_layer(model, model.active_layer) == exists|n: int|
        0 <= n < model.layers.len() && (#[trigger] model.layers[n]).id == model.active_layer);
    assert(crate::validate::layers_valid(model) == {
        &&& model.layers.len() > 0
        &&& forall|n: int| 0 <= n < model.layers.len() ==> sound_layer(#[trigger] model.layers[n])
        &&& forall|n: int, m: int|
            0 <= n < m < model.layers.len() ==> (#[trigger] model.layers[n]).id != (
            #[trigger] model.layers[m]).id
    });
}

proof fn lemma_sound_stroke(archive: ArchiveModel, i: int)
    requires
        0 <= i < archive.strokes.len(),
    ensures
        sound_stroke(archive, i) == (stroke_fault(archive, i) is None),
{
    let stroke = archive.strokes[i];
    let brush = stroke.brush;
    let known = exists|m: int|
        {
            &&& 0 <= m < archive.materials.len()
            &&& (#[trigger] archive.materials[m]).reference.model.0 == brush.model
            &&& archive.materials[m].reference.model_version == brush.model_version
            &&& archive.materials[m].reference.material.0 == brush.material
        };
    if known {
        let m = choose|m: int|
            {
                &&& 0 <= m < archive.materials.len()
                &&& (#[trigger] archive.materials[m]).reference.model.0 == brush.model
                &&& archive.materials[m].reference.model_version == brush.model_version
                &&& archive.materials[m].reference.material.0 == brush.material
            };
        assert(archive.materials[m].reference == brush.reference());
    }
    assert(crate::validate::knows_material(archive, brush.reference()) == known);
    let agree = forall|s: int|
        stroke.first_segment <= s < stroke.first_segment + stroke.segment_count ==> {
            let segment = #[trigger] archive.segments[s];
            segment.layer == stroke.layer && segment.model == brush.model && segment.material
                == brush.material && segment.deposition == brush.deposition
        };
    assert(crate::validate::stroke_owns_segments(archive, i) == agree);
}

proof fn lemma_some_stroke_fault(archive: ArchiveModel, count: nat)
    requires
        strokes_fault(archive, count) is Some,
    ensures
        exists|i: int| 0 <= i < count && #[trigger] stroke_fault(archive, i) is Some,
    decreases count,
{
    if count > 0 {
        if strokes_fault(archive, (count - 1) as nat) is Some {
            lemma_some_stroke_fault(archive, (count - 1) as nat);
            let i = choose|i: int|
                0 <= i < count - 1 && #[trigger] stroke_fault(archive, i) is Some;
            assert(stroke_fault(archive, i) is Some);
        } else {
            assert(stroke_fault(archive, count - 1) is Some);
        }
    }
}

/// Whether a number is the next one behind all of the listed layers.
pub open spec fn next_behind(layers: Seq<ArchiveLayerModel>, next: u32) -> bool {
    &&& forall|n: int|
        0 <= n < layers.len() ==> (#[trigger] layers[n]).id < next || layers[n].id == u32::MAX
    &&& layers.len() == 0 ==> next == 1
    &&& layers.len() > 0 ==> exists|n: int|
        0 <= n < layers.len() && ((#[trigger] layers[n]).id + 1 == next || layers[n].id
            == u32::MAX && next == u32::MAX)
}

proof fn lemma_layer_above(layers: Seq<ArchiveLayerModel>)
    ensures
        next_behind(layers, layer_above(layers)),
    decreases layers.len(),
{
    if layers.len() > 0 {
        let front = layers.drop_last();
        lemma_layer_above(front);
        let last = layers.len() - 1;
        let next = layer_above(layers);
        assert forall|n: int| 0 <= n < layers.len() implies (#[trigger] layers[n]).id < next
            || layers[n].id == u32::MAX by {
            if n < last {
                assert(front[n] == layers[n]);
            }
        }
        if next == layers[last].id.saturating_add(1) {
            assert(layers[last].id + 1 == next || layers[last].id == u32::MAX && next == u32::MAX);
        } else {
            let n = choose|n: int|
                0 <= n < front.len() && ((#[trigger] front[n]).id + 1 == layer_above(front)
                    || front[n].id == u32::MAX && layer_above(front) == u32::MAX);
            assert(layers[n] == front[n]);
        }
    }
}

/// The next number for a layer lies just behind those of all layers.
pub proof fn law_next_layer_numbers_are_behind_all(layers: Vec<ArchiveLayer>, next: u32)
    requires
        call_ensures(next_layer_number, (&layers,), next),
    ensures
        next_behind(crate::archive::archive_layer_models(layers@), next),
{
    lemma_layer_above(crate::archive::archive_layer_models(layers@));
}

/// A document of the first version keeps its layers, or gets a plain one where it has none;
/// the lowest one is selected, and new ones get numbers behind all. One of a later version
/// changes nothing but its version. Everything else is kept.
pub proof fn law_migration_keeps_the_drawing(archive: ArchiveModel)
    ensures
        ({
            let after = migrated(archive);
            &&& after.schema_version == 3
            &&& after.points == archive.points && after.segments == archive.segments
                && after.strokes == archive.strokes && after.materials == archive.materials
                && after.effects == archive.effects && after.undo == archive.undo && after.redo
                == archive.redo && after.canvas_size == archive.canvas_size
                && after.tile_size == archive.tile_size && after.revision == archive.revision
                && after.format == archive.format && after.next_stroke == archive.next_stroke
            &&& archive.schema_version != 1 ==> after.layers == archive.layers
                && after.active_layer == archive.active_layer && after.next_layer
                == archive.next_layer
            &&& archive.schema_version == 1 ==> {
                &&& archive.layers.len() > 0 ==> after.layers == archive.layers
                &&& archive.layers.len() == 0 ==> after.layers.len() == 1 && sound_layer(
                    after.layers[0],
                ) && after.layers[0].visible && after.layers[0].opacity.bits == 0x3f80_0000
                    && after.layers[0].id == 0
                &&& after.active_layer == after.layers[0].id
                &&& next_behind(after.layers, after.next_layer)
            }
        }),
{
    lemma_layer_above(migrated(archive).layers);
}

/// A loaded document hands out numbers for strokes and layers that no loaded one has, and no
/// lower ones than it would have before it was saved. Its revisions begin at one.
pub proof fn law_loaded_documents_count_on(archive: ArchiveModel, i: int, n: int)
    ensures
        ({
            let loaded = loaded_document(archive);
            &&& loaded.next_stroke >= archive.next_stroke
            &&& 0 <= i < archive.strokes.len() ==> archive.strokes[i].id < loaded.next_stroke
                || archive.strokes[i].id == u64::MAX
            &&& loaded.next_layer >= archive.next_layer
            &&& 0 <= n < archive.layers.len() ==> archive.layers[n].id < loaded.next_layer
                || archive.layers[n].id == u32::MAX
            &&& loaded.revision >= 1
            &&& archive.revision >= 1 ==> loaded.revision == archive.revision
            &&& archive.effects.revision >= 1 ==> loaded.effects.revision
                == archive.effects.revision
            &&& loaded.effects.revision >= 1
            &&& loaded.effects.next_node >= archive.effects.next_node
            &&& loaded.effects.nodes == archive.effects.nodes
            &&& loaded.active.is_empty() && loaded.overlay.is_empty()
            &&& loaded.canvas_size == archive.canvas_size && loaded.tile_size
                == archive.tile_size && loaded.active_layer.0 == archive.active_layer
        }),
{
    lemma_layer_above(archive.layers);
    if 0 <= i < archive.strokes.len() {
        lemma_stroke_above(archive.strokes, archive.strokes.len(), i);
    }
}

proof fn lemma_stroke_above(strokes: Seq<ArchiveStroke>, count: nat, i: int)
    requires
        0 <= i < count <= strokes.len(),
    ensures
        strokes[i].id < stroke_above(strokes, count) || strokes[i].id == u64::MAX,
    decreases count,
{
    if i < count - 1 {
        lemma_stroke_above(strokes, (count - 1) as nat, i);
    }
}

/// Whether a document needs a version of a paint model.
pub open spec fn needs_model(document: StrokeDocument, paint: PaintMaterialRef) -> bool {
    ||| exists|rank: u128| #[trigger]
        document@.materials.contains_key(rank) && document@.materials[rank].reference == paint
    ||| exists|i: int|
        0 <= i < document@.strokes.len() && (#[trigger] document@.strokes[i]).brush.paint == paint
}

/// A paint that the document needs is reported where its model is not there, and where it is
/// there in another version, with both versions; an effect likewise. Nothing is reported
/// twice, and paints come before effects.
pub proof fn law_what_is_missing_is_reported(
    document: StrokeDocument,
    models: PaintModelRegistry,
    effects: EffectRegistry,
    issues: Vec<DocumentCompatibilityIssue>,
    paint: PaintMaterialRef,
    node: int,
)
    requires
        document.well_formed(),
        models.well_formed(),
        effects.well_formed(),
        call_ensures(
            StrokeDocument::compatibility_issues,
            (&document, &models, &effects),
            issues,
        ),
    ensures
        ({
            let key = paint.model.0 as u64;
            &&& needs_model(document, paint) && !models@.contains_key(key) ==> issues@.contains(
                DocumentCompatibilityIssue::PaintModelUnavailable {
                    model: paint.model,
                    required_version: paint.model_version,
                },
            )
            &&& needs_model(document, paint) && models@.contains_key(key) && models@[key].version
                != paint.model_version ==> issues@.contains(
                DocumentCompatibilityIssue::PaintModelVersionMismatch {
                    model: paint.model,
                    required_version: paint.model_version,
                    available_version: models@[key].version,
                },
            )
        }),
        0 <= node < document@.effects.nodes.len() ==> {
            let wanted = document@.effects.nodes[node];
            let key = wanted.effect.0 as u64;
            &&& !effects@.contains_key(key) ==> issues@.contains(
                DocumentCompatibilityIssue::EffectUnavailable {
                    effect: wanted.effect,
                    required_version: wanted.implementation_version,
                },
            )
            &&& effects@.contains_key(key) && effects@[key].implementation_version
                != wanted.implementation_version ==> issues@.contains(
                DocumentCompatibilityIssue::EffectVersionMismatch {
                    effect: wanted.effect,
                    required_version: wanted.implementation_version,
                    available_version: effects@[key].implementation_version,
                },
            )
        },
        forall|i: int|
            0 <= i < issues@.len() ==> match #[trigger] issues@[i] {
                DocumentCompatibilityIssue::PaintModelUnavailable { model, required_version } => {
                    !models@.contains_key(model.0 as u64)
                },
                DocumentCompatibilityIssue::PaintModelVersionMismatch {
                    model,
                    required_version,
                    available_version,
                } => models@.contains_key(model.0 as u64) && models@[model.0 as u64].version
                    == available_version && available_version != required_version,
                DocumentCompatibilityIssue::EffectUnavailable { effect, required_version } => {
                    !effects@.contains_key(effect.0 as u64)
                },
                DocumentCompatibilityIssue::EffectVersionMismatch {
                    effect,
                    required_version,
                    available_version,
                } => effects@.contains_key(effect.0 as u64)
                    && effects@[effect.0 as u64].implementation_version == available_version
                    && available_version != required_version,
            },
        issues@.no_duplicates(),
        forall|i: int, j: int|
            0 <= i < j < issues@.len() ==> kind_of(#[trigger] issues@[i]) <= kind_of(
                #[trigger] issues@[j],
            ),
{
    if needs_model(document, paint) {
        let issue = crate::compatibility::model_issue(models@, paint);
        if issue is Some {
            assert(crate::compatibility::raises(document@, models@, effects@, issue->0)) by {
                if exists|rank: u128| #[trigger]
                    document@.materials.contains_key(rank) && document@.materials[rank].reference
                        == paint {
                    let rank = choose|rank: u128| #[trigger]
                        document@.materials.contains_key(rank)
                            && document@.materials[rank].reference == paint;
                    assert(document@.materials.contains_key(rank));
                } else {
                    let i = choose|i: int|
                        0 <= i < document@.strokes.len() && (
                        #[trigger] document@.strokes[i]).brush.paint == paint;
                    assert(document@.strokes[i].brush.paint == paint);
                }
            }
            assert(issues@.contains(issue->0));
        }
    }
    if 0 <= node < document@.effects.nodes.len() {
        let wanted = document@.effects.nodes[node];
        let issue = crate::compatibility::effect_issue(
            effects@,
            wanted.effect,
            wanted.implementation_version,
        );
        if issue is Some {
            assert(crate::compatibility::raises(document@, models@, effects@, issue->0));
            assert(issues@.contains(issue->0));
        }
    }
    assert forall|i: int| 0 <= i < issues@.len() implies crate::compatibility::raises(
        document@,
        models@,
        effects@,
        #[trigger] issues@[i],
    ) by {
        assert(issues@.contains(issues@[i]));
    }
    assert forall|i: int, j: int| 0 <= i < j < issues@.len() implies kind_of(
        #[trigger] issues@[i],
    ) <= kind_of(#[trigger] issues@[j]) by {
        assert(issues@[i].rank() < issues@[j].rank());
    }
}

/// Place of a kind of report among the kinds.
pub open spec fn kind_of(issue: DocumentCompatibilityIssue) -> int {
    match issue {
        DocumentCompatibilityIssue::PaintModelUnavailable { .. } => 0,
        DocumentCompatibilityIssue::PaintModelVersionMismatch { .. } => 1,
        DocumentCompatibilityIssue::EffectUnavailable { .. } => 2,
        DocumentCompatibilityIssue::EffectVersionMismatch { .. } => 3,
    }
}

/// A layer that strokes lie on is remembered where it is there, or where history may have
/// taken it back: its number was handed out, there is a history, and every layer with a number
/// that is not lower was added by a command that can be undone.
pub proof fn law_strokes_lie_on_remembered_layers(archive: ArchiveModel, id: u32)
    ensures
        remembers_layer(archive, id) <==> {
            ||| exists|n: int|
                0 <= n < archive.layers.len() && (#[trigger] archive.layers[n]).id == id
            ||| {
                &&& id < archive.next_layer
                &&& archive.undo.len() > 0 || archive.redo.len() > 0
                &&& forall|n: int|
                    0 <= n < archive.layers.len() && (#[trigger] archive.layers[n]).id >= id
                        ==> exists|k: int|
                        0 <= k < archive.undo.len() && adds(
                            #[trigger] archive.undo[k],
                            archive.layers[n].id,
                        )
            }
        },
{
    assert forall|layer: u32| #[trigger] crate::validate::creates_layer(archive.undo, layer) ==
        exists|k: int| 0 <= k < archive.undo.len() && adds(#[trigger] archive.undo[k], layer) by {
        if crate::validate::creates_layer(archive.undo, layer) {
            let k = choose|k: int|
                0 <= k < archive.undo.len() && crate::validate::layer_created(
                    #[trigger] archive.undo[k],
                ) == Some(layer);
            assert(adds(archive.undo[k], layer));
        }
        if exists|k: int| 0 <= k < archive.undo.len() && adds(#[trigger] archive.undo[k], layer) {
            let k = choose|k: int|
                0 <= k < archive.undo.len() && adds(#[trigger] archive.undo[k], layer);
            assert(crate::validate::layer_created(archive.undo[k]) == Some(layer));
        }
    }
    if crate::validate::added_since(archive, id) {
        assert forall|n: int|
            0 <= n < archive.layers.len() && (#[trigger] archive.layers[n]).id
                >= id implies exists|k: int|
            0 <= k < archive.undo.len() && adds(#[trigger] archive.undo[k], archive.layers[n].id) by {
            assert(crate::validate::creates_layer(archive.undo, archive.layers[n].id));
        }
    }
    if forall|n: int|
        0 <= n < archive.layers.len() && (#[trigger] archive.layers[n]).id >= id ==> exists|k: int|
            0 <= k < archive.undo.len() && adds(#[trigger] archive.undo[k], archive.layers[n].id) {
        assert forall|n: int| 0 <= n < archive.layers.len() implies (
        #[trigger] archive.layers[n]).id < id || crate::validate::creates_layer(
            archive.undo,
            archive.layers[n].id,
        ) by {}
        assert(crate::validate::added_since(archive, id));
    }
}

/// Whether a saved command adds a layer.
pub open spec fn adds(command: ArchiveCommandModel, id: u32) -> bool {
    command matches ArchiveCommandModel::AddLayer { layer, .. } && layer.id == id
}

/// Reports of one kind are ordered by the number of what is missing and then by the version.
pub proof fn law_reports_are_ordered_by_number(
    document: StrokeDocument,
    models: PaintModelRegistry,
    effects: EffectRegistry,
    issues: Vec<DocumentCompatibilityIssue>,
    i: int,
    j: int,
)
    requires
        document.well_formed(),
        models.well_formed(),
        effects.well_formed(),
        call_ensures(
            StrokeDocument::compatibility_issues,
            (&document, &models, &effects),
            issues,
        ),
        0 <= i < j < issues@.len(),
    ensures
        match (issues@[i], issues@[j]) {
            (
                DocumentCompatibilityIssue::PaintModelUnavailable { model: a, required_version: v },
                DocumentCompatibilityIssue::PaintModelUnavailable { model: b, required_version: w },
            ) => a.0 < b.0 || a == b && v < w,
            (
                DocumentCompatibilityIssue::PaintModelVersionMismatch {
                    model: a,
                    required_version: v,
                    ..
                },
                DocumentCompatibilityIssue::PaintModelVersionMismatch {
                    model: b,
                    required_version: w,
                    ..
                },
            ) => a.0 < b.0 || a == b && v < w,
            (
                DocumentCompatibilityIssue::EffectUnavailable { effect: a, required_version: v },
                DocumentCompatibilityIssue::EffectUnavailable { effect: b, required_version: w },
            ) => a.0 < b.0 || a == b && v < w,
            (
                DocumentCompatibilityIssue::EffectVersionMismatch {
                    effect: a,
                    required_version: v,
                    ..
                },
                DocumentCompatibilityIssue::EffectVersionMismatch {
                    effect: b,
                    required_version: w,
                    ..
                },
            ) => a.0 < b.0 || a == b && v < w,
            _ => true,
        },
{
    assert(issues@[i].rank() < issues@[j].rank());
}

} // verus!
