//! The saved form of a document: conversion, migration and validation.
use crate::document::StrokeDocument;
use crate::effects::{
    dependency_models, node_models, EffectGraph, EffectGraphModel, EffectNode, EffectNodeId,
    EffectNodeModel,
};
use crate::errors::{DocumentIoError, ErrorModel};
use crate::geometry::{Bounds, CanvasSize, LayerId};
use crate::ordered::{ascending, lists, ordered_ids};
use crate::paint::{
    DepositionMode, MaterialModel, PaintMaterialId, PaintMaterialRecord, PaintMaterialRef,
    PaintModelId,
};
use crate::scalar::Scalar;
use crate::state::DocumentModel;
use crate::strokes::{
    command_models, layer_models, stroke_models, BrushProfile, BrushSizeSpace, CanvasLayer,
    CommandModel, HistoryCommand, LayerCompositeMode, LayerModel, StrokeId, StrokeMetadata,
    StrokeModel, StrokePoint, StrokeSegment, StrokeState,
};
use vstd::prelude::*;

verus! {

broadcast use vstd::laws_cmp::group_laws_cmp;

/// Current authoritative payload schema stored inside Hamerons `.kra` files.
pub const DOCUMENT_SCHEMA_VERSION: u32 = 3;

/// A segment as saved, with its enumerations as numbers.
#[derive(Clone, Copy, Debug, PartialEq, Eq, Structural)]
pub struct ArchiveSegment {
    pub start: u32,
    pub end: u32,
    pub model: u32,
    pub material: u32,
    pub deposition: u8,
    pub layer: u32,
}

/// A brush as saved, with its enumerations as numbers.
#[derive(Clone, Copy, Debug, PartialEq, Eq, Structural)]
pub struct ArchiveBrush {
    pub model: u32,
    pub model_version: u32,
    pub material: u32,
    pub deposition: u8,
    pub diameter: Scalar,
    pub size_space: u8,
    pub minimum_diameter_ratio: Scalar,
    pub pressure_gamma: Scalar,
    pub flow: Scalar,
}

/// A stroke as saved; everything derived from its geometry is left out.
#[derive(Clone, Copy, Debug, PartialEq, Eq, Structural)]
pub struct ArchiveStroke {
    pub id: u64,
    pub first_point: u32,
    pub point_count: u32,
    pub first_segment: u32,
    pub segment_count: u32,
    pub layer: u32,
    pub brush: ArchiveBrush,
    pub bounds: Bounds,
    pub visible: bool,
}

/// A layer as saved.
#[derive(Debug)]
pub struct ArchiveLayer {
    pub id: u32,
    pub name: String,
    pub opacity: Scalar,
    pub composite: u8,
    pub visible: bool,
}

/// An effect graph as saved.
#[derive(Debug)]
pub struct ArchiveEffects {
    pub revision: u64,
    pub next_node: u64,
    pub nodes: Vec<EffectNode>,
    pub dependencies: Vec<(u64, Vec<EffectNodeId>)>,
}

/// A history command as saved, naming strokes by identity.
#[allow(inconsistent_fields)]
#[derive(Debug)]
pub enum ArchiveHistoryCommand {
    AddStroke(u64),
    Clear(Vec<u64>),
    Resize { before: CanvasSize, after: CanvasSize },
    AddLayer { layer: ArchiveLayer, index: usize },
    LayerVisibility { layer: u32, before: bool, after: bool },
    LayerOpacity { layer: u32, before: Scalar, after: Scalar },
    LayerMove { layer: u32, before: usize, after: usize },
    LayerRename { layer: u32, before: String, after: String },
}

/// A document as saved.
#[derive(Debug)]
pub struct ArchiveDocument {
    pub format: String,
    pub schema_version: u32,
    pub canvas_size: CanvasSize,
    pub tile_size: u32,
    pub revision: u64,
    pub next_stroke: u64,
    pub active_layer: u32,
    pub next_layer: u32,
    pub points: Vec<StrokePoint>,
    pub segments: Vec<ArchiveSegment>,
    pub strokes: Vec<ArchiveStroke>,
    pub layers: Vec<ArchiveLayer>,
    pub materials: Vec<PaintMaterialRecord>,
    pub effects: ArchiveEffects,
    pub undo: Vec<ArchiveHistoryCommand>,
    pub redo: Vec<ArchiveHistoryCommand>,
}

/// Mathematical value of an [`ArchiveLayer`].
#[verifier::ext_equal]
pub struct ArchiveLayerModel {
    pub id: u32,
    pub name: Seq<char>,
    pub opacity: Scalar,
    pub composite: u8,
    pub visible: bool,
}

/// Mathematical value of an [`ArchiveEffects`].
#[verifier::ext_equal]
pub struct ArchiveEffectsModel {
    pub revision: u64,
    pub next_node: u64,
    pub nodes: Seq<EffectNodeModel>,
    pub dependencies: Seq<(u64, Seq<EffectNodeId>)>,
}

/// Mathematical value of an [`ArchiveHistoryCommand`].
#[allow(inconsistent_fields)]
#[verifier::ext_equal]
pub enum ArchiveCommandModel {
    AddStroke(u64),
    Clear(Seq<u64>),
    Resize { before: CanvasSize, after: CanvasSize },
    AddLayer { layer: ArchiveLayerModel, index: usize },
    LayerVisibility { layer: u32, before: bool, after: bool },
    LayerOpacity { layer: u32, before: Scalar, after: Scalar },
    LayerMove { layer: u32, before: usize, after: usize },
    LayerRename { layer: u32, before: Seq<char>, after: Seq<char> },
}

/// Mathematical value of an [`ArchiveDocument`].
#[verifier::ext_equal]
pub struct ArchiveModel {
    pub format: Seq<char>,
    pub schema_version: u32,
    pub canvas_size: CanvasSize,
    pub tile_size: u32,
    pub revision: u64,
    pub next_stroke: u64,
    pub active_layer: u32,
    pub next_layer: u32,
    pub points: Seq<StrokePoint>,
    pub segments: Seq<ArchiveSegment>,
    pub strokes: Seq<ArchiveStroke>,
    pub layers: Seq<ArchiveLayerModel>,
    pub materials: Seq<MaterialModel>,
    pub effects: ArchiveEffectsModel,
    pub undo: Seq<ArchiveCommandModel>,
    pub redo: Seq<ArchiveCommandModel>,
}

impl View for ArchiveLayer {
    type V = ArchiveLayerModel;

    open spec fn view(&self) -> ArchiveLayerModel {
        ArchiveLayerModel {
            id: self.id,
            name: self.name@,
            opacity: self.opacity,
            composite: self.composite,
            visible: self.visible,
        }
    }
}

impl View for ArchiveEffects {
    type V = ArchiveEffectsModel;

    open spec fn view(&self) -> ArchiveEffectsModel {
        ArchiveEffectsModel {
            revision: self.revision,
            next_node: self.next_node,
            nodes: node_models(self.nodes@),
            dependencies: self.dependencies@.map_values(
                |pair: (u64, Vec<EffectNodeId>)| (pair.0, pair.1@),
            ),
        }
    }
}

impl View for ArchiveHistoryCommand {
    type V = ArchiveCommandModel;

    open spec fn view(&self) -> ArchiveCommandModel {
        match self {
            ArchiveHistoryCommand::AddStroke(id) => ArchiveCommandModel::AddStroke(*id),
            ArchiveHistoryCommand::Clear(ids) => ArchiveCommandModel::Clear(ids@),
            ArchiveHistoryCommand::Resize { before, after } => ArchiveCommandModel::Resize {
                before: *before,
                after: *after,
            },
            ArchiveHistoryCommand::AddLayer { layer, index } => ArchiveCommandModel::AddLayer {
                layer: layer@,
                index: *index,
            },
            ArchiveHistoryCommand::LayerVisibility { layer, before, after } => {
                ArchiveCommandModel::LayerVisibility {
                    layer: *layer,
                    before: *before,
                    after: *after,
                }
            },
            ArchiveHistoryCommand::LayerOpacity { layer, before, after } => {
                ArchiveCommandModel::LayerOpacity { layer: *layer, before: *before, after: *after }
            },
            ArchiveHistoryCommand::LayerMove { layer, before, after } => {
                ArchiveCommandModel::LayerMove { layer: *layer, before: *before, after: *after }
            },
            ArchiveHistoryCommand::LayerRename { layer, before, after } => {
                ArchiveCommandModel::LayerRename { layer: *layer, before: before@, after: after@ }
            },
        }
    }
}

/// The layers of a saved list, as values.
pub open spec fn archive_layer_models(layers: Seq<ArchiveLayer>) -> Seq<ArchiveLayerModel> {
    layers.map_values(|layer: ArchiveLayer| layer@)
}

/// The recipes of a saved list, as values.
pub open spec fn record_models(records: Seq<PaintMaterialRecord>) -> Seq<MaterialModel> {
    records.map_values(|record: PaintMaterialRecord| record@)
}

/// The commands of a saved list, as values.
pub open spec fn archive_command_models(commands: Seq<ArchiveHistoryCommand>) -> Seq<
    ArchiveCommandModel,
> {
    commands.map_values(|command: ArchiveHistoryCommand| command@)
}

impl View for ArchiveDocument {
    type V = ArchiveModel;

    open spec fn view(&self) -> ArchiveModel {
        ArchiveModel {
            format: self.format@,
            schema_version: self.schema_version,
            canvas_size: self.canvas_size,
            tile_size: self.tile_size,
            revision: self.revision,
            next_stroke: self.next_stroke,
            active_layer: self.active_layer,
            next_layer: self.next_layer,
            points: self.points@,
            segments: self.segments@,
            strokes: self.strokes@,
            layers: archive_layer_models(self.layers@),
            materials: record_models(self.materials@),
            effects: self.effects@,
            undo: archive_command_models(self.undo@),
            redo: archive_command_models(self.redo@),
        }
    }
}

/// Deposition mode of a saved number; unknown numbers mean normal paint.
pub open spec fn deposition_of(value: u8) -> DepositionMode {
    if value == 1 { DepositionMode::Erase } else { DepositionMode::Normal }
}

/// Number under which a deposition mode is saved.
pub open spec fn saved_deposition(mode: DepositionMode) -> u8 {
    match mode {
        DepositionMode::Normal => 0,
        DepositionMode::Erase => 1,
    }
}

fn deposition_mode(value: u8) -> (mode: DepositionMode)
    ensures
        mode == deposition_of(value),
{
    if value == 1 { DepositionMode::Erase } else { DepositionMode::Normal }
}

fn deposition_number(mode: DepositionMode) -> (value: u8)
    ensures
        value == saved_deposition(mode),
{
    match mode {
        DepositionMode::Normal => 0,
        DepositionMode::Erase => 1,
    }
}

impl ArchiveSegment {
    /// The saved form of a segment.
    pub open spec fn saved(segment: StrokeSegment) -> Self {
        ArchiveSegment {
            start: segment.start,
            end: segment.end,
            model: segment.model.0,
            material: segment.material.0,
            deposition: saved_deposition(segment.deposition),
            layer: segment.layer.0,
        }
    }

    /// The segment that a saved form stands for.
    pub open spec fn loaded(self) -> StrokeSegment {
        StrokeSegment {
            start: self.start,
            end: self.end,
            model: PaintModelId(self.model),
            material: PaintMaterialId(self.material),
            deposition: deposition_of(self.deposition),
            layer: LayerId(self.layer),
        }
    }

    fn from_segment(segment: StrokeSegment) -> (saved: Self)
        ensures
            saved == Self::saved(segment),
    {
        ArchiveSegment {
            start: segment.start,
            end: segment.end,
            model: segment.model.0,
            material: segment.material.0,
            deposition: deposition_number(segment.deposition),
            layer: segment.layer.0,
        }
    }

    pub fn into_segment(self) -> (segment: StrokeSegment)
        ensures
            segment == self.loaded(),
    {
        StrokeSegment {
            start: self.start,
            end: self.end,
            model: PaintModelId(self.model),
            material: PaintMaterialId(self.material),
            deposition: deposition_mode(self.deposition),
            layer: LayerId(self.layer),
        }
    }
}

impl ArchiveBrush {
    /// The saved form of a brush.
    pub open spec fn saved(brush: BrushProfile) -> Self {
        ArchiveBrush {
            model: brush.paint.model.0,
            model_version: brush.paint.model_version,
            material: brush.paint.material.0,
            deposition: saved_deposition(brush.deposition),
            diameter: brush.diameter,
            size_space: match brush.size_space {
                BrushSizeSpace::Document => 0,
                BrushSizeSpace::Screen => 1,
            },
            minimum_diameter_ratio: brush.minimum_diameter_ratio,
            pressure_gamma: brush.pressure_gamma,
            flow: brush.flow,
        }
    }

    /// The paint reference of a saved brush.
    pub open spec fn reference(self) -> PaintMaterialRef {
        PaintMaterialRef {
            model: PaintModelId(self.model),
            model_version: self.model_version,
            material: PaintMaterialId(self.material),
        }
    }

    /// The brush that a saved form stands for.
    pub open spec fn loaded(self) -> BrushProfile {
        BrushProfile {
            paint: self.reference(),
            deposition: deposition_of(self.deposition),
            diameter: self.diameter,
            size_space: if self.size_space == 0 {
                BrushSizeSpace::Document
            } else {
                BrushSizeSpace::Screen
            },
            minimum_diameter_ratio: self.minimum_diameter_ratio,
            pressure_gamma: self.pressure_gamma,
            flow: self.flow,
        }
    }

    /// Whether enumerations are in range and numbers finite.
    pub open spec fn valid(self) -> bool {
        &&& self.deposition <= 1
        &&& self.size_space <= 1
        &&& self.diameter.finite()
        &&& self.minimum_diameter_ratio.finite()
        &&& self.pressure_gamma.finite()
        &&& self.flow.finite()
    }

    fn from_brush(brush: BrushProfile) -> (saved: Self)
        ensures
            saved == Self::saved(brush),
    {
        ArchiveBrush {
            model: brush.paint.model.0,
            model_version: brush.paint.model_version,
            material: brush.paint.material.0,
            deposition: deposition_number(brush.deposition),
            diameter: brush.diameter,
            size_space: match brush.size_space {
                BrushSizeSpace::Document => 0,
                BrushSizeSpace::Screen => 1,
            },
            minimum_diameter_ratio: brush.minimum_diameter_ratio,
            pressure_gamma: brush.pressure_gamma,
            flow: brush.flow,
        }
    }

    pub fn into_brush(self) -> (brush: BrushProfile)
        ensures
            brush == self.loaded(),
    {
        BrushProfile {
            paint: PaintMaterialRef {
                model: PaintModelId(self.model),
                model_version: self.model_version,
                material: PaintMaterialId(self.material),
            },
            deposition: deposition_mode(self.deposition),
            diameter: self.diameter,
            size_space: if self.size_space == 0 {
                BrushSizeSpace::Document
            } else {
                BrushSizeSpace::Screen
            },
            minimum_diameter_ratio: self.minimum_diameter_ratio,
            pressure_gamma: self.pressure_gamma,
            flow: self.flow,
        }
    }

    pub fn is_valid(&self) -> (valid: bool)
        ensures
            valid == self.valid(),
    {
        self.deposition <= 1 && self.size_space <= 1 && self.diameter.is_finite()
            && self.minimum_diameter_ratio.is_finite() && self.pressure_gamma.is_finite()
            && self.flow.is_finite()
    }
}

impl ArchiveStroke {
    /// The saved form of a stroke.
    pub open spec fn saved(stroke: StrokeModel) -> Self {
        ArchiveStroke {
            id: stroke.id.0,
            first_point: stroke.first_point,
            point_count: stroke.point_count,
            first_segment: stroke.first_segment,
            segment_count: stroke.segment_count,
            layer: stroke.layer.0,
            brush: ArchiveBrush::saved(stroke.brush),
            bounds: stroke.bounds,
            visible: stroke.visible,
        }
    }

    /// The completed stroke that a saved form stands for, before its tiles are
    /// known.
    pub open spec fn loaded(self, revision: u64) -> StrokeModel {
        StrokeModel {
            id: StrokeId(self.id),
            first_point: self.first_point,
            point_count: self.point_count,
            first_segment: self.first_segment,
            segment_count: self.segment_count,
            layer: LayerId(self.layer),
            brush: self.brush.loaded(),
            bounds: self.bounds,
            revision,
            state: if self.visible { StrokeState::PendingCache } else { StrokeState::Hidden },
            visible: self.visible,
            complete: true,
            affected_tiles: Seq::empty(),
        }
    }

    fn from_stroke(stroke: &StrokeMetadata) -> (saved: Self)
        ensures
            saved == Self::saved(stroke@),
    {
        ArchiveStroke {
            id: stroke.id.0,
            first_point: stroke.first_point,
            point_count: stroke.point_count,
            first_segment: stroke.first_segment,
            segment_count: stroke.segment_count,
            layer: stroke.layer.0,
            brush: ArchiveBrush::from_brush(stroke.brush),
            bounds: stroke.bounds,
            visible: stroke.visible,
        }
    }

    pub fn into_stroke(self, revision: u64) -> (stroke: StrokeMetadata)
        ensures
            stroke@ == self.loaded(revision),
    {
        let stroke = StrokeMetadata {
            id: StrokeId(self.id),
            first_point: self.first_point,
            point_count: self.point_count,
            first_segment: self.first_segment,
            segment_count: self.segment_count,
            layer: LayerId(self.layer),
            brush: self.brush.into_brush(),
            bounds: self.bounds,
            revision,
            state: if self.visible { StrokeState::PendingCache } else { StrokeState::Hidden },
            visible: self.visible,
            complete: true,
            affected_tiles: Vec::new(),
        };
        assert(stroke@.affected_tiles =~= Seq::empty());
        stroke
    }
}

impl ArchiveLayerModel {
    /// The saved form of a layer.
    pub open spec fn saved(layer: LayerModel) -> Self {
        ArchiveLayerModel {
            id: layer.id.0,
            name: layer.name,
            opacity: layer.opacity,
            composite: 0,
            visible: layer.visible,
        }
    }

    /// The layer that a saved form stands for.
    pub open spec fn loaded(self) -> LayerModel {
        LayerModel {
            id: LayerId(self.id),
            name: self.name,
            opacity: self.opacity,
            composite: LayerCompositeMode::Normal,
            visible: self.visible,
        }
    }

    /// Whether opacity and blend mode are in range.
    pub open spec fn valid(self) -> bool {
        &&& self.opacity.finite()
        &&& !self.opacity.below(Scalar::zero())
        &&& !Scalar::one().below(self.opacity)
        &&& self.composite == 0
    }
}

impl ArchiveLayer {
    fn from_layer(layer: &CanvasLayer) -> (saved: Self)
        ensures
            saved@ == ArchiveLayerModel::saved(layer@),
    {
        ArchiveLayer {
            id: layer.id.0,
            name: layer.name.clone(),
            opacity: layer.opacity,
            composite: 0,
            visible: layer.visible,
        }
    }

    pub fn to_layer(&self) -> (layer: CanvasLayer)
        ensures
            layer@ == self@.loaded(),
    {
        CanvasLayer {
            id: LayerId(self.id),
            name: self.name.clone(),
            opacity: self.opacity,
            composite: LayerCompositeMode::Normal,
            visible: self.visible,
        }
    }

    pub fn is_valid(&self) -> (valid: bool)
        ensures
            valid == self@.valid(),
    {
        self.opacity.is_finite() && !self.opacity.less_than(Scalar::zero())
            && !Scalar::one().less_than(self.opacity) && self.composite == 0
    }
}

/// A sorted list with one more identity.
pub open spec fn insert_id(sorted: Seq<EffectNodeId>, id: EffectNodeId) -> Seq<EffectNodeId>
    decreases sorted.len(),
{
    if sorted.len() == 0 || sorted.last().0 <= id.0 {
        sorted.push(id)
    } else {
        insert_id(sorted.drop_last(), id).push(sorted.last())
    }
}

/// Identities in ascending order.
pub open spec fn sorted_ids(ids: Seq<EffectNodeId>) -> Seq<EffectNodeId>
    decreases ids.len(),
{
    if ids.len() == 0 {
        Seq::empty()
    } else {
        insert_id(sorted_ids(ids.drop_last()), ids.last())
    }
}

/// The saved form of a history command.
pub open spec fn saved_command(
    command: CommandModel,
    strokes: Seq<StrokeModel>,
) -> ArchiveCommandModel {
    match command {
        CommandModel::AddStroke(index) => ArchiveCommandModel::AddStroke(
            strokes[index as int].id.0,
        ),
        CommandModel::Clear(indices) => ArchiveCommandModel::Clear(
            indices.map_values(|index: usize| strokes[index as int].id.0),
        ),
        CommandModel::Resize { before, after } => ArchiveCommandModel::Resize { before, after },
        CommandModel::AddLayer { layer, index } => ArchiveCommandModel::AddLayer {
            layer: ArchiveLayerModel::saved(layer),
            index,
        },
        CommandModel::LayerVisibility { layer, before, after } => {
            ArchiveCommandModel::LayerVisibility { layer: layer.0, before, after }
        },
        CommandModel::LayerOpacity { layer, before, after } => ArchiveCommandModel::LayerOpacity {
            layer: layer.0,
            before,
            after,
        },
        CommandModel::LayerMove { layer, before, after } => ArchiveCommandModel::LayerMove {
            layer: layer.0,
            before,
            after,
        },
        CommandModel::LayerRename { layer, before, after } => ArchiveCommandModel::LayerRename {
            layer: layer.0,
            before,
            after,
        },
    }
}

/// The saved form of a list of history commands.
pub open spec fn saved_commands(
    commands: Seq<CommandModel>,
    strokes: Seq<StrokeModel>,
) -> Seq<ArchiveCommandModel> {
    commands.map_values(|command: CommandModel| saved_command(command, strokes))
}

/// The saved form of an effect graph: lists sorted, by ascending node.
pub open spec fn saved_effects(graph: EffectGraphModel) -> ArchiveEffectsModel {
    ArchiveEffectsModel {
        revision: graph.revision,
        next_node: graph.next_node,
        nodes: graph.nodes,
        dependencies: ascending(graph.dependencies.dom()).map_values(
            |key: u64| (key, sorted_ids(graph.dependencies[key])),
        ),
    }
}

/// Whether a document can be saved: no contact is drawing.
pub open spec fn at_rest(document: DocumentModel) -> bool {
    &&& document.active.is_empty()
    &&& forall|i: int|
        0 <= i < document.strokes.len() ==> (#[trigger] document.strokes[i]).complete
}

/// The saved form of a document.
pub open spec fn saved_document(document: DocumentModel) -> ArchiveModel {
    ArchiveModel {
        format: "org.hamerons.stroke-document"@,
        schema_version: DOCUMENT_SCHEMA_VERSION,
        canvas_size: document.canvas_size,
        tile_size: document.tile_size,
        revision: document.revision,
        next_stroke: document.next_stroke,
        active_layer: document.active_layer.0,
        next_layer: document.next_layer,
        points: document.points,
        segments: document.segments.map_values(
            |segment: StrokeSegment| ArchiveSegment::saved(segment),
        ),
        strokes: document.strokes.map_values(|stroke: StrokeModel| ArchiveStroke::saved(stroke)),
        layers: document.layers.map_values(|layer: LayerModel| ArchiveLayerModel::saved(layer)),
        materials: ascending(document.materials.dom()).map_values(
            |rank: u128| document.materials[rank],
        ),
        effects: saved_effects(document.effects),
        undo: saved_commands(document.undo, document.strokes),
        redo: saved_commands(document.redo, document.strokes),
    }
}

fn insert_sorted(list: &mut Vec<EffectNodeId>, id: EffectNodeId)
    ensures
        final(list)@ == insert_id(old(list)@, id),
    decreases old(list)@.len(),
{
    let count: usize = list.len();
    if count == 0 || list[count - 1].0 <= id.0 {
        list.push(id);
        return;
    }
    let last = list[count - 1];
    list.pop();
    assert(list@ =~= old(list)@.drop_last());
    insert_sorted(list, id);
    list.push(last);
}

fn sort_ids(ids: &Vec<EffectNodeId>) -> (sorted: Vec<EffectNodeId>)
    ensures
        sorted@ == sorted_ids(ids@),
{
    let mut sorted: Vec<EffectNodeId> = Vec::new();
    for i in 0..ids.len()
        invariant
            sorted@ == sorted_ids(ids@.take(i as int)),
    {
        insert_sorted(&mut sorted, ids[i]);
        assert(ids@.take(i + 1).drop_last() =~= ids@.take(i as int));
    }
    assert(ids@.take(ids@.len() as int) =~= ids@);
    sorted
}

impl ArchiveHistoryCommand {
    fn from_command(command: &HistoryCommand, strokes: &Vec<StrokeMetadata>) -> (saved: Self)
        requires
            match command@ {
                CommandModel::AddStroke(index) => index < strokes@.len(),
                CommandModel::Clear(indices) => forall|k: int|
                    0 <= k < indices.len() ==> (#[trigger] indices[k]) < strokes@.len(),
                _ => true,
            },
        ensures
            saved@ == saved_command(command@, stroke_models(strokes@)),
    {
        match command {
            HistoryCommand::AddStroke(index) => ArchiveHistoryCommand::AddStroke(
                strokes[*index].id.0,
            ),
            HistoryCommand::Clear(indices) => {
                let mut ids: Vec<u64> = Vec::new();
                for k in 0..indices.len()
                    invariant
                        forall|j: int|
                            0 <= j < indices@.len() ==> (#[trigger] indices@[j]) < strokes@.len(),
                        ids@ == indices@.take(k as int).map_values(
                            |index: usize| stroke_models(strokes@)[index as int].id.0,
                        ),
                {
                    ids.push(strokes[indices[k]].id.0);
                    assert(ids@ =~= indices@.take(k + 1).map_values(
                        |index: usize| stroke_models(strokes@)[index as int].id.0,
                    ));
                }
                assert(indices@.take(indices@.len() as int) =~= indices@);
                ArchiveHistoryCommand::Clear(ids)
            },
            HistoryCommand::Resize { before, after } => ArchiveHistoryCommand::Resize {
                before: *before,
                after: *after,
            },
            HistoryCommand::AddLayer { layer, index } => ArchiveHistoryCommand::AddLayer {
                layer: ArchiveLayer::from_layer(layer),
                index: *index,
            },
            HistoryCommand::LayerVisibility { layer, before, after } => {
                ArchiveHistoryCommand::LayerVisibility {
                    layer: layer.0,
                    before: *before,
                    after: *after,
                }
            },
            HistoryCommand::LayerOpacity { layer, before, after } => {
                ArchiveHistoryCommand::LayerOpacity {
                    layer: layer.0,
                    before: *before,
                    after: *after,
                }
            },
            HistoryCommand::LayerMove { layer, before, after } => {
                ArchiveHistoryCommand::LayerMove {
                    layer: layer.0,
                    before: *before,
                    after: *after,
                }
            },
            HistoryCommand::LayerRename { layer, before, after } => {
                ArchiveHistoryCommand::LayerRename {
                    layer: layer.0,
                    before: before.clone(),
                    after: after.clone(),
                }
            },
        }
    }
}

fn save_commands(
    commands: &Vec<HistoryCommand>,
    document: &StrokeDocument,
) -> (saved: Vec<ArchiveHistoryCommand>)
    requires
        forall|k: int|
            0 <= k < commands@.len() ==> document@.command_in_range((#[trigger] commands@[k])@),
    ensures
        archive_command_models(saved@) == saved_commands(
            command_models(commands@),
            document@.strokes,
        ),
{
    let strokes = document.strokes();
    let mut saved: Vec<ArchiveHistoryCommand> = Vec::new();
    for k in 0..commands.len()
        invariant
            stroke_models(strokes@) == document@.strokes,
            forall|j: int|
                0 <= j < commands@.len() ==> document@.command_in_range(
                    (#[trigger] commands@[j])@,
                ),
            saved@.len() == k,
            forall|j: int|
                0 <= j < k ==> (#[trigger] saved@[j])@ == saved_command(
                    commands@[j]@,
                    document@.strokes,
                ),
    {
        assert(document@.command_in_range(commands@[k as int]@));
        assert(stroke_models(strokes@).len() == strokes@.len());
        saved.push(ArchiveHistoryCommand::from_command(&commands[k], strokes));
    }
    assert(archive_command_models(saved@) =~= saved_commands(
        command_models(commands@),
        document@.strokes,
    ));
    saved
}

fn save_effects(graph: &EffectGraph) -> (saved: ArchiveEffects)
    ensures
        saved@ == saved_effects(graph@),
{
    let (revision, next_node, nodes, dependencies) = graph.persistence_parts();
    let mut saved_nodes: Vec<EffectNode> = Vec::new();
    for i in 0..nodes.len()
        invariant
            saved_nodes@.len() == i,
            forall|j: int| 0 <= j < i ==> (#[trigger] saved_nodes@[j])@ == nodes@[j]@,
    {
        saved_nodes.push(nodes[i].clone());
    }
    assert(node_models(saved_nodes@) =~= graph@.nodes);
    let keys = ordered_ids(dependencies);
    assert(graph@.dependencies.dom() =~= dependencies@.dom());
    let mut pairs: Vec<(u64, Vec<EffectNodeId>)> = Vec::new();
    for i in 0..keys.len()
        invariant
            dependency_models(dependencies@) == graph@.dependencies,
            lists(keys@, dependencies@.dom()),
            pairs@.len() == i,
            forall|j: int|
                0 <= j < i ==> (#[trigger] pairs@[j]).0 == keys@[j] && pairs@[j].1@ == sorted_ids(
                    graph@.dependencies[keys@[j]],
                ),
    {
        assert(keys@.contains(keys@[i as int]));
        assert(dependencies@.dom().contains(keys@[i as int]));
        match dependencies.get(&keys[i]) {
            Some(list) => {
                assert(graph@.dependencies[keys@[i as int]] == list@);
                pairs.push((keys[i], sort_ids(list)));
            },
            None => {},
        }
    }
    let saved = ArchiveEffects { revision, next_node, nodes: saved_nodes, dependencies: pairs };
    assert(saved@.dependencies =~= saved_effects(graph@).dependencies);
    saved
}

impl ArchiveDocument {
    /// The saved form of a document at rest.
    pub fn from_document(document: &StrokeDocument) -> (result: Result<Self, DocumentIoError>)
        requires
            document.well_formed(),
        ensures
            if at_rest(document@) {
                result matches Ok(archive) && archive@ == saved_document(document@)
            } else {
                result matches Err(error) && error@ == ErrorModel::ActiveContacts
            },
    {
        let strokes = document.strokes();
        let mut rest = !document.is_drawing();
        for i in 0..strokes.len()
            invariant
                stroke_models(strokes@) == document@.strokes,
                rest == (document@.active.is_empty() && forall|j: int|
                    0 <= j < i ==> (#[trigger] document@.strokes[j]).complete),
        {
            assert(stroke_models(strokes@)[i as int] == strokes@[i as int]@);
            if !strokes[i].complete {
                rest = false;
            }
        }
        if !rest {
            return Err(DocumentIoError::ActiveContacts);
        }
        let ghost target = saved_document(document@);
        let samples = document.points();
        let mut points: Vec<StrokePoint> = Vec::new();
        for i in 0..samples.len()
            invariant
                samples@ == document@.points,
                points@ == document@.points.take(i as int),
        {
            points.push(samples[i]);
            assert(points@ =~= document@.points.take(i + 1));
        }
        assert(points@ =~= target.points);
        let bridges = document.segments();
        let mut segments: Vec<ArchiveSegment> = Vec::new();
        for i in 0..bridges.len()
            invariant
                bridges@ == document@.segments,
                segments@.len() == i,
                forall|j: int|
                    0 <= j < i ==> #[trigger] segments@[j] == ArchiveSegment::saved(
                        document@.segments[j],
                    ),
        {
            segments.push(ArchiveSegment::from_segment(bridges[i]));
        }
        assert(segments@ =~= target.segments);
        let mut saved_strokes: Vec<ArchiveStroke> = Vec::new();
        for i in 0..strokes.len()
            invariant
                stroke_models(strokes@) == document@.strokes,
                saved_strokes@.len() == i,
                forall|j: int|
                    0 <= j < i ==> #[trigger] saved_strokes@[j] == ArchiveStroke::saved(
                        document@.strokes[j],
                    ),
        {
            assert(stroke_models(strokes@)[i as int] == strokes@[i as int]@);
            saved_strokes.push(ArchiveStroke::from_stroke(&strokes[i]));
        }
        assert(saved_strokes@ =~= target.strokes);
        let current = document.layers();
        let mut layers: Vec<ArchiveLayer> = Vec::new();
        for i in 0..current.len()
            invariant
                layer_models(current@) == document@.layers,
                layers@.len() == i,
                forall|j: int|
                    0 <= j < i ==> (#[trigger] layers@[j])@ == ArchiveLayerModel::saved(
                        document@.layers[j],
                    ),
        {
            assert(layer_models(current@)[i as int] == current@[i as int]@);
            layers.push(ArchiveLayer::from_layer(&current[i]));
        }
        assert(archive_layer_models(layers@) =~= target.layers);
        let records = document.paint_materials().iter();
        let ghost ranks = ascending(document@.materials.dom());
        let mut materials: Vec<PaintMaterialRecord> = Vec::new();
        for i in 0..records.len()
            invariant
                ranks == ascending(document@.materials.dom()),
                records@.len() == ranks.len(),
                forall|j: int|
                    0 <= j < records@.len() ==> (#[trigger] records@[j])@
                        == document@.materials[ranks[j]],
                materials@.len() == i,
                forall|j: int| 0 <= j < i ==> (#[trigger] materials@[j])@ == records@[j]@,
        {
            let record: &PaintMaterialRecord = records[i];
            materials.push(record.clone());
        }
        assert(record_models(materials@) =~= target.materials);
        let effects = save_effects(document.effects());
        let undo_commands = document.undo_commands();
        proof {
            assert forall|k: int| 0 <= k < undo_commands@.len() implies document@.command_in_range(
                (#[trigger] undo_commands@[k])@,
            ) by {
                assert(command_models(undo_commands@)[k] == undo_commands@[k]@);
                assert(document@.command_in_range(document@.undo[k]));
            }
        }
        let undo = save_commands(undo_commands, document);
        let redo_commands = document.redo_commands();
        proof {
            assert forall|k: int| 0 <= k < redo_commands@.len() implies document@.command_in_range(
                (#[trigger] redo_commands@[k])@,
            ) by {
                assert(command_models(redo_commands@)[k] == redo_commands@[k]@);
                assert(document@.command_in_range(document@.redo[k]));
            }
        }
        let redo = save_commands(redo_commands, document);
        Ok(
            ArchiveDocument {
                format: "org.hamerons.stroke-document".to_owned(),
                schema_version: DOCUMENT_SCHEMA_VERSION,
                canvas_size: document.canvas_size(),
                tile_size: document.tile_size(),
                revision: document.revision(),
                next_stroke: document.next_stroke(),
                active_layer: document.active_layer().0,
                next_layer: document.next_layer(),
                points,
                segments,
                strokes: saved_strokes,
                layers,
                materials,
                effects,
                undo,
                redo,
            },
        )
    }
}

} // verus!
