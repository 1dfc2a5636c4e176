//! Strokes, layers and the records that describe changes to them.
use crate::geometry::{Bounds, CanvasSize, LayerId, TileKey, TileSpan, Vector};
use crate::paint::{
    rgba_reference, DepositionMode, PaintMaterialId, PaintMaterialRef, PaintModelId,
    RGBA_DEFAULT_ERASER, RGBA_DEFAULT_INK,
};
use crate::scalar::Scalar;
use vstd::prelude::*;

verus! {

/// Stable identity of a stroke for the lifetime of a document.
#[derive(Clone, Copy, Debug, PartialEq, Eq, Hash, Structural)]
pub struct StrokeId(pub u64);

/// Unit convention for brush diameter before it becomes stored document geometry.
#[derive(Clone, Copy, Debug, PartialEq, Eq, Structural)]
pub enum BrushSizeSpace {
    /// Diameter is measured directly in document-coordinate units.
    Document,
    /// Diameter is measured in physical viewport pixels at sample time.
    Screen,
}

impl Default for BrushSizeSpace {
    /// Diameters are measured on the screen.
    fn default() -> (space: Self)
        ensures
            space == BrushSizeSpace::Screen,
    {
        BrushSizeSpace::Screen
    }
}

/// Pressure-sensitive brush configuration used while collecting points.
#[derive(Clone, Copy, Debug, PartialEq, Eq, Structural)]
pub struct BrushProfile {
    /// Paint model and material stored in segment metadata.
    pub paint: PaintMaterialRef,
    /// Normal paint or model-specific material removal.
    pub deposition: DepositionMode,
    /// Full-pressure diameter in the selected size space.
    pub diameter: Scalar,
    /// Coordinate space in which `diameter` is interpreted.
    pub size_space: BrushSizeSpace,
    /// Minimum pressure-to-diameter ratio.
    pub minimum_diameter_ratio: Scalar,
    /// Exponent applied to normalized pressure.
    pub pressure_gamma: Scalar,
    /// Per-sample deposition strength.
    pub flow: Scalar,
}

/// Runtime configuration for pen collection and persistent GPU buffers.
#[derive(Clone, Copy, Debug, PartialEq, Eq, Structural)]
pub struct StrokeRendererSettings {
    /// Profile used by pen, brush, pencil, and airbrush tools.
    pub pen: BrushProfile,
    /// Profile used by an eraser-end tablet tool.
    pub eraser: BrushProfile,
    /// Initial point-buffer capacity, grown geometrically when exceeded.
    pub initial_point_capacity: usize,
    /// Initial segment-metadata capacity, grown geometrically when exceeded.
    pub initial_segment_capacity: usize,
    /// Width and height of one persistent canvas content tile.
    pub tile_size: u32,
    /// Aggregate persistent GPU cache budget across every model plane.
    pub gpu_cache_budget_bytes: u64,
    /// Tile regeneration budget while one or more strokes are active.
    pub max_dirty_tiles_while_drawing: u32,
    /// Tile regeneration budget while the pen is idle.
    pub max_dirty_tiles_while_idle: u32,
    /// Effect/scratch work budget while drawing.
    pub max_effect_tiles_while_drawing: u32,
    /// Effect/scratch work budget while idle.
    pub max_effect_tiles_while_idle: u32,
    /// Emit one aggregate telemetry record per second when enabled.
    pub log_diagnostics: bool,
}

/// The pen preset: dark ink, eight screen pixels wide.
pub open spec fn default_pen() -> BrushProfile {
    BrushProfile {
        paint: rgba_reference(RGBA_DEFAULT_INK),
        deposition: DepositionMode::Normal,
        diameter: Scalar { bits: 0x4100_0000 },
        size_space: BrushSizeSpace::Screen,
        minimum_diameter_ratio: Scalar { bits: 0x3df5_c28f },
        pressure_gamma: Scalar { bits: 0x3f38_51ec },
        flow: Scalar { bits: 0x3f80_0000 },
    }
}

/// The eraser preset: twenty-eight screen pixels wide.
pub open spec fn default_eraser() -> BrushProfile {
    BrushProfile {
        paint: rgba_reference(RGBA_DEFAULT_ERASER),
        deposition: DepositionMode::Erase,
        diameter: Scalar { bits: 0x41e0_0000 },
        size_space: BrushSizeSpace::Screen,
        minimum_diameter_ratio: Scalar { bits: 0x3eb3_3333 },
        pressure_gamma: Scalar { bits: 0x3f38_51ec },
        flow: Scalar { bits: 0x3f80_0000 },
    }
}

impl Default for StrokeRendererSettings {
    fn default() -> (settings: Self)
        ensures
            settings.pen == default_pen(),
            settings.eraser == default_eraser(),
            settings.initial_point_capacity == 16384,
            settings.initial_segment_capacity == 16384,
            settings.tile_size == 256,
            settings.gpu_cache_budget_bytes == 268435456,
            settings.max_dirty_tiles_while_drawing == 8,
            settings.max_dirty_tiles_while_idle == 32,
            settings.max_effect_tiles_while_drawing == 4,
            settings.max_effect_tiles_while_idle == 16,
            settings.log_diagnostics,
    {
        StrokeRendererSettings {
            pen: BrushProfile {
                paint: rgba_reference(RGBA_DEFAULT_INK),
                deposition: DepositionMode::Normal,
                diameter: Scalar { bits: 0x4100_0000 },
                size_space: BrushSizeSpace::Screen,
                minimum_diameter_ratio: Scalar { bits: 0x3df5_c28f },
                pressure_gamma: Scalar { bits: 0x3f38_51ec },
                flow: Scalar { bits: 0x3f80_0000 },
            },
            eraser: BrushProfile {
                paint: rgba_reference(RGBA_DEFAULT_ERASER),
                deposition: DepositionMode::Erase,
                diameter: Scalar { bits: 0x41e0_0000 },
                size_space: BrushSizeSpace::Screen,
                minimum_diameter_ratio: Scalar { bits: 0x3eb3_3333 },
                pressure_gamma: Scalar { bits: 0x3f38_51ec },
                flow: Scalar { bits: 0x3f80_0000 },
            },
            initial_point_capacity: 16384,
            initial_segment_capacity: 16384,
            tile_size: 256,
            gpu_cache_budget_bytes: 268435456,
            max_dirty_tiles_while_drawing: 8,
            max_dirty_tiles_while_idle: 32,
            max_effect_tiles_while_drawing: 4,
            max_effect_tiles_while_idle: 16,
            log_diagnostics: true,
        }
    }
}

/// Geometry-only sample. Paint channels are referenced by [`StrokeSegment`].
#[derive(Clone, Copy, Debug, PartialEq, Eq, Structural)]
pub struct StrokePoint {
    /// Position in 2D world coordinates.
    pub position: Vector,
    /// Half-width in document coordinates.
    pub half_width: Scalar,
    /// Major-to-minor footprint ratio. One is circular.
    pub aspect_ratio: Scalar,
    /// Deposition amount before the paint model interprets it.
    pub flow: Scalar,
    /// Projected brush-major-axis orientation.
    pub orientation: Vector,
    /// Tool-axis rotation in radians.
    pub twist_radians: Scalar,
}

impl StrokePoint {
    /// Numeric equality of every channel.
    pub open spec fn same_number(self, other: StrokePoint) -> bool {
        &&& self.position.same_number(other.position)
        &&& self.half_width.same_number(other.half_width)
        &&& self.aspect_ratio.same_number(other.aspect_ratio)
        &&& self.flow.same_number(other.flow)
        &&& self.orientation.same_number(other.orientation)
        &&& self.twist_radians.same_number(other.twist_radians)
    }

    /// Numeric equality of every channel.
    pub fn equals(self, other: StrokePoint) -> (equal: bool)
        ensures
            equal == self.same_number(other),
    {
        self.position.equals(other.position) && self.half_width.equals(other.half_width)
            && self.aspect_ratio.equals(other.aspect_ratio) && self.flow.equals(other.flow)
            && self.orientation.equals(other.orientation) && self.twist_radians.equals(
            other.twist_radians,
        )
    }
}

/// Append-only GPU-facing metadata for one procedural segment.
#[derive(Clone, Copy, Debug, PartialEq, Eq, Structural)]
pub struct StrokeSegment {
    /// First point index.
    pub start: u32,
    /// Second point index; equal to `start` for an initial contact dot.
    pub end: u32,
    /// Paint model that owns deposition for this segment.
    pub model: PaintModelId,
    /// Material interpreted by `model`.
    pub material: PaintMaterialId,
    /// Deposition operation interpreted by `model`.
    pub deposition: DepositionMode,
    /// Stable canvas layer used by live compositing and durable replay.
    pub layer: LayerId,
}

impl StrokeSegment {
    /// Segment that a brush draws between two points of a layer.
    pub open spec fn drawn(start: u32, end: u32, profile: BrushProfile, layer: LayerId) -> Self {
        StrokeSegment {
            start,
            end,
            model: profile.paint.model,
            material: profile.paint.material,
            deposition: profile.deposition,
            layer,
        }
    }
}

/// Half-open range of segment numbers.
#[derive(Clone, Copy, Debug, PartialEq, Eq, Structural)]
pub struct SegmentRange {
    /// First segment of the range.
    pub start: u32,
    /// First segment after the range.
    pub end: u32,
}

/// Lifecycle of a vector stroke relative to the persistent tile cache.
#[derive(Clone, Copy, Debug, PartialEq, Eq, Structural)]
pub enum StrokeState {
    /// Contact is active and always renders through the low-latency overlay.
    Active,
    /// Contact ended, but at least one affected tile has not committed.
    PendingCache,
    /// Every affected tile contains this stroke's required revision.
    Cached,
    /// An undo or clear command excludes this stroke from replay.
    Hidden,
}

/// Lightweight stroke range metadata retained on the CPU.
#[derive(Clone, Debug)]
pub struct StrokeMetadata {
    /// Stable stroke identity.
    pub id: StrokeId,
    /// Index of the contact point.
    pub first_point: u32,
    /// Number of points currently in the stroke.
    pub point_count: u32,
    /// First segment in the append-only geometry buffer.
    pub first_segment: u32,
    /// Number of procedural segments owned by the stroke.
    pub segment_count: u32,
    /// Canvas layer receiving this stroke.
    pub layer: LayerId,
    /// Immutable brush style captured when contact began.
    pub brush: BrushProfile,
    /// Bounds including brush radius and two antialias pixels.
    pub bounds: Bounds,
    /// Document revision that must be present in every affected tile.
    pub revision: u64,
    /// Current document/cache lifecycle state.
    pub state: StrokeState,
    /// Whether the vector stroke participates in replay.
    pub visible: bool,
    /// Whether contact has ended.
    pub complete: bool,
    /// Tiles whose commit controls active-to-cached handoff.
    pub affected_tiles: Vec<TileKey>,
}

/// Mathematical value of a [`StrokeMetadata`].
#[verifier::ext_equal]
pub struct StrokeModel {
    pub id: StrokeId,
    pub first_point: u32,
    pub point_count: u32,
    pub first_segment: u32,
    pub segment_count: u32,
    pub layer: LayerId,
    pub brush: BrushProfile,
    pub bounds: Bounds,
    pub revision: u64,
    pub state: StrokeState,
    pub visible: bool,
    pub complete: bool,
    pub affected_tiles: Seq<TileKey>,
}

impl View for StrokeMetadata {
    type V = StrokeModel;

    open spec fn view(&self) -> StrokeModel {
        StrokeModel {
            id: self.id,
            first_point: self.first_point,
            point_count: self.point_count,
            first_segment: self.first_segment,
            segment_count: self.segment_count,
            layer: self.layer,
            brush: self.brush,
            bounds: self.bounds,
            revision: self.revision,
            state: self.state,
            visible: self.visible,
            complete: self.complete,
            affected_tiles: self.affected_tiles@,
        }
    }
}

/// The strokes of a list, as values.
pub open spec fn stroke_models(strokes: Seq<StrokeMetadata>) -> Seq<StrokeModel> {
    strokes.map_values(|stroke: StrokeMetadata| stroke@)
}

/// Copies a list of tiles.
pub fn copy_tiles(tiles: &Vec<TileKey>) -> (copy: Vec<TileKey>)
    ensures
        copy@ == tiles@,
{
    let mut copy: Vec<TileKey> = Vec::with_capacity(tiles.len());
    for i in 0..tiles.len()
        invariant
            copy@ == tiles@.take(i as int),
    {
        copy.push(tiles[i]);
        assert(copy@ =~= tiles@.take(i + 1));
    }
    assert(copy@ =~= tiles@);
    copy
}

/// Initial layer compositing contract. More modes can be registered later.
#[derive(Clone, Copy, Debug, PartialEq, Eq, Structural)]
pub enum LayerCompositeMode {
    /// Premultiplied source-over compositing.
    Normal,
}

impl Default for LayerCompositeMode {
    /// Layers are composited source-over.
    fn default() -> (mode: Self)
        ensures
            mode == LayerCompositeMode::Normal,
    {
        LayerCompositeMode::Normal
    }
}

/// Persistent canvas-layer metadata.
#[derive(Debug, PartialEq)]
pub struct CanvasLayer {
    /// Stable identity stored by strokes and tile keys.
    pub id: LayerId,
    /// Human-readable layer label.
    pub name: String,
    /// Layer opacity applied during display resolve.
    pub opacity: Scalar,
    /// Layer compositing operation.
    pub composite: LayerCompositeMode,
    /// Hidden layers stay in the document but are not replayed.
    pub visible: bool,
}

/// Mathematical value of a [`CanvasLayer`].
#[verifier::ext_equal]
pub struct LayerModel {
    pub id: LayerId,
    pub name: Seq<char>,
    pub opacity: Scalar,
    pub composite: LayerCompositeMode,
    pub visible: bool,
}

impl View for CanvasLayer {
    type V = LayerModel;

    open spec fn view(&self) -> LayerModel {
        LayerModel {
            id: self.id,
            name: self.name@,
            opacity: self.opacity,
            composite: self.composite,
            visible: self.visible,
        }
    }
}

impl LayerModel {
    /// An opaque, visible layer.
    pub open spec fn plain(id: LayerId, name: Seq<char>) -> Self {
        LayerModel {
            id,
            name,
            opacity: Scalar::one(),
            composite: LayerCompositeMode::Normal,
            visible: true,
        }
    }
}

impl Clone for CanvasLayer {
    fn clone(&self) -> (copy: Self)
        ensures
            copy@ == self@,
    {
        CanvasLayer {
            id: self.id,
            name: self.name.clone(),
            opacity: self.opacity,
            composite: self.composite,
            visible: self.visible,
        }
    }
}

impl Default for CanvasLayer {
    fn default() -> (layer: Self)
        ensures
            layer@ == LayerModel::plain(LayerId(0), "Paint"@),
    {
        CanvasLayer {
            id: LayerId(0),
            name: "Paint".to_string(),
            opacity: Scalar::one(),
            composite: LayerCompositeMode::Normal,
            visible: true,
        }
    }
}

/// The layers of a list, as values.
pub open spec fn layer_models(layers: Seq<CanvasLayer>) -> Seq<LayerModel> {
    layers.map_values(|layer: CanvasLayer| layer@)
}

/// Why a tile revision became stale.
#[derive(Clone, Copy, Debug, PartialEq, Eq, Structural)]
pub enum TileInvalidationCause {
    /// A newly completed stroke may display the old tile beneath its overlay.
    StrokeCommit,
    /// Undo or redo changed vector visibility.
    UndoRedo,
    /// Clear removed visible vector records.
    Clear,
    /// Canvas or viewport-dependent resources changed.
    Resize,
    /// Effect parameters, topology, or neighborhood dependencies changed.
    EffectDependency,
    /// Paint-model plane layout or tile size changed.
    CacheLayout,
    /// The render device was recreated and all derived resources were lost.
    DeviceLoss,
}

/// Revisioned document-to-cache invalidation record.
#[derive(Clone, Copy, Debug, PartialEq, Eq, Structural)]
pub struct TileInvalidation {
    /// Tile that became stale.
    pub key: TileKey,
    /// Document revision that the tile has to reach.
    pub revision: u64,
    /// Why it became stale.
    pub cause: TileInvalidationCause,
    /// Whether the old content may be shown until then.
    pub allow_stale_display: bool,
    /// Effect neighborhood that the replay has to read.
    pub halo_radius_px: u32,
}

/// An append-only change recorded during the most recent input batch.
#[derive(Clone, Copy, Debug, PartialEq, Eq, Structural)]
pub enum StrokeDelta {
    /// A contact began and created an initial dot segment.
    Begin {
        /// New stroke.
        stroke: StrokeId,
        /// Appended point index.
        point: u32,
        /// Appended segment index.
        segment: u32,
    },
    /// A contact appended a point and bridge segment.
    Append {
        /// Changed stroke.
        stroke: StrokeId,
        /// Appended point index.
        point: u32,
        /// Appended segment index.
        segment: u32,
    },
    /// A contact ended.
    End {
        /// Completed stroke.
        stroke: StrokeId,
    },
}

/// Deltas produced by one input update; it is replaced rather than queued.
#[derive(Debug)]
pub struct StrokeDeltaBatch {
    frame: u64,
    deltas: Vec<StrokeDelta>,
}

impl StrokeDeltaBatch {
    /// Sequence number of the batch.
    pub closed spec fn number(&self) -> u64 {
        self.frame
    }

    /// Changes of the batch.
    pub closed spec fn changes(&self) -> Seq<StrokeDelta> {
        self.deltas@
    }

    /// Creates an empty batch with sequence number zero.
    pub fn new() -> (batch: Self)
        ensures
            batch.number() == 0,
            batch.changes() == Seq::<StrokeDelta>::empty(),
    {
        StrokeDeltaBatch { frame: 0, deltas: Vec::new() }
    }

    /// Input-batch sequence number.
    pub fn frame(&self) -> (frame: u64)
        ensures
            frame == self.number(),
    {
        self.frame
    }

    /// Changes produced in this input batch.
    pub fn deltas(&self) -> (deltas: &Vec<StrokeDelta>)
        ensures
            deltas@ == self.changes(),
    {
        &self.deltas
    }

    /// Starts the next batch, forgetting the changes of the previous one.
    pub fn begin_frame(&mut self)
        ensures
            final(self).number() == old(self).number().wrapping_add(1),
            final(self).changes() == Seq::<StrokeDelta>::empty(),
    {
        self.frame = self.frame.wrapping_add(1);
        self.deltas.clear();
    }

    /// Records a change.
    pub fn push(&mut self, delta: StrokeDelta)
        ensures
            final(self).number() == old(self).number(),
            final(self).changes() == old(self).changes().push(delta),
    {
        self.deltas.push(delta);
    }
}

impl Default for StrokeDeltaBatch {
    fn default() -> (batch: Self)
        ensures
            batch.number() == 0,
            batch.changes() == Seq::<StrokeDelta>::empty(),
    {
        StrokeDeltaBatch::new()
    }
}

/// One step of the document history.
#[allow(inconsistent_fields)]
#[derive(Debug)]
pub enum HistoryCommand {
    /// A stroke was completed.
    AddStroke(usize),
    /// Visible strokes were hidden.
    Clear(Vec<usize>),
    /// The canvas extent changed.
    Resize {
        /// Extent before the command.
        before: CanvasSize,
        /// Extent after the command.
        after: CanvasSize,
    },
    /// A layer was created.
    AddLayer {
        /// The layer as created.
        layer: CanvasLayer,
        /// Its composite position.
        index: usize,
    },
    /// A layer was shown or hidden.
    LayerVisibility {
        /// The changed layer.
        layer: LayerId,
        /// Visibility before the command.
        before: bool,
        /// Visibility after the command.
        after: bool,
    },
    /// A layer's opacity changed.
    LayerOpacity {
        /// The changed layer.
        layer: LayerId,
        /// Opacity before the command.
        before: Scalar,
        /// Opacity after the command.
        after: Scalar,
    },
    /// A layer moved in the composite order.
    LayerMove {
        /// The moved layer.
        layer: LayerId,
        /// Composite position before the command.
        before: usize,
        /// Composite position after the command.
        after: usize,
    },
    /// A layer was renamed.
    LayerRename {
        /// The renamed layer.
        layer: LayerId,
        /// Name before the command.
        before: String,
        /// Name after the command.
        after: String,
    },
}

/// Mathematical value of a [`HistoryCommand`].
#[allow(inconsistent_fields)]
#[verifier::ext_equal]
pub enum CommandModel {
    AddStroke(usize),
    Clear(Seq<usize>),
    Resize { before: CanvasSize, after: CanvasSize },
    AddLayer { layer: LayerModel, index: usize },
    LayerVisibility { layer: LayerId, before: bool, after: bool },
    LayerOpacity { layer: LayerId, before: Scalar, after: Scalar },
    LayerMove { layer: LayerId, before: usize, after: usize },
    LayerRename { layer: LayerId, before: Seq<char>, after: Seq<char> },
}

impl View for HistoryCommand {
    type V = CommandModel;

    open spec fn view(&self) -> CommandModel {
        match self {
            HistoryCommand::AddStroke(index) => CommandModel::AddStroke(*index),
            HistoryCommand::Clear(indices) => CommandModel::Clear(indices@),
            HistoryCommand::Resize { before, after } => CommandModel::Resize {
                before: *before,
                after: *after,
            },
            HistoryCommand::AddLayer { layer, index } => CommandModel::AddLayer {
                layer: layer@,
                index: *index,
            },
            HistoryCommand::LayerVisibility { layer, before, after } => {
                CommandModel::LayerVisibility { layer: *layer, before: *before, after: *after }
            },
            HistoryCommand::LayerOpacity { layer, before, after } => CommandModel::LayerOpacity {
                layer: *layer,
                before: *before,
                after: *after,
            },
            HistoryCommand::LayerMove { layer, before, after } => CommandModel::LayerMove {
                layer: *layer,
                before: *before,
                after: *after,
            },
            HistoryCommand::LayerRename { layer, before, after } => CommandModel::LayerRename {
                layer: *layer,
                before: before@,
                after: after@,
            },
        }
    }
}

/// The commands of a list, as values.
pub open spec fn command_models(commands: Seq<HistoryCommand>) -> Seq<CommandModel> {
    commands.map_values(|command: HistoryCommand| command@)
}

/// Tiles that the geometry of one stroke reaches.
#[derive(Debug)]
pub struct StrokeCoverage {
    /// Tiles under the stroke's bounds, widened by the effect radius.
    pub affected: TileSpan,
    /// Tiles under each segment of the stroke, in segment order.
    pub segments: Vec<TileSpan>,
}

} // verus!
