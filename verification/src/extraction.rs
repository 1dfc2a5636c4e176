//! What the render side copies out of document and tile cache each frame.
use crate::cache::{BatchModel, JobModel, ReplayModel, TileDisplayInstance};
use crate::document::StrokeDocument;
use crate::geometry::{LayerId, TileKey};
use crate::gpu::{
    gpu_instance, gpu_job, instance_record, pack_mode, packed_mode, pixel_origin, GpuCanvasLayer,
    GpuReplayStroke, GpuStrokePoint, GpuStrokeSegment, GpuTileInstance, GpuTileJob,
};
use crate::paint::Rgba;
use crate::rgba::{RgbaMaterial, RgbaModelState, RgbaPaintModel};
use crate::scalar::Scalar;
use crate::state::DocumentModel;
use crate::strokes::{layer_models, LayerModel, SegmentRange, StrokePoint, StrokeSegment};
use crate::tiles::{job_models, replay_models, TileRasterJob, TileWorkBatch};
use vstd::prelude::*;

verus! {

/// How far extraction has followed the document.
#[derive(Clone, Copy, Debug, PartialEq, Eq, Structural)]
pub struct ExtractionState {
    /// Geometry generation that was copied.
    pub geometry_generation: Option<u64>,
    /// Number of points that were copied.
    pub point_count: usize,
    /// Number of segments that were copied.
    pub segment_count: usize,
    /// Material-table revision that was copied.
    pub material_revision: Option<u64>,
    /// Layer-list revision that was copied.
    pub layer_revision: Option<u64>,
}

impl ExtractionState {
    /// Nothing was copied yet.
    pub fn new() -> (state: Self)
        ensures
            state == (ExtractionState {
                geometry_generation: None,
                point_count: 0,
                segment_count: 0,
                material_revision: None,
                layer_revision: None,
            }),
    {
        ExtractionState {
            geometry_generation: None,
            point_count: 0,
            segment_count: 0,
            material_revision: None,
            layer_revision: None,
        }
    }

    /// Whether everything has to be copied again.
    pub open spec fn outdated(self, document: DocumentModel) -> bool {
        ||| self.geometry_generation != Some(document.geometry_generation)
        ||| self.point_count > document.points.len()
        ||| self.segment_count > document.segments.len()
    }

    /// Position of the first point to be copied.
    pub open spec fn first_point(self, document: DocumentModel) -> int {
        if self.outdated(document) { 0 } else { self.point_count as int }
    }

    /// Position of the first segment to be copied.
    pub open spec fn first_segment(self, document: DocumentModel) -> int {
        if self.outdated(document) { 0 } else { self.segment_count as int }
    }

    /// The state once everything was copied.
    pub open spec fn caught_up(document: DocumentModel, materials: RgbaModelState) -> Self {
        ExtractionState {
            geometry_generation: Some(document.geometry_generation),
            point_count: document.points.len() as usize,
            segment_count: document.segments.len() as usize,
            material_revision: Some(materials.revision),
            layer_revision: Some(document.layer_revision),
        }
    }
}

impl Default for ExtractionState {
    fn default() -> (state: Self)
        ensures
            state == (ExtractionState {
                geometry_generation: None,
                point_count: 0,
                segment_count: 0,
                material_revision: None,
                layer_revision: None,
            }),
    {
        ExtractionState::new()
    }
}

/// A layer that the live overlay can cover.
#[derive(Clone, Copy, Debug, PartialEq, Eq, Structural)]
pub struct OverlayLayer {
    /// The layer.
    pub layer: LayerId,
    /// Composite position.
    pub order: u32,
    /// Number of layers.
    pub layer_count: u32,
}

/// What changed in the document since the previous extraction.
#[derive(Debug)]
pub struct ExtractedStrokes {
    /// Whether points and segments replace what was copied before.
    pub reset: bool,
    /// Points to be copied.
    pub points: Vec<GpuStrokePoint>,
    /// Segments to be copied.
    pub segments: Vec<GpuStrokeSegment>,
    /// The material table, where it changed.
    pub materials: Option<Vec<Rgba>>,
    /// The layer table, where it changed.
    pub layers: Option<Vec<GpuCanvasLayer>>,
    /// Layers and segment ranges that the live overlay draws.
    pub overlay_ranges: Vec<(LayerId, SegmentRange)>,
    /// Whether points came in.
    pub has_new_points: bool,
    /// Layers that the live overlay can cover.
    pub overlay_layers: Vec<OverlayLayer>,
}

/// The record of an absent layer.
pub open spec fn no_layer() -> GpuCanvasLayer {
    GpuCanvasLayer { opacity: Scalar { bits: 0 }, visible: 0 }
}

/// The record of a layer.
pub open spec fn layer_record(layer: LayerModel) -> GpuCanvasLayer {
    GpuCanvasLayer { opacity: layer.opacity, visible: if layer.visible { 1 } else { 0 } }
}

/// Smallest table that has a place for every layer identity; at least one place.
pub open spec fn table_size(layers: Seq<LayerModel>) -> nat
    decreases layers.len(),
{
    if layers.len() == 0 {
        1
    } else {
        let before = table_size(layers.drop_last());
        let own = (layers.last().id.0 + 1) as nat;
        if before < own { own } else { before }
    }
}

/// The record at a place of the layer table: that of the last layer with the
/// identity, or none.
pub open spec fn table_entry(layers: Seq<LayerModel>, place: int) -> GpuCanvasLayer
    decreases layers.len(),
{
    if layers.len() == 0 {
        no_layer()
    } else if layers.last().id.0 == place {
        layer_record(layers.last())
    } else {
        table_entry(layers.drop_last(), place)
    }
}

/// Layer records by layer identity.
pub open spec fn layer_table(layers: Seq<LayerModel>) -> Seq<GpuCanvasLayer> {
    Seq::new(table_size(layers), |place: int| table_entry(layers, place))
}

/// The layers that the live overlay can cover, where there is any geometry.
pub open spec fn overlay_layers(document: DocumentModel) -> Seq<OverlayLayer> {
    if document.segments.len() == 0 {
        Seq::empty()
    } else {
        Seq::new(
            document.layers.len(),
            |i: int|
                OverlayLayer {
                    layer: document.layers[i].id,
                    order: i as u32,
                    layer_count: document.layers.len() as u32,
                },
        )
    }
}

/// Records of the points from a position on.
pub open spec fn points_from(points: Seq<StrokePoint>, first: int) -> Seq<GpuStrokePoint> {
    points.skip(first).map_values(|point: StrokePoint| GpuStrokePoint::packed(point))
}

/// Records of the segments from a position on.
pub open spec fn segments_from(segments: Seq<StrokeSegment>, first: int) -> Seq<
    GpuStrokeSegment,
> {
    segments.skip(first).map_values(|segment: StrokeSegment| GpuStrokeSegment::packed(segment))
}

fn pack_points(points: &Vec<StrokePoint>, first: usize) -> (packed: Vec<GpuStrokePoint>)
    requires
        first <= points@.len(),
    ensures
        packed@ == points_from(points@, first as int),
{
    let mut packed: Vec<GpuStrokePoint> = Vec::new();
    let ghost all = points_from(points@, first as int);
    for i in first..points.len()
        invariant
            first <= points@.len(),
            all == points_from(points@, first as int),
            packed@ == all.take(i - first),
    {
        packed.push(GpuStrokePoint::pack(points[i]));
        assert(packed@ =~= all.take(i + 1 - first));
    }
    assert(all.take(all.len() as int) =~= all);
    packed
}

fn pack_segments(segments: &Vec<StrokeSegment>, first: usize) -> (packed: Vec<GpuStrokeSegment>)
    requires
        first <= segments@.len(),
    ensures
        packed@ == segments_from(segments@, first as int),
{
    let mut packed: Vec<GpuStrokeSegment> = Vec::new();
    let ghost all = segments_from(segments@, first as int);
    for i in first..segments.len()
        invariant
            first <= segments@.len(),
            all == segments_from(segments@, first as int),
            packed@ == all.take(i - first),
    {
        packed.push(GpuStrokeSegment::pack(segments[i]));
        assert(packed@ =~= all.take(i + 1 - first));
    }
    assert(all.take(all.len() as int) =~= all);
    packed
}

fn pack_materials(materials: &Vec<RgbaMaterial>) -> (packed: Vec<Rgba>)
    ensures
        packed@ == materials@.map_values(
            |material: RgbaMaterial| material.premultiplied_linear_rgba,
        ),
{
    let mut packed: Vec<Rgba> = Vec::new();
    let ghost all = materials@.map_values(
        |material: RgbaMaterial| material.premultiplied_linear_rgba,
    );
    for i in 0..materials.len()
        invariant
            all == materials@.map_values(
                |material: RgbaMaterial| material.premultiplied_linear_rgba,
            ),
            packed@ == all.take(i as int),
    {
        packed.push(materials[i].premultiplied_linear_rgba);
        assert(packed@ =~= all.take(i + 1));
    }
    assert(all.take(all.len() as int) =~= all);
    packed
}

/// Every layer identity has a place in the table.
proof fn lemma_table_size(layers: Seq<LayerModel>, i: int)
    requires
        0 <= i < layers.len(),
    ensures
        layers[i].id.0 < table_size(layers),
    decreases layers.len(),
{
    if i < layers.len() - 1 {
        lemma_table_size(layers.drop_last(), i);
        assert(layers.drop_last()[i] == layers[i]);
    }
}

fn pack_layers(document: &StrokeDocument) -> (table: Vec<GpuCanvasLayer>)
    requires
        forall|i: int|
            0 <= i < document@.layers.len() ==> (#[trigger] document@.layers[i]).id.0 < usize::MAX,
    ensures
        table@ == layer_table(document@.layers),
{
    let layers = document.layers();
    let ghost models = document@.layers;
    let mut size: usize = 1;
    assert(models.take(0) =~= Seq::<LayerModel>::empty());
    for i in 0..layers.len()
        invariant
            models == document@.layers,
            layer_models(layers@) == models,
            forall|j: int|
                0 <= j < document@.layers.len() ==> (#[trigger] document@.layers[j]).id.0
                    < usize::MAX,
            size == table_size(models.take(i as int)),
    {
        assert(layer_models(layers@)[i as int] == layers@[i as int]@);
        assert(models.take(i + 1).drop_last() =~= models.take(i as int));
        let own: usize = layers[i].id.0 as usize + 1;
        if size < own {
            size = own;
        }
    }
    assert(models.take(models.len() as int) =~= models);
    let mut table: Vec<GpuCanvasLayer> = Vec::new();
    for n in 0..size
        invariant
            table@.len() == n,
            forall|j: int| 0 <= j < n ==> #[trigger] table@[j] == no_layer(),
    {
        table.push(GpuCanvasLayer { opacity: Scalar { bits: 0 }, visible: 0 });
    }
    for i in 0..layers.len()
        invariant
            models == document@.layers,
            layer_models(layers@) == models,
            size == table_size(models),
            table@.len() == size,
            forall|j: int|
                0 <= j < size ==> #[trigger] table@[j] == table_entry(models.take(i as int), j),
    {
        assert(layer_models(layers@)[i as int] == layers@[i as int]@);
        assert(models.take(i + 1).drop_last() =~= models.take(i as int));
        proof {
            lemma_table_size(models, i as int);
        }
        let place: usize = layers[i].id.0 as usize;
        table.set(
            place,
            GpuCanvasLayer {
                opacity: layers[i].opacity,
                visible: if layers[i].visible { 1 } else { 0 },
            },
        );
    }
    assert(models.take(models.len() as int) =~= models);
    assert(table@ =~= layer_table(models));
    table
}

fn list_overlay_layers(document: &StrokeDocument) -> (list: Vec<OverlayLayer>)
    ensures
        list@ == overlay_layers(document@),
{
    let mut list: Vec<OverlayLayer> = Vec::new();
    if document.segments().len() == 0 {
        return list;
    }
    let layers = document.layers();
    let ghost all = overlay_layers(document@);
    assert(layer_models(layers@).len() == layers@.len());
    let layer_count: u32 = layers.len() as u32;
    for i in 0..layers.len()
        invariant
            layer_models(layers@) == document@.layers,
            layers@.len() == document@.layers.len(),
            document@.segments.len() > 0,
            all == overlay_layers(document@),
            layer_count == document@.layers.len() as u32,
            list@ == all.take(i as int),
    {
        assert(layer_models(layers@)[i as int] == layers@[i as int]@);
        list.push(OverlayLayer { layer: layers[i].id, order: i as u32, layer_count });
        assert(list@ =~= all.take(i + 1));
    }
    assert(all.take(all.len() as int) =~= all);
    list
}

/// Copies what changed in the document since the previous extraction.
pub fn extract_strokes(
    state: &mut ExtractionState,
    document: &StrokeDocument,
    materials: &RgbaPaintModel,
) -> (extracted: ExtractedStrokes)
    requires
        document.well_formed(),
        forall|i: int|
            0 <= i < document@.layers.len() ==> (#[trigger] document@.layers[i]).id.0 < usize::MAX,
    ensures
        *final(state) == ExtractionState::caught_up(document@, materials@),
        extracted.reset == old(state).outdated(document@),
        extracted.points@ == points_from(
            document@.points,
            old(state).first_point(document@),
        ),
        extracted.segments@ == segments_from(
            document@.segments,
            old(state).first_segment(document@),
        ),
        match extracted.materials {
            None => old(state).material_revision == Some(materials@.revision),
            Some(table) => {
                &&& old(state).material_revision != Some(materials@.revision)
                &&& table@ == materials@.materials.map_values(
                    |material: RgbaMaterial| material.premultiplied_linear_rgba,
                )
            },
        },
        match extracted.layers {
            None => old(state).layer_revision == Some(document@.layer_revision),
            Some(table) => {
                &&& old(state).layer_revision != Some(document@.layer_revision)
                &&& table@ == layer_table(document@.layers)
            },
        },
        extracted.overlay_ranges@ == document@.overlay_ranges(),
        extracted.has_new_points == (extracted.reset || old(state).point_count
            < document@.points.len()),
        extracted.overlay_layers@ == overlay_layers(document@),
{
    let before = *state;
    let points = document.points();
    let segments = document.segments();
    let generation: u64 = document.geometry_generation();
    let same_generation = match before.geometry_generation {
        Some(known) => known == generation,
        None => false,
    };
    let reset = !same_generation || before.point_count > points.len() || before.segment_count
        > segments.len();
    let first_point: usize = if reset { 0 } else { before.point_count };
    let first_segment: usize = if reset { 0 } else { before.segment_count };
    let packed_points = pack_points(points, first_point);
    let packed_segments = pack_segments(segments, first_segment);
    let material_revision: u64 = materials.revision();
    let same_materials = match before.material_revision {
        Some(known) => known == material_revision,
        None => false,
    };
    let packed_materials = if same_materials {
        None
    } else {
        Some(pack_materials(materials.materials()))
    };
    let layer_revision: u64 = document.layer_revision();
    let same_layers = match before.layer_revision {
        Some(known) => known == layer_revision,
        None => false,
    };
    let packed_layers = if same_layers { None } else { Some(pack_layers(document)) };
    *state = ExtractionState {
        geometry_generation: Some(generation),
        point_count: points.len(),
        segment_count: segments.len(),
        material_revision: Some(material_revision),
        layer_revision: Some(layer_revision),
    };
    ExtractedStrokes {
        reset,
        points: packed_points,
        segments: packed_segments,
        materials: packed_materials,
        layers: packed_layers,
        overlay_ranges: document.overlay_layer_segment_ranges(),
        has_new_points: reset || first_point < points.len(),
        overlay_layers: list_overlay_layers(document),
    }
}

/// Extraction work is proportional to new input: while the geometry generation
/// stays and the document only grew, exactly the new points are copied.
pub proof fn law_extraction_copies_only_new_points(
    earlier: DocumentModel,
    later: DocumentModel,
    materials: RgbaModelState,
)
    requires
        earlier.points.len() <= later.points.len() <= usize::MAX,
        earlier.segments.len() <= later.segments.len() <= usize::MAX,
        earlier.geometry_generation == later.geometry_generation,
    ensures
        ({
            let state = ExtractionState::caught_up(earlier, materials);
            &&& !state.outdated(later)
            &&& points_from(later.points, state.first_point(later)).len() == later.points.len()
                - earlier.points.len()
            &&& segments_from(later.segments, state.first_segment(later)).len()
                == later.segments.len() - earlier.segments.len()
        }),
{
}

/// Consecutive displayed tiles of one layer.
#[derive(Clone, Copy, Debug, PartialEq, Eq, Structural)]
pub struct LayerRun {
    /// The layer.
    pub layer: LayerId,
    /// Position of the first tile.
    pub start: u32,
    /// Position behind the last tile.
    pub end: u32,
    /// Composite position of the layer.
    pub order: u32,
    /// Number of layers.
    pub layer_count: u32,
}

/// Tile work as the render device reads it.
#[derive(Debug)]
pub struct ExtractedTiles {
    /// Sequence number of the batch.
    pub serial: u64,
    /// Edge length of a tile.
    pub tile_size: u32,
    /// Tiles to be replayed.
    pub jobs: Vec<GpuTileJob>,
    /// Strokes of all replays.
    pub replay: Vec<GpuReplayStroke>,
    /// Segments of all strokes.
    pub segment_indices: Vec<u32>,
    /// Tiles on display.
    pub instances: Vec<GpuTileInstance>,
    /// Tiles and revisions that the replays complete.
    pub completions: Vec<(TileKey, u64)>,
    /// Tiles and revisions on display.
    pub presentations: Vec<(TileKey, u64)>,
    /// Number of slots that have to exist.
    pub required_slots: u32,
    /// Displayed tiles, layer by layer.
    pub runs: Vec<LayerRun>,
}

/// Segments of the first `count` strokes of a replay.
pub open spec fn replay_segments(replay: Seq<ReplayModel>, count: nat) -> Seq<u32>
    decreases count,
{
    if count == 0 {
        Seq::empty()
    } else {
        replay_segments(replay, (count - 1) as nat) + replay[count - 1].segment_indices
    }
}

/// Segments of the replays of the first `count` jobs.
pub open spec fn job_segments(jobs: Seq<JobModel>, count: nat) -> Seq<u32>
    decreases count,
{
    if count == 0 {
        Seq::empty()
    } else {
        job_segments(jobs, (count - 1) as nat) + replay_segments(
            jobs[count - 1].replay,
            jobs[count - 1].replay.len(),
        )
    }
}

/// The record of a stroke whose segments start at a position.
pub open spec fn stroke_record(stroke: ReplayModel, start: nat) -> GpuReplayStroke {
    GpuReplayStroke {
        segment_index_start: start as u32,
        segment_count: stroke.segment_indices.len() as u32,
        material: stroke.material.0,
        model_and_deposition: packed_mode(stroke.model, stroke.deposition),
    }
}

/// Records of the first `count` strokes of a replay whose segments start at a position.
pub open spec fn replay_records(replay: Seq<ReplayModel>, start: nat, count: nat) -> Seq<
    GpuReplayStroke,
>
    decreases count,
{
    if count == 0 {
        Seq::empty()
    } else {
        replay_records(replay, start, (count - 1) as nat).push(
            stroke_record(
                replay[count - 1],
                start + replay_segments(replay, (count - 1) as nat).len(),
            ),
        )
    }
}

/// Records of the strokes of the first `count` jobs.
pub open spec fn job_replays(jobs: Seq<JobModel>, count: nat) -> Seq<GpuReplayStroke>
    decreases count,
{
    if count == 0 {
        Seq::empty()
    } else {
        job_replays(jobs, (count - 1) as nat) + replay_records(
            jobs[count - 1].replay,
            job_segments(jobs, (count - 1) as nat).len(),
            jobs[count - 1].replay.len(),
        )
    }
}

/// The record of job `n` of a list.
pub open spec fn job_record(jobs: Seq<JobModel>, n: int, tile_size: u32) -> GpuTileJob {
    GpuTileJob {
        slot: jobs[n].slot,
        replay_start: job_replays(jobs, n as nat).len() as u32,
        replay_count: jobs[n].replay.len() as u32,
        tile_size: if tile_size == 0 { 1 } else { tile_size },
        origin_x: pixel_origin(jobs[n].key.x, tile_size),
        origin_y: pixel_origin(jobs[n].key.y, tile_size),
        padding_0: 0,
        padding_1: 0,
    }
}

/// Strokes of all jobs; a blank one stands in where there are jobs but no strokes.
pub open spec fn bound_replays(jobs: Seq<JobModel>) -> Seq<GpuReplayStroke> {
    let all = job_replays(jobs, jobs.len());
    if jobs.len() > 0 && all.len() == 0 {
        seq![
            GpuReplayStroke {
                segment_index_start: 0,
                segment_count: 0,
                material: 0,
                model_and_deposition: 0,
            },
        ]
    } else {
        all
    }
}

/// Segments of all jobs; a blank one stands in where there are jobs but no segments.
pub open spec fn bound_segments(jobs: Seq<JobModel>) -> Seq<u32> {
    let all = job_segments(jobs, jobs.len());
    if jobs.len() > 0 && all.len() == 0 {
        seq![0u32]
    } else {
        all
    }
}

/// Whether so many slots cover all jobs and displayed tiles, and no fewer do.
pub open spec fn slots_required(batch: BatchModel, count: u32) -> bool {
    &&& forall|i: int|
        0 <= i < batch.jobs.len() ==> (#[trigger] batch.jobs[i]).slot.saturating_add(1) <= count
    &&& forall|i: int|
        0 <= i < batch.display.len() ==> (#[trigger] batch.display[i]).slot.saturating_add(1)
            <= count
    &&& count > 0 ==> {
        ||| exists|i: int|
            0 <= i < batch.jobs.len() && (#[trigger] batch.jobs[i]).slot.saturating_add(1)
                == count
        ||| exists|i: int|
            0 <= i < batch.display.len() && (#[trigger] batch.display[i]).slot.saturating_add(1)
                == count
    }
}

/// Whether the first `count` displayed tiles are split into runs of one layer
/// each, in order and without gaps, neighbors on different layers.
pub open spec fn runs_split(
    runs: Seq<LayerRun>,
    display: Seq<TileDisplayInstance>,
    count: int,
) -> bool {
    &&& runs.len() == 0 <==> count == 0
    &&& runs.len() > 0 ==> runs[0].start == 0 && runs.last().end == count
    &&& forall|r: int| 0 <= r < runs.len() ==> run_uniform(#[trigger] runs[r], display)
    &&& forall|r: int|
        0 < r < runs.len() ==> (#[trigger] runs[r]).start == runs[r - 1].end && runs[r].layer
            != runs[r - 1].layer
}

/// Whether a run is not empty, lies within the display list, and takes its layer,
/// order and count from its first tile, whose layer all its tiles share.
pub open spec fn run_uniform(run: LayerRun, display: Seq<TileDisplayInstance>) -> bool {
    &&& run.start < run.end <= display.len()
    &&& run.layer == display[run.start as int].key.layer
    &&& run.order == display[run.start as int].layer_order
    &&& run.layer_count == display[run.start as int].layer_count
    &&& forall|i: int|
        run.start <= i < run.end ==> (#[trigger] display[i]).key.layer == run.layer
}

fn append_replay(
    job: &TileRasterJob,
    replay: &mut Vec<GpuReplayStroke>,
    segment_indices: &mut Vec<u32>,
)
    ensures
        final(segment_indices)@ == old(segment_indices)@ + replay_segments(
            job@.replay,
            job@.replay.len(),
        ),
        final(replay)@ == old(replay)@ + replay_records(
            job@.replay,
            old(segment_indices)@.len(),
            job@.replay.len(),
        ),
{
    let ghost strokes = job@.replay;
    let ghost first_segments = segment_indices@;
    let ghost first_replay = replay@;
    let ghost start = segment_indices@.len();
    assert(first_segments =~= first_segments + replay_segments(strokes, 0));
    assert(first_replay =~= first_replay + replay_records(strokes, start, 0));
    for s in 0..job.replay.len()
        invariant
            strokes == replay_models(job.replay@),
            start == first_segments.len(),
            segment_indices@ == first_segments + replay_segments(strokes, s as nat),
            replay@ == first_replay + replay_records(strokes, start, s as nat),
    {
        let stroke = &job.replay[s];
        assert(strokes[s as int] == stroke@);
        let begin: u32 = segment_indices.len() as u32;
        let ghost done = segment_indices@;
        for k in 0..stroke.segment_indices.len()
            invariant
                segment_indices@ == done + stroke.segment_indices@.take(k as int),
        {
            segment_indices.push(stroke.segment_indices[k]);
            assert(segment_indices@ =~= done + stroke.segment_indices@.take(k + 1));
        }
        let ghost own = stroke.segment_indices@;
        assert(own.take(own.len() as int) =~= own);
        assert(segment_indices@ =~= first_segments + replay_segments(strokes, (s + 1) as nat));
        replay.push(
            GpuReplayStroke {
                segment_index_start: begin,
                segment_count: stroke.segment_indices.len() as u32,
                material: stroke.material.0,
                model_and_deposition: pack_mode(stroke.model, stroke.deposition),
            },
        );
        assert(replay@ =~= first_replay + replay_records(strokes, start, (s + 1) as nat));
    }
    assert(strokes.len() == job.replay@.len());
}

fn split_runs(display: &Vec<TileDisplayInstance>) -> (runs: Vec<LayerRun>)
    requires
        display@.len() <= 0xffff_ffff,
    ensures
        runs_split(runs@, display@, display@.len() as int),
{
    let mut runs: Vec<LayerRun> = Vec::new();
    let mut start: usize = 0;
    while start < display.len()
        invariant
            start <= display@.len() <= 0xffff_ffff,
            runs_split(runs@, display@, start as int),
            runs@.len() > 0 && start < display@.len() ==> display@[start as int].key.layer
                != runs@.last().layer,
        decreases display@.len() - start,
    {
        let first = display[start];
        let mut end: usize = start + 1;
        while end < display.len() && display[end].key.layer == first.key.layer
            invariant
                start < end <= display@.len(),
                first == display@[start as int],
                forall|i: int|
                    start <= i < end ==> (#[trigger] display@[i]).key.layer == first.key.layer,
            decreases display@.len() - end,
        {
            end = end + 1;
        }
        let ghost before = runs@;
        let run = LayerRun {
            layer: first.key.layer,
            start: start as u32,
            end: end as u32,
            order: first.layer_order,
            layer_count: first.layer_count,
        };
        runs.push(run);
        proof {
            assert(run_uniform(run, display@));
            assert forall|r: int| 0 <= r < runs@.len() implies run_uniform(
                #[trigger] runs@[r],
                display@,
            ) by {
                if r < before.len() {
                    assert(runs@[r] == before[r]);
                }
            }
            assert forall|r: int| 0 < r < runs@.len() implies (#[trigger] runs@[r]).start
                == runs@[r - 1].end && runs@[r].layer != runs@[r - 1].layer by {
                if r < before.len() {
                    assert(runs@[r] == before[r]);
                    assert(runs@[r - 1] == before[r - 1]);
                } else {
                    assert(runs@[r - 1] == before.last());
                }
            }
            if before.len() > 0 {
                assert(runs@[0] == before[0]);
            }
        }
        start = end;
    }
    runs
}

/// Flattens a batch of tile work into the tables that the render device reads.
pub fn extract_tiles(batch: &TileWorkBatch) -> (extracted: ExtractedTiles)
    requires
        batch@.display.len() <= 0xffff_ffff,
    ensures
        extracted.serial == batch@.serial,
        extracted.tile_size == batch@.tile_size,
        extracted.jobs@ == Seq::new(
            batch@.jobs.len(),
            |n: int| job_record(batch@.jobs, n, batch@.tile_size),
        ),
        extracted.replay@ == bound_replays(batch@.jobs),
        extracted.segment_indices@ == bound_segments(batch@.jobs),
        extracted.instances@ == batch@.display.map_values(
            |instance: TileDisplayInstance| instance_record(instance, batch@.tile_size),
        ),
        extracted.completions@ == batch@.jobs.map_values(
            |job: JobModel| (job.key, job.revision),
        ),
        extracted.presentations@ == batch@.display.map_values(
            |instance: TileDisplayInstance| (instance.key, instance.revision),
        ),
        slots_required(batch@, extracted.required_slots),
        runs_split(extracted.runs@, batch@.display, batch@.display.len() as int),
{
    let ghost jobs = batch@.jobs;
    let ghost display = batch@.display;
    let tile_size: u32 = batch.tile_size;
    let mut records: Vec<GpuTileJob> = Vec::new();
    let mut replay: Vec<GpuReplayStroke> = Vec::new();
    let mut segment_indices: Vec<u32> = Vec::new();
    let mut completions: Vec<(TileKey, u64)> = Vec::new();
    let mut required_slots: u32 = 0;
    for n in 0..batch.jobs.len()
        invariant
            jobs == job_models(batch.jobs@),
            tile_size == batch.tile_size,
            records@.len() == n,
            forall|j: int| 0 <= j < n ==> #[trigger] records@[j] == job_record(jobs, j, tile_size),
            replay@ == job_replays(jobs, n as nat),
            segment_indices@ == job_segments(jobs, n as nat),
            completions@.len() == n,
            forall|j: int|
                0 <= j < n ==> #[trigger] completions@[j] == (jobs[j].key, jobs[j].revision),
            jobs_need(jobs, n as int, required_slots),
    {
        let job = &batch.jobs[n];
        assert(jobs[n as int] == job@);
        let replay_start: u32 = replay.len() as u32;
        append_replay(job, &mut replay, &mut segment_indices);
        records.push(gpu_job(job, replay_start, tile_size));
        completions.push((job.key, job.revision));
        let needed: u32 = job.slot.saturating_add(1);
        let ghost earlier = required_slots;
        if required_slots < needed {
            required_slots = needed;
        }
        proof {
            assert(jobs[n as int].slot.saturating_add(1) == needed);
            if required_slots == earlier && earlier > 0 {
                let i = choose|i: int|
                    0 <= i < n && (#[trigger] jobs[i]).slot.saturating_add(1) == earlier;
                assert(jobs[i].slot.saturating_add(1) == required_slots);
            }
        }
    }
    proof {
        assert(jobs.len() == batch.jobs@.len());
        assert(records@ =~= Seq::new(jobs.len(), |n: int| job_record(jobs, n, tile_size)));
        assert(completions@ =~= jobs.map_values(|job: JobModel| (job.key, job.revision)));
    }
    if batch.jobs.len() > 0 && replay.len() == 0 {
        replay.push(
            GpuReplayStroke {
                segment_index_start: 0,
                segment_count: 0,
                material: 0,
                model_and_deposition: 0,
            },
        );
    }
    if batch.jobs.len() > 0 && segment_indices.len() == 0 {
        segment_indices.push(0);
    }
    assert(replay@ =~= bound_replays(jobs));
    assert(segment_indices@ =~= bound_segments(jobs));
    let mut instances: Vec<GpuTileInstance> = Vec::new();
    let mut presentations: Vec<(TileKey, u64)> = Vec::new();
    for n in 0..batch.display.len()
        invariant
            display == batch.display@,
            tile_size == batch.tile_size,
            instances@.len() == n,
            forall|j: int|
                0 <= j < n ==> #[trigger] instances@[j] == instance_record(display[j], tile_size),
            presentations@.len() == n,
            forall|j: int|
                0 <= j < n ==> #[trigger] presentations@[j] == (
                    display[j].key,
                    display[j].revision,
                ),
            display_needs(jobs, display, n as int, required_slots),
    {
        let instance = batch.display[n];
        instances.push(gpu_instance(instance, tile_size));
        presentations.push((instance.key, instance.revision));
        let needed: u32 = instance.slot.saturating_add(1);
        let ghost earlier = required_slots;
        if required_slots < needed {
            required_slots = needed;
        }
        proof {
            assert(display[n as int].slot.saturating_add(1) == needed);
        }
    }
    proof {
        assert(instances@ =~= display.map_values(
            |instance: TileDisplayInstance| instance_record(instance, tile_size),
        ));
        assert(presentations@ =~= display.map_values(
            |instance: TileDisplayInstance| (instance.key, instance.revision),
        ));
    }
    let runs = split_runs(&batch.display);
    ExtractedTiles {
        serial: batch.serial,
        tile_size,
        jobs: records,
        replay,
        segment_indices,
        instances,
        completions,
        presentations,
        required_slots,
        runs,
    }
}

/// Whether so many slots cover the first jobs, and no fewer do.
spec fn jobs_need(jobs: Seq<JobModel>, count: int, slots: u32) -> bool {
    &&& forall|i: int|
        0 <= i < count ==> (#[trigger] jobs[i]).slot.saturating_add(1) <= slots
    &&& slots > 0 ==> exists|i: int|
        0 <= i < count && (#[trigger] jobs[i]).slot.saturating_add(1) == slots
}

/// Whether so many slots cover all jobs and the first displayed tiles, and no fewer do.
spec fn display_needs(
    jobs: Seq<JobModel>,
    display: Seq<TileDisplayInstance>,
    count: int,
    slots: u32,
) -> bool {
    &&& forall|i: int|
        0 <= i < jobs.len() ==> (#[trigger] jobs[i]).slot.saturating_add(1) <= slots
    &&& forall|i: int|
        0 <= i < count ==> (#[trigger] display[i]).slot.saturating_add(1) <= slots
    &&& slots > 0 ==> {
        ||| exists|i: int|
            0 <= i < jobs.len() && (#[trigger] jobs[i]).slot.saturating_add(1) == slots
        ||| exists|i: int|
            0 <= i < count && (#[trigger] display[i]).slot.saturating_add(1) == slots
    }
}

} // verus!
