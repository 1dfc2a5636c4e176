//! What the render device reads from the records it is given.
use crate::cache::{JobModel, ReplayModel, TileDisplayInstance};
use crate::extraction::{
    extract_tiles, job_replays, job_segments, layer_table, overlay_layers, points_from,
    replay_records, replay_segments, segments_from, table_entry, table_size, ExtractedTiles,
    ExtractionState,
};
use crate::gpu::{
    gpu_instance, gpu_job, pack_mode, GpuReplayStroke, GpuStrokePoint, GpuStrokeSegment,
    GpuTileInstance, GpuTileJob,
};
use crate::layers::distinct_layers;
use crate::paint::{DepositionMode, PaintModelId};
use crate::rgba::RgbaModelState;
use crate::state::DocumentModel;
use crate::strokes::{LayerModel, StrokePoint, StrokeSegment};
use crate::tiles::{TileRasterJob, TileWorkBatch};
use vstd::prelude::*;

verus! {

/// Pixel at which the device draws a tile of a column or row.
pub open spec fn drawn_at(place: i32, edge: u32) -> int {
    place * edge
}

/// Whether a pixel coordinate can be written down in 32 bits.
pub open spec fn in_pixels(pixel: int) -> bool {
    i32::MIN <= pixel <= i32::MAX
}

/// A displayed tile appears where it was rasterized: the column and row that the device
/// multiplies by the edge of a tile lead to the pixel at which the job of the same tile
/// draws, as long as that fits 32 bits. Both speak of the same slot.
pub proof fn law_tiles_appear_where_they_were_rasterized(
    instance: TileDisplayInstance,
    job: &TileRasterJob,
    start: u32,
    tile_size: u32,
    shown: GpuTileInstance,
    drawn: GpuTileJob,
)
    requires
        call_ensures(gpu_instance, (instance, tile_size), shown),
        call_ensures(gpu_job, (job, start, tile_size), drawn),
        instance.key == job.key,
        instance.slot == job.slot,
    ensures
        shown.slot == drawn.slot,
        shown.tile_size == drawn.tile_size,
        shown.tile_size > 0,
        tile_size > 0 ==> shown.tile_size == tile_size,
        in_pixels(drawn_at(instance.key.x, shown.tile_size)) ==> drawn.origin_x == drawn_at(
            shown.tile_x,
            shown.tile_size,
        ),
        in_pixels(drawn_at(instance.key.y, shown.tile_size)) ==> drawn.origin_y == drawn_at(
            shown.tile_y,
            shown.tile_size,
        ),
        shown.tile_x == instance.key.x,
        shown.tile_y == instance.key.y,
        shown.opacity == instance.opacity,
        drawn.replay_start == start,
        drawn.replay_count == job.replay@.len() as u32,
{
}

/// Tiles of one size lie side by side: each begins where the one before it ends.
pub proof fn law_tiles_lie_side_by_side(
    one: &TileRasterJob,
    next: &TileRasterJob,
    tile_size: u32,
    first: GpuTileJob,
    second: GpuTileJob,
)
    requires
        call_ensures(gpu_job, (one, 0, tile_size), first),
        call_ensures(gpu_job, (next, 0, tile_size), second),
        tile_size > 0,
        in_pixels(drawn_at(one.key.x, tile_size)),
        in_pixels(drawn_at(next.key.x, tile_size)),
        in_pixels(drawn_at(one.key.y, tile_size)),
        in_pixels(drawn_at(next.key.y, tile_size)),
    ensures
        next.key.x == one.key.x + 1 ==> second.origin_x == first.origin_x + first.tile_size,
        next.key.y == one.key.y + 1 ==> second.origin_y == first.origin_y + first.tile_size,
        next.key.x == one.key.x ==> second.origin_x == first.origin_x,
        next.key.y == one.key.y ==> second.origin_y == first.origin_y,
        one.key.x == 0 ==> first.origin_x == 0,
        one.key.y == 0 ==> first.origin_y == 0,
{
    assert((one.key.x + 1) * tile_size == one.key.x * tile_size + tile_size) by (nonlinear_arith);
    assert((one.key.y + 1) * tile_size == one.key.y * tile_size + tile_size) by (nonlinear_arith);
    assert(0 * tile_size == 0) by (nonlinear_arith);
}

/// Whether a packed word says that material is removed.
pub open spec fn says_erase(word: u32) -> bool {
    word >= 0x8000_0000
}

/// Model number that a packed word carries.
pub open spec fn says_model(word: u32) -> int {
    word as int % 0x8000_0000
}

/// The device finds the deposition mode in the highest bit of a packed word, and the model
/// in the bits below it.
pub proof fn law_packed_modes_are_read_back(
    model: PaintModelId,
    deposition: DepositionMode,
    word: u32,
)
    requires
        call_ensures(pack_mode, (model, deposition), word),
    ensures
        says_erase(word) == (deposition == DepositionMode::Erase),
        model.0 < 0x8000_0000 ==> says_model(word) == model.0,
{
}

/// Every channel of a sample reaches the device.
pub proof fn law_samples_reach_the_device(point: StrokePoint, record: GpuStrokePoint)
    requires
        call_ensures(GpuStrokePoint::pack, (point,), record),
    ensures
        record.position.x == point.position.x,
        record.position.y == point.position.y,
        record.half_width == point.half_width,
        record.aspect_ratio == point.aspect_ratio,
        record.flow == point.flow,
        record.orientation.x == point.orientation.x,
        record.orientation.y == point.orientation.y,
        record.twist_radians == point.twist_radians,
{
}

/// A segment reaches the device with its points, in order, its layer, and how and with
/// what it is deposited.
pub proof fn law_segments_reach_the_device(segment: StrokeSegment, record: GpuStrokeSegment)
    requires
        call_ensures(GpuStrokeSegment::pack, (segment,), record),
    ensures
        record.start == segment.start,
        record.end == segment.end,
        record.layer == segment.layer.0,
        record.material == segment.material.0,
        says_erase(record.model_and_deposition) == (segment.deposition == DepositionMode::Erase),
        segment.model.0 < 0x8000_0000 ==> says_model(record.model_and_deposition)
            == segment.model.0,
{
}

/// What the device holds of a document grows to what the document holds: records of the
/// points and segments up to some number, followed by those extracted from there on, are
/// the records of all, in order.
pub proof fn law_extraction_completes_the_copy(
    document: DocumentModel,
    points: int,
    segments: int,
)
    requires
        0 <= points <= document.points.len(),
        0 <= segments <= document.segments.len(),
    ensures
        ({
            let held = points_from(document.points.take(points), 0);
            let all = held + points_from(document.points, points);
            &&& all.len() == document.points.len()
            &&& forall|i: int|
                0 <= i < all.len() ==> (#[trigger] all[i]).position == document.points[i].position
                    && all[i].half_width == document.points[i].half_width && all[i].flow
                    == document.points[i].flow
        }),
        ({
            let held = segments_from(document.segments.take(segments), 0);
            let all = held + segments_from(document.segments, segments);
            &&& all.len() == document.segments.len()
            &&& forall|s: int|
                0 <= s < all.len() ==> (#[trigger] all[s]).start == document.segments[s].start
                    && all[s].end == document.segments[s].end && all[s].layer
                    == document.segments[s].layer.0
        }),
{
    let held = document.points.take(points);
    assert(held.skip(0) =~= held);
    let drawn = document.segments.take(segments);
    assert(drawn.skip(0) =~= drawn);
}

/// The device finds each layer at its number in the table of layers, and nothing that is
/// shown at the other numbers.
pub proof fn law_layers_are_found_by_number(layers: Seq<LayerModel>)
    requires
        distinct_layers(layers),
    ensures
        forall|i: int|
            0 <= i < layers.len() ==> {
                let id = (#[trigger] layers[i]).id.0 as int;
                &&& id < layer_table(layers).len()
                &&& layer_table(layers)[id].opacity == layers[i].opacity
                &&& (layer_table(layers)[id].visible != 0) == layers[i].visible
            },
        forall|place: int|
            0 <= place < layer_table(layers).len() && (forall|i: int|
                0 <= i < layers.len() ==> (#[trigger] layers[i]).id.0 != place) ==> (
            #[trigger] layer_table(layers)[place]).visible == 0,
{
    assert forall|i: int| 0 <= i < layers.len() implies {
        let id = (#[trigger] layers[i]).id.0 as int;
        &&& id < layer_table(layers).len()
        &&& layer_table(layers)[id].opacity == layers[i].opacity
        &&& (layer_table(layers)[id].visible != 0) == layers[i].visible
    } by {
        lemma_layer_in_table(layers, i);
    }
    assert forall|place: int|
        0 <= place < layer_table(layers).len() && (forall|i: int|
            0 <= i < layers.len() ==> (#[trigger] layers[i]).id.0 != place) implies (
    #[trigger] layer_table(layers)[place]).visible == 0 by {
        lemma_no_layer_in_table(layers, place);
    }
}

proof fn lemma_layer_in_table(layers: Seq<LayerModel>, i: int)
    requires
        distinct_layers(layers),
        0 <= i < layers.len(),
    ensures
        layers[i].id.0 < table_size(layers),
        table_entry(layers, layers[i].id.0 as int).opacity == layers[i].opacity,
        (table_entry(layers, layers[i].id.0 as int).visible != 0) == layers[i].visible,
    decreases layers.len(),
{
    if i < layers.len() - 1 {
        assert(layers[i].id != layers[layers.len() - 1].id);
        assert(distinct_layers(layers.drop_last())) by {
            assert forall|a: int, b: int| 0 <= a < b < layers.len() - 1 implies (
            #[trigger] layers.drop_last()[a]).id != (#[trigger] layers.drop_last()[b]).id by {
                assert(layers[a].id != layers[b].id);
            }
        }
        lemma_layer_in_table(layers.drop_last(), i);
    }
}

proof fn lemma_no_layer_in_table(layers: Seq<LayerModel>, place: int)
    requires
        forall|i: int| 0 <= i < layers.len() ==> (#[trigger] layers[i]).id.0 != place,
    ensures
        table_entry(layers, place).visible == 0,
    decreases layers.len(),
{
    if layers.len() > 0 {
        assert(layers[layers.len() - 1].id.0 != place);
        assert forall|i: int| 0 <= i < layers.drop_last().len() implies (
        #[trigger] layers.drop_last()[i]).id.0 != place by {
            assert(layers[i].id.0 != place);
        }
        lemma_no_layer_in_table(layers.drop_last(), place);
    }
}

/// The overlay composites the layers of a document from the bottom to the top.
pub proof fn law_overlay_layers_follow_the_document(document: DocumentModel)
    requires
        document.layers.len() <= u32::MAX,
    ensures
        document.segments.len() > 0 ==> overlay_layers(document).len() == document.layers.len(),
        forall|i: int|
            0 <= i < overlay_layers(document).len() ==> {
                let shown = #[trigger] overlay_layers(document)[i];
                &&& shown.layer_count == document.layers.len()
                &&& shown.order < shown.layer_count
                &&& document.layers[shown.order as int].id == shown.layer
                &&& shown.order == i
            },
{
}

/// What the device reads as the strokes of a job: the records from its first on.
pub open spec fn strokes_read(
    job: GpuTileJob,
    replay: Seq<GpuReplayStroke>,
    k: int,
) -> GpuReplayStroke {
    replay[job.replay_start + k]
}

/// What the device reads as the segments of a stroke.
pub open spec fn segments_read(stroke: GpuReplayStroke, indices: Seq<u32>) -> Seq<u32> {
    indices.subrange(
        stroke.segment_index_start as int,
        stroke.segment_index_start + stroke.segment_count,
    )
}

/// Whether a record that the device reads says what the replay of a stroke says.
pub open spec fn reads_as(
    record: GpuReplayStroke,
    indices: Seq<u32>,
    stroke: ReplayModel,
) -> bool {
    &&& segments_read(record, indices) == stroke.segment_indices
    &&& record.material == stroke.material.0
    &&& says_erase(record.model_and_deposition) == (stroke.deposition == DepositionMode::Erase)
    &&& stroke.model.0 < 0x8000_0000 ==> says_model(record.model_and_deposition)
        == stroke.model.0
}

/// Records of replays, and where the segments of each lie.
proof fn lemma_replay_read(replay: Seq<ReplayModel>, start: nat, count: nat, k: int)
    requires
        0 <= k < count <= replay.len(),
        start + replay_segments(replay, count).len() <= u32::MAX,
    ensures
        replay_records(replay, start, count).len() == count,
        replay_segments(replay, k as nat).len() + replay[k].segment_indices.len()
            <= replay_segments(replay, count).len(),
        replay_records(replay, start, count)[k].segment_index_start == start + replay_segments(
            replay,
            k as nat,
        ).len(),
        replay_records(replay, start, count)[k].segment_count
            == replay[k].segment_indices.len(),
        replay_records(replay, start, count)[k].material == replay[k].material.0,
        says_erase(replay_records(replay, start, count)[k].model_and_deposition) == (
        replay[k].deposition == DepositionMode::Erase),
        replay[k].model.0 < 0x8000_0000 ==> says_model(
            replay_records(replay, start, count)[k].model_and_deposition,
        ) == replay[k].model.0,
        replay_segments(replay, count).subrange(
            replay_segments(replay, k as nat).len() as int,
            (replay_segments(replay, k as nat).len() + replay[k].segment_indices.len()) as int,
        ) == replay[k].segment_indices,
    decreases count,
{
    let before = replay_segments(replay, (count - 1) as nat);
    let all = replay_segments(replay, count);
    assert(all == before + replay[count - 1].segment_indices);
    lemma_record_count(replay, start, (count - 1) as nat);
    if k < count - 1 {
        lemma_replay_read(replay, start, (count - 1) as nat, k);
        let from = replay_segments(replay, k as nat).len() as int;
        assert(all.subrange(from, from + replay[k].segment_indices.len()) =~= before.subrange(
            from,
            from + replay[k].segment_indices.len(),
        ));
    } else {
        assert(all.subrange(before.len() as int, all.len() as int)
            =~= replay[count - 1].segment_indices);
    }
}

proof fn lemma_record_count(replay: Seq<ReplayModel>, start: nat, count: nat)
    requires
        count <= replay.len(),
    ensures
        replay_records(replay, start, count).len() == count,
    decreases count,
{
    if count > 0 {
        lemma_record_count(replay, start, (count - 1) as nat);
    }
}

/// Records and segments of a job among those of the first `count`.
proof fn lemma_jobs_read(jobs: Seq<JobModel>, count: nat, n: int, k: int)
    requires
        0 <= n < count <= jobs.len(),
        0 <= k < jobs[n].replay.len(),
        job_segments(jobs, count).len() <= u32::MAX,
    ensures
        job_replays(jobs, n as nat).len() + k < job_replays(jobs, count).len(),
        reads_as(
            job_replays(jobs, count)[job_replays(jobs, n as nat).len() + k],
            job_segments(jobs, count),
            jobs[n].replay[k],
        ),
    decreases count,
{
    let last = jobs[count - 1].replay;
    let before = job_segments(jobs, (count - 1) as nat);
    let all = job_segments(jobs, count);
    let records = job_replays(jobs, (count - 1) as nat);
    lemma_record_count(last, before.len(), last.len());
    assert(all == before + replay_segments(last, last.len()));
    if n < count - 1 {
        lemma_jobs_read(jobs, (count - 1) as nat, n, k);
        let record = records[job_replays(jobs, n as nat).len() + k];
        assert(job_replays(jobs, count)[job_replays(jobs, n as nat).len() + k] == record);
        lemma_read_in_range(jobs, (count - 1) as nat, n, k);
        assert(segments_read(record, all) =~= segments_read(record, before));
    } else {
        lemma_replay_read(last, before.len(), last.len(), k);
        let own = replay_records(last, before.len(), last.len());
        let record = own[k];
        assert(job_replays(jobs, count)[records.len() + k] == record);
        let from = replay_segments(last, k as nat).len() as int;
        assert(segments_read(record, all) =~= replay_segments(last, last.len()).subrange(
            from,
            from + last[k].segment_indices.len(),
        ));
    }
}

/// The segments of a record lie within those of its jobs.
proof fn lemma_read_in_range(jobs: Seq<JobModel>, count: nat, n: int, k: int)
    requires
        0 <= n < count <= jobs.len(),
        0 <= k < jobs[n].replay.len(),
        job_segments(jobs, count).len() <= u32::MAX,
    ensures
        ({
            let at = job_replays(jobs, n as nat).len() + k;
            let record = job_replays(jobs, count)[at];
            &&& at < job_replays(jobs, count).len()
            &&& record.segment_index_start + record.segment_count <= job_segments(
                jobs,
                count,
            ).len()
        }),
    decreases count,
{
    let last = jobs[count - 1].replay;
    let before = job_segments(jobs, (count - 1) as nat);
    lemma_record_count(last, before.len(), last.len());
    if n < count - 1 {
        lemma_read_in_range(jobs, (count - 1) as nat, n, k);
    } else {
        lemma_replay_read(last, before.len(), last.len(), k);
    }
}

/// The device reads from a batch what the batch asks for: under each job the strokes of the
/// tile in order, each with its segments, its material, its model and its mode; under each
/// shown tile its place, slot and opacity. Tiles are reported with the revision of their
/// job or of what is shown.
pub proof fn law_batches_are_read_back(batch: &TileWorkBatch, extracted: ExtractedTiles)
    requires
        call_ensures(extract_tiles, (batch,), extracted),
        job_segments(batch@.jobs, batch@.jobs.len()).len() <= u32::MAX,
        job_replays(batch@.jobs, batch@.jobs.len()).len() <= u32::MAX,
    ensures
        extracted.serial == batch@.serial,
        extracted.jobs@.len() == batch@.jobs.len(),
        forall|n: int|
            0 <= n < batch@.jobs.len() ==> {
                let job = #[trigger] extracted.jobs@[n];
                &&& job.slot == batch@.jobs[n].slot
                &&& job.replay_count == batch@.jobs[n].replay.len()
                &&& batch@.tile_size > 0 ==> job.tile_size == batch@.tile_size
                &&& in_pixels(drawn_at(batch@.jobs[n].key.x, job.tile_size)) ==> job.origin_x
                    == drawn_at(batch@.jobs[n].key.x, job.tile_size)
                &&& in_pixels(drawn_at(batch@.jobs[n].key.y, job.tile_size)) ==> job.origin_y
                    == drawn_at(batch@.jobs[n].key.y, job.tile_size)
            },
        forall|n: int, k: int|
            0 <= n < batch@.jobs.len() && 0 <= k < batch@.jobs[n].replay.len() ==> reads_as(
                strokes_read(extracted.jobs@[n], extracted.replay@, k),
                extracted.segment_indices@,
                #[trigger] batch@.jobs[n].replay[k],
            ),
        extracted.completions@.len() == batch@.jobs.len(),
        forall|n: int|
            0 <= n < batch@.jobs.len() ==> (#[trigger] extracted.completions@[n]).0
                == batch@.jobs[n].key && extracted.completions@[n].1 == batch@.jobs[n].revision,
        extracted.instances@.len() == batch@.display.len(),
        forall|i: int|
            0 <= i < batch@.display.len() ==> {
                let shown = #[trigger] extracted.instances@[i];
                &&& shown.slot == batch@.display[i].slot
                &&& shown.tile_x == batch@.display[i].key.x
                &&& shown.tile_y == batch@.display[i].key.y
                &&& shown.opacity == batch@.display[i].opacity
                &&& batch@.tile_size > 0 ==> shown.tile_size == batch@.tile_size
            },
        extracted.presentations@.len() == batch@.display.len(),
        forall|i: int|
            0 <= i < batch@.display.len() ==> (#[trigger] extracted.presentations@[i]).0
                == batch@.display[i].key && extracted.presentations@[i].1
                == batch@.display[i].revision,
        forall|n: int|
            0 <= n < batch@.jobs.len() && batch@.jobs[n].slot < u32::MAX ==> (
            #[trigger] batch@.jobs[n]).slot < extracted.required_slots,
        forall|i: int|
            0 <= i < batch@.display.len() && batch@.display[i].slot < u32::MAX ==> (
            #[trigger] batch@.display[i]).slot < extracted.required_slots,
{
    let jobs = batch@.jobs;
    assert forall|n: int| 0 <= n < jobs.len() implies #[trigger] job_replays(jobs, n as nat).len()
        <= job_replays(jobs, jobs.len()).len() by {
        lemma_replays_grow(jobs, n as nat, jobs.len());
    }
    assert forall|n: int| 0 <= n < jobs.len() implies (#[trigger] jobs[n]).replay.len()
        <= u32::MAX by {
        lemma_replays_grow(jobs, (n + 1) as nat, jobs.len());
        lemma_record_count(
            jobs[n].replay,
            job_segments(jobs, n as nat).len(),
            jobs[n].replay.len(),
        );
    }
    assert forall|n: int, k: int|
        0 <= n < jobs.len() && 0 <= k < jobs[n].replay.len() implies reads_as(
        strokes_read(extracted.jobs@[n], extracted.replay@, k),
        extracted.segment_indices@,
        #[trigger] jobs[n].replay[k],
    ) by {
        lemma_jobs_read(jobs, jobs.len(), n, k);
        lemma_read_in_range(jobs, jobs.len(), n, k);
        lemma_replays_grow(jobs, n as nat, jobs.len());
        let record = strokes_read(extracted.jobs@[n], extracted.replay@, k);
        let all = job_segments(jobs, jobs.len());
        if all.len() == 0 {
            assert(segments_read(record, extracted.segment_indices@) =~= segments_read(
                record,
                all,
            ));
        }
    }
}

proof fn lemma_replays_grow(jobs: Seq<JobModel>, few: nat, many: nat)
    requires
        few <= many <= jobs.len(),
    ensures
        job_replays(jobs, few).len() <= job_replays(jobs, many).len(),
    decreases many,
{
    if few < many {
        lemma_replays_grow(jobs, few, (many - 1) as nat);
    }
}

/// The device holds all of a document after each extraction: what it holds of the document as
/// it was, and what is extracted of it as it is, are all points and segments in their order.
/// Where the geometry was replaced, it begins anew with everything.
pub proof fn law_the_device_holds_the_whole_document(
    earlier: DocumentModel,
    later: DocumentModel,
    materials: RgbaModelState,
)
    requires
        earlier.points.len() <= usize::MAX,
        earlier.segments.len() <= usize::MAX,
        earlier.geometry_generation == later.geometry_generation ==> {
            &&& earlier.points.is_prefix_of(later.points)
            &&& earlier.segments.is_prefix_of(later.segments)
        },
    ensures
        ({
            let state = ExtractionState::caught_up(earlier, materials);
            let kept = !state.outdated(later);
            let points = if kept { points_from(earlier.points, 0) } else { Seq::empty() };
            let segments = if kept { segments_from(earlier.segments, 0) } else { Seq::empty() };
            &&& kept <==> earlier.geometry_generation == later.geometry_generation
            &&& (points + points_from(later.points, state.first_point(later))).len()
                == later.points.len()
            &&& points + points_from(later.points, state.first_point(later)) == points_from(
                later.points,
                0,
            )
            &&& (segments + segments_from(later.segments, state.first_segment(later))).len()
                == later.segments.len()
            &&& segments + segments_from(later.segments, state.first_segment(later))
                == segments_from(later.segments, 0)
            &&& state.material_revision == Some(materials.revision)
            &&& state.layer_revision == Some(earlier.layer_revision)
        }),
{
    let state = ExtractionState::caught_up(earlier, materials);
    assert(later.points.skip(0) =~= later.points);
    assert(later.segments.skip(0) =~= later.segments);
    assert(earlier.points.skip(0) =~= earlier.points);
    assert(earlier.segments.skip(0) =~= earlier.segments);
    if !state.outdated(later) {
        let (p, s) = (earlier.points.len() as int, earlier.segments.len() as int);
        assert(later.points.take(p) == earlier.points);
        assert(later.segments.take(s) == earlier.segments);
        assert forall|i: int| 0 <= i < p implies later.points[i] == earlier.points[i] by {
            assert(later.points.take(p)[i] == later.points[i]);
        }
        assert forall|i: int| 0 <= i < s implies later.segments[i] == earlier.segments[i] by {
            assert(later.segments.take(s)[i] == later.segments[i]);
        }
        assert(points_from(earlier.points, 0) + points_from(later.points, p) =~= points_from(
            later.points,
            0,
        ));
        assert(segments_from(earlier.segments, 0) + segments_from(later.segments, s)
            =~= segments_from(later.segments, 0));
    } else {
        assert(Seq::<GpuStrokePoint>::empty() + points_from(later.points, 0) =~= points_from(
            later.points,
            0,
        ));
        assert(Seq::<GpuStrokeSegment>::empty() + segments_from(later.segments, 0)
            =~= segments_from(later.segments, 0));
    }
}

/// A device that holds nothing gets everything.
pub proof fn law_new_devices_get_everything(state: ExtractionState, document: DocumentModel)
    requires
        call_ensures(ExtractionState::new, (), state),
    ensures
        state.outdated(document),
        state.first_point(document) == 0,
        state.first_segment(document) == 0,
        state.material_revision is None,
        state.layer_revision is None,
{
}

/// The table of layers ends with the layer of the highest number.
pub proof fn law_layer_tables_end_with_the_highest_number(layers: Seq<LayerModel>)
    requires
        layers.len() > 0,
    ensures
        exists|n: int|
            0 <= n < layers.len() && (#[trigger] layers[n]).id.0 + 1 == layer_table(layers).len(),
        forall|n: int|
            0 <= n < layers.len() ==> (#[trigger] layers[n]).id.0 < layer_table(layers).len(),
{
    lemma_table_size(layers);
}

proof fn lemma_table_size(layers: Seq<LayerModel>)
    requires
        layers.len() > 0,
    ensures
        exists|n: int|
            0 <= n < layers.len() && (#[trigger] layers[n]).id.0 + 1 == table_size(layers),
        forall|n: int| 0 <= n < layers.len() ==> (#[trigger] layers[n]).id.0 < table_size(layers),
    decreases layers.len(),
{
    let front = layers.drop_last();
    let last = layers.len() - 1;
    reveal_with_fuel(table_size, 2);
    if front.len() > 0 {
        lemma_table_size(front);
        assert forall|n: int| 0 <= n < layers.len() implies (#[trigger] layers[n]).id.0
            < table_size(layers) by {
            if n < last {
                assert(front[n] == layers[n]);
            }
        }
        if table_size(layers) == table_size(front) {
            let n = choose|n: int|
                0 <= n < front.len() && (#[trigger] front[n]).id.0 + 1 == table_size(front);
            assert(layers[n].id.0 + 1 == table_size(layers));
        } else {
            assert(layers[last].id.0 + 1 == table_size(layers));
        }
    } else {
        assert(front =~= Seq::empty());
        assert(layers[last].id.0 + 1 == table_size(layers));
    }
}

} // verus!
