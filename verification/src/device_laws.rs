//! What reaches the render device: buffers, tile memory, masks and the order of drawing.
use crate::cache::TileRenderFeedback;
use crate::device::{
    capacity_report, completion_reports, presentation_reports, retry_reports, slot_limit,
    workgroups_for, TileDemand, TileDeviceState, TileDispatch, TilePreparation,
};
use crate::extraction::{LayerRun, OverlayLayer};
use crate::geometry::{LayerId, TileKey};
use crate::gpu::{GpuCanvasLayer, GpuStrokeSegment};
use crate::overlay::{
    active_layer_slot, distinct_first_layers, exceeds, extent_to_create, holds_layer,
    is_capacity, last_warning, plan_live_masks, LiveMaskPlan, MaskExtent,
};
use crate::presentation::{queue_overlay, queue_tiles, OverlayQueue, TileQueue};
use crate::strokes::SegmentRange;
use crate::upload::{
    is_power_of_two, plan_append, plan_replace, round_up, rounds_up_to, BufferPlan,
    StrokeBufferStatus, TileBindingStatus, Upload,
};
use vstd::arithmetic::power2::pow2;
use vstd::prelude::*;

verus! {

/// Rounding up gives the smallest power of two that is not below the number, and one for
/// none.
pub proof fn law_rounding_up_gives_a_power_of_two(number: u64, power: u64)
    requires
        number <= 0x8000_0000_0000_0000,
        call_ensures(round_up, (number,), power),
    ensures
        exists|exponent: nat| power == #[trigger] pow2(exponent),
        number <= power,
        number > 1 ==> power < 2 * number,
        number <= 1 ==> power == 1,
{
    lemma_powers(power as nat);
    if number <= 1 && power != 1 {
        assert(power < 2 * number);
    }
}

proof fn lemma_powers(power: nat)
    requires
        is_power_of_two(power),
    ensures
        exists|exponent: nat| power == #[trigger] pow2(exponent),
    decreases power,
{
    if power == 1 {
        vstd::arithmetic::power2::lemma2_to64();
        assert(pow2(0) == 1);
    } else {
        lemma_powers(power / 2);
        let exponent = choose|exponent: nat| power / 2 == #[trigger] pow2(exponent);
        vstd::arithmetic::power2::lemma_pow2_unfold(exponent + 1);
        assert(power == pow2(exponent + 1));
    }
}

/// The room of a buffer after a plan was carried out.
pub open spec fn room_after(plan: BufferPlan, capacity: u64) -> u64 {
    match plan.reserve {
        Some(room) => room,
        None => capacity,
    }
}

/// A buffer that elements are appended to has room for all of them afterwards, and holds all
/// of them: the new ones are written behind those that it holds, and where it begins anew or
/// is allocated, everything is. It is allocated only where it is not there or too small, with
/// at least the room asked for.
pub proof fn law_buffers_hold_what_is_appended(
    length: u64,
    incoming: u64,
    reset: bool,
    minimum: u64,
    capacity: u64,
    allocated: bool,
    plan: BufferPlan,
)
    requires
        length + incoming <= 0x8000_0000_0000_0000,
        minimum <= 0x8000_0000_0000_0000,
        call_ensures(
            plan_append,
            (length, incoming, reset, minimum, capacity, allocated),
            plan,
        ),
    ensures
        ({
            let kept = if reset { 0 } else { length as int };
            let total = kept + incoming;
            &&& total == 0 ==> plan.reserve is None && plan.upload is Nothing && plan.written == 0
            &&& total > 0 ==> {
                &&& total <= room_after(plan, capacity)
                &&& plan.reserve is None <==> allocated && total <= capacity
                &&& plan.reserve is Some ==> plan.reserve->0 >= minimum
                &&& plan.reserve is Some || reset ==> plan.upload is Everything && plan.written
                    == total
                &&& plan.reserve is None && !reset && incoming > 0 ==> plan.upload
                    == Upload::From(length) && plan.written == incoming
                &&& plan.reserve is None && !reset && incoming == 0 ==> plan.upload is Nothing
                    && plan.written == 0
            }
        }),
{
}

/// A buffer whose elements are replaced has room for all of them afterwards, and all of them
/// are written.
pub proof fn law_buffers_hold_what_replaces_them(
    incoming: u64,
    capacity: u64,
    allocated: bool,
    plan: BufferPlan,
)
    requires
        incoming <= 0x8000_0000_0000_0000,
        call_ensures(plan_replace, (incoming, capacity, allocated), plan),
    ensures
        plan.written == incoming,
        incoming == 0 ==> plan.reserve is None && plan.upload is Nothing,
        incoming > 0 ==> {
            &&& incoming <= room_after(plan, capacity)
            &&& plan.reserve is None <==> allocated && incoming <= capacity
            &&& plan.reserve is Some ==> plan.reserve->0 >= 4
            &&& plan.upload is Everything
        },
{
}

/// Bindings are made anew after a buffer or the layer table changed, and stay due until they
/// are; a reallocation is seen by its generation.
pub proof fn law_bindings_follow_their_buffers(
    strokes: StrokeBufferStatus,
    reallocations: u64,
    layers_changed: bool,
    tiles: TileBindingStatus,
    reallocated: bool,
    generation: u64,
    other: u64,
)
    ensures
        ({
            let after = strokes.written(reallocations, layers_changed);
            &&& strokes.bind_group_dirty || layers_changed || reallocations > 0
                <==> after.bind_group_dirty
            &&& after.reallocation_generation != strokes.reallocation_generation <==> reallocations
                > 0
        }),
        ({
            let after = tiles.written(reallocated);
            &&& after.stale(generation) <==> tiles.stale(generation) || reallocated
        }),
        tiles.compared(generation).stale(generation) == tiles.stale(generation),
        tiles.stale(generation) ==> tiles.compared(generation).stale(other),
        !tiles.rebound(generation).stale(generation),
        other != generation ==> tiles.rebound(generation).stale(other),
{
}

/// New states have nothing bound.
pub proof fn law_nothing_is_bound_at_first(
    strokes: StrokeBufferStatus,
    tiles: TileBindingStatus,
    generation: u64,
)
    requires
        call_ensures(StrokeBufferStatus::new, (), strokes),
        call_ensures(TileBindingStatus::new, (), tiles),
    ensures
        strokes.bind_group_dirty,
        tiles.stale(generation),
{
}

/// As many slots are offered as fit into a binding, at four bytes for each pixel of a tile,
/// and one at least.
pub proof fn law_offered_slots_fit_the_binding(tile_size: u32, max_binding: u64)
    requires
        0 < tile_size <= 0x7fff_ffff,
    ensures
        ({
            let limit = slot_limit(tile_size, max_binding);
            let tile = tile_size * tile_size * 4;
            &&& limit >= 1
            &&& tile <= max_binding ==> limit * tile <= max_binding
            &&& limit < u32::MAX ==> (limit + 1) * tile > max_binding
        }),
{
    let tile = tile_size * tile_size * 4;
    assert(tile > 0) by (nonlinear_arith)
        requires
            tile == tile_size * tile_size * 4,
            tile_size > 0,
    ;
    assert(crate::device::slot_size(tile_size) == tile) by (nonlinear_arith)
        requires
            tile == tile_size * tile_size * 4,
            tile_size > 0,
            crate::device::slot_size(tile_size) == (tile_size as nat) * (tile_size as nat) * 4,
    ;
    let slots = max_binding as int / tile;
    vstd::arithmetic::div_mod::lemma_fundamental_div_mod(max_binding as int, tile);
    let rest = max_binding as int % tile;
    assert(0 <= rest < tile);
    assert(max_binding == tile * slots + rest);
    let limit = slot_limit(tile_size, max_binding);
    if tile <= max_binding {
        assert(slots >= 1) by (nonlinear_arith)
            requires
                max_binding == tile * slots + rest,
                0 <= rest < tile,
                tile <= max_binding,
        ;
        assert(limit <= slots);
        assert(limit * tile <= max_binding) by (nonlinear_arith)
            requires
                max_binding == tile * slots + rest,
                0 <= rest,
                limit <= slots,
                tile > 0,
        ;
    }
    if limit < u32::MAX {
        assert(limit >= slots);
        assert((limit + 1) * tile > max_binding) by (nonlinear_arith)
            requires
                max_binding == tile * slots + rest,
                rest < tile,
                limit >= slots,
                tile > 0,
        ;
    }
}

/// Groups of eight by eight threads cover a tile, and no row or column of groups is without a
/// pixel.
pub proof fn law_workgroups_cover_the_tile(tile_size: u32)
    requires
        tile_size > 0,
    ensures
        8 * workgroups_for(tile_size) >= tile_size,
        8 * (workgroups_for(tile_size) - 1) < tile_size,
        workgroups_for(0) == 1,
{
}

/// A batch is rasterized once: all of its jobs, over the whole tile, when the device is
/// ready; while it is not, the jobs are handed back.
pub proof fn law_batches_are_dispatched_whole(
    state: TileDeviceState,
    serial: u64,
    tile_size: u32,
    ready: bool,
)
    requires
        tile_size > 0,
    ensures
        ({
            let dispatch = state.dispatches(serial, tile_size, ready);
            let due = state.processed_serial != Some(serial) && state.job_count > 0;
            &&& dispatch is Skip <==> !due
            &&& dispatch is Retry <==> due && !ready
            &&& dispatch matches TileDispatch::Run { workgroups, jobs } ==> {
                &&& jobs == state.job_count
                &&& 8 * workgroups >= tile_size
            }
            &&& !(state.processed(serial).dispatches(serial, tile_size, ready) is Run)
            &&& state.processed(serial).job_count == state.job_count
            &&& state.processed(serial).capacity_slots == state.capacity_slots
        }),
{
}

/// What preparing a batch leads to: the work of a batch that fits is taken over whole, a batch
/// that does not fit is dropped, and while tiles wait for content that a lost device held,
/// nothing is drawn and what was taken over before is kept.
pub proof fn law_prepared_batches_are_taken_whole(
    state: TileDeviceState,
    demand: TileDemand,
    max_binding: u64,
    preparation: TilePreparation,
)
    requires
        state.prepares(demand, max_binding, preparation),
    ensures
        ({
            let after = state.prepared(demand, max_binding, preparation);
            let limit = slot_limit(demand.tile_size, max_binding);
            &&& preparation is Wait <==> state.capacity_slots is None && demand.jobs == 0
                && demand.instances > 0
            &&& preparation is Refuse ==> demand.required_slots > limit && after.job_count == 0
                && after.instance_count == 0 && after.processed_serial == Some(demand.serial)
                && after.capacity_slots == state.capacity_slots
            &&& preparation is Proceed && demand.required_slots > 0 ==> after.capacity_slots is Some
                && demand.required_slots <= after.capacity_slots->0
            &&& preparation is Grow && state.capacity_slots is Some ==> demand.required_slots
                > state.capacity_slots->0
            &&& preparation is Proceed ==> after.capacity_slots == state.capacity_slots
                && after.job_count == demand.jobs && (state.capacity_slots is Some
                ==> after.instance_count == demand.instances) && after.processed_serial
                == state.processed_serial
            &&& preparation matches TilePreparation::Grow(slots) ==> {
                &&& demand.required_slots <= slots <= limit
                &&& slots < 2 * demand.required_slots || slots == 1 || slots == limit
                &&& after.capacity_slots == Some(slots)
                &&& after.job_count == demand.jobs && after.instance_count == demand.instances
                &&& after.processed_serial == state.processed_serial
            }
            &&& preparation is Wait ==> after.instance_count == 0 && after.job_count
                == state.job_count && after.capacity_slots == state.capacity_slots
            &&& after.reported_capacity == Some((demand.tile_size, limit))
            &&& !after.device_reset_pending
        }),
{
}

/// The limit on slots is reported when it, or the tile size, is another than the one that was
/// reported last, and then not again.
pub proof fn law_limits_are_reported_once(
    reported: Option<(u32, u32)>,
    tile_size: u32,
    limit: u32,
)
    ensures
        capacity_report(Some((tile_size, limit)), tile_size, limit).len() == 0,
        reported != Some((tile_size, limit)) ==> {
            &&& capacity_report(reported, tile_size, limit).len() == 1
            &&& capacity_report(reported, tile_size, limit)[0] == (TileRenderFeedback::Capacity {
                max_slots: limit,
            })
        },
{
}

/// Reports name each tile with its revision, in their order, and what happened to it.
pub proof fn law_reports_name_their_tiles(
    tiles: Vec<(TileKey, u64)>,
    completed: Vec<TileRenderFeedback>,
    retried: Vec<TileRenderFeedback>,
    presented: Vec<TileRenderFeedback>,
)
    requires
        call_ensures(completion_reports, (&tiles,), completed),
        call_ensures(retry_reports, (&tiles,), retried),
        call_ensures(presentation_reports, (&tiles,), presented),
    ensures
        completed@.len() == tiles@.len(),
        retried@.len() == tiles@.len(),
        presented@.len() == tiles@.len(),
        forall|i: int|
            0 <= i < tiles@.len() ==> {
                let (key, revision) = #[trigger] tiles@[i];
                &&& completed@[i] == TileRenderFeedback::Complete { key, revision }
                &&& retried@[i] == TileRenderFeedback::Retry { key, revision }
                &&& presented@[i] == TileRenderFeedback::Presented { key, revision }
            },
{
}

/// A new device state owes the report that the device holds nothing.
pub proof fn law_devices_begin_without_tiles(state: TileDeviceState, demand: TileDemand)
    requires
        call_ensures(TileDeviceState::new, (), state),
    ensures
        state.capacity_slots is None,
        state.resets_reported(demand) == 1,
        state.reported_capacity is None,
        state.processed_serial is None,
        state.job_count == 0 && state.instance_count == 0,
{
}

/// How many strokes get a mask of their own.
pub open spec fn masks_given(ranges: Seq<(LayerId, SegmentRange)>, device_limit: u32) -> int {
    let limit: int = if device_limit == 0 { 1 } else { device_limit as int };
    if ranges.len() <= limit { ranges.len() as int } else { limit }
}

/// The first strokes of the overlay, as many as the device has layers for, get a mask each,
/// in their order: each for its layer, with the mode of its first segment.
pub proof fn law_live_strokes_get_a_mask_each(
    ranges: Vec<(LayerId, SegmentRange)>,
    segments: Vec<GpuStrokeSegment>,
    layers: Vec<GpuCanvasLayer>,
    device_limit: u32,
    plan: LiveMaskPlan,
)
    requires
        call_ensures(plan_live_masks, (&ranges, &segments, &layers, device_limit), plan),
        ranges@.len() <= u32::MAX,
    ensures
        plan.live_strokes@.len() == masks_given(ranges@, device_limit),
        forall|i: int|
            0 <= i < plan.live_strokes@.len() ==> {
                let stroke = #[trigger] plan.live_strokes@[i];
                let (layer, range) = ranges@[i];
                &&& stroke.mask_layer == i
                &&& stroke.canvas_layer == layer.0
                &&& range.start < segments@.len() ==> stroke.model_and_deposition
                    == segments@[range.start as int].model_and_deposition
                &&& range.start >= segments@.len() ==> stroke.model_and_deposition == 0
            },
        plan.required_strokes == (if ranges@.len() == 0 { 1 } else { ranges@.len() }),
        plan.live_strokes@.len() <= plan.stroke_capacity,
        plan.active_layers@.len() <= plan.layer_capacity,
        1 <= plan.stroke_capacity <= (if device_limit == 0 { 1 } else { device_limit }),
        1 <= plan.layer_capacity <= (if device_limit == 0 { 1 } else { device_limit }),
{
    let count = masks_given(ranges@, device_limit);
    assert forall|i: int| 0 <= i < plan.live_strokes@.len() implies {
        let stroke = #[trigger] plan.live_strokes@[i];
        let (layer, range) = ranges@[i];
        &&& stroke.mask_layer == i
        &&& stroke.canvas_layer == layer.0
        &&& range.start < segments@.len() ==> stroke.model_and_deposition
            == segments@[range.start as int].model_and_deposition
        &&& range.start >= segments@.len() ==> stroke.model_and_deposition == 0
    } by {
        assert(plan.live_strokes@[i] == crate::overlay::live_stroke(ranges@, segments@, i));
    }
    crate::overlay::law_active_layers_are_distinct(ranges@, count as nat);
    lemma_capacity(
        plan.stroke_capacity,
        plan.required_strokes,
        crate::overlay::layer_limit(device_limit),
    );
    lemma_capacity(
        plan.layer_capacity,
        crate::overlay::required_count(plan.active_layers@.len()),
        crate::overlay::layer_limit(device_limit),
    );
}

/// A capacity suffices as far as the limit lets it.
proof fn lemma_capacity(capacity: u32, required: u32, limit: u32)
    requires
        is_capacity(capacity, required, limit),
        required >= 1,
        limit >= 1,
    ensures
        1 <= capacity <= limit,
        required <= capacity || capacity == limit,
{
    let power = choose|power: nat| #[trigger]
        rounds_up_to(required as nat, power) && capacity == (if power < limit {
            power as int
        } else {
            limit as int
        });
}

/// The layers of the masked strokes get a texture layer each, in the order in which strokes
/// first draw on them, with their opacity and the number of all masked strokes.
pub proof fn law_live_layers_are_those_of_their_strokes(
    ranges: Vec<(LayerId, SegmentRange)>,
    segments: Vec<GpuStrokeSegment>,
    layers: Vec<GpuCanvasLayer>,
    device_limit: u32,
    plan: LiveMaskPlan,
)
    requires
        call_ensures(plan_live_masks, (&ranges, &segments, &layers, device_limit), plan),
        ranges@.len() <= u32::MAX,
    ensures
        ({
            let count = masks_given(ranges@, device_limit);
            let active = plan.active_layers@;
            &&& active.no_duplicates()
            &&& forall|k: int| 0 <= k < count ==> active.contains((#[trigger] ranges@[k]).0)
            &&& forall|i: int| 0 <= i < active.len() ==> comes_first(ranges@, count, active, i)
            &&& plan.live_layers@.len() == active.len()
            &&& forall|i: int|
                0 <= i < active.len() ==> {
                    let layer = #[trigger] plan.live_layers@[i];
                    &&& layer.canvas_layer == active[i].0
                    &&& layer.texture_layer == i
                    &&& layer.stroke_count == count
                    &&& active[i].0 < layers@.len() ==> layer.opacity
                        == layers@[active[i].0 as int].opacity
                    &&& active[i].0 >= layers@.len() ==> layer.opacity.bits == 0
                }
        }),
{
    let count = masks_given(ranges@, device_limit);
    let active = plan.active_layers@;
    crate::overlay::law_active_layers_are_distinct(ranges@, count as nat);
    lemma_first_layers(ranges@, count as nat);
    assert forall|i: int| 0 <= i < active.len() implies {
        let layer = #[trigger] plan.live_layers@[i];
        &&& layer.canvas_layer == active[i].0
        &&& layer.texture_layer == i
        &&& layer.stroke_count == count
        &&& active[i].0 < layers@.len() ==> layer.opacity == layers@[active[i].0 as int].opacity
        &&& active[i].0 >= layers@.len() ==> layer.opacity.bits == 0
    } by {
        assert(plan.live_layers@[i] == crate::overlay::live_layer(active, layers@, i, count));
    }
}

/// Whether a layer of a list is that of some stroke, before which strokes draw on the layers
/// before it in the list only.
pub open spec fn comes_first(
    ranges: Seq<(LayerId, SegmentRange)>,
    count: int,
    active: Seq<LayerId>,
    i: int,
) -> bool {
    exists|k: int|
        {
            &&& 0 <= k < count
            &&& (#[trigger] ranges[k]).0 == active[i]
            &&& forall|j: int| 0 <= j < k ==> active.take(i).contains((#[trigger] ranges[j]).0)
        }
}

proof fn lemma_first_layers(ranges: Seq<(LayerId, SegmentRange)>, count: nat)
    requires
        count <= ranges.len(),
    ensures
        ({
            let active = distinct_first_layers(ranges, count);
            forall|i: int|
                0 <= i < active.len() ==> #[trigger] comes_first(
                    ranges,
                    count as int,
                    active,
                    i,
                )
        }),
    decreases count,
{
    if count > 0 {
        let before = distinct_first_layers(ranges, (count - 1) as nat);
        let active = distinct_first_layers(ranges, count);
        lemma_first_layers(ranges, (count - 1) as nat);
        crate::overlay::law_active_layers_are_distinct(ranges, (count - 1) as nat);
        assert forall|i: int| 0 <= i < active.len() implies #[trigger] comes_first(
            ranges,
            count as int,
            active,
            i,
        ) by {
            if i < before.len() {
                assert(comes_first(ranges, count - 1, before, i));
                let k = choose|k: int|
                    {
                        &&& 0 <= k < count - 1
                        &&& (#[trigger] ranges[k]).0 == before[i]
                        &&& forall|j: int|
                            0 <= j < k ==> before.take(i).contains((#[trigger] ranges[j]).0)
                    };
                assert(active.take(i) =~= before.take(i));
                assert(ranges[k].0 == active[i]);
            } else {
                assert(active.take(i) =~= before);
                assert(ranges[count - 1].0 == active[i]);
            }
        }
    }
}

/// A layer that is drawn live is found at its texture layer, and any other is not found.
pub proof fn law_live_layers_are_found(
    active: Vec<LayerId>,
    layer: LayerId,
    slot: Option<u32>,
    held: bool,
)
    requires
        active@.len() <= u32::MAX,
        call_ensures(active_layer_slot, (&active, layer), slot),
        call_ensures(holds_layer, (&active, layer), held),
    ensures
        slot is Some ==> slot->0 < active@.len() && active@[slot->0 as int] == layer,
        slot is None ==> forall|i: int| 0 <= i < active@.len() ==> active@[i] != layer,
        held == (slot is Some),
{
    if slot is Some {
        assert(active@.contains(layer));
    }
}

/// Masks are made anew where there are none, where the view has another extent or where they
/// have too little room; they have the extent of the view, a pixel at least on each side.
pub proof fn law_masks_have_the_extent_of_the_view(
    existing: Option<MaskExtent>,
    width: u32,
    height: u32,
    strokes: u32,
    layers: u32,
    extent: Option<MaskExtent>,
)
    requires
        call_ensures(extent_to_create, (existing, width, height, strokes, layers), extent),
        width > 0,
        height > 0,
    ensures
        ({
            let used = if extent is Some { extent->0 } else { existing->0 };
            &&& extent is Some || existing is Some
            &&& used.width == width && used.height == height
            &&& used.stroke_capacity >= strokes && used.layer_capacity >= layers
            &&& extent is Some ==> used.stroke_capacity == strokes && used.layer_capacity
                == layers
            &&& existing is Some && existing->0.width == width && existing->0.height == height
                && existing->0.stroke_capacity >= strokes && existing->0.layer_capacity
                >= layers ==> extent is None
        }),
{
}

/// A view without pixels gets masks of one pixel.
pub proof fn law_masks_have_a_pixel_at_least(
    existing: Option<MaskExtent>,
    width: u32,
    height: u32,
    strokes: u32,
    layers: u32,
    extent: Option<MaskExtent>,
)
    requires
        call_ensures(extent_to_create, (existing, width, height, strokes, layers), extent),
    ensures
        extent is Some && width == 0 ==> extent->0.width == 1,
        extent is Some && height == 0 ==> extent->0.height == 1,
        existing is None ==> extent is Some,
{
}

/// A warning is due where strokes need more masks than the device has layers, at least one,
/// and after one that fits it is due again.
pub proof fn law_warnings_are_about_the_limit(required: u32, device_limit: u32)
    ensures
        device_limit > 0 ==> (exceeds(required, device_limit) <==> required > device_limit),
        exceeds(required, 0) <==> required > 1,
        exceeds(required, device_limit) ==> last_warning(required, device_limit) == Some(required),
        !exceeds(required, device_limit) ==> last_warning(required, device_limit) is None,
{
}

/// The overlay is drawn for the layers that are drawn live, once it is ready, in their order
/// from the lowest.
pub proof fn law_overlays_are_drawn_for_live_layers(
    overlay: Vec<OverlayLayer>,
    active: Vec<LayerId>,
    ready: bool,
    queue: OverlayQueue,
    i: usize,
)
    requires
        call_ensures(queue_overlay, (&overlay, &active, ready), queue),
    ensures
        queue.positions@.contains(i) <==> ready && i < overlay@.len() && active@.contains(
            overlay@[i as int].layer,
        ),
        forall|a: int, b: int|
            0 <= a < b < queue.positions@.len() ==> queue.positions@[a] < queue.positions@[b],
        queue.layers@.len() == queue.positions@.len(),
        forall|k: int|
            0 <= k < queue.layers@.len() ==> #[trigger] queue.layers@[k]
                == overlay@[queue.positions@[k] as int].layer,
{
    let set = crate::presentation::overlay_positions(overlay@, active@, ready);
    assert(set.contains(i) <==> queue.positions@.contains(i));
    assert forall|a: int, b: int| 0 <= a < b < queue.positions@.len() implies queue.positions@[a]
        < queue.positions@[b] by {
        let (p, q) = (queue.positions@[a], queue.positions@[b]);
        assert(crate::ordered::Ranked::rank(p) < crate::ordered::Ranked::rank(q));
    }
}

/// Cached tiles are drawn directly for the layers that are not drawn live, once they are
/// ready, in their order from the lowest.
pub proof fn law_tiles_are_drawn_for_other_layers(
    runs: Vec<LayerRun>,
    live: Vec<LayerId>,
    ready: bool,
    queue: TileQueue,
    i: usize,
)
    requires
        call_ensures(queue_tiles, (&runs, &live, ready), queue),
    ensures
        queue.direct@.contains(i) <==> ready && i < runs@.len() && !live@.contains(
            runs@[i as int].layer,
        ),
        forall|a: int, b: int|
            0 <= a < b < queue.direct@.len() ==> queue.direct@[a] < queue.direct@[b],
        queue.presented <==> ready && runs@.len() > 0,
{
    let set = crate::presentation::direct_positions(runs@, live@, ready);
    assert(set.contains(i) <==> queue.direct@.contains(i));
    assert forall|a: int, b: int| 0 <= a < b < queue.direct@.len() implies queue.direct@[a]
        < queue.direct@[b] by {
        let (p, q) = (queue.direct@[a], queue.direct@[b]);
        assert(crate::ordered::Ranked::rank(p) < crate::ordered::Ranked::rank(q));
    }
}

} // verus!
