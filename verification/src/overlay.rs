//! Masks of the live overlay: which strokes and layers get one, and how many
//! texture layers that takes.
use crate::geometry::LayerId;
use crate::gpu::{GpuCanvasLayer, GpuLiveLayer, GpuLiveStroke, GpuStrokeSegment};
use crate::scalar::Scalar;
use crate::strokes::SegmentRange;
use crate::upload::{round_up, rounds_up_to};
use vstd::prelude::*;

verus! {

/// Number of texture layers that a device offers, at least one.
pub open spec fn layer_limit(device_limit: u32) -> u32 {
    if device_limit == 0 { 1 } else { device_limit }
}

/// A count of at least one, within 32 bits.
pub open spec fn required_count(count: nat) -> u32 {
    if count == 0 {
        1
    } else if count > u32::MAX {
        u32::MAX
    } else {
        count as u32
    }
}

/// Whether a capacity is the next power of two, kept within the limit.
pub open spec fn is_capacity(capacity: u32, required: u32, limit: u32) -> bool {
    exists|power: nat| #[trigger]
        rounds_up_to(required as nat, power) && capacity == (if power < limit {
            power as int
        } else {
            limit as int
        })
}

/// Number of strokes that get a mask.
pub open spec fn masked_count(ranges: Seq<(LayerId, SegmentRange)>, limit: u32) -> int {
    if ranges.len() < limit { ranges.len() as int } else { limit as int }
}

/// Layers of the first `count` ranges, each once, in order of appearance.
pub open spec fn distinct_first_layers(ranges: Seq<(LayerId, SegmentRange)>, count: nat) -> Seq<
    LayerId,
>
    decreases count,
{
    if count == 0 {
        Seq::empty()
    } else {
        let before = distinct_first_layers(ranges, (count - 1) as nat);
        if before.contains(ranges[count - 1].0) { before } else {
            before.push(ranges[count - 1].0)
        }
    }
}

/// The record of the stroke with a mask.
pub open spec fn live_stroke(
    ranges: Seq<(LayerId, SegmentRange)>,
    segments: Seq<GpuStrokeSegment>,
    i: int,
) -> GpuLiveStroke {
    GpuLiveStroke {
        mask_layer: i as u32,
        canvas_layer: ranges[i].0.0,
        model_and_deposition: if ranges[i].1.start < segments.len() {
            segments[ranges[i].1.start as int].model_and_deposition
        } else {
            0
        },
    }
}

/// The record of a layer with masks.
pub open spec fn live_layer(
    active: Seq<LayerId>,
    layers: Seq<GpuCanvasLayer>,
    i: int,
    strokes: int,
) -> GpuLiveLayer {
    GpuLiveLayer {
        canvas_layer: active[i].0,
        texture_layer: i as u32,
        opacity: if active[i].0 < layers.len() {
            layers[active[i].0 as int].opacity
        } else {
            Scalar { bits: 0 }
        },
        stroke_count: strokes as u32,
    }
}

/// Which strokes and layers get a mask this frame.
#[derive(Debug)]
pub struct LiveMaskPlan {
    /// Layers with live strokes, in order of appearance.
    pub active_layers: Vec<LayerId>,
    /// Strokes with a mask.
    pub live_strokes: Vec<GpuLiveStroke>,
    /// Records of the layers with live strokes.
    pub live_layers: Vec<GpuLiveLayer>,
    /// Number of masks that there should be room for.
    pub stroke_capacity: u32,
    /// Number of layer surfaces that there should be room for.
    pub layer_capacity: u32,
    /// Number of strokes that asked for a mask.
    pub required_strokes: u32,
}

fn capacity_for(count: usize, limit: u32) -> (result: (u32, u32))
    requires
        limit >= 1,
    ensures
        result.0 == required_count(count as nat),
        is_capacity(result.1, result.0, limit),
{
    let required: u32 = if count == 0 {
        1
    } else if count > u32::MAX as usize {
        u32::MAX
    } else {
        count as u32
    };
    let power: u64 = round_up(required as u64);
    assert(rounds_up_to(required as nat, power as nat));
    let capacity: u32 = if power < limit as u64 { power as u32 } else { limit };
    (required, capacity)
}

/// Whether a list holds a layer.
pub fn holds_layer(layers: &Vec<LayerId>, layer: LayerId) -> (found: bool)
    ensures
        found == layers@.contains(layer),
{
    for i in 0..layers.len()
        invariant
            forall|j: int| 0 <= j < i ==> #[trigger] layers@[j] != layer,
    {
        if layers[i] == layer {
            assert(layers@[i as int] == layer);
            return true;
        }
    }
    false
}

/// Plans the masks of a frame within the device's limit of texture layers.
pub fn plan_live_masks(
    ranges: &Vec<(LayerId, SegmentRange)>,
    segments: &Vec<GpuStrokeSegment>,
    layers: &Vec<GpuCanvasLayer>,
    device_limit: u32,
) -> (plan: LiveMaskPlan)
    ensures
        ({
            let limit = layer_limit(device_limit);
            let count = masked_count(ranges@, limit);
            &&& plan.active_layers@ == distinct_first_layers(ranges@, count as nat)
            &&& plan.live_strokes@ == Seq::new(
                count as nat,
                |i: int| live_stroke(ranges@, segments@, i),
            )
            &&& plan.live_layers@ == Seq::new(
                plan.active_layers@.len(),
                |i: int| live_layer(plan.active_layers@, layers@, i, count),
            )
            &&& plan.required_strokes == required_count(ranges@.len())
            &&& is_capacity(plan.stroke_capacity, plan.required_strokes, limit)
            &&& is_capacity(
                plan.layer_capacity,
                required_count(plan.active_layers@.len()),
                limit,
            )
        }),
{
    let limit: u32 = if device_limit == 0 { 1 } else { device_limit };
    let ghost count = masked_count(ranges@, limit);
    let (required_strokes, stroke_capacity) = capacity_for(ranges.len(), limit);
    let taken: usize = if ranges.len() < limit as usize { ranges.len() } else { limit as usize };
    let mut active_layers: Vec<LayerId> = Vec::new();
    let mut live_strokes: Vec<GpuLiveStroke> = Vec::new();
    for i in 0..taken
        invariant
            taken <= ranges@.len(),
            active_layers@ == distinct_first_layers(ranges@, i as nat),
            live_strokes@.len() == i,
            forall|j: int|
                0 <= j < i ==> #[trigger] live_strokes@[j] == live_stroke(ranges@, segments@, j),
    {
        let layer = ranges[i].0;
        if !holds_layer(&active_layers, layer) {
            active_layers.push(layer);
        }
        let first: usize = ranges[i].1.start as usize;
        let model_and_deposition: u32 = if first < segments.len() {
            segments[first].model_and_deposition
        } else {
            0
        };
        live_strokes.push(
            GpuLiveStroke { mask_layer: i as u32, canvas_layer: layer.0, model_and_deposition },
        );
    }
    let mut live_layers: Vec<GpuLiveLayer> = Vec::new();
    let stroke_count: u32 = live_strokes.len() as u32;
    for i in 0..active_layers.len()
        invariant
            stroke_count == count as u32,
            live_layers@.len() == i,
            forall|j: int|
                0 <= j < i ==> #[trigger] live_layers@[j] == live_layer(
                    active_layers@,
                    layers@,
                    j,
                    count,
                ),
    {
        let place: usize = active_layers[i].0 as usize;
        let opacity = if place < layers.len() {
            layers[place].opacity
        } else {
            Scalar { bits: 0 }
        };
        live_layers.push(
            GpuLiveLayer {
                canvas_layer: active_layers[i].0,
                texture_layer: i as u32,
                opacity,
                stroke_count,
            },
        );
    }
    let (_, layer_capacity) = capacity_for(active_layers.len(), limit);
    proof {
        assert(live_strokes@ =~= Seq::new(
            count as nat,
            |i: int| live_stroke(ranges@, segments@, i),
        ));
        assert(live_layers@ =~= Seq::new(
            active_layers@.len(),
            |i: int| live_layer(active_layers@, layers@, i, count),
        ));
    }
    LiveMaskPlan {
        active_layers,
        live_strokes,
        live_layers,
        stroke_capacity,
        layer_capacity,
        required_strokes,
    }
}

/// No layer is listed twice, and there are no more layers than masked strokes.
pub proof fn law_active_layers_are_distinct(
    ranges: Seq<(LayerId, SegmentRange)>,
    count: nat,
)
    requires
        count <= ranges.len(),
    ensures
        distinct_first_layers(ranges, count).no_duplicates(),
        distinct_first_layers(ranges, count).len() <= count,
        forall|i: int|
            0 <= i < count ==> distinct_first_layers(ranges, count).contains(
                (#[trigger] ranges[i]).0,
            ),
    decreases count,
{
    if count > 0 {
        law_active_layers_are_distinct(ranges, (count - 1) as nat);
        let before = distinct_first_layers(ranges, (count - 1) as nat);
        let after = distinct_first_layers(ranges, count);
        let layer = ranges[count - 1].0;
        if !before.contains(layer) {
            assert(after[before.len() as int] == layer);
            assert forall|i: int, j: int|
                0 <= i < after.len() && 0 <= j < after.len() && i != j implies after[i]
                != after[j] by {
                if i == before.len() {
                    assert(before.contains(before[j]));
                } else if j == before.len() {
                    assert(before.contains(before[i]));
                }
            }
            assert forall|i: int| 0 <= i < count implies after.contains(
                (#[trigger] ranges[i]).0,
            ) by {
                if i < count - 1 {
                    let k = choose|k: int| 0 <= k < before.len() && before[k] == ranges[i].0;
                    assert(after[k] == ranges[i].0);
                }
            }
        }
    }
}

/// Position of a layer among those with live strokes.
pub fn active_layer_slot(active_layers: &Vec<LayerId>, layer: LayerId) -> (slot: Option<u32>)
    ensures
        match slot {
            Some(found) => exists|i: int|
                {
                    &&& 0 <= i < active_layers@.len()
                    &&& #[trigger] active_layers@[i] == layer
                    &&& found == i as u32
                    &&& forall|j: int| 0 <= j < i ==> active_layers@[j] != layer
                },
            None => !active_layers@.contains(layer),
        },
{
    for i in 0..active_layers.len()
        invariant
            forall|j: int| 0 <= j < i ==> #[trigger] active_layers@[j] != layer,
    {
        if active_layers[i] == layer {
            assert(active_layers@[i as int] == layer);
            return Some(i as u32);
        }
    }
    None
}

/// Whether strokes need more masks than the device has layers for.
pub open spec fn exceeds(required_strokes: u32, device_limit: u32) -> bool {
    required_strokes > layer_limit(device_limit)
}

/// What a warning was given about, if one was due.
pub open spec fn last_warning(required_strokes: u32, device_limit: u32) -> Option<u32> {
    if exceeds(required_strokes, device_limit) { Some(required_strokes) } else { None }
}

/// Whether the mask limit was reached in a way that was not reported yet. The
/// latest reported demand is remembered until demand is within the limit again.
pub fn limit_is_news(
    warned: &mut Option<u32>,
    required_strokes: u32,
    device_limit: u32,
) -> (news: bool)
    ensures
        news == (exceeds(required_strokes, device_limit) && *old(warned) != Some(
            required_strokes,
        )),
        *final(warned) == last_warning(required_strokes, device_limit),
{
    let limit: u32 = if device_limit == 0 { 1 } else { device_limit };
    if required_strokes <= limit {
        *warned = None;
        return false;
    }
    let known = match *warned {
        Some(reported) => reported == required_strokes,
        None => false,
    };
    *warned = Some(required_strokes);
    !known
}

/// Extent and room of the masks of one view.
#[derive(Clone, Copy, Debug, PartialEq, Eq, Structural)]
pub struct MaskExtent {
    /// Horizontal extent.
    pub width: u32,
    /// Vertical extent.
    pub height: u32,
    /// Number of stroke masks.
    pub stroke_capacity: u32,
    /// Number of layer surfaces.
    pub layer_capacity: u32,
}

/// Extent that masks of a view are to be created with, where they do not exist
/// or do not suffice.
pub fn extent_to_create(
    existing: Option<MaskExtent>,
    viewport_width: u32,
    viewport_height: u32,
    stroke_capacity: u32,
    layer_capacity: u32,
) -> (extent: Option<MaskExtent>)
    ensures
        ({
            let wanted = MaskExtent {
                width: if viewport_width == 0 { 1 } else { viewport_width },
                height: if viewport_height == 0 { 1 } else { viewport_height },
                stroke_capacity,
                layer_capacity,
            };
            extent == match existing {
                Some(mask) if mask.width == wanted.width && mask.height == wanted.height
                    && mask.stroke_capacity >= stroke_capacity && mask.layer_capacity
                    >= layer_capacity => None,
                _ => Some(wanted),
            }
        }),
{
    let width: u32 = if viewport_width == 0 { 1 } else { viewport_width };
    let height: u32 = if viewport_height == 0 { 1 } else { viewport_height };
    let suffices = match existing {
        Some(mask) => mask.width == width && mask.height == height && mask.stroke_capacity
            >= stroke_capacity && mask.layer_capacity >= layer_capacity,
        None => false,
    };
    if suffices {
        None
    } else {
        Some(MaskExtent { width, height, stroke_capacity, layer_capacity })
    }
}

} // verus!
