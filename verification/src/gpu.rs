//! Records as the render device reads them.
use crate::cache::TileDisplayInstance;
use crate::geometry::Vector;
use crate::paint::{DepositionMode, PaintModelId};
use crate::scalar::Scalar;
use crate::strokes::{StrokePoint, StrokeSegment};
use crate::tiles::TileRasterJob;
use vstd::prelude::*;

verus! {

/// A geometry sample.
#[derive(Clone, Copy, Debug, PartialEq, Eq, Structural)]
pub struct GpuStrokePoint {
    pub position: Vector,
    pub half_width: Scalar,
    pub flow: Scalar,
    pub orientation: Vector,
    pub twist_radians: Scalar,
    pub aspect_ratio: Scalar,
}

/// A procedural segment.
#[derive(Clone, Copy, Debug, PartialEq, Eq, Structural)]
pub struct GpuStrokeSegment {
    pub start: u32,
    pub end: u32,
    pub material: u32,
    pub model_and_deposition: u32,
    pub layer: u32,
}

/// Display state of a layer.
#[derive(Clone, Copy, Debug, PartialEq, Eq, Structural)]
pub struct GpuCanvasLayer {
    pub opacity: Scalar,
    pub visible: u32,
}

/// Replay of one tile.
#[derive(Clone, Copy, Debug, PartialEq, Eq, Structural)]
pub struct GpuTileJob {
    pub slot: u32,
    pub replay_start: u32,
    pub replay_count: u32,
    pub tile_size: u32,
    pub origin_x: i32,
    pub origin_y: i32,
    pub padding_0: u32,
    pub padding_1: u32,
}

/// Replay of one stroke into a tile.
#[derive(Clone, Copy, Debug, PartialEq, Eq, Structural)]
pub struct GpuReplayStroke {
    pub segment_index_start: u32,
    pub segment_count: u32,
    pub material: u32,
    pub model_and_deposition: u32,
}

/// A tile on display.
#[derive(Clone, Copy, Debug, PartialEq, Eq, Structural)]
pub struct GpuTileInstance {
    pub slot: u32,
    pub tile_x: i32,
    pub tile_y: i32,
    pub tile_size: u32,
    pub opacity: Scalar,
}

/// A stroke of the live overlay.
#[derive(Clone, Copy, Debug, PartialEq, Eq, Structural)]
pub struct GpuLiveStroke {
    pub mask_layer: u32,
    pub canvas_layer: u32,
    pub model_and_deposition: u32,
}

/// A layer of the live overlay.
#[derive(Clone, Copy, Debug, PartialEq, Eq, Structural)]
pub struct GpuLiveLayer {
    pub canvas_layer: u32,
    pub texture_layer: u32,
    pub opacity: Scalar,
    pub stroke_count: u32,
}

/// Model and deposition mode in one word: the mode in the highest bit, the model
/// in the others.
pub open spec fn packed_mode(model: PaintModelId, deposition: DepositionMode) -> u32 {
    (model.0 as int % 0x8000_0000 + deposition.spec_code() * 0x8000_0000) as u32
}

/// Packs model and deposition mode into one word.
pub fn pack_mode(model: PaintModelId, deposition: DepositionMode) -> (word: u32)
    ensures
        word == packed_mode(model, deposition),
{
    let low: u32 = model.0 & 0x7fff_ffff;
    let code: u32 = deposition.code();
    let high: u32 = code << 31;
    let word: u32 = low | high;
    proof {
        let id = model.0;
        assert(id & 0x7fff_ffff == id % 0x8000_0000) by (bit_vector);
        assert(0u32 << 31 == 0) by (bit_vector);
        assert(1u32 << 31 == 0x8000_0000) by (bit_vector);
        assert((id & 0x7fff_ffff) | 0u32 == id & 0x7fff_ffff) by (bit_vector);
        assert((id & 0x7fff_ffff) | 0x8000_0000u32 == (id & 0x7fff_ffff) + 0x8000_0000)
            by (bit_vector);
    }
    word
}

/// A packed word gives model numbers below two to the thirty-first and the
/// deposition mode back.
pub proof fn law_packed_modes_can_be_told_apart(
    model: PaintModelId,
    deposition: DepositionMode,
    other_model: PaintModelId,
    other_deposition: DepositionMode,
)
    requires
        model.0 < 0x8000_0000,
        other_model.0 < 0x8000_0000,
        packed_mode(model, deposition) == packed_mode(other_model, other_deposition),
    ensures
        model == other_model,
        deposition == other_deposition,
{
}

impl GpuStrokePoint {
    /// The record of a sample.
    pub open spec fn packed(point: StrokePoint) -> Self {
        GpuStrokePoint {
            position: point.position,
            half_width: point.half_width,
            flow: point.flow,
            orientation: point.orientation,
            twist_radians: point.twist_radians,
            aspect_ratio: point.aspect_ratio,
        }
    }

    /// The record of a sample.
    pub fn pack(point: StrokePoint) -> (record: Self)
        ensures
            record == Self::packed(point),
    {
        GpuStrokePoint {
            position: point.position,
            half_width: point.half_width,
            flow: point.flow,
            orientation: point.orientation,
            twist_radians: point.twist_radians,
            aspect_ratio: point.aspect_ratio,
        }
    }
}

impl GpuStrokeSegment {
    /// The record of a segment.
    pub open spec fn packed(segment: StrokeSegment) -> Self {
        GpuStrokeSegment {
            start: segment.start,
            end: segment.end,
            material: segment.material.0,
            model_and_deposition: packed_mode(segment.model, segment.deposition),
            layer: segment.layer.0,
        }
    }

    /// The record of a segment.
    pub fn pack(segment: StrokeSegment) -> (record: Self)
        ensures
            record == Self::packed(segment),
    {
        GpuStrokeSegment {
            start: segment.start,
            end: segment.end,
            material: segment.material.0,
            model_and_deposition: pack_mode(segment.model, segment.deposition),
            layer: segment.layer.0,
        }
    }
}

/// A tile coordinate in pixels, kept within 32 bits.
pub open spec fn pixel_origin(coordinate: i32, tile_size: u32) -> i32 {
    let pixels = coordinate * (if tile_size == 0 { 1 } else { tile_size as int });
    if pixels < i32::MIN {
        i32::MIN
    } else if pixels > i32::MAX {
        i32::MAX
    } else {
        pixels as i32
    }
}

fn origin(coordinate: i32, tile_size: u32) -> (pixels: i32)
    ensures
        pixels == pixel_origin(coordinate, tile_size),
{
    let size: i64 = if tile_size == 0 { 1 } else { tile_size as i64 };
    proof {
        assert(-0x8000_0000 * 0xffff_ffff <= coordinate * size <= 0x7fff_ffff * 0xffff_ffff)
            by (nonlinear_arith)
            requires
                -0x8000_0000 <= coordinate <= 0x7fff_ffff,
                1 <= size <= 0xffff_ffff,
        ;
    }
    let pixels: i64 = coordinate as i64 * size;
    if pixels < i32::MIN as i64 {
        i32::MIN
    } else if pixels > i32::MAX as i64 {
        i32::MAX
    } else {
        pixels as i32
    }
}

/// The record of a job whose replay starts at a position.
pub fn gpu_job(job: &TileRasterJob, replay_start: u32, tile_size: u32) -> (record: GpuTileJob)
    ensures
        record == (GpuTileJob {
            slot: job.slot,
            replay_start,
            replay_count: job@.replay.len() as u32,
            tile_size: if tile_size == 0 { 1 } else { tile_size },
            origin_x: pixel_origin(job.key.x, tile_size),
            origin_y: pixel_origin(job.key.y, tile_size),
            padding_0: 0,
            padding_1: 0,
        }),
{
    assert(job@.replay.len() == job.replay@.len());
    GpuTileJob {
        slot: job.slot,
        replay_start,
        replay_count: job.replay.len() as u32,
        tile_size: if tile_size == 0 { 1 } else { tile_size },
        origin_x: origin(job.key.x, tile_size),
        origin_y: origin(job.key.y, tile_size),
        padding_0: 0,
        padding_1: 0,
    }
}

/// The record of a displayed tile.
pub open spec fn instance_record(instance: TileDisplayInstance, tile_size: u32) -> GpuTileInstance {
    GpuTileInstance {
        slot: instance.slot,
        tile_x: instance.key.x,
        tile_y: instance.key.y,
        tile_size: if tile_size == 0 { 1 } else { tile_size },
        opacity: instance.opacity,
    }
}

/// The record of a displayed tile.
pub fn gpu_instance(instance: TileDisplayInstance, tile_size: u32) -> (record: GpuTileInstance)
    ensures
        record == instance_record(instance, tile_size),
{
    GpuTileInstance {
        slot: instance.slot,
        tile_x: instance.key.x,
        tile_y: instance.key.y,
        tile_size: if tile_size == 0 { 1 } else { tile_size },
        opacity: instance.opacity,
    }
}

} // verus!
