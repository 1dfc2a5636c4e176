//! Low-latency vector ink: append-only stroke documents with layers and history,
//! their file format, the cache of rasterized tiles that shows them, and the
//! rules by which both reach a graphics device.
//!
//! Numbers that stand for measurements are kept as [`Scalar`] values, which hold
//! the bits of a 32-bit float. What has to be computed from them is computed by
//! the caller and handed in.
pub mod archive;
pub mod archive_laws;
pub mod cache;
pub mod cache_laws;
pub mod cache_steps;
pub mod checkpoint;
pub mod coherence;
pub mod compatibility;
pub mod container;
pub mod device;
pub mod device_laws;
pub mod diagnostics;
pub mod document;
pub mod document_laws;
pub mod drawn_layers;
pub mod effect_laws;
pub mod effects;
pub mod errors;
pub mod exchange_laws;
pub mod extraction;
pub mod geometry;
pub mod geometry_laws;
pub mod gpu;
pub mod history;
pub mod influence;
pub mod input;
pub mod krita;
pub mod krita_laws;
pub mod laws;
pub mod layers;
pub mod maintenance;
pub mod ordered;
pub mod overlay;
pub mod paint;
pub mod pen_laws;
pub mod presentation;
pub mod record_laws;
pub mod replay_laws;
pub mod resource_laws;
pub mod restore;
pub mod rgba;
pub mod roundtrip;
pub mod scalar;
pub mod scratch;
pub mod spatial;
pub mod state;
pub mod strokes;
pub mod surface;
pub mod text;
pub mod tile_laws;
pub mod tiles;
pub mod upkeep_laws;
pub mod upload;
pub mod validate;

pub use archive::DOCUMENT_SCHEMA_VERSION;
pub use cache::{TileCacheState, TileCacheStats};
pub use checkpoint::{CheckpointRequest, DocumentCheckpointManager, DocumentSaveReport};
pub use compatibility::{DocumentCompatibilityIssue, LoadedStrokeDocument};
pub use diagnostics::{StrokeTelemetry, StrokeTelemetrySnapshot};
pub use document::{StrokeDocument, StrokeStore};
pub use effects::{
    EffectDescriptor, EffectDomain, EffectGraph, EffectId, EffectInfluence, EffectNode,
    EffectNodeId, EffectRegistry, PASS_THROUGH_EFFECT_ID,
};
pub use errors::DocumentIoError;
pub use geometry::{neighbor_halo, LayerId, TileKey};
pub use input::{StrokeInputBlocker, StrokeInputSystems, StrokePointResampler};
pub use paint::{
    DepositionMode, DepositionOrdering, PaintMaterialId, PaintMaterialLibrary,
    PaintMaterialPayload, PaintMaterialRecord, PaintMaterialRef, PaintModelDescriptor,
    PaintModelId, PaintModelRegistry, PaintPlaneClearValue, PaintPlaneDescriptor,
    PaintPlaneFormat, RGBA_PAINT_MODEL_ID,
};
pub use rgba::{RgbaMaterial, RgbaPaintModel};
pub use scalar::Scalar;
pub use scratch::{ScratchPlaneLease, ScratchPlanePool};
pub use strokes::{
    BrushProfile, BrushSizeSpace, CanvasLayer, LayerCompositeMode, StrokeDelta, StrokeDeltaBatch,
    StrokeId, StrokeMetadata, StrokePoint, StrokeRendererSettings, StrokeSegment, StrokeState,
};
pub use surface::{TilePlaneAllocation, TileSurfaceLayout};
pub use tiles::CanvasTileCache;
