//! Counters that describe the path from pen to screen.
use crate::cache::TileCacheStats;
use vstd::prelude::*;

verus! {

/// One coherent read of [`StrokeTelemetry`].
#[derive(Clone, Copy, Debug, PartialEq, Eq, Structural)]
pub struct StrokeTelemetrySnapshot {
    /// Pen messages consumed since startup.
    pub pen_messages: u64,
    /// Input updates containing zero or more messages.
    pub input_batches: u64,
    /// Messages consumed in the latest input update.
    pub last_batch_depth: u64,
    /// Largest message batch observed.
    pub max_batch_depth: u64,
    /// CPU time spent collecting the latest message batch, in nanoseconds.
    pub input_cpu_nanos: u64,
    /// Points retained by the authoritative document and live overlay buffer.
    pub resident_points: u64,
    /// Segments retained by the authoritative document and GPU replay buffer.
    pub resident_segments: u64,
    /// Age of the newest sample when it reached render extraction, in microseconds.
    pub extracted_sample_age_micros: u64,
    /// Age of the oldest sample in the extracted input batch, in microseconds.
    pub oldest_extracted_sample_age_micros: u64,
    /// Bytes uploaded by the latest prepare step.
    pub uploaded_bytes_last_frame: u64,
    /// Bytes uploaded since startup.
    pub uploaded_bytes_total: u64,
    /// Number of geometric GPU-buffer growth operations.
    pub gpu_reallocations: u64,
    /// Latest authoritative document revision.
    pub document_revision: u64,
    /// Persistent tiles occupying paint-model plane slots.
    pub resident_tiles: u64,
    /// Dirty or scheduled tiles awaiting a committed revision.
    pub dirty_tiles: u64,
    /// Total tile regeneration jobs completed.
    pub rasterized_tiles: u64,
    /// Clean tiles removed by the memory budget.
    pub evicted_tiles: u64,
    /// Evicted tiles regenerated from vector history.
    pub regenerated_tiles: u64,
    /// Aggregate resident bytes across all persistent model planes.
    pub tile_cache_bytes: u64,
    /// Peak descriptor-driven transient scratch usage.
    pub scratch_high_water_bytes: u64,
}

impl StrokeTelemetrySnapshot {
    /// All counters at zero.
    #[verifier::allow_in_spec]
    pub fn zero() -> Self
        returns
            (StrokeTelemetrySnapshot {
                pen_messages: 0,
                input_batches: 0,
                last_batch_depth: 0,
                max_batch_depth: 0,
                input_cpu_nanos: 0,
                resident_points: 0,
                resident_segments: 0,
                extracted_sample_age_micros: 0,
                oldest_extracted_sample_age_micros: 0,
                uploaded_bytes_last_frame: 0,
                uploaded_bytes_total: 0,
                gpu_reallocations: 0,
                document_revision: 0,
                resident_tiles: 0,
                dirty_tiles: 0,
                rasterized_tiles: 0,
                evicted_tiles: 0,
                regenerated_tiles: 0,
                tile_cache_bytes: 0,
                scratch_high_water_bytes: 0,
            }),
    {
        StrokeTelemetrySnapshot {
            pen_messages: 0,
            input_batches: 0,
            last_batch_depth: 0,
            max_batch_depth: 0,
            input_cpu_nanos: 0,
            resident_points: 0,
            resident_segments: 0,
            extracted_sample_age_micros: 0,
            oldest_extracted_sample_age_micros: 0,
            uploaded_bytes_last_frame: 0,
            uploaded_bytes_total: 0,
            gpu_reallocations: 0,
            document_revision: 0,
            resident_tiles: 0,
            dirty_tiles: 0,
            rasterized_tiles: 0,
            evicted_tiles: 0,
            regenerated_tiles: 0,
            tile_cache_bytes: 0,
            scratch_high_water_bytes: 0,
        }
    }
}

impl StrokeTelemetrySnapshot {
    /// The counters after an input update.
    pub open spec fn input_counted(
        self,
        message_count: usize,
        elapsed_nanos: u128,
        point_count: usize,
        segment_count: usize,
    ) -> Self {
        StrokeTelemetrySnapshot {
            pen_messages: self.pen_messages.wrapping_add(message_count as u64),
            input_batches: self.input_batches.wrapping_add(1),
            last_batch_depth: message_count as u64,
            max_batch_depth: if self.max_batch_depth < message_count {
                message_count as u64
            } else {
                self.max_batch_depth
            },
            input_cpu_nanos: capped(elapsed_nanos),
            resident_points: point_count as u64,
            resident_segments: segment_count as u64,
            ..self
        }
    }

    /// The counters after samples were extracted.
    pub open spec fn ages_noted(self, oldest_micros: u128, newest_micros: u128) -> Self {
        StrokeTelemetrySnapshot {
            oldest_extracted_sample_age_micros: capped(oldest_micros),
            extracted_sample_age_micros: capped(newest_micros),
            ..self
        }
    }

    /// The counters after an upload.
    pub open spec fn upload_counted(self, bytes: usize, reallocations: u64) -> Self {
        StrokeTelemetrySnapshot {
            uploaded_bytes_last_frame: bytes as u64,
            uploaded_bytes_total: self.uploaded_bytes_total.wrapping_add(bytes as u64),
            gpu_reallocations: self.gpu_reallocations.wrapping_add(reallocations),
            ..self
        }
    }

    /// The counters with those of the tile cache.
    pub open spec fn tiles_noted(self, revision: u64, stats: TileCacheStats) -> Self {
        StrokeTelemetrySnapshot {
            document_revision: revision,
            resident_tiles: stats.resident_tiles,
            dirty_tiles: stats.dirty_tiles,
            rasterized_tiles: stats.rasterized_tiles,
            evicted_tiles: stats.evicted_tiles,
            regenerated_tiles: stats.regenerated_tiles,
            tile_cache_bytes: stats.persistent_bytes,
            scratch_high_water_bytes: stats.scratch_high_water_bytes,
            ..self
        }
    }
}

impl Default for StrokeTelemetrySnapshot {
    fn default() -> (snapshot: Self)
        ensures
            snapshot == StrokeTelemetrySnapshot::zero(),
    {
        StrokeTelemetrySnapshot::zero()
    }
}

/// A time kept within 64 bits.
pub open spec fn capped(time: u128) -> u64 {
    if time <= u64::MAX { time as u64 } else { u64::MAX }
}

fn cap(time: u128) -> (kept: u64)
    ensures
        kept == capped(time),
{
    if time <= u64::MAX as u128 { time as u64 } else { u64::MAX }
}

/// Telemetry gathered by the main and render worlds.
#[derive(Clone, Copy, Debug)]
pub struct StrokeTelemetry {
    counters: StrokeTelemetrySnapshot,
}

impl View for StrokeTelemetry {
    type V = StrokeTelemetrySnapshot;

    closed spec fn view(&self) -> StrokeTelemetrySnapshot {
        self.counters
    }
}

impl StrokeTelemetry {
    /// Creates telemetry with all counters at zero.
    pub fn new() -> (telemetry: Self)
        ensures
            telemetry@ == StrokeTelemetrySnapshot::zero(),
    {
        StrokeTelemetry { counters: StrokeTelemetrySnapshot::zero() }
    }

    /// Reads all counters.
    pub fn snapshot(&self) -> (snapshot: StrokeTelemetrySnapshot)
        ensures
            snapshot == self@,
    {
        self.counters
    }

    /// Counts one input update.
    pub fn record_input_batch(
        &mut self,
        message_count: usize,
        elapsed_nanos: u128,
        point_count: usize,
        segment_count: usize,
    )
        ensures
            final(self)@ == old(self)@.input_counted(message_count, elapsed_nanos, point_count, segment_count),
    {
        let depth: u64 = message_count as u64;
        self.counters.pen_messages = self.counters.pen_messages.wrapping_add(depth);
        self.counters.input_batches = self.counters.input_batches.wrapping_add(1);
        self.counters.last_batch_depth = depth;
        if self.counters.max_batch_depth < depth {
            self.counters.max_batch_depth = depth;
        }
        self.counters.input_cpu_nanos = cap(elapsed_nanos);
        self.counters.resident_points = point_count as u64;
        self.counters.resident_segments = segment_count as u64;
    }

    /// Notes how old the oldest and the newest sample were at extraction.
    pub fn record_extraction_ages(&mut self, oldest_micros: u128, newest_micros: u128)
        ensures
            final(self)@ == old(self)@.ages_noted(oldest_micros, newest_micros),
    {
        self.counters.oldest_extracted_sample_age_micros = cap(oldest_micros);
        self.counters.extracted_sample_age_micros = cap(newest_micros);
    }

    /// Counts one upload to the render device.
    pub fn record_upload(&mut self, bytes: usize, reallocations: u64)
        ensures
            final(self)@ == old(self)@.upload_counted(bytes, reallocations),
    {
        self.counters.uploaded_bytes_last_frame = bytes as u64;
        self.counters.uploaded_bytes_total =
        self.counters.uploaded_bytes_total.wrapping_add(bytes as u64);
        self.counters.gpu_reallocations =
        self.counters.gpu_reallocations.wrapping_add(reallocations);
    }

    /// Takes over the counters of the tile cache.
    pub fn record_tiles(&mut self, revision: u64, stats: TileCacheStats)
        ensures
            final(self)@ == old(self)@.tiles_noted(revision, stats),
    {
        self.counters.document_revision = revision;
        self.counters.resident_tiles = stats.resident_tiles;
        self.counters.dirty_tiles = stats.dirty_tiles;
        self.counters.rasterized_tiles = stats.rasterized_tiles;
        self.counters.evicted_tiles = stats.evicted_tiles;
        self.counters.regenerated_tiles = stats.regenerated_tiles;
        self.counters.tile_cache_bytes = stats.persistent_bytes;
        self.counters.scratch_high_water_bytes = stats.scratch_high_water_bytes;
    }
}

impl Default for StrokeTelemetry {
    fn default() -> (telemetry: Self)
        ensures
            telemetry@ == StrokeTelemetrySnapshot::zero(),
    {
        StrokeTelemetry::new()
    }
}

/// Whether an aggregate record is due: logging is on and the latest record is at
/// least a second old.
pub fn log_is_due(enabled: bool, nanos_since_last: Option<u128>) -> (due: bool)
    ensures
        due == (enabled && (nanos_since_last matches Some(elapsed) ==> elapsed >= 1_000_000_000)),
{
    enabled && match nanos_since_last {
        Some(elapsed) => elapsed >= 1_000_000_000,
        None => true,
    }
}

} // verus!
