//! Tile work on the render device: when its memory grows, and what is reported.
use crate::cache::TileRenderFeedback;
use crate::geometry::TileKey;
use crate::upload::{round_up, rounds_up_to};
use vstd::prelude::*;

verus! {

/// State of the device's tile memory between frames.
#[derive(Clone, Copy, Debug)]
pub struct TileDeviceState {
    /// Number of slots that the tile memory holds; none without tile memory.
    pub capacity_slots: Option<u32>,
    /// Tile size and slot limit that were reported last.
    pub reported_capacity: Option<(u32, u32)>,
    /// Whether the recreation of the device is still to be reported.
    pub device_reset_pending: bool,
    /// Whether lost tiles were asked for again.
    pub reset_requested: bool,
    /// Number of replays to be run.
    pub job_count: u32,
    /// Number of tiles to be shown.
    pub instance_count: u32,
    /// Batch that was worked on last.
    pub processed_serial: Option<u64>,
}

/// What a frame asks of the device.
#[derive(Clone, Copy, Debug, PartialEq, Eq, Structural)]
pub struct TileDemand {
    /// Sequence number of the batch.
    pub serial: u64,
    /// Edge length of a tile.
    pub tile_size: u32,
    /// Number of replays.
    pub jobs: u32,
    /// Number of tiles to be shown.
    pub instances: u32,
    /// Number of slots that have to exist.
    pub required_slots: u32,
}

/// What becomes of a frame's tile work.
#[derive(Clone, Copy, Debug, PartialEq, Eq, Structural)]
pub enum TilePreparation {
    /// Nothing can be shown until lost tiles were replayed.
    Wait,
    /// The buffers are filled, but the slots do not fit the device.
    Refuse,
    /// The buffers are filled, and the tile memory suffices.
    Proceed,
    /// The buffers are filled, and the tile memory grows to so many slots.
    Grow(u32),
}

/// Bytes of one slot: four for each pixel.
pub open spec fn slot_size(tile_size: u32) -> nat {
    let edge: nat = if tile_size == 0 { 1 } else { tile_size as nat };
    edge * edge * 4
}

/// Number of slots that fit a binding, at least one.
pub open spec fn slot_limit(tile_size: u32, max_binding: u64) -> u32 {
    let slots = max_binding as int / slot_size(tile_size) as int;
    if slots < 1 {
        1
    } else if slots > u32::MAX {
        u32::MAX
    } else {
        slots as u32
    }
}

impl TileDeviceState {
    /// Nothing exists yet; the new device is still to be reported.
    pub fn new() -> (state: Self)
        ensures
            state == (TileDeviceState {
                capacity_slots: None,
                reported_capacity: None,
                device_reset_pending: true,
                reset_requested: false,
                job_count: 0,
                instance_count: 0,
                processed_serial: None,
            }),
    {
        TileDeviceState {
            capacity_slots: None,
            reported_capacity: None,
            device_reset_pending: true,
            reset_requested: false,
            job_count: 0,
            instance_count: 0,
            processed_serial: None,
        }
    }

    /// Number of slots that the tile memory holds.
    pub open spec fn slots(self) -> int {
        match self.capacity_slots {
            Some(slots) => slots as int,
            None => 0,
        }
    }

    /// Whether tiles are to be shown that the device lost and nobody replays.
    pub open spec fn lacks_content(self, demand: TileDemand) -> bool {
        self.capacity_slots is None && demand.jobs == 0 && demand.instances > 0
    }

    /// Whether a preparation is what the state and the demand ask for.
    pub open spec fn prepares(
        self,
        demand: TileDemand,
        max_binding: u64,
        preparation: TilePreparation,
    ) -> bool {
        let limit = slot_limit(demand.tile_size, max_binding);
        if self.lacks_content(demand) {
            preparation is Wait
        } else if demand.required_slots <= self.slots() {
            preparation is Proceed
        } else if demand.required_slots > limit {
            preparation is Refuse
        } else {
            &&& preparation matches TilePreparation::Grow(slots)
            &&& demand.required_slots <= slots <= limit
            &&& exists|power: nat| #[trigger]
                rounds_up_to(demand.required_slots as nat, power) && slots == (if power < limit {
                    power as int
                } else {
                    limit as int
                })
        }
    }

    /// Whether the recreation of the device is reported, and how often.
    pub open spec fn resets_reported(self, demand: TileDemand) -> nat {
        let first: nat = if self.device_reset_pending { 1 } else { 0 };
        let second: nat = if self.lacks_content(demand) && !self.reset_requested
            && !self.device_reset_pending {
            1
        } else {
            0
        };
        first + second
    }

    /// The state after a preparation.
    pub open spec fn prepared(
        self,
        demand: TileDemand,
        max_binding: u64,
        preparation: TilePreparation,
    ) -> Self {
        let told = TileDeviceState {
            reported_capacity: Some((demand.tile_size, slot_limit(demand.tile_size, max_binding))),
            device_reset_pending: false,
            reset_requested: if preparation is Wait {
                true
            } else if demand.jobs > 0 {
                false
            } else {
                self.reset_requested || self.device_reset_pending
            },
            ..self
        };
        match preparation {
            TilePreparation::Wait => TileDeviceState { instance_count: 0, ..told },
            TilePreparation::Refuse => TileDeviceState {
                job_count: 0,
                instance_count: 0,
                processed_serial: Some(demand.serial),
                ..told
            },
            TilePreparation::Proceed => TileDeviceState {
                job_count: demand.jobs,
                instance_count: if self.capacity_slots is Some { demand.instances } else { 0 },
                ..told
            },
            TilePreparation::Grow(slots) => TileDeviceState {
                capacity_slots: Some(slots),
                job_count: demand.jobs,
                instance_count: demand.instances,
                ..told
            },
        }
    }

    /// Prepares a frame's tile work and says what to report.
    pub fn prepare(&mut self, demand: TileDemand, max_binding: u64) -> (result: (
        TilePreparation,
        Vec<TileRenderFeedback>,
    ))
        requires
            demand.tile_size <= 0x7fff_ffff,
            old(self).lacks_content(demand) || demand.required_slots <= old(self).slots()
                || demand.required_slots <= 0x8000_0000,
        ensures
            old(self).prepares(demand, max_binding, result.0),
            *final(self) == old(self).prepared(demand, max_binding, result.0),
            result.1@ == capacity_report(
                old(self).reported_capacity,
                demand.tile_size,
                slot_limit(demand.tile_size, max_binding),
            ) + Seq::new(
                old(self).resets_reported(demand),
                |i: int| TileRenderFeedback::DeviceReset,
            ),
    {
        let ghost before = *self;
        let mut reports: Vec<TileRenderFeedback> = Vec::new();
        let limit: u32 = limit_of(demand.tile_size, max_binding);
        let known = match self.reported_capacity {
            Some((size, slots)) => size == demand.tile_size && slots == limit,
            None => false,
        };
        if !known {
            reports.push(TileRenderFeedback::Capacity { max_slots: limit });
        }
        self.reported_capacity = Some((demand.tile_size, limit));
        let ghost first = reports@;
        assert(first =~= capacity_report(before.reported_capacity, demand.tile_size, limit));
        if self.device_reset_pending {
            reports.push(TileRenderFeedback::DeviceReset);
            self.device_reset_pending = false;
            self.reset_requested = true;
        }
        if self.capacity_slots.is_none() && demand.jobs == 0 && demand.instances > 0 {
            self.instance_count = 0;
            if !self.reset_requested {
                reports.push(TileRenderFeedback::DeviceReset);
                self.reset_requested = true;
            }
            assert(reports@ =~= first + Seq::new(
                before.resets_reported(demand),
                |i: int| TileRenderFeedback::DeviceReset,
            ));
            return (TilePreparation::Wait, reports);
        }
        assert(reports@ =~= first + Seq::new(
            before.resets_reported(demand),
            |i: int| TileRenderFeedback::DeviceReset,
        ));
        if demand.jobs > 0 {
            self.reset_requested = false;
        }
        let slots: u32 = match self.capacity_slots {
            Some(slots) => slots,
            None => 0,
        };
        let mut preparation = TilePreparation::Proceed;
        if demand.required_slots > slots {
            if demand.required_slots > limit {
                self.job_count = 0;
                self.instance_count = 0;
                self.processed_serial = Some(demand.serial);
                return (TilePreparation::Refuse, reports);
            }
            let power: u64 = round_up(demand.required_slots as u64);
            assert(rounds_up_to(demand.required_slots as nat, power as nat));
            let grown: u32 = if power < limit as u64 { power as u32 } else { limit };
            self.capacity_slots = Some(grown);
            preparation = TilePreparation::Grow(grown);
        }
        self.job_count = demand.jobs;
        self.instance_count = if self.capacity_slots.is_some() { demand.instances } else { 0 };
        (preparation, reports)
    }

    /// What becomes of the replays of a batch.
    pub open spec fn dispatches(self, serial: u64, tile_size: u32, ready: bool) -> TileDispatch {
        if self.processed_serial == Some(serial) || self.job_count == 0 {
            TileDispatch::Skip
        } else if !ready {
            TileDispatch::Retry
        } else {
            TileDispatch::Run { workgroups: workgroups_for(tile_size), jobs: self.job_count }
        }
    }

    /// The state after the replays of a batch were dealt with.
    pub open spec fn processed(self, serial: u64) -> Self {
        TileDeviceState { processed_serial: Some(serial), ..self }
    }

    /// Decides whether the replays of a batch run: once, and only where there are
    /// any and pipeline and bindings are at hand.
    pub fn dispatch(&mut self, serial: u64, tile_size: u32, ready: bool) -> (dispatch: TileDispatch)
        ensures
            *final(self) == old(self).processed(serial),
            dispatch == old(self).dispatches(serial, tile_size, ready),
    {
        let done = match self.processed_serial {
            Some(processed) => processed == serial,
            None => false,
        };
        self.processed_serial = Some(serial);
        if done || self.job_count == 0 {
            TileDispatch::Skip
        } else if !ready {
            TileDispatch::Retry
        } else {
            let edge: u64 = if tile_size == 0 { 1 } else { tile_size as u64 };
            TileDispatch::Run { workgroups: ((edge + 7) / 8) as u32, jobs: self.job_count }
        }
    }
}

/// Capacity report, where tile size or slot limit changed since the latest one.
pub open spec fn capacity_report(
    reported: Option<(u32, u32)>,
    tile_size: u32,
    limit: u32,
) -> Seq<TileRenderFeedback> {
    if reported == Some((tile_size, limit)) {
        Seq::empty()
    } else {
        seq![TileRenderFeedback::Capacity { max_slots: limit }]
    }
}

fn limit_of(tile_size: u32, max_binding: u64) -> (limit: u32)
    requires
        tile_size <= 0x7fff_ffff,
    ensures
        limit == slot_limit(tile_size, max_binding),
{
    let edge: u64 = if tile_size == 0 { 1 } else { tile_size as u64 };
    proof {
        assert(edge * edge <= 0x7fff_ffff * 0x7fff_ffff) by (nonlinear_arith)
            requires
                1 <= edge <= 0x7fff_ffff,
        ;
        assert(edge * edge >= 1) by (nonlinear_arith)
            requires
                1 <= edge,
        ;
    }
    let bytes: u64 = edge * edge * 4;
    let slots: u64 = max_binding / bytes;
    if slots < 1 {
        1
    } else if slots > u32::MAX as u64 {
        u32::MAX
    } else {
        slots as u32
    }
}

/// Whether the replays of a batch run.
#[derive(Clone, Copy, Debug, PartialEq, Eq, Structural)]
pub enum TileDispatch {
    /// There is nothing to do.
    Skip,
    /// The replays have to be tried again.
    Retry,
    /// The replays run.
    Run {
        /// Work groups along each edge of a tile.
        workgroups: u32,
        /// Number of tiles.
        jobs: u32,
    },
}

/// Work groups of eight pixels that cover the edge of a tile.
pub open spec fn workgroups_for(tile_size: u32) -> u32 {
    let edge = if tile_size == 0 { 1 } else { tile_size as int };
    ((edge + 7) / 8) as u32
}

/// Reports that each listed tile was rasterized.
pub fn completion_reports(tiles: &Vec<(TileKey, u64)>) -> (reports: Vec<TileRenderFeedback>)
    ensures
        reports@ == tiles@.map_values(
            |tile: (TileKey, u64)| TileRenderFeedback::Complete { key: tile.0, revision: tile.1 },
        ),
{
    let mut reports: Vec<TileRenderFeedback> = Vec::new();
    let ghost all = tiles@.map_values(
        |tile: (TileKey, u64)| TileRenderFeedback::Complete { key: tile.0, revision: tile.1 },
    );
    for i in 0..tiles.len()
        invariant
            all == tiles@.map_values(
                |tile: (TileKey, u64)|
                    TileRenderFeedback::Complete { key: tile.0, revision: tile.1 },
            ),
            reports@ == all.take(i as int),
    {
        reports.push(TileRenderFeedback::Complete { key: tiles[i].0, revision: tiles[i].1 });
        assert(reports@ =~= all.take(i + 1));
    }
    assert(all.take(all.len() as int) =~= all);
    reports
}

/// Reports that each listed tile has to be tried again.
pub fn retry_reports(tiles: &Vec<(TileKey, u64)>) -> (reports: Vec<TileRenderFeedback>)
    ensures
        reports@ == tiles@.map_values(
            |tile: (TileKey, u64)| TileRenderFeedback::Retry { key: tile.0, revision: tile.1 },
        ),
{
    let mut reports: Vec<TileRenderFeedback> = Vec::new();
    let ghost all = tiles@.map_values(
        |tile: (TileKey, u64)| TileRenderFeedback::Retry { key: tile.0, revision: tile.1 },
    );
    for i in 0..tiles.len()
        invariant
            all == tiles@.map_values(
                |tile: (TileKey, u64)|
                    TileRenderFeedback::Retry { key: tile.0, revision: tile.1 },
            ),
            reports@ == all.take(i as int),
    {
        reports.push(TileRenderFeedback::Retry { key: tiles[i].0, revision: tiles[i].1 });
        assert(reports@ =~= all.take(i + 1));
    }
    assert(all.take(all.len() as int) =~= all);
    reports
}

/// Reports that each listed tile was shown.
pub fn presentation_reports(tiles: &Vec<(TileKey, u64)>) -> (reports: Vec<TileRenderFeedback>)
    ensures
        reports@ == tiles@.map_values(
            |tile: (TileKey, u64)| TileRenderFeedback::Presented { key: tile.0, revision: tile.1 },
        ),
{
    let mut reports: Vec<TileRenderFeedback> = Vec::new();
    let ghost all = tiles@.map_values(
        |tile: (TileKey, u64)| TileRenderFeedback::Presented { key: tile.0, revision: tile.1 },
    );
    for i in 0..tiles.len()
        invariant
            all == tiles@.map_values(
                |tile: (TileKey, u64)|
                    TileRenderFeedback::Presented { key: tile.0, revision: tile.1 },
            ),
            reports@ == all.take(i as int),
    {
        reports.push(TileRenderFeedback::Presented { key: tiles[i].0, revision: tiles[i].1 });
        assert(reports@ =~= all.take(i + 1));
    }
    assert(all.take(all.len() as int) =~= all);
    reports
}

/// A batch that was dealt with or refused is not run again.
pub proof fn law_batches_run_once(
    state: TileDeviceState,
    demand: TileDemand,
    max_binding: u64,
    tile_size: u32,
    ready: bool,
)
    ensures
        state.processed(demand.serial).dispatches(demand.serial, tile_size, ready) is Skip,
        state.prepared(demand, max_binding, TilePreparation::Refuse).dispatches(
            demand.serial,
            tile_size,
            ready,
        ) is Skip,
{
}

/// Lost tiles are asked for once: while nothing is replayed, no later frame
/// reports the loss again.
pub proof fn law_lost_tiles_are_asked_for_once(
    state: TileDeviceState,
    first: TileDemand,
    second: TileDemand,
    max_binding: u64,
)
    requires
        state.lacks_content(first),
        state.lacks_content(second),
    ensures
        state.resets_reported(first) <= 1,
        ({
            let after = state.prepared(first, max_binding, TilePreparation::Wait);
            after.lacks_content(second) && after.resets_reported(second) == 0
        }),
{
}

/// After a preparation that goes ahead, the tile memory holds every slot that the
/// frame needs, and never more than the device's limit unless it did before.
pub proof fn law_prepared_memory_suffices(
    state: TileDeviceState,
    demand: TileDemand,
    max_binding: u64,
    preparation: TilePreparation,
)
    requires
        state.prepares(demand, max_binding, preparation),
        preparation is Proceed || preparation is Grow,
    ensures
        ({
            let after = state.prepared(demand, max_binding, preparation);
            &&& demand.required_slots <= after.slots()
            &&& after.slots() <= slot_limit(demand.tile_size, max_binding) || after.slots()
                == state.slots()
            &&& state.slots() <= after.slots()
        }),
{
}

} // verus!
