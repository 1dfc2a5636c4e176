//! Descriptor-driven persistent tile allocator and bounded replay scheduler.
use crate::cache::{
    display_rank, pending, replay_of, replayed_in, residents, saturated, tile_replay, tiles_in_view,
    waiting, wanted, BatchModel, CacheModel, JobModel, ReplayModel, TileCacheState, TileCacheStats,
    TileDisplayInstance, TileRecord, TileRenderFeedback,
};
use crate::cache_steps::{
    lemma_accounted, lemma_configured, lemma_dispatched, lemma_fill_step, lemma_filled,
    lemma_first_wanted_is, lemma_informed, lemma_invalidated, lemma_looked_at, lemma_rank_known,
    lemma_reset, lemma_searched, lemma_seen, lemma_slotted, lemma_unseen, lemma_victim_is,
};
use crate::document::StrokeDocument;
use crate::geometry::{
    halo_fits, lemma_rank_injective, neighbor_halo, tiles_for_span, TileKey, TileSpan,
};
use crate::layers::{has_layer, layer_position, lemma_layer_position};
use crate::ordered::{lists, ordered_keys};
use crate::paint::{
    DepositionMode, PaintMaterialId, PaintModelDescriptor, PaintModelId, PaintPlaneDescriptor,
};
use crate::scratch::ScratchPlanePool;
use crate::spatial::{entry_models, TileEntryModel};
use crate::state::DocumentModel;
use crate::strokes::{layer_models, stroke_models, TileInvalidation, TileInvalidationCause};
use crate::surface::{lemma_fewer_tiles_fit, model_layout, planes_fit, tile_edge, TileSurfaceLayout};
use std::collections::{BTreeMap, BTreeSet, VecDeque};
use vstd::prelude::*;

verus! {

broadcast use vstd::laws_cmp::group_laws_cmp;

/// One strict-order stroke replay record used by the compute backend.
#[derive(Clone, Debug)]
pub struct TileReplayStroke {
    /// Segments of the stroke that reach the tile.
    pub segment_indices: Vec<u32>,
    /// Material that the stroke deposits.
    pub material: PaintMaterialId,
    /// Model that owns the material.
    pub model: PaintModelId,
    /// Whether the stroke adds or removes material.
    pub deposition: DepositionMode,
}

impl View for TileReplayStroke {
    type V = ReplayModel;

    open spec fn view(&self) -> ReplayModel {
        ReplayModel {
            segment_indices: self.segment_indices@,
            material: self.material,
            model: self.model,
            deposition: self.deposition,
        }
    }
}

/// The replay records of a list, as values.
pub open spec fn replay_models(replay: Seq<TileReplayStroke>) -> Seq<ReplayModel> {
    replay.map_values(|stroke: TileReplayStroke| stroke@)
}

/// Complete regeneration request for a single tile.
#[derive(Clone, Debug)]
pub struct TileRasterJob {
    /// The tile.
    pub key: TileKey,
    /// Slot that receives its content.
    pub slot: u32,
    /// Revision that the content will have.
    pub revision: u64,
    /// Strokes to replay, in document order.
    pub replay: Vec<TileReplayStroke>,
    /// Neighboring tiles that effects read.
    pub halo: Vec<TileKey>,
}

impl View for TileRasterJob {
    type V = JobModel;

    open spec fn view(&self) -> JobModel {
        JobModel {
            key: self.key,
            slot: self.slot,
            revision: self.revision,
            replay: replay_models(self.replay@),
            halo: self.halo@,
        }
    }
}

/// The jobs of a list, as values.
pub open spec fn job_models(jobs: Seq<TileRasterJob>) -> Seq<JobModel> {
    jobs.map_values(|job: TileRasterJob| job@)
}

/// Immutable per-frame handoff from the tile scheduler to extraction.
#[derive(Clone, Debug)]
pub struct TileWorkBatch {
    /// Sequence number of the batch.
    pub serial: u64,
    /// Edge length of a tile.
    pub tile_size: u32,
    /// Tiles to regenerate.
    pub jobs: Vec<TileRasterJob>,
    /// Tiles to show, in display order.
    pub display: Vec<TileDisplayInstance>,
}

impl View for TileWorkBatch {
    type V = BatchModel;

    open spec fn view(&self) -> BatchModel {
        BatchModel {
            serial: self.serial,
            tile_size: self.tile_size,
            jobs: job_models(self.jobs@),
            display: self.display@,
        }
    }
}

impl TileWorkBatch {
    /// Creates an empty batch.
    pub fn new() -> (batch: Self)
        ensures
            batch@ == CacheModel::initial().batch,
    {
        let batch = TileWorkBatch { serial: 0, tile_size: 0, jobs: Vec::new(), display: Vec::new() };
        assert(batch@.jobs =~= Seq::<JobModel>::empty());
        batch
    }
}

/// Descriptor-driven persistent tile allocator and bounded replay scheduler.
#[derive(Debug)]
pub struct CanvasTileCache {
    document_generation: Option<u64>,
    layout: Option<TileSurfaceLayout>,
    budget_bytes: u64,
    records: BTreeMap<u128, TileRecord>,
    dirty: VecDeque<TileKey>,
    queued: BTreeSet<u128>,
    next_slot: u32,
    slot_limit: u32,
    frame: u64,
    batch: TileWorkBatch,
    stats: TileCacheStats,
    scratch_pool: ScratchPlanePool,
}

impl View for CanvasTileCache {
    type V = CacheModel;

    closed spec fn view(&self) -> CacheModel {
        CacheModel {
            document_generation: self.document_generation,
            layout: match self.layout {
                Some(layout) => Some(layout@),
                None => None,
            },
            budget: self.budget_bytes,
            records: self.records@,
            dirty: self.dirty@,
            next_slot: self.next_slot,
            slot_limit: self.slot_limit,
            frame: self.frame,
            batch: self.batch@,
            stats: self.stats,
            scratch: self.scratch_pool@,
        }
    }
}

impl CanvasTileCache {
    /// Whether the set of queued ranks mirrors the queue.
    closed spec fn queue_mirrored(&self) -> bool {
        forall|key: TileKey|
            self.queued@.contains(#[trigger] key.spec_rank()) <==> self.dirty@.contains(key)
    }

    /// Records, queue, slots and counters agree with each other.
    pub closed spec fn well_formed(&self) -> bool {
        self@.well_formed() && self.queue_mirrored()
    }

    /// A well-formed cache has a well-formed value.
    pub proof fn lemma_value_well_formed(&self)
        requires
            self.well_formed(),
        ensures
            self@.well_formed(),
    {
    }

    /// Creates a cache without a layout.
    pub fn new() -> (cache: Self)
        ensures
            cache.well_formed(),
            cache@ == CacheModel::initial(),
    {
        let cache = CanvasTileCache {
            document_generation: None,
            layout: None,
            budget_bytes: 268435456,
            records: BTreeMap::new(),
            dirty: VecDeque::new(),
            queued: BTreeSet::new(),
            next_slot: 0,
            slot_limit: u32::MAX,
            frame: 0,
            batch: TileWorkBatch::new(),
            stats: TileCacheStats::zero(),
            scratch_pool: ScratchPlanePool::with_budget(268435456),
        };
        proof {
            assert(residents(cache@.records) =~= Set::<u128>::empty());
            assert(cache@ =~= CacheModel::initial());
        }
        cache
    }

    /// Current descriptor-derived surface layout.
    pub fn layout(&self) -> (layout: Option<&TileSurfaceLayout>)
        ensures
            match layout {
                Some(found) => self@.layout == Some(found@),
                None => self@.layout is None,
            },
    {
        self.layout.as_ref()
    }

    /// Aggregate allocator and replay counters.
    pub fn stats(&self) -> (stats: TileCacheStats)
        ensures
            stats == self@.stats,
    {
        self.stats
    }

    /// Current state for a logical tile.
    pub fn tile_state(&self, key: TileKey) -> (state: Option<TileCacheState>)
        ensures
            state == (if self@.records.contains_key(key.spec_rank()) {
                Some(self@.records[key.spec_rank()].state)
            } else {
                None
            }),
    {
        match self.records.get(&key.rank()) {
            Some(record) => Some(record.state),
            None => None,
        }
    }

    /// Work of the latest scheduling pass.
    pub fn batch(&self) -> (batch: &TileWorkBatch)
        ensures
            batch@ == self@.batch,
    {
        &self.batch
    }

    /// Geometry generation of the document that the records belong to.
    pub fn document_generation(&self) -> (generation: Option<u64>)
        ensures
            generation == self@.document_generation,
    {
        self.document_generation
    }

    /// Notes to which geometry generation the records belong.
    pub fn set_document_generation(&mut self, generation: u64)
        requires
            old(self).well_formed(),
        ensures
            final(self).well_formed(),
            final(self)@ == (CacheModel {
                document_generation: Some(generation),
                ..old(self)@
            }),
    {
        self.document_generation = Some(generation);
    }

    /// Forgets all tiles.
    pub fn reset_records(&mut self)
        requires
            old(self).well_formed(),
        ensures
            final(self).well_formed(),
            final(self)@ == old(self)@.reset(),
    {
        let ghost before = self@;
        self.records.clear();
        self.dirty.clear();
        self.queued.clear();
        self.next_slot = 0;
        self.batch.jobs.clear();
        self.batch.display.clear();
        self.stats.resident_tiles = 0;
        self.stats.persistent_bytes = 0;
        proof {
            assert(self@.batch.jobs =~= Seq::<JobModel>::empty());
            assert(self@ =~= before.reset());
            lemma_reset(before);
        }
    }

    /// Adopts the layout of a paint model and a memory limit; forgets all tiles
    /// and says so where either changed.
    pub fn configure(
        &mut self,
        descriptor: &PaintModelDescriptor,
        tile_size: u32,
        budget_bytes: u64,
    ) -> (changed: bool)
        requires
            old(self).well_formed(),
            planes_fit(descriptor.persistent_planes@, tile_edge(tile_size), 1),
        ensures
            final(self).well_formed(),
            ({
                let layout = model_layout(
                    descriptor.id,
                    descriptor.version,
                    descriptor.persistent_planes@,
                    tile_size,
                );
                &&& final(self)@ == old(self)@.configured(layout, budget_bytes)
                &&& changed == !(old(self)@.layout == Some(layout) && old(self)@.budget
                    == budget_bytes)
            }),
    {
        let ghost before = self@;
        let layout = TileSurfaceLayout::from_model(descriptor, tile_size);
        let ghost wanted_layout = layout@;
        let same = match &self.layout {
            Some(current) => current.same_as(&layout),
            None => false,
        };
        if same && self.budget_bytes == budget_bytes {
            return false;
        }
        proof {
            lemma_configured(before, wanted_layout, budget_bytes);
        }
        self.reset_records();
        self.layout = Some(layout);
        self.budget_bytes = budget_bytes;
        self.scratch_pool = ScratchPlanePool::with_budget(budget_bytes);
        proof {
            assert(self@ =~= before.configured(wanted_layout, budget_bytes));
        }
        true
    }

    /// Queues a tile once.
    fn enqueue(&mut self, key: TileKey)
        requires
            old(self).queue_mirrored(),
        ensures
            final(self).queue_mirrored(),
            final(self)@ == old(self)@.enqueued(key),
    {
        let ghost before = *self;
        if self.queued.insert(key.rank()) {
            self.dirty.push_back(key);
            proof {
                assert forall|other: TileKey|
                    self.queued@.contains(#[trigger] other.spec_rank())
                        <==> self.dirty@.contains(other) by {
                    if other.spec_rank() == key.spec_rank() {
                        lemma_rank_injective(other, key);
                        assert(self.dirty@[before.dirty@.len() as int] == key);
                    } else if before.dirty@.contains(other) {
                        let i = choose|i: int|
                            0 <= i < before.dirty@.len() && before.dirty@[i] == other;
                        assert(self.dirty@[i] == other);
                    }
                    if self.dirty@.contains(other) && other != key {
                        let i = choose|i: int|
                            0 <= i < self.dirty@.len() && self.dirty@[i] == other;
                        assert(before.dirty@[i] == other);
                    }
                }
                assert(!before.dirty@.contains(key));
            }
        } else {
            proof {
                assert(before.queued@.contains(key.spec_rank()));
                assert(self.queued@ =~= before.queued@);
            }
        }
    }

    /// Takes in one invalidation of the document.
    pub fn invalidate(&mut self, invalidation: TileInvalidation)
        requires
            old(self).well_formed(),
            halo_fits(invalidation.key, invalidation.halo_radius_px, old(self)@.tile_size()),
        ensures
            final(self).well_formed(),
            final(self)@ == old(self)@.invalidated(invalidation),
    {
        let ghost before = self@;
        proof {
            lemma_invalidated(before, invalidation);
            lemma_rank_known(before, invalidation.key);
        }
        match invalidation.cause {
            TileInvalidationCause::StrokeCommit => {
                self.stats.stroke_invalidations = self.stats.stroke_invalidations.wrapping_add(1);
            },
            TileInvalidationCause::EffectDependency => {
                if invalidation.halo_radius_px > 0 {
                    self.stats.effect_expanded_invalidations =
                    self.stats.effect_expanded_invalidations.wrapping_add(1);
                }
            },
            _ => {},
        }
        let rank: u128 = invalidation.key.rank();
        let mut record = match self.records.get(&rank) {
            Some(known) => *known,
            None => TileRecord {
                key: invalidation.key,
                state: TileCacheState::Dirty,
                desired_revision: invalidation.revision,
                display_revision: None,
                presented_revision: None,
                display_allowed: false,
                slot: None,
                visible: false,
                last_visible_frame: 0,
                halo_radius_px: invalidation.halo_radius_px,
                was_evicted: false,
            },
        };
        if invalidation.revision >= record.desired_revision {
            record.desired_revision = invalidation.revision;
            record.state = TileCacheState::Dirty;
            record.halo_radius_px = invalidation.halo_radius_px;
            record.display_allowed = record.display_allowed && invalidation.allow_stale_display;
        }
        self.records.insert(rank, record);
        self.enqueue(invalidation.key);
        assert(self@ =~= before.invalidated(invalidation));
    }

    /// Takes in a list of invalidations, in order.
    pub fn invalidate_all(&mut self, list: &Vec<TileInvalidation>)
        requires
            old(self).well_formed(),
            forall|i: int|
                0 <= i < list@.len() ==> halo_fits(
                    (#[trigger] list@[i]).key,
                    list@[i].halo_radius_px,
                    old(self)@.tile_size(),
                ),
        ensures
            final(self).well_formed(),
            final(self)@ == old(self)@.invalidated_by(list@, list@.len()),
            final(self)@.layout == old(self)@.layout,
    {
        let ghost before = self@;
        for i in 0..list.len()
            invariant
                self.well_formed(),
                self@ == before.invalidated_by(list@, i as nat),
                self@.layout == before.layout,
                forall|j: int|
                    0 <= j < list@.len() ==> halo_fits(
                        (#[trigger] list@[j]).key,
                        list@[j].halo_radius_px,
                        before.tile_size(),
                    ),
        {
            proof {
                lemma_invalidated(self@, list@[i as int]);
            }
            self.invalidate(list[i]);
        }
    }

    /// Takes in reports of the render side, in order; says whether one of them
    /// was that the device was recreated.
    pub fn apply_feedback(&mut self, reports: &Vec<TileRenderFeedback>) -> (device_reset: bool)
        requires
            old(self).well_formed(),
        ensures
            final(self).well_formed(),
            final(self)@ == old(self)@.informed_by(reports@, reports@.len()),
            device_reset == reports@.contains(TileRenderFeedback::DeviceReset),
    {
        let ghost before = self@;
        let mut device_reset = false;
        for i in 0..reports.len()
            invariant
                self.well_formed(),
                self@ == before.informed_by(reports@, i as nat),
                device_reset <==> exists|j: int|
                    0 <= j < i && (#[trigger] reports@[j]) is DeviceReset,
        {
            match reports[i] {
                TileRenderFeedback::DeviceReset => {
                    device_reset = true;
                },
                _ => {},
            }
            self.apply_report(reports[i]);
        }
        proof {
            if device_reset {
                let j = choose|j: int|
                    0 <= j < reports@.len() && (#[trigger] reports@[j]) is DeviceReset;
                assert(reports@[j] == TileRenderFeedback::DeviceReset);
            }
        }
        device_reset
    }

    fn apply_report(&mut self, report: TileRenderFeedback)
        requires
            old(self).well_formed(),
        ensures
            final(self).well_formed(),
            final(self)@ == old(self)@.informed(report),
    {
        let ghost before = self@;
        proof {
            lemma_informed(before, report);
        }
        match report {
            TileRenderFeedback::Complete { key, revision } => {
                proof {
                    lemma_rank_known(before, key);
                }
                let rank: u128 = key.rank();
                let known = match self.records.get(&rank) {
                    Some(record) => Some(*record),
                    None => None,
                };
                if let Some(mut record) = known {
                    if record.desired_revision == revision && record.state
                        == TileCacheState::Scheduled {
                        record.state = TileCacheState::Ready;
                        record.display_revision = Some(revision);
                        record.display_allowed = true;
                        self.stats.rasterized_tiles = self.stats.rasterized_tiles.wrapping_add(1);
                        if record.was_evicted {
                            record.was_evicted = false;
                            self.stats.regenerated_tiles =
                            self.stats.regenerated_tiles.wrapping_add(1);
                        }
                        self.records.insert(rank, record);
                    }
                }
            },
            TileRenderFeedback::Presented { key, revision } => {
                proof {
                    lemma_rank_known(before, key);
                }
                let rank: u128 = key.rank();
                let known = match self.records.get(&rank) {
                    Some(record) => Some(*record),
                    None => None,
                };
                if let Some(mut record) = known {
                    let current = match record.display_revision {
                        Some(display) => display >= revision,
                        None => false,
                    };
                    if record.desired_revision == revision && record.state == TileCacheState::Ready
                        && current {
                        record.presented_revision = match record.presented_revision {
                            Some(earlier) => Some(
                                if revision < earlier { earlier } else { revision },
                            ),
                            None => Some(revision),
                        };
                        self.records.insert(rank, record);
                    }
                }
            },
            TileRenderFeedback::Retry { key, revision } => {
                proof {
                    lemma_rank_known(before, key);
                }
                let rank: u128 = key.rank();
                let known = match self.records.get(&rank) {
                    Some(record) => Some(*record),
                    None => None,
                };
                if let Some(mut record) = known {
                    if record.desired_revision == revision {
                        record.state = TileCacheState::Dirty;
                        self.records.insert(rank, record);
                        self.enqueue(key);
                    }
                }
            },
            TileRenderFeedback::DeviceReset => {},
            TileRenderFeedback::Capacity { max_slots } => {
                self.slot_limit = if max_slots == 0 { 1 } else { max_slots };
            },
        }
        assert(self@ =~= before.informed(report));
    }

    /// Whether a tile serves a document revision.
    pub fn tile_is_ready(&self, key: TileKey, revision: u64) -> (ready: bool)
        ensures
            ready == self@.tile_ready(key, revision),
    {
        match self.records.get(&key.rank()) {
            None => false,
            Some(record) => {
                let current = match record.display_revision {
                    Some(display) => display >= revision,
                    None => false,
                };
                record.state == TileCacheState::Ready && record.display_allowed
                    && record.slot.is_some() && current
            },
        }
    }
}

/// Whether a rank is among the first `count` of a listing.
spec fn among(ranks: Seq<u128>, count: int, rank: u128) -> bool {
    exists|j: int| 0 <= j < count && j < ranks.len() && ranks[j] == rank
}

/// One more rank of an ascending listing joins those seen so far.
proof fn lemma_among_next(ranks: Seq<u128>, set: Set<u128>, count: int)
    requires
        lists(ranks, set),
        0 <= count < ranks.len(),
    ensures
        set.contains(ranks[count]),
        !among(ranks, count, ranks[count]),
        forall|rank: u128| #[trigger]
            among(ranks, count + 1, rank) <==> among(ranks, count, rank) || rank == ranks[count],
{
    assert(ranks.contains(ranks[count]));
    if among(ranks, count, ranks[count]) {
        let j = choose|j: int| 0 <= j < count && j < ranks.len() && ranks[j] == ranks[count];
        assert(ranks[j] < ranks[count]);
    }
    assert forall|rank: u128| #[trigger]
        among(ranks, count + 1, rank) <==> among(ranks, count, rank) || rank == ranks[count] by {
        if among(ranks, count, rank) {
            let j = choose|j: int| 0 <= j < count && j < ranks.len() && ranks[j] == rank;
            assert(ranks[j] == rank);
        }
        if among(ranks, count + 1, rank) && rank != ranks[count] {
            let j = choose|j: int| 0 <= j < count + 1 && j < ranks.len() && ranks[j] == rank;
            assert(ranks[j] == rank && j < count);
        }
    }
}

/// A complete listing holds every member.
proof fn lemma_among_all(ranks: Seq<u128>, set: Set<u128>)
    requires
        lists(ranks, set),
    ensures
        forall|rank: u128| #[trigger] among(ranks, ranks.len() as int, rank) <==> set.contains(rank),
{
    assert forall|rank: u128| #[trigger]
        among(ranks, ranks.len() as int, rank) <==> set.contains(rank) by {
        if set.contains(rank) {
            let j = choose|j: int| 0 <= j < ranks.len() && ranks[j] == rank;
            assert(ranks[j] == rank);
        }
        if among(ranks, ranks.len() as int, rank) {
            let j = choose|j: int| 0 <= j < ranks.len() && ranks[j] == rank;
            assert(ranks.contains(ranks[j]));
        }
    }
}

/// Number of records that hold a slot.
fn count_residents(records: &BTreeMap<u128, TileRecord>) -> (count: u64)
    ensures
        count == residents(records@).len(),
{
    let ranks = ordered_keys(records);
    let ghost mut found: Set<u128> = Set::empty();
    let mut count: u64 = 0;
    for i in 0..ranks.len()
        invariant
            lists(ranks@, records@.dom()),
            count <= i,
            found.finite(),
            found.len() == count,
            forall|rank: u128| #[trigger]
                found.contains(rank) <==> among(ranks@, i as int, rank) && residents(
                    records@,
                ).contains(rank),
    {
        proof {
            lemma_among_next(ranks@, records@.dom(), i as int);
        }
        if let Some(record) = records.get(&ranks[i]) {
            if record.slot.is_some() {
                count = count + 1;
                proof {
                    found = found.insert(ranks@[i as int]);
                }
            }
        }
    }
    proof {
        lemma_among_all(ranks@, records@.dom());
        assert(found =~= residents(records@));
    }
    count
}

/// Number of records that await replay or its completion.
fn count_pending(records: &BTreeMap<u128, TileRecord>) -> (count: u64)
    ensures
        count == pending(records@).len(),
{
    let ranks = ordered_keys(records);
    let ghost mut found: Set<u128> = Set::empty();
    let mut count: u64 = 0;
    for i in 0..ranks.len()
        invariant
            lists(ranks@, records@.dom()),
            count <= i,
            found.finite(),
            found.len() == count,
            forall|rank: u128| #[trigger]
                found.contains(rank) <==> among(ranks@, i as int, rank) && pending(
                    records@,
                ).contains(rank),
    {
        proof {
            lemma_among_next(ranks@, records@.dom(), i as int);
        }
        if let Some(record) = records.get(&ranks[i]) {
            if record.state == TileCacheState::Dirty || record.state == TileCacheState::Scheduled {
                count = count + 1;
                proof {
                    found = found.insert(ranks@[i as int]);
                }
            }
        }
    }
    proof {
        lemma_among_all(ranks@, records@.dom());
        assert(found =~= pending(records@));
    }
    count
}

/// A product kept within 64 bits.
fn saturated_product(a: u64, b: u64) -> (product: u64)
    ensures
        product == saturated(a as nat * b as nat),
{
    assert(a * b >= 0) by (nonlinear_arith)
        requires
            a >= 0,
            b >= 0,
    ;
    match a.checked_mul(b) {
        Some(product) => product,
        None => u64::MAX,
    }
}

/// Copies segment numbers.
fn copy_segments(segments: &Vec<u32>) -> (copy: Vec<u32>)
    ensures
        copy@ == segments@,
{
    let mut copy: Vec<u32> = Vec::new();
    for i in 0..segments.len()
        invariant
            copy@ == segments@.take(i as int),
    {
        copy.push(segments[i]);
        assert(copy@ =~= segments@.take(i + 1));
    }
    assert(segments@.take(segments@.len() as int) =~= segments@);
    copy
}

/// Replay records of a tile, in document order.
pub fn replay_for_tile(document: &StrokeDocument, key: TileKey) -> (replay: Vec<TileReplayStroke>)
    requires
        document.well_formed(),
    ensures
        replay_models(replay@) == tile_replay(document@, key),
{
    let mut replay: Vec<TileReplayStroke> = Vec::new();
    let ghost keep = replayed_in(document@);
    let ghost make = replay_of(document@);
    let ghost entries = document@.tile_entries(key);
    let strokes = document.strokes();
    match document.tile_strokes(key) {
        None => {
            proof {
                assert(entries =~= Seq::<TileEntryModel>::empty());
                reveal(Seq::filter);
                assert(replay_models(replay@) =~= tile_replay(document@, key));
            }
        },
        Some(list) => {
            proof {
                reveal(Seq::filter);
                assert(entries.take(0).filter(keep).map_values(make) =~= Seq::<
                    ReplayModel,
                >::empty());
                assert(replay_models(replay@) =~= Seq::<ReplayModel>::empty());
            }
            for k in 0..list.len()
                invariant
                    document.well_formed(),
                    keep == replayed_in(document@),
                    make == replay_of(document@),
                    entries == document@.tile_entries(key),
                    entry_models(list@) == entries,
                    document@.index.contains_key(key.spec_rank()),
                    stroke_models(strokes@) == document@.strokes,
                    replay_models(replay@) == entries.take(k as int).filter(keep).map_values(make),
            {
                let ghost earlier = replay@;
                let entry = &list[k];
                assert(entry_models(list@)[k as int] == entry@);
                assert(document@.index[key.spec_rank()][k as int] == entry@);
                let stroke = &strokes[entry.stroke_index];
                assert(stroke_models(strokes@)[entry.stroke_index as int] == stroke@);
                proof {
                    let longer = entries.take(k + 1);
                    assert(longer.drop_last() =~= entries.take(k as int));
                    assert(longer.last() == entry@);
                    reveal(Seq::filter);
                }
                if stroke.visible && stroke.complete {
                    let stroke_replay = TileReplayStroke {
                        segment_indices: copy_segments(&entry.segments),
                        material: stroke.brush.paint.material,
                        model: stroke.brush.paint.model,
                        deposition: stroke.brush.deposition,
                    };
                    assert(stroke_replay@ == make(entry@));
                    replay.push(stroke_replay);
                    proof {
                        assert(replay_models(replay@) =~= replay_models(earlier).push(
                            make(entry@),
                        ));
                        assert(entries.take(k + 1).filter(keep).map_values(make)
                            =~= entries.take(k as int).filter(keep).map_values(make).push(
                            make(entry@),
                        ));
                    }
                }
            }
            assert(entries.take(entries.len() as int) =~= entries);
        },
    }
    replay
}

impl CanvasTileCache {
    /// Marks the tiles of a view, and takes up or queues again those that need it.
    ///
    /// `view` is the span of tiles that cameras show, where any does.
    pub fn update_visibility(&mut self, document: &StrokeDocument, view: Option<TileSpan>)
        requires
            old(self).well_formed(),
            document.well_formed(),
        ensures
            final(self).well_formed(),
            final(self)@ == old(self)@.looked_at(document@, view),
    {
        let ghost before = self@;
        proof {
            lemma_looked_at(before, document@, view);
            lemma_unseen(before);
        }
        self.hide_tiles();
        let span = match view {
            Some(span) => span,
            None => {
                return;
            },
        };
        if self.layout.is_none() {
            return;
        }
        let ghost unseen = self@;
        let ghost models = document@.layers;
        let layers = document.layers();
        proof {
            assert(models.take(0) =~= Seq::<crate::strokes::LayerModel>::empty());
        }
        for n in 0..layers.len()
            invariant
                self.well_formed(),
                document.well_formed(),
                models == document@.layers,
                layer_models(layers@) == models,
                ({
                    let keys = tiles_in_view(models.take(n as int), span);
                    self@ == unseen.seen_all(document@, keys, keys.len())
                }),
        {
            assert(layer_models(layers@)[n as int] == layers@[n as int]@);
            let ghost earlier = tiles_in_view(models.take(n as int), span);
            let ghost later = tiles_in_view(models.take(n + 1), span);
            proof {
                assert(models.take(n + 1).drop_last() =~= models.take(n as int));
            }
            if layers[n].visible {
                let tiles = tiles_for_span(span, layers[n].id);
                assert(later =~= earlier + tiles@);
                proof {
                    lemma_seen_prefix(unseen, document@, earlier, later, earlier.len());
                }
                for t in 0..tiles.len()
                    invariant
                        self.well_formed(),
                        document.well_formed(),
                        later == earlier + tiles@,
                        self@ == unseen.seen_all(document@, later, earlier.len() + t as nat),
                {
                    assert(later[earlier.len() + t] == tiles@[t as int]);
                    self.see(document, tiles[t]);
                }
            }
        }
        assert(models.take(models.len() as int) =~= models);
    }

    /// Begins a frame in which no tile is in view yet.
    fn hide_tiles(&mut self)
        requires
            old(self).well_formed(),
        ensures
            final(self).well_formed(),
            final(self)@ == old(self)@.unseen(),
    {
        let ghost before = self@;
        proof {
            lemma_unseen(before);
        }
        self.frame = self.frame.wrapping_add(1);
        let ranks = ordered_keys(&self.records);
        for i in 0..ranks.len()
            invariant
                lists(ranks@, before.records.dom()),
                self@ == (CacheModel {
                    frame: before.frame.wrapping_add(1),
                    records: self@.records,
                    ..before
                }),
                self.queue_mirrored(),
                self@.records.dom() == before.records.dom(),
                forall|rank: u128| #[trigger]
                    before.records.contains_key(rank) ==> self@.records[rank] == (if among(
                        ranks@,
                        i as int,
                        rank,
                    ) {
                        TileRecord { visible: false, ..before.records[rank] }
                    } else {
                        before.records[rank]
                    }),
        {
            let ghost current = self@;
            proof {
                lemma_among_next(ranks@, before.records.dom(), i as int);
            }
            let rank: u128 = ranks[i];
            let known = match self.records.get(&rank) {
                Some(record) => Some(*record),
                None => None,
            };
            if let Some(mut record) = known {
                record.visible = false;
                self.records.insert(rank, record);
            }
            assert(self@.records.dom() =~= before.records.dom());
        }
        proof {
            lemma_among_all(ranks@, before.records.dom());
            assert(self@.records =~= before.unseen().records);
            assert(self@ =~= before.unseen());
        }
    }

    /// Marks a tile in view.
    fn see(&mut self, document: &StrokeDocument, key: TileKey)
        requires
            old(self).well_formed(),
            document.well_formed(),
        ensures
            final(self).well_formed(),
            final(self)@ == old(self)@.seen(document@, key),
    {
        let ghost before = self@;
        proof {
            lemma_seen(before, document@, key);
            lemma_rank_known(before, key);
        }
        let rank: u128 = key.rank();
        let known = match self.records.get(&rank) {
            Some(record) => Some(*record),
            None => None,
        };
        match known {
            Some(found) => {
                let mut record = found;
                record.visible = true;
                record.last_visible_frame = self.frame;
                let evicted = record.state == TileCacheState::Evicted;
                if evicted {
                    record.state = TileCacheState::Dirty;
                }
                self.records.insert(rank, record);
                if evicted {
                    self.enqueue(key);
                }
            },
            None => {
                if document.tile_has_visible_strokes(key) {
                    let record = TileRecord {
                        key,
                        state: TileCacheState::Dirty,
                        desired_revision: document.revision(),
                        display_revision: None,
                        presented_revision: None,
                        display_allowed: false,
                        slot: None,
                        visible: true,
                        last_visible_frame: self.frame,
                        halo_radius_px: 0,
                        was_evicted: false,
                    };
                    self.records.insert(rank, record);
                    self.enqueue(key);
                }
            },
        }
        assert(self@ =~= before.seen(document@, key));
    }

    /// Takes the next tile that awaits replay off the queue.
    fn take_next_dirty(&mut self, prefer_visible: bool) -> (next: Option<TileKey>)
        requires
            old(self).well_formed(),
        ensures
            next == old(self)@.next_dirty(prefer_visible),
            final(self)@ == old(self)@.searched(prefer_visible),
            final(self).queue_mirrored(),
    {
        let ghost before = self@;
        let ghost queue = before.dirty;
        let ghost keep = waiting(before.records);
        let attempts: usize = self.dirty.len();
        proof {
            reveal(Seq::filter);
            assert(queue.take(0).filter(keep) =~= Seq::<TileKey>::empty());
            assert(queue.skip(0) + queue.take(0).filter(keep) =~= queue);
        }
        for n in 0..attempts
            invariant
                attempts == queue.len(),
                before == old(self)@,
                before.well_formed(),
                queue == before.dirty,
                keep == waiting(before.records),
                self@ == (CacheModel { dirty: self@.dirty, ..before }),
                self.queue_mirrored(),
                self@.dirty == queue.skip(n as int) + queue.take(n as int).filter(keep),
                forall|i: int|
                    0 <= i < n ==> !wanted(before.records, #[trigger] queue[i], prefer_visible),
        {
            let ghost passed = queue.take(n as int).filter(keep);
            let ghost current = *self;
            proof {
                assert(self@.dirty[0] == queue[n as int]);
                let longer = queue.take(n + 1);
                assert(longer.drop_last() =~= queue.take(n as int));
                assert(longer.last() == queue[n as int]);
                reveal(Seq::filter);
                lemma_queue_head_unique(queue, keep, n as int);
            }
            let key = match self.dirty.pop_front() {
                Some(key) => key,
                None => {
                    return None;
                },
            };
            let rank: u128 = key.rank();
            self.queued.remove(&rank);
            proof {
                assert(self.dirty@ =~= queue.skip(n + 1) + passed);
                assert(current.dirty@ =~= seq![key] + self.dirty@);
                lemma_mirror_after_pop(current.queued@, current.dirty@, key);
            }
            match self.records.get(&rank) {
                None => {},
                Some(record) => {
                    if record.state == TileCacheState::Dirty {
                        if record.visible == prefer_visible {
                            proof {
                                lemma_first_wanted_is(
                                    before.records,
                                    queue,
                                    prefer_visible,
                                    n as int,
                                );
                                assert(self@ =~= before.searched(prefer_visible));
                            }
                            return Some(key);
                        }
                        self.enqueue(key);
                        proof {
                            assert(!(queue.skip(n + 1) + passed).contains(key));
                            assert(self@.dirty =~= queue.skip(n + 1) + passed.push(key));
                        }
                    }
                },
            }
        }
        proof {
            assert(queue.take(attempts as int) =~= queue);
            assert(queue.skip(attempts as int) =~= Seq::<TileKey>::empty());
            lemma_first_wanted_is(before.records, queue, prefer_visible, attempts as int);
            assert(self@ =~= before.searched(prefer_visible));
        }
        None
    }

    /// The tile that loses its slot next, if one can.
    fn pick_victim(&self) -> (victim: Option<u128>)
        requires
            self@.records_filed(),
        ensures
            victim == self@.victim(),
    {
        let ranks = ordered_keys(&self.records);
        let mut found = false;
        let mut chosen: u128 = 0;
        let mut frame: u64 = 0;
        for i in 0..ranks.len()
            invariant
                lists(ranks@, self@.records.dom()),
                !found ==> none_evictable(self@, ranks@, i as int),
                found ==> oldest_among(self@, ranks@, i as int, chosen),
                found ==> frame == self@.records[chosen].last_visible_frame,
        {
            proof {
                lemma_among_next(ranks@, self@.records.dom(), i as int);
                if found {
                    let j = choose|j: int|
                        0 <= j < i && j < ranks@.len() && ranks@[j] == chosen;
                    assert(ranks@[j] < ranks@[i as int]);
                }
            }
            let rank: u128 = ranks[i];
            if let Some(record) = self.records.get(&rank) {
                if !record.visible && record.state == TileCacheState::Ready
                    && record.slot.is_some() {
                    if !found || record.last_visible_frame < frame {
                        found = true;
                        chosen = rank;
                        frame = record.last_visible_frame;
                    }
                }
            }
        }
        proof {
            lemma_among_all(ranks@, self@.records.dom());
        }
        if found {
            proof {
                assert forall|other: u128| #[trigger]
                    self@.records.contains_key(other) && self@.records[other].evictable() implies {
                    ||| self@.records[chosen].last_visible_frame
                        < self@.records[other].last_visible_frame
                    ||| self@.records[chosen].last_visible_frame
                        == self@.records[other].last_visible_frame && chosen <= other
                } by {
                    assert(self@.records.dom().contains(other));
                    assert(among(ranks@, ranks@.len() as int, other));
                }
                lemma_victim_is(self@, chosen);
            }
            Some(chosen)
        } else {
            proof {
                assert forall|rank: u128| !self@.first_to_go(rank) by {
                    if self@.first_to_go(rank) {
                        assert(self@.records.dom().contains(rank));
                        assert(among(ranks@, ranks@.len() as int, rank));
                    }
                }
            }
            None
        }
    }

    /// Gives a tile a slot: a new one while the device and the budget allow, or
    /// that of a clean tile out of view.
    pub fn ensure_slot(&mut self, key: TileKey) -> (slot: Option<u32>)
        requires
            old(self).well_formed(),
        ensures
            final(self).well_formed(),
            slot == old(self)@.slot_for(key),
            final(self)@ == old(self)@.slotted(key),
    {
        let ghost before = self@;
        let slot = self.grant_slot(key);
        proof {
            lemma_slotted(before, key);
            assert forall|rank: u128| #[trigger]
                self@.records.contains_key(rank) && self@.records[rank].state
                    is Dirty implies self@.dirty.contains(self@.records[rank].key) by {
                lemma_slotted_dirty(before, key, rank);
            }
        }
        slot
    }

    fn grant_slot(&mut self, key: TileKey) -> (slot: Option<u32>)
        requires
            old(self)@.sound(),
            old(self).queue_mirrored(),
        ensures
            final(self).queue_mirrored(),
            slot == old(self)@.slot_for(key),
            final(self)@ == old(self)@.slotted(key),
    {
        let ghost before = self@;
        let rank: u128 = key.rank();
        proof {
            lemma_rank_known(before, key);
        }
        let mut record = match self.records.get(&rank) {
            Some(known) => *known,
            None => {
                return None;
            },
        };
        if let Some(slot) = record.slot {
            return Some(slot);
        }
        let bytes: u64 = match &self.layout {
            None => {
                return None;
            },
            Some(layout) => if layout.bytes_per_tile == 0 { 1 } else { layout.bytes_per_tile },
        };
        let can_grow = self.next_slot < self.slot_limit && saturated_product(
            self.next_slot as u64 + 1,
            bytes,
        ) <= self.budget_bytes;
        let slot: u32 = if can_grow {
            let slot: u32 = self.next_slot;
            self.next_slot = self.next_slot + 1;
            slot
        } else {
            match self.pick_victim() {
                None => {
                    return None;
                },
                Some(gone) => {
                    assert(before.first_to_go(gone));
                    assert(before.records.contains_key(gone));
                    let mut victim = match self.records.get(&gone) {
                        Some(found) => *found,
                        None => {
                            return None;
                        },
                    };
                    let slot: u32 = match victim.slot {
                        Some(slot) => slot,
                        None => {
                            return None;
                        },
                    };
                    victim.slot = None;
                    victim.state = TileCacheState::Evicted;
                    victim.display_revision = None;
                    victim.presented_revision = None;
                    victim.display_allowed = false;
                    victim.was_evicted = true;
                    self.records.insert(gone, victim);
                    self.stats.evicted_tiles = self.stats.evicted_tiles.wrapping_add(1);
                    slot
                },
            }
        };
        record.slot = Some(slot);
        self.records.insert(rank, record);
        self.stats.resident_tiles = count_residents(&self.records);
        self.stats.persistent_bytes = saturated_product(
            self.stats.resident_tiles,
            bytes,
        );
        proof {
            assert(self@.records == before.slotted(key).records);
            assert(self@ =~= before.slotted(key));
        }
        Some(slot)
    }
}

/// Whether none of the first `count` listed tiles can lose its slot.
spec fn none_evictable(cache: CacheModel, ranks: Seq<u128>, count: int) -> bool {
    forall|rank: u128| #[trigger]
        among(ranks, count, rank) ==> !cache.records[rank].evictable()
}

/// Whether a tile is the first of the first `count` listed ones to lose its slot.
spec fn oldest_among(cache: CacheModel, ranks: Seq<u128>, count: int, chosen: u128) -> bool {
    &&& among(ranks, count, chosen)
    &&& cache.records.contains_key(chosen)
    &&& cache.records[chosen].evictable()
    &&& forall|rank: u128| #[trigger]
        among(ranks, count, rank) && cache.records[rank].evictable() ==> {
            ||| cache.records[chosen].last_visible_frame < cache.records[rank].last_visible_frame
            ||| cache.records[chosen].last_visible_frame == cache.records[rank].last_visible_frame
                && chosen <= rank
        }
}

/// Slots change hands without making a tile await replay.
proof fn lemma_slotted_dirty(cache: CacheModel, key: TileKey, rank: u128)
    requires
        cache.well_formed(),
        cache.slotted(key).records.contains_key(rank),
        cache.slotted(key).records[rank].state is Dirty,
    ensures
        cache.dirty.contains(cache.slotted(key).records[rank].key),
{
    let after = cache.slotted(key);
    lemma_rank_known(cache, key);
    if cache.slot_for(key) is Some && cache.records[key.spec_rank()].slot is None
        && !cache.can_grow() {
        let gone = cache.victim()->0;
        assert(cache.first_to_go(gone));
        assert(cache.records.contains_key(gone));
        assert(cache.records[gone].key.spec_rank() == gone);
    }
    assert(cache.records.contains_key(rank));
}

/// The tiles before a position bring the cache to the same state in both lists.
proof fn lemma_seen_prefix(
    cache: CacheModel,
    document: DocumentModel,
    earlier: Seq<TileKey>,
    later: Seq<TileKey>,
    count: nat,
)
    requires
        count <= earlier.len() <= later.len(),
        forall|i: int| 0 <= i < earlier.len() ==> later[i] == earlier[i],
    ensures
        cache.seen_all(document, earlier, count) == cache.seen_all(document, later, count),
    decreases count,
{
    if count > 0 {
        lemma_seen_prefix(cache, document, earlier, later, (count - 1) as nat);
    }
}

/// The head of a rotated queue does not occur again.
proof fn lemma_queue_head_unique(
    queue: Seq<TileKey>,
    keep: spec_fn(TileKey) -> bool,
    n: int,
)
    requires
        queue.no_duplicates(),
        0 <= n < queue.len(),
    ensures
        !(queue.skip(n + 1) + queue.take(n).filter(keep)).contains(queue[n]),
{
    let rest = queue.skip(n + 1);
    let front = queue.take(n);
    let passed = front.filter(keep);
    let all = rest + passed;
    if all.contains(queue[n]) {
        let i = choose|i: int| 0 <= i < all.len() && all[i] == queue[n];
        if i < rest.len() {
            assert(rest[i] == queue[i + n + 1]);
        } else {
            assert(passed[i - rest.len()] == queue[n]);
            assert(passed.contains(queue[n]));
            front.lemma_filter_contains_rev(keep, queue[n]);
            let j = choose|j: int| 0 <= j < front.len() && front[j] == queue[n];
            assert(queue[j] == queue[n]);
        }
    }
}

/// Taking the head off a queue and its rank off the mirror keeps them in step.
proof fn lemma_mirror_after_pop(queued: Set<u128>, queue: Seq<TileKey>, key: TileKey)
    requires
        queue.len() > 0,
        queue[0] == key,
        !queue.drop_first().contains(key),
        forall|other: TileKey|
            queued.contains(#[trigger] other.spec_rank()) <==> queue.contains(other),
    ensures
        forall|other: TileKey|
            queued.remove(key.spec_rank()).contains(#[trigger] other.spec_rank())
                <==> queue.drop_first().contains(other),
{
    let rest = queue.drop_first();
    assert forall|other: TileKey|
        queued.remove(key.spec_rank()).contains(#[trigger] other.spec_rank())
            <==> rest.contains(other) by {
        if other.spec_rank() == key.spec_rank() {
            lemma_rank_injective(other, key);
        }
        if rest.contains(other) {
            let i = choose|i: int| 0 <= i < rest.len() && rest[i] == other;
            assert(queue[i + 1] == other);
        }
        if queue.contains(other) && other != key {
            let i = choose|i: int| 0 <= i < queue.len() && queue[i] == other;
            assert(rest[i - 1] == other);
        }
    }
}

/// Different tiles of known layers have different places in the display order.
proof fn lemma_display_rank_injective(
    layers: Seq<crate::strokes::LayerModel>,
    a: TileKey,
    b: TileKey,
)
    requires
        has_layer(layers, a.layer),
        has_layer(layers, b.layer),
        display_rank(layers, a) == display_rank(layers, b),
    ensures
        a == b,
{
    lemma_layer_position(layers, a.layer);
    lemma_layer_position(layers, b.layer);
    let p = layer_position(layers, a.layer);
    let q = layer_position(layers, b.layer);
    assert(p == q);
}

impl CanvasTileCache {
    /// Edge length of a tile.
    fn tile_size(&self) -> (size: u32)
        ensures
            size == self@.tile_size(),
    {
        match &self.layout {
            Some(layout) => layout.tile_size,
            None => 256,
        }
    }

    /// Displayed tiles in display order.
    fn list_display(&self, document: &StrokeDocument) -> (display: Vec<TileDisplayInstance>)
        requires
            self.well_formed(),
            self@.displays_known_layers(document@),
            document@.layers.len() <= usize::MAX,
        ensures
            self@.lists_displayed(document@, display@),
    {
        let ghost layers = document@.layers;
        let ranks = ordered_keys(&self.records);
        let mut placed: BTreeMap<u128, TileDisplayInstance> = BTreeMap::new();
        let layer_list = document.layers();
        assert(layer_models(layer_list@).len() == layer_list@.len());
        let layer_count: u32 = layer_list.len() as u32;
        for i in 0..ranks.len()
            invariant
                self.well_formed(),
                self@.displays_known_layers(document@),
                layers == document@.layers,
                layer_models(layer_list@) == layers,
                layer_count == layers.len() as u32,
                layers.len() <= usize::MAX,
                lists(ranks@, self@.records.dom()),
                forall|place: u128| #[trigger]
                    placed@.contains_key(place) ==> placed_rightly(
                        self@,
                        document@,
                        place,
                        placed@[place],
                    ),
                all_placed(self@, layers, placed@, ranks@, i as int),
        {
            proof {
                lemma_among_next(ranks@, self@.records.dom(), i as int);
                assert(self@.records.contains_key(ranks@[i as int]));
            }
            if let Some(record) = self.records.get(&ranks[i]) {
                if record.visible && record.display_allowed {
                    if let (Some(revision), Some(slot)) = (record.display_revision, record.slot) {
                        if let Some(position) = document.layer_index(record.key.layer) {
                            proof {
                                lemma_layer_position(layers, record.key.layer);
                            }
                            let row: i64 = record.key.y as i64 + 0x8000_0000;
                            let column: i64 = record.key.x as i64 + 0x8000_0000;
                            let place: u128 = position as u128 * 0x1_0000_0000_0000_0000 + row
                                as u128 * 0x1_0000_0000 + column as u128;
                            let opacity = layer_list[position].opacity;
                            assert(layer_models(layer_list@)[position as int]
                                == layer_list@[position as int]@);
                            let instance = TileDisplayInstance {
                                key: record.key,
                                slot,
                                revision,
                                opacity,
                                layer_order: position as u32,
                                layer_count,
                            };
                            assert(instance == self@.instance(document@, ranks@[i as int]));
                            assert(place == place_of(layers, record.key));
                            placed.insert(place, instance);
                        }
                    }
                }
            }
        }
        let places = ordered_keys(&placed);
        let mut display: Vec<TileDisplayInstance> = Vec::new();
        for i in 0..places.len()
            invariant
                lists(places@, placed@.dom()),
                display@.len() == i,
                forall|j: int|
                    0 <= j < i ==> placed@.contains_key(places@[j]) && #[trigger] display@[j]
                        == placed@[places@[j]],
        {
            assert(places@.contains(places@[i as int]));
            assert(placed@.dom().contains(places@[i as int]));
            if let Some(instance) = placed.get(&places[i]) {
                display.push(*instance);
            }
        }
        proof {
            lemma_among_all(ranks@, self@.records.dom());
            assert forall|rank: u128| #[trigger]
                self@.records.contains_key(rank)
                    && self@.records[rank].displayed() implies placed@.contains_key(
                place_of(layers, self@.records[rank].key),
            ) by {
                assert(self@.records.dom().contains(rank));
                assert(among(ranks@, ranks@.len() as int, rank));
            }
            lemma_display_listed(self@, document@, placed@, places@, display@);
        }
        display
    }

    /// Hands out replays until the budget is used up, no tile asked for is left,
    /// or no slot is left for the next one.
    fn fill(&mut self, document: &StrokeDocument, budget: u32, prefer_visible: bool)
        requires
            old(self).well_formed(),
            document.well_formed(),
        ensures
            final(self).well_formed(),
            final(self)@ == old(self)@.filled(document@, budget, prefer_visible),
    {
        let ghost before = self@;
        loop
            invariant
                self.well_formed(),
                document.well_formed(),
                before == old(self)@,
                self@.filled(document@, budget, prefer_visible) == before.filled(
                    document@,
                    budget,
                    prefer_visible,
                ),
            decreases budget - self@.batch.jobs.len(),
        {
            let ghost current = self@;
            assert(self@.batch.jobs.len() == self.batch.jobs@.len());
            if self.batch.jobs.len() >= budget as usize {
                return;
            }
            proof {
                lemma_searched(current, prefer_visible);
            }
            let key = match self.take_next_dirty(prefer_visible) {
                Some(key) => key,
                None => {
                    return;
                },
            };
            let ghost found = self@;
            proof {
                lemma_fill_step(current, document@, prefer_visible, key);
                lemma_slotted(found, key);
            }
            let slot: u32 = match self.grant_slot(key) {
                Some(slot) => slot,
                None => {
                    self.enqueue(key);
                    return;
                },
            };
            self.dispatch(document, key, slot);
        }
    }

    /// Hands a replay of a tile to the render side.
    fn dispatch(&mut self, document: &StrokeDocument, key: TileKey, slot: u32)
        requires
            old(self)@.sound(),
            old(self).queue_mirrored(),
            old(self)@.queue_complete_but(key),
            old(self)@.records.contains_key(key.spec_rank()),
            old(self)@.records[key.spec_rank()].slot == Some(slot),
            old(self)@.records[key.spec_rank()].state is Dirty,
            document.well_formed(),
        ensures
            final(self).well_formed(),
            final(self)@ == old(self)@.dispatched(document@, key, slot),
    {
        let ghost before = self@;
        proof {
            lemma_dispatched(before, document@, key, slot);
            lemma_rank_known(before, key);
        }
        let rank: u128 = key.rank();
        let size: u32 = self.tile_size();
        let known = match self.records.get(&rank) {
            Some(record) => Some(*record),
            None => None,
        };
        if let Some(mut record) = known {
            let replay = replay_for_tile(document, key);
            let halo = neighbor_halo(key, record.halo_radius_px, size);
            let job = TileRasterJob {
                key,
                slot,
                revision: record.desired_revision,
                replay,
                halo,
            };
            record.state = TileCacheState::Scheduled;
            self.records.insert(rank, record);
            let ghost earlier = self.batch.jobs@;
            self.batch.jobs.push(job);
            assert(job_models(self.batch.jobs@) =~= job_models(earlier).push(job@));
        }
        assert(self@ =~= before.dispatched(document@, key, slot));
    }

    /// Counts pending work, then leases and returns the transient planes of
    /// effect work where they fit into the memory that persistent tiles leave.
    fn account(&mut self, effect_budget: u32, planes: &Vec<PaintPlaneDescriptor>)
        requires
            old(self).well_formed(),
            planes_fit(
                planes@,
                old(self)@.tile_size(),
                old(self)@.effect_tiles(effect_budget),
            ),
        ensures
            final(self).well_formed(),
            final(self)@ == old(self)@.accounted(effect_budget, planes@),
    {
        let ghost before = self@;
        proof {
            lemma_accounted(before, effect_budget, planes@);
        }
        let size: u32 = self.tile_size();
        self.stats.dirty_tiles = count_pending(&self.records);
        let available: u64 = self.budget_bytes.saturating_sub(self.stats.persistent_bytes);
        self.scratch_pool.set_budget(available);
        assert(self@.batch.jobs.len() == self.batch.jobs@.len());
        let jobs: u32 = self.batch.jobs.len() as u32;
        let tiles: u32 = if effect_budget < jobs { effect_budget } else { jobs };
        if tiles > 0 {
            let ghost pool = self.scratch_pool@;
            if let Some(lease) = self.scratch_pool.lease(planes, size, tiles) {
                self.stats.scratch_high_water_bytes = self.scratch_pool.high_water_bytes();
                self.scratch_pool.release(lease);
                self.stats.scratch_bytes = self.scratch_pool.leased_bytes();
                assert(self.scratch_pool@.leases =~= pool.leases);
            }
        }
        assert(self@ =~= before.accounted(effect_budget, planes@));
    }

    /// Runs one scheduling pass: lists what is shown and hands out replays,
    /// tiles in view first.
    pub fn schedule(
        &mut self,
        document: &StrokeDocument,
        budget: u32,
        effect_budget: u32,
        scratch_planes: &Vec<PaintPlaneDescriptor>,
    )
        requires
            old(self).well_formed(),
            document.well_formed(),
            old(self)@.displays_known_layers(document@),
            planes_fit(
                scratch_planes@,
                old(self)@.tile_size(),
                if budget < effect_budget { budget } else { effect_budget },
            ),
        ensures
            final(self).well_formed(),
            old(self)@.lists_displayed(document@, final(self)@.batch.display),
            final(self)@ == old(self)@.scheduled(
                document@,
                budget,
                effect_budget,
                scratch_planes@,
                final(self)@.batch.display,
            ),
    {
        let ghost before = self@;
        let layer_list = document.layers();
        assert(layer_models(layer_list@).len() == layer_list@.len());
        let count: usize = layer_list.len();
        assert(document@.layers.len() <= usize::MAX);
        let display = self.list_display(document);
        let ghost shown = display@;
        self.batch = TileWorkBatch {
            serial: self.batch.serial.wrapping_add(1),
            tile_size: self.tile_size(),
            jobs: Vec::new(),
            display,
        };
        proof {
            assert(self@.batch.jobs =~= Seq::<JobModel>::empty());
            assert(self@ =~= before.batch_begun(shown));
        }
        let ghost begun = self@;
        proof {
            lemma_filled(begun, document@, budget, true);
            lemma_filled(begun.filled(document@, budget, true), document@, budget, false);
            lemma_filled_display(begun, document@, budget, true);
            lemma_filled_display(
                begun.filled(document@, budget, true),
                document@,
                budget,
                false,
            );
        }
        self.fill(document, budget, true);
        self.fill(document, budget, false);
        proof {
            assert(self@.batch.jobs.len() <= budget);
            lemma_fewer_tiles_fit(
                scratch_planes@,
                before.tile_size(),
                self@.effect_tiles(effect_budget),
                if budget < effect_budget { budget } else { effect_budget },
            );
        }
        self.account(effect_budget, scratch_planes);
    }
}

/// Position of a tile in the display order.
spec fn place_of(layers: Seq<crate::strokes::LayerModel>, key: TileKey) -> u128 {
    display_rank(layers, key) as u128
}

/// Whether the displayed ones of the first `count` listed tiles have a place.
spec fn all_placed(
    cache: CacheModel,
    layers: Seq<crate::strokes::LayerModel>,
    placed: Map<u128, TileDisplayInstance>,
    ranks: Seq<u128>,
    count: int,
) -> bool {
    forall|rank: u128| #[trigger]
        among(ranks, count, rank) && cache.records[rank].displayed() ==> placed.contains_key(
            place_of(layers, cache.records[rank].key),
        )
}

/// Whether an instance shows a displayed tile and stands in its place.
spec fn placed_rightly(
    cache: CacheModel,
    document: DocumentModel,
    place: u128,
    instance: TileDisplayInstance,
) -> bool {
    let rank = instance.key.spec_rank();
    &&& cache.records.contains_key(rank)
    &&& cache.records[rank].displayed()
    &&& instance == cache.instance(document, rank)
    &&& place == display_rank(document.layers, instance.key)
}

/// Instances in the order of their places list what is displayed.
proof fn lemma_display_listed(
    cache: CacheModel,
    document: DocumentModel,
    placed: Map<u128, TileDisplayInstance>,
    places: Seq<u128>,
    display: Seq<TileDisplayInstance>,
)
    requires
        cache.records_filed(),
        cache.displays_known_layers(document),
        document.layers.len() <= usize::MAX,
        lists(places, placed.dom()),
        display.len() == places.len(),
        forall|place: u128| #[trigger]
            placed.contains_key(place) ==> placed_rightly(cache, document, place, placed[place]),
        forall|rank: u128| #[trigger]
            cache.records.contains_key(rank) && cache.records[rank].displayed()
                ==> placed.contains_key(place_of(document.layers, cache.records[rank].key)),
        forall|j: int|
            0 <= j < display.len() ==> placed.contains_key(places[j]) && #[trigger] display[j]
                == placed[places[j]],
    ensures
        cache.lists_displayed(document, display),
{
    assert forall|rank: u128| #[trigger]
        cache.records.contains_key(rank)
            && cache.records[rank].displayed() implies display.contains(
        cache.instance(document, rank),
    ) by {
        let key = cache.records[rank].key;
        let place = place_of(document.layers, key);
        lemma_layer_position(document.layers, key.layer);
        assert(placed.contains_key(place));
        assert(placed_rightly(cache, document, place, placed[place]));
        let other = placed[place].key;
        assert(cache.records.contains_key(other.spec_rank()));
        lemma_rank_known(cache, other);
        lemma_layer_position(document.layers, other.layer);
        lemma_display_rank_injective(document.layers, key, other);
        assert(placed.dom().contains(place));
        let j = choose|j: int| 0 <= j < places.len() && places[j] == place;
        assert(display[j] == cache.instance(document, rank));
    }
    assert forall|i: int, j: int| 0 <= i < j < display.len() implies display_rank(
        document.layers,
        (#[trigger] display[i]).key,
    ) < display_rank(document.layers, (#[trigger] display[j]).key) by {
        assert(places[i] < places[j]);
        assert(display[i] == placed[places[i]]);
        assert(display[j] == placed[places[j]]);
        assert(placed_rightly(cache, document, places[i], placed[places[i]]));
        assert(placed_rightly(cache, document, places[j], placed[places[j]]));
    }
}

/// Handing out replays leaves the display list alone.
proof fn lemma_filled_display(
    cache: CacheModel,
    document: DocumentModel,
    budget: u32,
    prefer_visible: bool,
)
    ensures
        cache.filled(document, budget, prefer_visible).batch.display == cache.batch.display,
    decreases budget - cache.batch.jobs.len(),
{
    if cache.batch.jobs.len() < budget {
        let found = cache.searched(prefer_visible);
        match cache.next_dirty(prefer_visible) {
            None => {},
            Some(key) => match found.slot_for(key) {
                None => {},
                Some(slot) => {
                    lemma_filled_display(
                        found.slotted(key).dispatched(document, key, slot),
                        document,
                        budget,
                        prefer_visible,
                    );
                },
            },
        }
    }
}

impl Default for CanvasTileCache {
    fn default() -> (cache: Self)
        ensures
            cache.well_formed(),
            cache@ == CacheModel::initial(),
    {
        CanvasTileCache::new()
    }
}

} // verus!
