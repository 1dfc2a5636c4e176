//! Mathematical state of the tile cache and the transitions between states.
use crate::geometry::{halo_fits, halo_tiles, TileKey, TileSpan};
use crate::layers::{has_layer, layer_position};
use crate::paint::{DepositionMode, PaintMaterialId, PaintModelId, PaintPlaneDescriptor};
use crate::scalar::Scalar;
use crate::scratch::{pixel_count, plane_bytes, ScratchPoolModel};
use crate::spatial::TileEntryModel;
use crate::state::DocumentModel;
use crate::strokes::{LayerModel, TileInvalidation, TileInvalidationCause};
use crate::surface::LayoutModel;
use vstd::prelude::*;

verus! {

/// Allocation state of one logical tile.
#[derive(Clone, Copy, Debug, PartialEq, Eq, Structural)]
pub enum TileCacheState {
    /// Needs a persistent slot and deterministic replay.
    Dirty,
    /// Replay was extracted and awaits render-world completion.
    Scheduled,
    /// Its display revision is current.
    Ready,
    /// No persistent slot is resident; vector history can regenerate it.
    Evicted,
}

/// Public snapshot of aggregate cache behavior.
#[derive(Clone, Copy, Debug, PartialEq, Eq, Structural)]
pub struct TileCacheStats {
    /// Tiles currently occupying persistent slots.
    pub resident_tiles: u64,
    /// Tiles awaiting replay.
    pub dirty_tiles: u64,
    /// Tiles replayed since startup.
    pub rasterized_tiles: u64,
    /// Clean tiles evicted since startup.
    pub evicted_tiles: u64,
    /// Evicted tiles later regenerated.
    pub regenerated_tiles: u64,
    /// Bytes represented by all resident paint-model planes.
    pub persistent_bytes: u64,
    /// Current transient scratch usage.
    pub scratch_bytes: u64,
    /// High-water transient scratch usage.
    pub scratch_high_water_bytes: u64,
    /// Tiles dirtied directly by stroke bounds.
    pub stroke_invalidations: u64,
    /// Additional neighborhood tiles dirtied by effect expansion.
    pub effect_expanded_invalidations: u64,
}

impl TileCacheStats {
    /// Counters of a cache that did nothing yet.
    #[verifier::allow_in_spec]
    pub fn zero() -> Self
        returns
            (TileCacheStats {
                resident_tiles: 0,
                dirty_tiles: 0,
                rasterized_tiles: 0,
                evicted_tiles: 0,
                regenerated_tiles: 0,
                persistent_bytes: 0,
                scratch_bytes: 0,
                scratch_high_water_bytes: 0,
                stroke_invalidations: 0,
                effect_expanded_invalidations: 0,
            }),
    {
        TileCacheStats {
            resident_tiles: 0,
            dirty_tiles: 0,
            rasterized_tiles: 0,
            evicted_tiles: 0,
            regenerated_tiles: 0,
            persistent_bytes: 0,
            scratch_bytes: 0,
            scratch_high_water_bytes: 0,
            stroke_invalidations: 0,
            effect_expanded_invalidations: 0,
        }
    }
}

impl Default for TileCacheStats {
    fn default() -> (stats: Self)
        ensures
            stats == TileCacheStats::zero(),
    {
        TileCacheStats::zero()
    }
}

/// What the render side reports about tile work.
#[derive(Clone, Copy, Debug, PartialEq, Eq, Structural)]
pub enum TileRenderFeedback {
    /// A tile was rasterized at a revision.
    Complete {
        /// The tile.
        key: TileKey,
        /// Revision that was rasterized.
        revision: u64,
    },
    /// A tile was shown at a revision.
    Presented {
        /// The tile.
        key: TileKey,
        /// Revision that was shown.
        revision: u64,
    },
    /// Rasterizing a tile at a revision has to be tried again.
    Retry {
        /// The tile.
        key: TileKey,
        /// Revision that was attempted.
        revision: u64,
    },
    /// The render device was recreated.
    DeviceReset,
    /// The render device can hold so many slots.
    Capacity {
        /// Number of slots.
        max_slots: u32,
    },
}

/// What the cache knows of one tile.
#[derive(Clone, Copy, Debug, PartialEq, Eq, Structural)]
pub struct TileRecord {
    /// The tile.
    pub key: TileKey,
    /// Allocation state.
    pub state: TileCacheState,
    /// Revision that the tile has to reach.
    pub desired_revision: u64,
    /// Revision that the slot holds.
    pub display_revision: Option<u64>,
    /// Latest revision that was shown.
    pub presented_revision: Option<u64>,
    /// Whether the slot's content may be shown.
    pub display_allowed: bool,
    /// Persistent slot.
    pub slot: Option<u32>,
    /// Whether the tile was in view at the latest visibility update.
    pub visible: bool,
    /// Frame in which the tile was last in view.
    pub last_visible_frame: u64,
    /// Effect neighborhood that the replay has to read.
    pub halo_radius_px: u32,
    /// Whether the tile lost its slot since it was last rasterized.
    pub was_evicted: bool,
}

/// One strict-order stroke replay record, as a value.
#[verifier::ext_equal]
pub struct ReplayModel {
    pub segment_indices: Seq<u32>,
    pub material: PaintMaterialId,
    pub model: PaintModelId,
    pub deposition: DepositionMode,
}

/// Regeneration request for a single tile, as a value.
#[verifier::ext_equal]
pub struct JobModel {
    pub key: TileKey,
    pub slot: u32,
    pub revision: u64,
    pub replay: Seq<ReplayModel>,
    pub halo: Seq<TileKey>,
}

/// A resident tile ready for one batched display pass.
#[derive(Clone, Copy, Debug, PartialEq, Eq, Structural)]
pub struct TileDisplayInstance {
    /// The tile.
    pub key: TileKey,
    /// Slot that holds its content.
    pub slot: u32,
    /// Revision of the content.
    pub revision: u64,
    /// Opacity of its layer.
    pub opacity: Scalar,
    /// Composite position of its layer.
    pub layer_order: u32,
    /// Number of layers in the document.
    pub layer_count: u32,
}

/// Per-frame handoff from the tile scheduler to extraction, as a value.
#[verifier::ext_equal]
pub struct BatchModel {
    pub serial: u64,
    pub tile_size: u32,
    pub jobs: Seq<JobModel>,
    pub display: Seq<TileDisplayInstance>,
}

/// Mathematical value of a tile cache.
#[verifier::ext_equal]
pub struct CacheModel {
    /// Geometry generation of the document that the records belong to.
    pub document_generation: Option<u64>,
    /// Surface layout, once a paint model was configured.
    pub layout: Option<LayoutModel>,
    /// Persistent memory limit.
    pub budget: u64,
    /// Known tiles by rank.
    pub records: Map<u128, TileRecord>,
    /// Queue of tiles to be looked at for replay.
    pub dirty: Seq<TileKey>,
    /// Number of slots handed out so far.
    pub next_slot: u32,
    /// Number of slots that the render device can hold.
    pub slot_limit: u32,
    /// Number of the current frame.
    pub frame: u64,
    /// Work handed to the render side.
    pub batch: BatchModel,
    /// Counters.
    pub stats: TileCacheStats,
    /// Transient planes.
    pub scratch: ScratchPoolModel,
}

/// A product kept within 64 bits.
pub open spec fn saturated(number: nat) -> u64 {
    if number <= u64::MAX { number as u64 } else { u64::MAX }
}

/// Tiles of the records that hold a slot.
pub open spec fn residents(records: Map<u128, TileRecord>) -> Set<u128> {
    records.dom().filter(|rank: u128| records[rank].slot is Some)
}

/// Tiles of the records that await replay or its completion.
pub open spec fn pending(records: Map<u128, TileRecord>) -> Set<u128> {
    records.dom().filter(
        |rank: u128| records[rank].state is Dirty || records[rank].state is Scheduled,
    )
}

/// Tells the tiles whose record awaits replay.
pub open spec fn waiting(records: Map<u128, TileRecord>) -> spec_fn(TileKey) -> bool {
    |key: TileKey|
        records.contains_key(key.spec_rank()) && records[key.spec_rank()].state is Dirty
}

/// Whether a tile awaits replay and is in view or not, as asked.
pub open spec fn wanted(
    records: Map<u128, TileRecord>,
    key: TileKey,
    prefer_visible: bool,
) -> bool {
    waiting(records)(key) && records[key.spec_rank()].visible == prefer_visible
}

/// Position of the first wanted tile of a queue, or the queue's length.
pub open spec fn first_wanted(
    records: Map<u128, TileRecord>,
    queue: Seq<TileKey>,
    prefer_visible: bool,
) -> int
    decreases queue.len(),
{
    if queue.len() == 0 || wanted(records, queue[0], prefer_visible) {
        0
    } else {
        1 + first_wanted(records, queue.drop_first(), prefer_visible)
    }
}

/// The record of a tile on which nothing was known, given its first invalidation.
pub open spec fn fresh_record(invalidation: TileInvalidation) -> TileRecord {
    TileRecord {
        key: invalidation.key,
        state: TileCacheState::Dirty,
        desired_revision: invalidation.revision,
        display_revision: None,
        presented_revision: None,
        display_allowed: false,
        slot: None,
        visible: false,
        last_visible_frame: 0,
        halo_radius_px: invalidation.halo_radius_px,
        was_evicted: false,
    }
}

impl TileRecord {
    /// The record after an invalidation; one of an older revision changes nothing.
    pub open spec fn outdated_by(self, invalidation: TileInvalidation) -> TileRecord {
        if invalidation.revision >= self.desired_revision {
            TileRecord {
                desired_revision: invalidation.revision,
                state: TileCacheState::Dirty,
                halo_radius_px: invalidation.halo_radius_px,
                display_allowed: self.display_allowed && invalidation.allow_stale_display,
                ..self
            }
        } else {
            self
        }
    }

    /// The record after its tile was rasterized at the desired revision.
    pub open spec fn rasterized(self) -> TileRecord {
        TileRecord {
            state: TileCacheState::Ready,
            display_revision: Some(self.desired_revision),
            display_allowed: true,
            was_evicted: false,
            ..self
        }
    }

    /// The record after its tile was shown at a revision.
    pub open spec fn presented(self, revision: u64) -> TileRecord {
        TileRecord {
            presented_revision: match self.presented_revision {
                Some(earlier) => Some(if revision < earlier { earlier } else { revision }),
                None => Some(revision),
            },
            ..self
        }
    }

    /// The record after its slot was taken away.
    pub open spec fn evicted(self) -> TileRecord {
        TileRecord {
            slot: None,
            state: TileCacheState::Evicted,
            display_revision: None,
            presented_revision: None,
            display_allowed: false,
            was_evicted: true,
            ..self
        }
    }

    /// Whether the record's slot can be taken away: clean and out of view.
    pub open spec fn evictable(self) -> bool {
        !self.visible && self.state is Ready && self.slot is Some
    }

    /// Whether the record's slot is shown.
    pub open spec fn displayed(self) -> bool {
        self.visible && self.display_allowed && self.display_revision is Some && self.slot is Some
    }

    /// Whether the slot's content serves a document revision.
    pub open spec fn ready_for(self, revision: u64) -> bool {
        &&& self.state is Ready
        &&& self.display_allowed
        &&& self.slot is Some
        &&& self.display_revision matches Some(display) && display >= revision
    }

    /// What the state of a record says about its slot and content.
    pub open spec fn consistent(self) -> bool {
        &&& (self.state is Scheduled || self.state is Ready) ==> self.slot is Some
        &&& self.state is Ready ==> self.display_revision == Some(self.desired_revision)
            && self.display_allowed
        &&& self.display_allowed ==> self.display_revision is Some && self.slot is Some
        &&& self.display_revision matches Some(display) ==> display <= self.desired_revision
    }
}

/// Replay record of an entry of the spatial index.
pub open spec fn replay_of(document: DocumentModel) -> spec_fn(TileEntryModel) -> ReplayModel {
    |entry: TileEntryModel|
        {
            let brush = document.strokes[entry.stroke_index as int].brush;
            ReplayModel {
                segment_indices: entry.segments,
                material: brush.paint.material,
                model: brush.paint.model,
                deposition: brush.deposition,
            }
        }
}

/// Tells the entries of the spatial index whose stroke takes part in replay.
pub open spec fn replayed_in(document: DocumentModel) -> spec_fn(TileEntryModel) -> bool {
    |entry: TileEntryModel| document.replays(entry)
}

/// Replay records of a tile, in document order.
pub open spec fn tile_replay(document: DocumentModel, key: TileKey) -> Seq<ReplayModel> {
    document.tile_entries(key).filter(replayed_in(document)).map_values(replay_of(document))
}

/// Tiles of the visible layers within a span, layer by layer and row by row.
pub open spec fn tiles_in_view(layers: Seq<LayerModel>, span: TileSpan) -> Seq<TileKey>
    decreases layers.len(),
{
    if layers.len() == 0 {
        Seq::empty()
    } else {
        let below = tiles_in_view(layers.drop_last(), span);
        if layers.last().visible { below + span.tiles(layers.last().id) } else { below }
    }
}

/// Position of a tile in the display order: by layer, then row, then column.
pub open spec fn display_rank(layers: Seq<LayerModel>, key: TileKey) -> int {
    layer_position(layers, key.layer) * 0x1_0000_0000_0000_0000 + (key.y + 0x8000_0000)
        * 0x1_0000_0000 + (key.x + 0x8000_0000)
}

impl CacheModel {
    /// A cache without a layout.
    pub open spec fn initial() -> Self {
        CacheModel {
            document_generation: None,
            layout: None,
            budget: 268435456,
            records: Map::empty(),
            dirty: Seq::empty(),
            next_slot: 0,
            slot_limit: u32::MAX,
            frame: 0,
            batch: BatchModel {
                serial: 0,
                tile_size: 0,
                jobs: Seq::empty(),
                display: Seq::empty(),
            },
            stats: TileCacheStats::zero(),
            scratch: ScratchPoolModel {
                budget: 268435456,
                leased: 0,
                high_water: 0,
                leases: Set::empty(),
                next_lease: 0,
            },
        }
    }

    /// Edge length of a tile.
    pub open spec fn tile_size(self) -> u32 {
        match self.layout {
            Some(layout) => layout.tile_size,
            None => 256,
        }
    }

    /// Bytes that one slot stands for.
    pub open spec fn slot_bytes(self) -> nat {
        match self.layout {
            Some(layout) => if layout.bytes_per_tile == 0 { 1 } else {
                layout.bytes_per_tile as nat
            },
            None => 0,
        }
    }

    /// Records, queue, slots and counters agree with each other.
    pub open spec fn well_formed(self) -> bool {
        &&& self.records_filed()
        &&& self.slots_distinct()
        &&& self.dirty.no_duplicates()
        &&& self.queue_complete()
        &&& self.counted()
    }

    /// Every record is filed under its tile, consistent, and has a halo that
    /// can be addressed.
    pub open spec fn records_filed(self) -> bool {
        &&& self.records.dom().finite()
        &&& forall|rank: u128| #[trigger]
            self.records.contains_key(rank) ==> {
                &&& self.records[rank].key.spec_rank() == rank
                &&& self.records[rank].consistent()
                &&& halo_fits(
                    self.records[rank].key,
                    self.records[rank].halo_radius_px,
                    self.tile_size(),
                )
            }
    }

    /// No two tiles share a slot, and slots are within those handed out.
    pub open spec fn slots_distinct(self) -> bool {
        &&& forall|rank: u128| #[trigger]
            self.records.contains_key(rank) && self.records[rank].slot is Some
                ==> self.records[rank].slot->0 < self.next_slot
        &&& forall|a: u128, b: u128|
            #![trigger self.records[a], self.records[b]]
            self.records.contains_key(a) && self.records.contains_key(b) && self.records[a].slot
                is Some && self.records[a].slot == self.records[b].slot ==> a == b
    }

    /// Every tile that awaits replay is queued.
    pub open spec fn queue_complete(self) -> bool {
        forall|rank: u128| #[trigger]
            self.records.contains_key(rank) && self.records[rank].state is Dirty
                ==> self.dirty.contains(self.records[rank].key)
    }

    /// Slots stay within the budget, and the counters say what they count.
    pub open spec fn counted(self) -> bool {
        &&& saturated(self.next_slot as nat * self.slot_bytes()) <= self.budget
        &&& self.layout is None ==> self.next_slot == 0
        &&& self.stats.resident_tiles == residents(self.records).len()
        &&& self.stats.persistent_bytes == saturated(
            residents(self.records).len() * self.slot_bytes(),
        )
        &&& self.scratch.well_formed()
        &&& self.scratch.leased == 0
        &&& self.scratch.leases == Set::<u64>::empty()
    }

    /// The cache with all tiles forgotten.
    pub open spec fn reset(self) -> Self {
        CacheModel {
            records: Map::empty(),
            dirty: Seq::empty(),
            next_slot: 0,
            batch: BatchModel { jobs: Seq::empty(), display: Seq::empty(), ..self.batch },
            stats: TileCacheStats { resident_tiles: 0, persistent_bytes: 0, ..self.stats },
            ..self
        }
    }

    /// The cache under another layout or budget; unchanged where both stay.
    pub open spec fn configured(self, layout: LayoutModel, budget: u64) -> Self {
        if self.layout == Some(layout) && self.budget == budget {
            self
        } else {
            CacheModel {
                layout: Some(layout),
                budget,
                scratch: ScratchPoolModel {
                    budget,
                    leased: 0,
                    high_water: 0,
                    leases: Set::empty(),
                    next_lease: 0,
                },
                ..self
            }.reset()
        }
    }

    /// The cache with a tile queued; unchanged where it is queued already.
    pub open spec fn enqueued(self, key: TileKey) -> Self {
        if self.dirty.contains(key) {
            self
        } else {
            CacheModel { dirty: self.dirty.push(key), ..self }
        }
    }

    /// The cache with one record replaced.
    pub open spec fn with_record(self, record: TileRecord) -> Self {
        CacheModel { records: self.records.insert(record.key.spec_rank(), record), ..self }
    }

    /// The cache after an invalidation was counted.
    pub open spec fn with_cause(self, invalidation: TileInvalidation) -> Self {
        let stats = self.stats;
        CacheModel {
            stats: match invalidation.cause {
                TileInvalidationCause::StrokeCommit => TileCacheStats {
                    stroke_invalidations: stats.stroke_invalidations.wrapping_add(1),
                    ..stats
                },
                TileInvalidationCause::EffectDependency => if invalidation.halo_radius_px > 0 {
                    TileCacheStats {
                        effect_expanded_invalidations:
                            stats.effect_expanded_invalidations.wrapping_add(1),
                        ..stats
                    }
                } else {
                    stats
                },
                _ => stats,
            },
            ..self
        }
    }

    /// The cache after an invalidation.
    pub open spec fn invalidated(self, invalidation: TileInvalidation) -> Self {
        let rank = invalidation.key.spec_rank();
        let known = if self.records.contains_key(rank) {
            self.records[rank]
        } else {
            fresh_record(invalidation)
        };
        self.with_cause(invalidation).with_record(known.outdated_by(invalidation)).enqueued(
            invalidation.key,
        )
    }

    /// The cache after the first `count` invalidations of a list.
    pub open spec fn invalidated_by(self, list: Seq<TileInvalidation>, count: nat) -> Self
        decreases count,
    {
        if count == 0 {
            self
        } else {
            self.invalidated_by(list, (count - 1) as nat).invalidated(list[count - 1])
        }
    }

    /// The cache after one report of the render side.
    pub open spec fn informed(self, report: TileRenderFeedback) -> Self {
        match report {
            TileRenderFeedback::Complete { key, revision } => {
                let record = self.records[key.spec_rank()];
                if self.records.contains_key(key.spec_rank()) && record.desired_revision
                    == revision && record.state is Scheduled {
                    CacheModel {
                        stats: TileCacheStats {
                            rasterized_tiles: self.stats.rasterized_tiles.wrapping_add(1),
                            regenerated_tiles: if record.was_evicted {
                                self.stats.regenerated_tiles.wrapping_add(1)
                            } else {
                                self.stats.regenerated_tiles
                            },
                            ..self.stats
                        },
                        ..self
                    }.with_record(record.rasterized())
                } else {
                    self
                }
            },
            TileRenderFeedback::Presented { key, revision } => {
                let record = self.records[key.spec_rank()];
                if self.records.contains_key(key.spec_rank()) && record.desired_revision
                    == revision && record.state is Ready && record.display_revision is Some
                    && record.display_revision->0 >= revision {
                    self.with_record(record.presented(revision))
                } else {
                    self
                }
            },
            TileRenderFeedback::Retry { key, revision } => {
                let record = self.records[key.spec_rank()];
                if self.records.contains_key(key.spec_rank()) && record.desired_revision
                    == revision {
                    self.with_record(
                        TileRecord { state: TileCacheState::Dirty, ..record },
                    ).enqueued(key)
                } else {
                    self
                }
            },
            TileRenderFeedback::DeviceReset => self,
            TileRenderFeedback::Capacity { max_slots } => CacheModel {
                slot_limit: if max_slots == 0 { 1 } else { max_slots },
                ..self
            },
        }
    }

    /// The cache after the first `count` reports of a list.
    pub open spec fn informed_by(self, reports: Seq<TileRenderFeedback>, count: nat) -> Self
        decreases count,
    {
        if count == 0 {
            self
        } else {
            self.informed_by(reports, (count - 1) as nat).informed(reports[count - 1])
        }
    }

    /// The cache in the next frame, with no tile in view yet.
    pub open spec fn unseen(self) -> Self {
        CacheModel {
            frame: self.frame.wrapping_add(1),
            records: self.records.map_values(
                |record: TileRecord| TileRecord { visible: false, ..record },
            ),
            ..self
        }
    }

    /// The cache with a tile in view: a known tile is marked, and replayed again
    /// where it had been evicted; an unknown one is taken up where it shows strokes.
    pub open spec fn seen(self, document: DocumentModel, key: TileKey) -> Self {
        let rank = key.spec_rank();
        if self.records.contains_key(rank) {
            let record = TileRecord {
                visible: true,
                last_visible_frame: self.frame,
                ..self.records[rank]
            };
            if record.state is Evicted {
                self.with_record(
                    TileRecord { state: TileCacheState::Dirty, ..record },
                ).enqueued(key)
            } else {
                self.with_record(record)
            }
        } else if document.shows_tile(key) {
            self.with_record(
                TileRecord {
                    visible: true,
                    last_visible_frame: self.frame,
                    ..fresh_record(
                        TileInvalidation {
                            key,
                            revision: document.revision,
                            cause: TileInvalidationCause::DeviceLoss,
                            allow_stale_display: false,
                            halo_radius_px: 0,
                        },
                    )
                },
            ).enqueued(key)
        } else {
            self
        }
    }

    /// The cache with the first `count` tiles of a list in view.
    pub open spec fn seen_all(
        self,
        document: DocumentModel,
        keys: Seq<TileKey>,
        count: nat,
    ) -> Self
        decreases count,
    {
        if count == 0 {
            self
        } else {
            self.seen_all(document, keys, (count - 1) as nat).seen(document, keys[count - 1])
        }
    }

    /// The cache in the next frame, showing a span of tiles of every visible layer.
    pub open spec fn looked_at(self, document: DocumentModel, view: Option<TileSpan>) -> Self {
        match view {
            Some(span) if self.layout is Some => {
                let keys = tiles_in_view(document.layers, span);
                self.unseen().seen_all(document, keys, keys.len())
            },
            _ => self.unseen(),
        }
    }

    /// The first queued tile that awaits replay and is in view or not, as asked.
    pub open spec fn next_dirty(self, prefer_visible: bool) -> Option<TileKey> {
        let i = first_wanted(self.records, self.dirty, prefer_visible);
        if i < self.dirty.len() { Some(self.dirty[i]) } else { None }
    }

    /// The cache with that tile taken from the queue. Tiles passed over go to the
    /// end of the queue, or leave it where they do not await replay any more.
    pub open spec fn searched(self, prefer_visible: bool) -> Self {
        let i = first_wanted(self.records, self.dirty, prefer_visible);
        let passed = self.dirty.take(i).filter(waiting(self.records));
        CacheModel {
            dirty: if i < self.dirty.len() { self.dirty.skip(i + 1) + passed } else { passed },
            ..self
        }
    }

    /// Whether one more slot fits the device and the budget.
    pub open spec fn can_grow(self) -> bool {
        &&& self.next_slot < self.slot_limit
        &&& saturated((self.next_slot + 1) as nat * self.slot_bytes()) <= self.budget
    }

    /// Whether a tile is the first to lose its slot: evictable, and out of view
    /// for longer than the other evictable ones; of equals, the first by rank.
    pub open spec fn first_to_go(self, rank: u128) -> bool {
        &&& self.records.contains_key(rank)
        &&& self.records[rank].evictable()
        &&& forall|other: u128| #[trigger]
            self.records.contains_key(other) && self.records[other].evictable() ==> {
                ||| self.records[rank].last_visible_frame
                    < self.records[other].last_visible_frame
                ||| self.records[rank].last_visible_frame
                    == self.records[other].last_visible_frame && rank <= other
            }
    }

    /// The tile that loses its slot next, if one can.
    pub open spec fn victim(self) -> Option<u128> {
        if exists|rank: u128| self.first_to_go(rank) {
            Some(choose|rank: u128| self.first_to_go(rank))
        } else {
            None
        }
    }

    /// Slot that a tile has or would be given.
    pub open spec fn slot_for(self, key: TileKey) -> Option<u32> {
        if !self.records.contains_key(key.spec_rank()) {
            None
        } else if self.records[key.spec_rank()].slot is Some {
            self.records[key.spec_rank()].slot
        } else if self.layout is None {
            None
        } else if self.can_grow() {
            Some(self.next_slot)
        } else {
            match self.victim() {
                Some(rank) => self.records[rank].slot,
                None => None,
            }
        }
    }

    /// The cache with the resident counters brought up to date.
    pub open spec fn recounted(self) -> Self {
        CacheModel {
            stats: TileCacheStats {
                resident_tiles: residents(self.records).len() as u64,
                persistent_bytes: saturated(residents(self.records).len() * self.slot_bytes()),
                ..self.stats
            },
            ..self
        }
    }

    /// The cache after a tile was given a slot, where one was to be had.
    pub open spec fn slotted(self, key: TileKey) -> Self {
        let rank = key.spec_rank();
        let slot = self.slot_for(key);
        if slot is None || self.records[rank].slot is Some {
            self
        } else if self.can_grow() {
            CacheModel { next_slot: (self.next_slot + 1) as u32, ..self }.with_record(
                TileRecord { slot, ..self.records[rank] },
            ).recounted()
        } else {
            CacheModel {
                stats: TileCacheStats {
                    evicted_tiles: self.stats.evicted_tiles.wrapping_add(1),
                    ..self.stats
                },
                ..self
            }.with_record(self.records[self.victim()->0].evicted()).with_record(
                TileRecord { slot, ..self.records[rank] },
            ).recounted()
        }
    }

    /// The cache with a replay of the tile handed to the render side.
    pub open spec fn dispatched(self, document: DocumentModel, key: TileKey, slot: u32) -> Self {
        let record = self.records[key.spec_rank()];
        let job = JobModel {
            key,
            slot,
            revision: record.desired_revision,
            replay: tile_replay(document, key),
            halo: halo_tiles(key, record.halo_radius_px, self.tile_size()),
        };
        CacheModel {
            batch: BatchModel { jobs: self.batch.jobs.push(job), ..self.batch },
            ..self
        }.with_record(TileRecord { state: TileCacheState::Scheduled, ..record })
    }

    /// The cache after handing out replays until the budget is used up, no tile
    /// asked for is left, or no slot is left for the next one.
    pub open spec fn filled(
        self,
        document: DocumentModel,
        budget: u32,
        prefer_visible: bool,
    ) -> Self
        decreases budget - self.batch.jobs.len(),
    {
        if self.batch.jobs.len() >= budget {
            self
        } else {
            let found = self.searched(prefer_visible);
            match self.next_dirty(prefer_visible) {
                None => found,
                Some(key) => match found.slot_for(key) {
                    None => found.enqueued(key),
                    Some(slot) => found.slotted(key).dispatched(document, key, slot).filled(
                        document,
                        budget,
                        prefer_visible,
                    ),
                },
            }
        }
    }

    /// How a displayed tile is shown.
    pub open spec fn instance(self, document: DocumentModel, rank: u128) -> TileDisplayInstance {
        let record = self.records[rank];
        let position = layer_position(document.layers, record.key.layer);
        TileDisplayInstance {
            key: record.key,
            slot: record.slot->0,
            revision: record.display_revision->0,
            opacity: document.layers[position].opacity,
            layer_order: position as u32,
            layer_count: document.layers.len() as u32,
        }
    }

    /// Whether the layer of every displayed tile belongs to the document.
    pub open spec fn displays_known_layers(self, document: DocumentModel) -> bool {
        forall|rank: u128| #[trigger]
            self.records.contains_key(rank) && self.records[rank].displayed() ==> has_layer(
                document.layers,
                self.records[rank].key.layer,
            )
    }

    /// Whether the list holds exactly the displayed tiles, in display order.
    pub open spec fn lists_displayed(
        self,
        document: DocumentModel,
        display: Seq<TileDisplayInstance>,
    ) -> bool {
        &&& forall|rank: u128| #[trigger]
            self.records.contains_key(rank) && self.records[rank].displayed()
                ==> display.contains(self.instance(document, rank))
        &&& forall|i: int|
            0 <= i < display.len() ==> {
                let rank = (#[trigger] display[i]).key.spec_rank();
                &&& self.records.contains_key(rank)
                &&& self.records[rank].displayed()
                &&& display[i] == self.instance(document, rank)
            }
        &&& forall|i: int, j: int|
            0 <= i < j < display.len() ==> display_rank(
                document.layers,
                (#[trigger] display[i]).key,
            ) < display_rank(document.layers, (#[trigger] display[j]).key)
    }

    /// The cache with a new batch that shows the listed tiles.
    pub open spec fn batch_begun(self, display: Seq<TileDisplayInstance>) -> Self {
        CacheModel {
            batch: BatchModel {
                serial: self.batch.serial.wrapping_add(1),
                tile_size: self.tile_size(),
                jobs: Seq::empty(),
                display,
            },
            ..self
        }
    }

    /// Number of tiles that effect work may run on.
    pub open spec fn effect_tiles(self, effect_budget: u32) -> u32 {
        let jobs = self.batch.jobs.len() as u32;
        if effect_budget < jobs { effect_budget } else { jobs }
    }

    /// The cache with pending work counted, and transient planes leased and
    /// returned where they fit into the memory that persistent tiles leave.
    pub open spec fn accounted(
        self,
        effect_budget: u32,
        planes: Seq<PaintPlaneDescriptor>,
    ) -> Self {
        let available = self.budget.saturating_sub(self.stats.persistent_bytes);
        let tiles = self.effect_tiles(effect_budget);
        let bytes = plane_bytes(planes, pixel_count(self.tile_size(), tiles));
        let stats = TileCacheStats {
            dirty_tiles: pending(self.records).len() as u64,
            ..self.stats
        };
        let scratch = ScratchPoolModel { budget: available, ..self.scratch };
        if tiles > 0 && bytes <= available {
            let peak = if scratch.high_water < bytes { bytes as u64 } else { scratch.high_water };
            CacheModel {
                stats: TileCacheStats {
                    scratch_bytes: 0,
                    scratch_high_water_bytes: peak,
                    ..stats
                },
                scratch: ScratchPoolModel {
                    high_water: peak,
                    next_lease: scratch.next_lease.wrapping_add(1),
                    ..scratch
                },
                ..self
            }
        } else {
            CacheModel { stats, scratch, ..self }
        }
    }

    /// The cache after one scheduling pass: tiles in view are replayed first.
    pub open spec fn scheduled(
        self,
        document: DocumentModel,
        budget: u32,
        effect_budget: u32,
        planes: Seq<PaintPlaneDescriptor>,
        display: Seq<TileDisplayInstance>,
    ) -> Self {
        self.batch_begun(display).filled(document, budget, true).filled(
            document,
            budget,
            false,
        ).accounted(effect_budget, planes)
    }

    /// Whether a tile serves a document revision.
    pub open spec fn tile_ready(self, key: TileKey, revision: u64) -> bool {
        self.records.contains_key(key.spec_rank()) && self.records[key.spec_rank()].ready_for(
            revision,
        )
    }
}

} // verus!
