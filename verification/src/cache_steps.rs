//! Every step of the tile cache keeps its state well formed.
use crate::cache::{
    first_wanted, fresh_record, residents, tiles_in_view, waiting, wanted, CacheModel,
    TileCacheState, TileRecord, TileRenderFeedback,
};
use crate::geometry::{halo_fits, lemma_rank_injective, lemma_span_tiles, TileKey, TileSpan};
use crate::layers::has_layer;
use crate::paint::PaintPlaneDescriptor;
use crate::state::DocumentModel;
use crate::strokes::{LayerModel, TileInvalidation};
use crate::surface::LayoutModel;
use vstd::prelude::*;

verus! {

impl CacheModel {
    /// Everything that [`CacheModel::well_formed`] asks but that the queue is complete.
    pub open spec fn sound(self) -> bool {
        &&& self.records_filed()
        &&& self.slots_distinct()
        &&& self.dirty.no_duplicates()
        &&& self.counted()
    }

    /// Every tile that awaits replay, other than one, is queued.
    pub open spec fn queue_complete_but(self, key: TileKey) -> bool {
        forall|rank: u128| #[trigger]
            self.records.contains_key(rank) && self.records[rank].state is Dirty
                && self.records[rank].key != key ==> self.dirty.contains(self.records[rank].key)
    }
}

/// Forgetting all tiles leaves the cache well formed.
pub proof fn lemma_reset(cache: CacheModel)
    requires
        cache.counted(),
    ensures
        cache.reset().well_formed(),
{
    let after = cache.reset();
    assert(residents(after.records) =~= Set::<u128>::empty());
    assert(0 * after.slot_bytes() == 0) by (nonlinear_arith);
}

/// Another layout or budget leaves the cache well formed.
pub proof fn lemma_configured(cache: CacheModel, layout: LayoutModel, budget: u64)
    requires
        cache.well_formed(),
    ensures
        cache.configured(layout, budget).well_formed(),
{
    let after = cache.configured(layout, budget);
    if !(cache.layout == Some(layout) && cache.budget == budget) {
        assert(residents(after.records) =~= Set::<u128>::empty());
        assert(0 * after.slot_bytes() == 0) by (nonlinear_arith);
    }
}

/// A record that keeps its slot can be replaced.
pub proof fn lemma_with_record(cache: CacheModel, record: TileRecord)
    requires
        cache.sound(),
        record.consistent(),
        halo_fits(record.key, record.halo_radius_px, cache.tile_size()),
        record.slot == (if cache.records.contains_key(record.key.spec_rank()) {
            cache.records[record.key.spec_rank()].slot
        } else {
            None
        }),
    ensures
        cache.with_record(record).sound(),
        cache.queue_complete_but(record.key) ==> cache.with_record(record).queue_complete_but(
            record.key,
        ),
        cache.queue_complete_but(record.key) && !(record.state is Dirty) ==> cache.with_record(
            record,
        ).queue_complete(),
{
    let after = cache.with_record(record);
    let rank = record.key.spec_rank();
    assert(residents(after.records) =~= residents(cache.records)) by {
        assert forall|other: u128| residents(after.records).contains(other) <==> residents(
            cache.records,
        ).contains(other) by {}
    }
    assert forall|other: u128| #[trigger] after.records.contains_key(other) implies {
        &&& after.records[other].key.spec_rank() == other
        &&& after.records[other].consistent()
        &&& halo_fits(
            after.records[other].key,
            after.records[other].halo_radius_px,
            after.tile_size(),
        )
    } by {
        if other != rank {
            assert(cache.records.contains_key(other));
        }
    }
    assert forall|other: u128| #[trigger]
        after.records.contains_key(other) && after.records[other].slot
            is Some implies after.records[other].slot->0 < after.next_slot by {
        assert(cache.records.contains_key(other));
    }
    if cache.queue_complete_but(record.key) {
        assert forall|other: u128| #[trigger]
            after.records.contains_key(other) && after.records[other].state is Dirty
                && after.records[other].key != record.key implies after.dirty.contains(
            after.records[other].key,
        ) by {
            if other != rank {
                assert(cache.records.contains_key(other));
            }
        }
        if !(record.state is Dirty) {
            assert forall|other: u128| #[trigger]
                after.records.contains_key(other) && after.records[other].state
                    is Dirty implies after.dirty.contains(after.records[other].key) by {
                if other != rank {
                    assert(cache.records.contains_key(other));
                    lemma_keys_differ(cache, other, record.key);
                }
            }
        }
    }
}

/// A record filed under another rank belongs to another tile.
proof fn lemma_keys_differ(cache: CacheModel, rank: u128, key: TileKey)
    requires
        cache.records_filed(),
        cache.records.contains_key(rank),
        rank != key.spec_rank(),
    ensures
        cache.records[rank].key != key,
{
}

/// Queuing a tile completes a queue that lacked it.
pub proof fn lemma_enqueued(cache: CacheModel, key: TileKey)
    requires
        cache.sound(),
        cache.queue_complete_but(key),
    ensures
        cache.enqueued(key).well_formed(),
{
    let after = cache.enqueued(key);
    if !cache.dirty.contains(key) {
        assert(after.dirty.no_duplicates()) by {
            assert forall|i: int, j: int|
                0 <= i < after.dirty.len() && 0 <= j < after.dirty.len() && i
                    != j implies after.dirty[i] != after.dirty[j] by {
                if i == cache.dirty.len() {
                    assert(cache.dirty.contains(cache.dirty[j]));
                } else if j == cache.dirty.len() {
                    assert(cache.dirty.contains(cache.dirty[i]));
                }
            }
        }
        assert(after.dirty[cache.dirty.len() as int] == key);
    }
    assert forall|rank: u128| #[trigger]
        after.records.contains_key(rank) && after.records[rank].state
            is Dirty implies after.dirty.contains(after.records[rank].key) by {
        if after.records[rank].key != key {
            assert(cache.records.contains_key(rank));
            let i = choose|i: int|
                0 <= i < cache.dirty.len() && cache.dirty[i] == after.records[rank].key;
            assert(after.dirty[i] == after.records[rank].key);
        }
    }
}

/// A well-formed cache lacks no tile of its queue.
proof fn lemma_complete_but_any(cache: CacheModel, key: TileKey)
    requires
        cache.queue_complete(),
    ensures
        cache.queue_complete_but(key),
{
}

/// An invalidation leaves the cache well formed.
pub proof fn lemma_invalidated(cache: CacheModel, invalidation: TileInvalidation)
    requires
        cache.well_formed(),
        halo_fits(invalidation.key, invalidation.halo_radius_px, cache.tile_size()),
    ensures
        cache.invalidated(invalidation).well_formed(),
        cache.invalidated(invalidation).layout == cache.layout,
{
    let rank = invalidation.key.spec_rank();
    let counted = cache.with_cause(invalidation);
    let known = if cache.records.contains_key(rank) {
        cache.records[rank]
    } else {
        fresh_record(invalidation)
    };
    lemma_rank_known(cache, invalidation.key);
    lemma_complete_but_any(counted, invalidation.key);
    lemma_with_record(counted, known.outdated_by(invalidation));
    lemma_enqueued(counted.with_record(known.outdated_by(invalidation)), invalidation.key);
}

/// The record filed under a tile's rank is that of the tile.
pub proof fn lemma_rank_known(cache: CacheModel, key: TileKey)
    requires
        cache.records_filed(),
    ensures
        cache.records.contains_key(key.spec_rank()) ==> cache.records[key.spec_rank()].key == key,
{
    if cache.records.contains_key(key.spec_rank()) {
        lemma_rank_injective(cache.records[key.spec_rank()].key, key);
    }
}

/// A report of the render side leaves the cache well formed.
pub proof fn lemma_informed(cache: CacheModel, report: TileRenderFeedback)
    requires
        cache.well_formed(),
    ensures
        cache.informed(report).well_formed(),
        cache.informed(report).layout == cache.layout,
{
    match report {
        TileRenderFeedback::Complete { key, revision } => {
            let record = cache.records[key.spec_rank()];
            if cache.records.contains_key(key.spec_rank()) && record.desired_revision == revision
                && record.state is Scheduled {
                lemma_rank_known(cache, key);
                let after = cache.informed(report);
                let counted = CacheModel { stats: after.stats, ..cache };
                lemma_complete_but_any(counted, key);
                lemma_with_record(counted, record.rasterized());
            }
        },
        TileRenderFeedback::Presented { key, revision } => {
            let record = cache.records[key.spec_rank()];
            if cache.records.contains_key(key.spec_rank()) && record.desired_revision == revision
                && record.state is Ready {
                lemma_rank_known(cache, key);
                lemma_complete_but_any(cache, key);
                lemma_with_record(cache, record.presented(revision));
            }
        },
        TileRenderFeedback::Retry { key, revision } => {
            let record = cache.records[key.spec_rank()];
            if cache.records.contains_key(key.spec_rank()) && record.desired_revision
                == revision {
                let again = TileRecord { state: TileCacheState::Dirty, ..record };
                lemma_rank_known(cache, key);
                lemma_complete_but_any(cache, key);
                lemma_with_record(cache, again);
                lemma_enqueued(cache.with_record(again), key);
            }
        },
        _ => {},
    }
}

/// A new frame leaves the cache well formed.
pub proof fn lemma_unseen(cache: CacheModel)
    requires
        cache.well_formed(),
    ensures
        cache.unseen().well_formed(),
{
    let after = cache.unseen();
    assert(after.records.dom() =~= cache.records.dom());
    assert(residents(after.records) =~= residents(cache.records));
    assert forall|rank: u128| #[trigger] after.records.contains_key(rank) implies {
        &&& after.records[rank].key.spec_rank() == rank
        &&& after.records[rank].consistent()
        &&& halo_fits(
            after.records[rank].key,
            after.records[rank].halo_radius_px,
            after.tile_size(),
        )
    } by {
        assert(cache.records.contains_key(rank));
    }
    assert forall|rank: u128| #[trigger]
        after.records.contains_key(rank) && after.records[rank].slot
            is Some implies after.records[rank].slot->0 < after.next_slot by {
        assert(cache.records.contains_key(rank));
    }
    assert forall|a: u128, b: u128|
        #![trigger after.records[a], after.records[b]]
        after.records.contains_key(a) && after.records.contains_key(b) && after.records[a].slot
            is Some && after.records[a].slot == after.records[b].slot implies a == b by {
        assert(cache.records[a].slot == cache.records[b].slot);
    }
    assert forall|rank: u128| #[trigger]
        after.records.contains_key(rank) && after.records[rank].state
            is Dirty implies after.dirty.contains(after.records[rank].key) by {
        assert(cache.records.contains_key(rank));
    }
}

/// Bringing a tile into view leaves the cache well formed.
pub proof fn lemma_seen(cache: CacheModel, document: DocumentModel, key: TileKey)
    requires
        cache.well_formed(),
    ensures
        cache.seen(document, key).well_formed(),
        cache.seen(document, key).layout == cache.layout,
{
    let rank = key.spec_rank();
    lemma_complete_but_any(cache, key);
    if cache.records.contains_key(rank) {
        lemma_rank_known(cache, key);
        let record = TileRecord {
            visible: true,
            last_visible_frame: cache.frame,
            ..cache.records[rank]
        };
        if record.state is Evicted {
            let again = TileRecord { state: TileCacheState::Dirty, ..record };
            lemma_with_record(cache, again);
            lemma_enqueued(cache.with_record(again), key);
        } else {
            lemma_with_record(cache, record);
            let after = cache.with_record(record);
            if record.state is Dirty {
                assert(cache.dirty.contains(key));
                assert(after.queue_complete());
            }
        }
    } else if document.shows_tile(key) {
        let record = cache.seen(document, key).records[rank];
        lemma_with_record(cache, record);
        lemma_enqueued(cache.with_record(record), key);
    }
}

/// Whether every tile in view belongs to a layer of the document.
pub open spec fn views_known_layers(cache: CacheModel, document: DocumentModel) -> bool {
    forall|rank: u128| #[trigger]
        cache.records.contains_key(rank) && cache.records[rank].visible ==> has_layer(
            document.layers,
            cache.records[rank].key.layer,
        )
}

/// Bringing listed tiles into view leaves the cache well formed.
pub proof fn lemma_seen_all(
    cache: CacheModel,
    document: DocumentModel,
    keys: Seq<TileKey>,
    count: nat,
)
    requires
        cache.well_formed(),
        views_known_layers(cache, document),
        count <= keys.len(),
        forall|i: int|
            0 <= i < keys.len() ==> has_layer(document.layers, (#[trigger] keys[i]).layer),
    ensures
        cache.seen_all(document, keys, count).well_formed(),
        cache.seen_all(document, keys, count).layout == cache.layout,
        views_known_layers(cache.seen_all(document, keys, count), document),
    decreases count,
{
    if count > 0 {
        let before = cache.seen_all(document, keys, (count - 1) as nat);
        let key = keys[count - 1];
        lemma_seen_all(cache, document, keys, (count - 1) as nat);
        lemma_seen(before, document, key);
        lemma_rank_known(before, key);
        let after = before.seen(document, key);
        assert forall|rank: u128| #[trigger]
            after.records.contains_key(rank) && after.records[rank].visible implies has_layer(
            document.layers,
            after.records[rank].key.layer,
        ) by {
            if rank != key.spec_rank() {
                assert(before.records.contains_key(rank));
            }
        }
    }
}

/// Tiles in view belong to layers of the document.
pub proof fn lemma_tiles_in_view(layers: Seq<LayerModel>, span: TileSpan, key: TileKey)
    ensures
        tiles_in_view(layers, span).contains(key) <==> span.covers(key.x, key.y) && exists|n: int|
            0 <= n < layers.len() && (#[trigger] layers[n]).id == key.layer && layers[n].visible,
    decreases layers.len(),
{
    if layers.len() > 0 {
        let front = layers.drop_last();
        let below = tiles_in_view(front, span);
        let all = tiles_in_view(layers, span);
        let top = layers.last();
        lemma_tiles_in_view(front, span, key);
        lemma_span_tiles(span, top.id, key);
        if top.visible {
            let tiles = span.tiles(top.id);
            assert(all == below + tiles);
            if below.contains(key) {
                let i = choose|i: int| 0 <= i < below.len() && below[i] == key;
                assert(all[i] == key);
            }
            if tiles.contains(key) {
                let i = choose|i: int| 0 <= i < tiles.len() && tiles[i] == key;
                assert(all[below.len() + i] == key);
                assert(layers[layers.len() - 1].id == key.layer);
            }
            if all.contains(key) {
                let i = choose|i: int| 0 <= i < all.len() && all[i] == key;
                if i < below.len() {
                    assert(below[i] == key);
                } else {
                    assert(tiles[i - below.len()] == key);
                }
            }
        }
        if exists|n: int|
            0 <= n < front.len() && (#[trigger] front[n]).id == key.layer && front[n].visible {
            let n = choose|n: int|
                0 <= n < front.len() && (#[trigger] front[n]).id == key.layer && front[n].visible;
            assert(layers[n].id == key.layer);
        }
        if exists|n: int|
            0 <= n < layers.len() && (#[trigger] layers[n]).id == key.layer
                && layers[n].visible {
            let n = choose|n: int|
                0 <= n < layers.len() && (#[trigger] layers[n]).id == key.layer
                    && layers[n].visible;
            if n < front.len() {
                assert(front[n].id == key.layer);
            }
        }
    }
}

/// A layer of the list is found by its identity.
proof fn lemma_has_layer(layers: Seq<LayerModel>, n: int)
    requires
        0 <= n < layers.len(),
    ensures
        has_layer(layers, layers[n].id),
    decreases layers.len(),
{
    if layers[0].id != layers[n].id {
        assert(layers.drop_first()[n - 1] == layers[n]);
        lemma_has_layer(layers.drop_first(), n - 1);
    }
}

/// A visibility update leaves the cache well formed, with tiles in view only on
/// layers of the document.
pub proof fn lemma_looked_at(cache: CacheModel, document: DocumentModel, view: Option<TileSpan>)
    requires
        cache.well_formed(),
    ensures
        cache.looked_at(document, view).well_formed(),
        cache.looked_at(document, view).layout == cache.layout,
        views_known_layers(cache.looked_at(document, view), document),
{
    lemma_unseen(cache);
    if view is Some && cache.layout is Some {
        let span = view->0;
        let keys = tiles_in_view(document.layers, span);
        assert forall|i: int| 0 <= i < keys.len() implies has_layer(
            document.layers,
            (#[trigger] keys[i]).layer,
        ) by {
            lemma_tiles_in_view(document.layers, span, keys[i]);
            assert(keys.contains(keys[i]));
            let n = choose|n: int|
                0 <= n < document.layers.len() && (#[trigger] document.layers[n]).id
                    == keys[i].layer && document.layers[n].visible;
            lemma_has_layer(document.layers, n);
        }
        lemma_seen_all(cache.unseen(), document, keys, keys.len());
    }
}

/// The first wanted tile is wanted, and none before it is.
pub proof fn lemma_first_wanted(
    records: Map<u128, TileRecord>,
    queue: Seq<TileKey>,
    prefer_visible: bool,
)
    ensures
        0 <= first_wanted(records, queue, prefer_visible) <= queue.len(),
        first_wanted(records, queue, prefer_visible) < queue.len() ==> wanted(
            records,
            queue[first_wanted(records, queue, prefer_visible)],
            prefer_visible,
        ),
        forall|i: int|
            0 <= i < first_wanted(records, queue, prefer_visible) ==> !wanted(
                records,
                #[trigger] queue[i],
                prefer_visible,
            ),
    decreases queue.len(),
{
    if queue.len() > 0 && !wanted(records, queue[0], prefer_visible) {
        let rest = queue.drop_first();
        lemma_first_wanted(records, rest, prefer_visible);
        let found = first_wanted(records, queue, prefer_visible);
        assert forall|i: int| 0 <= i < found implies !wanted(
            records,
            #[trigger] queue[i],
            prefer_visible,
        ) by {
            if i > 0 {
                assert(queue[i] == rest[i - 1]);
            }
        }
    }
}

/// A position before which nothing is wanted, and at which something is or the
/// queue ends, is that of the first wanted tile.
pub proof fn lemma_first_wanted_is(
    records: Map<u128, TileRecord>,
    queue: Seq<TileKey>,
    prefer_visible: bool,
    found: int,
)
    requires
        0 <= found <= queue.len(),
        found < queue.len() ==> wanted(records, queue[found], prefer_visible),
        forall|i: int| 0 <= i < found ==> !wanted(records, #[trigger] queue[i], prefer_visible),
    ensures
        first_wanted(records, queue, prefer_visible) == found,
{
    lemma_first_wanted(records, queue, prefer_visible);
    let first = first_wanted(records, queue, prefer_visible);
    if first < found {
        assert(!wanted(records, queue[first], prefer_visible));
    }
    if found < first {
        assert(!wanted(records, queue[found], prefer_visible));
    }
}

/// Filtering keeps distinct members distinct.
proof fn lemma_filter_distinct(keys: Seq<TileKey>, keep: spec_fn(TileKey) -> bool)
    requires
        keys.no_duplicates(),
    ensures
        keys.filter(keep).no_duplicates(),
        forall|key: TileKey| #[trigger]
            keys.filter(keep).contains(key) <==> keys.contains(key) && keep(key),
    decreases keys.len(),
{
    reveal(Seq::filter);
    if keys.len() > 0 {
        let front = keys.drop_last();
        let last = keys.last();
        lemma_filter_distinct(front, keep);
        let kept = keys.filter(keep);
        let before = front.filter(keep);
        assert(!front.contains(last)) by {
            if front.contains(last) {
                let i = choose|i: int| 0 <= i < front.len() && front[i] == last;
                assert(keys[i] == keys[keys.len() - 1]);
            }
        }
        assert forall|key: TileKey| #[trigger] kept.contains(key) <==> keys.contains(key) && keep(
            key,
        ) by {
            if before.contains(key) {
                let i = choose|i: int| 0 <= i < before.len() && before[i] == key;
                assert(kept[i] == key);
                assert(front.contains(key));
                let j = choose|j: int| 0 <= j < front.len() && front[j] == key;
                assert(keys[j] == key);
            }
            if keys.contains(key) && keep(key) {
                let j = choose|j: int| 0 <= j < keys.len() && keys[j] == key;
                if j < front.len() {
                    assert(front[j] == key);
                    assert(before.contains(key));
                } else {
                    assert(kept[kept.len() - 1] == key);
                }
            }
            if kept.contains(key) {
                let i = choose|i: int| 0 <= i < kept.len() && kept[i] == key;
                if i < before.len() {
                    assert(before[i] == key);
                    assert(before.contains(key));
                } else {
                    assert(keys[keys.len() - 1] == key);
                }
            }
        }
        assert(!before.contains(last));
        assert forall|i: int, j: int|
            0 <= i < kept.len() && 0 <= j < kept.len() && i != j implies kept[i] != kept[j] by {
            if i < before.len() && j < before.len() {
            } else if i < before.len() {
                assert(before.contains(before[i]));
            } else {
                assert(before.contains(before[j]));
            }
        }
    }
}

/// Taking the next tile off the queue loses no other tile that awaits replay.
pub proof fn lemma_searched(cache: CacheModel, prefer_visible: bool)
    requires
        cache.well_formed(),
    ensures
        cache.searched(prefer_visible).sound(),
        match cache.next_dirty(prefer_visible) {
            None => cache.searched(prefer_visible).well_formed(),
            Some(key) => {
                &&& cache.searched(prefer_visible).queue_complete_but(key)
                &&& !cache.searched(prefer_visible).dirty.contains(key)
                &&& wanted(cache.records, key, prefer_visible)
            },
        },
{
    let queue = cache.dirty;
    let i = first_wanted(cache.records, queue, prefer_visible);
    let keep = waiting(cache.records);
    lemma_first_wanted(cache.records, queue, prefer_visible);
    let front = queue.take(i);
    let passed = front.filter(keep);
    lemma_filter_distinct(front, keep);
    let after = cache.searched(prefer_visible);
    assert forall|key: TileKey| #[trigger] front.contains(key) implies exists|j: int|
        0 <= j < i && queue[j] == key by {
        let j = choose|j: int| 0 <= j < front.len() && front[j] == key;
        assert(queue[j] == key);
    }
    if i < queue.len() {
        let rest = queue.skip(i + 1);
        assert(after.dirty == rest + passed);
        assert(after.dirty.no_duplicates()) by {
            assert forall|a: int, b: int|
                0 <= a < after.dirty.len() && 0 <= b < after.dirty.len() && a
                    != b implies after.dirty[a] != after.dirty[b] by {
                if a < rest.len() && b >= rest.len() {
                    assert(passed.contains(passed[b - rest.len()]));
                    assert(front.contains(passed[b - rest.len()]));
                    assert(rest[a] == queue[a + i + 1]);
                } else if b < rest.len() && a >= rest.len() {
                    assert(passed.contains(passed[a - rest.len()]));
                    assert(front.contains(passed[a - rest.len()]));
                    assert(rest[b] == queue[b + i + 1]);
                } else if a < rest.len() {
                    assert(rest[a] == queue[a + i + 1]);
                    assert(rest[b] == queue[b + i + 1]);
                }
            }
        }
        let key = queue[i];
        assert(!after.dirty.contains(key)) by {
            if after.dirty.contains(key) {
                let a = choose|a: int| 0 <= a < after.dirty.len() && after.dirty[a] == key;
                if a < rest.len() {
                    assert(rest[a] == queue[a + i + 1]);
                } else {
                    assert(passed.contains(passed[a - rest.len()]));
                    assert(front.contains(key));
                }
            }
        }
        assert forall|rank: u128| #[trigger]
            after.records.contains_key(rank) && after.records[rank].state is Dirty
                && after.records[rank].key != key implies after.dirty.contains(
            after.records[rank].key,
        ) by {
            let other = after.records[rank].key;
            assert(cache.dirty.contains(other));
            let j = choose|j: int| 0 <= j < queue.len() && queue[j] == other;
            if j < i {
                assert(front[j] == other);
                assert(keep(other));
                assert(passed.contains(other));
                let k = choose|k: int| 0 <= k < passed.len() && passed[k] == other;
                assert(after.dirty[rest.len() + k] == other);
            } else {
                assert(rest[j - i - 1] == other);
                assert(after.dirty[j - i - 1] == other);
            }
        }
    } else {
        assert(front =~= queue);
        assert forall|rank: u128| #[trigger]
            after.records.contains_key(rank) && after.records[rank].state
                is Dirty implies after.dirty.contains(after.records[rank].key) by {
            assert(cache.dirty.contains(after.records[rank].key));
            assert(keep(after.records[rank].key));
        }
    }
}

/// Two tiles cannot both be the first to lose their slot.
pub proof fn lemma_victim_is(cache: CacheModel, rank: u128)
    requires
        cache.first_to_go(rank),
    ensures
        cache.victim() == Some(rank),
{
    let chosen = choose|other: u128| cache.first_to_go(other);
    assert(cache.first_to_go(chosen));
    assert(cache.records.contains_key(chosen));
    assert(cache.records.contains_key(rank));
}

/// Counters brought up to date count correctly.
pub proof fn lemma_resident_count(cache: CacheModel)
    requires
        cache.records_filed(),
        cache.slots_distinct(),
    ensures
        residents(cache.records).finite(),
        residents(cache.records).len() <= cache.next_slot,
{
    let set = residents(cache.records);
    let slots = vstd::set_lib::set_int_range(0, cache.next_slot as int);
    let slot_of = |rank: u128| cache.records[rank].slot->0 as int;
    vstd::set_lib::lemma_int_range(0, cache.next_slot as int);
    assert(set.subset_of(cache.records.dom()));
    vstd::set_lib::lemma_len_subset(set, cache.records.dom());
    assert forall|a: u128, b: u128|
        set.contains(a) && set.contains(b) && slot_of(a) == slot_of(b) implies a == b by {
        assert(cache.records.contains_key(a) && cache.records.contains_key(b));
        assert(cache.records[a].slot == cache.records[b].slot);
    }
    vstd::set_lib::lemma_map_size(set, set.map(slot_of), slot_of);
    assert(set.map(slot_of).subset_of(slots)) by {
        assert forall|slot: int| set.map(slot_of).contains(slot) implies slots.contains(slot) by {
            let rank = choose|rank: u128| set.contains(rank) && slot_of(rank) == slot;
            assert(cache.records.contains_key(rank));
        }
    }
    vstd::set_lib::lemma_len_subset(set.map(slot_of), slots);
}

/// Giving a tile a slot keeps slots distinct and within the budget.
pub proof fn lemma_slotted(cache: CacheModel, key: TileKey)
    requires
        cache.sound(),
    ensures
        cache.slotted(key).sound(),
        cache.slotted(key).layout == cache.layout,
        cache.slotted(key).dirty == cache.dirty,
        cache.slotted(key).batch == cache.batch,
        cache.slot_for(key) is Some ==> {
            &&& cache.slotted(key).records.contains_key(key.spec_rank())
            &&& cache.slotted(key).records[key.spec_rank()] == (TileRecord {
                slot: cache.slot_for(key),
                ..cache.records[key.spec_rank()]
            })
        },
        cache.records[key.spec_rank()].state is Dirty ==> forall|rank: u128|
            #![trigger cache.slotted(key).records[rank]]
            cache.slotted(key).records.contains_key(rank) ==> {
                &&& cache.records.contains_key(rank)
                &&& cache.slotted(key).records[rank].key == cache.records[rank].key
                &&& cache.slotted(key).records[rank].visible == cache.records[rank].visible
                &&& cache.slotted(key).records[rank].state is Dirty
                    <==> cache.records[rank].state is Dirty
                &&& cache.slotted(key).records[rank] != cache.records[rank] && rank
                    != key.spec_rank() ==> cache.records[rank].evictable()
            },
        forall|rank: u128|
            cache.records.contains_key(rank) ==> #[trigger] cache.slotted(
                key,
            ).records.contains_key(rank),
{
    let rank = key.spec_rank();
    let after = cache.slotted(key);
    lemma_rank_known(cache, key);
    if cache.slot_for(key) is Some && cache.records[rank].slot is None {
        let taken = cache.records[rank];
        if cache.can_grow() {
            assert(after.slots_distinct()) by {
                assert forall|other: u128| #[trigger]
                    after.records.contains_key(other) && after.records[other].slot
                        is Some implies after.records[other].slot->0 < after.next_slot by {
                    assert(cache.records.contains_key(other));
                }
                assert forall|a: u128, b: u128|
                    #![trigger after.records[a], after.records[b]]
                    after.records.contains_key(a) && after.records.contains_key(b)
                        && after.records[a].slot is Some && after.records[a].slot
                        == after.records[b].slot implies a == b by {
                    assert(cache.records.contains_key(a));
                    assert(cache.records.contains_key(b));
                    if a != rank && b != rank {
                        assert(cache.records[a].slot == cache.records[b].slot);
                    }
                }
            }
        } else {
            let gone = cache.victim()->0;
            assert(cache.first_to_go(gone));
            assert(gone != rank);
            let victim = cache.records[gone];
            assert(cache.records.contains_key(gone));
            assert(victim.key.spec_rank() == gone);
            assert(victim.evicted().consistent());
            assert(after.records == cache.records.insert(gone, victim.evicted()).insert(
                rank,
                TileRecord { slot: victim.slot, ..taken },
            ));
            assert(after.slots_distinct()) by {
                assert forall|other: u128| #[trigger]
                    after.records.contains_key(other) && after.records[other].slot
                        is Some implies after.records[other].slot->0 < after.next_slot by {
                    assert(cache.records.contains_key(other));
                }
                assert forall|a: u128, b: u128|
                    #![trigger after.records[a], after.records[b]]
                    after.records.contains_key(a) && after.records.contains_key(b)
                        && after.records[a].slot is Some && after.records[a].slot
                        == after.records[b].slot implies a == b by {
                    assert(cache.records.contains_key(a));
                    assert(cache.records.contains_key(b));
                    if a != rank && b != rank {
                        assert(cache.records[a].slot == cache.records[b].slot);
                    } else if a != rank {
                        assert(cache.records[a].slot == cache.records[gone].slot);
                    } else if b != rank {
                        assert(cache.records[b].slot == cache.records[gone].slot);
                    }
                }
            }
        }
        assert(after.records_filed()) by {
            assert forall|other: u128| #[trigger] after.records.contains_key(other) implies {
                &&& after.records[other].key.spec_rank() == other
                &&& after.records[other].consistent()
                &&& halo_fits(
                    after.records[other].key,
                    after.records[other].halo_radius_px,
                    after.tile_size(),
                )
            } by {
                assert(cache.records.contains_key(other));
                assert(cache.records[other].consistent());
            }
        }
        lemma_resident_count(after);
    }
}

/// Handing a replay to the render side completes the queue.
pub proof fn lemma_dispatched(cache: CacheModel, document: DocumentModel, key: TileKey, slot: u32)
    requires
        cache.sound(),
        cache.queue_complete_but(key),
        cache.records.contains_key(key.spec_rank()),
        cache.records[key.spec_rank()].slot == Some(slot),
        cache.records[key.spec_rank()].state is Dirty,
    ensures
        cache.dispatched(document, key, slot).well_formed(),
        cache.dispatched(document, key, slot).layout == cache.layout,
{
    let record = cache.records[key.spec_rank()];
    let after = cache.dispatched(document, key, slot);
    let handed = CacheModel { batch: after.batch, ..cache };
    lemma_rank_known(cache, key);
    lemma_with_record(handed, TileRecord { state: TileCacheState::Scheduled, ..record });
}

/// One hand-out of the scheduler, with a slot at hand.
pub proof fn lemma_fill_step(
    cache: CacheModel,
    document: DocumentModel,
    prefer_visible: bool,
    key: TileKey,
)
    requires
        cache.well_formed(),
        cache.next_dirty(prefer_visible) == Some(key),
    ensures
        ({
            let found = cache.searched(prefer_visible);
            match found.slot_for(key) {
                None => found.enqueued(key).well_formed() && found.enqueued(key).layout
                    == cache.layout,
                Some(slot) => {
                    let next = found.slotted(key).dispatched(document, key, slot);
                    &&& found.slotted(key).sound()
                    &&& found.slotted(key).queue_complete_but(key)
                    &&& next.well_formed()
                    &&& next.layout == cache.layout
                },
            }
        }),
{
    let found = cache.searched(prefer_visible);
    lemma_searched(cache, prefer_visible);
    lemma_slotted(found, key);
    match found.slot_for(key) {
        None => {
            lemma_enqueued(found, key);
        },
        Some(slot) => {
            let slotted = found.slotted(key);
            assert forall|rank: u128| #[trigger]
                slotted.records.contains_key(rank) && slotted.records[rank].state is Dirty
                    && slotted.records[rank].key != key implies slotted.dirty.contains(
                slotted.records[rank].key,
            ) by {
                assert(found.records.contains_key(rank));
            }
            lemma_dispatched(slotted, document, key, slot);
        },
    }
}

/// Handing out replays leaves the cache well formed.
pub proof fn lemma_filled(
    cache: CacheModel,
    document: DocumentModel,
    budget: u32,
    prefer_visible: bool,
)
    requires
        cache.well_formed(),
    ensures
        cache.filled(document, budget, prefer_visible).well_formed(),
        cache.filled(document, budget, prefer_visible).layout == cache.layout,
        cache.filled(document, budget, prefer_visible).batch.jobs.len() <= (
        if cache.batch.jobs.len() < budget { budget as nat } else { cache.batch.jobs.len() }),
    decreases budget - cache.batch.jobs.len(),
{
    if cache.batch.jobs.len() < budget {
        let found = cache.searched(prefer_visible);
        lemma_searched(cache, prefer_visible);
        match cache.next_dirty(prefer_visible) {
            None => {},
            Some(key) => {
                lemma_fill_step(cache, document, prefer_visible, key);
                match found.slot_for(key) {
                    None => {},
                    Some(slot) => {
                        let next = found.slotted(key).dispatched(document, key, slot);
                        lemma_slotted(found, key);
                        lemma_filled(next, document, budget, prefer_visible);
                    },
                }
            },
        }
    }
}

/// Accounting leaves the cache well formed.
pub proof fn lemma_accounted(
    cache: CacheModel,
    effect_budget: u32,
    planes: Seq<PaintPlaneDescriptor>,
)
    requires
        cache.well_formed(),
    ensures
        cache.accounted(effect_budget, planes).well_formed(),
{
}

} // verus!
