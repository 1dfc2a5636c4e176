//! What the tile cache does with changes, reports, views and slots.
use crate::cache::{
    first_wanted, residents, tiles_in_view, CacheModel, TileCacheState, TileDisplayInstance,
    TileRecord, TileRenderFeedback,
};
use crate::cache_steps::{
    lemma_first_wanted, lemma_looked_at, lemma_rank_known, lemma_searched, lemma_tiles_in_view,
    lemma_unseen,
};
use crate::geometry::{TileKey, TileSpan};
use crate::layers::{distinct_layers, layer_position, lemma_layer_found, lemma_layer_position};
use crate::paint::PaintPlaneDescriptor;
use crate::replay_laws::{belongs, spans_tile};
use crate::state::DocumentModel;
use crate::strokes::{LayerModel, TileInvalidation};
use crate::surface::LayoutModel;
use crate::tiles::CanvasTileCache;
use vstd::prelude::*;

verus! {

/// Whether two states of a cache have the same records but for one tile.
pub open spec fn differ_in(before: CacheModel, after: CacheModel, key: TileKey) -> bool {
    forall|rank: u128|
        rank != key.spec_rank() ==> (#[trigger] after.records.contains_key(rank)
            <==> before.records.contains_key(rank)) && after.records[rank]
            == before.records[rank]
}

/// Whether two records agree in all but what concerns freshness.
pub open spec fn same_place(a: TileRecord, b: TileRecord) -> bool {
    &&& a.key == b.key
    &&& a.slot == b.slot
    &&& a.visible == b.visible
    &&& a.last_visible_frame == b.last_visible_frame
    &&& a.was_evicted == b.was_evicted
}

/// A tile that is reported stale has to reach the revision of the report and waits in the
/// queue. Its picture is shown on only where the report allows it and it was shown before.
/// It stays in its slot. A report of an earlier revision than the tile has to reach leaves
/// the record alone, and no report touches another tile.
pub proof fn law_stale_tiles_are_queued(cache: CacheModel, invalidation: TileInvalidation)
    requires
        cache.records_filed(),
    ensures
        ({
            let after = cache.invalidated(invalidation);
            let rank = invalidation.key.spec_rank();
            let record = after.records[rank];
            let known = cache.records[rank];
            &&& differ_in(cache, after, invalidation.key)
            &&& after.records.contains_key(rank)
            &&& after.dirty.contains(invalidation.key)
            &&& after.next_slot == cache.next_slot && after.batch == cache.batch && after.frame
                == cache.frame && after.layout == cache.layout && after.budget == cache.budget
                && after.slot_limit == cache.slot_limit
            &&& !cache.records.contains_key(rank) ==> {
                &&& record.key == invalidation.key
                &&& record.state is Dirty
                &&& record.desired_revision == invalidation.revision
                &&& record.halo_radius_px == invalidation.halo_radius_px
                &&& record.display_revision is None && record.presented_revision is None
                &&& !record.display_allowed && !record.visible && record.slot is None
                &&& !record.was_evicted
            }
            &&& cache.records.contains_key(rank) && invalidation.revision
                < known.desired_revision ==> record == known
            &&& cache.records.contains_key(rank) && invalidation.revision
                >= known.desired_revision ==> {
                &&& same_place(record, known)
                &&& record.state is Dirty
                &&& record.desired_revision == invalidation.revision
                &&& record.halo_radius_px == invalidation.halo_radius_px
                &&& record.display_allowed == (known.display_allowed
                    && invalidation.allow_stale_display)
                &&& record.display_revision == known.display_revision
                &&& record.presented_revision == known.presented_revision
            }
        }),
{
    lemma_rank_known(cache, invalidation.key);
    let after = cache.invalidated(invalidation);
    if !cache.dirty.contains(invalidation.key) {
        assert(after.dirty.last() == invalidation.key);
    }
}

/// A tile that was rasterized at the revision it has to reach is ready and shown from then
/// on, at that revision; nothing else about it changes, and no other tile. It counts as
/// rasterized, and as brought back where it had lost its slot.
pub proof fn law_rasterized_tiles_are_shown(cache: CacheModel, key: TileKey)
    requires
        cache.records_filed(),
        cache.records.contains_key(key.spec_rank()),
        cache.records[key.spec_rank()].state is Scheduled,
    ensures
        ({
            let known = cache.records[key.spec_rank()];
            let after = cache.informed(
                TileRenderFeedback::Complete { key, revision: known.desired_revision },
            );
            let record = after.records[key.spec_rank()];
            &&& differ_in(cache, after, key)
            &&& record.state is Ready
            &&& record.display_revision == Some(known.desired_revision)
            &&& record.display_allowed
            &&& !record.was_evicted
            &&& record.desired_revision == known.desired_revision
            &&& record.presented_revision == known.presented_revision
            &&& record.halo_radius_px == known.halo_radius_px
            &&& same_place(TileRecord { was_evicted: known.was_evicted, ..record }, known)
            &&& after.dirty == cache.dirty && after.next_slot == cache.next_slot && after.batch
                == cache.batch
            &&& cache.stats.rasterized_tiles < u64::MAX ==> after.stats.rasterized_tiles
                == cache.stats.rasterized_tiles + 1
            &&& known.was_evicted && cache.stats.regenerated_tiles < u64::MAX
                ==> after.stats.regenerated_tiles == cache.stats.regenerated_tiles + 1
            &&& !known.was_evicted ==> after.stats.regenerated_tiles
                == cache.stats.regenerated_tiles
        }),
{
    lemma_rank_known(cache, key);
}

/// A tile whose picture reached the screen remembers the latest revision of which that is
/// so; it has to be ready at that revision. Nothing else changes.
pub proof fn law_presented_tiles_remember_the_revision(
    cache: CacheModel,
    key: TileKey,
    revision: u64,
)
    requires
        cache.records_filed(),
    ensures
        ({
            let known = cache.records[key.spec_rank()];
            let after = cache.informed(TileRenderFeedback::Presented { key, revision });
            let record = after.records[key.spec_rank()];
            let due = cache.records.contains_key(key.spec_rank()) && known.state is Ready
                && known.desired_revision == revision && known.display_revision is Some
                && known.display_revision->0 >= revision;
            &&& !due ==> after == cache
            &&& due ==> {
                &&& differ_in(cache, after, key)
                &&& record.presented_revision is Some
                &&& record.presented_revision->0 >= revision
                &&& known.presented_revision is Some ==> record.presented_revision->0
                    >= known.presented_revision->0
                &&& record.presented_revision == Some(revision) || record.presented_revision
                    == known.presented_revision
                &&& record.state == known.state && record.desired_revision
                    == known.desired_revision && record.display_revision
                    == known.display_revision && record.display_allowed
                    == known.display_allowed && same_place(record, known)
                &&& after.dirty == cache.dirty
            }
        }),
{
    lemma_rank_known(cache, key);
}

/// A tile that the render side could not rasterize waits in the queue again, unless another
/// revision is asked for meanwhile. A limit on slots is taken over, one slot at least.
pub proof fn law_refused_tiles_wait_again(
    cache: CacheModel,
    key: TileKey,
    revision: u64,
    max_slots: u32,
)
    requires
        cache.records_filed(),
    ensures
        ({
            let known = cache.records[key.spec_rank()];
            let after = cache.informed(TileRenderFeedback::Retry { key, revision });
            let record = after.records[key.spec_rank()];
            let due = cache.records.contains_key(key.spec_rank()) && known.desired_revision
                == revision;
            &&& !due ==> after == cache
            &&& due ==> {
                &&& differ_in(cache, after, key)
                &&& after.dirty.contains(key)
                &&& record.state is Dirty
                &&& same_place(record, known)
                &&& record.desired_revision == known.desired_revision
                &&& record.display_revision == known.display_revision
                &&& record.display_allowed == known.display_allowed
            }
        }),
        ({
            let after = cache.informed(TileRenderFeedback::Capacity { max_slots });
            &&& max_slots > 0 ==> after.slot_limit == max_slots
            &&& max_slots == 0 ==> after.slot_limit == 1
            &&& after.records == cache.records && after.dirty == cache.dirty && after.next_slot
                == cache.next_slot
        }),
        cache.informed(TileRenderFeedback::DeviceReset) == cache,
{
    lemma_rank_known(cache, key);
    let after = cache.informed(TileRenderFeedback::Retry { key, revision });
    if cache.records.contains_key(key.spec_rank())
        && cache.records[key.spec_rank()].desired_revision == revision
        && !cache.dirty.contains(key) {
        assert(after.dirty.last() == key);
    }
}

/// A tile is ready for a revision where its picture may be shown from its slot and is of that
/// revision or a later one, and where nothing newer is asked for.
pub proof fn law_ready_tiles_have_a_current_picture(
    cache: CanvasTileCache,
    key: TileKey,
    revision: u64,
    ready: bool,
    state: Option<TileCacheState>,
)
    requires
        call_ensures(CanvasTileCache::tile_is_ready, (&cache, key, revision), ready),
        call_ensures(CanvasTileCache::tile_state, (&cache, key), state),
        cache@.records_filed(),
    ensures
        ({
            let record = cache@.records[key.spec_rank()];
            &&& ready ==> {
                &&& cache@.records.contains_key(key.spec_rank())
                &&& record.key == key
                &&& state == Some(TileCacheState::Ready)
                &&& record.slot is Some
                &&& record.display_allowed
                &&& record.display_revision == Some(record.desired_revision)
                &&& revision <= record.desired_revision
            }
            &&& cache@.records.contains_key(key.spec_rank()) && state == Some(
                TileCacheState::Ready,
            ) && revision <= record.desired_revision ==> ready
            &&& state is None <==> !cache@.records.contains_key(key.spec_rank())
            &&& state is Some ==> state->0 == record.state
        }),
{
    lemma_rank_known(cache@, key);
    if cache@.records.contains_key(key.spec_rank()) {
        assert(cache@.records[key.spec_rank()].consistent());
    }
}

/// Whether a tile is in view: it lies in the span, on a layer that is shown.
pub open spec fn in_view(layers: Seq<LayerModel>, span: TileSpan, key: TileKey) -> bool {
    spans_tile(span, key) && exists|n: int|
        0 <= n < layers.len() && (#[trigger] layers[n]).id == key.layer && layers[n].visible
}

/// What a look at some tiles does to the record of a tile.
pub open spec fn looked_upon(known: TileRecord, record: TileRecord, seen: bool, frame: u64) -> bool {
    &&& record.key == known.key
    &&& record.slot == known.slot
    &&& record.desired_revision == known.desired_revision
    &&& record.display_revision == known.display_revision
    &&& record.presented_revision == known.presented_revision
    &&& record.display_allowed == known.display_allowed
    &&& record.halo_radius_px == known.halo_radius_px
    &&& record.was_evicted == known.was_evicted
    &&& record.visible == seen
    &&& record.last_visible_frame == (if seen { frame } else { known.last_visible_frame })
    &&& record.state == (if seen && known.state is Evicted {
        TileCacheState::Dirty
    } else {
        known.state
    })
}

/// Whether a record is that of a tile that came into view for the first time.
pub open spec fn newly_seen(document: DocumentModel, record: TileRecord, frame: u64) -> bool {
    &&& document.shows_tile(record.key)
    &&& record.state is Dirty
    &&& record.desired_revision == document.revision
    &&& record.display_revision is None && record.presented_revision is None
    &&& !record.display_allowed && record.slot is None && !record.was_evicted
    &&& record.visible
    &&& record.last_visible_frame == frame
}

/// Looking at the first `count` listed tiles.
proof fn lemma_seen_each(
    cache: CacheModel,
    document: DocumentModel,
    keys: Seq<TileKey>,
    count: nat,
)
    requires
        cache.records_filed(),
        count <= keys.len(),
        forall|rank: u128| #[trigger]
            cache.records.contains_key(rank) ==> !cache.records[rank].visible,
    ensures
        ({
            let after = cache.seen_all(document, keys, count);
            &&& after.frame == cache.frame
            &&& forall|rank: u128| #[trigger]
                after.records.contains_key(rank) ==> after.records[rank].key.spec_rank() == rank
            &&& forall|rank: u128| #[trigger]
                cache.records.contains_key(rank) ==> {
                    &&& after.records.contains_key(rank)
                    &&& looked_upon(
                        cache.records[rank],
                        after.records[rank],
                        keys.take(count as int).contains(cache.records[rank].key),
                        cache.frame,
                    )
                }
            &&& forall|rank: u128| #[trigger]
                after.records.contains_key(rank) && !cache.records.contains_key(rank) ==> {
                    &&& keys.take(count as int).contains(after.records[rank].key)
                    &&& newly_seen(document, after.records[rank], cache.frame)
                }
            &&& forall|key: TileKey| #[trigger]
                keys.take(count as int).contains(key) && document.shows_tile(key)
                    ==> after.records.contains_key(key.spec_rank())
        }),
    decreases count,
{
    if count == 0 {
        assert(keys.take(0) =~= Seq::empty());
    } else {
        let few = keys.take(count - 1);
        let more = keys.take(count as int);
        let key = keys[count - 1];
        assert(more =~= few.push(key));
        lemma_seen_each(cache, document, keys, (count - 1) as nat);
        let before = cache.seen_all(document, keys, (count - 1) as nat);
        let after = before.seen(document, key);
        assert(after == cache.seen_all(document, keys, count));
        assert forall|other: TileKey| #[trigger] more.contains(other) <==> few.contains(other)
            || other == key by {
            if few.contains(other) {
                let i = choose|i: int| 0 <= i < few.len() && few[i] == other;
                assert(more[i] == other);
            }
            if other == key {
                assert(more[count - 1] == key);
            }
            if more.contains(other) {
                let i = choose|i: int| 0 <= i < more.len() && more[i] == other;
                if i < count - 1 {
                    assert(few[i] == other);
                }
            }
        }
        if before.records.contains_key(key.spec_rank()) {
            crate::geometry::lemma_rank_injective(before.records[key.spec_rank()].key, key);
        }
        assert forall|rank: u128| #[trigger] cache.records.contains_key(rank) implies {
            &&& after.records.contains_key(rank)
            &&& looked_upon(
                cache.records[rank],
                after.records[rank],
                more.contains(cache.records[rank].key),
                cache.frame,
            )
        } by {
            let known = cache.records[rank];
            assert(before.records.contains_key(rank));
            assert(known.key.spec_rank() == rank);
            if rank != key.spec_rank() {
                assert(known.key != key);
                assert(after.records[rank] == before.records[rank]);
            } else {
                assert(before.records[rank].key == known.key);
                assert(known.key == key);
            }
            assert(more.contains(known.key) <==> few.contains(known.key) || known.key == key);
        }
        assert forall|rank: u128| #[trigger]
            after.records.contains_key(rank) && !cache.records.contains_key(rank) implies {
            &&& more.contains(after.records[rank].key)
            &&& newly_seen(document, after.records[rank], cache.frame)
        } by {
            if rank != key.spec_rank() {
                assert(before.records.contains_key(rank));
                assert(more.contains(after.records[rank].key));
            } else {
                assert(more.contains(key));
            }
        }
        assert forall|other: TileKey| #[trigger]
            more.contains(other) && document.shows_tile(
                other,
            ) implies after.records.contains_key(other.spec_rank()) by {
            if few.contains(other) {
                assert(before.records.contains_key(other.spec_rank()));
            }
        }
    }
}

/// A look at the canvas marks exactly the tiles in view: those in the span on a layer that is
/// shown, at a new frame. Tiles in view that had lost their slot are asked for again, tiles
/// in view that the cache does not know are taken up where a shown stroke reaches them, and
/// nothing else about any tile changes.
pub proof fn law_looking_marks_the_tiles_in_view(
    cache: CacheModel,
    document: DocumentModel,
    span: TileSpan,
    rank: u128,
)
    requires
        cache.well_formed(),
        cache.layout is Some,
    ensures
        ({
            let after = cache.looked_at(document, Some(span));
            let record = after.records[rank];
            &&& after.frame == cache.frame.wrapping_add(1)
            &&& cache.records.contains_key(rank) ==> {
                &&& after.records.contains_key(rank)
                &&& looked_upon(
                    cache.records[rank],
                    record,
                    in_view(document.layers, span, cache.records[rank].key),
                    after.frame,
                )
            }
            &&& after.records.contains_key(rank) && !cache.records.contains_key(rank) ==> {
                &&& in_view(document.layers, span, record.key)
                &&& newly_seen(document, record, after.frame)
            }
            &&& forall|key: TileKey|
                #![trigger key.spec_rank()]
                in_view(document.layers, span, key) && document.shows_tile(key)
                    ==> after.records.contains_key(key.spec_rank())
            &&& after.queue_complete()
        }),
{
    let fresh = cache.unseen();
    let keys = tiles_in_view(document.layers, span);
    lemma_unseen(cache);
    lemma_looked_at(cache, document, Some(span));
    lemma_seen_each(fresh, document, keys, keys.len());
    assert(keys.take(keys.len() as int) =~= keys);
    let after = cache.looked_at(document, Some(span));
    assert(after == fresh.seen_all(document, keys, keys.len()));
    assert forall|key: TileKey| #[trigger] keys.contains(key) <==> in_view(
        document.layers,
        span,
        key,
    ) by {
        lemma_tiles_in_view(document.layers, span, key);
    }
    if cache.records.contains_key(rank) {
        assert(fresh.records.contains_key(rank));
        assert(keys.contains(cache.records[rank].key) <==> in_view(
            document.layers,
            span,
            cache.records[rank].key,
        ));
    }
    if after.records.contains_key(rank) && !cache.records.contains_key(rank) {
        assert(!fresh.records.contains_key(rank));
        assert(keys.contains(after.records[rank].key));
    }
    assert forall|key: TileKey|
        #![trigger key.spec_rank()]
        in_view(document.layers, span, key) && document.shows_tile(
            key,
        ) implies after.records.contains_key(key.spec_rank()) by {
        assert(keys.contains(key));
    }
}

/// Without a view, or before a layout is known, no tile is in view.
pub proof fn law_without_a_view_no_tile_is_seen(
    cache: CacheModel,
    document: DocumentModel,
    view: Option<TileSpan>,
    rank: u128,
)
    requires
        view is None || cache.layout is None,
    ensures
        ({
            let after = cache.looked_at(document, view);
            &&& after.records.contains_key(rank) <==> cache.records.contains_key(rank)
            &&& cache.records.contains_key(rank) ==> looked_upon(
                cache.records[rank],
                after.records[rank],
                false,
                after.frame,
            )
            &&& after.dirty == cache.dirty
        }),
{
}

/// A tile is worth keeping where a shown stroke that was completed reaches it, on a layer
/// that is shown.
pub proof fn law_tiles_show_completed_strokes(document: DocumentModel, key: TileKey, place: int)
    requires
        distinct_layers(document.layers),
        0 <= place < document.layers.len(),
        document.layers[place].id == key.layer,
    ensures
        document.shows_tile(key) <==> document.layers[place].visible && exists|k: int|
            0 <= k < document.tile_entries(key).len() && belongs(
                document,
                #[trigger] document.tile_entries(key)[k],
            ),
{
    lemma_layer_found(document.layers, place);
    lemma_layer_position(document.layers, key.layer);
    let found = layer_position(document.layers, key.layer);
    if found < place {
        assert(document.layers[found].id != document.layers[place].id);
    } else if found > place {
        assert(document.layers[place].id != key.layer);
    }
    let entries = document.tile_entries(key);
    if exists|k: int| 0 <= k < entries.len() && belongs(document, #[trigger] entries[k]) {
        let k = choose|k: int| 0 <= k < entries.len() && belongs(document, #[trigger] entries[k]);
        assert(document.replays(entries[k]));
    }
    if exists|k: int| 0 <= k < entries.len() && document.replays(#[trigger] entries[k]) {
        let k = choose|k: int| 0 <= k < entries.len() && document.replays(#[trigger] entries[k]);
        assert(belongs(document, entries[k]));
    }
}

/// Whether a tile can be composed onto the screen.
pub open spec fn can_be_shown(record: TileRecord) -> bool {
    record.visible && record.display_allowed && record.slot is Some && record.display_revision
        is Some
}

/// Whether one tile is composed before another: it is on a lower layer, or further up on the
/// same, or further left in the same row.
pub open spec fn composed_before(a: TileDisplayInstance, b: TileDisplayInstance) -> bool {
    ||| a.layer_order < b.layer_order
    ||| a.layer_order == b.layer_order && a.key.y < b.key.y
    ||| a.layer_order == b.layer_order && a.key.y == b.key.y && a.key.x < b.key.x
}

/// The display lists exactly the tiles in view that may be shown, each once, from the lowest
/// layer to the topmost and each layer row by row. Each is shown from its slot with the
/// opacity of its layer.
pub proof fn law_displays_list_what_can_be_shown(
    cache: CacheModel,
    document: DocumentModel,
    display: Seq<TileDisplayInstance>,
)
    requires
        cache.records_filed(),
        cache.displays_known_layers(document),
        document.layers.len() <= u32::MAX,
        cache.lists_displayed(document, display),
    ensures
        forall|rank: u128| #[trigger]
            cache.records.contains_key(rank) && can_be_shown(cache.records[rank]) ==> exists|
                i: int,
            |
                0 <= i < display.len() && (#[trigger] display[i]).key == cache.records[rank].key,
        forall|i: int|
            0 <= i < display.len() ==> {
                let shown = #[trigger] display[i];
                let record = cache.records[shown.key.spec_rank()];
                &&& cache.records.contains_key(shown.key.spec_rank())
                &&& record.key == shown.key
                &&& can_be_shown(record)
                &&& record.slot == Some(shown.slot)
                &&& record.display_revision == Some(shown.revision)
                &&& shown.layer_count == document.layers.len()
                &&& shown.layer_order < shown.layer_count
                &&& document.layers[shown.layer_order as int].id == shown.key.layer
                &&& document.layers[shown.layer_order as int].opacity == shown.opacity
            },
        forall|i: int, j: int|
            0 <= i < j < display.len() ==> composed_before(
                #[trigger] display[i],
                #[trigger] display[j],
            ),
{
    assert forall|rank: u128| #[trigger]
        cache.records.contains_key(rank) && can_be_shown(cache.records[rank]) implies exists|
            i: int,
        |
        0 <= i < display.len() && (#[trigger] display[i]).key == cache.records[rank].key by {
        assert(display.contains(cache.instance(document, rank)));
        let i = choose|i: int|
            0 <= i < display.len() && display[i] == cache.instance(document, rank);
        assert(display[i].key == cache.records[rank].key);
    }
    assert forall|i: int| 0 <= i < display.len() implies {
        let shown = #[trigger] display[i];
        let record = cache.records[shown.key.spec_rank()];
        &&& cache.records.contains_key(shown.key.spec_rank())
        &&& record.key == shown.key
        &&& can_be_shown(record)
        &&& record.slot == Some(shown.slot)
        &&& record.display_revision == Some(shown.revision)
        &&& shown.layer_count == document.layers.len()
        &&& shown.layer_order < shown.layer_count
        &&& document.layers[shown.layer_order as int].id == shown.key.layer
        &&& document.layers[shown.layer_order as int].opacity == shown.opacity
        &&& shown.layer_order == layer_position(document.layers, shown.key.layer)
    } by {
        let rank = display[i].key.spec_rank();
        assert(cache.records.contains_key(rank));
        lemma_rank_known(cache, display[i].key);
        lemma_layer_position(document.layers, cache.records[rank].key.layer);
    }
    assert forall|i: int, j: int| 0 <= i < j < display.len() implies composed_before(
        #[trigger] display[i],
        #[trigger] display[j],
    ) by {
        let (a, b) = (display[i], display[j]);
        assert(crate::cache::display_rank(document.layers, a.key) < crate::cache::display_rank(
            document.layers,
            b.key,
        ));
        lemma_ranked_apart(
            a.layer_order as int,
            a.key.y as int,
            a.key.x as int,
            b.layer_order as int,
            b.key.y as int,
            b.key.x as int,
        );
    }
}

/// Numbers that are composed of a layer, a row and a column are ordered by these in turn.
proof fn lemma_ranked_apart(p: int, y: int, x: int, q: int, v: int, u: int)
    requires
        -0x8000_0000 <= y < 0x8000_0000,
        -0x8000_0000 <= x < 0x8000_0000,
        -0x8000_0000 <= v < 0x8000_0000,
        -0x8000_0000 <= u < 0x8000_0000,
        p * 0x1_0000_0000_0000_0000 + (y + 0x8000_0000) * 0x1_0000_0000 + (x + 0x8000_0000) < q
            * 0x1_0000_0000_0000_0000 + (v + 0x8000_0000) * 0x1_0000_0000 + (u + 0x8000_0000),
    ensures
        p < q || p == q && y < v || p == q && y == v && x < u,
{
}

/// A slot that is handed out is the tile's own, a new one within the limit and the budget, or
/// that of the tile which may be dropped and was out of view the longest. Slots of all other
/// tiles stay as they are. None is handed out only where there is no such slot.
pub proof fn law_slots_come_from_the_longest_unseen(cache: CacheModel, key: TileKey)
    requires
        cache.sound(),
        cache.records.contains_key(key.spec_rank()),
        cache.records[key.spec_rank()].state is Dirty,
    ensures
        ({
            let rank = key.spec_rank();
            let after = cache.slotted(key);
            let granted = cache.slot_for(key);
            let roomy = cache.next_slot < cache.slot_limit && (cache.next_slot + 1)
                * cache.slot_bytes() <= u64::MAX && (cache.next_slot + 1) * cache.slot_bytes()
                <= cache.budget;
            &&& cache.records[rank].slot is Some ==> granted == cache.records[rank].slot && after
                == cache
            &&& granted is Some ==> after.records[rank].slot == granted
            &&& cache.records[rank].slot is None && cache.layout is None ==> granted is None
            &&& cache.records[rank].slot is None && cache.layout is Some && roomy ==> {
                &&& granted == Some(cache.next_slot)
                &&& after.next_slot == cache.next_slot + 1
                &&& differ_in(cache, after, key)
            }
            &&& cache.records[rank].slot is None && cache.layout is Some && !cache.can_grow()
                && granted is Some ==> exists|victim: u128|
                {
                    &&& #[trigger] cache.records.contains_key(victim)
                    &&& cache.records[victim].slot == granted
                    &&& cache.records[victim].state is Ready
                    &&& !cache.records[victim].visible
                    &&& after.records[victim].slot is None
                    &&& after.records[victim].state is Evicted
                    &&& after.records[victim].was_evicted
                    &&& !after.records[victim].display_allowed
                    &&& forall|other: u128| #[trigger]
                        cache.records.contains_key(other) && cache.records[other].state is Ready
                            && !cache.records[other].visible
                            ==> cache.records[victim].last_visible_frame
                            <= cache.records[other].last_visible_frame
                    &&& forall|other: u128|
                        other != victim && other != rank && cache.records.contains_key(other)
                            ==> #[trigger] after.records[other] == cache.records[other]
                    &&& after.next_slot == cache.next_slot
                }
            &&& cache.layout is Some && granted is None ==> forall|other: u128| #[trigger]
                cache.records.contains_key(other) && cache.records[other].slot is Some
                    ==> cache.records[other].visible || !(cache.records[other].state is Ready)
        }),
{
    let rank = key.spec_rank();
    let after = cache.slotted(key);
    let granted = cache.slot_for(key);
    lemma_rank_known(cache, key);
    crate::cache_steps::lemma_slotted(cache, key);
    assert(cache.records[rank].consistent());
    if cache.records[rank].slot is None && cache.layout is Some && !cache.can_grow() {
        if granted is Some {
            let victim = cache.victim()->0;
            assert(cache.victim() is Some);
            assert(cache.first_to_go(victim));
            assert(cache.records[victim].key.spec_rank() == victim);
            assert(victim != rank);
            assert forall|other: u128| #[trigger]
                cache.records.contains_key(other) && cache.records[other].state is Ready
                    && !cache.records[other].visible implies
                cache.records[victim].last_visible_frame
                <= cache.records[other].last_visible_frame by {
                assert(cache.records[other].consistent());
                assert(cache.records[other].evictable());
            }
            assert(cache.records.contains_key(victim));
        } else {
            assert forall|other: u128| #[trigger]
                cache.records.contains_key(other) && cache.records[other].slot
                    is Some implies cache.records[other].visible || !(
            cache.records[other].state is Ready) by {
                if cache.victim() is Some {
                    let victim = cache.victim()->0;
                    assert(cache.first_to_go(victim));
                } else if cache.records[other].evictable() {
                    lemma_some_go_first(cache, other);
                }
            }
        }
    }
    if cache.layout is Some && granted is None {
        assert(!cache.can_grow());
    }
}

/// Where some tile may be dropped, one is the first to go.
proof fn lemma_some_go_first(cache: CacheModel, rank: u128)
    requires
        cache.records.dom().finite(),
        cache.records.contains_key(rank),
        cache.records[rank].evictable(),
    ensures
        exists|first: u128| cache.first_to_go(first),
{
    let droppable = cache.records.dom().filter(|other: u128| cache.records[other].evictable());
    assert(droppable.contains(rank));
    assert(droppable.finite());
    lemma_first_among(cache, droppable, rank);
    let first = choose|first: u128|
        droppable.contains(first) && forall|other: u128| #[trigger]
            droppable.contains(other) ==> goes_no_later(cache, first, other);
    assert forall|other: u128| #[trigger]
        cache.records.contains_key(other) && cache.records[other].evictable() implies {
        ||| cache.records[first].last_visible_frame < cache.records[other].last_visible_frame
        ||| cache.records[first].last_visible_frame == cache.records[other].last_visible_frame
            && first <= other
    } by {
        assert(droppable.contains(other));
        assert(goes_no_later(cache, first, other));
    }
    assert(cache.first_to_go(first));
}

spec fn goes_no_later(cache: CacheModel, a: u128, b: u128) -> bool {
    ||| cache.records[a].last_visible_frame < cache.records[b].last_visible_frame
    ||| cache.records[a].last_visible_frame == cache.records[b].last_visible_frame && a <= b
}

proof fn lemma_first_among(cache: CacheModel, ranks: Set<u128>, one: u128)
    requires
        ranks.finite(),
        ranks.contains(one),
    ensures
        exists|first: u128|
            ranks.contains(first) && forall|other: u128| #[trigger]
                ranks.contains(other) ==> goes_no_later(cache, first, other),
    decreases ranks.len(),
{
    let rest = ranks.remove(one);
    if rest.is_empty() {
        assert forall|other: u128| #[trigger] ranks.contains(other) implies goes_no_later(
            cache,
            one,
            other,
        ) by {
            if other != one {
                assert(rest.contains(other));
            }
        }
    } else {
        let another = rest.choose();
        lemma_first_among(cache, rest, another);
        let early = choose|first: u128|
            rest.contains(first) && forall|other: u128| #[trigger]
                rest.contains(other) ==> goes_no_later(cache, first, other);
        let first = if goes_no_later(cache, one, early) { one } else { early };
        assert(ranks.contains(first));
        assert forall|other: u128| #[trigger] ranks.contains(other) implies goes_no_later(
            cache,
            first,
            other,
        ) by {
            if other != one {
                assert(rest.contains(other));
                assert(goes_no_later(cache, early, other));
            }
        }
    }
}

/// The tile that is replayed next is the one that waits the longest among those asked for, in
/// view or out of it. It leaves the queue, and every other tile that waits stays in it.
pub proof fn law_waiting_tiles_are_served_in_turn(cache: CacheModel, prefer_visible: bool)
    requires
        cache.well_formed(),
    ensures
        ({
            let after = cache.searched(prefer_visible);
            match cache.next_dirty(prefer_visible) {
                Some(key) => {
                    &&& exists|i: int|
                        {
                            &&& 0 <= i < cache.dirty.len()
                            &&& #[trigger] cache.dirty[i] == key
                            &&& forall|j: int|
                                0 <= j < i ==> !waits(
                                    cache,
                                    #[trigger] cache.dirty[j],
                                    prefer_visible,
                                )
                        }
                    &&& waits(cache, key, prefer_visible)
                    &&& !after.dirty.contains(key)
                    &&& forall|rank: u128| #[trigger]
                        cache.records.contains_key(rank) && cache.records[rank].state is Dirty
                            && cache.records[rank].key != key ==> after.dirty.contains(
                            cache.records[rank].key,
                        )
                },
                None => {
                    &&& forall|rank: u128| #[trigger]
                        cache.records.contains_key(rank) && cache.records[rank].state is Dirty
                            ==> cache.records[rank].visible != prefer_visible
                            && after.dirty.contains(cache.records[rank].key)
                },
            }
        }),
        cache.searched(prefer_visible).records == cache.records,
{
    lemma_searched(cache, prefer_visible);
    lemma_first_wanted(cache.records, cache.dirty, prefer_visible);
    let i = first_wanted(cache.records, cache.dirty, prefer_visible);
    let after = cache.searched(prefer_visible);
    if i < cache.dirty.len() {
        let key = cache.dirty[i];
        assert forall|j: int| 0 <= j < i implies !waits(
            cache,
            #[trigger] cache.dirty[j],
            prefer_visible,
        ) by {
            assert(!crate::cache::wanted(cache.records, cache.dirty[j], prefer_visible));
        }
        assert forall|rank: u128| #[trigger]
            cache.records.contains_key(rank) && cache.records[rank].state is Dirty
                && cache.records[rank].key != key implies after.dirty.contains(
            cache.records[rank].key,
        ) by {
            assert(after.records.contains_key(rank));
        }
    } else {
        assert forall|rank: u128| #[trigger]
            cache.records.contains_key(rank) && cache.records[rank].state
                is Dirty implies cache.records[rank].visible != prefer_visible
            && after.dirty.contains(cache.records[rank].key) by {
            assert(after.records.contains_key(rank));
            let key = cache.records[rank].key;
            assert(cache.dirty.contains(key));
            let j = choose|j: int| 0 <= j < cache.dirty.len() && cache.dirty[j] == key;
            assert(!crate::cache::wanted(cache.records, cache.dirty[j], prefer_visible));
        }
    }
}

/// Whether a tile waits for replay, in view or out of it.
pub open spec fn waits(cache: CacheModel, key: TileKey, in_view: bool) -> bool {
    &&& cache.records.contains_key(key.spec_rank())
    &&& cache.records[key.spec_rank()].state is Dirty
    &&& cache.records[key.spec_rank()].visible == in_view
}

/// Another layout or another budget empties the cache; the same ones leave it alone. What an
/// emptied cache knows of tiles, slots and work is gone, and it counts nothing as resident.
pub proof fn law_another_layout_empties_the_cache(
    cache: CacheModel,
    layout: LayoutModel,
    budget: u64,
)
    ensures
        ({
            let after = cache.configured(layout, budget);
            &&& after.layout == Some(layout)
            &&& after.budget == budget
            &&& cache.layout == Some(layout) && cache.budget == budget ==> after == cache
            &&& cache.layout != Some(layout) || cache.budget != budget ==> {
                &&& emptied(after)
                &&& after.scratch.budget == budget
                &&& after.scratch.leased == 0
            }
            &&& after.slot_limit == cache.slot_limit && after.frame == cache.frame
                && after.document_generation == cache.document_generation
        }),
        ({
            let after = cache.reset();
            &&& emptied(after)
            &&& after.layout == cache.layout && after.budget == cache.budget
                && after.slot_limit == cache.slot_limit && after.frame == cache.frame
        }),
{
}

/// Whether nothing is known of any tile.
pub open spec fn emptied(cache: CacheModel) -> bool {
    &&& cache.records == Map::<u128, TileRecord>::empty()
    &&& cache.dirty.len() == 0
    &&& cache.next_slot == 0
    &&& cache.batch.jobs.len() == 0
    &&& cache.batch.display.len() == 0
    &&& cache.stats.resident_tiles == 0
    &&& cache.stats.persistent_bytes == 0
}

/// A pass over the tiles hands its work out under the next serial number, at the tile size of
/// the layout, with the display it was given and without the work of the pass before.
pub proof fn law_passes_begin_with_no_work(
    cache: CacheModel,
    display: Seq<TileDisplayInstance>,
)
    ensures
        ({
            let after = cache.batch_begun(display);
            &&& after.batch.jobs.len() == 0
            &&& after.batch.display == display
            &&& after.batch.serial != cache.batch.serial
            &&& cache.layout is Some ==> after.batch.tile_size == cache.layout->0.tile_size
            &&& after.records == cache.records && after.dirty == cache.dirty
        }),
{
}

/// What is accounted for at the end of a pass: the tiles that are still to be rasterized, and
/// scratch memory for no more tiles than were handed out and than effects may take at once.
pub proof fn law_passes_account_for_what_is_left(
    cache: CacheModel,
    effect_budget: u32,
    planes: Seq<PaintPlaneDescriptor>,
)
    requires
        cache.batch.jobs.len() <= u32::MAX,
    ensures
        ({
            let after = cache.accounted(effect_budget, planes);
            &&& after.effect_tiles(effect_budget) <= effect_budget
            &&& after.effect_tiles(effect_budget) <= cache.batch.jobs.len()
            &&& after.effect_tiles(effect_budget) == effect_budget || after.effect_tiles(
                effect_budget,
            ) == cache.batch.jobs.len()
            &&& after.stats.dirty_tiles == Set::new(
                |rank: u128|
                    cache.records.contains_key(rank) && (cache.records[rank].state is Dirty
                        || cache.records[rank].state is Scheduled),
            ).len() as u64
            &&& after.stats.resident_tiles == cache.stats.resident_tiles
            &&& after.stats.persistent_bytes == cache.stats.persistent_bytes
            &&& after.stats.scratch_high_water_bytes >= cache.stats.scratch_high_water_bytes
                || after.stats.scratch_high_water_bytes == after.scratch.high_water
            &&& after.scratch.high_water >= cache.scratch.high_water
            &&& cache.stats.persistent_bytes <= cache.budget ==> after.scratch.budget
                == cache.budget - cache.stats.persistent_bytes
            &&& after.records == cache.records && after.dirty == cache.dirty && after.batch
                == cache.batch
        }),
{
    assert(crate::cache::pending(cache.records) =~= Set::new(
        |rank: u128|
            cache.records.contains_key(rank) && (cache.records[rank].state is Dirty
                || cache.records[rank].state is Scheduled),
    ));
}

/// The bytes that resident tiles take are those of one tile for each slot in use.
pub proof fn law_resident_tiles_are_counted(cache: CacheModel)
    requires
        cache.well_formed(),
        cache.layout is Some,
    ensures
        ({
            let slots = Set::new(
                |rank: u128|
                    cache.records.contains_key(rank) && cache.records[rank].slot is Some,
            );
            let tile = if cache.layout->0.bytes_per_tile == 0 {
                1
            } else {
                cache.layout->0.bytes_per_tile as nat
            };
            &&& cache.stats.resident_tiles == slots.len()
            &&& slots.len() * tile <= u64::MAX ==> cache.stats.persistent_bytes == slots.len()
                * tile
            &&& cache.stats.persistent_bytes <= cache.budget
        }),
{
    assert(residents(cache.records) =~= Set::new(
        |rank: u128| cache.records.contains_key(rank) && cache.records[rank].slot is Some,
    ));
    crate::tile_laws::law_resident_tiles_stay_within_the_budget(cache);
}

/// A new cache knows of no tile and may use 256 mebibytes.
pub proof fn law_caches_begin_empty(cache: CanvasTileCache)
    requires
        call_ensures(CanvasTileCache::new, (), cache),
    ensures
        emptied(cache@),
        cache@.layout is None,
        cache@.document_generation is None,
        cache@.budget == 256 * 1024 * 1024,
        cache@.slot_limit == u32::MAX,
        cache@.frame == 0,
{
}

/// Reports of completed strokes are counted, and those of effects that reach beyond their
/// tile; all other counters stay.
pub proof fn law_stale_tiles_are_counted(cache: CacheModel, invalidation: TileInvalidation)
    ensures
        ({
            let (before, after) = (cache.stats, cache.invalidated(invalidation).stats);
            let stroke = invalidation.cause is StrokeCommit;
            let effect = invalidation.cause is EffectDependency && invalidation.halo_radius_px
                > 0;
            &&& stroke && before.stroke_invalidations < u64::MAX ==> after.stroke_invalidations
                == before.stroke_invalidations + 1
            &&& !stroke ==> after.stroke_invalidations == before.stroke_invalidations
            &&& effect && before.effect_expanded_invalidations < u64::MAX
                ==> after.effect_expanded_invalidations == before.effect_expanded_invalidations
                + 1
            &&& !effect ==> after.effect_expanded_invalidations
                == before.effect_expanded_invalidations
            &&& after.resident_tiles == before.resident_tiles && after.rasterized_tiles
                == before.rasterized_tiles && after.evicted_tiles == before.evicted_tiles
                && after.regenerated_tiles == before.regenerated_tiles && after.persistent_bytes
                == before.persistent_bytes
        }),
{
}

/// A tile that loses its slot is counted, and among tiles that were out of view equally long
/// the first one goes.
pub proof fn law_evictions_are_counted(cache: CacheModel, key: TileKey)
    requires
        cache.sound(),
        cache.records.contains_key(key.spec_rank()),
        cache.records[key.spec_rank()].state is Dirty,
        cache.records[key.spec_rank()].slot is None,
        cache.layout is Some,
        !cache.can_grow(),
        cache.slot_for(key) is Some,
    ensures
        cache.stats.evicted_tiles < u64::MAX ==> cache.slotted(key).stats.evicted_tiles
            == cache.stats.evicted_tiles + 1,
        exists|victim: u128|
            {
                &&& #[trigger] cache.records.contains_key(victim)
                &&& cache.records[victim].slot == cache.slot_for(key)
                &&& forall|other: u128| #[trigger]
                    cache.records.contains_key(other) && cache.records[other].state is Ready
                        && !cache.records[other].visible && cache.records[other].last_visible_frame
                        == cache.records[victim].last_visible_frame ==> victim <= other
            },
{
    let victim = cache.victim()->0;
    assert(cache.first_to_go(victim));
    assert forall|other: u128| #[trigger]
        cache.records.contains_key(other) && cache.records[other].state is Ready
            && !cache.records[other].visible && cache.records[other].last_visible_frame
            == cache.records[victim].last_visible_frame implies victim <= other by {
        assert(cache.records[other].consistent());
        assert(cache.records[other].evictable());
    }
    assert(cache.records.contains_key(victim));
}

/// A cache may grow exactly while the device has a slot more and the budget room for a tile
/// more.
pub proof fn law_caches_grow_within_their_budget(cache: CacheModel)
    requires
        cache.layout is Some,
        cache.layout->0.bytes_per_tile > 0,
        (cache.next_slot + 1) * cache.layout->0.bytes_per_tile <= u64::MAX,
    ensures
        cache.can_grow() <==> cache.next_slot < cache.slot_limit && (cache.next_slot + 1)
            * cache.layout->0.bytes_per_tile <= cache.budget,
        cache.tile_size() == cache.layout->0.tile_size,
{
}

} // verus!
