//! What holds of the tile cache across its operations.
use crate::cache::{
    replay_of, replayed_in, residents, tile_replay, wanted, CacheModel, TileRenderFeedback,
};
use crate::cache_steps::{
    lemma_fill_step, lemma_filled, lemma_first_wanted, lemma_rank_known, lemma_resident_count,
    lemma_searched, lemma_slotted,
};
use crate::geometry::TileKey;
use crate::paint::PaintPlaneDescriptor;
use crate::scratch::{pixel_count, plane_bytes};
use crate::spatial::{in_document_order, TileEntryModel};
use crate::state::DocumentModel;
use crate::strokes::TileInvalidation;
use vstd::prelude::*;

verus! {

/// A completion of another revision than the tile has to reach, or one that
/// nobody asked for, changes nothing.
pub proof fn law_stale_completion_is_ignored(cache: CacheModel, key: TileKey, revision: u64)
    requires
        cache.well_formed(),
        cache.records.contains_key(key.spec_rank()) ==> {
            ||| cache.records[key.spec_rank()].desired_revision != revision
            ||| !(cache.records[key.spec_rank()].state is Scheduled)
        },
    ensures
        cache.informed(TileRenderFeedback::Complete { key, revision }) == cache,
{
}

/// A tile comes to serve a revision only through the completion of the revision
/// it has to reach, which is no older.
pub proof fn law_only_current_completions_make_tiles_ready(
    cache: CacheModel,
    report: TileRenderFeedback,
    key: TileKey,
    revision: u64,
)
    requires
        cache.well_formed(),
        !cache.tile_ready(key, revision),
        cache.informed(report).tile_ready(key, revision),
    ensures
        report == (TileRenderFeedback::Complete {
            key,
            revision: cache.records[key.spec_rank()].desired_revision,
        }),
        revision <= cache.records[key.spec_rank()].desired_revision,
{
    lemma_rank_known(cache, key);
    match report {
        TileRenderFeedback::Complete { key: other, revision: done } => {
            lemma_rank_known(cache, other);
            if other.spec_rank() == key.spec_rank() {
                crate::geometry::lemma_rank_injective(other, key);
            }
        },
        TileRenderFeedback::Presented { key: other, revision: shown } => {
            lemma_rank_known(cache, other);
        },
        TileRenderFeedback::Retry { key: other, revision: tried } => {
            lemma_rank_known(cache, other);
        },
        _ => {},
    }
}

/// An invalidation that is not outdated withdraws a tile until it is replayed.
pub proof fn law_invalidation_withdraws_readiness(
    cache: CacheModel,
    invalidation: TileInvalidation,
    revision: u64,
)
    requires
        cache.well_formed(),
        cache.records.contains_key(invalidation.key.spec_rank()) ==> cache.records[
            invalidation.key.spec_rank()
        ].desired_revision <= invalidation.revision,
    ensures
        !cache.invalidated(invalidation).tile_ready(invalidation.key, revision),
        cache.invalidated(invalidation).dirty.contains(invalidation.key),
{
    lemma_rank_known(cache, invalidation.key);
    let after = cache.invalidated(invalidation);
    if !cache.dirty.contains(invalidation.key) {
        assert(after.dirty[cache.dirty.len() as int] == invalidation.key);
    }
}

/// Only a clean tile out of view ever loses its slot to another.
pub proof fn law_only_clean_hidden_tiles_are_evicted(cache: CacheModel, key: TileKey, rank: u128)
    requires
        cache.well_formed(),
        cache.records.contains_key(rank),
        cache.slotted(key).records[rank].slot != cache.records[rank].slot,
        rank != key.spec_rank(),
    ensures
        cache.records[rank].state is Ready,
        !cache.records[rank].visible,
        cache.slotted(key).records[rank].state is Evicted,
        cache.slotted(key).records[rank].slot is None,
{
    lemma_rank_known(cache, key);
    if cache.slot_for(key) is Some && cache.records[key.spec_rank()].slot is None
        && !cache.can_grow() {
        let gone = cache.victim()->0;
        assert(cache.first_to_go(gone));
        assert(cache.records.contains_key(gone));
        assert(cache.records[gone].key.spec_rank() == gone);
    }
}

/// An evicted tile is queued for replay again once it comes into view.
pub proof fn law_evicted_tiles_return_when_seen(
    cache: CacheModel,
    document: DocumentModel,
    key: TileKey,
)
    requires
        cache.well_formed(),
        cache.records.contains_key(key.spec_rank()),
        cache.records[key.spec_rank()].state is Evicted,
    ensures
        cache.seen(document, key).records[key.spec_rank()].state is Dirty,
        cache.seen(document, key).dirty.contains(key),
{
    lemma_rank_known(cache, key);
    let after = cache.seen(document, key);
    if !cache.dirty.contains(key) {
        assert(after.dirty[cache.dirty.len() as int] == key);
    }
}

/// Resident tiles stay within the memory limit, as far as their bytes can be counted.
pub proof fn law_resident_tiles_stay_within_the_budget(cache: CacheModel)
    requires
        cache.well_formed(),
    ensures
        cache.stats.resident_tiles <= cache.next_slot,
        cache.stats.persistent_bytes <= cache.budget,
{
    lemma_resident_count(cache);
    let count = residents(cache.records).len();
    assert(count * cache.slot_bytes() <= cache.next_slot as nat * cache.slot_bytes())
        by (nonlinear_arith)
        requires
            count <= cache.next_slot as nat,
            cache.slot_bytes() >= 0,
    ;
}

/// Tiles are replayed in document order: the strokes of a tile's replay list are
/// those of its index entries that take part, each once, an earlier stroke
/// always before a later one.
pub proof fn law_tiles_replay_in_document_order(document: DocumentModel, key: TileKey)
    requires
        document.well_formed(),
    ensures
        ({
            let entries = document.tile_entries(key);
            let kept = entries.filter(replayed_in(document));
            let replay = tile_replay(document, key);
            &&& in_document_order(entries)
            &&& in_document_order(kept)
            &&& replay.len() == kept.len()
            &&& forall|k: int|
                0 <= k < replay.len() ==> #[trigger] replay[k] == replay_of(document)(kept[k])
        }),
{
    lemma_filter_keeps_order(document.tile_entries(key), replayed_in(document));
}

/// Picking entries keeps their order.
proof fn lemma_filter_keeps_order(
    entries: Seq<TileEntryModel>,
    wanted: spec_fn(TileEntryModel) -> bool,
)
    requires
        in_document_order(entries),
    ensures
        in_document_order(entries.filter(wanted)),
        forall|k: int|
            0 <= k < entries.filter(wanted).len() ==> entries.contains(
                #[trigger] entries.filter(wanted)[k],
            ),
    decreases entries.len(),
{
    reveal(Seq::filter);
    if entries.len() > 0 {
        let front = entries.drop_last();
        lemma_filter_keeps_order(front, wanted);
        let picked = front.filter(wanted);
        assert forall|k: int| 0 <= k < picked.len() implies entries.contains(
            #[trigger] picked[k],
        ) && picked[k].stroke_index < entries.last().stroke_index by {
            let j = choose|j: int| 0 <= j < front.len() && front[j] == picked[k];
            assert(entries[j] == picked[k]);
        }
        assert(entries.contains(entries.last()));
    }
}

/// One scheduling pass hands out no more replays than its budget.
pub proof fn law_replay_budget_is_respected(
    cache: CacheModel,
    document: DocumentModel,
    budget: u32,
    effect_budget: u32,
    planes: Seq<PaintPlaneDescriptor>,
    display: Seq<crate::cache::TileDisplayInstance>,
)
    requires
        cache.well_formed(),
    ensures
        cache.scheduled(
            document,
            budget,
            effect_budget,
            planes,
            display,
        ).batch.jobs.len() <= budget,
{
    let begun = cache.batch_begun(display);
    lemma_filled(begun, document, budget, true);
    lemma_filled(begun.filled(document, budget, true), document, budget, false);
}

/// Replays for tiles in view come first: as long as the budget is not used up,
/// handing out replays for tiles in view stops only where none of them awaits
/// replay, or where one of them cannot be given a slot.
pub proof fn law_tiles_in_view_are_replayed_first(
    cache: CacheModel,
    document: DocumentModel,
    budget: u32,
)
    requires
        cache.well_formed(),
        cache.filled(document, budget, true).batch.jobs.len() < budget,
    ensures
        ({
            let after = cache.filled(document, budget, true);
            ||| forall|rank: u128| #[trigger]
                after.records.contains_key(rank) && after.records[rank].visible
                    ==> !(after.records[rank].state is Dirty)
            ||| exists|key: TileKey| #[trigger]
                wanted(after.records, key, true) && after.slot_for(key) is None
        }),
    decreases budget - cache.batch.jobs.len(),
{
    lemma_filled(cache, document, budget, true);
    if cache.batch.jobs.len() < budget {
        let found = cache.searched(true);
        lemma_searched(cache, true);
        match cache.next_dirty(true) {
            None => {
                lemma_first_wanted(cache.records, cache.dirty, true);
                assert forall|rank: u128| #[trigger]
                    found.records.contains_key(rank) && found.records[rank].visible implies !(
                found.records[rank].state is Dirty) by {
                    if found.records[rank].state is Dirty {
                        let key = cache.records[rank].key;
                        assert(cache.dirty.contains(key));
                        let i = choose|i: int| 0 <= i < cache.dirty.len() && cache.dirty[i] == key;
                        assert(!wanted(cache.records, cache.dirty[i], true));
                    }
                }
            },
            Some(key) => match found.slot_for(key) {
                None => {
                    let after = found.enqueued(key);
                    assert(wanted(after.records, key, true));
                    assert(after.victim() == found.victim()) by {
                        assert forall|rank: u128| after.first_to_go(rank)
                            == found.first_to_go(rank) by {}
                    }
                    assert(after.slot_for(key) is None) by {
                        lemma_same_victim(found, after);
                    }
                },
                Some(slot) => {
                    lemma_fill_step(cache, document, true, key);
                    law_tiles_in_view_are_replayed_first(
                        found.slotted(key).dispatched(document, key, slot),
                        document,
                        budget,
                    );
                },
            },
        }
    }
}

/// The choice of the tile to evict does not depend on the queue.
proof fn lemma_same_victim(a: CacheModel, b: CacheModel)
    requires
        a.records == b.records,
    ensures
        a.victim() == b.victim(),
{
    if exists|rank: u128| a.first_to_go(rank) {
        let rank = choose|rank: u128| a.first_to_go(rank);
        assert(b.first_to_go(rank));
        crate::cache_steps::lemma_victim_is(a, rank);
        crate::cache_steps::lemma_victim_is(b, rank);
    } else if exists|rank: u128| b.first_to_go(rank) {
        let rank = choose|rank: u128| b.first_to_go(rank);
        assert(a.first_to_go(rank));
    }
}

/// Handing out replays for tiles in view or out of it hands out none for others.
pub proof fn law_replays_are_for_the_tiles_asked_for(
    cache: CacheModel,
    document: DocumentModel,
    budget: u32,
    prefer_visible: bool,
)
    requires
        cache.well_formed(),
    ensures
        ({
            let after = cache.filled(document, budget, prefer_visible);
            &&& cache.batch.jobs.len() <= after.batch.jobs.len()
            &&& forall|rank: u128| #[trigger]
                cache.records.contains_key(rank) ==> after.records.contains_key(rank)
                    && after.records[rank].visible == cache.records[rank].visible
            &&& forall|j: int|
                cache.batch.jobs.len() <= j < after.batch.jobs.len() ==> {
                    let rank = (#[trigger] after.batch.jobs[j]).key.spec_rank();
                    cache.records.contains_key(rank) && cache.records[rank].visible
                        == prefer_visible
                }
            &&& forall|j: int|
                0 <= j < cache.batch.jobs.len() ==> #[trigger] after.batch.jobs[j]
                    == cache.batch.jobs[j]
        }),
    decreases budget - cache.batch.jobs.len(),
{
    if cache.batch.jobs.len() < budget {
        let found = cache.searched(prefer_visible);
        lemma_searched(cache, prefer_visible);
        match cache.next_dirty(prefer_visible) {
            None => {},
            Some(key) => match found.slot_for(key) {
                None => {},
                Some(slot) => {
                    let slotted = found.slotted(key);
                    let next = slotted.dispatched(document, key, slot);
                    lemma_fill_step(cache, document, prefer_visible, key);
                    lemma_slotted(found, key);
                    lemma_rank_known(found, key);
                    law_replays_are_for_the_tiles_asked_for(
                        next,
                        document,
                        budget,
                        prefer_visible,
                    );
                    let after = cache.filled(document, budget, prefer_visible);
                    assert(after == next.filled(document, budget, prefer_visible));
                    assert(next.batch.jobs == cache.batch.jobs.push(next.batch.jobs.last()));
                    assert(next.batch.jobs.last().key == key);
                    assert forall|rank: u128| #[trigger]
                        cache.records.contains_key(rank) implies after.records.contains_key(rank)
                        && after.records[rank].visible == cache.records[rank].visible by {
                        assert(found.records.contains_key(rank));
                        assert(slotted.records.contains_key(rank));
                        assert(slotted.records[rank].visible == found.records[rank].visible);
                        assert(next.records.contains_key(rank));
                    }
                    assert forall|j: int|
                        cache.batch.jobs.len() <= j < after.batch.jobs.len() implies {
                        let rank = (#[trigger] after.batch.jobs[j]).key.spec_rank();
                        cache.records.contains_key(rank) && cache.records[rank].visible
                            == prefer_visible
                    } by {
                        if j == cache.batch.jobs.len() {
                            assert(after.batch.jobs[j] == next.batch.jobs[j]);
                        } else {
                            let rank = after.batch.jobs[j].key.spec_rank();
                            assert(next.records.contains_key(rank));
                            assert(slotted.records.contains_key(rank));
                            assert(slotted.records[rank].visible == next.records[rank].visible);
                        }
                    }
                    assert forall|j: int| 0 <= j < cache.batch.jobs.len() implies
                        #[trigger] after.batch.jobs[j] == cache.batch.jobs[j] by {
                        assert(next.batch.jobs[j] == cache.batch.jobs[j]);
                    }
                },
            },
        }
    }
}

/// Handing out replays leaves every displayed tile in the slot that shows it.
pub proof fn law_displayed_slots_are_not_reassigned(
    cache: CacheModel,
    document: DocumentModel,
    budget: u32,
    prefer_visible: bool,
    rank: u128,
)
    requires
        cache.well_formed(),
        cache.records.contains_key(rank),
        cache.records[rank].displayed(),
    ensures
        cache.filled(document, budget, prefer_visible).records.contains_key(rank),
        cache.filled(document, budget, prefer_visible).records[rank].displayed(),
        cache.filled(document, budget, prefer_visible).records[rank].slot
            == cache.records[rank].slot,
    decreases budget - cache.batch.jobs.len(),
{
    if cache.batch.jobs.len() < budget {
        let found = cache.searched(prefer_visible);
        lemma_searched(cache, prefer_visible);
        match cache.next_dirty(prefer_visible) {
            None => {},
            Some(key) => match found.slot_for(key) {
                None => {},
                Some(slot) => {
                    let slotted = found.slotted(key);
                    let next = slotted.dispatched(document, key, slot);
                    lemma_fill_step(cache, document, prefer_visible, key);
                    lemma_slotted(found, key);
                    lemma_rank_known(found, key);
                    assert(slotted.records.contains_key(rank));
                    assert(rank != key.spec_rank() ==> slotted.records[rank]
                        == found.records[rank]);
                    law_displayed_slots_are_not_reassigned(
                        next,
                        document,
                        budget,
                        prefer_visible,
                        rank,
                    );
                },
            },
        }
    }
}

/// Transient planes are leased only where they fit beside the resident tiles.
pub proof fn law_scratch_fits_beside_resident_tiles(
    cache: CacheModel,
    effect_budget: u32,
    planes: Seq<PaintPlaneDescriptor>,
)
    requires
        cache.well_formed(),
        cache.accounted(effect_budget, planes).scratch.next_lease != cache.scratch.next_lease,
    ensures
        cache.stats.persistent_bytes + plane_bytes(
            planes,
            pixel_count(cache.tile_size(), cache.effect_tiles(effect_budget)),
        ) <= cache.budget,
        cache.accounted(effect_budget, planes).stats.scratch_bytes == 0,
{
    law_resident_tiles_stay_within_the_budget(cache);
}

} // verus!
