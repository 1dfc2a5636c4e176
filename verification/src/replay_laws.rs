//! What is rasterized into a tile, and with which paint.
use crate::cache::{replay_of, replayed_in, tile_replay, CacheModel, JobModel, ReplayModel};
use crate::cache_steps::{lemma_fill_step, lemma_rank_known, lemma_searched, lemma_slotted};
use crate::document::StrokeDocument;
use crate::geometry::{lemma_rank_of_key, TileKey, TileSpan};
use crate::laws::lemma_covering_segments;
use crate::spatial::{covering_segments, lemma_entry_place, numbered, TileEntryModel};
use crate::state::{CoverageModel, DocumentModel};
use crate::strokes::StrokeId;
use crate::tiles::{replay_for_tile, replay_models, TileReplayStroke};
use vstd::prelude::*;

verus! {

/// Whether the stroke of an index entry belongs into its tile: it is completed and shown.
pub open spec fn belongs(document: DocumentModel, entry: TileEntryModel) -> bool {
    let stroke = document.strokes[entry.stroke_index as int];
    stroke.complete && stroke.visible
}

/// Whether a replay record draws the segments of an index entry with the paint and in the
/// mode that the stroke of the entry was drawn with.
pub open spec fn draws_entry(
    document: DocumentModel,
    entry: TileEntryModel,
    record: ReplayModel,
) -> bool {
    let stroke = document.strokes[entry.stroke_index as int];
    &&& record.segment_indices == entry.segments
    &&& record.material == stroke.brush.paint.material
    &&& record.model == stroke.brush.paint.model
    &&& record.deposition == stroke.brush.deposition
}

/// Whether replay records draw a tile: one for each index entry that belongs there, from the
/// earliest stroke to the latest. Record `k` is for the entry at `places[k]`.
pub open spec fn draws_tile(
    document: DocumentModel,
    key: TileKey,
    replay: Seq<ReplayModel>,
    places: Seq<int>,
) -> bool {
    let entries = document.tile_entries(key);
    &&& places.len() == replay.len()
    &&& forall|a: int, b: int| 0 <= a < b < places.len() ==> places[a] < places[b]
    &&& forall|k: int|
        0 <= k < places.len() ==> {
            &&& 0 <= (#[trigger] places[k]) < entries.len()
            &&& belongs(document, entries[places[k]])
            &&& draws_entry(document, entries[places[k]], replay[k])
        }
    &&& forall|i: int|
        0 <= i < entries.len() && belongs(document, #[trigger] entries[i]) ==> places.contains(i)
}

/// Whether a record, as it is handed to the rasterizer, draws an index entry.
pub open spec fn record_draws(
    document: DocumentModel,
    entry: TileEntryModel,
    record: TileReplayStroke,
) -> bool {
    let stroke = document.strokes[entry.stroke_index as int];
    &&& record.segment_indices@ == entry.segments
    &&& record.material == stroke.brush.paint.material
    &&& record.model == stroke.brush.paint.model
    &&& record.deposition == stroke.brush.deposition
}

/// The places of the entries that a filter picks, and what is made of them.
proof fn lemma_picked(document: DocumentModel, entries: Seq<TileEntryModel>) -> (places: Seq<int>)
    ensures
        ({
            let replay = entries.filter(replayed_in(document)).map_values(replay_of(document));
            &&& places.len() == replay.len()
            &&& forall|a: int, b: int| 0 <= a < b < places.len() ==> places[a] < places[b]
            &&& forall|k: int|
                0 <= k < places.len() ==> {
                    &&& 0 <= (#[trigger] places[k]) < entries.len()
                    &&& belongs(document, entries[places[k]])
                    &&& draws_entry(document, entries[places[k]], replay[k])
                }
            &&& forall|i: int|
                0 <= i < entries.len() && belongs(document, #[trigger] entries[i])
                    ==> places.contains(i)
        }),
    decreases entries.len(),
{
    reveal(Seq::filter);
    let kept = entries.filter(replayed_in(document));
    let replay = kept.map_values(replay_of(document));
    if entries.len() == 0 {
        Seq::empty()
    } else {
        let front = entries.drop_last();
        let early = lemma_picked(document, front);
        let early_kept = front.filter(replayed_in(document));
        let early_replay = early_kept.map_values(replay_of(document));
        assert forall|k: int| 0 <= k < early.len() implies {
            &&& 0 <= (#[trigger] early[k]) < entries.len()
            &&& belongs(document, entries[early[k]])
            &&& draws_entry(document, entries[early[k]], replay[k])
        } by {
            assert(entries[early[k]] == front[early[k]]);
            assert(replay[k] == early_replay[k]);
        }
        let last = entries.len() - 1;
        if belongs(document, entries[last]) {
            let places = early.push(last);
            assert(kept == early_kept.push(entries[last]));
            assert forall|i: int|
                0 <= i < entries.len() && belongs(
                    document,
                    #[trigger] entries[i],
                ) implies places.contains(i) by {
                if i < last {
                    assert(front[i] == entries[i]);
                    let k = choose|k: int| 0 <= k < early.len() && early[k] == i;
                    assert(places[k] == i);
                } else {
                    assert(places[early.len() as int] == i);
                }
            }
            assert forall|k: int| 0 <= k < places.len() implies {
                &&& 0 <= (#[trigger] places[k]) < entries.len()
                &&& belongs(document, entries[places[k]])
                &&& draws_entry(document, entries[places[k]], replay[k])
            } by {
                if k < early.len() {
                    assert(places[k] == early[k]);
                }
            }
            places
        } else {
            assert(kept == early_kept);
            assert forall|i: int|
                0 <= i < entries.len() && belongs(
                    document,
                    #[trigger] entries[i],
                ) implies early.contains(i) by {
                assert(front[i] == entries[i]);
            }
            early
        }
    }
}

/// The records that a tile is replayed from draw exactly the completed strokes that reach it
/// and are shown, the earliest first, and each as the stroke was drawn: its segments in the
/// tile, the material and the model of its brush, and its brush's way of depositing, so that
/// what erased when it was drawn erases when it is replayed.
pub proof fn law_replays_carry_the_brush_of_their_stroke(
    document: StrokeDocument,
    key: TileKey,
    replay: Vec<TileReplayStroke>,
)
    requires
        document.well_formed(),
        call_ensures(replay_for_tile, (&document, key), replay),
    ensures
        exists|places: Seq<int>|
            {
                let entries = document@.tile_entries(key);
                &&& #[trigger] places.len() == replay@.len()
                &&& forall|a: int, b: int| 0 <= a < b < places.len() ==> places[a] < places[b]
                &&& forall|k: int|
                    0 <= k < places.len() ==> {
                        &&& 0 <= (#[trigger] places[k]) < entries.len()
                        &&& belongs(document@, entries[places[k]])
                        &&& record_draws(document@, entries[places[k]], replay@[k])
                    }
                &&& forall|i: int|
                    0 <= i < entries.len() && belongs(document@, #[trigger] entries[i])
                        ==> places.contains(i)
            },
{
    let entries = document@.tile_entries(key);
    let places = lemma_picked(document@, entries);
    let models = replay_models(replay@);
    assert(models == tile_replay(document@, key));
    assert(models.len() == replay@.len());
    assert forall|k: int| 0 <= k < places.len() implies {
        &&& 0 <= (#[trigger] places[k]) < entries.len()
        &&& belongs(document@, entries[places[k]])
        &&& record_draws(document@, entries[places[k]], replay@[k])
    } by {
        assert(models[k] == replay@[k]@);
        assert(draws_entry(document@, entries[places[k]], models[k]));
    }
    assert(places.len() == replay@.len());
}

/// Whether a job asks for a tile as the document has it: all of its strokes, at the revision
/// and into the slot of the tile's record.
pub open spec fn asks_for(cache: CacheModel, document: DocumentModel, job: JobModel) -> bool {
    let rank = job.key.spec_rank();
    &&& exists|places: Seq<int>| #[trigger] draws_tile(document, job.key, job.replay, places)
    &&& cache.records.contains_key(rank)
    &&& cache.records[rank].key == job.key
    &&& cache.records[rank].slot == Some(job.slot)
    &&& cache.records[rank].desired_revision == job.revision
    &&& cache.records[rank].state is Scheduled
}

/// Every job that is handed out asks for a tile with exactly the strokes that belong into it,
/// each with its own paint and mode, at the revision that the tile has to reach, into the
/// slot of the tile and no other.
pub proof fn law_jobs_ask_for_whole_tiles(
    cache: CacheModel,
    document: DocumentModel,
    budget: u32,
    prefer_visible: bool,
)
    requires
        cache.well_formed(),
        forall|j: int|
            0 <= j < cache.batch.jobs.len() ==> asks_for(
                cache,
                document,
                #[trigger] cache.batch.jobs[j],
            ),
    ensures
        ({
            let after = cache.filled(document, budget, prefer_visible);
            forall|j: int|
                0 <= j < after.batch.jobs.len() ==> asks_for(
                    after,
                    document,
                    #[trigger] after.batch.jobs[j],
                )
        }),
    decreases budget - cache.batch.jobs.len(),
{
    if cache.batch.jobs.len() < budget {
        let found = cache.searched(prefer_visible);
        lemma_searched(cache, prefer_visible);
        assert(found.records == cache.records);
        assert(found.batch == cache.batch);
        match cache.next_dirty(prefer_visible) {
            None => {
                let after = cache.filled(document, budget, prefer_visible);
                assert(after == found);
                assert forall|j: int| 0 <= j < after.batch.jobs.len() implies asks_for(
                    after,
                    document,
                    #[trigger] after.batch.jobs[j],
                ) by {
                    assert(asks_for(cache, document, cache.batch.jobs[j]));
                }
            },
            Some(key) => match found.slot_for(key) {
                None => {
                    let after = cache.filled(document, budget, prefer_visible);
                    assert(after == found.enqueued(key));
                    assert forall|j: int| 0 <= j < after.batch.jobs.len() implies asks_for(
                        after,
                        document,
                        #[trigger] after.batch.jobs[j],
                    ) by {
                        assert(asks_for(cache, document, cache.batch.jobs[j]));
                    }
                },
                Some(slot) => {
                    let slotted = found.slotted(key);
                    let next = slotted.dispatched(document, key, slot);
                    lemma_fill_step(cache, document, prefer_visible, key);
                    lemma_slotted(found, key);
                    lemma_rank_known(found, key);
                    let places = lemma_picked(document, document.tile_entries(key));
                    let job = next.batch.jobs.last();
                    assert(draws_tile(document, key, job.replay, places));
                    assert forall|j: int| 0 <= j < next.batch.jobs.len() implies asks_for(
                        next,
                        document,
                        #[trigger] next.batch.jobs[j],
                    ) by {
                        if j < cache.batch.jobs.len() {
                            let earlier = cache.batch.jobs[j];
                            assert(next.batch.jobs[j] == earlier);
                            assert(asks_for(cache, document, earlier));
                            let rank = earlier.key.spec_rank();
                            assert(slotted.records.contains_key(rank));
                            assert(rank != key.spec_rank());
                            assert(slotted.records[rank] == found.records[rank]);
                        } else {
                            assert(next.batch.jobs[j] == job);
                        }
                    }
                    law_jobs_ask_for_whole_tiles(next, document, budget, prefer_visible);
                },
            },
        }
    }
}

/// Whether tile coordinates lie between the first and the last column and row of a span.
pub open spec fn spans_tile(span: TileSpan, key: TileKey) -> bool {
    span.min_x <= key.x <= span.max_x && span.min_y <= key.y <= span.max_y
}

/// Whether an index entry names, in ascending order, exactly those segments of a stroke that
/// span a tile.
pub open spec fn names_local_segments(
    entry: TileEntryModel,
    first: u32,
    spans: Seq<TileSpan>,
    key: TileKey,
) -> bool {
    &&& forall|a: int, b: int|
        0 <= a < b < entry.segments.len() ==> entry.segments[a] < entry.segments[b]
    &&& forall|k: int|
        0 <= k < entry.segments.len() ==> {
            &&& first <= (#[trigger] entry.segments[k]) < first + spans.len()
            &&& spans_tile(spans[entry.segments[k] - first], key)
        }
    &&& forall|s: int|
        0 <= s < spans.len() && spans_tile(#[trigger] spans[s], key) ==> entry.segments.contains(
            (first + s) as u32,
        )
}

/// A stroke that is completed enters the index under each tile of its layer that one of its
/// segments spans, behind the strokes before it, with exactly the segments that span the
/// tile. The index of all other tiles stays as it is, and so do the entries of others.
pub proof fn law_strokes_are_filed_under_the_tiles_they_reach(
    document: DocumentModel,
    id: StrokeId,
    coverage: CoverageModel,
    key: TileKey,
)
    requires
        document.well_formed(),
        document.active.contains_key(id.0),
        document.covers_stroke(document.active[id.0].metadata_index as int, coverage),
        document.strokes[document.active[id.0].metadata_index as int].first_segment
            + coverage.segments.len() <= u32::MAX,
    ensures
        ({
            let index = document.active[id.0].metadata_index;
            let stroke = document.strokes[index as int];
            let before = document.tile_entries(key);
            let after = document.ended(id, coverage).tile_entries(key);
            let reached = key.layer == stroke.layer && exists|s: int|
                0 <= s < coverage.segments.len() && spans_tile(
                    #[trigger] coverage.segments[s],
                    key,
                );
            &&& !reached ==> after == before
            &&& reached ==> exists|place: int|
                {
                    &&& 0 <= place < after.len()
                    &&& #[trigger] after.remove(place) == before
                    &&& after[place].stroke_index == index
                    &&& names_local_segments(
                        after[place],
                        stroke.first_segment,
                        coverage.segments,
                        key,
                    )
                    &&& forall|a: int|
                        0 <= a < place ==> (#[trigger] after[a]).stroke_index <= index
                    &&& forall|b: int|
                        place < b < after.len() ==> (#[trigger] after[b]).stroke_index > index
                }
        }),
{
    let index = document.active[id.0].metadata_index;
    let stroke = document.strokes[index as int];
    let first = stroke.first_segment;
    let spans = coverage.segments;
    let before = document.tile_entries(key);
    let after = document.ended(id, coverage).tile_entries(key);
    assert(numbered(first, spans.len()) == spans.len());
    lemma_rank_of_key(key);
    lemma_covering_segments(spans, first, spans.len(), key.x, key.y);
    let hits = covering_segments(spans, first, spans.len(), key.x, key.y);
    let entry = TileEntryModel { stroke_index: index, segments: hits };
    crate::laws::law_index_holds_only_local_segments(document, id, coverage, key);
    if key.layer == stroke.layer && exists|s: int|
        0 <= s < spans.len() && spans_tile(#[trigger] spans[s], key) {
        let s = choose|s: int| 0 <= s < spans.len() && spans_tile(#[trigger] spans[s], key);
        assert(spans[s].covers(key.x, key.y));
        assert(hits.contains((first + s) as u32));
        let place = crate::spatial::entry_place(before, index);
        lemma_entry_place(before, index);
        crate::tile_laws::law_tiles_replay_in_document_order(document, key);
        assert(after == before.insert(place, entry));
        assert(after.remove(place) == before);
        assert(names_local_segments(entry, first, spans, key));
        assert forall|a: int| 0 <= a < place implies (#[trigger] after[a]).stroke_index
            <= index by {
            assert(after[a] == before[a]);
            assert(before[place - 1].stroke_index <= index);
        }
        assert forall|b: int| place < b < after.len() implies (#[trigger] after[b]).stroke_index
            > index by {
            assert(after[b] == before[b - 1]);
        }
    } else if key.layer == stroke.layer {
        assert(hits.len() == 0) by {
            if hits.len() > 0 {
                assert(spans[hits[0] - first].covers(key.x, key.y));
                assert(spans_tile(spans[hits[0] - first], key));
            }
        }
    }
}

} // verus!
