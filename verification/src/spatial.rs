//! Spatial index: which segments of which strokes reach a tile.
use crate::geometry::{
    lemma_rank_injective, lemma_rank_of_key, lemma_span_tiles, tiles_for_span, LayerId, TileKey,
    TileSpan,
};
use std::collections::BTreeMap;
use vstd::prelude::*;

verus! {

broadcast use vstd::laws_cmp::group_laws_cmp;

/// Segments of one stroke that reach a tile.
#[derive(Clone, Debug)]
pub struct TileStrokeIndex {
    /// Document position of the stroke.
    pub stroke_index: usize,
    /// Segment numbers in ascending order.
    pub segments: Vec<u32>,
}

/// Mathematical value of a [`TileStrokeIndex`].
#[verifier::ext_equal]
pub struct TileEntryModel {
    pub stroke_index: usize,
    pub segments: Seq<u32>,
}

impl View for TileStrokeIndex {
    type V = TileEntryModel;

    open spec fn view(&self) -> TileEntryModel {
        TileEntryModel { stroke_index: self.stroke_index, segments: self.segments@ }
    }
}

/// The entries of a tile, as values.
pub open spec fn entry_models(entries: Seq<TileStrokeIndex>) -> Seq<TileEntryModel> {
    entries.map_values(|entry: TileStrokeIndex| entry@)
}

/// The entries filed under a tile rank.
pub open spec fn entries_at(
    index: Map<u128, Seq<TileEntryModel>>,
    rank: u128,
) -> Seq<TileEntryModel> {
    if index.contains_key(rank) { index[rank] } else { Seq::empty() }
}

/// Whether entries follow the order of strokes in the document.
pub open spec fn in_document_order(entries: Seq<TileEntryModel>) -> bool {
    forall|a: int, b: int|
        0 <= a < b < entries.len() ==> (#[trigger] entries[a]).stroke_index < (
        #[trigger] entries[b]).stroke_index
}

/// Position behind the latest entry that belongs to a stroke or an earlier one.
pub open spec fn entry_place(entries: Seq<TileEntryModel>, stroke_index: usize) -> int
    decreases entries.len(),
{
    if entries.len() == 0 || entries.last().stroke_index <= stroke_index {
        entries.len() as int
    } else {
        entry_place(entries.drop_last(), stroke_index)
    }
}

/// The entries of a tile with one more, at its place in document order.
pub open spec fn with_entry(
    entries: Seq<TileEntryModel>,
    entry: TileEntryModel,
) -> Seq<TileEntryModel> {
    entries.insert(entry_place(entries, entry.stroke_index), entry)
}

/// Numbers of those among the first `count` segments of a stroke, counted from
/// `first`, whose span covers the tile coordinates.
pub open spec fn covering_segments(
    spans: Seq<TileSpan>,
    first: u32,
    count: nat,
    x: i32,
    y: i32,
) -> Seq<u32>
    decreases count,
{
    if count == 0 {
        Seq::empty()
    } else {
        let before = covering_segments(spans, first, (count - 1) as nat, x, y);
        if spans[count - 1].covers(x, y) {
            before.push((first + count - 1) as u32)
        } else {
            before
        }
    }
}

/// Segment numbers of a stroke that reach the tile with the given rank.
pub open spec fn tile_hits(
    layer: LayerId,
    spans: Seq<TileSpan>,
    first: u32,
    count: nat,
    rank: u128,
) -> Seq<u32> {
    let key = TileKey::at_rank(rank);
    if key.spec_rank() == rank && key.layer == layer {
        covering_segments(spans, first, count, key.x, key.y)
    } else {
        Seq::empty()
    }
}

/// The index with one more stroke: every tile that some segment reaches gains
/// one entry with all segments that reach it, at its place in document order.
pub open spec fn with_stroke(
    index: Map<u128, Seq<TileEntryModel>>,
    stroke_index: usize,
    layer: LayerId,
    first: u32,
    spans: Seq<TileSpan>,
) -> Map<u128, Seq<TileEntryModel>> {
    partly_with_stroke(
        index,
        stroke_index,
        layer,
        first,
        spans,
        numbered(first, spans.len()),
        Set::empty(),
    )
}

/// How many of `count` segments, counted from `first`, lie below the largest
/// 32-bit number.
pub open spec fn numbered(first: u32, count: nat) -> nat {
    if first + count <= u32::MAX { count } else { (u32::MAX - first) as nat }
}

/// The index after the first `count` segments, and of the next segment the
/// tiles in `done`, were entered.
pub open spec fn partly_with_stroke(
    index: Map<u128, Seq<TileEntryModel>>,
    stroke_index: usize,
    layer: LayerId,
    first: u32,
    spans: Seq<TileSpan>,
    count: nat,
    done: Set<u128>,
) -> Map<u128, Seq<TileEntryModel>> {
    Map::new(
        |rank: u128|
            index.contains_key(rank) || partial_hits(
                layer,
                spans,
                first,
                count,
                done,
                rank,
            ).len() > 0,
        |rank: u128|
            {
                let hits = partial_hits(layer, spans, first, count, done, rank);
                if hits.len() > 0 {
                    with_entry(
                        entries_at(index, rank),
                        TileEntryModel { stroke_index, segments: hits },
                    )
                } else {
                    index[rank]
                }
            },
    )
}

/// Segment numbers entered so far for the tile with the given rank.
pub open spec fn partial_hits(
    layer: LayerId,
    spans: Seq<TileSpan>,
    first: u32,
    count: nat,
    done: Set<u128>,
    rank: u128,
) -> Seq<u32> {
    if done.contains(rank) {
        tile_hits(layer, spans, first, count + 1, rank)
    } else {
        tile_hits(layer, spans, first, count, rank)
    }
}

/// The entries of a tile with one more segment of a stroke.
pub open spec fn with_segment(
    entries: Seq<TileEntryModel>,
    stroke_index: usize,
    segment: u32,
) -> Seq<TileEntryModel> {
    let place = entry_place(entries, stroke_index);
    if place > 0 && entries[place - 1].stroke_index == stroke_index {
        entries.update(
            place - 1,
            TileEntryModel {
                stroke_index,
                segments: entries[place - 1].segments.push(segment),
            },
        )
    } else {
        with_entry(entries, TileEntryModel { stroke_index, segments: seq![segment] })
    }
}

/// No tile has an entry for the stroke.
pub open spec fn stroke_absent(
    index: Map<u128, Seq<TileEntryModel>>,
    stroke_index: usize,
) -> bool {
    forall|rank: u128, k: int|
        index.contains_key(rank) && 0 <= k < index[rank].len() ==> (
        #[trigger] index[rank][k]).stroke_index != stroke_index
}

/// Segments of each stroke filed under the tiles that they reach.
#[derive(Debug)]
pub struct SpatialIndex {
    tiles: BTreeMap<u128, Vec<TileStrokeIndex>>,
}

impl View for SpatialIndex {
    type V = Map<u128, Seq<TileEntryModel>>;

    closed spec fn view(&self) -> Map<u128, Seq<TileEntryModel>> {
        self.tiles@.map_values(|entries: Vec<TileStrokeIndex>| entry_models(entries@))
    }
}

impl SpatialIndex {
    /// Creates an empty index.
    pub fn new() -> (index: Self)
        ensures
            index@ == Map::<u128, Seq<TileEntryModel>>::empty(),
    {
        let index = SpatialIndex { tiles: BTreeMap::new() };
        assert(index@ =~= Map::<u128, Seq<TileEntryModel>>::empty());
        index
    }

    /// Forgets every entry.
    pub fn clear(&mut self)
        ensures
            final(self)@ == Map::<u128, Seq<TileEntryModel>>::empty(),
    {
        self.tiles.clear();
        assert(self@ =~= Map::<u128, Seq<TileEntryModel>>::empty());
    }

    /// Entries of a tile, if it ever had any.
    pub fn entries(&self, key: TileKey) -> (entries: Option<&Vec<TileStrokeIndex>>)
        ensures
            match entries {
                Some(list) => entry_models(list@) == entries_at(self@, key.spec_rank())
                    && self@.contains_key(key.spec_rank()),
                None => !self@.contains_key(key.spec_rank()),
            },
    {
        let rank: u128 = key.rank();
        self.tiles.get(&rank)
    }

    /// Enters one segment of a stroke for one tile.
    fn enter(&mut self, rank: u128, stroke_index: usize, segment: u32)
        ensures
            final(self)@ == old(self)@.insert(
                rank,
                with_segment(entries_at(old(self)@, rank), stroke_index, segment),
            ),
    {
        let ghost before = entries_at(self@, rank);
        let ghost index = self@;
        let mut entries: Vec<TileStrokeIndex> = match self.tiles.remove(&rank) {
            Some(entries) => entries,
            None => Vec::new(),
        };
        assert(entry_models(entries@) =~= before);
        let mut place: usize = entries.len();
        while place > 0 && entries[place - 1].stroke_index > stroke_index
            invariant
                place <= entries@.len(),
                entry_models(entries@) == before,
                forall|j: int|
                    place <= j < before.len() ==> (#[trigger] before[j]).stroke_index
                        > stroke_index,
            decreases place,
        {
            assert(before[place - 1] == entries@[place - 1]@);
            place = place - 1;
        }
        proof {
            if place > 0 {
                assert(before[place - 1] == entries@[place - 1]@);
            }
            lemma_entry_place_is(before, stroke_index, place as int);
        }
        if place > 0 && entries[place - 1].stroke_index == stroke_index {
            entries[place - 1].segments.push(segment);
            assert(entry_models(entries@) =~= with_segment(before, stroke_index, segment));
        } else {
            let mut segments: Vec<u32> = Vec::new();
            segments.push(segment);
            assert(segments@ =~= seq![segment]);
            entries.insert(place, TileStrokeIndex { stroke_index, segments });
            assert(entry_models(entries@) =~= with_segment(before, stroke_index, segment));
        }
        let ghost after = entry_models(entries@);
        self.tiles.insert(rank, entries);
        assert(self@ =~= index.insert(rank, after));
    }

    /// Enters a stroke whose segments, numbered from `first`, reach `spans`.
    pub fn index_stroke(
        &mut self,
        stroke_index: usize,
        layer: LayerId,
        first: u32,
        spans: &Vec<TileSpan>,
    )
        requires
            stroke_absent(old(self)@, stroke_index),
        ensures
            final(self)@ == with_stroke(old(self)@, stroke_index, layer, first, spans@),
    {
        let ghost base = self@;
        assert(self@ =~= partly_with_stroke(
            base,
            stroke_index,
            layer,
            first,
            spans@,
            0,
            Set::empty(),
        ));
        let room: u32 = u32::MAX - first;
        let count: usize = if spans.len() as u64 <= room as u64 {
            spans.len()
        } else {
            room as usize
        };
        for n in 0..count
            invariant
                stroke_absent(base, stroke_index),
                count == numbered(first, spans@.len()),
                self@ == partly_with_stroke(
                    base,
                    stroke_index,
                    layer,
                    first,
                    spans@,
                    n as nat,
                    Set::empty(),
                ),
        {
            let tiles = tiles_for_span(spans[n], layer);
            proof {
                lemma_span_tiles_distinct(spans@[n as int], layer);
            }
            let ghost mut done: Set<u128> = Set::empty();
            let segment: u32 = first + n as u32;
            for t in 0..tiles.len()
                invariant
                    stroke_absent(base, stroke_index),
                    count == numbered(first, spans@.len()),
                    0 <= n < count,
                    segment == first + n,
                    tiles@ == spans@[n as int].tiles(layer),
                    tiles@.no_duplicates(),
                    forall|rank: u128| #[trigger]
                        done.contains(rank) <==> exists|k: int|
                            0 <= k < t && (#[trigger] tiles@[k]).spec_rank() == rank,
                    self@ == partly_with_stroke(
                        base,
                        stroke_index,
                        layer,
                        first,
                        spans@,
                        n as nat,
                        done,
                    ),
            {
                let key = tiles[t];
                let rank: u128 = key.rank();
                proof {
                    assert(tiles@.contains(key));
                    lemma_span_tiles(spans@[n as int], layer, key);
                    assert(!done.contains(rank)) by {
                        if done.contains(rank) {
                            let k = choose|k: int|
                                0 <= k < t && (#[trigger] tiles@[k]).spec_rank() == rank;
                            lemma_rank_injective(tiles@[k], key);
                        }
                    }
                }
                self.enter(rank, stroke_index, segment);
                proof {
                    lemma_entered(base, stroke_index, layer, first, spans@, n as nat, done, key);
                    done = done.insert(rank);
                }
            }
            proof {
                lemma_segment_entered(base, stroke_index, layer, first, spans@, n as nat, done);
            }
        }
    }
}

/// The tiles of a span are listed once each.
proof fn lemma_span_tiles_distinct(span: TileSpan, layer: LayerId)
    ensures
        span.tiles(layer).no_duplicates(),
{
    lemma_first_rows_distinct(span, layer, span.rows());
}

proof fn lemma_first_rows_distinct(span: TileSpan, layer: LayerId, count: nat)
    requires
        count <= span.rows(),
    ensures
        span.first_rows(layer, count).no_duplicates(),
        forall|i: int|
            0 <= i < span.first_rows(layer, count).len() ==> {
                &&& (#[trigger] span.first_rows(layer, count)[i]).y < span.min_y + count
            },
    decreases count,
{
    if count > 0 {
        lemma_first_rows_distinct(span, layer, (count - 1) as nat);
        let before = span.first_rows(layer, (count - 1) as nat);
        let row = span.row(layer, span.min_y + count - 1, span.columns());
        let rows = span.first_rows(layer, count);
        assert(rows == before + row);
        assert forall|i: int| 0 <= i < rows.len() implies (#[trigger] rows[i]).y < span.min_y
            + count by {
            if i < before.len() {
                assert(rows[i] == before[i]);
            } else {
                assert(rows[i] == row[i - before.len()]);
            }
        }
        assert forall|i: int, j: int| 0 <= i < j < rows.len() implies rows[i] != rows[j] by {
            if j < before.len() {
                assert(rows[i] == before[i] && rows[j] == before[j]);
            } else if i < before.len() {
                assert(rows[i] == before[i]);
                assert(rows[j] == row[j - before.len()]);
            } else {
                assert(rows[i] == row[i - before.len()]);
                assert(rows[j] == row[j - before.len()]);
            }
        }
    }
}

/// The entry in front of the place belongs to the stroke or an earlier one, and all
/// entries behind it to later ones.
pub proof fn lemma_entry_place(entries: Seq<TileEntryModel>, stroke_index: usize)
    ensures
        0 <= entry_place(entries, stroke_index) <= entries.len(),
        entry_place(entries, stroke_index) > 0 ==> entries[entry_place(entries, stroke_index)
            - 1].stroke_index <= stroke_index,
        forall|j: int|
            entry_place(entries, stroke_index) <= j < entries.len() ==> (
            #[trigger] entries[j]).stroke_index > stroke_index,
    decreases entries.len(),
{
    if entries.len() > 0 && entries.last().stroke_index > stroke_index {
        let front = entries.drop_last();
        lemma_entry_place(front, stroke_index);
        assert forall|j: int| entry_place(entries, stroke_index) <= j < entries.len() implies (
        #[trigger] entries[j]).stroke_index > stroke_index by {
            if j < front.len() {
                assert(front[j] == entries[j]);
            }
        }
    }
}

/// What tells the place apart from other positions.
proof fn lemma_entry_place_is(entries: Seq<TileEntryModel>, stroke_index: usize, place: int)
    requires
        0 <= place <= entries.len(),
        place > 0 ==> entries[place - 1].stroke_index <= stroke_index,
        forall|j: int|
            place <= j < entries.len() ==> (#[trigger] entries[j]).stroke_index > stroke_index,
    ensures
        entry_place(entries, stroke_index) == place,
{
    lemma_entry_place(entries, stroke_index);
    let found = entry_place(entries, stroke_index);
    if found < place {
        assert(entries[place - 1].stroke_index > stroke_index);
    }
    if found > place {
        assert(entries[found - 1].stroke_index > stroke_index);
    }
}

/// The place lies behind an entry of the same stroke.
proof fn lemma_entry_place_after(entries: Seq<TileEntryModel>, entry: TileEntryModel)
    ensures
        entry_place(with_entry(entries, entry), entry.stroke_index) == entry_place(
            entries,
            entry.stroke_index,
        ) + 1,
        with_entry(entries, entry)[entry_place(entries, entry.stroke_index)] == entry,
{
    lemma_entry_place(entries, entry.stroke_index);
    let place = entry_place(entries, entry.stroke_index);
    let longer = with_entry(entries, entry);
    assert forall|j: int| place + 1 <= j < longer.len() implies (
    #[trigger] longer[j]).stroke_index > entry.stroke_index by {
        assert(longer[j] == entries[j - 1]);
    }
    lemma_entry_place_is(longer, entry.stroke_index, place + 1);
}

/// Every entry after a stroke was entered was there before or is the stroke's,
/// and entries stay in document order.
pub proof fn lemma_entries_after(
    index: Map<u128, Seq<TileEntryModel>>,
    stroke_index: usize,
    layer: LayerId,
    first: u32,
    spans: Seq<TileSpan>,
    rank: u128,
)
    requires
        stroke_absent(index, stroke_index),
        with_stroke(index, stroke_index, layer, first, spans).contains_key(rank),
    ensures
        ({
            let after = with_stroke(index, stroke_index, layer, first, spans)[rank];
            let before = entries_at(index, rank);
            &&& in_document_order(before) ==> in_document_order(after)
            &&& forall|k: int|
                0 <= k < after.len() ==> (#[trigger] after[k]).stroke_index == stroke_index
                    || before.contains(after[k])
        }),
{
    let after = with_stroke(index, stroke_index, layer, first, spans)[rank];
    let before = entries_at(index, rank);
    let hits = tile_hits(layer, spans, first, numbered(first, spans.len()), rank);
    if hits.len() > 0 {
        let entry = TileEntryModel { stroke_index, segments: hits };
        assert(after == with_entry(before, entry));
        lemma_entry_place(before, stroke_index);
        let place = entry_place(before, stroke_index);
        assert forall|k: int| 0 <= k < after.len() implies (#[trigger] after[k]).stroke_index
            == stroke_index || before.contains(after[k]) by {
            if k < place {
                assert(after[k] == before[k]);
            } else if k > place {
                assert(after[k] == before[k - 1]);
            }
        }
        if in_document_order(before) {
            assert forall|a: int, b: int| 0 <= a < b < after.len() implies (
            #[trigger] after[a]).stroke_index < (#[trigger] after[b]).stroke_index by {
                if a < place {
                    assert(after[a] == before[a]);
                    if index.contains_key(rank) {
                        assert(index[rank][a].stroke_index != stroke_index);
                    }
                    if a < place - 1 {
                        assert(before[a].stroke_index < before[place - 1].stroke_index);
                    }
                    if b < place {
                        assert(after[b] == before[b]);
                    } else if b > place {
                        assert(after[b] == before[b - 1]);
                    }
                } else {
                    assert(after[b] == before[b - 1]);
                    if a > place {
                        assert(after[a] == before[a - 1]);
                    }
                }
            }
        }
    } else {
        assert(after == before);
        assert forall|k: int| 0 <= k < after.len() implies before.contains(
            #[trigger] after[k],
        ) by {
            assert(before[k] == after[k]);
        }
    }
}

/// Entering the current segment for one more tile.
proof fn lemma_entered(
    base: Map<u128, Seq<TileEntryModel>>,
    stroke_index: usize,
    layer: LayerId,
    first: u32,
    spans: Seq<TileSpan>,
    count: nat,
    done: Set<u128>,
    key: TileKey,
)
    requires
        stroke_absent(base, stroke_index),
        count < spans.len(),
        first + count < u32::MAX,
        key.layer == layer,
        spans[count as int].covers(key.x, key.y),
        !done.contains(key.spec_rank()),
    ensures
        ({
            let index = partly_with_stroke(base, stroke_index, layer, first, spans, count, done);
            let before = entries_at(index, key.spec_rank());
            let after = with_segment(before, stroke_index, (first + count) as u32);
            index.insert(key.spec_rank(), after) == partly_with_stroke(
                base,
                stroke_index,
                layer,
                first,
                spans,
                count,
                done.insert(key.spec_rank()),
            )
        }),
{
    let rank = key.spec_rank();
    lemma_rank_of_key(key);
    let index = partly_with_stroke(base, stroke_index, layer, first, spans, count, done);
    let target = partly_with_stroke(
        base,
        stroke_index,
        layer,
        first,
        spans,
        count,
        done.insert(rank),
    );
    let segment = (first + count) as u32;
    let before = entries_at(index, rank);
    let hits = tile_hits(layer, spans, first, count, rank);
    let more = tile_hits(layer, spans, first, count + 1, rank);
    assert(more == hits.push(segment));
    let old_entries = entries_at(base, rank);
    let place = entry_place(old_entries, stroke_index);
    lemma_entry_place(old_entries, stroke_index);
    if hits.len() > 0 {
        let entry = TileEntryModel { stroke_index, segments: hits };
        assert(before == with_entry(old_entries, entry));
        lemma_entry_place_after(old_entries, entry);
        assert(with_segment(before, stroke_index, segment) =~= with_entry(
            old_entries,
            TileEntryModel { stroke_index, segments: more },
        ));
    } else {
        assert(before =~= old_entries);
        assert(hits =~= Seq::<u32>::empty());
        assert(more =~= seq![segment]);
        if place > 0 {
            assert(base[rank][place - 1].stroke_index != stroke_index);
        }
    }
    let after = with_segment(before, stroke_index, segment);
    assert(target[rank] == after);
    assert forall|other: u128| other != rank implies #[trigger] partial_hits(
        layer,
        spans,
        first,
        count,
        done.insert(rank),
        other,
    ) == partial_hits(layer, spans, first, count, done, other) by {
    }
    assert(index.insert(rank, after) =~= target);
}

/// Once all tiles of a segment are done, the segment counts as entered.
proof fn lemma_segment_entered(
    base: Map<u128, Seq<TileEntryModel>>,
    stroke_index: usize,
    layer: LayerId,
    first: u32,
    spans: Seq<TileSpan>,
    count: nat,
    done: Set<u128>,
)
    requires
        count < spans.len(),
        forall|rank: u128| #[trigger]
            done.contains(rank) <==> exists|k: int|
                0 <= k < spans[count as int].tiles(layer).len() && (
                #[trigger] spans[count as int].tiles(layer)[k]).spec_rank() == rank,
    ensures
        partly_with_stroke(base, stroke_index, layer, first, spans, count, done)
            == partly_with_stroke(
            base,
            stroke_index,
            layer,
            first,
            spans,
            count + 1,
            Set::empty(),
        ),
{
    let tiles = spans[count as int].tiles(layer);
    assert forall|rank: u128| #[trigger] partial_hits(
        layer,
        spans,
        first,
        count,
        done,
        rank,
    ) == partial_hits(layer, spans, first, count + 1, Set::empty(), rank) by {
        let key = TileKey::at_rank(rank);
        if !done.contains(rank) && key.spec_rank() == rank && key.layer == layer {
            lemma_span_tiles(spans[count as int], layer, key);
            if spans[count as int].covers(key.x, key.y) {
                let k = choose|k: int| 0 <= k < tiles.len() && tiles[k] == key;
                assert(tiles[k].spec_rank() == rank);
            }
        }
    }
    assert(partly_with_stroke(base, stroke_index, layer, first, spans, count, done)
        =~= partly_with_stroke(base, stroke_index, layer, first, spans, count + 1, Set::empty()));
}

} // verus!
