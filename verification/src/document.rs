//! The authoritative, editable vector document.
use crate::coherence::{
    lemma_begun_coherent, lemma_cleared_coherent, lemma_derived_coherent, lemma_ended_coherent,
    lemma_extended_coherent, lemma_initial_coherent, lemma_layer_added_coherent,
    lemma_layer_edited_coherent, lemma_layer_moved_coherent, lemma_redone_coherent,
    lemma_resized_coherent, lemma_undone_coherent,
};
use crate::effects::{EffectGraph};
use crate::geometry::{lemma_rank_of_key, tiles_for_span, Bounds, CanvasSize, LayerId, TileKey};
use crate::layers::{
    has_layer, layer_position, layer_replaced, layers_inserted, layers_moved, layers_without,
    lemma_layer_position, lemma_layer_position_is, other_layer, setting_name, setting_opacity,
    setting_visible,
};
use crate::ordered::{lists, ordered_ids, ordered_indices, ordered_keys};
use crate::paint::{library_filed, library_with, PaintMaterialLibrary, PaintMaterialRecord};
use crate::rgba::{add_table_to_library, library_with_table, RgbaPaintModel};
use crate::scalar::{law_confined_numbers_stay_in_the_unit_interval, Scalar};
use crate::spatial::{
    entries_at, entry_models, in_document_order, lemma_entries_after, stroke_absent, SpatialIndex,
    TileStrokeIndex,
};
use crate::state::{
    affected_ranks, completed_in, drawn_apart, keys_of, listed_in, own_segment, rebuilt_index,
    recovered_strokes, stroke_shown, ActiveStroke, CoverageModel, DocumentModel,
};
use crate::strokes::{
    command_models, copy_tiles, layer_models, stroke_models, BrushProfile, CanvasLayer,
    CommandModel, HistoryCommand, LayerCompositeMode, SegmentRange, StrokeCoverage, StrokeDelta,
    StrokeId, StrokeMetadata, StrokeModel, StrokePoint, StrokeSegment, StrokeState,
    TileInvalidation, TileInvalidationCause,
};
use std::collections::BTreeMap;
use vstd::prelude::*;

verus! {

broadcast use vstd::laws_cmp::group_laws_cmp;

/// Authoritative, editable vector document.
///
/// Geometry remains append-only so render extraction stays proportional to new
/// input. Visibility, history, the spatial index, and tile revisions determine
/// what is replayed into the derived GPU cache.
#[derive(Debug)]
pub struct StrokeDocument {
    points: Vec<StrokePoint>,
    segments: Vec<StrokeSegment>,
    strokes: Vec<StrokeMetadata>,
    stroke_lookup: BTreeMap<u64, usize>,
    active: BTreeMap<u64, ActiveStroke>,
    overlay_strokes: BTreeMap<usize, ()>,
    spatial_index: SpatialIndex,
    invalidations: Vec<TileInvalidation>,
    undo: Vec<HistoryCommand>,
    redo: Vec<HistoryCommand>,
    layers: Vec<CanvasLayer>,
    active_layer: LayerId,
    next_layer: u32,
    layer_revision: u64,
    effects: EffectGraph,
    paint_materials: PaintMaterialLibrary,
    next_stroke: u64,
    revision: u64,
    contact_generation: u64,
    geometry_generation: u64,
    tile_size: u32,
    effect_radius_px: u32,
    canvas_size: CanvasSize,
}

/// Compatibility name of [`StrokeDocument`].
pub type StrokeStore = StrokeDocument;

impl View for StrokeCoverage {
    type V = CoverageModel;

    open spec fn view(&self) -> CoverageModel {
        CoverageModel { affected: self.affected, segments: self.segments@ }
    }
}

/// The coverage of a list, as values.
pub open spec fn coverage_models(coverage: Seq<StrokeCoverage>) -> Seq<CoverageModel> {
    coverage.map_values(|entry: StrokeCoverage| entry@)
}

impl View for StrokeDocument {
    type V = DocumentModel;

    closed spec fn view(&self) -> DocumentModel {
        DocumentModel {
            points: self.points@,
            segments: self.segments@,
            strokes: stroke_models(self.strokes@),
            lookup: self.stroke_lookup@,
            active: self.active@,
            overlay: self.overlay_strokes@.dom(),
            index: self.spatial_index@,
            invalidations: self.invalidations@,
            undo: command_models(self.undo@),
            redo: command_models(self.redo@),
            layers: layer_models(self.layers@),
            active_layer: self.active_layer,
            next_layer: self.next_layer,
            layer_revision: self.layer_revision,
            effects: self.effects@,
            materials: self.paint_materials@,
            next_stroke: self.next_stroke,
            revision: self.revision,
            contact_generation: self.contact_generation,
            geometry_generation: self.geometry_generation,
            tile_size: self.tile_size,
            effect_radius_px: self.effect_radius_px,
            canvas_size: self.canvas_size,
        }
    }
}

impl StrokeDocument {
    /// Every reference within the document leads to something that exists.
    pub open spec fn well_formed(&self) -> bool {
        self@.well_formed()
    }

    /// All geometry samples in append order.
    pub fn points(&self) -> (points: &Vec<StrokePoint>)
        ensures
            points@ == self@.points,
    {
        &self.points
    }

    /// All procedural segments in append order.
    pub fn segments(&self) -> (segments: &Vec<StrokeSegment>)
        ensures
            segments@ == self@.segments,
    {
        &self.segments
    }

    /// CPU metadata for recorded strokes.
    pub fn strokes(&self) -> (strokes: &Vec<StrokeMetadata>)
        ensures
            stroke_models(strokes@) == self@.strokes,
    {
        &self.strokes
    }

    /// Current document revision. Every editing command increments it.
    pub fn revision(&self) -> (revision: u64)
        ensures
            revision == self@.revision,
    {
        self.revision
    }

    /// Layers retained by the authoritative document.
    pub fn layers(&self) -> (layers: &Vec<CanvasLayer>)
        ensures
            layer_models(layers@) == self@.layers,
    {
        &self.layers
    }

    /// Layer receiving newly started contacts.
    pub fn active_layer(&self) -> (id: LayerId)
        ensures
            id == self@.active_layer,
    {
        self.active_layer
    }

    /// Looks up persistent layer metadata by stable identity.
    pub fn layer(&self, id: LayerId) -> (layer: Option<&CanvasLayer>)
        ensures
            match layer {
                Some(found) => has_layer(self@.layers, id) && found@
                    == self@.layers[layer_position(self@.layers, id)] && found.id == id,
                None => !has_layer(self@.layers, id),
            },
    {
        match self.layer_index(id) {
            Some(index) => {
                proof {
                    lemma_layer_position(self@.layers, id);
                }
                Some(&self.layers[index])
            },
            None => None,
        }
    }

    /// Returns the bottom-to-top composite position of a stable layer.
    pub fn layer_index(&self, id: LayerId) -> (index: Option<usize>)
        ensures
            match index {
                Some(i) => has_layer(self@.layers, id) && i == layer_position(self@.layers, id),
                None => !has_layer(self@.layers, id),
            },
    {
        for i in 0..self.layers.len()
            invariant
                forall|j: int| 0 <= j < i ==> (#[trigger] self@.layers[j]).id != id,
        {
            assert(self@.layers[i as int] == self.layers@[i as int]@);
            if self.layers[i].id == id {
                proof {
                    lemma_layer_position_is(self@.layers, id, i as int);
                }
                return Some(i);
            }
        }
        proof {
            lemma_layer_position_is(self@.layers, id, self@.layers.len() as int);
        }
        None
    }

    /// Versioned non-destructive effect graph stored with the document.
    pub fn effects(&self) -> (effects: &EffectGraph)
        ensures
            effects@ == self@.effects,
    {
        &self.effects
    }

    /// Immutable color/pigment recipes required to regenerate this document.
    pub fn paint_materials(&self) -> (library: &PaintMaterialLibrary)
        ensures
            library@ == self@.materials,
    {
        &self.paint_materials
    }

    /// Logical canvas extent. Resizing never rewrites vector coordinates.
    pub fn canvas_size(&self) -> (size: CanvasSize)
        ensures
            size == self@.canvas_size,
    {
        self.canvas_size
    }

    /// Number of history commands that can currently be undone.
    pub fn undo_len(&self) -> (count: usize)
        ensures
            count == self@.undo.len(),
    {
        self.undo.len()
    }

    /// Number of history commands that can currently be redone.
    pub fn redo_len(&self) -> (count: usize)
        ensures
            count == self@.redo.len(),
    {
        self.redo.len()
    }

    /// Generation used by the input adapter to abandon contacts after clear.
    pub fn generation(&self) -> (generation: u64)
        ensures
            generation == self@.contact_generation,
    {
        self.contact_generation
    }

    /// Generation used by extraction to request a full geometry rebuild.
    pub fn geometry_generation(&self) -> (generation: u64)
        ensures
            generation == self@.geometry_generation,
    {
        self.geometry_generation
    }

    /// Revision of the layer list.
    pub fn layer_revision(&self) -> (revision: u64)
        ensures
            revision == self@.layer_revision,
    {
        self.layer_revision
    }

    /// Edge length of a content tile.
    pub fn tile_size(&self) -> (size: u32)
        ensures
            size == self@.tile_size,
    {
        self.tile_size
    }

    /// Effect radius applied to invalidations.
    pub fn effect_radius_px(&self) -> (radius: u32)
        ensures
            radius == self@.effect_radius_px,
    {
        self.effect_radius_px
    }

    /// Commands that can be undone, the latest last.
    pub fn undo_commands(&self) -> (commands: &Vec<HistoryCommand>)
        ensures
            command_models(commands@) == self@.undo,
    {
        &self.undo
    }

    /// Commands that can be redone, the latest last.
    pub fn redo_commands(&self) -> (commands: &Vec<HistoryCommand>)
        ensures
            command_models(commands@) == self@.redo,
    {
        &self.redo
    }

    /// Identity number of the next layer.
    pub fn next_layer(&self) -> (next: u32)
        ensures
            next == self@.next_layer,
    {
        self.next_layer
    }

    /// Identity number of the next stroke.
    pub fn next_stroke(&self) -> (next: u64)
        ensures
            next == self@.next_stroke,
    {
        self.next_stroke
    }

    /// Returns `true` while any contact is active.
    pub fn is_drawing(&self) -> (drawing: bool)
        ensures
            drawing == !self@.active.is_empty(),
    {
        !self.active.is_empty()
    }

    /// Returns metadata by stable identity.
    pub fn stroke(&self, id: StrokeId) -> (stroke: Option<&StrokeMetadata>)
        requires
            self.well_formed(),
        ensures
            match stroke {
                Some(found) => self@.lookup.contains_key(id.0) && found@
                    == self@.strokes[self@.lookup[id.0] as int] && found.id == id,
                None => !self@.lookup.contains_key(id.0),
            },
    {
        match self.stroke_lookup.get(&id.0) {
            Some(index) => Some(&self.strokes[*index]),
            None => None,
        }
    }

    /// Segments of every stroke that reach a tile, or nothing for a tile that
    /// no stroke reached yet.
    pub fn tile_strokes(&self, key: TileKey) -> (entries: Option<&Vec<TileStrokeIndex>>)
        ensures
            match entries {
                Some(list) => entry_models(list@) == self@.tile_entries(key)
                    && self@.index.contains_key(key.spec_rank()),
                None => self@.tile_entries(key).len() == 0,
            },
    {
        self.spatial_index.entries(key)
    }

    /// Whether some stroke of the tile takes part in replay on a visible layer.
    pub fn tile_has_visible_strokes(&self, key: TileKey) -> (shown: bool)
        requires
            self.well_formed(),
        ensures
            shown == self@.shows_tile(key),
    {
        let visible = match self.layer(key.layer) {
            Some(layer) => layer.visible,
            None => false,
        };
        if !visible {
            return false;
        }
        match self.tile_strokes(key) {
            None => false,
            Some(entries) => {
                for k in 0..entries.len()
                    invariant
                        self.well_formed(),
                        entry_models(entries@) == self@.tile_entries(key),
                        self@.index.contains_key(key.spec_rank()),
                        has_layer(self@.layers, key.layer),
                        self@.layers[layer_position(self@.layers, key.layer)].visible,
                        forall|j: int|
                            0 <= j < k ==> !self@.replays(#[trigger] self@.tile_entries(key)[j]),
                {
                    assert(entry_models(entries@)[k as int] == entries@[k as int]@);
                    assert(self@.index[key.spec_rank()][k as int] == entries@[k as int]@);
                    let index: usize = entries[k].stroke_index;
                    assert(self@.strokes[index as int] == self.strokes@[index as int]@);
                    if self.strokes[index].visible && self.strokes[index].complete {
                        assert(self@.replays(self@.tile_entries(key)[k as int]));
                        return true;
                    }
                }
                false
            },
        }
    }
}

/// Whether two documents hold the same geometry, strokes, contacts, overlay
/// and index.
spec fn same_structure(a: DocumentModel, b: DocumentModel) -> bool {
    &&& a.points == b.points
    &&& a.segments == b.segments
    &&& a.strokes == b.strokes
    &&& a.lookup == b.lookup
    &&& a.active == b.active
    &&& a.overlay == b.overlay
    &&& a.index == b.index
    &&& a.next_stroke == b.next_stroke
}

/// What is left unchanged stays well formed.
proof fn lemma_structure_kept(a: DocumentModel, b: DocumentModel)
    requires
        a.well_formed(),
        same_structure(a, b),
        a.undo == b.undo,
        a.redo == b.redo,
        b.effects.well_formed(),
        b.effects.acyclic(),
        library_filed(b.materials),
    ensures
        b.well_formed(),
{
    assert forall|k: int| 0 <= k < b.undo.len() implies b.command_in_range(
        #[trigger] b.undo[k],
    ) by {
        assert(a.command_in_range(a.undo[k]));
    }
    assert forall|k: int| 0 <= k < b.redo.len() implies b.command_in_range(
        #[trigger] b.redo[k],
    ) by {
        assert(a.command_in_range(a.redo[k]));
    }
}

/// Recording a command on completed strokes keeps a document well formed.
proof fn lemma_recorded(a: DocumentModel, command: CommandModel)
    requires
        a.well_formed(),
        a.command_in_range(command),
    ensures
        a.recorded(command).well_formed(),
{
    let b = a.recorded(command);
    assert forall|k: int| 0 <= k < b.undo.len() implies b.command_in_range(
        #[trigger] b.undo[k],
    ) by {
        if k < a.undo.len() {
            assert(a.command_in_range(a.undo[k]));
        }
        assert(a.command_in_range(b.undo[k]) == b.command_in_range(b.undo[k]));
    }
}

impl StrokeDocument {
    fn bump_revision(&mut self)
        ensures
            final(self)@ == old(self)@.bumped(),
    {
        self.revision = if self.revision == u64::MAX { 1 } else { self.revision + 1 };
    }

    fn bump_layers(&mut self)
        ensures
            final(self)@ == old(self)@.layers_bumped(),
    {
        self.layer_revision = self.layer_revision.wrapping_add(1);
    }

    /// Records a command as the latest one to undo; nothing is left to redo.
    fn record(&mut self, command: HistoryCommand)
        ensures
            final(self)@ == old(self)@.recorded(command@),
    {
        let ghost before = self@;
        self.undo.push(command);
        self.redo.clear();
        assert(self@.undo =~= before.undo.push(command@));
        assert(self@.redo =~= Seq::<CommandModel>::empty());
    }

    /// Reports tiles stale at the current revision.
    fn invalidate_tiles(
        &mut self,
        tiles: &Vec<TileKey>,
        cause: TileInvalidationCause,
        allow_stale_display: bool,
    )
        ensures
            final(self)@ == old(self)@.invalidated(tiles@, cause, allow_stale_display),
    {
        let ghost before = self@;
        for i in 0..tiles.len()
            invariant
                self@ == before.invalidated(tiles@.take(i as int), cause, allow_stale_display),
        {
            self.invalidations.push(
                TileInvalidation {
                    key: tiles[i],
                    revision: self.revision,
                    cause,
                    allow_stale_display,
                    halo_radius_px: self.effect_radius_px,
                },
            );
            assert(self@.invalidations =~= before.invalidated(
                tiles@.take(i + 1),
                cause,
                allow_stale_display,
            ).invalidations);
        }
        assert(tiles@.take(tiles@.len() as int) =~= tiles@);
    }

    /// Reports the tiles of the listed strokes stale.
    fn invalidate_indices(&mut self, indices: &Vec<usize>, cause: TileInvalidationCause)
        requires
            forall|k: int| 0 <= k < indices@.len() ==> (#[trigger] indices@[k]) < old(
                self,
            )@.strokes.len(),
        ensures
            final(self)@ == old(self)@.invalidated_indices(indices@, cause),
    {
        let ghost listed = listed_in(indices@);
        let mut tiles: BTreeMap<u128, TileKey> = BTreeMap::new();
        for n in 0..indices.len()
            invariant
                self@ == old(self)@,
                listed == listed_in(indices@),
                forall|k: int| 0 <= k < indices@.len() ==> (#[trigger] indices@[k])
                    < self@.strokes.len(),
                ranked(tiles@),
                forall|rank: u128| #[trigger]
                    tiles@.contains_key(rank) ==> affected_ranks(self@.strokes, listed).contains(
                        rank,
                    ),
                forall|m: int, k: int|
                    0 <= m < n && 0 <= k < self@.strokes[indices@[m] as int].affected_tiles.len()
                        ==> tiles@.contains_key(
                        (#[trigger] self@.strokes[indices@[m] as int].affected_tiles[k]).spec_rank(),
                    ),
        {
            let index: usize = indices[n];
            assert(self@.strokes[index as int] == self.strokes@[index as int]@);
            let ghost before = tiles@;
            collect_tiles(&mut tiles, &self.strokes[index].affected_tiles);
            proof {
                assert(indices@.contains(indices@[n as int]));
                assert(listed(index as int));
                assert forall|rank: u128| #[trigger] tiles@.contains_key(rank) implies affected_ranks(
                    self@.strokes,
                    listed,
                ).contains(rank) by {
                    if !before.contains_key(rank) {
                        let k = choose|k: int|
                            0 <= k < self@.strokes[index as int].affected_tiles.len() && (
                            #[trigger] self@.strokes[index as int].affected_tiles[k]).spec_rank()
                                == rank;
                    }
                }
            }
        }
        proof {
            assert forall|rank: u128| #[trigger] tiles@.dom().contains(rank) <==> affected_ranks(
                self@.strokes,
                listed,
            ).contains(rank) by {
                if affected_ranks(self@.strokes, listed).contains(rank) {
                    let (i, k) = choose|i: int, k: int|
                        0 <= i < self@.strokes.len() && listed(i) && 0 <= k
                            < self@.strokes[i].affected_tiles.len() && (
                        #[trigger] self@.strokes[i].affected_tiles[k]).spec_rank() == rank;
                    let m = choose|m: int| 0 <= m < indices@.len() && indices@[m] == i as usize;
                    assert(tiles@.contains_key(
                        self@.strokes[indices@[m] as int].affected_tiles[k].spec_rank(),
                    ));
                }
                if tiles@.dom().contains(rank) {
                    assert(tiles@.contains_key(rank));
                }
            }
            assert(tiles@.dom() =~= affected_ranks(self@.strokes, listed));
        }
        let keys = sorted_tiles(&tiles);
        self.invalidate_tiles(&keys, cause, false);
    }

    /// Reports the tiles of all completed strokes stale.
    fn invalidate_all(&mut self, cause: TileInvalidationCause)
        ensures
            final(self)@ == old(self)@.invalidated_all(cause),
    {
        let ghost listed = completed_in(self@.strokes);
        let mut tiles: BTreeMap<u128, TileKey> = BTreeMap::new();
        let count: usize = self.strokes.len();
        for n in 0..count
            invariant
                self@ == old(self)@,
                count == self@.strokes.len(),
                listed == completed_in(self@.strokes),
                ranked(tiles@),
                forall|rank: u128| #[trigger]
                    tiles@.contains_key(rank) ==> affected_ranks(self@.strokes, listed).contains(
                        rank,
                    ),
                forall|m: int, k: int|
                    0 <= m < n && self@.strokes[m].complete && 0 <= k
                        < self@.strokes[m].affected_tiles.len() ==> tiles@.contains_key(
                        (#[trigger] self@.strokes[m].affected_tiles[k]).spec_rank(),
                    ),
        {
            assert(self@.strokes[n as int] == self.strokes@[n as int]@);
            if self.strokes[n].complete {
                let ghost before = tiles@;
                collect_tiles(&mut tiles, &self.strokes[n].affected_tiles);
                proof {
                    assert(listed(n as int));
                    assert forall|rank: u128| #[trigger]
                        tiles@.contains_key(rank) implies affected_ranks(
                        self@.strokes,
                        listed,
                    ).contains(rank) by {
                        if !before.contains_key(rank) {
                            let k = choose|k: int|
                                0 <= k < self@.strokes[n as int].affected_tiles.len() && (
                                #[trigger] self@.strokes[n as int].affected_tiles[k]).spec_rank()
                                    == rank;
                        }
                    }
                }
            }
        }
        proof {
            assert forall|rank: u128| #[trigger] tiles@.dom().contains(rank) <==> affected_ranks(
                self@.strokes,
                listed,
            ).contains(rank) by {
                if affected_ranks(self@.strokes, listed).contains(rank) {
                    let (i, k) = choose|i: int, k: int|
                        0 <= i < self@.strokes.len() && listed(i) && 0 <= k
                            < self@.strokes[i].affected_tiles.len() && (
                        #[trigger] self@.strokes[i].affected_tiles[k]).spec_rank() == rank;
                    assert(tiles@.contains_key(self@.strokes[i].affected_tiles[k].spec_rank()));
                }
                if tiles@.dom().contains(rank) {
                    assert(tiles@.contains_key(rank));
                }
            }
            assert(tiles@.dom() =~= affected_ranks(self@.strokes, listed));
        }
        let keys = sorted_tiles(&tiles);
        self.invalidate_tiles(&keys, cause, false);
    }
}

/// Every tile is filed under its own rank.
spec fn ranked(tiles: Map<u128, TileKey>) -> bool {
    forall|rank: u128| #[trigger] tiles.contains_key(rank) ==> tiles[rank].spec_rank() == rank
}

/// Adds the tiles of a list to an ordered set of tiles.
fn collect_tiles(tiles: &mut BTreeMap<u128, TileKey>, list: &Vec<TileKey>)
    requires
        ranked(old(tiles)@),
    ensures
        ranked(final(tiles)@),
        forall|rank: u128| #[trigger]
            old(tiles)@.contains_key(rank) ==> final(tiles)@.contains_key(rank),
        forall|k: int|
            0 <= k < list@.len() ==> final(tiles)@.contains_key(
                (#[trigger] list@[k]).spec_rank(),
            ),
        forall|rank: u128| #[trigger]
            final(tiles)@.contains_key(rank) ==> old(tiles)@.contains_key(rank) || exists|k: int|
                0 <= k < list@.len() && (#[trigger] list@[k]).spec_rank() == rank,
{
    for i in 0..list.len()
        invariant
            ranked(tiles@),
            forall|rank: u128| #[trigger]
                old(tiles)@.contains_key(rank) ==> tiles@.contains_key(rank),
            forall|k: int| 0 <= k < i ==> tiles@.contains_key((#[trigger] list@[k]).spec_rank()),
            forall|rank: u128| #[trigger]
                tiles@.contains_key(rank) ==> old(tiles)@.contains_key(rank) || exists|k: int|
                    0 <= k < i && (#[trigger] list@[k]).spec_rank() == rank,
    {
        let key = list[i];
        tiles.insert(key.rank(), key);
    }
}

/// The tiles of an ordered set in ascending order.
fn sorted_tiles(tiles: &BTreeMap<u128, TileKey>) -> (keys: Vec<TileKey>)
    requires
        ranked(tiles@),
    ensures
        keys@ == keys_of(tiles@.dom()),
{
    let ranks = ordered_keys(tiles);
    let mut keys: Vec<TileKey> = Vec::new();
    for i in 0..ranks.len()
        invariant
            ranked(tiles@),
            lists(ranks@, tiles@.dom()),
            keys@ == ranks@.take(i as int).map_values(|rank: u128| TileKey::at_rank(rank)),
    {
        assert(ranks@.contains(ranks@[i as int]));
        assert(tiles@.dom().contains(ranks@[i as int]));
        match tiles.get(&ranks[i]) {
            Some(key) => {
                proof {
                    lemma_rank_of_key(*key);
                }
                keys.push(*key);
            },
            None => {},
        }
        assert(keys@ =~= ranks@.take(i + 1).map_values(|rank: u128| TileKey::at_rank(rank)));
    }
    assert(ranks@.take(ranks@.len() as int) =~= ranks@);
    keys
}

impl StrokeDocument {
    /// Selects the layer that receives future strokes.
    pub fn set_active_layer(&mut self, id: LayerId) -> (found: bool)
        requires
            old(self).well_formed(),
        ensures
            final(self).well_formed(),
            old(self)@.coherent() ==> final(self)@.coherent(),
            found == has_layer(old(self)@.layers, id),
            final(self)@ == old(self)@.layer_selected(id),
    {
        if self.layer_index(id).is_none() {
            return false;
        }
        self.active_layer = id;
        assert(self@ =~= DocumentModel { active_layer: id, ..old(self)@ });
        proof {
            lemma_structure_kept(old(self)@, self@);
            if old(self)@.coherent() {
                lemma_derived_coherent(old(self)@, self@);
            }
        }
        true
    }

    /// Creates a normal layer above the current top layer and selects it.
    pub fn add_layer(&mut self, name: &str) -> (id: LayerId)
        requires
            old(self).well_formed(),
        ensures
            final(self).well_formed(),
            old(self)@.coherent() && old(self)@.next_layer < u32::MAX ==> final(self)@.coherent(),
            id == LayerId(old(self)@.next_layer),
            final(self)@ == old(self)@.layer_added(name@),
    {
        let ghost before = self@;
        let id = LayerId(self.next_layer);
        self.next_layer = self.next_layer.wrapping_add(1);
        let layer = CanvasLayer {
            id,
            name: name.to_string(),
            opacity: Scalar::one(),
            composite: LayerCompositeMode::Normal,
            visible: true,
        };
        let index: usize = self.layers.len();
        self.layers.push(layer.clone());
        self.active_layer = id;
        assert(self@.layers =~= before.layers.push(layer@));
        self.bump_layers();
        self.bump_revision();
        proof {
            lemma_structure_kept(before, self@);
            lemma_recorded(self@, CommandModel::AddLayer { layer: layer@, index });
        }
        self.record(HistoryCommand::AddLayer { layer, index });
        proof {
            if old(self)@.coherent() && old(self)@.next_layer < u32::MAX {
                lemma_layer_added_coherent(old(self)@, name@);
            }
        }
        id
    }

    /// Changes whether a layer participates in live and cached compositing.
    pub fn set_layer_visibility(&mut self, id: LayerId, visible: bool) -> (found: bool)
        requires
            old(self).well_formed(),
        ensures
            final(self).well_formed(),
            old(self)@.coherent() ==> final(self)@.coherent(),
            found == has_layer(old(self)@.layers, id),
            final(self)@ == old(self)@.layer_shown(id, visible),
    {
        let index: usize = match self.layer_index(id) {
            Some(index) => index,
            None => {
                return false;
            },
        };
        let ghost model = self@;
        assert(model.layers[index as int] == self.layers@[index as int]@);
        let before: bool = self.layers[index].visible;
        if before == visible {
            return true;
        }
        self.layers[index].visible = visible;
        assert(self@.layers =~= layer_replaced(model.layers, id, setting_visible(visible)));
        self.bump_layers();
        self.bump_revision();
        proof {
            lemma_structure_kept(model, self@);
            lemma_recorded(self@, CommandModel::LayerVisibility { layer: id, before, after: visible });
        }
        self.record(HistoryCommand::LayerVisibility { layer: id, before, after: visible });
        assert(self@ =~= model.layer_edited(
            id,
            setting_visible(visible),
            CommandModel::LayerVisibility { layer: id, before, after: visible },
        ));
        proof {
            if old(self)@.coherent() {
                lemma_layer_edited_coherent(
                    old(self)@,
                    id,
                    visible,
                    Scalar::one(),
                    Seq::empty(),
                );
            }
        }
        true
    }

    /// Sets normal-layer opacity in the inclusive `0..=1` range.
    pub fn set_layer_opacity(&mut self, id: LayerId, opacity: Scalar) -> (found: bool)
        requires
            old(self).well_formed(),
        ensures
            final(self).well_formed(),
            old(self)@.coherent() ==> final(self)@.coherent(),
            found == has_layer(old(self)@.layers, id),
            final(self)@ == old(self)@.layer_faded(id, opacity),
    {
        let index: usize = match self.layer_index(id) {
            Some(index) => index,
            None => {
                return false;
            },
        };
        let ghost model = self@;
        assert(model.layers[index as int] == self.layers@[index as int]@);
        let after = opacity.clamp(Scalar::zero(), Scalar::one());
        let before = self.layers[index].opacity;
        if before.equals(after) {
            return true;
        }
        self.layers[index].opacity = after;
        assert(self@.layers =~= layer_replaced(model.layers, id, setting_opacity(after)));
        self.bump_layers();
        self.bump_revision();
        proof {
            lemma_structure_kept(model, self@);
            lemma_recorded(self@, CommandModel::LayerOpacity { layer: id, before, after });
        }
        self.record(HistoryCommand::LayerOpacity { layer: id, before, after });
        assert(self@ =~= model.layer_edited(
            id,
            setting_opacity(after),
            CommandModel::LayerOpacity { layer: id, before, after },
        ));
        proof {
            if old(self)@.coherent() {
                law_confined_numbers_stay_in_the_unit_interval(opacity);
                lemma_layer_edited_coherent(old(self)@, id, true, after, Seq::empty());
            }
        }
        true
    }

    /// Renames a layer without changing its stable identity.
    pub fn rename_layer(&mut self, id: LayerId, name: &str) -> (found: bool)
        requires
            old(self).well_formed(),
        ensures
            final(self).well_formed(),
            old(self)@.coherent() ==> final(self)@.coherent(),
            found == has_layer(old(self)@.layers, id),
            final(self)@ == old(self)@.layer_named(id, name@),
    {
        let index: usize = match self.layer_index(id) {
            Some(index) => index,
            None => {
                return false;
            },
        };
        let ghost model = self@;
        assert(model.layers[index as int] == self.layers@[index as int]@);
        let after: String = name.to_string();
        let before: String = self.layers[index].name.clone();
        if before == after {
            return true;
        }
        self.layers[index].name = after.clone();
        assert(self@.layers =~= layer_replaced(model.layers, id, setting_name(name@)));
        self.bump_layers();
        self.bump_revision();
        proof {
            lemma_structure_kept(model, self@);
            lemma_recorded(
                self@,
                CommandModel::LayerRename { layer: id, before: before@, after: after@ },
            );
        }
        let ghost renaming = CommandModel::LayerRename { layer: id, before: before@, after: name@ };
        self.record(HistoryCommand::LayerRename { layer: id, before, after });
        assert(self@ =~= model.layer_edited(id, setting_name(name@), renaming));
        proof {
            if old(self)@.coherent() {
                lemma_layer_edited_coherent(old(self)@, id, true, Scalar::one(), name@);
            }
        }
        true
    }

    /// Moves the named layer within the list; unchanged without that layer.
    fn move_layer_untracked(&mut self, id: LayerId, index: usize)
        ensures
            final(self)@ == (DocumentModel {
                layers: layers_moved(old(self)@.layers, id, index),
                ..old(self)@
            }),
    {
        let ghost model = self@;
        match self.layer_index(id) {
            None => {},
            Some(current) => {
                let layer = self.layers.remove(current);
                let count: usize = self.layers.len();
                let target: usize = if index < count { index } else { count };
                self.layers.insert(target, layer);
                assert(self@.layers =~= layers_moved(model.layers, id, index));
            },
        }
    }

    /// Moves a layer to a bottom-to-top composite index.
    pub fn move_layer(&mut self, id: LayerId, index: usize) -> (found: bool)
        requires
            old(self).well_formed(),
        ensures
            final(self).well_formed(),
            old(self)@.coherent() ==> final(self)@.coherent(),
            found == has_layer(old(self)@.layers, id),
            final(self)@ == old(self)@.layer_put(id, index),
    {
        let before: usize = match self.layer_index(id) {
            Some(index) => index,
            None => {
                return false;
            },
        };
        let after: usize = if index < self.layers.len() { index } else { self.layers.len() - 1 };
        if before == after {
            return true;
        }
        let ghost model = self@;
        self.move_layer_untracked(id, after);
        self.bump_layers();
        self.bump_revision();
        proof {
            lemma_structure_kept(model, self@);
            lemma_recorded(self@, CommandModel::LayerMove { layer: id, before, after });
        }
        self.record(HistoryCommand::LayerMove { layer: id, before, after });
        proof {
            if old(self)@.coherent() {
                lemma_layer_moved_coherent(old(self)@, id, after);
            }
        }
        true
    }

    /// Adds a new immutable material recipe to the document.
    pub fn add_paint_material(&mut self, record: PaintMaterialRecord) -> (result: Result<
        (),
        &'static str,
    >)
        requires
            old(self).well_formed(),
        ensures
            final(self).well_formed(),
            old(self)@.coherent() ==> final(self)@.coherent(),
            final(self)@ == (DocumentModel {
                materials: library_with(old(self)@.materials, record@),
                ..old(self)@
            }),
            result is Ok <==> !old(self)@.materials.contains_key(record.reference.spec_rank())
                || old(self)@.materials[record.reference.spec_rank()].payload.same_recipe(
                record@.payload,
            ),
            result matches Err(message) ==> message@
                == "paint material identities are immutable"@,
    {
        let result = self.paint_materials.add(record);
        proof {
            if old(self)@.coherent() {
                lemma_derived_coherent(old(self)@, self@);
            }
        }
        result
    }

    /// Adds the materials of the RGBA model; known identities keep their recipes.
    pub fn sync_rgba_materials(&mut self, model: &RgbaPaintModel)
        requires
            old(self).well_formed(),
        ensures
            final(self).well_formed(),
            old(self)@.coherent() ==> final(self)@.coherent(),
            final(self)@ == (DocumentModel {
                materials: library_with_table(
                    old(self)@.materials,
                    model@.materials,
                    model@.materials.len(),
                ),
                ..old(self)@
            }),
    {
        add_table_to_library(&mut self.paint_materials, model.materials());
        proof {
            if old(self)@.coherent() {
                lemma_derived_coherent(old(self)@, self@);
            }
        }
    }

    /// Reports all tiles stale where some are reported already.
    pub(crate) fn invalidate_after_edits(&mut self)
        requires
            old(self).well_formed(),
        ensures
            final(self).well_formed(),
            old(self)@.coherent() ==> final(self)@.coherent(),
            final(self)@ == if old(self)@.invalidations.len() > 0 {
                old(self)@.invalidated_all(TileInvalidationCause::EffectDependency)
            } else {
                old(self)@
            },
    {
        if self.invalidations.len() > 0 {
            self.invalidate_all(TileInvalidationCause::EffectDependency);
            proof {
                lemma_structure_kept(old(self)@, self@);
            }
        }
        proof {
            if old(self)@.coherent() {
                lemma_derived_coherent(old(self)@, self@);
            }
        }
    }

    /// Replaces the document effect graph. The tile scheduler applies its radius.
    pub fn set_effects(&mut self, effects: EffectGraph)
        requires
            old(self).well_formed(),
            effects.well_formed(),
        ensures
            final(self).well_formed(),
            old(self)@.coherent() ==> final(self)@.coherent(),
            final(self)@.effects == effects@,
            final(self)@ == if effects@ == old(self)@.effects {
                old(self)@
            } else {
                old(self)@.effects_replaced(effects@)
            },
    {
        if effects.same_as(&self.effects) {
            return;
        }
        self.effects = effects;
        self.bump_revision();
        self.invalidate_all(TileInvalidationCause::EffectDependency);
        proof {
            lemma_structure_kept(old(self)@, self@);
        }
        proof {
            if old(self)@.coherent() {
                lemma_derived_coherent(old(self)@, self@);
            }
        }
    }

    /// Replaces this document after a validated load while forcing every
    /// disposable CPU/GPU cache to recognize the new authoritative identity.
    pub fn replace_loaded(&mut self, loaded: StrokeDocument)
        requires
            loaded.well_formed(),
        ensures
            final(self).well_formed(),
            loaded@.coherent() ==> final(self)@.coherent(),
            final(self)@ == loaded@.replacing(old(self)@),
    {
        let ghost before = loaded@;
        let mut loaded = loaded;
        loaded.geometry_generation = self.geometry_generation.wrapping_add(1);
        loaded.contact_generation = self.contact_generation.wrapping_add(1);
        *self = loaded;
        proof {
            assert(self@ =~= before.replacing(old(self)@));
            lemma_structure_kept(before, self@);
            if before.coherent() {
                lemma_derived_coherent(before, self@);
            }
        }
    }

    /// Changes the logical canvas extent and invalidates viewport-derived tiles.
    pub fn resize(&mut self, size: CanvasSize) -> (changed: bool)
        requires
            old(self).well_formed(),
        ensures
            final(self).well_formed(),
            old(self)@.coherent() ==> final(self)@.coherent(),
            changed == (size.at_least_one() != old(self)@.canvas_size),
            final(self)@ == old(self)@.extent_set(size),
    {
        let size = CanvasSize {
            width: if size.width == 0 { 1 } else { size.width },
            height: if size.height == 0 { 1 } else { size.height },
        };
        if size == self.canvas_size {
            return false;
        }
        let before = self.canvas_size;
        self.canvas_size = size;
        self.bump_revision();
        self.invalidate_all(TileInvalidationCause::Resize);
        proof {
            lemma_structure_kept(old(self)@, self@);
            lemma_recorded(self@, CommandModel::Resize { before, after: size });
        }
        self.record(HistoryCommand::Resize { before, after: size });
        proof {
            if old(self)@.coherent() {
                lemma_resized_coherent(old(self)@, size);
            }
        }
        true
    }
}

impl StrokeDocument {
    /// Starts a renderer-neutral stroke and returns its identity and append delta.
    ///
    /// `reach` is the rectangle that the dot at `point` covers. Synthetic
    /// benchmarks and replay sources may call this directly instead of
    /// producing platform input messages.
    pub fn begin_stroke(
        &mut self,
        point: StrokePoint,
        reach: Bounds,
        profile: BrushProfile,
    ) -> (begun: (StrokeId, StrokeDelta))
        requires
            old(self).well_formed(),
            old(self)@.points.len() <= u32::MAX,
            old(self)@.segments.len() <= u32::MAX,
        ensures
            final(self).well_formed(),
            old(self)@.coherent() && old(self)@.next_stroke < u64::MAX ==> final(self)@.coherent(),
            begun.0 == StrokeId(old(self)@.next_stroke),
            begun.1 == old(self)@.begin_report(),
            final(self)@ == old(self)@.begun(point, reach, profile),
    {
        let ghost before = self@;
        let id = StrokeId(self.next_stroke);
        self.next_stroke = self.next_stroke.wrapping_add(1);
        let layer = self.active_layer;
        let point_index: u32 = self.points.len() as u32;
        self.points.push(point);
        let segment_index: u32 = self.segments.len() as u32;
        self.segments.push(
            StrokeSegment {
                start: point_index,
                end: point_index,
                model: profile.paint.model,
                material: profile.paint.material,
                deposition: profile.deposition,
                layer,
            },
        );
        let metadata_index: usize = self.strokes.len();
        self.strokes.push(
            StrokeMetadata {
                id,
                first_point: point_index,
                point_count: 1,
                first_segment: segment_index,
                segment_count: 1,
                layer,
                brush: profile,
                bounds: reach,
                revision: self.revision,
                state: StrokeState::Active,
                visible: true,
                complete: false,
                affected_tiles: Vec::new(),
            },
        );
        self.stroke_lookup.insert(id.0, metadata_index);
        self.overlay_strokes.insert(metadata_index, ());
        self.active.insert(
            id.0,
            ActiveStroke { last_point: point_index, metadata_index, profile },
        );
        proof {
            let target = before.begun(point, reach, profile);
            assert(self.strokes.len() == before.strokes.len() + 1);
            assert(self@.strokes =~= target.strokes);
            assert(self@.overlay =~= target.overlay);
            assert(self@ == target);
            lemma_begun(before, point, reach, profile);
        }
        proof {
            if old(self)@.coherent() && old(self)@.next_stroke < u64::MAX {
                lemma_begun_coherent(old(self)@, point, reach, profile);
            }
        }
        (id, StrokeDelta::Begin { stroke: id, point: point_index, segment: segment_index })
    }

    /// Copies the points and segments of a contact behind all others, unless they are
    /// the last ones.
    fn gather(&mut self, id: StrokeId)
        requires
            old(self).well_formed(),
            old(self)@.active.contains_key(id.0),
            old(self)@.has_room(id),
        ensures
            final(self).well_formed(),
            final(self)@ == old(self)@.gathered(id),
    {
        let ghost before = self@;
        let active: ActiveStroke = match self.active.get(&id.0) {
            Some(active) => *active,
            None => {
                return;
            },
        };
        let index: usize = active.metadata_index;
        assert(before.strokes[index as int] == self.strokes@[index as int]@);
        assert(before.stroke_in_range(before.strokes[index as int]));
        let ghost stroke = before.strokes[index as int];
        let first: u32 = self.strokes[index].first_point;
        let count: u32 = self.strokes[index].point_count;
        let layer = self.strokes[index].layer;
        let profile = active.profile;
        let point_count: usize = self.points.len();
        let segment_count: usize = self.segments.len();
        if first as u64 + count as u64 == point_count as u64
            && self.strokes[index].first_segment as u64 + self.strokes[index].segment_count as u64
            == segment_count as u64 {
            return;
        }
        let start: u32 = point_count as u32;
        let first_segment: u32 = segment_count as u32;
        let ghost moved = StrokeModel { first_point: start, first_segment, ..stroke };
        for k in 0..count
            invariant
                start == before.points.len(),
                start + count <= u32::MAX,
                stroke == before.strokes[index as int],
                first == stroke.first_point,
                count == stroke.point_count,
                first + count <= before.points.len(),
                profile == stroke.brush,
                layer == stroke.layer,
                moved == (StrokeModel { first_point: start, first_segment, ..stroke }),
                self@ == (DocumentModel {
                    points: self@.points,
                    segments: self@.segments,
                    ..before
                }),
                self@.points == before.points + before.points.subrange(
                    first as int,
                    first + k,
                ),
                self@.segments == before.segments + Seq::new(
                    k as nat,
                    |j: int| own_segment(moved, j),
                ),
        {
            let ghost current = self@;
            let point = self.points[(first + k) as usize];
            self.points.push(point);
            self.segments.push(
                StrokeSegment {
                    start: if k == 0 { start } else { start + (k - 1) },
                    end: start + k,
                    model: profile.paint.model,
                    material: profile.paint.material,
                    deposition: profile.deposition,
                    layer,
                },
            );
            proof {
                assert(point == before.points[first + k]);
                assert(self@.points =~= before.points + before.points.subrange(
                    first as int,
                    first + k + 1,
                ));
                assert(self@.segments =~= before.segments + Seq::new(
                    (k + 1) as nat,
                    |j: int| own_segment(moved, j),
                ));
                assert(self@ == (DocumentModel {
                    points: self@.points,
                    segments: self@.segments,
                    ..current
                }));
            }
        }
        assert(self@.strokes[index as int] == self.strokes@[index as int]@);
        self.strokes[index].first_point = start;
        self.strokes[index].first_segment = first_segment;
        self.active.insert(
            id.0,
            ActiveStroke { last_point: start + (count - 1), metadata_index: index, profile },
        );
        proof {
            let target = before.gathered(id);
            assert(self@.strokes =~= target.strokes);
            assert(self@.active =~= target.active);
            assert(self@ == target);
            lemma_gathered(before, id);
        }
    }

    /// Appends one geometry sample, or returns `None` for an unknown or exact
    /// duplicate sample.
    ///
    /// `reach` is the rectangle that the footprint at `point` covers. Where another
    /// contact drew since the latest sample, the contact is first copied behind it, so
    /// that its points and segments stay in one piece.
    pub fn append_point(&mut self, id: StrokeId, point: StrokePoint, reach: Bounds) -> (delta:
        Option<StrokeDelta>)
        requires
            old(self).well_formed(),
            old(self)@.extends(id, point) ==> old(self)@.has_room(id),
        ensures
            final(self).well_formed(),
            old(self)@.coherent() ==> final(self)@.coherent(),
            if old(self)@.extends(id, point) {
                &&& delta == Some(final(self)@.append_report(id))
                &&& final(self)@ == old(self)@.extended(id, point, reach)
            } else {
                &&& delta is None
                &&& final(self)@ == old(self)@
            },
    {
        let ghost before = self@;
        let active: ActiveStroke = match self.active.get(&id.0) {
            Some(active) => *active,
            None => {
                return None;
            },
        };
        if self.points[active.last_point as usize].equals(point) {
            return None;
        }
        self.gather(id);
        let ghost gathered = self@;
        proof {
            lemma_gathered(before, id);
        }
        let active: ActiveStroke = match self.active.get(&id.0) {
            Some(active) => *active,
            None => {
                return None;
            },
        };
        let point_index: u32 = self.points.len() as u32;
        self.points.push(point);
        let index: usize = active.metadata_index;
        assert(gathered.strokes[index as int] == self.strokes@[index as int]@);
        let layer = self.strokes[index].layer;
        let segment_index: u32 = self.segments.len() as u32;
        self.segments.push(
            StrokeSegment {
                start: active.last_point,
                end: point_index,
                model: active.profile.paint.model,
                material: active.profile.paint.material,
                deposition: active.profile.deposition,
                layer,
            },
        );
        self.active.insert(
            id.0,
            ActiveStroke {
                last_point: point_index,
                metadata_index: index,
                profile: active.profile,
            },
        );
        let bounds = self.strokes[index].bounds.union(reach);
        self.strokes[index].point_count = self.strokes[index].point_count + 1;
        self.strokes[index].segment_count = self.strokes[index].segment_count + 1;
        self.strokes[index].bounds = bounds;
        proof {
            let target = gathered.prolonged(id, point, reach);
            assert(self@.strokes =~= target.strokes);
            assert(self@ == target);
            lemma_prolonged(gathered, id, point, reach);
        }
        proof {
            if old(self)@.coherent() {
                lemma_extended_coherent(old(self)@, id, point, reach);
            }
        }
        Some(StrokeDelta::Append { stroke: id, point: point_index, segment: segment_index })
    }

    /// Completes an active stroke, returning `None` when it is no longer active.
    ///
    /// `coverage` names the tiles under the stroke and under each of its segments.
    pub fn end_stroke(&mut self, id: StrokeId, coverage: &StrokeCoverage) -> (delta: Option<
        StrokeDelta,
    >)
        requires
            old(self).well_formed(),
            old(self)@.active.contains_key(id.0) ==> old(self)@.covers_stroke(
                old(self)@.active[id.0].metadata_index as int,
                coverage@,
            ),
        ensures
            final(self).well_formed(),
            old(self)@.coherent() ==> final(self)@.coherent(),
            if old(self)@.active.contains_key(id.0) {
                &&& delta == Some(StrokeDelta::End { stroke: id })
                &&& final(self)@ == old(self)@.ended(id, coverage@)
            } else {
                &&& delta is None
                &&& final(self)@ == old(self)@
            },
    {
        let ghost before = self@;
        let active: ActiveStroke = match self.active.remove(&id.0) {
            Some(active) => active,
            None => {
                assert(self@.active =~= before.active);
                return None;
            },
        };
        self.bump_revision();
        let index: usize = active.metadata_index;
        assert(before.strokes[index as int] == self.strokes@[index as int]@);
        assert(before.stroke_in_range(before.strokes[index as int]));
        let layer = self.strokes[index].layer;
        let first: u32 = self.strokes[index].first_segment;
        let tiles = tiles_for_span(coverage.affected, layer);
        self.strokes[index].complete = true;
        self.strokes[index].state = StrokeState::PendingCache;
        self.strokes[index].revision = self.revision;
        self.strokes[index].affected_tiles = copy_tiles(&tiles);
        assert(stroke_absent(before.index, index));
        self.spatial_index.index_stroke(index, layer, first, &coverage.segments);
        let ghost stroke = before.strokes[index as int];
        proof {
            assert(self@.strokes =~= before.strokes.update(
                index as int,
                StrokeModel {
                    complete: true,
                    state: StrokeState::PendingCache,
                    revision: before.next_revision(),
                    affected_tiles: tiles@,
                    ..stroke
                },
            ));
            lemma_ended(before, id, coverage@, self@);
        }
        self.invalidate_tiles(&tiles, TileInvalidationCause::StrokeCommit, true);
        proof {
            lemma_structure_kept(before.committed(id, coverage@), self@);
            lemma_recorded(self@, CommandModel::AddStroke(index));
        }
        self.record(HistoryCommand::AddStroke(index));
        proof {
            if old(self)@.coherent() {
                lemma_ended_coherent(old(self)@, id, coverage@);
            }
        }
        Some(StrokeDelta::End { stroke: id })
    }
}

/// A new stroke leaves the document well formed.
pub proof fn lemma_begun(a: DocumentModel, point: StrokePoint, reach: Bounds, profile: BrushProfile)
    requires
        a.well_formed(),
        a.points.len() <= u32::MAX,
        a.segments.len() <= u32::MAX,
        a.strokes.len() < usize::MAX,
    ensures
        a.begun(point, reach, profile).well_formed(),
{
    let b = a.begun(point, reach, profile);
    assert forall|s: int| 0 <= s < b.segments.len() implies {
        &&& (#[trigger] b.segments[s]).start < b.points.len()
        &&& b.segments[s].end < b.points.len()
    } by {
        if s < a.segments.len() {
            assert(b.segments[s] == a.segments[s]);
        }
    }
    assert forall|i: int| 0 <= i < b.strokes.len() implies b.stroke_in_range(
        #[trigger] b.strokes[i],
    ) by {
        if i < a.strokes.len() {
            assert(a.stroke_in_range(a.strokes[i]));
        }
    }
    assert forall|id: u64| #[trigger] b.lookup.contains_key(id) implies {
        &&& b.lookup[id] < b.strokes.len()
        &&& b.strokes[b.lookup[id] as int].id == StrokeId(id)
    } by {
        if id != a.next_stroke {
            assert(a.lookup.contains_key(id));
        }
    }
    assert forall|id: u64| #[trigger] b.active.contains_key(id) implies {
        &&& b.active[id].metadata_index < b.strokes.len()
        &&& b.active[id].last_point < b.points.len()
        &&& b.strokes[b.active[id].metadata_index as int].id == StrokeId(id)
        &&& !b.strokes[b.active[id].metadata_index as int].complete
    } by {
        if id != a.next_stroke {
            assert(a.active.contains_key(id));
        }
    }
    lemma_strokes_grown(a, b);
    lemma_begun_apart(a, point, reach, profile);
}

/// The contact of a new stroke owns its dot and shares nothing with others.
proof fn lemma_begun_apart(
    a: DocumentModel,
    point: StrokePoint,
    reach: Bounds,
    profile: BrushProfile,
)
    requires
        a.well_formed(),
        a.points.len() <= u32::MAX,
        a.segments.len() <= u32::MAX,
        a.strokes.len() < usize::MAX,
    ensures
        a.begun(point, reach, profile).contacts_own_geometry(),
{
    let b = a.begun(point, reach, profile);
    let last = a.strokes.len() as int;
    let id = a.next_stroke;
    assert(a.points =~= b.points.subrange(0, a.points.len() as int));
    assert(a.segments =~= b.segments.subrange(0, a.segments.len() as int));
    lemma_geometry_appended(a, b);
    if a.active.contains_key(id) {
        let m = a.active[id].metadata_index;
        assert(id == (id + a.strokes.len() - m) % 0x1_0000_0000_0000_0000);
        assert(0 < a.strokes.len() - m < 0x1_0000_0000_0000_0000);
    }
    assert(!a.active.contains_key(id));
    assert forall|i: int|
        0 <= i < b.strokes.len() && !(#[trigger] b.strokes[i]).complete implies b.is_contact(
        i,
    ) by {
        if i < last {
            assert(a.strokes[i] == b.strokes[i]);
            assert(a.is_contact(i));
        }
    }
    assert forall|other: u64| #[trigger] b.active.contains_key(other) implies {
        let active = b.active[other];
        let stroke = b.strokes[active.metadata_index as int];
        &&& stroke.visible
        &&& b.owns_geometry(stroke)
        &&& stroke.point_count > 0
        &&& active.last_point == stroke.first_point + stroke.point_count - 1
        &&& active.profile == stroke.brush
        &&& b.next_stroke == (other + b.strokes.len() - active.metadata_index)
            % 0x1_0000_0000_0000_0000
    } by {
        if other != id {
            assert(a.active.contains_key(other));
            let stroke = a.strokes[a.active[other].metadata_index as int];
            assert(a.stroke_in_range(stroke));
            assert(a.owns_geometry(stroke));
            assert(b.strokes[a.active[other].metadata_index as int] == stroke);
        }
    }
    assert forall|i: int, j: int|
        0 <= i < b.strokes.len() && 0 <= j < b.strokes.len() && i != j
            && !b.strokes[i].complete implies drawn_apart(
        #[trigger] b.strokes[i],
        #[trigger] b.strokes[j],
    ) by {
        if i == last {
            assert(a.stroke_in_range(a.strokes[j]));
        } else if j == last {
            assert(a.stroke_in_range(a.strokes[i]));
        } else {
            assert(drawn_apart(a.strokes[i], a.strokes[j]));
        }
    }
}

/// Completed strokes that stay keep index and history in range.
proof fn lemma_strokes_grown(a: DocumentModel, b: DocumentModel)
    requires
        a.index_in_range(),
        a.history_in_range(),
        a.index == b.index,
        a.undo == b.undo,
        a.redo == b.redo,
        a.strokes.len() <= b.strokes.len(),
        forall|i: int|
            0 <= i < a.strokes.len() && (#[trigger] a.strokes[i]).complete
                ==> b.strokes[i].complete,
    ensures
        b.index_in_range(),
        b.history_in_range(),
{
    assert forall|rank: u128, k: int|
        b.index.contains_key(rank) && 0 <= k < b.index[rank].len() implies {
        &&& (#[trigger] b.index[rank][k]).stroke_index < b.strokes.len()
        &&& b.strokes[b.index[rank][k].stroke_index as int].complete
    } by {
        assert(a.strokes[a.index[rank][k].stroke_index as int].complete);
    }
    assert forall|command: CommandModel| #[trigger] a.command_in_range(
        command,
    ) implies b.command_in_range(command) by {
        match command {
            CommandModel::AddStroke(index) => {
                assert(a.strokes[index as int].complete);
            },
            CommandModel::Clear(indices) => {
                assert forall|k: int| 0 <= k < indices.len() implies (#[trigger] indices[k])
                    < b.strokes.len() && b.strokes[indices[k] as int].complete by {
                    assert(a.strokes[indices[k] as int].complete);
                }
            },
            _ => {},
        }
    }
    assert forall|k: int| 0 <= k < b.undo.len() implies b.command_in_range(
        #[trigger] b.undo[k],
    ) by {
        assert(a.command_in_range(a.undo[k]));
    }
    assert forall|k: int| 0 <= k < b.redo.len() implies b.command_in_range(
        #[trigger] b.redo[k],
    ) by {
        assert(a.command_in_range(a.redo[k]));
    }
}

/// Geometry that is only appended to leaves segments and ranges in bounds, and the
/// contents of untouched strokes alone.
proof fn lemma_geometry_appended(a: DocumentModel, b: DocumentModel)
    requires
        a.geometry_in_range(),
        a.points.is_prefix_of(b.points),
        a.segments.is_prefix_of(b.segments),
    ensures
        forall|stroke: StrokeModel| #[trigger]
            a.stroke_in_range(stroke) ==> b.stroke_in_range(stroke),
        forall|stroke: StrokeModel|
            a.stroke_in_range(stroke) && #[trigger] a.owns_geometry(stroke) ==> b.owns_geometry(
                stroke,
            ),
        forall|s: int|
            0 <= s < a.segments.len() ==> {
                &&& (#[trigger] b.segments[s]).start < b.points.len()
                &&& b.segments[s].end < b.points.len()
            },
{
    assert forall|s: int| 0 <= s < a.segments.len() implies #[trigger] b.segments[s]
        == a.segments[s] by {
        assert(a.segments == b.segments.subrange(0, a.segments.len() as int));
    }
    assert forall|stroke: StrokeModel|
        a.stroke_in_range(stroke) && #[trigger] a.owns_geometry(stroke) implies b.owns_geometry(
        stroke,
    ) by {
        assert forall|s: int|
            stroke.first_segment <= s < stroke.first_segment
                + stroke.segment_count implies #[trigger] b.segments[s] == own_segment(
            stroke,
            s - stroke.first_segment,
        ) by {
            assert(a.segments[s] == b.segments[s]);
        }
    }
}

/// A contact whose geometry is last, and owns it, leaves a document well formed where
/// the strokes are otherwise as they were.
proof fn lemma_contact_grown(a: DocumentModel, id: StrokeId, b: DocumentModel)
    requires
        a.well_formed(),
        a.active.contains_key(id.0),
        a.points.is_prefix_of(b.points),
        a.segments.is_prefix_of(b.segments),
        forall|s: int|
            a.segments.len() <= s < b.segments.len() ==> {
                &&& (#[trigger] b.segments[s]).start < b.points.len()
                &&& b.segments[s].end < b.points.len()
            },
        b == (DocumentModel {
            points: b.points,
            segments: b.segments,
            strokes: b.strokes,
            active: b.active,
            ..a
        }),
        ({
            let i = a.active[id.0].metadata_index as int;
            let old_stroke = a.strokes[i];
            let stroke = b.strokes[i];
            &&& b.strokes == a.strokes.update(i, stroke)
            &&& b.active == a.active.insert(id.0, b.active[id.0])
            &&& b.active[id.0].metadata_index == a.active[id.0].metadata_index
            &&& b.active[id.0].profile == stroke.brush
            &&& b.active[id.0].last_point == stroke.first_point + stroke.point_count - 1
            &&& stroke.id == old_stroke.id
            &&& stroke.visible
            &&& !stroke.complete
            &&& stroke.point_count > 0
            &&& b.stroke_in_range(stroke)
            &&& b.owns_geometry(stroke)
            &&& forall|j: int|
                0 <= j < a.strokes.len() && j != i ==> drawn_apart(
                    stroke,
                    #[trigger] a.strokes[j],
                )
        }),
    ensures
        b.well_formed(),
{
    let index = a.active[id.0].metadata_index as int;
    lemma_geometry_appended(a, b);
    assert forall|s: int| 0 <= s < b.segments.len() implies {
        &&& (#[trigger] b.segments[s]).start < b.points.len()
        &&& b.segments[s].end < b.points.len()
    } by {
    }
    assert forall|i: int| 0 <= i < b.strokes.len() implies b.stroke_in_range(
        #[trigger] b.strokes[i],
    ) by {
        assert(a.stroke_in_range(a.strokes[i]));
    }
    assert forall|other: u64| #[trigger] b.lookup.contains_key(other) implies {
        &&& b.lookup[other] < b.strokes.len()
        &&& b.strokes[b.lookup[other] as int].id == StrokeId(other)
    } by {
        assert(a.lookup.contains_key(other));
    }
    assert forall|other: u64| #[trigger] b.active.contains_key(other) implies {
        &&& b.active[other].metadata_index < b.strokes.len()
        &&& b.active[other].last_point < b.points.len()
        &&& b.strokes[b.active[other].metadata_index as int].id == StrokeId(other)
        &&& !b.strokes[b.active[other].metadata_index as int].complete
    } by {
        assert(a.active.contains_key(other));
    }
    lemma_strokes_grown(a, b);
    assert forall|i: int|
        0 <= i < b.strokes.len() && !(#[trigger] b.strokes[i]).complete implies b.is_contact(
        i,
    ) by {
        if i != index {
            assert(a.strokes[i] == b.strokes[i]);
        }
        assert(a.is_contact(i));
    }
    assert forall|other: u64| #[trigger] b.active.contains_key(other) implies {
        let active = b.active[other];
        let stroke = b.strokes[active.metadata_index as int];
        &&& stroke.visible
        &&& b.owns_geometry(stroke)
        &&& stroke.point_count > 0
        &&& active.last_point == stroke.first_point + stroke.point_count - 1
        &&& active.profile == stroke.brush
        &&& b.next_stroke == (other + b.strokes.len() - active.metadata_index)
            % 0x1_0000_0000_0000_0000
    } by {
        assert(a.active.contains_key(other));
        if other != id.0 {
            assert(a.active[other].metadata_index != index);
            let stroke = a.strokes[a.active[other].metadata_index as int];
            assert(a.stroke_in_range(stroke));
            assert(a.owns_geometry(stroke));
        }
    }
    assert forall|i: int, j: int|
        0 <= i < b.strokes.len() && 0 <= j < b.strokes.len() && i != j
            && !b.strokes[i].complete implies drawn_apart(
        #[trigger] b.strokes[i],
        #[trigger] b.strokes[j],
    ) by {
        if i == index {
            assert(drawn_apart(b.strokes[i], a.strokes[j]));
        } else if j == index {
            assert(drawn_apart(b.strokes[j], a.strokes[i]));
        } else {
            assert(drawn_apart(a.strokes[i], a.strokes[j]));
        }
    }
}

/// Copying a contact behind all others leaves the document well formed.
pub proof fn lemma_gathered(a: DocumentModel, id: StrokeId)
    requires
        a.well_formed(),
        a.has_room(id),
        a.active.contains_key(id.0),
    ensures
        a.gathered(id).well_formed(),
        a.gathered(id).active.contains_key(id.0),
        a.gathered(id).drawn_last(a.active[id.0].metadata_index as int),
        a.gathered(id).active[id.0].metadata_index == a.active[id.0].metadata_index,
        a.gathered(id).points.len() <= u32::MAX,
        a.gathered(id).segments.len() <= u32::MAX,
        a.points.is_prefix_of(a.gathered(id).points),
        a.segments.is_prefix_of(a.gathered(id).segments),
{
    let i = a.active[id.0].metadata_index as int;
    let b = a.gathered(id);
    let stroke = a.strokes[i];
    assert(a.stroke_in_range(stroke));
    assert(a.owns_geometry(stroke));
    if !a.drawn_last(i) {
        let moved = b.strokes[i];
        assert(a.points =~= b.points.subrange(0, a.points.len() as int));
        assert(a.segments =~= b.segments.subrange(0, a.segments.len() as int));
        assert forall|s: int| a.segments.len() <= s < b.segments.len() implies {
            &&& (#[trigger] b.segments[s]).start < b.points.len()
            &&& b.segments[s].end < b.points.len()
            &&& b.segments[s] == own_segment(moved, s - moved.first_segment)
        } by {
        }
        assert(b.owns_geometry(moved));
        assert forall|j: int| 0 <= j < a.strokes.len() && j != i implies drawn_apart(
            moved,
            #[trigger] a.strokes[j],
        ) by {
            assert(a.stroke_in_range(a.strokes[j]));
        }
        assert(b.active =~= a.active.insert(id.0, b.active[id.0]));
        lemma_contact_grown(a, id, b);
    } else {
        assert(a.points =~= b.points.subrange(0, a.points.len() as int));
        assert(a.segments =~= b.segments.subrange(0, a.segments.len() as int));
    }
}

/// A contact that moves on leaves the document well formed.
pub proof fn lemma_prolonged(a: DocumentModel, id: StrokeId, point: StrokePoint, reach: Bounds)
    requires
        a.well_formed(),
        a.active.contains_key(id.0),
        a.drawn_last(a.active[id.0].metadata_index as int),
        a.points.len() <= u32::MAX,
        a.segments.len() <= u32::MAX,
        a.strokes[a.active[id.0].metadata_index as int].point_count < u32::MAX,
    ensures
        a.prolonged(id, point, reach).well_formed(),
{
    let b = a.prolonged(id, point, reach);
    let i = a.active[id.0].metadata_index as int;
    let stroke = a.strokes[i];
    let longer = b.strokes[i];
    assert(a.stroke_in_range(stroke));
    assert(a.owns_geometry(stroke));
    assert(a.points =~= b.points.subrange(0, a.points.len() as int));
    assert(a.segments =~= b.segments.subrange(0, a.segments.len() as int));
    assert forall|s: int|
        longer.first_segment <= s < longer.first_segment
            + longer.segment_count implies #[trigger] b.segments[s] == own_segment(
        longer,
        s - longer.first_segment,
    ) by {
        if s < a.segments.len() {
            assert(b.segments[s] == a.segments[s]);
        }
    }
    assert forall|j: int| 0 <= j < a.strokes.len() && j != i implies drawn_apart(
        longer,
        #[trigger] a.strokes[j],
    ) by {
        assert(drawn_apart(a.strokes[i], a.strokes[j]));
        assert(a.stroke_in_range(a.strokes[j]));
    }
    assert(b.active =~= a.active.insert(id.0, b.active[id.0]));
    lemma_contact_grown(a, id, b);
}

/// Completing a contact leaves the document well formed.
proof fn lemma_ended(a: DocumentModel, id: StrokeId, coverage: CoverageModel, b: DocumentModel)
    requires
        a.well_formed(),
        a.active.contains_key(id.0),
        a.covers_stroke(a.active[id.0].metadata_index as int, coverage),
        b == a.committed(id, coverage),
    ensures
        b.well_formed(),
        b.command_in_range(CommandModel::AddStroke(a.active[id.0].metadata_index)),
{
    let index = a.active[id.0].metadata_index;
    let stroke = a.strokes[index as int];
    assert(a.stroke_in_range(stroke));
    assert forall|i: int| 0 <= i < b.strokes.len() implies b.stroke_in_range(
        #[trigger] b.strokes[i],
    ) by {
        assert(a.stroke_in_range(a.strokes[i]));
    }
    assert forall|other: u64| #[trigger] b.active.contains_key(other) implies {
        &&& b.active[other].metadata_index < b.strokes.len()
        &&& b.active[other].last_point < b.points.len()
        &&& b.strokes[b.active[other].metadata_index as int].id == StrokeId(other)
        &&& !b.strokes[b.active[other].metadata_index as int].complete
    } by {
        assert(a.active.contains_key(other));
        assert(other != id.0);
    }
    lemma_strokes_grown(a, DocumentModel { index: a.index, ..b });
    assert forall|rank: u128, k: int|
        b.index.contains_key(rank) && 0 <= k < b.index[rank].len() implies {
        &&& (#[trigger] b.index[rank][k]).stroke_index < b.strokes.len()
        &&& b.strokes[b.index[rank][k].stroke_index as int].complete
    } by {
        lemma_entries_after(
            a.index,
            index,
            stroke.layer,
            stroke.first_segment,
            coverage.segments,
            rank,
        );
        let entries = entries_at(a.index, rank);
        if b.index[rank][k].stroke_index != index {
            let j = choose|j: int| 0 <= j < entries.len() && entries[j] == b.index[rank][k];
            assert(a.index[rank][j] == b.index[rank][k]);
        }
    }
    assert forall|rank: u128| #[trigger] b.index.contains_key(rank) implies in_document_order(
        b.index[rank],
    ) by {
        lemma_entries_after(
            a.index,
            index,
            stroke.layer,
            stroke.first_segment,
            coverage.segments,
            rank,
        );
    }
    assert forall|i: int|
        0 <= i < b.strokes.len() && !(#[trigger] b.strokes[i]).complete implies b.is_contact(
        i,
    ) by {
        assert(a.strokes[i] == b.strokes[i]);
        assert(a.is_contact(i));
        if a.strokes[i].id == id {
            assert(i == index);
        }
    }
    assert forall|other: u64| #[trigger] b.active.contains_key(other) implies {
        let active = b.active[other];
        let stroke = b.strokes[active.metadata_index as int];
        &&& stroke.visible
        &&& b.owns_geometry(stroke)
        &&& stroke.point_count > 0
        &&& active.last_point == stroke.first_point + stroke.point_count - 1
        &&& active.profile == stroke.brush
        &&& b.next_stroke == (other + b.strokes.len() - active.metadata_index)
            % 0x1_0000_0000_0000_0000
    } by {
        assert(a.active.contains_key(other));
        let stroke = a.strokes[a.active[other].metadata_index as int];
        assert(b.strokes[a.active[other].metadata_index as int] == stroke);
        assert(a.owns_geometry(stroke));
    }
    assert forall|i: int, j: int|
        0 <= i < b.strokes.len() && 0 <= j < b.strokes.len() && i != j
            && !b.strokes[i].complete implies drawn_apart(
        #[trigger] b.strokes[i],
        #[trigger] b.strokes[j],
    ) by {
        assert(drawn_apart(a.strokes[i], a.strokes[j]));
    }
}

/// Strokes that stay complete and in range keep the document well formed.
proof fn lemma_strokes_kept(a: DocumentModel, b: DocumentModel)
    requires
        a.well_formed(),
        a.points == b.points,
        a.segments == b.segments,
        a.lookup == b.lookup,
        a.active == b.active,
        a.index == b.index,
        a.undo == b.undo,
        a.redo == b.redo,
        a.effects == b.effects,
        a.materials == b.materials,
        a.next_stroke == b.next_stroke,
        a.strokes.len() == b.strokes.len(),
        forall|i: int|
            0 <= i < a.strokes.len() ==> {
                &&& (#[trigger] b.strokes[i]).id == a.strokes[i].id
                &&& b.strokes[i].first_point == a.strokes[i].first_point
                &&& b.strokes[i].point_count == a.strokes[i].point_count
                &&& b.strokes[i].first_segment == a.strokes[i].first_segment
                &&& b.strokes[i].segment_count == a.strokes[i].segment_count
                &&& b.strokes[i].layer == a.strokes[i].layer
                &&& b.strokes[i].brush == a.strokes[i].brush
                &&& b.strokes[i].complete == a.strokes[i].complete
                &&& b.strokes[i].visible == a.strokes[i].visible || a.strokes[i].complete
            },
        forall|i: usize| #[trigger] b.overlay.contains(i) ==> i < b.strokes.len(),
    ensures
        b.well_formed(),
{
    assert forall|i: int| 0 <= i < b.strokes.len() implies b.stroke_in_range(
        #[trigger] b.strokes[i],
    ) by {
        assert(a.stroke_in_range(a.strokes[i]));
    }
    assert forall|id: u64| #[trigger] b.lookup.contains_key(id) implies {
        &&& b.lookup[id] < b.strokes.len()
        &&& b.strokes[b.lookup[id] as int].id == StrokeId(id)
    } by {
        assert(a.lookup.contains_key(id));
    }
    assert forall|id: u64| #[trigger] b.active.contains_key(id) implies {
        &&& b.active[id].metadata_index < b.strokes.len()
        &&& b.active[id].last_point < b.points.len()
        &&& b.strokes[b.active[id].metadata_index as int].id == StrokeId(id)
        &&& !b.strokes[b.active[id].metadata_index as int].complete
    } by {
        assert(a.active.contains_key(id));
    }
    assert forall|i: int| 0 <= i < a.strokes.len() && (
    #[trigger] a.strokes[i]).complete implies b.strokes[i].complete by {
        assert(b.strokes[i].complete == a.strokes[i].complete);
    }
    lemma_strokes_grown(a, b);
    lemma_contacts_kept(a, b);
}

/// Strokes that keep their ranges and style leave contacts with their geometry.
proof fn lemma_contacts_kept(a: DocumentModel, b: DocumentModel)
    requires
        a.contacts_in_range(),
        a.contacts_own_geometry(),
        a.segments == b.segments,
        a.active == b.active,
        a.next_stroke == b.next_stroke,
        a.strokes.len() == b.strokes.len(),
        forall|i: int|
            0 <= i < a.strokes.len() ==> {
                &&& (#[trigger] b.strokes[i]).id == a.strokes[i].id
                &&& b.strokes[i].first_point == a.strokes[i].first_point
                &&& b.strokes[i].point_count == a.strokes[i].point_count
                &&& b.strokes[i].first_segment == a.strokes[i].first_segment
                &&& b.strokes[i].segment_count == a.strokes[i].segment_count
                &&& b.strokes[i].layer == a.strokes[i].layer
                &&& b.strokes[i].brush == a.strokes[i].brush
                &&& b.strokes[i].complete == a.strokes[i].complete
                &&& b.strokes[i].visible == a.strokes[i].visible || a.strokes[i].complete
            },
    ensures
        b.contacts_own_geometry(),
{
    assert forall|i: int|
        0 <= i < b.strokes.len() && !(#[trigger] b.strokes[i]).complete implies b.is_contact(
        i,
    ) by {
        assert(!a.strokes[i].complete);
        assert(a.is_contact(i));
    }
    assert forall|other: u64| #[trigger] b.active.contains_key(other) implies {
        let active = b.active[other];
        let stroke = b.strokes[active.metadata_index as int];
        &&& stroke.visible
        &&& b.owns_geometry(stroke)
        &&& stroke.point_count > 0
        &&& active.last_point == stroke.first_point + stroke.point_count - 1
        &&& active.profile == stroke.brush
        &&& b.next_stroke == (other + b.strokes.len() - active.metadata_index)
            % 0x1_0000_0000_0000_0000
    } by {
        assert(a.active.contains_key(other));
        let i = a.active[other].metadata_index as int;
        assert(a.owns_geometry(a.strokes[i]));
        assert forall|s: int|
            b.strokes[i].first_segment <= s < b.strokes[i].first_segment
                + b.strokes[i].segment_count implies #[trigger] b.segments[s] == own_segment(
            b.strokes[i],
            s - b.strokes[i].first_segment,
        ) by {
            assert(a.segments[s] == own_segment(
                a.strokes[i],
                s - a.strokes[i].first_segment,
            ));
        }
    }
    assert forall|i: int, j: int|
        0 <= i < b.strokes.len() && 0 <= j < b.strokes.len() && i != j
            && !b.strokes[i].complete implies drawn_apart(
        #[trigger] b.strokes[i],
        #[trigger] b.strokes[j],
    ) by {
        assert(drawn_apart(a.strokes[i], a.strokes[j]));
    }
}

impl StrokeDocument {
    /// Shows or hides the listed strokes at the current revision; `live` ones are
    /// shown by the overlay until their tiles are ready.
    fn set_visibility(&mut self, indices: &Vec<usize>, visible: bool, live: bool)
        requires
            forall|k: int| 0 <= k < indices@.len() ==> (#[trigger] indices@[k]) < old(
                self,
            )@.strokes.len(),
        ensures
            final(self)@ == old(self)@.with_visibility(indices@, visible, live),
    {
        let ghost before = self@;
        assert(self@ =~= before.with_visibility(indices@.take(0), visible, live)) by {
            assert(self@.strokes =~= before.with_visibility(indices@.take(0), visible, live).strokes);
            assert(self@.overlay =~= before.with_visibility(indices@.take(0), visible, live).overlay);
        }
        for n in 0..indices.len()
            invariant
                self@ == before.with_visibility(indices@.take(n as int), visible, live),
                forall|k: int| 0 <= k < indices@.len() ==> (#[trigger] indices@[k])
                    < before.strokes.len(),
        {
            let index: usize = indices[n];
            let ghost current = self@;
            assert(current.strokes.len() == before.strokes.len());
            assert(current.strokes[index as int] == self.strokes@[index as int]@);
            self.strokes[index].visible = visible;
            self.strokes[index].revision = self.revision;
            self.strokes[index].state =
            if visible { StrokeState::PendingCache } else { StrokeState::Hidden };
            if visible && live {
                self.overlay_strokes.insert(index, ());
            } else {
                self.overlay_strokes.remove(&index);
            }
            proof {
                let listed = indices@.take(n as int);
                let longer = indices@.take(n + 1);
                let target = before.with_visibility(longer, visible, live);
                assert(longer =~= listed.push(index));
                assert forall|i: usize| #[trigger] longer.contains(i) <==> listed.contains(i) || i
                    == index by {
                    if listed.contains(i) {
                        let k = choose|k: int| 0 <= k < listed.len() && listed[k] == i;
                        assert(longer[k] == i);
                    }
                    if i == index {
                        assert(longer[n as int] == i);
                    }
                }
                assert(self@.strokes =~= current.strokes.update(
                    index as int,
                    stroke_shown(current.strokes[index as int], visible, before.revision),
                ));
                assert(self@.strokes =~= target.strokes);
                assert(self@.overlay =~= target.overlay);
            }
        }
        assert(indices@.take(indices@.len() as int) =~= indices@);
    }

    /// Lets a command take effect again (`forward`) or takes it back.
    fn replay(&mut self, command: &HistoryCommand, forward: bool)
        requires
            old(self).well_formed(),
            old(self)@.command_in_range(command@),
        ensures
            final(self).well_formed(),
            final(self)@ == old(self)@.replayed(command@, forward),
    {
        let ghost before = self@;
        match command {
            HistoryCommand::AddStroke(index) => {
                let mut indices: Vec<usize> = Vec::new();
                indices.push(*index);
                assert(indices@ =~= seq![*index]);
                self.set_visibility(&indices, forward, true);
                let ghost shown = self@;
                self.invalidate_indices(&indices, TileInvalidationCause::UndoRedo);
                proof {
                    lemma_strokes_kept(before, shown);
                    lemma_structure_kept(shown, self@);
                }
            },
            HistoryCommand::Clear(indices) => {
                self.set_visibility(indices, !forward, false);
                let ghost shown = self@;
                self.invalidate_indices(indices, TileInvalidationCause::UndoRedo);
                proof {
                    lemma_strokes_kept(before, shown);
                    lemma_structure_kept(shown, self@);
                }
            },
            HistoryCommand::Resize { before: smaller, after } => {
                self.canvas_size = if forward { *after } else { *smaller };
                self.invalidate_all(TileInvalidationCause::Resize);
                proof {
                    lemma_structure_kept(before, self@);
                }
            },
            HistoryCommand::AddLayer { layer, index } => {
                if forward {
                    let count: usize = self.layers.len();
                    let target: usize = if *index < count { *index } else { count };
                    self.layers.insert(target, layer.clone());
                    assert(self@.layers =~= layers_inserted(before.layers, *index, layer@));
                    self.active_layer = layer.id;
                } else {
                    self.remove_layer(layer.id);
                    if self.active_layer == layer.id {
                        let count: usize = self.layers.len();
                        self.active_layer =
                        if count > 0 { self.layers[count - 1].id } else { LayerId(0) };
                    }
                }
                self.bump_layers();
                proof {
                    lemma_structure_kept(before, self@);
                }
            },
            HistoryCommand::LayerVisibility { layer, before: earlier, after } => {
                match self.layer_index(*layer) {
                    Some(index) => {
                        let visible = if forward { *after } else { *earlier };
                        assert(before.layers[index as int] == self.layers@[index as int]@);
                        self.layers[index].visible = visible;
                        assert(self@.layers =~= layer_replaced(
                            before.layers,
                            *layer,
                            setting_visible(visible),
                        ));
                        self.bump_layers();
                    },
                    None => {},
                }
                proof {
                    lemma_structure_kept(before, self@);
                }
            },
            HistoryCommand::LayerOpacity { layer, before: earlier, after } => {
                match self.layer_index(*layer) {
                    Some(index) => {
                        let opacity = if forward { *after } else { *earlier };
                        assert(before.layers[index as int] == self.layers@[index as int]@);
                        self.layers[index].opacity = opacity;
                        assert(self@.layers =~= layer_replaced(
                            before.layers,
                            *layer,
                            setting_opacity(opacity),
                        ));
                        self.bump_layers();
                    },
                    None => {},
                }
                proof {
                    lemma_structure_kept(before, self@);
                }
            },
            HistoryCommand::LayerMove { layer, before: earlier, after } => {
                let index: usize = if forward { *after } else { *earlier };
                self.move_layer_untracked(*layer, index);
                self.bump_layers();
                proof {
                    lemma_structure_kept(before, self@);
                }
            },
            HistoryCommand::LayerRename { layer, before: earlier, after } => {
                match self.layer_index(*layer) {
                    Some(index) => {
                        let name: String = if forward { after.clone() } else { earlier.clone() };
                        assert(before.layers[index as int] == self.layers@[index as int]@);
                        let ghost text = name@;
                        self.layers[index].name = name;
                        assert(self@.layers =~= layer_replaced(
                            before.layers,
                            *layer,
                            setting_name(text),
                        ));
                        self.bump_layers();
                    },
                    None => {},
                }
                proof {
                    lemma_structure_kept(before, self@);
                }
            },
        }
    }

    /// Removes all layers with the identity.
    fn remove_layer(&mut self, id: LayerId)
        ensures
            final(self)@ == (DocumentModel {
                layers: layers_without(old(self)@.layers, id),
                ..old(self)@
            }),
    {
        let ghost before = self@;
        let mut kept: Vec<CanvasLayer> = Vec::new();
        for i in 0..self.layers.len()
            invariant
                self@ == before,
                layer_models(kept@) == before.layers.take(i as int).filter(other_layer(id)),
        {
            assert(before.layers[i as int] == self.layers@[i as int]@);
            proof {
                assert(before.layers.take(i + 1).drop_last() =~= before.layers.take(i as int));
                reveal(Seq::filter);
            }
            if self.layers[i].id != id {
                let ghost shorter = layer_models(kept@);
                kept.push(self.layers[i].clone());
                assert(layer_models(kept@) =~= shorter.push(before.layers[i as int]));
            }
        }
        assert(before.layers.take(before.layers.len() as int) =~= before.layers);
        self.layers = kept;
    }

    /// Reverts the most recent completed stroke, clear, resize or layer command.
    pub fn undo(&mut self) -> (undone: bool)
        requires
            old(self).well_formed(),
        ensures
            final(self).well_formed(),
            old(self)@.coherent() ==> final(self)@.coherent(),
            undone == (old(self)@.undo.len() > 0),
            final(self)@ == if undone { old(self)@.undone() } else { old(self)@ },
    {
        let ghost before = self@;
        let command: HistoryCommand = match self.undo.pop() {
            Some(command) => command,
            None => {
                assert(self@.undo =~= before.undo);
                return false;
            },
        };
        proof {
            assert(command@ == before.undo.last());
            assert(self@.undo =~= before.undo.drop_last());
            lemma_history_popped(before, self@);
        }
        self.bump_revision();
        proof {
            lemma_structure_kept(
                DocumentModel { undo: before.undo.drop_last(), ..before },
                self@,
            );
        }
        self.replay(&command, false);
        let ghost after = self@;
        self.redo.push(command);
        proof {
            assert(self@.redo =~= after.redo.push(command@));
            lemma_history_pushed(before, after, self@, command@);
        }
        proof {
            if old(self)@.coherent() {
                lemma_undone_coherent(old(self)@);
            }
        }
        true
    }

    /// Reapplies the most recently undone command.
    pub fn redo(&mut self) -> (redone: bool)
        requires
            old(self).well_formed(),
        ensures
            final(self).well_formed(),
            old(self)@.coherent() ==> final(self)@.coherent(),
            redone == (old(self)@.redo.len() > 0),
            final(self)@ == if redone { old(self)@.redone() } else { old(self)@ },
    {
        let ghost before = self@;
        let command: HistoryCommand = match self.redo.pop() {
            Some(command) => command,
            None => {
                assert(self@.redo =~= before.redo);
                return false;
            },
        };
        proof {
            assert(command@ == before.redo.last());
            assert(self@.redo =~= before.redo.drop_last());
            lemma_history_popped(before, self@);
        }
        self.bump_revision();
        proof {
            lemma_structure_kept(
                DocumentModel { redo: before.redo.drop_last(), ..before },
                self@,
            );
        }
        self.replay(&command, true);
        let ghost after = self@;
        self.undo.push(command);
        proof {
            assert(self@.undo =~= after.undo.push(command@));
            lemma_history_pushed(before, after, self@, command@);
        }
        proof {
            if old(self)@.coherent() {
                lemma_redone_coherent(old(self)@);
            }
        }
        true
    }
}

/// A shorter history stays in range.
proof fn lemma_history_popped(a: DocumentModel, b: DocumentModel)
    requires
        a.well_formed(),
        same_structure(a, b),
        a.effects == b.effects,
        a.materials == b.materials,
        b.undo == a.undo || (a.undo.len() > 0 && b.undo == a.undo.drop_last()),
        b.redo == a.redo || (a.redo.len() > 0 && b.redo == a.redo.drop_last()),
    ensures
        b.well_formed(),
        forall|command: CommandModel| #[trigger]
            a.command_in_range(command) ==> b.command_in_range(command),
        a.undo.len() > 0 ==> a.command_in_range(a.undo.last()),
        a.redo.len() > 0 ==> a.command_in_range(a.redo.last()),
{
    if a.undo.len() > 0 {
        assert(a.command_in_range(a.undo[a.undo.len() - 1]));
    }
    if a.redo.len() > 0 {
        assert(a.command_in_range(a.redo[a.redo.len() - 1]));
    }
    assert forall|command: CommandModel| #[trigger] a.command_in_range(
        command,
    ) implies b.command_in_range(command) by {
    }
    assert forall|k: int| 0 <= k < b.undo.len() implies b.command_in_range(
        #[trigger] b.undo[k],
    ) by {
        assert(a.command_in_range(a.undo[k]));
    }
    assert forall|k: int| 0 <= k < b.redo.len() implies b.command_in_range(
        #[trigger] b.redo[k],
    ) by {
        assert(a.command_in_range(a.redo[k]));
    }
}

/// A command of the earlier document may enter the history of the later one,
/// which completed no fewer strokes.
proof fn lemma_history_pushed(
    earlier: DocumentModel,
    a: DocumentModel,
    b: DocumentModel,
    command: CommandModel,
)
    requires
        a.well_formed(),
        same_structure(a, b),
        a.effects == b.effects,
        a.materials == b.materials,
        earlier.command_in_range(command),
        earlier.strokes.len() == a.strokes.len(),
        forall|i: int|
            0 <= i < a.strokes.len() ==> (#[trigger] a.strokes[i]).complete
                == earlier.strokes[i].complete,
        (b.undo == a.undo && b.redo == a.redo.push(command)) || (b.redo == a.redo && b.undo
            == a.undo.push(command)),
    ensures
        b.well_formed(),
{
    match command {
        CommandModel::AddStroke(index) => {
            assert(a.strokes[index as int].complete);
        },
        CommandModel::Clear(indices) => {
            assert forall|k: int| 0 <= k < indices.len() implies (#[trigger] indices[k])
                < b.strokes.len() && b.strokes[indices[k] as int].complete by {
                assert(a.strokes[indices[k] as int].complete);
            }
        },
        _ => {},
    }
    assert(b.command_in_range(command));
    assert forall|other: CommandModel| #[trigger] a.command_in_range(
        other,
    ) implies b.command_in_range(other) by {
    }
    assert forall|k: int| 0 <= k < b.undo.len() implies b.command_in_range(
        #[trigger] b.undo[k],
    ) by {
        if k < a.undo.len() {
            assert(a.command_in_range(a.undo[k]));
        }
    }
    assert forall|k: int| 0 <= k < b.redo.len() implies b.command_in_range(
        #[trigger] b.redo[k],
    ) by {
        if k < a.redo.len() {
            assert(a.command_in_range(a.redo[k]));
        }
    }
}

impl StrokeDocument {
    /// Abandons and hides every contact that is still drawing.
    fn abandon_contacts(&mut self)
        requires
            old(self).well_formed(),
        ensures
            final(self).well_formed(),
            final(self)@ == old(self)@.contacts_abandoned(),
    {
        let ghost before = self@;
        let ids = ordered_ids(&self.active);
        for n in 0..ids.len()
            invariant
                before.well_formed(),
                lists(ids@, before.active.dom()),
                abandoned_upto(before, self@, ids@, n as int),
        {
            let ghost current = self@;
            assert(ids@.contains(ids@[n as int]));
            assert(before.active.dom().contains(ids@[n as int]));
            assert(before.active.contains_key(ids@[n as int]));
            let index: usize = match self.active.get(&ids[n]) {
                Some(active) => active.metadata_index,
                None => 0,
            };
            assert(current.strokes[index as int] == self.strokes@[index as int]@);
            self.overlay_strokes.remove(&index);
            self.strokes[index].visible = false;
            self.strokes[index].complete = true;
            self.strokes[index].state = StrokeState::Hidden;
            proof {
                assert(self@.strokes =~= current.strokes.update(
                    index as int,
                    StrokeModel {
                        visible: false,
                        complete: true,
                        state: StrokeState::Hidden,
                        ..current.strokes[index as int]
                    },
                ));
                assert forall|i: int| contact_among(before, ids@, n + 1, i) <==> (contact_among(
                    before,
                    ids@,
                    n as int,
                    i,
                ) || i == index) by {
                    if contact_among(before, ids@, n as int, i) {
                        let m = choose|m: int|
                            0 <= m < n && m < ids@.len() && before.active[
                                #[trigger] ids@[m]
                            ].metadata_index == i;
                        assert(before.active[ids@[m]].metadata_index == i);
                    }
                    if i == index {
                        assert(before.active[ids@[n as int]].metadata_index == i);
                    }
                }
            }
        }
        proof {
            assert forall|i: int| contact_among(
                before,
                ids@,
                ids@.len() as int,
                i,
            ) <==> before.contact_at(i) by {
                if before.contact_at(i) {
                    let id = choose|id: u64| #[trigger]
                        before.active.contains_key(id) && before.active[id].metadata_index == i;
                    assert(before.active.dom().contains(id));
                    let m = choose|m: int| 0 <= m < ids@.len() && ids@[m] == id;
                    assert(before.active[ids@[m]].metadata_index == i);
                }
                if contact_among(before, ids@, ids@.len() as int, i) {
                    let m = choose|m: int|
                        0 <= m < ids@.len() && before.active[#[trigger] ids@[m]].metadata_index
                            == i;
                    assert(ids@.contains(ids@[m]));
                    assert(before.active.dom().contains(ids@[m]));
                    assert(before.active.contains_key(ids@[m]));
                }
            }
        }
        self.active.clear();
        self.contact_generation = self.contact_generation.wrapping_add(1);
        proof {
            let target = before.contacts_abandoned();
            assert(self@.strokes =~= target.strokes);
            assert(self@.overlay =~= target.overlay);
            assert(self@.active =~= target.active);
            assert(self@ == target);
            lemma_abandoned(before);
        }
    }

    /// Positions of the strokes that replay shows, in document order.
    fn shown_positions(&self) -> (positions: Vec<usize>)
        ensures
            positions@ == self@.shown_positions(self@.strokes.len()),
    {
        let mut positions: Vec<usize> = Vec::new();
        for i in 0..self.strokes.len()
            invariant
                positions@ == self@.shown_positions(i as nat),
        {
            assert(self@.strokes[i as int] == self.strokes@[i as int]@);
            if self.strokes[i].visible && self.strokes[i].complete {
                positions.push(i);
            }
        }
        positions
    }

    /// Adds an undoable clear command without destroying vector history.
    pub fn clear(&mut self)
        requires
            old(self).well_formed(),
        ensures
            final(self).well_formed(),
            old(self)@.coherent() ==> final(self)@.coherent(),
            final(self)@ == old(self)@.cleared(),
    {
        assert(self.strokes.len() == self@.strokes.len());
        self.abandon_contacts();
        let ghost idle = self@;
        let changed = self.shown_positions();
        if changed.len() > 0 {
            proof {
                assert(self.strokes.len() == idle.strokes.len());
                lemma_shown_positions(idle, idle.strokes.len());
            }
            self.bump_revision();
            let ghost bumped = self@;
            proof {
                lemma_structure_kept(idle, bumped);
            }
            self.set_visibility(&changed, false, false);
            let ghost hidden = self@;
            self.invalidate_indices(&changed, TileInvalidationCause::Clear);
            proof {
                lemma_strokes_kept(bumped, hidden);
                lemma_structure_kept(hidden, self@);
                assert(self@.command_in_range(CommandModel::Clear(changed@))) by {
                    assert forall|k: int| 0 <= k < changed@.len() implies (
                    #[trigger] changed@[k]) < self@.strokes.len() && self@.strokes[changed@[k] as int].complete by {
                        assert(idle.strokes[changed@[k] as int].complete);
                    }
                }
                lemma_recorded(self@, CommandModel::Clear(changed@));
            }
            self.record(HistoryCommand::Clear(changed));
        }
        proof {
            if old(self)@.coherent() {
                lemma_cleared_coherent(old(self)@);
            }
        }
    }

    /// Lets every shown stroke wait for the tile cache at the current revision.
    fn await_cache(&mut self)
        requires
            old(self).well_formed(),
        ensures
            final(self).well_formed(),
            final(self)@ == old(self)@.awaiting_cache(),
    {
        let ghost before = self@;
        let count: usize = self.strokes.len();
        for n in 0..count
            invariant
                before.well_formed(),
                count == before.strokes.len(),
                self@ == (DocumentModel {
                    strokes: self@.strokes,
                    overlay: self@.overlay,
                    ..before
                }),
                self@.strokes.len() == before.strokes.len(),
                forall|i: int|
                    0 <= i < n ==> #[trigger] self@.strokes[i]
                        == before.awaiting_cache().strokes[i],
                forall|i: int|
                    n <= i < before.strokes.len() ==> #[trigger] self@.strokes[i]
                        == before.strokes[i],
                forall|i: usize| #[trigger]
                    self@.overlay.contains(i) <==> before.overlay.contains(i) && !(i < n
                        && before.strokes[i as int].visible && before.strokes[i as int].complete),
        {
            let ghost current = self@;
            assert(current.strokes[n as int] == self.strokes@[n as int]@);
            if self.strokes[n].visible && self.strokes[n].complete {
                self.strokes[n].state = StrokeState::PendingCache;
                self.strokes[n].revision = self.revision;
                self.overlay_strokes.remove(&n);
                assert(self@.strokes =~= current.strokes.update(
                    n as int,
                    StrokeModel {
                        state: StrokeState::PendingCache,
                        revision: before.revision,
                        ..current.strokes[n as int]
                    },
                ));
            }
        }
        proof {
            let target = before.awaiting_cache();
            assert(self@.strokes =~= target.strokes);
            assert(self@.overlay =~= target.overlay) by {
                assert forall|i: usize| self@.overlay.contains(i) <==> target.overlay.contains(
                    i,
                ) by {
                    assert(before.overlay.contains(i) ==> i < before.strokes.len());
                }
            }
            lemma_strokes_kept(before, self@);
        }
    }

    /// Invalidates all derived GPU state while retaining authoritative history.
    pub fn regenerate_after_device_loss(&mut self)
        requires
            old(self).well_formed(),
        ensures
            final(self).well_formed(),
            old(self)@.coherent() ==> final(self)@.coherent(),
            final(self)@ == old(self)@.device_lost(),
    {
        let ghost before = self@;
        self.geometry_generation = self.geometry_generation.wrapping_add(1);
        self.bump_revision();
        self.invalidate_all(TileInvalidationCause::DeviceLoss);
        proof {
            lemma_structure_kept(before, self@);
        }
        self.await_cache();
        proof {
            if old(self)@.coherent() {
                lemma_derived_coherent(old(self)@, self@);
            }
        }
    }

    /// Invalidates every tile after the cache layout changed.
    pub fn invalidate_cache_layout(&mut self)
        requires
            old(self).well_formed(),
        ensures
            final(self).well_formed(),
            old(self)@.coherent() ==> final(self)@.coherent(),
            final(self)@ == old(self)@.layout_changed(),
    {
        let ghost before = self@;
        self.bump_revision();
        self.invalidate_all(TileInvalidationCause::CacheLayout);
        proof {
            lemma_structure_kept(before, self@);
        }
        self.await_cache();
        proof {
            if old(self)@.coherent() {
                lemma_derived_coherent(old(self)@, self@);
            }
        }
    }

    /// Rebuilds affected tiles and spatial index from new coverage.
    fn rebuild_spatial_index(&mut self, coverage: &Vec<StrokeCoverage>)
        requires
            old(self).well_formed(),
            old(self)@.covers_strokes(coverage_models(coverage@)),
        ensures
            final(self).well_formed(),
            final(self)@ == old(self)@.recovered(coverage_models(coverage@)),
    {
        let ghost before = self@;
        let ghost spans = coverage_models(coverage@);
        self.spatial_index.clear();
        let count: usize = self.strokes.len();
        for n in 0..count
            invariant
                before.well_formed(),
                spans == coverage_models(coverage@),
                before.covers_strokes(spans),
                count == before.strokes.len(),
                self@ == (DocumentModel {
                    strokes: self@.strokes,
                    index: rebuilt_index(before.strokes, spans, n as nat),
                    ..before
                }),
                self@.strokes.len() == before.strokes.len(),
                forall|i: int|
                    0 <= i < n ==> #[trigger] self@.strokes[i] == recovered_strokes(
                        before.strokes,
                        spans,
                    )[i],
                forall|i: int|
                    n <= i < before.strokes.len() ==> #[trigger] self@.strokes[i]
                        == before.strokes[i],
        {
            let ghost current = self@;
            assert(current.strokes[n as int] == self.strokes@[n as int]@);
            assert(spans[n as int] == coverage@[n as int]@);
            if self.strokes[n].complete {
                let layer = self.strokes[n].layer;
                let first: u32 = self.strokes[n].first_segment;
                self.strokes[n].affected_tiles = tiles_for_span(coverage[n].affected, layer);
                proof {
                    assert(before.stroke_in_range(before.strokes[n as int]));
                    assert(before.covers_stroke(n as int, spans[n as int]));
                    lemma_rebuilt_index(before.strokes, spans, n as nat);
                }
                self.spatial_index.index_stroke(n, layer, first, &coverage[n].segments);
                assert(self@.strokes =~= current.strokes.update(
                    n as int,
                    StrokeModel {
                        affected_tiles: spans[n as int].affected.tiles(layer),
                        ..current.strokes[n as int]
                    },
                ));
            }
        }
        proof {
            let target = before.recovered(spans);
            assert(self@.strokes =~= target.strokes);
            lemma_rebuilt_index(before.strokes, spans, before.strokes.len());
            lemma_strokes_kept(before, DocumentModel { index: before.index, ..target });
            lemma_index_replaced(DocumentModel { index: before.index, ..target }, target);
        }
    }

    /// Updates tile identity when renderer configuration changes.
    ///
    /// `coverage` names, for every stroke, the tiles of the new size under it;
    /// it is not read where the size stays the same.
    pub fn set_tile_size(&mut self, tile_size: u32, coverage: &Vec<StrokeCoverage>)
        requires
            old(self).well_formed(),
            old(self)@.tile_size != (if tile_size == 0 { 1 } else { tile_size })
                ==> old(self)@.covers_strokes(coverage_models(coverage@)),
        ensures
            final(self).well_formed(),
            old(self)@.coherent() ==> final(self)@.coherent(),
            final(self)@ == {
                let size = if tile_size == 0 { 1 } else { tile_size };
                if old(self)@.tile_size == size {
                    old(self)@
                } else {
                    old(self)@.tiles_resized(size, coverage_models(coverage@))
                }
            },
    {
        let ghost before = self@;
        let size: u32 = if tile_size == 0 { 1 } else { tile_size };
        if size == self.tile_size {
            return;
        }
        self.tile_size = size;
        proof {
            lemma_structure_kept(before, self@);
        }
        self.rebuild_spatial_index(coverage);
        let ghost rebuilt = self@;
        self.bump_revision();
        self.invalidate_all(TileInvalidationCause::Resize);
        proof {
            lemma_structure_kept(rebuilt, self@);
        }
        proof {
            if old(self)@.coherent() {
                lemma_derived_coherent(old(self)@, self@);
            }
        }
    }

    /// Applies the largest enabled local-effect radius to future invalidations.
    ///
    /// `coverage` names, for every stroke, the tiles under it widened by the new
    /// radius; it is not read where the radius stays the same.
    pub fn set_effect_radius(&mut self, radius_px: u32, coverage: &Vec<StrokeCoverage>)
        requires
            old(self).well_formed(),
            old(self)@.effect_radius_px != radius_px ==> old(self)@.covers_strokes(
                coverage_models(coverage@),
            ),
        ensures
            final(self).well_formed(),
            old(self)@.coherent() ==> final(self)@.coherent(),
            final(self)@ == if old(self)@.effect_radius_px == radius_px {
                old(self)@
            } else {
                old(self)@.radius_changed(radius_px, coverage_models(coverage@))
            },
    {
        let ghost before = self@;
        if self.effect_radius_px == radius_px {
            return;
        }
        self.effect_radius_px = radius_px;
        proof {
            lemma_structure_kept(before, self@);
        }
        self.rebuild_spatial_index(coverage);
        let ghost rebuilt = self@;
        self.bump_revision();
        self.invalidate_all(TileInvalidationCause::EffectDependency);
        proof {
            lemma_structure_kept(rebuilt, self@);
        }
        proof {
            if old(self)@.coherent() {
                lemma_derived_coherent(old(self)@, self@);
            }
        }
    }

    /// Hands all pending invalidations over to the caller.
    pub fn drain_invalidations(&mut self) -> (pending: Vec<TileInvalidation>)
        requires
            old(self).well_formed(),
        ensures
            final(self).well_formed(),
            old(self)@.coherent() ==> final(self)@.coherent(),
            pending@ == old(self)@.invalidations,
            final(self)@ == old(self)@.drained(),
    {
        let ghost before = self@;
        let mut pending: Vec<TileInvalidation> = Vec::new();
        core::mem::swap(&mut pending, &mut self.invalidations);
        assert(self@.invalidations =~= Seq::<TileInvalidation>::empty());
        proof {
            lemma_structure_kept(before, self@);
        }
        proof {
            if old(self)@.coherent() {
                lemma_derived_coherent(old(self)@, self@);
            }
        }
        pending
    }
}

/// Whether one of the first `count` listed contacts draws the stroke at the position.
spec fn contact_among(document: DocumentModel, ids: Seq<u64>, count: int, i: int) -> bool {
    exists|m: int|
        0 <= m < count && m < ids.len() && document.active[#[trigger] ids[m]].metadata_index == i
}

/// State after the first `count` listed contacts were hidden.
spec fn abandoned_upto(
    before: DocumentModel,
    current: DocumentModel,
    ids: Seq<u64>,
    count: int,
) -> bool {
    &&& current == (DocumentModel { strokes: current.strokes, overlay: current.overlay, ..before })
    &&& current.strokes.len() == before.strokes.len()
    &&& forall|i: int|
        0 <= i < before.strokes.len() ==> #[trigger] current.strokes[i] == (if contact_among(
            before,
            ids,
            count,
            i,
        ) {
            StrokeModel {
                visible: false,
                complete: true,
                state: StrokeState::Hidden,
                ..before.strokes[i]
            }
        } else {
            before.strokes[i]
        })
    &&& forall|i: usize| #[trigger]
        current.overlay.contains(i) <==> before.overlay.contains(i) && !contact_among(
            before,
            ids,
            count,
            i as int,
        )
}

/// Abandoning the contacts leaves the document well formed.
proof fn lemma_abandoned(a: DocumentModel)
    requires
        a.well_formed(),
    ensures
        a.contacts_abandoned().well_formed(),
{
    let b = a.contacts_abandoned();
    assert forall|i: int| 0 <= i < b.strokes.len() implies b.stroke_in_range(
        #[trigger] b.strokes[i],
    ) by {
        assert(a.stroke_in_range(a.strokes[i]));
    }
    assert forall|id: u64| #[trigger] b.lookup.contains_key(id) implies {
        &&& b.lookup[id] < b.strokes.len()
        &&& b.strokes[b.lookup[id] as int].id == StrokeId(id)
    } by {
        assert(a.lookup.contains_key(id));
    }
    lemma_strokes_grown(a, b);
}

/// Shown positions name completed strokes of the document.
pub proof fn lemma_shown_positions(document: DocumentModel, count: nat)
    requires
        count <= document.strokes.len(),
        document.strokes.len() <= usize::MAX,
    ensures
        forall|k: int|
            0 <= k < document.shown_positions(count).len() ==> {
                let i = #[trigger] document.shown_positions(count)[k];
                &&& i < count
                &&& document.strokes[i as int].visible
                &&& document.strokes[i as int].complete
            },
        forall|i: int|
            0 <= i < count && (#[trigger] document.strokes[i]).visible
                && document.strokes[i].complete ==> document.shown_positions(count).contains(
                i as usize,
            ),
    decreases count,
{
    if count > 0 {
        lemma_shown_positions(document, (count - 1) as nat);
        let before = document.shown_positions((count - 1) as nat);
        let all = document.shown_positions(count);
        assert forall|i: int|
            0 <= i < count && (#[trigger] document.strokes[i]).visible
                && document.strokes[i].complete implies all.contains(i as usize) by {
            if i < count - 1 {
                assert(before.contains(i as usize));
                let k = choose|k: int| 0 <= k < before.len() && before[k] == i as usize;
                assert(all[k] == i as usize);
            } else {
                assert(all[all.len() - 1] == i as usize);
            }
        }
    }
}

/// A rebuilt index names earlier completed strokes only.
proof fn lemma_rebuilt_index(strokes: Seq<StrokeModel>, coverage: Seq<CoverageModel>, count: nat)
    requires
        count <= strokes.len(),
        strokes.len() <= usize::MAX,
    ensures
        forall|rank: u128, k: int|
            rebuilt_index(strokes, coverage, count).contains_key(rank) && 0 <= k < rebuilt_index(
                strokes,
                coverage,
                count,
            )[rank].len() ==> {
                let entry = #[trigger] rebuilt_index(strokes, coverage, count)[rank][k];
                &&& entry.stroke_index < count
                &&& strokes[entry.stroke_index as int].complete
            },
        forall|rank: u128| #[trigger]
            rebuilt_index(strokes, coverage, count).contains_key(rank) ==> in_document_order(
                rebuilt_index(strokes, coverage, count)[rank],
            ),
    decreases count,
{
    if count > 0 {
        let before = rebuilt_index(strokes, coverage, (count - 1) as nat);
        let all = rebuilt_index(strokes, coverage, count);
        let i = (count - 1) as usize;
        lemma_rebuilt_index(strokes, coverage, (count - 1) as nat);
        assert(stroke_absent(before, i));
        assert forall|rank: u128, k: int|
            all.contains_key(rank) && 0 <= k < all[rank].len() implies {
            let entry = #[trigger] all[rank][k];
            &&& entry.stroke_index < count
            &&& strokes[entry.stroke_index as int].complete
        } by {
            if strokes[count - 1].complete {
                lemma_entries_after(
                    before,
                    i,
                    strokes[count - 1].layer,
                    strokes[count - 1].first_segment,
                    coverage[count - 1].segments,
                    rank,
                );
                let entries = entries_at(before, rank);
                if all[rank][k].stroke_index != i {
                    let j = choose|j: int| 0 <= j < entries.len() && entries[j] == all[rank][k];
                    assert(before[rank][j] == all[rank][k]);
                }
            } else {
                assert(all[rank][k] == before[rank][k]);
            }
        }
        assert forall|rank: u128| #[trigger] all.contains_key(rank) implies in_document_order(
            all[rank],
        ) by {
            if strokes[count - 1].complete {
                lemma_entries_after(
                    before,
                    i,
                    strokes[count - 1].layer,
                    strokes[count - 1].first_segment,
                    coverage[count - 1].segments,
                    rank,
                );
            }
        }
    }
}

/// An index that names completed strokes may replace another.
proof fn lemma_index_replaced(a: DocumentModel, b: DocumentModel)
    requires
        a.well_formed(),
        b == (DocumentModel { index: b.index, ..a }),
        b.index_in_range(),
    ensures
        b.well_formed(),
{
    assert forall|k: int| 0 <= k < b.undo.len() implies b.command_in_range(
        #[trigger] b.undo[k],
    ) by {
        assert(a.command_in_range(a.undo[k]));
    }
    assert forall|k: int| 0 <= k < b.redo.len() implies b.command_in_range(
        #[trigger] b.redo[k],
    ) by {
        assert(a.command_in_range(a.redo[k]));
    }
}

impl StrokeDocument {
    /// Layers and segment ranges that the live overlay draws, in document order.
    pub fn overlay_layer_segment_ranges(&self) -> (ranges: Vec<(LayerId, SegmentRange)>)
        requires
            self.well_formed(),
        ensures
            ranges@ == self@.overlay_ranges(),
    {
        let indices = ordered_indices(&self.overlay_strokes);
        let mut ranges: Vec<(LayerId, SegmentRange)> = Vec::new();
        for n in 0..indices.len()
            invariant
                self.well_formed(),
                lists(indices@, self@.overlay),
                ranges@ == self@.drawn_ranges(indices@, n as nat),
        {
            assert(indices@.contains(indices@[n as int]));
            assert(self@.overlay.contains(indices@[n as int]));
            let index: usize = indices[n];
            assert(self@.strokes[index as int] == self.strokes@[index as int]@);
            let stroke = &self.strokes[index];
            let shown = stroke.visible && match self.layer(stroke.layer) {
                Some(layer) => layer.visible && Scalar::zero().less_than(layer.opacity),
                None => false,
            };
            if shown {
                ranges.push(
                    (
                        stroke.layer,
                        SegmentRange {
                            start: stroke.first_segment,
                            end: stroke.first_segment.saturating_add(stroke.segment_count),
                        },
                    ),
                );
            }
        }
        ranges
    }

    /// Segment ranges that the live overlay draws, in document order.
    pub fn overlay_segment_ranges(&self) -> (ranges: Vec<SegmentRange>)
        requires
            self.well_formed(),
        ensures
            ranges@ == self@.overlay_ranges().map_values(
                |range: (LayerId, SegmentRange)| range.1,
            ),
    {
        let layered = self.overlay_layer_segment_ranges();
        let mut ranges: Vec<SegmentRange> = Vec::new();
        for i in 0..layered.len()
            invariant
                ranges@ == layered@.take(i as int).map_values(
                    |range: (LayerId, SegmentRange)| range.1,
                ),
        {
            ranges.push(layered[i].1);
            assert(ranges@ =~= layered@.take(i + 1).map_values(
                |range: (LayerId, SegmentRange)| range.1,
            ));
        }
        assert(layered@.take(layered@.len() as int) =~= layered@);
        ranges
    }

    /// Hands completed strokes over from the overlay to the tile cache: those
    /// for all of whose affected tiles `tile_is_ready` confirms the stroke's
    /// revision. It is asked about nothing else.
    pub fn refresh_cache_handoffs<F: Fn(TileKey, u64) -> bool>(&mut self, tile_is_ready: F)
        requires
            old(self).well_formed(),
            forall|i: usize, k: int|
                old(self)@.awaits_handover(i) && 0 <= k
                    < old(self)@.strokes[i as int].affected_tiles.len() ==> tile_is_ready.requires(
                    (
                        #[trigger] old(self)@.strokes[i as int].affected_tiles[k],
                        old(self)@.strokes[i as int].revision,
                    ),
                ),
        ensures
            final(self).well_formed(),
            old(self)@.coherent() ==> final(self)@.coherent(),
            exists|ready: Set<usize>|
                {
                    &&& final(self)@ == #[trigger] old(self)@.handed_over(ready)
                    &&& forall|i: usize| #[trigger]
                        ready.contains(i) ==> old(self)@.awaits_handover(i) && confirmed(
                            tile_is_ready,
                            old(self)@.strokes[i as int],
                        )
                    &&& forall|i: usize|
                        old(self)@.awaits_handover(i) && !#[trigger] ready.contains(i)
                            ==> contested(tile_is_ready, old(self)@.strokes[i as int])
                },
    {
        let ghost before = self@;
        let indices = ordered_indices(&self.overlay_strokes);
        let mut ready: Vec<usize> = Vec::new();
        for n in 0..indices.len()
            invariant
                self@ == before,
                self.well_formed(),
                lists(indices@, before.overlay),
                forall|i: usize, k: int|
                    before.awaits_handover(i) && 0 <= k
                        < before.strokes[i as int].affected_tiles.len() ==> tile_is_ready.requires(
                        (
                            #[trigger] before.strokes[i as int].affected_tiles[k],
                            before.strokes[i as int].revision,
                        ),
                    ),
                forall|m: int|
                    0 <= m < ready@.len() ==> {
                        &&& before.awaits_handover(#[trigger] ready@[m])
                        &&& confirmed(tile_is_ready, before.strokes[ready@[m] as int])
                    },
                forall|m: int|
                    0 <= m < n && before.awaits_handover(#[trigger] indices@[m])
                        && !ready@.contains(indices@[m]) ==> contested(
                        tile_is_ready,
                        before.strokes[indices@[m] as int],
                    ),
        {
            assert(indices@.contains(indices@[n as int]));
            assert(before.overlay.contains(indices@[n as int]));
            let index: usize = indices[n];
            assert(before.strokes[index as int] == self.strokes@[index as int]@);
            let ghost earlier = ready@;
            if self.strokes[index].complete && self.strokes[index].visible && all_tiles_ready(
                &self.strokes[index],
                &tile_is_ready,
            ) {
                ready.push(index);
                proof {
                    assert forall|m: int|
                        0 <= m < n + 1 && before.awaits_handover(#[trigger] indices@[m])
                            && !ready@.contains(indices@[m]) implies contested(
                        tile_is_ready,
                        before.strokes[indices@[m] as int],
                    ) by {
                        assert(ready@[earlier.len() as int] == index);
                        if earlier.contains(indices@[m]) {
                            let k = choose|k: int|
                                0 <= k < earlier.len() && earlier[k] == indices@[m];
                            assert(ready@[k] == indices@[m]);
                        }
                    }
                }
            }
        }
        let ghost set = ready@.to_set();
        assert(self@ =~= before.handed_over(ready@.take(0).to_set())) by {
            let target = before.handed_over(ready@.take(0).to_set());
            assert(self@.strokes =~= target.strokes);
            assert(self@.overlay =~= target.overlay);
        }
        for n in 0..ready.len()
            invariant
                before.well_formed(),
                self@ == before.handed_over(ready@.take(n as int).to_set()),
                forall|m: int|
                    0 <= m < ready@.len() ==> before.awaits_handover(#[trigger] ready@[m]),
        {
            let ghost current = self@;
            let index: usize = ready[n];
            assert(before.awaits_handover(ready@[n as int]));
            assert(before.overlay.contains(index));
            assert(current.strokes.len() == before.strokes.len());
            assert(current.strokes[index as int] == self.strokes@[index as int]@);
            self.overlay_strokes.remove(&index);
            self.strokes[index].state = StrokeState::Cached;
            proof {
                let taken = ready@.take(n as int);
                let longer = ready@.take(n + 1);
                let target = before.handed_over(longer.to_set());
                assert(longer =~= taken.push(index));
                assert forall|i: usize| #[trigger] longer.to_set().contains(
                    i,
                ) <==> taken.to_set().contains(i) || i == index by {
                    if taken.contains(i) {
                        let k = choose|k: int| 0 <= k < taken.len() && taken[k] == i;
                        assert(longer[k] == i);
                    }
                    if i == index {
                        assert(longer[n as int] == i);
                    }
                }
                assert(self@.strokes =~= current.strokes.update(
                    index as int,
                    StrokeModel { state: StrokeState::Cached, ..current.strokes[index as int] },
                ));
                assert(self@.strokes =~= target.strokes);
                assert(self@.overlay =~= target.overlay);
            }
        }
        proof {
            assert(ready@.take(ready@.len() as int) =~= ready@);
            assert(self@ == before.handed_over(set));
            lemma_strokes_kept(before, self@);
            assert forall|i: usize| #[trigger] set.contains(i) implies before.awaits_handover(i)
                && confirmed(tile_is_ready, before.strokes[i as int]) by {
                let m = choose|m: int| 0 <= m < ready@.len() && ready@[m] == i;
                assert(before.awaits_handover(ready@[m]));
            }
            assert forall|i: usize|
                before.awaits_handover(i) && !#[trigger] set.contains(i) implies contested(
                tile_is_ready,
                before.strokes[i as int],
            ) by {
                assert(before.overlay.contains(i));
                let m = choose|m: int| 0 <= m < indices@.len() && indices@[m] == i;
                assert(before.awaits_handover(indices@[m]));
            }
        }
        proof {
            if old(self)@.coherent() {
                lemma_derived_coherent(old(self)@, self@);
            }
        }
    }
}

/// Whether the probe can confirm every affected tile at the stroke's revision.
pub open spec fn confirmed<F: Fn(TileKey, u64) -> bool>(probe: F, stroke: StrokeModel) -> bool {
    forall|k: int|
        0 <= k < stroke.affected_tiles.len() ==> probe.ensures(
            (#[trigger] stroke.affected_tiles[k], stroke.revision),
            true,
        )
}

/// Whether the probe can deny some affected tile at the stroke's revision.
pub open spec fn contested<F: Fn(TileKey, u64) -> bool>(probe: F, stroke: StrokeModel) -> bool {
    exists|k: int|
        0 <= k < stroke.affected_tiles.len() && probe.ensures(
            (#[trigger] stroke.affected_tiles[k], stroke.revision),
            false,
        )
}

fn all_tiles_ready<F: Fn(TileKey, u64) -> bool>(stroke: &StrokeMetadata, probe: &F) -> (ready: bool)
    requires
        forall|k: int|
            0 <= k < stroke@.affected_tiles.len() ==> probe.requires(
                (#[trigger] stroke@.affected_tiles[k], stroke.revision),
            ),
    ensures
        ready ==> confirmed(*probe, stroke@),
        !ready ==> contested(*probe, stroke@),
{
    for k in 0..stroke.affected_tiles.len()
        invariant
            forall|k: int|
                0 <= k < stroke@.affected_tiles.len() ==> probe.requires(
                    (#[trigger] stroke@.affected_tiles[k], stroke.revision),
                ),
            forall|j: int|
                0 <= j < k ==> probe.ensures(
                    (#[trigger] stroke@.affected_tiles[j], stroke.revision),
                    true,
                ),
    {
        assert(stroke@.affected_tiles[k as int] == stroke.affected_tiles@[k as int]);
        if !probe(stroke.affected_tiles[k], stroke.revision) {
            assert(probe.ensures((stroke@.affected_tiles[k as int], stroke.revision), false));
            return false;
        }
    }
    true
}

impl Default for StrokeDocument {
    fn default() -> (document: Self)
        ensures
            document.well_formed(),
            document@.coherent(),
            document@ == DocumentModel::initial(),
    {
        let mut paint_materials = PaintMaterialLibrary::new();
        let model = RgbaPaintModel::default();
        add_table_to_library(&mut paint_materials, model.materials());
        let mut layers: Vec<CanvasLayer> = Vec::new();
        layers.push(CanvasLayer::default());
        let document = StrokeDocument {
            points: Vec::new(),
            segments: Vec::new(),
            strokes: Vec::new(),
            stroke_lookup: BTreeMap::new(),
            active: BTreeMap::new(),
            overlay_strokes: BTreeMap::new(),
            spatial_index: SpatialIndex::new(),
            invalidations: Vec::new(),
            undo: Vec::new(),
            redo: Vec::new(),
            layers,
            active_layer: LayerId(0),
            next_layer: 1,
            layer_revision: 1,
            effects: EffectGraph::default(),
            paint_materials,
            next_stroke: 0,
            revision: 0,
            contact_generation: 0,
            geometry_generation: 0,
            tile_size: 256,
            effect_radius_px: 0,
            canvas_size: CanvasSize { width: 4096, height: 4096 },
        };
        proof {
            let target = DocumentModel::initial();
            assert(document@.strokes =~= target.strokes);
            assert(document@.overlay =~= target.overlay);
            assert(document@.undo =~= target.undo);
            assert(document@.redo =~= target.redo);
            assert(document@.layers =~= target.layers);
        }
        proof {
            lemma_initial_coherent();
        }
        document
    }
}

/// What a saved document restores; everything else is derived from it.
pub struct DocumentParts {
    /// Geometry samples in append order.
    pub points: Vec<StrokePoint>,
    /// Procedural segments in append order.
    pub segments: Vec<StrokeSegment>,
    /// Completed strokes without their tiles.
    pub strokes: Vec<StrokeMetadata>,
    /// Position of each stroke by identity number.
    pub stroke_lookup: BTreeMap<u64, usize>,
    /// Commands that can be undone, the latest last.
    pub undo: Vec<HistoryCommand>,
    /// Commands that can be redone, the latest last.
    pub redo: Vec<HistoryCommand>,
    /// Layers from bottom to top.
    pub layers: Vec<CanvasLayer>,
    /// Layer that receives new contacts.
    pub active_layer: LayerId,
    /// Identity number of the next layer.
    pub next_layer: u32,
    /// Effect graph of the document.
    pub effects: EffectGraph,
    /// Paint recipes of the document.
    pub paint_materials: PaintMaterialLibrary,
    /// Identity number of the next stroke.
    pub next_stroke: u64,
    /// Document revision.
    pub revision: u64,
    /// Edge length of a tile.
    pub tile_size: u32,
    /// Logical canvas extent.
    pub canvas_size: CanvasSize,
}

impl DocumentParts {
    /// The document made of the parts, before its tiles are known.
    pub open spec fn model(&self) -> DocumentModel {
        DocumentModel {
            points: self.points@,
            segments: self.segments@,
            strokes: stroke_models(self.strokes@),
            lookup: self.stroke_lookup@,
            active: Map::empty(),
            overlay: Set::empty(),
            index: Map::empty(),
            invalidations: Seq::empty(),
            undo: command_models(self.undo@),
            redo: command_models(self.redo@),
            layers: layer_models(self.layers@),
            active_layer: self.active_layer,
            next_layer: self.next_layer,
            layer_revision: 1,
            effects: self.effects@,
            materials: self.paint_materials@,
            next_stroke: self.next_stroke,
            revision: self.revision,
            contact_generation: 1,
            geometry_generation: 1,
            tile_size: self.tile_size,
            effect_radius_px: 0,
            canvas_size: self.canvas_size,
        }
    }
}

impl StrokeDocument {
    /// Builds a document from its saved parts and reports all of its tiles stale.
    pub fn from_parts(parts: DocumentParts, coverage: &Vec<StrokeCoverage>) -> (document: Self)
        requires
            parts.model().well_formed(),
            parts.model().covers_strokes(coverage_models(coverage@)),
        ensures
            document.well_formed(),
            document@ == parts.model().recovered(coverage_models(coverage@)).invalidated_all(
                TileInvalidationCause::CacheLayout,
            ),
    {
        let ghost target = parts.model();
        let mut document = StrokeDocument {
            points: parts.points,
            segments: parts.segments,
            strokes: parts.strokes,
            stroke_lookup: parts.stroke_lookup,
            active: BTreeMap::new(),
            overlay_strokes: BTreeMap::new(),
            spatial_index: SpatialIndex::new(),
            invalidations: Vec::new(),
            undo: parts.undo,
            redo: parts.redo,
            layers: parts.layers,
            active_layer: parts.active_layer,
            next_layer: parts.next_layer,
            layer_revision: 1,
            effects: parts.effects,
            paint_materials: parts.paint_materials,
            next_stroke: parts.next_stroke,
            revision: parts.revision,
            contact_generation: 1,
            geometry_generation: 1,
            tile_size: parts.tile_size,
            effect_radius_px: 0,
            canvas_size: parts.canvas_size,
        };
        assert(document@.overlay =~= target.overlay);
        assert(document@ =~= target);
        document.rebuild_spatial_index(coverage);
        let ghost rebuilt = document@;
        document.invalidate_all(TileInvalidationCause::CacheLayout);
        proof {
            lemma_structure_kept(rebuilt, document@);
        }
        document
    }
}

} // verus!
