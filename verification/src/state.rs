//! Mathematical state of a stroke document and the transitions between states.
use crate::effects::EffectGraphModel;
use crate::geometry::{Bounds, CanvasSize, LayerId, TileKey, TileSpan};
use crate::layers::{
    has_layer, layer_position, layer_replaced, layers_inserted, layers_moved, layers_without,
    setting_name, setting_opacity, setting_visible,
};
use crate::ordered::ascending;
use crate::paint::{library_filed, MaterialModel};
use crate::rgba::{library_with_table, RgbaModelState};
use crate::scalar::Scalar;
use crate::spatial::{entries_at, in_document_order, with_stroke, TileEntryModel};
use crate::strokes::{
    BrushProfile, CommandModel, LayerModel, SegmentRange, StrokeDelta, StrokeId, StrokeModel,
    StrokePoint, StrokeSegment, StrokeState, TileInvalidation, TileInvalidationCause,
};
use vstd::prelude::*;

verus! {

/// Contact that is still drawing.
#[derive(Clone, Copy, Debug, PartialEq, Eq, Structural)]
pub struct ActiveStroke {
    /// Most recent point of the contact.
    pub last_point: u32,
    /// Document position of the stroke.
    pub metadata_index: usize,
    /// Brush style captured when contact began.
    pub profile: BrushProfile,
}

/// Mathematical value of a stroke's coverage.
#[verifier::ext_equal]
pub struct CoverageModel {
    pub affected: TileSpan,
    pub segments: Seq<TileSpan>,
}

/// Mathematical value of a stroke document.
#[verifier::ext_equal]
pub struct DocumentModel {
    /// Geometry samples in append order.
    pub points: Seq<StrokePoint>,
    /// Procedural segments in append order.
    pub segments: Seq<StrokeSegment>,
    /// Recorded strokes in the order in which they began.
    pub strokes: Seq<StrokeModel>,
    /// Position of each stroke by identity number.
    pub lookup: Map<u64, usize>,
    /// Contacts that are still drawing, by identity number.
    pub active: Map<u64, ActiveStroke>,
    /// Strokes shown by the live overlay.
    pub overlay: Set<usize>,
    /// Segments by the tiles that they reach.
    pub index: Map<u128, Seq<TileEntryModel>>,
    /// Invalidations that the tile cache has not fetched yet.
    pub invalidations: Seq<TileInvalidation>,
    /// Commands that can be undone, the latest last.
    pub undo: Seq<CommandModel>,
    /// Commands that can be redone, the latest last.
    pub redo: Seq<CommandModel>,
    /// Layers from bottom to top.
    pub layers: Seq<LayerModel>,
    /// Layer that receives new contacts.
    pub active_layer: LayerId,
    /// Identity number of the next layer.
    pub next_layer: u32,
    /// Revision of the layer list.
    pub layer_revision: u64,
    /// Effect graph of the document.
    pub effects: EffectGraphModel,
    /// Paint recipes by rank of their reference.
    pub materials: Map<u128, MaterialModel>,
    /// Identity number of the next stroke.
    pub next_stroke: u64,
    /// Document revision.
    pub revision: u64,
    /// Generation by which the input adapter notices abandoned contacts.
    pub contact_generation: u64,
    /// Generation by which extraction notices replaced geometry.
    pub geometry_generation: u64,
    /// Edge length of a tile.
    pub tile_size: u32,
    /// Effect radius applied to invalidations.
    pub effect_radius_px: u32,
    /// Logical canvas extent.
    pub canvas_size: CanvasSize,
}

/// Ranks of the tiles that the listed strokes affect.
pub open spec fn affected_ranks(strokes: Seq<StrokeModel>, listed: spec_fn(int) -> bool) -> Set<
    u128,
> {
    Set::new(
        |rank: u128|
            exists|i: int, k: int|
                0 <= i < strokes.len() && listed(i) && 0 <= k < strokes[i].affected_tiles.len()
                    && (#[trigger] strokes[i].affected_tiles[k]).spec_rank() == rank,
    )
}

/// Tells the listed positions.
pub open spec fn listed_in(indices: Seq<usize>) -> spec_fn(int) -> bool {
    |i: int| 0 <= i <= usize::MAX && indices.contains(i as usize)
}

/// Tells the positions of completed strokes.
pub open spec fn completed_in(strokes: Seq<StrokeModel>) -> spec_fn(int) -> bool {
    |i: int| strokes[i].complete
}

/// The keys at ascending ranks.
pub open spec fn keys_of(ranks: Set<u128>) -> Seq<TileKey> {
    ascending(ranks).map_values(|rank: u128| TileKey::at_rank(rank))
}

/// A stroke shown or hidden by history, at a document revision.
pub open spec fn stroke_shown(stroke: StrokeModel, visible: bool, revision: u64) -> StrokeModel {
    StrokeModel {
        visible,
        revision,
        state: if visible { StrokeState::PendingCache } else { StrokeState::Hidden },
        ..stroke
    }
}

/// Segment at position `k` of a stroke: the dot of the contact first, then one segment
/// from each point to the next.
pub open spec fn own_segment(stroke: StrokeModel, k: int) -> StrokeSegment {
    StrokeSegment::drawn(
        (stroke.first_point + if k == 0 { 0 } else { k - 1 }) as u32,
        (stroke.first_point + k) as u32,
        stroke.brush,
        stroke.layer,
    )
}

/// Whether two ranges, each a start and a length, have nothing in common.
pub open spec fn ranges_apart(a: u32, a_count: u32, b: u32, b_count: u32) -> bool {
    a_count == 0 || b_count == 0 || a + a_count <= b || b + b_count <= a
}

/// Whether two strokes share neither points nor segments.
pub open spec fn drawn_apart(a: StrokeModel, b: StrokeModel) -> bool {
    &&& ranges_apart(a.first_point, a.point_count, b.first_point, b.point_count)
    &&& ranges_apart(a.first_segment, a.segment_count, b.first_segment, b.segment_count)
}

/// The spatial index of the first `count` strokes under new coverage.
pub open spec fn rebuilt_index(
    strokes: Seq<StrokeModel>,
    coverage: Seq<CoverageModel>,
    count: nat,
) -> Map<u128, Seq<TileEntryModel>>
    decreases count,
{
    if count == 0 {
        Map::empty()
    } else {
        let before = rebuilt_index(strokes, coverage, (count - 1) as nat);
        let i = count - 1;
        if strokes[i].complete {
            with_stroke(
                before,
                i as usize,
                strokes[i].layer,
                strokes[i].first_segment,
                coverage[i].segments,
            )
        } else {
            before
        }
    }
}

/// The strokes with the tiles that new coverage gives the completed ones.
pub open spec fn recovered_strokes(
    strokes: Seq<StrokeModel>,
    coverage: Seq<CoverageModel>,
) -> Seq<StrokeModel> {
    strokes.map(
        |i: int, stroke: StrokeModel|
            if stroke.complete {
                StrokeModel {
                    affected_tiles: coverage[i].affected.tiles(stroke.layer),
                    ..stroke
                }
            } else {
                stroke
            },
    )
}

impl DocumentModel {
    /// A new document: one visible layer, the built-in materials, no strokes.
    pub open spec fn initial() -> Self {
        DocumentModel {
            points: Seq::empty(),
            segments: Seq::empty(),
            strokes: Seq::empty(),
            lookup: Map::empty(),
            active: Map::empty(),
            overlay: Set::empty(),
            index: Map::empty(),
            invalidations: Seq::empty(),
            undo: Seq::empty(),
            redo: Seq::empty(),
            layers: seq![LayerModel::plain(LayerId(0), "Paint"@)],
            active_layer: LayerId(0),
            next_layer: 1,
            layer_revision: 1,
            effects: EffectGraphModel::initial(),
            materials: library_with_table(
                Map::empty(),
                RgbaModelState::initial().materials,
                RgbaModelState::initial().materials.len(),
            ),
            next_stroke: 0,
            revision: 0,
            contact_generation: 0,
            geometry_generation: 0,
            tile_size: 256,
            effect_radius_px: 0,
            canvas_size: CanvasSize { width: 4096, height: 4096 },
        }
    }

    /// Segment and point ranges of a stroke lie within the geometry.
    pub open spec fn stroke_in_range(self, stroke: StrokeModel) -> bool {
        &&& stroke.first_point + stroke.point_count <= self.points.len()
        &&& stroke.first_segment + stroke.segment_count <= self.segments.len()
    }

    /// The strokes that a command names are completed strokes of the document.
    pub open spec fn command_in_range(self, command: CommandModel) -> bool {
        match command {
            CommandModel::AddStroke(index) => index < self.strokes.len()
                && self.strokes[index as int].complete,
            CommandModel::Clear(indices) => forall|k: int|
                0 <= k < indices.len() ==> (#[trigger] indices[k]) < self.strokes.len()
                    && self.strokes[indices[k] as int].complete,
            _ => true,
        }
    }

    /// Every reference within the document leads to something that exists.
    pub open spec fn well_formed(self) -> bool {
        &&& self.geometry_in_range()
        &&& self.contacts_in_range()
        &&& self.contacts_own_geometry()
        &&& self.index_in_range()
        &&& self.history_in_range()
        &&& self.effects.well_formed()
        &&& self.effects.acyclic()
        &&& library_filed(self.materials)
    }

    /// Segments join known points and strokes own known ranges.
    pub open spec fn geometry_in_range(self) -> bool {
        &&& forall|s: int|
            0 <= s < self.segments.len() ==> {
                &&& (#[trigger] self.segments[s]).start < self.points.len()
                &&& self.segments[s].end < self.points.len()
            }
        &&& forall|i: int|
            0 <= i < self.strokes.len() ==> self.stroke_in_range(#[trigger] self.strokes[i])
    }

    /// Lookup, contacts and overlay name known strokes; contacts are incomplete.
    pub open spec fn contacts_in_range(self) -> bool {
        &&& forall|id: u64| #[trigger]
            self.lookup.contains_key(id) ==> {
                &&& self.lookup[id] < self.strokes.len()
                &&& self.strokes[self.lookup[id] as int].id == StrokeId(id)
            }
        &&& forall|id: u64| #[trigger]
            self.active.contains_key(id) ==> {
                &&& self.active[id].metadata_index < self.strokes.len()
                &&& self.active[id].last_point < self.points.len()
                &&& self.strokes[self.active[id].metadata_index as int].id == StrokeId(id)
                &&& !self.strokes[self.active[id].metadata_index as int].complete
            }
        &&& forall|i: usize| #[trigger] self.overlay.contains(i) ==> i < self.strokes.len()
    }

    /// Whether the ranges of a stroke hold its own points and segments.
    pub open spec fn owns_geometry(self, stroke: StrokeModel) -> bool {
        &&& stroke.point_count == stroke.segment_count
        &&& forall|s: int|
            stroke.first_segment <= s < stroke.first_segment + stroke.segment_count
                ==> #[trigger] self.segments[s] == own_segment(stroke, s - stroke.first_segment)
    }

    /// The contact that draws the stroke at the position, if it is one that draws.
    pub open spec fn is_contact(self, i: int) -> bool {
        &&& self.active.contains_key(self.strokes[i].id.0)
        &&& self.active[self.strokes[i].id.0].metadata_index == i
    }

    /// Every incomplete stroke is shown and drawn by a contact. Its ranges hold what the contact
    /// drew and nothing that another stroke holds, and its identity is not the next one.
    pub open spec fn contacts_own_geometry(self) -> bool {
        &&& forall|i: int|
            0 <= i < self.strokes.len() && !(#[trigger] self.strokes[i]).complete
                ==> self.is_contact(i)
        &&& forall|id: u64| #[trigger]
            self.active.contains_key(id) ==> {
                let active = self.active[id];
                let stroke = self.strokes[active.metadata_index as int];
                &&& stroke.visible
                &&& self.owns_geometry(stroke)
                &&& stroke.point_count > 0
                &&& active.last_point == stroke.first_point + stroke.point_count - 1
                &&& active.profile == stroke.brush
                &&& self.next_stroke == (id + self.strokes.len() - active.metadata_index)
                    % 0x1_0000_0000_0000_0000
            }
        &&& forall|i: int, j: int|
            0 <= i < self.strokes.len() && 0 <= j < self.strokes.len() && i != j
                && !self.strokes[i].complete ==> drawn_apart(
                #[trigger] self.strokes[i],
                #[trigger] self.strokes[j],
            )
    }

    /// The spatial index names completed strokes only, in document order.
    pub open spec fn index_in_range(self) -> bool {
        &&& forall|rank: u128, k: int|
            self.index.contains_key(rank) && 0 <= k < self.index[rank].len() ==> {
                &&& (#[trigger] self.index[rank][k]).stroke_index < self.strokes.len()
                &&& self.strokes[self.index[rank][k].stroke_index as int].complete
            }
        &&& forall|rank: u128| #[trigger]
            self.index.contains_key(rank) ==> in_document_order(self.index[rank])
    }

    /// Commands name completed strokes only.
    pub open spec fn history_in_range(self) -> bool {
        &&& forall|k: int|
            0 <= k < self.undo.len() ==> self.command_in_range(#[trigger] self.undo[k])
        &&& forall|k: int|
            0 <= k < self.redo.len() ==> self.command_in_range(#[trigger] self.redo[k])
    }

    /// Coverage has one span per segment of the stroke.
    pub open spec fn covers_stroke(self, index: int, coverage: CoverageModel) -> bool {
        coverage.segments.len() == self.strokes[index].segment_count
    }

    /// Coverage has one entry per stroke, right for the completed ones.
    pub open spec fn covers_strokes(self, coverage: Seq<CoverageModel>) -> bool {
        &&& coverage.len() == self.strokes.len()
        &&& forall|i: int|
            0 <= i < self.strokes.len() && (#[trigger] self.strokes[i]).complete
                ==> self.covers_stroke(i, coverage[i])
    }

    /// The next revision number; zero is skipped.
    pub open spec fn next_revision(self) -> u64 {
        if self.revision == u64::MAX { 1 } else { (self.revision + 1) as u64 }
    }

    /// The document at the next revision.
    pub open spec fn bumped(self) -> Self {
        DocumentModel { revision: self.next_revision(), ..self }
    }

    /// The document with the layer revision advanced.
    pub open spec fn layers_bumped(self) -> Self {
        DocumentModel { layer_revision: self.layer_revision.wrapping_add(1), ..self }
    }

    /// The document with tiles reported stale at the current revision.
    pub open spec fn invalidated(
        self,
        tiles: Seq<TileKey>,
        cause: TileInvalidationCause,
        allow_stale_display: bool,
    ) -> Self {
        DocumentModel {
            invalidations: self.invalidations + tiles.map_values(
                |key: TileKey|
                    TileInvalidation {
                        key,
                        revision: self.revision,
                        cause,
                        allow_stale_display,
                        halo_radius_px: self.effect_radius_px,
                    },
            ),
            ..self
        }
    }

    /// The document with the tiles of the listed strokes reported stale.
    pub open spec fn invalidated_indices(
        self,
        indices: Seq<usize>,
        cause: TileInvalidationCause,
    ) -> Self {
        self.invalidated(
            keys_of(affected_ranks(self.strokes, listed_in(indices))),
            cause,
            false,
        )
    }

    /// The document with the tiles of all completed strokes reported stale.
    pub open spec fn invalidated_all(self, cause: TileInvalidationCause) -> Self {
        self.invalidated(
            keys_of(affected_ranks(self.strokes, completed_in(self.strokes))),
            cause,
            false,
        )
    }

    /// The document with the listed strokes shown or hidden at the current revision.
    /// Shown strokes join the overlay where they are to be seen at once (`live`), and
    /// else come back with their tiles.
    pub open spec fn with_visibility(
        self,
        indices: Seq<usize>,
        visible: bool,
        live: bool,
    ) -> Self {
        DocumentModel {
            strokes: self.strokes.map(
                |i: int, stroke: StrokeModel|
                    if listed_in(indices)(i) {
                        stroke_shown(stroke, visible, self.revision)
                    } else {
                        stroke
                    },
            ),
            overlay: if visible && live {
                self.overlay.union(indices.to_set())
            } else {
                self.overlay.difference(indices.to_set())
            },
            ..self
        }
    }

    /// The document with one more command to undo and none to redo.
    pub open spec fn recorded(self, command: CommandModel) -> Self {
        DocumentModel { undo: self.undo.push(command), redo: Seq::empty(), ..self }
    }

    /// The document after a new stroke began with one dot.
    pub open spec fn begun(self, point: StrokePoint, reach: Bounds, profile: BrushProfile) -> Self {
        let point_index = self.points.len() as u32;
        let segment_index = self.segments.len() as u32;
        let index = self.strokes.len() as usize;
        let id = self.next_stroke;
        DocumentModel {
            points: self.points.push(point),
            segments: self.segments.push(
                StrokeSegment::drawn(point_index, point_index, profile, self.active_layer),
            ),
            strokes: self.strokes.push(
                StrokeModel {
                    id: StrokeId(id),
                    first_point: point_index,
                    point_count: 1,
                    first_segment: segment_index,
                    segment_count: 1,
                    layer: self.active_layer,
                    brush: profile,
                    bounds: reach,
                    revision: self.revision,
                    state: StrokeState::Active,
                    visible: true,
                    complete: false,
                    affected_tiles: Seq::empty(),
                },
            ),
            lookup: self.lookup.insert(id, index),
            overlay: self.overlay.insert(index),
            active: self.active.insert(
                id,
                ActiveStroke { last_point: point_index, metadata_index: index, profile },
            ),
            next_stroke: self.next_stroke.wrapping_add(1),
            ..self
        }
    }

    /// Whether a sample would extend the contact: it is active and the sample
    /// differs from its latest point.
    pub open spec fn extends(self, id: StrokeId, point: StrokePoint) -> bool {
        self.active.contains_key(id.0) && !self.points[self.active[id.0].last_point as int]
            .same_number(point)
    }

    /// Whether the ranges of a stroke are the last ones.
    pub open spec fn drawn_last(self, i: int) -> bool {
        &&& self.strokes[i].first_point + self.strokes[i].point_count == self.points.len()
        &&& self.strokes[i].first_segment + self.strokes[i].segment_count == self.segments.len()
    }

    /// Whether a contact's ranges, where they are to be copied, and one more point and
    /// segment can be numbered and counted.
    pub open spec fn has_room(self, id: StrokeId) -> bool {
        let i = self.active[id.0].metadata_index as int;
        let stroke = self.strokes[i];
        let copied: int = if self.drawn_last(i) { 0 } else { stroke.point_count as int };
        &&& self.points.len() + copied <= u32::MAX
        &&& self.segments.len() + copied <= u32::MAX
        &&& stroke.point_count < u32::MAX
        &&& stroke.segment_count < u32::MAX
    }

    /// The document with a contact's ranges last: where others drew since, its points
    /// and segments are copied behind theirs, so that it can go on in one piece.
    pub open spec fn gathered(self, id: StrokeId) -> Self {
        let active = self.active[id.0];
        let i = active.metadata_index as int;
        let stroke = self.strokes[i];
        let moved = StrokeModel {
            first_point: self.points.len() as u32,
            first_segment: self.segments.len() as u32,
            ..stroke
        };
        if self.drawn_last(i) {
            self
        } else {
            DocumentModel {
                points: self.points + self.points.subrange(
                    stroke.first_point as int,
                    stroke.first_point + stroke.point_count,
                ),
                segments: self.segments + Seq::new(
                    stroke.segment_count as nat,
                    |k: int| own_segment(moved, k),
                ),
                strokes: self.strokes.update(i, moved),
                active: self.active.insert(
                    id.0,
                    ActiveStroke {
                        last_point: (self.points.len() + stroke.point_count - 1) as u32,
                        ..active
                    },
                ),
                ..self
            }
        }
    }

    /// What is reported of the stroke that begins next.
    pub open spec fn begin_report(self) -> StrokeDelta {
        StrokeDelta::Begin {
            stroke: StrokeId(self.next_stroke),
            point: self.points.len() as u32,
            segment: self.segments.len() as u32,
        }
    }

    /// What is reported of a stroke that was extended last.
    pub open spec fn append_report(self, id: StrokeId) -> StrokeDelta {
        StrokeDelta::Append {
            stroke: id,
            point: (self.points.len() - 1) as u32,
            segment: (self.segments.len() - 1) as u32,
        }
    }

    /// The document after a contact moved on to a new point.
    pub open spec fn extended(self, id: StrokeId, point: StrokePoint, reach: Bounds) -> Self {
        self.gathered(id).prolonged(id, point, reach)
    }

    /// The document after a contact whose ranges are last moved on to a new point.
    pub open spec fn prolonged(self, id: StrokeId, point: StrokePoint, reach: Bounds) -> Self {
        let active = self.active[id.0];
        let i = active.metadata_index as int;
        let stroke = self.strokes[i];
        let point_index = self.points.len() as u32;
        DocumentModel {
            points: self.points.push(point),
            segments: self.segments.push(
                StrokeSegment::drawn(
                    active.last_point,
                    point_index,
                    active.profile,
                    stroke.layer,
                ),
            ),
            strokes: self.strokes.update(
                i,
                StrokeModel {
                    point_count: (stroke.point_count + 1) as u32,
                    segment_count: (stroke.segment_count + 1) as u32,
                    bounds: stroke.bounds.joined(reach),
                    ..stroke
                },
            ),
            active: self.active.insert(
                id.0,
                ActiveStroke { last_point: point_index, ..active },
            ),
            ..self
        }
    }

    /// The document with a contact completed over the given tiles.
    pub open spec fn committed(self, id: StrokeId, coverage: CoverageModel) -> Self {
        let index = self.active[id.0].metadata_index;
        let stroke = self.strokes[index as int];
        let bumped = self.bumped();
        DocumentModel {
            strokes: self.strokes.update(
                index as int,
                StrokeModel {
                    complete: true,
                    state: StrokeState::PendingCache,
                    revision: bumped.revision,
                    affected_tiles: coverage.affected.tiles(stroke.layer),
                    ..stroke
                },
            ),
            active: self.active.remove(id.0),
            index: with_stroke(
                self.index,
                index,
                stroke.layer,
                stroke.first_segment,
                coverage.segments,
            ),
            ..bumped
        }
    }

    /// The document after a contact ended over the given tiles: its tiles are
    /// stale, its completion can be undone, and nothing is left to redo.
    pub open spec fn ended(self, id: StrokeId, coverage: CoverageModel) -> Self {
        let index = self.active[id.0].metadata_index;
        self.committed(id, coverage).invalidated(
            coverage.affected.tiles(self.strokes[index as int].layer),
            TileInvalidationCause::StrokeCommit,
            true,
        ).recorded(CommandModel::AddStroke(index))
    }

    /// The document with all contacts abandoned and hidden.
    pub open spec fn contacts_abandoned(self) -> Self {
        DocumentModel {
            strokes: self.strokes.map(
                |i: int, stroke: StrokeModel|
                    if self.contact_at(i) {
                        StrokeModel {
                            visible: false,
                            complete: true,
                            state: StrokeState::Hidden,
                            ..stroke
                        }
                    } else {
                        stroke
                    },
            ),
            overlay: self.overlay.filter(|i: usize| !self.contact_at(i as int)),
            active: Map::empty(),
            contact_generation: self.contact_generation.wrapping_add(1),
            ..self
        }
    }

    /// Whether an active contact draws the stroke at the position.
    pub open spec fn contact_at(self, i: int) -> bool {
        exists|id: u64| #[trigger]
            self.active.contains_key(id) && self.active[id].metadata_index == i
    }

    /// Positions of the strokes that replay shows, in document order.
    pub open spec fn shown_positions(self, count: nat) -> Seq<usize>
        decreases count,
    {
        if count == 0 {
            Seq::empty()
        } else {
            let before = self.shown_positions((count - 1) as nat);
            if self.strokes[count - 1].visible && self.strokes[count - 1].complete {
                before.push((count - 1) as usize)
            } else {
                before
            }
        }
    }

    /// The document after clearing: contacts abandoned, shown strokes hidden.
    pub open spec fn cleared(self) -> Self {
        let idle = self.contacts_abandoned();
        let changed = idle.shown_positions(idle.strokes.len());
        if changed.len() == 0 {
            idle
        } else {
            idle.bumped().with_visibility(changed, false, false).invalidated_indices(
                changed,
                TileInvalidationCause::Clear,
            ).recorded(CommandModel::Clear(changed))
        }
    }

    /// The document after a command took effect again (`forward`) or was taken back.
    /// Strokes that were cleared come back with their tiles, so that the overlay does
    /// not grow with the document.
    pub open spec fn replayed(self, command: CommandModel, forward: bool) -> Self {
        match command {
            CommandModel::AddStroke(index) => self.with_visibility(
                seq![index],
                forward,
                true,
            ).invalidated_indices(seq![index], TileInvalidationCause::UndoRedo),
            CommandModel::Clear(indices) => self.with_visibility(
                indices,
                !forward,
                false,
            ).invalidated_indices(indices, TileInvalidationCause::UndoRedo),
            CommandModel::Resize { before, after } => DocumentModel {
                canvas_size: if forward { after } else { before },
                ..self
            }.invalidated_all(TileInvalidationCause::Resize),
            CommandModel::AddLayer { layer, index } => if forward {
                DocumentModel {
                    layers: layers_inserted(self.layers, index, layer),
                    active_layer: layer.id,
                    ..self
                }.layers_bumped()
            } else {
                let layers = layers_without(self.layers, layer.id);
                DocumentModel {
                    layers,
                    active_layer: if self.active_layer != layer.id {
                        self.active_layer
                    } else if layers.len() > 0 {
                        layers.last().id
                    } else {
                        LayerId(0)
                    },
                    ..self
                }.layers_bumped()
            },
            CommandModel::LayerVisibility { layer, before, after } => self.with_layer(
                layer,
                setting_visible(if forward { after } else { before }),
            ),
            CommandModel::LayerOpacity { layer, before, after } => self.with_layer(
                layer,
                setting_opacity(if forward { after } else { before }),
            ),
            CommandModel::LayerMove { layer, before, after } => DocumentModel {
                layers: layers_moved(self.layers, layer, if forward { after } else { before }),
                ..self
            }.layers_bumped(),
            CommandModel::LayerRename { layer, before, after } => self.with_layer(
                layer,
                setting_name(if forward { after } else { before }),
            ),
        }
    }

    /// The document with the named layer changed; unchanged without that layer.
    pub open spec fn with_layer(
        self,
        id: LayerId,
        change: spec_fn(LayerModel) -> LayerModel,
    ) -> Self {
        if has_layer(self.layers, id) {
            DocumentModel {
                layers: layer_replaced(self.layers, id, change),
                ..self
            }.layers_bumped()
        } else {
            self
        }
    }

    /// The document after the latest command was taken back.
    pub open spec fn undone(self) -> Self
        recommends
            self.undo.len() > 0,
    {
        let command = self.undo.last();
        let after = DocumentModel { undo: self.undo.drop_last(), ..self }.bumped().replayed(
            command,
            false,
        );
        DocumentModel { redo: after.redo.push(command), ..after }
    }

    /// The document after the latest taken-back command took effect again.
    pub open spec fn redone(self) -> Self
        recommends
            self.redo.len() > 0,
    {
        let command = self.redo.last();
        let after = DocumentModel { redo: self.redo.drop_last(), ..self }.bumped().replayed(
            command,
            true,
        );
        DocumentModel { undo: after.undo.push(command), ..after }
    }

    /// The document with another canvas extent.
    pub open spec fn resized(self, size: CanvasSize) -> Self {
        DocumentModel { canvas_size: size, ..self }.bumped().invalidated_all(
            TileInvalidationCause::Resize,
        ).recorded(CommandModel::Resize { before: self.canvas_size, after: size })
    }

    /// The document with every shown stroke waiting for the tile cache at the
    /// current revision, none of them in the overlay.
    pub open spec fn awaiting_cache(self) -> Self {
        DocumentModel {
            strokes: self.strokes.map_values(
                |stroke: StrokeModel|
                    if stroke.visible && stroke.complete {
                        StrokeModel {
                            state: StrokeState::PendingCache,
                            revision: self.revision,
                            ..stroke
                        }
                    } else {
                        stroke
                    },
            ),
            overlay: self.overlay.filter(
                |i: usize|
                    !(self.strokes[i as int].visible && self.strokes[i as int].complete),
            ),
            ..self
        }
    }

    /// The document after the render device was lost.
    pub open spec fn device_lost(self) -> Self {
        DocumentModel {
            geometry_generation: self.geometry_generation.wrapping_add(1),
            ..self
        }.bumped().invalidated_all(TileInvalidationCause::DeviceLoss).awaiting_cache()
    }

    /// The document after the cache layout changed.
    pub open spec fn layout_changed(self) -> Self {
        self.bumped().invalidated_all(TileInvalidationCause::CacheLayout).awaiting_cache()
    }

    /// The document with its spatial index rebuilt from new coverage.
    pub open spec fn recovered(self, coverage: Seq<CoverageModel>) -> Self {
        DocumentModel {
            strokes: recovered_strokes(self.strokes, coverage),
            index: rebuilt_index(self.strokes, coverage, self.strokes.len()),
            ..self
        }
    }

    /// The document in place of another: what was derived from the other is known to be old.
    pub open spec fn replacing(self, other: Self) -> Self {
        DocumentModel {
            geometry_generation: other.geometry_generation.wrapping_add(1),
            contact_generation: other.contact_generation.wrapping_add(1),
            ..self
        }
    }

    /// The document after its invalidations were fetched.
    pub open spec fn drained(self) -> Self {
        DocumentModel { invalidations: Seq::empty(), ..self }
    }

    /// The document with another tile size.
    pub open spec fn tiles_resized(self, tile_size: u32, coverage: Seq<CoverageModel>) -> Self {
        DocumentModel { tile_size, ..self }.recovered(coverage).bumped().invalidated_all(
            TileInvalidationCause::Resize,
        )
    }

    /// The document with another effect radius.
    pub open spec fn radius_changed(self, radius_px: u32, coverage: Seq<CoverageModel>) -> Self {
        DocumentModel { effect_radius_px: radius_px, ..self }.recovered(
            coverage,
        ).bumped().invalidated_all(TileInvalidationCause::EffectDependency)
    }

    /// The document with another effect graph.
    pub open spec fn effects_replaced(self, effects: EffectGraphModel) -> Self {
        DocumentModel { effects, ..self }.bumped().invalidated_all(
            TileInvalidationCause::EffectDependency,
        )
    }

    /// The document after a new top layer was created and selected.
    pub open spec fn layer_added(self, name: Seq<char>) -> Self {
        let layer = LayerModel::plain(LayerId(self.next_layer), name);
        DocumentModel {
            layers: self.layers.push(layer),
            active_layer: layer.id,
            next_layer: self.next_layer.wrapping_add(1),
            ..self
        }.layers_bumped().bumped().recorded(
            CommandModel::AddLayer { layer, index: self.layers.len() as usize },
        )
    }

    /// The document after an edit of the named layer.
    pub open spec fn layer_edited(
        self,
        id: LayerId,
        change: spec_fn(LayerModel) -> LayerModel,
        command: CommandModel,
    ) -> Self {
        DocumentModel {
            layers: layer_replaced(self.layers, id, change),
            ..self
        }.layers_bumped().bumped().recorded(command)
    }

    /// The document with a layer selected for new contacts; unchanged without that layer.
    pub open spec fn layer_selected(self, id: LayerId) -> Self {
        if has_layer(self.layers, id) {
            DocumentModel { active_layer: id, ..self }
        } else {
            self
        }
    }

    /// The document after a layer was shown or hidden; unchanged where it is so already.
    pub open spec fn layer_shown(self, id: LayerId, visible: bool) -> Self {
        let layer = self.layers[layer_position(self.layers, id)];
        if !has_layer(self.layers, id) || layer.visible == visible {
            self
        } else {
            self.layer_edited(
                id,
                setting_visible(visible),
                CommandModel::LayerVisibility {
                    layer: id,
                    before: layer.visible,
                    after: visible,
                },
            )
        }
    }

    /// The document after a layer's opacity was set; unchanged where it is so already.
    pub open spec fn layer_faded(self, id: LayerId, opacity: Scalar) -> Self {
        let layer = self.layers[layer_position(self.layers, id)];
        let after = opacity.confined(Scalar::zero(), Scalar::one());
        if !has_layer(self.layers, id) || layer.opacity.same_number(after) {
            self
        } else {
            self.layer_edited(
                id,
                setting_opacity(after),
                CommandModel::LayerOpacity { layer: id, before: layer.opacity, after },
            )
        }
    }

    /// The document after a layer was renamed; unchanged where it has the name already.
    pub open spec fn layer_named(self, id: LayerId, name: Seq<char>) -> Self {
        let layer = self.layers[layer_position(self.layers, id)];
        if !has_layer(self.layers, id) || layer.name == name {
            self
        } else {
            self.layer_edited(
                id,
                setting_name(name),
                CommandModel::LayerRename { layer: id, before: layer.name, after: name },
            )
        }
    }

    /// The document after a layer was put at a position, or on top where there are not so
    /// many layers; unchanged where it is there already.
    pub open spec fn layer_put(self, id: LayerId, index: usize) -> Self {
        let after = if index < self.layers.len() {
            index
        } else {
            (self.layers.len() - 1) as usize
        };
        if !has_layer(self.layers, id) || layer_position(self.layers, id) == after {
            self
        } else {
            self.layer_moved(id, after)
        }
    }

    /// The document after an extent was asked for; unchanged where it has it already.
    pub open spec fn extent_set(self, size: CanvasSize) -> Self {
        if size.at_least_one() != self.canvas_size {
            self.resized(size.at_least_one())
        } else {
            self
        }
    }

    /// The document after the named layer moved.
    pub open spec fn layer_moved(self, id: LayerId, after: usize) -> Self {
        DocumentModel {
            layers: layers_moved(self.layers, id, after),
            ..self
        }.layers_bumped().bumped().recorded(
            CommandModel::LayerMove {
                layer: id,
                before: layer_position(self.layers, id) as usize,
                after,
            },
        )
    }

    /// The document with the given strokes handed over to the tile cache.
    pub open spec fn handed_over(self, ready: Set<usize>) -> Self {
        DocumentModel {
            strokes: self.strokes.map(
                |i: int, stroke: StrokeModel|
                    if 0 <= i <= usize::MAX && ready.contains(i as usize) {
                        StrokeModel { state: StrokeState::Cached, ..stroke }
                    } else {
                        stroke
                    },
            ),
            overlay: self.overlay.difference(ready),
            ..self
        }
    }

    /// Whether the overlay draws the stroke: it is visible on a visible layer
    /// that is not fully transparent.
    pub open spec fn overlay_draws(self, i: int) -> bool {
        let stroke = self.strokes[i];
        let layer = self.layers[layer_position(self.layers, stroke.layer)];
        &&& stroke.visible
        &&& has_layer(self.layers, stroke.layer)
        &&& layer.visible
        &&& Scalar::zero().below(layer.opacity)
    }

    /// Segment range of a stroke.
    pub open spec fn segment_range(self, i: int) -> SegmentRange {
        SegmentRange {
            start: self.strokes[i].first_segment,
            end: self.strokes[i].first_segment.saturating_add(self.strokes[i].segment_count),
        }
    }

    /// Layers and segment ranges of those among the first `count` listed strokes
    /// that the overlay draws.
    pub open spec fn drawn_ranges(self, indices: Seq<usize>, count: nat) -> Seq<
        (LayerId, SegmentRange),
    >
        decreases count,
    {
        if count == 0 {
            Seq::empty()
        } else {
            let before = self.drawn_ranges(indices, (count - 1) as nat);
            let i = indices[count - 1] as int;
            if self.overlay_draws(i) {
                before.push((self.strokes[i].layer, self.segment_range(i)))
            } else {
                before
            }
        }
    }

    /// Layers and segment ranges that the live overlay draws, in document order.
    pub open spec fn overlay_ranges(self) -> Seq<(LayerId, SegmentRange)> {
        let indices = ascending(self.overlay);
        self.drawn_ranges(indices, indices.len())
    }

    /// Whether the overlay may hand the stroke over once its tiles are ready.
    pub open spec fn awaits_handover(self, i: usize) -> bool {
        &&& self.overlay.contains(i)
        &&& self.strokes[i as int].complete
        &&& self.strokes[i as int].visible
    }

    /// Entries of a tile in the spatial index.
    pub open spec fn tile_entries(self, key: TileKey) -> Seq<TileEntryModel> {
        entries_at(self.index, key.spec_rank())
    }

    /// Whether some stroke of the tile takes part in replay on a visible layer.
    pub open spec fn shows_tile(self, key: TileKey) -> bool {
        &&& has_layer(self.layers, key.layer)
        &&& self.layers[layer_position(self.layers, key.layer)].visible
        &&& exists|k: int|
            0 <= k < self.tile_entries(key).len() && self.replays(
                #[trigger] self.tile_entries(key)[k],
            )
    }

    /// Whether the stroke of an index entry takes part in replay.
    pub open spec fn replays(self, entry: TileEntryModel) -> bool {
        self.strokes[entry.stroke_index as int].visible
            && self.strokes[entry.stroke_index as int].complete
    }
}

} // verus!
