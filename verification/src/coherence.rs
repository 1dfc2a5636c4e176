//! What holds of every document that was drawn and edited, and not read from a file
//! that says otherwise: commands keep it.
use crate::drawn_layers::{
    lemma_accounted_kept, lemma_added_accounted, lemma_drawing_accounted,
    lemma_recorded_accounted, lemma_redone_accounted, lemma_undone_accounted,
};
use crate::geometry::{Bounds, CanvasSize, LayerId};
use crate::history::{
    law_clear_can_be_undone, law_completed_stroke_can_be_undone, law_layer_edit_can_be_undone,
    law_layer_move_can_be_undone, law_new_layer_can_be_undone,
    law_redo_restores_what_undo_took_back, law_resize_can_be_undone,
    law_undo_restores_what_redo_brought_back, layer_in_order,
};
use crate::layers::{
    distinct_layers, has_layer, layer_position, lemma_found_after_inserting,
    lemma_found_after_moving, lemma_found_after_removing, lemma_found_after_replacing,
    lemma_layer_found, lemma_layer_position, setting_name, setting_opacity, setting_visible,
};
use crate::scalar::Scalar;
use crate::state::{drawn_apart, own_segment, CoverageModel, DocumentModel};
use crate::strokes::{BrushProfile, CommandModel, StrokeId, StrokeModel, StrokePoint};
use vstd::prelude::*;

verus! {

impl DocumentModel {
    /// Identities are below the counters that hand them out, those of strokes ascend,
    /// and the active layer exists.
    pub open spec fn numbers_in_order(self) -> bool {
        &&& self.tile_size > 0
        &&& has_layer(self.layers, self.active_layer)
        &&& forall|i: int|
            0 <= i < self.strokes.len() ==> (#[trigger] self.strokes[i]).layer.0 < self.next_layer
                && self.strokes[i].id.0 < self.next_stroke
        &&& forall|i: int, j: int|
            0 <= i < j < self.strokes.len() ==> (#[trigger] self.strokes[i]).id.0 < (
            #[trigger] self.strokes[j]).id.0
        &&& forall|s: int|
            0 <= s < self.segments.len() ==> (#[trigger] self.segments[s]).layer.0
                < self.next_layer
    }

    /// Every stroke holds what was drawn for it, and no two strokes share any of it.
    pub open spec fn strokes_apart(self) -> bool {
        &&& forall|i: int|
            0 <= i < self.strokes.len() ==> self.owns_geometry(#[trigger] self.strokes[i])
        &&& forall|i: int, j: int|
            0 <= i < j < self.strokes.len() ==> drawn_apart(
                #[trigger] self.strokes[i],
                #[trigger] self.strokes[j],
            )
    }

    /// The history can be walked back and forth, identities are in order, strokes hold
    /// their own geometry, and the layers that they lie on are accounted for.
    pub open spec fn coherent(self) -> bool {
        &&& self.consistent_history()
        &&& self.numbers_in_order()
        &&& self.strokes_apart()
        &&& self.layers_accounted()
    }
}

/// Whether two documents hold the same geometry, and strokes that differ in state,
/// revision and visibility alone.
pub open spec fn same_drawing(a: DocumentModel, b: DocumentModel) -> bool {
    &&& a.points == b.points
    &&& a.segments == b.segments
    &&& a.next_stroke == b.next_stroke
    &&& a.strokes.len() == b.strokes.len()
    &&& forall|i: int|
        0 <= i < a.strokes.len() ==> same_ink(#[trigger] a.strokes[i], b.strokes[i])
}

/// Whether two strokes have the same identity, ranges, layer and brush.
pub open spec fn same_ink(a: StrokeModel, b: StrokeModel) -> bool {
    &&& a.id == b.id
    &&& a.first_point == b.first_point
    &&& a.point_count == b.point_count
    &&& a.first_segment == b.first_segment
    &&& a.segment_count == b.segment_count
    &&& a.layer == b.layer
    &&& a.brush == b.brush
}

proof fn lemma_same_drawing(a: DocumentModel, b: DocumentModel)
    requires
        a.numbers_in_order(),
        a.strokes_apart(),
        same_drawing(a, b),
        a.next_layer <= b.next_layer,
        b.tile_size > 0,
        has_layer(b.layers, b.active_layer),
    ensures
        b.numbers_in_order(),
        b.strokes_apart(),
{
    assert forall|i: int| 0 <= i < b.strokes.len() implies (#[trigger] b.strokes[i]).layer.0
        < b.next_layer && b.strokes[i].id.0 < b.next_stroke by {
        assert(same_ink(a.strokes[i], b.strokes[i]));
    }
    assert forall|i: int, j: int| 0 <= i < j < b.strokes.len() implies (
    #[trigger] b.strokes[i]).id.0 < (#[trigger] b.strokes[j]).id.0 && drawn_apart(
        b.strokes[i],
        b.strokes[j],
    ) by {
        assert(same_ink(a.strokes[i], b.strokes[i]));
        assert(same_ink(a.strokes[j], b.strokes[j]));
        assert(drawn_apart(a.strokes[i], a.strokes[j]));
    }
    assert forall|i: int| 0 <= i < b.strokes.len() implies b.owns_geometry(
        #[trigger] b.strokes[i],
    ) by {
        assert(same_ink(a.strokes[i], b.strokes[i]));
        assert(a.owns_geometry(a.strokes[i]));
        assert forall|s: int|
            b.strokes[i].first_segment <= s < b.strokes[i].first_segment
                + b.strokes[i].segment_count implies #[trigger] b.segments[s] == own_segment(
            b.strokes[i],
            s - b.strokes[i].first_segment,
        ) by {
            assert(a.segments[s] == own_segment(
                a.strokes[i],
                s - a.strokes[i].first_segment,
            ));
        }
    }
}

/// Derived state may change as it likes: a document stays coherent.
pub proof fn lemma_derived_coherent(a: DocumentModel, b: DocumentModel)
    requires
        a.coherent(),
        same_drawing(a, b),
        forall|i: int|
            0 <= i < a.strokes.len() ==> (#[trigger] b.strokes[i]).visible
                == a.strokes[i].visible && b.strokes[i].complete == a.strokes[i].complete,
        b.layers == a.layers,
        b.canvas_size == a.canvas_size,
        b.undo == a.undo,
        b.redo == a.redo,
        b.next_layer == a.next_layer,
        b.tile_size > 0,
        has_layer(b.layers, b.active_layer),
    ensures
        b.coherent(),
{
    assert(b.picture().shown =~= a.picture().shown);
    assert(b.picture() == a.picture());
    lemma_same_drawing(a, b);
    lemma_drawing_accounted(a, b);
}

/// A new document is coherent.
pub proof fn lemma_initial_coherent()
    ensures
        DocumentModel::initial().coherent(),
{
    let document = DocumentModel::initial();
    lemma_layer_found(document.layers, 0);
    assert forall|id: LayerId| #[trigger] has_layer(document.layers, id) implies id.0 < 1 by {
        lemma_layer_position(document.layers, id);
    }
    assert(document.layers_added_from(1));
}

/// Replaying a command leaves an active layer that exists.
proof fn lemma_active_layer_replayed(
    document: DocumentModel,
    command: CommandModel,
    forward: bool,
)
    requires
        has_layer(document.layers, document.active_layer),
        document.replayed(command, forward).layers.len() > 0,
    ensures
        ({
            let after = document.replayed(command, forward);
            has_layer(after.layers, after.active_layer)
        }),
{
    let after = document.replayed(command, forward);
    let active = document.active_layer;
    match command {
        CommandModel::AddLayer { layer, index } => {
            if forward {
                lemma_found_after_inserting(document.layers, index, layer, layer.id);
            } else if active != layer.id {
                lemma_found_after_removing(document.layers, layer.id, active);
            } else {
                lemma_layer_found(after.layers, after.layers.len() - 1);
            }
        },
        CommandModel::LayerVisibility { layer, before, after: later } => {
            lemma_found_after_replacing(
                document.layers,
                layer,
                setting_visible(if forward { later } else { before }),
                active,
            );
        },
        CommandModel::LayerOpacity { layer, before, after: later } => {
            lemma_found_after_replacing(
                document.layers,
                layer,
                setting_opacity(if forward { later } else { before }),
                active,
            );
        },
        CommandModel::LayerRename { layer, before, after: later } => {
            lemma_found_after_replacing(
                document.layers,
                layer,
                setting_name(if forward { later } else { before }),
                active,
            );
        },
        CommandModel::LayerMove { layer, before, after: later } => {
            lemma_found_after_moving(
                document.layers,
                layer,
                if forward { later } else { before },
                active,
            );
        },
        _ => {},
    }
}

/// Undo keeps a document coherent.
pub proof fn lemma_undone_coherent(document: DocumentModel)
    requires
        document.well_formed(),
        document.coherent(),
        document.undo.len() > 0,
    ensures
        document.undone().coherent(),
{
    law_redo_restores_what_undo_took_back(document);
    let command = document.undo.last();
    let popped = DocumentModel { undo: document.undo.drop_last(), ..document }.bumped();
    let after = document.undone();
    assert(after.picture().orderly(after.next_layer));
    lemma_active_layer_replayed(popped, command, false);
    assert(same_drawing(document, after));
    lemma_same_drawing(document, after);
    lemma_undone_accounted(document);
}

/// Redo keeps a document coherent.
pub proof fn lemma_redone_coherent(document: DocumentModel)
    requires
        document.well_formed(),
        document.coherent(),
        document.redo.len() > 0,
    ensures
        document.redone().coherent(),
{
    law_undo_restores_what_redo_brought_back(document);
    let command = document.redo.last();
    let popped = DocumentModel { redo: document.redo.drop_last(), ..document }.bumped();
    let after = document.redone();
    assert(after.picture().orderly(after.next_layer));
    lemma_active_layer_replayed(popped, command, true);
    assert(same_drawing(document, after));
    lemma_same_drawing(document, after);
    lemma_redone_accounted(document);
}

/// Clearing keeps a document coherent.
pub proof fn lemma_cleared_coherent(document: DocumentModel)
    requires
        document.well_formed(),
        document.coherent(),
        document.strokes.len() <= usize::MAX,
    ensures
        document.cleared().coherent(),
{
    law_clear_can_be_undone(document);
    let after = document.cleared();
    assert(same_drawing(document, after));
    lemma_same_drawing(document, after);
    if after.undo == document.undo && after.redo == document.redo {
        lemma_drawing_accounted(document, after);
    } else {
        lemma_recorded_accounted(document, after, after.undo.last());
    }
}

/// Resizing keeps a document coherent.
pub proof fn lemma_resized_coherent(document: DocumentModel, size: CanvasSize)
    requires
        document.well_formed(),
        document.coherent(),
        size.width > 0,
        size.height > 0,
    ensures
        document.resized(size).coherent(),
{
    law_resize_can_be_undone(document, size);
    let after = document.resized(size);
    assert(same_drawing(document, after));
    lemma_same_drawing(document, after);
    lemma_recorded_accounted(document, after, after.undo.last());
}

/// Editing a layer keeps a document coherent.
pub proof fn lemma_layer_edited_coherent(
    document: DocumentModel,
    id: LayerId,
    visible: bool,
    opacity: Scalar,
    name: Seq<char>,
)
    requires
        document.well_formed(),
        document.coherent(),
        has_layer(document.layers, id),
        !opacity.below(Scalar::zero()),
        !Scalar::one().below(opacity),
    ensures
        ({
            let layer = document.layers[layer_position(document.layers, id)];
            &&& document.layer_edited(
                id,
                setting_visible(visible),
                CommandModel::LayerVisibility { layer: id, before: layer.visible, after: visible },
            ).coherent()
            &&& document.layer_edited(
                id,
                setting_opacity(opacity),
                CommandModel::LayerOpacity { layer: id, before: layer.opacity, after: opacity },
            ).coherent()
            &&& document.layer_edited(
                id,
                setting_name(name),
                CommandModel::LayerRename { layer: id, before: layer.name, after: name },
            ).coherent()
        }),
{
    law_layer_edit_can_be_undone(document, id, visible, opacity, name);
    let layer = document.layers[layer_position(document.layers, id)];
    let shown = document.layer_edited(
        id,
        setting_visible(visible),
        CommandModel::LayerVisibility { layer: id, before: layer.visible, after: visible },
    );
    let faded = document.layer_edited(
        id,
        setting_opacity(opacity),
        CommandModel::LayerOpacity { layer: id, before: layer.opacity, after: opacity },
    );
    let named = document.layer_edited(
        id,
        setting_name(name),
        CommandModel::LayerRename { layer: id, before: layer.name, after: name },
    );
    assert forall|wanted: LayerId|
        (#[trigger] has_layer(shown.layers, wanted)) == has_layer(document.layers, wanted) by {
        lemma_found_after_replacing(document.layers, id, setting_visible(visible), wanted);
    }
    assert forall|wanted: LayerId|
        (#[trigger] has_layer(faded.layers, wanted)) == has_layer(document.layers, wanted) by {
        lemma_found_after_replacing(document.layers, id, setting_opacity(opacity), wanted);
    }
    assert forall|wanted: LayerId|
        (#[trigger] has_layer(named.layers, wanted)) == has_layer(document.layers, wanted) by {
        lemma_found_after_replacing(document.layers, id, setting_name(name), wanted);
    }
    assert(has_layer(shown.layers, document.active_layer));
    assert(has_layer(faded.layers, document.active_layer));
    assert(has_layer(named.layers, document.active_layer));
    assert(same_drawing(document, shown));
    assert(same_drawing(document, faded));
    assert(same_drawing(document, named));
    lemma_same_drawing(document, shown);
    lemma_same_drawing(document, faded);
    lemma_same_drawing(document, named);
    lemma_recorded_accounted(document, shown, shown.undo.last());
    lemma_recorded_accounted(document, faded, faded.undo.last());
    lemma_recorded_accounted(document, named, named.undo.last());
}

/// Moving a layer keeps a document coherent.
pub proof fn lemma_layer_moved_coherent(document: DocumentModel, id: LayerId, after: usize)
    requires
        document.well_formed(),
        document.coherent(),
        document.layers.len() <= usize::MAX,
        has_layer(document.layers, id),
        after < document.layers.len(),
    ensures
        document.layer_moved(id, after).coherent(),
{
    law_layer_move_can_be_undone(document, id, after);
    let moved = document.layer_moved(id, after);
    assert forall|wanted: LayerId|
        (#[trigger] has_layer(moved.layers, wanted)) == has_layer(document.layers, wanted) by {
        lemma_found_after_moving(document.layers, id, after, wanted);
    }
    assert(has_layer(moved.layers, document.active_layer));
    assert(same_drawing(document, moved));
    lemma_same_drawing(document, moved);
    lemma_recorded_accounted(document, moved, moved.undo.last());
}

/// A new layer keeps a document coherent, as long as its identity can be counted past.
pub proof fn lemma_layer_added_coherent(document: DocumentModel, name: Seq<char>)
    requires
        document.well_formed(),
        document.coherent(),
        document.layers.len() <= usize::MAX,
        document.next_layer < u32::MAX,
    ensures
        document.layer_added(name).coherent(),
{
    let id = LayerId(document.next_layer);
    lemma_layer_position(document.layers, id);
    if has_layer(document.layers, id) {
        let i = layer_position(document.layers, id);
        assert(layer_in_order(document.picture().layers[i], document.next_layer));
    }
    law_new_layer_can_be_undone(document, name);
    let after = document.layer_added(name);
    assert(after.layers[document.layers.len() as int].id == id);
    lemma_layer_found(after.layers, document.layers.len() as int);
    assert(same_drawing(document, after));
    lemma_same_drawing(document, after);
    lemma_added_accounted(document, name);
}

/// The layer of a known identity is below the counter.
proof fn lemma_active_layer_numbered(document: DocumentModel)
    requires
        document.coherent(),
    ensures
        document.active_layer.0 < document.next_layer,
{
    lemma_layer_position(document.layers, document.active_layer);
    let i = layer_position(document.layers, document.active_layer);
    assert(layer_in_order(document.picture().layers[i], document.next_layer));
}

/// Beginning a stroke keeps a document coherent, as long as its identity can be counted
/// past.
pub proof fn lemma_begun_coherent(
    document: DocumentModel,
    point: StrokePoint,
    reach: Bounds,
    profile: BrushProfile,
)
    requires
        document.well_formed(),
        document.coherent(),
        document.points.len() <= u32::MAX,
        document.segments.len() <= u32::MAX,
        document.next_stroke < u64::MAX,
    ensures
        document.begun(point, reach, profile).coherent(),
{
    let after = document.begun(point, reach, profile);
    let last = document.strokes.len() as int;
    lemma_active_layer_numbered(document);
    assert(after.picture().shown =~= document.picture().shown);
    assert(after.picture() == document.picture());
    assert forall|s: int| 0 <= s < after.segments.len() implies (
    #[trigger] after.segments[s]).layer.0 < after.next_layer by {
        if s < document.segments.len() {
            assert(after.segments[s] == document.segments[s]);
        }
    }
    assert forall|i: int| 0 <= i < after.strokes.len() implies after.owns_geometry(
        #[trigger] after.strokes[i],
    ) by {
        if i < last {
            assert(document.stroke_in_range(document.strokes[i]));
            assert(document.owns_geometry(document.strokes[i]));
            lemma_prefix_owned(document, after, document.strokes[i]);
        }
    }
    assert forall|i: int, j: int| 0 <= i < j < after.strokes.len() implies drawn_apart(
        #[trigger] after.strokes[i],
        #[trigger] after.strokes[j],
    ) by {
        assert(document.stroke_in_range(document.strokes[i]));
        if j < last {
            assert(drawn_apart(document.strokes[i], document.strokes[j]));
        }
    }
    assert forall|i: int| 0 <= i < after.strokes.len() implies (
    #[trigger] after.strokes[i]).layer.0 < after.next_layer && after.strokes[i].id.0
        < after.next_stroke by {
        if i < last {
            assert(after.strokes[i] == document.strokes[i]);
        }
    }
    assert forall|i: int, j: int| 0 <= i < j < after.strokes.len() implies (
    #[trigger] after.strokes[i]).id.0 < (#[trigger] after.strokes[j]).id.0 by {
        assert(after.strokes[i] == document.strokes[i]);
        if j < last {
            assert(document.strokes[i].id.0 < document.strokes[j].id.0);
        }
    }
    assert(after.layers_accounted()) by {
        lemma_accounted_kept(document, after);
    }
}

/// A stroke keeps its segments when others are appended.
proof fn lemma_prefix_owned(a: DocumentModel, b: DocumentModel, stroke: StrokeModel)
    requires
        a.stroke_in_range(stroke),
        a.owns_geometry(stroke),
        a.segments.len() <= b.segments.len(),
        forall|s: int| 0 <= s < a.segments.len() ==> #[trigger] b.segments[s] == a.segments[s],
    ensures
        b.owns_geometry(stroke),
{
    assert forall|s: int|
        stroke.first_segment <= s < stroke.first_segment
            + stroke.segment_count implies #[trigger] b.segments[s] == own_segment(
        stroke,
        s - stroke.first_segment,
    ) by {
        assert(b.segments[s] == a.segments[s]);
    }
}

/// A contact that owns its geometry and shares none of it may grow: a document stays
/// coherent.
proof fn lemma_grown_coherent(a: DocumentModel, b: DocumentModel, index: int)
    requires
        a.geometry_in_range(),
        a.coherent(),
        b == (DocumentModel {
            points: b.points,
            segments: b.segments,
            strokes: b.strokes,
            active: b.active,
            ..a
        }),
        0 <= index < a.strokes.len(),
        !a.strokes[index].complete,
        b.strokes == a.strokes.update(index, b.strokes[index]),
        !b.strokes[index].complete,
        b.strokes[index].id == a.strokes[index].id,
        b.strokes[index].layer == a.strokes[index].layer,
        b.owns_geometry(b.strokes[index]),
        forall|j: int|
            0 <= j < a.strokes.len() && j != index ==> drawn_apart(
                b.strokes[index],
                #[trigger] a.strokes[j],
            ),
        a.segments.len() <= b.segments.len(),
        forall|s: int| 0 <= s < a.segments.len() ==> #[trigger] b.segments[s] == a.segments[s],
        forall|s: int|
            a.segments.len() <= s < b.segments.len() ==> (#[trigger] b.segments[s]).layer
                == a.strokes[index].layer,
    ensures
        b.coherent(),
{
    assert(b.picture().shown =~= a.picture().shown);
    assert(b.picture() == a.picture());
    assert(b.consistent_history());
    assert forall|s: int| 0 <= s < b.segments.len() implies (#[trigger] b.segments[s]).layer.0
        < b.next_layer by {
        if s < a.segments.len() {
            assert(b.segments[s] == a.segments[s]);
        }
    }
    assert forall|i: int| 0 <= i < b.strokes.len() implies b.owns_geometry(
        #[trigger] b.strokes[i],
    ) by {
        if i != index {
            assert(a.stroke_in_range(a.strokes[i]));
            assert(a.owns_geometry(a.strokes[i]));
            lemma_prefix_owned(a, b, a.strokes[i]);
        }
    }
    assert forall|i: int, j: int| 0 <= i < j < b.strokes.len() implies drawn_apart(
        #[trigger] b.strokes[i],
        #[trigger] b.strokes[j],
    ) by {
        if i == index {
            assert(drawn_apart(b.strokes[index], a.strokes[j]));
        } else if j == index {
            assert(drawn_apart(b.strokes[index], a.strokes[i]));
        } else {
            assert(drawn_apart(a.strokes[i], a.strokes[j]));
        }
    }
    assert forall|i: int| 0 <= i < b.strokes.len() implies (#[trigger] b.strokes[i]).layer.0
        < b.next_layer && b.strokes[i].id.0 < b.next_stroke by {
        assert(b.strokes[i].layer == a.strokes[i].layer && b.strokes[i].id == a.strokes[i].id);
    }
    assert forall|i: int, j: int| 0 <= i < j < b.strokes.len() implies (
    #[trigger] b.strokes[i]).id.0 < (#[trigger] b.strokes[j]).id.0 by {
        assert(a.strokes[i].id.0 < a.strokes[j].id.0);
    }
    assert(b.layers_accounted()) by {
        lemma_accounted_kept(a, b);
    }
}

/// Extending a stroke keeps a document coherent.
pub proof fn lemma_extended_coherent(
    document: DocumentModel,
    id: StrokeId,
    point: StrokePoint,
    reach: Bounds,
)
    requires
        document.well_formed(),
        document.coherent(),
        document.active.contains_key(id.0),
        document.extended(id, point, reach).well_formed(),
    ensures
        document.extended(id, point, reach).coherent(),
{
    let index = document.active[id.0].metadata_index as int;
    let gathered = document.gathered(id);
    let after = gathered.prolonged(id, point, reach);
    let stroke = document.strokes[index];
    assert(gathered.active[id.0].metadata_index == index);
    assert(after.active.contains_key(id.0) && after.active[id.0].metadata_index == index);
    assert(after.owns_geometry(after.strokes[index]));
    assert(gathered.strokes =~= document.strokes.update(index, gathered.strokes[index]));
    assert(after.strokes =~= document.strokes.update(index, after.strokes[index]));
    assert forall|s: int| 0 <= s < document.segments.len() implies #[trigger] after.segments[s]
        == document.segments[s] by {
        assert(gathered.segments[s] == document.segments[s]);
    }
    assert forall|s: int| document.segments.len() <= s < after.segments.len() implies (
    #[trigger] after.segments[s]).layer == stroke.layer by {
        if s < gathered.segments.len() {
            assert(after.segments[s] == gathered.segments[s]);
        }
    }
    assert forall|j: int| 0 <= j < document.strokes.len() && j != index implies drawn_apart(
        after.strokes[index],
        #[trigger] document.strokes[j],
    ) by {
        assert(after.strokes[j] == document.strokes[j]);
        assert(!after.strokes[index].complete);
        assert(drawn_apart(after.strokes[index], after.strokes[j]));
    }
    lemma_grown_coherent(document, after, index);
}

/// Completing a stroke keeps a document coherent.
pub proof fn lemma_ended_coherent(document: DocumentModel, id: StrokeId, coverage: CoverageModel)
    requires
        document.well_formed(),
        document.coherent(),
        document.active.contains_key(id.0),
    ensures
        document.ended(id, coverage).coherent(),
{
    law_completed_stroke_can_be_undone(document, id, coverage);
    let after = document.ended(id, coverage);
    assert(same_drawing(document, after));
    lemma_same_drawing(document, after);
    lemma_recorded_accounted(document, after, after.undo.last());
}

/// Whether layers, extent, visibility of every stroke, and geometry are the same.
pub open spec fn same_content(a: DocumentModel, b: DocumentModel) -> bool {
    &&& a.layers == b.layers
    &&& a.canvas_size == b.canvas_size
    &&& a.points == b.points
    &&& a.segments == b.segments
    &&& a.strokes.len() == b.strokes.len()
    &&& forall|i: int|
        0 <= i < a.strokes.len() ==> (#[trigger] a.strokes[i]).visible == b.strokes[i].visible
}

proof fn lemma_same_content(a: DocumentModel, b: DocumentModel)
    requires
        a.picture() == b.picture(),
        a.points == b.points,
        a.segments == b.segments,
        a.strokes.len() == b.strokes.len(),
        forall|i: int|
            0 <= i < a.strokes.len() ==> (#[trigger] a.strokes[i]).complete
                == b.strokes[i].complete,
        forall|i: int|
            0 <= i < a.strokes.len() && !(#[trigger] a.strokes[i]).complete
                ==> a.strokes[i].visible == b.strokes[i].visible,
    ensures
        same_content(a, b),
{
    assert(a.picture().layers == b.picture().layers);
    assert forall|i: int| 0 <= i < a.strokes.len() implies (#[trigger] a.strokes[i]).visible
        == b.strokes[i].visible by {
        assert(a.strokes[i].complete == b.strokes[i].complete);
        assert(a.picture().shown.contains(i) == (a.strokes[i].visible && a.strokes[i].complete));
        assert(b.picture().shown.contains(i) == (b.strokes[i].visible && b.strokes[i].complete));
    }
}

/// Undo takes an edit back exactly: clearing, resizing, and editing or moving a layer
/// while no contact draws, followed by undo, restores layers, extent and the visibility
/// of every stroke, leaves geometry alone, leaves that one command to redo, and advances
/// the revision again.
pub proof fn law_undo_takes_an_edit_back(
    document: DocumentModel,
    size: CanvasSize,
    id: LayerId,
    visible: bool,
    opacity: Scalar,
    name: Seq<char>,
    position: usize,
)
    requires
        document.well_formed(),
        document.active.is_empty(),
        document.strokes.len() <= usize::MAX,
        document.layers.len() <= usize::MAX,
    ensures
        ({
            let after = document.cleared();
            document.picture().shown != Set::<int>::empty() ==> taken_back(document, after)
        }),
        taken_back(document, document.resized(size)),
        has_layer(document.layers, id) ==> {
            let layer = document.layers[layer_position(document.layers, id)];
            &&& taken_back(
                document,
                document.layer_edited(
                    id,
                    setting_visible(visible),
                    CommandModel::LayerVisibility {
                        layer: id,
                        before: layer.visible,
                        after: visible,
                    },
                ),
            )
            &&& taken_back(
                document,
                document.layer_edited(
                    id,
                    setting_opacity(opacity),
                    CommandModel::LayerOpacity { layer: id, before: layer.opacity, after: opacity },
                ),
            )
            &&& taken_back(
                document,
                document.layer_edited(
                    id,
                    setting_name(name),
                    CommandModel::LayerRename { layer: id, before: layer.name, after: name },
                ),
            )
            &&& distinct_layers(document.layers) && position < document.layers.len()
                ==> taken_back(document, document.layer_moved(id, position))
        },
{
    assert forall|i: int| 0 <= i < document.strokes.len() implies (
    #[trigger] document.strokes[i]).complete by {
        if !document.strokes[i].complete {
            assert(document.is_contact(i));
        }
    }
    if document.picture().shown != Set::<int>::empty() {
        law_clear_can_be_undone(document);
        lemma_taken_back(document, document.cleared());
    }
    law_resize_can_be_undone(document, size);
    lemma_taken_back(document, document.resized(size));
    if has_layer(document.layers, id) {
        law_layer_edit_can_be_undone(document, id, visible, opacity, name);
        let layer = document.layers[layer_position(document.layers, id)];
        let shown = CommandModel::LayerVisibility {
            layer: id,
            before: layer.visible,
            after: visible,
        };
        let faded = CommandModel::LayerOpacity {
            layer: id,
            before: layer.opacity,
            after: opacity,
        };
        let named = CommandModel::LayerRename { layer: id, before: layer.name, after: name };
        lemma_taken_back(document, document.layer_edited(id, setting_visible(visible), shown));
        lemma_taken_back(document, document.layer_edited(id, setting_opacity(opacity), faded));
        lemma_taken_back(document, document.layer_edited(id, setting_name(name), named));
        if distinct_layers(document.layers) && position < document.layers.len() {
            law_layer_move_can_be_undone(document, id, position);
            lemma_taken_back(document, document.layer_moved(id, position));
        }
    }
}

/// Whether undo takes an edit back.
pub open spec fn taken_back(document: DocumentModel, after: DocumentModel) -> bool {
    &&& after.undo.len() == document.undo.len() + 1
    &&& same_content(document, after.undone())
    &&& after.undone().redo.len() == 1
    &&& after.undone().revision == after.next_revision()
}

proof fn lemma_taken_back(document: DocumentModel, after: DocumentModel)
    requires
        after.undo.len() == document.undo.len() + 1,
        after.redo.len() == 0,
        after.points == document.points,
        after.segments == document.segments,
        after.strokes.len() == document.strokes.len(),
        after.undone().picture() == document.picture(),
        forall|i: int|
            0 <= i < document.strokes.len() ==> (#[trigger] document.strokes[i]).complete
                && after.strokes[i].complete,
    ensures
        taken_back(document, after),
{
    let undone = after.undone();
    assert(undone.points == document.points && undone.segments == document.segments);
    assert(undone.strokes.len() == document.strokes.len());
    assert forall|i: int| 0 <= i < document.strokes.len() implies (
    #[trigger] document.strokes[i]).complete == undone.strokes[i].complete by {
        assert(after.strokes[i].complete);
    }
    lemma_same_content(document, undone);
}

/// Redo repeats exactly what undo took back: undo followed by redo restores layers,
/// extent, geometry, the visibility of every stroke and both lists of commands, and the
/// revision moves on twice.
pub proof fn law_redo_repeats_what_undo_took_back(document: DocumentModel)
    requires
        document.well_formed(),
        document.coherent(),
        document.undo.len() > 0,
    ensures
        document.undone().redo.len() > 0,
        same_content(document, document.undone().redone()),
        document.undone().redone().undo == document.undo,
        document.undone().redone().redo == document.redo,
        document.undone().redone().revision == document.undone().next_revision(),
        document.undone().revision == document.next_revision(),
        document.undone().coherent(),
{
    law_redo_restores_what_undo_took_back(document);
    lemma_undone_coherent(document);
    let undone = document.undone();
    let redone = undone.redone();
    let command = document.undo.last();
    assert(document.command_in_range(document.undo[document.undo.len() - 1]));
    assert(redone.strokes.len() == document.strokes.len());
    assert forall|i: int| 0 <= i < document.strokes.len() implies (
    #[trigger] document.strokes[i]).complete == redone.strokes[i].complete && (
    document.strokes[i].complete || document.strokes[i].visible == redone.strokes[i].visible) by {
        lemma_untouched(document, command, i);
    }
    lemma_same_content(document, redone);
}

/// A command on completed strokes leaves the visibility of the others alone.
proof fn lemma_untouched(document: DocumentModel, command: CommandModel, i: int)
    requires
        document.command_in_range(command),
        document.undo.len() > 0,
        document.undo.last() == command,
        0 <= i < document.strokes.len(),
    ensures
        document.undone().redone().strokes[i].complete == document.strokes[i].complete,
        !document.strokes[i].complete ==> document.undone().redone().strokes[i].visible
            == document.strokes[i].visible,
{
    let undone = document.undone();
    assert(undone.redo.last() == command);
    match command {
        CommandModel::AddStroke(index) => {
            if seq![index].contains(i as usize) {
                assert(i as usize == index);
            }
        },
        CommandModel::Clear(indices) => {
            if indices.contains(i as usize) && i <= usize::MAX {
                let k = choose|k: int| 0 <= k < indices.len() && indices[k] == i as usize;
                assert(document.strokes[indices[k] as int].complete);
            }
        },
        _ => {},
    }
}

} // verus!
