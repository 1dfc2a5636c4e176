//! What undo and redo promise of a document.
use crate::document::lemma_shown_positions;
use crate::effects::EffectGraphModel;
use crate::geometry::{Bounds, CanvasSize, LayerId};
use crate::layers::{
    distinct_layers, has_layer, layer_position, layer_replaced, layers_inserted, layers_moved,
    layers_without, lemma_layer_edit_reversible, lemma_layer_on_top, lemma_layer_on_top_distinct,
    lemma_layer_position, lemma_layer_replaced, lemma_layer_taken_off, lemma_moved, setting_name,
    setting_opacity, setting_visible,
};
use crate::scalar::Scalar;
use crate::state::{listed_in, CoverageModel, DocumentModel};
use crate::strokes::{BrushProfile, CommandModel, LayerModel, StrokeId, StrokePoint};
use vstd::prelude::*;

verus! {

/// The part of a document that history commands change.
#[verifier::ext_equal]
pub struct Picture {
    /// Positions of the strokes that replay shows.
    pub shown: Set<int>,
    /// Layers from bottom to top.
    pub layers: Seq<LayerModel>,
    /// Logical canvas extent.
    pub canvas_size: CanvasSize,
}

/// The positions of a list, as a set.
pub open spec fn position_set(indices: Seq<usize>) -> Set<int> {
    Set::new(|i: int| listed_in(indices)(i))
}

/// Whether a layer's identity is below `next_layer` and its opacity not out of range.
pub open spec fn layer_in_order(layer: LayerModel, next_layer: u32) -> bool {
    &&& layer.id.0 < next_layer
    &&& !layer.opacity.below(Scalar::zero())
    &&& !Scalar::one().below(layer.opacity)
}

impl Picture {
    /// The picture after a command took effect (`forward`) or was taken back.
    pub open spec fn stepped(self, command: CommandModel, forward: bool) -> Picture {
        match command {
            CommandModel::AddStroke(index) => Picture {
                shown: if forward {
                    self.shown.insert(index as int)
                } else {
                    self.shown.remove(index as int)
                },
                ..self
            },
            CommandModel::Clear(indices) => Picture {
                shown: if forward {
                    self.shown.difference(position_set(indices))
                } else {
                    self.shown.union(position_set(indices))
                },
                ..self
            },
            CommandModel::Resize { before, after } => Picture {
                canvas_size: if forward { after } else { before },
                ..self
            },
            CommandModel::AddLayer { layer, index } => Picture {
                layers: if forward {
                    layers_inserted(self.layers, index, layer)
                } else {
                    layers_without(self.layers, layer.id)
                },
                ..self
            },
            CommandModel::LayerVisibility { layer, before, after } => Picture {
                layers: layer_replaced(
                    self.layers,
                    layer,
                    setting_visible(if forward { after } else { before }),
                ),
                ..self
            },
            CommandModel::LayerOpacity { layer, before, after } => Picture {
                layers: layer_replaced(
                    self.layers,
                    layer,
                    setting_opacity(if forward { after } else { before }),
                ),
                ..self
            },
            CommandModel::LayerMove { layer, before, after } => Picture {
                layers: layers_moved(self.layers, layer, if forward { after } else { before }),
                ..self
            },
            CommandModel::LayerRename { layer, before, after } => Picture {
                layers: layer_replaced(
                    self.layers,
                    layer,
                    setting_name(if forward { after } else { before }),
                ),
                ..self
            },
        }
    }

    /// Whether taking the command back and letting it take effect again leads
    /// back here.
    pub open spec fn reversible(self, command: CommandModel, forward: bool) -> bool {
        self.stepped(command, forward).stepped(command, !forward) == self
    }

    /// Whether the canvas has an extent and there are layers, with distinct identities
    /// below `next_layer` and none of them more than opaque or less than transparent.
    pub open spec fn orderly(self, next_layer: u32) -> bool {
        &&& self.canvas_size.width > 0
        &&& self.canvas_size.height > 0
        &&& self.layers.len() > 0
        &&& distinct_layers(self.layers)
        &&& forall|i: int|
            0 <= i < self.layers.len() ==> layer_in_order(#[trigger] self.layers[i], next_layer)
    }

    /// Whether the listed commands, the latest first, can all be taken back
    /// (or all take effect again, `forward`) reversibly, through orderly pictures.
    pub open spec fn retraceable(
        self,
        commands: Seq<CommandModel>,
        forward: bool,
        next_layer: u32,
    ) -> bool
        decreases commands.len(),
    {
        commands.len() == 0 || {
            let next = self.stepped(commands.last(), forward);
            &&& self.reversible(commands.last(), forward)
            &&& next.orderly(next_layer)
            &&& next.retraceable(commands.drop_last(), forward, next_layer)
        }
    }
}

impl DocumentModel {
    /// The part of the document that history commands change.
    pub open spec fn picture(self) -> Picture {
        Picture {
            shown: Set::new(
                |i: int|
                    0 <= i < self.strokes.len() && self.strokes[i].visible
                        && self.strokes[i].complete,
            ),
            layers: self.layers,
            canvas_size: self.canvas_size,
        }
    }

    /// Whether the picture is orderly and all of the history can be walked back and
    /// forth reversibly.
    pub open spec fn consistent_history(self) -> bool {
        &&& self.picture().orderly(self.next_layer)
        &&& self.picture().retraceable(self.undo, false, self.next_layer)
        &&& self.picture().retraceable(self.redo, true, self.next_layer)
    }
}

/// A history stays retraceable when more layer identities are in use.
pub proof fn lemma_retraceable_further(
    picture: Picture,
    commands: Seq<CommandModel>,
    forward: bool,
    near: u32,
    far: u32,
)
    requires
        near <= far,
    ensures
        picture.orderly(near) ==> picture.orderly(far),
        picture.retraceable(commands, forward, near) ==> picture.retraceable(
            commands,
            forward,
            far,
        ),
    decreases commands.len(),
{
    if commands.len() > 0 {
        lemma_retraceable_further(
            picture.stepped(commands.last(), forward),
            commands.drop_last(),
            forward,
            near,
            far,
        );
    }
}

/// Replaying a command on a document changes its picture as the command says,
/// and nothing else that history depends on.
proof fn lemma_replayed_picture(document: DocumentModel, command: CommandModel, forward: bool)
    requires
        document.command_in_range(command),
    ensures
        document.replayed(command, forward).picture() == document.picture().stepped(
            command,
            forward,
        ),
        document.replayed(command, forward).undo == document.undo,
        document.replayed(command, forward).redo == document.redo,
        document.replayed(command, forward).strokes.len() == document.strokes.len(),
        forall|i: int|
            0 <= i < document.strokes.len() ==> (#[trigger] document.replayed(
                command,
                forward,
            ).strokes[i]).complete == document.strokes[i].complete,
        forall|i: int|
            0 <= i < document.strokes.len() && !document.strokes[i].complete
                ==> #[trigger] document.replayed(command, forward).strokes[i]
                == document.strokes[i],
        document.replayed(command, forward).next_layer == document.next_layer,
        document.replayed(command, forward).points == document.points,
        document.replayed(command, forward).segments == document.segments,
{
    let after = document.replayed(command, forward);
    assert forall|i: int|
        0 <= i < document.strokes.len()
            && !document.strokes[i].complete implies #[trigger] after.strokes[i]
        == document.strokes[i] by {
        match command {
            CommandModel::AddStroke(index) => {
                if listed_in(seq![index])(i) {
                    assert(i == index);
                }
            },
            CommandModel::Clear(indices) => {
                if listed_in(indices)(i) {
                    let k = choose|k: int| 0 <= k < indices.len() && indices[k] == i as usize;
                    assert(document.strokes[indices[k] as int].complete);
                }
            },
            _ => {},
        }
    }
    let target = document.picture().stepped(command, forward);
    match command {
        CommandModel::AddStroke(index) => {
            assert forall|i: int| after.picture().shown.contains(i) <==> target.shown.contains(
                i,
            ) by {
                assert(listed_in(seq![index])(i) <==> i == index) by {
                    if i == index {
                        assert(seq![index][0] == i as usize);
                    }
                }
            }
            assert(after.picture().shown =~= target.shown);
        },
        CommandModel::Clear(indices) => {
            assert forall|i: int| after.picture().shown.contains(i) <==> target.shown.contains(
                i,
            ) by {
                if listed_in(indices)(i) {
                    let k = choose|k: int| 0 <= k < indices.len() && indices[k] == i as usize;
                    assert(indices[k] < document.strokes.len());
                }
            }
            assert(after.picture().shown =~= target.shown);
        },
        CommandModel::Resize { before, after: larger } => {
            assert(after.picture().shown =~= target.shown);
        },
        CommandModel::AddLayer { layer, index } => {
            assert(after.picture().shown =~= target.shown);
        },
        _ => {
            assert(after.picture().shown =~= target.shown);
        },
    }
}

/// Undoing the latest command changes the picture as taking it back says; then
/// redo leads back to the same picture, and the history stays consistent.
pub proof fn law_redo_restores_what_undo_took_back(document: DocumentModel)
    requires
        document.well_formed(),
        document.consistent_history(),
        document.undo.len() > 0,
    ensures
        document.undone().consistent_history(),
        document.undone().redo.len() > 0,
        document.undone().redone().picture() == document.picture(),
        document.undone().redone().undo == document.undo,
        document.undone().redone().redo == document.redo,
{
    let command = document.undo.last();
    lemma_undone(document);
    let undone = document.undone();
    assert(undone.redo.last() == command);
    assert(undone.redo.drop_last() =~= document.redo);
    lemma_command_survives(document, undone, command);
    let popped = DocumentModel { redo: undone.redo.drop_last(), ..undone }.bumped();
    assert(popped.picture() =~= undone.picture());
    lemma_replayed_picture(undone, command, true);
    lemma_replay_ignores_history(undone, popped, command, true);
    assert(undone.redone().undo =~= document.undo) by {
        assert(document.undo =~= document.undo.drop_last().push(command));
    }
}

/// Redoing the latest undone command and undoing it again leads back to the
/// same picture, and the history stays consistent.
pub proof fn law_undo_restores_what_redo_brought_back(document: DocumentModel)
    requires
        document.well_formed(),
        document.consistent_history(),
        document.redo.len() > 0,
    ensures
        document.redone().consistent_history(),
        document.redone().undo.len() > 0,
        document.redone().undone().picture() == document.picture(),
        document.redone().undone().undo == document.undo,
        document.redone().undone().redo == document.redo,
{
    let command = document.redo.last();
    lemma_redone(document);
    let redone = document.redone();
    assert(redone.undo.last() == command);
    assert(redone.undo.drop_last() =~= document.undo);
    lemma_command_survives(document, redone, command);
    let popped = DocumentModel { undo: redone.undo.drop_last(), ..redone }.bumped();
    assert(popped.picture() =~= redone.picture());
    lemma_replayed_picture(redone, command, false);
    lemma_replay_ignores_history(redone, popped, command, false);
    assert(redone.undone().redo =~= document.redo) by {
        assert(document.redo =~= document.redo.drop_last().push(command));
    }
}

/// What undoing the latest command does to picture and history.
proof fn lemma_undone(document: DocumentModel)
    requires
        document.history_in_range(),
        document.undo.len() > 0,
    ensures
        document.undone().picture() == document.picture().stepped(document.undo.last(), false),
        document.undone().undo == document.undo.drop_last(),
        document.undone().redo == document.redo.push(document.undo.last()),
        document.consistent_history() ==> document.undone().consistent_history(),
        document.undone().next_layer == document.next_layer,
        document.undone().points == document.points,
        document.undone().segments == document.segments,
        document.undone().revision == document.next_revision(),
        forall|i: int|
            0 <= i < document.strokes.len() && !document.strokes[i].complete
                ==> #[trigger] document.undone().strokes[i] == document.strokes[i],
        document.undone().strokes.len() == document.strokes.len(),
        forall|i: int|
            0 <= i < document.strokes.len() ==> (#[trigger] document.undone().strokes[i]).complete
                == document.strokes[i].complete,
{
    let command = document.undo.last();
    assert(document.command_in_range(document.undo[document.undo.len() - 1]));
    let popped = DocumentModel { undo: document.undo.drop_last(), ..document }.bumped();
    assert(popped.picture() =~= document.picture());
    assert(popped.command_in_range(command));
    lemma_replayed_picture(popped, command, false);
    let undone = document.undone();
    assert(undone.picture() =~= popped.replayed(command, false).picture());
    assert(undone.redo.last() == command);
    assert(undone.redo.drop_last() =~= document.redo);
    if document.consistent_history() {
        assert(undone.picture().retraceable(undone.redo, true, undone.next_layer));
    }
}

/// What redoing the latest undone command does to picture and history.
proof fn lemma_redone(document: DocumentModel)
    requires
        document.history_in_range(),
        document.redo.len() > 0,
    ensures
        document.redone().picture() == document.picture().stepped(document.redo.last(), true),
        document.redone().redo == document.redo.drop_last(),
        document.redone().undo == document.undo.push(document.redo.last()),
        document.consistent_history() ==> document.redone().consistent_history(),
        document.redone().next_layer == document.next_layer,
        document.redone().points == document.points,
        document.redone().segments == document.segments,
        document.redone().revision == document.next_revision(),
        forall|i: int|
            0 <= i < document.strokes.len() && !document.strokes[i].complete
                ==> #[trigger] document.redone().strokes[i] == document.strokes[i],
        document.redone().strokes.len() == document.strokes.len(),
        forall|i: int|
            0 <= i < document.strokes.len() ==> (#[trigger] document.redone().strokes[i]).complete
                == document.strokes[i].complete,
{
    let command = document.redo.last();
    assert(document.command_in_range(document.redo[document.redo.len() - 1]));
    let popped = DocumentModel { redo: document.redo.drop_last(), ..document }.bumped();
    assert(popped.picture() =~= document.picture());
    assert(popped.command_in_range(command));
    lemma_replayed_picture(popped, command, true);
    let redone = document.redone();
    assert(redone.picture() =~= popped.replayed(command, true).picture());
    assert(redone.undo.last() == command);
    assert(redone.undo.drop_last() =~= document.undo);
    if document.consistent_history() {
        assert(redone.picture().retraceable(redone.undo, false, redone.next_layer));
    }
}

/// How a replayed command changes picture and history does not depend on the
/// history or the revision.
proof fn lemma_replay_ignores_history(
    a: DocumentModel,
    b: DocumentModel,
    command: CommandModel,
    forward: bool,
)
    requires
        a.strokes == b.strokes,
        a.layers == b.layers,
        a.canvas_size == b.canvas_size,
    ensures
        a.replayed(command, forward).picture() == b.replayed(command, forward).picture(),
        b.replayed(command, forward).undo == b.undo,
        b.replayed(command, forward).redo == b.redo,
{
    let x = a.replayed(command, forward);
    let y = b.replayed(command, forward);
    assert(x.picture().shown =~= y.picture().shown) by {
        assert forall|i: int| x.picture().shown.contains(i) <==> y.picture().shown.contains(i) by {
            match command {
                CommandModel::AddStroke(index) => {},
                CommandModel::Clear(indices) => {},
                _ => {},
            }
        }
    }
}

/// Strokes named by a command stay completed strokes.
proof fn lemma_command_survives(a: DocumentModel, b: DocumentModel, command: CommandModel)
    requires
        a.command_in_range(command),
        a.strokes.len() <= b.strokes.len(),
        forall|i: int|
            0 <= i < a.strokes.len() && (#[trigger] a.strokes[i]).complete
                ==> b.strokes[i].complete,
    ensures
        b.command_in_range(command),
{
    match command {
        CommandModel::AddStroke(index) => {
            assert(a.strokes[index as int].complete);
        },
        CommandModel::Clear(indices) => {
            assert forall|k: int| 0 <= k < indices.len() implies (#[trigger] indices[k])
                < b.strokes.len() && b.strokes[indices[k] as int].complete by {
                assert(a.strokes[indices[k] as int].complete);
            }
        },
        _ => {},
    }
}

/// A recorded edit whose picture its command produces reversibly is the next one that
/// undo takes back.
proof fn lemma_latest_undone(document: DocumentModel, after: DocumentModel, command: CommandModel)
    requires
        after.history_in_range(),
        after.undo == document.undo.push(command),
        after.picture() == document.picture().stepped(command, true),
        document.picture().reversible(command, true),
    ensures
        after.undone().picture() == document.picture(),
        after.undone().undo == document.undo,
{
    assert(after.undo.last() == command);
    assert(after.undo.drop_last() =~= document.undo);
    lemma_undone(after);
}

/// A recorded edit whose picture its command produces reversibly is the next one that
/// undo takes back, and keeps a consistent history consistent where the new picture is
/// orderly.
proof fn lemma_edit_undone(document: DocumentModel, after: DocumentModel, command: CommandModel)
    requires
        after.history_in_range(),
        document.next_layer <= after.next_layer,
        after.undo == document.undo.push(command),
        after.redo.len() == 0,
        after.picture() == document.picture().stepped(command, true),
        document.picture().reversible(command, true),
    ensures
        document.consistent_history() && after.picture().orderly(after.next_layer)
            ==> after.consistent_history(),
        after.undone().picture() == document.picture(),
        after.undone().undo == document.undo,
{
    assert(after.undo.last() == command);
    assert(after.undo.drop_last() =~= document.undo);
    if document.consistent_history() && after.picture().orderly(after.next_layer) {
        lemma_retraceable_further(
            document.picture(),
            document.undo,
            false,
            document.next_layer,
            after.next_layer,
        );
    }
    lemma_latest_undone(document, after, command);
}

/// Completing a stroke shows it, discards what could be redone, keeps the
/// history consistent, and undo takes the stroke out of the picture again.
pub proof fn law_completed_stroke_can_be_undone(
    document: DocumentModel,
    id: StrokeId,
    coverage: CoverageModel,
)
    requires
        document.well_formed(),
        document.active.contains_key(id.0),
    ensures
        ({
            let after = document.ended(id, coverage);
            &&& after.picture().shown == (if document.strokes[document.active[id.0].metadata_index as int].visible {
                document.picture().shown.insert(document.active[id.0].metadata_index as int)
            } else {
                document.picture().shown
            })
            &&& after.redo.len() == 0
            &&& document.strokes[document.active[id.0].metadata_index as int].visible ==> {
                &&& document.consistent_history() ==> after.consistent_history()
                &&& after.undone().picture() == document.picture()
            }
        }),
{
    let index = document.active[id.0].metadata_index;
    let command = CommandModel::AddStroke(index);
    let after = document.ended(id, coverage);
    let stroke = document.strokes[index as int];
    assert(!stroke.complete);
    assert(!document.picture().shown.contains(index as int));
    assert forall|i: int| 0 <= i < document.strokes.len() && i != index implies #[trigger] after.strokes[i] == document.strokes[i] by {
    }
    if stroke.visible {
        assert(after.picture().shown =~= document.picture().shown.insert(index as int));
        assert(after.picture() =~= document.picture().stepped(command, true));
        assert(document.picture().stepped(command, true).stepped(command, false)
            =~= document.picture());
        lemma_recorded_survives(document, after, command);
        lemma_edit_undone(document, after, command);
    } else {
        assert(after.picture().shown =~= document.picture().shown);
    }
}

/// Clearing empties the picture's strokes without touching geometry, and undo
/// brings all of them back.
pub proof fn law_clear_can_be_undone(document: DocumentModel)
    requires
        document.well_formed(),
        document.strokes.len() <= usize::MAX,
    ensures
        document.cleared().picture().shown == Set::<int>::empty(),
        document.cleared().points == document.points,
        document.cleared().segments == document.segments,
        document.cleared().active == Map::<u64, crate::state::ActiveStroke>::empty(),
        document.consistent_history() ==> document.cleared().consistent_history(),
        document.picture().shown != Set::<int>::empty() ==> {
            &&& document.cleared().undo.len() == document.undo.len() + 1
            &&& document.cleared().redo.len() == 0
            &&& document.cleared().undone().picture() == document.picture()
        },
{
    let idle = document.contacts_abandoned();
    assert forall|i: int| #[trigger] document.contact_at(i) implies 0 <= i < document.strokes.len()
        && !document.strokes[i].complete by {
        let id = choose|id: u64| #[trigger]
            document.active.contains_key(id) && document.active[id].metadata_index == i;
        assert(document.active.contains_key(id));
    }
    assert forall|i: int| idle.picture().shown.contains(i) <==> document.picture().shown.contains(
        i,
    ) by {
        if 0 <= i < document.strokes.len() && document.contact_at(i) {
            assert(!document.strokes[i].complete);
        }
    }
    assert(idle.picture() =~= document.picture());
    let changed = idle.shown_positions(idle.strokes.len());
    lemma_shown_positions(idle, idle.strokes.len());
    assert forall|i: int| document.picture().shown.contains(i) <==> position_set(changed).contains(
        i,
    ) by {
        if idle.picture().shown.contains(i) {
            assert(idle.strokes[i].visible);
        }
        if position_set(changed).contains(i) {
            let k = choose|k: int| 0 <= k < changed.len() && changed[k] == i as usize;
            assert(idle.strokes[changed[k] as int].visible);
        }
    }
    assert(document.picture().shown =~= position_set(changed));
    if changed.len() == 0 {
        assert forall|i: int| !position_set(changed).contains(i) by {
        }
        assert(document.picture().shown =~= Set::<int>::empty());
    } else {
        assert(changed.contains(changed[0]));
        assert(position_set(changed).contains(changed[0] as int));
        let after = document.cleared();
        let command = CommandModel::Clear(changed);
        assert forall|i: int| !after.picture().shown.contains(i) by {
            if 0 <= i < idle.strokes.len() && idle.strokes[i].visible && idle.strokes[i].complete {
                assert(idle.picture().shown.contains(i));
                assert(position_set(changed).contains(i));
            }
        }
        assert(after.picture().shown =~= Set::<int>::empty());
        assert(after.picture() =~= document.picture().stepped(command, true));
        assert(document.picture().stepped(command, true).stepped(command, false)
            =~= document.picture());
        assert(after.command_in_range(command)) by {
            assert forall|k: int| 0 <= k < changed.len() implies (#[trigger] changed[k])
                < after.strokes.len() && after.strokes[changed[k] as int].complete by {
                assert(idle.strokes[changed[k] as int].complete);
            }
        }
        lemma_recorded_survives(document, after, command);
        lemma_edit_undone(document, after, command);
    }
}

/// Resizing rewrites no coordinates, and undo restores the extent.
pub proof fn law_resize_can_be_undone(document: DocumentModel, size: CanvasSize)
    requires
        document.well_formed(),
    ensures
        document.resized(size).points == document.points,
        document.resized(size).segments == document.segments,
        document.resized(size).strokes == document.strokes,
        document.resized(size).canvas_size == size,
        document.resized(size).redo.len() == 0,
        document.consistent_history() && size.width > 0 && size.height > 0 ==> document.resized(
            size,
        ).consistent_history(),
        document.resized(size).undone().picture() == document.picture(),
{
    let command = CommandModel::Resize { before: document.canvas_size, after: size };
    let after = document.resized(size);
    lemma_recorded_in_range(document, after, command);
    assert(after.picture() =~= document.picture().stepped(command, true));
    assert(document.picture().stepped(command, true).stepped(command, false)
        =~= document.picture());
    lemma_edit_undone(document, after, command);
}

/// Editing a layer's visibility, opacity or name is undone exactly.
pub proof fn law_layer_edit_can_be_undone(
    document: DocumentModel,
    id: LayerId,
    visible: bool,
    opacity: Scalar,
    name: Seq<char>,
)
    requires
        document.well_formed(),
        has_layer(document.layers, id),
    ensures
        ({
            let layer = document.layers[layer_position(document.layers, id)];
            let shown = document.layer_edited(
                id,
                setting_visible(visible),
                CommandModel::LayerVisibility { layer: id, before: layer.visible, after: visible },
            );
            let faded = document.layer_edited(
                id,
                setting_opacity(opacity),
                CommandModel::LayerOpacity { layer: id, before: layer.opacity, after: opacity },
            );
            let named = document.layer_edited(
                id,
                setting_name(name),
                CommandModel::LayerRename { layer: id, before: layer.name, after: name },
            );
            &&& shown.undone().picture() == document.picture()
            &&& faded.undone().picture() == document.picture()
            &&& named.undone().picture() == document.picture()
            &&& document.consistent_history() ==> shown.consistent_history()
                && named.consistent_history()
            &&& document.consistent_history() && !opacity.below(Scalar::zero())
                && !Scalar::one().below(opacity) ==> faded.consistent_history()
        }),
{
    lemma_layer_position(document.layers, id);
    let layer = document.layers[layer_position(document.layers, id)];
    let first = CommandModel::LayerVisibility { layer: id, before: layer.visible, after: visible };
    let shown = document.layer_edited(id, setting_visible(visible), first);
    lemma_layer_edit(document, shown, id, setting_visible(visible), setting_visible(layer.visible), first);
    let second = CommandModel::LayerOpacity { layer: id, before: layer.opacity, after: opacity };
    let faded = document.layer_edited(id, setting_opacity(opacity), second);
    lemma_layer_edit(document, faded, id, setting_opacity(opacity), setting_opacity(layer.opacity), second);
    let third = CommandModel::LayerRename { layer: id, before: layer.name, after: name };
    let named = document.layer_edited(id, setting_name(name), third);
    lemma_layer_edit(document, named, id, setting_name(name), setting_name(layer.name), third);
}

proof fn lemma_layer_edit(
    document: DocumentModel,
    after: DocumentModel,
    id: LayerId,
    change: spec_fn(LayerModel) -> LayerModel,
    back: spec_fn(LayerModel) -> LayerModel,
    command: CommandModel,
)
    requires
        document.well_formed(),
        has_layer(document.layers, id),
        after == document.layer_edited(id, change, command),
        change(document.layers[layer_position(document.layers, id)]).id == id,
        back(change(document.layers[layer_position(document.layers, id)]))
            == document.layers[layer_position(document.layers, id)],
        document.command_in_range(command),
        document.picture().stepped(command, true) == (Picture {
            layers: layer_replaced(document.layers, id, change),
            ..document.picture()
        }),
        document.picture().stepped(command, true).stepped(command, false) == (Picture {
            layers: layer_replaced(layer_replaced(document.layers, id, change), id, back),
            ..document.picture()
        }),
    ensures
        ({
            let changed = change(document.layers[layer_position(document.layers, id)]);
            document.consistent_history() && !changed.opacity.below(Scalar::zero())
                && !Scalar::one().below(changed.opacity) ==> after.consistent_history()
        }),
        after.undone().picture() == document.picture(),
{
    lemma_layer_position(document.layers, id);
    lemma_layer_edit_reversible(document.layers, id, change, back);
    lemma_layer_replaced(document.layers, id, change);
    assert(after.picture() =~= document.picture().stepped(command, true));
    let changed = change(document.layers[layer_position(document.layers, id)]);
    if document.consistent_history() && !changed.opacity.below(Scalar::zero())
        && !Scalar::one().below(changed.opacity) {
        assert forall|i: int| 0 <= i < after.layers.len() implies layer_in_order(
            #[trigger] after.layers[i],
            after.next_layer,
        ) by {
            assert(layer_in_order(document.picture().layers[i], document.next_layer));
        }
    }
    lemma_recorded_in_range(document, after, command);
    lemma_edit_undone(document, after, command);
}

/// A longer history of a document with the same strokes stays in range.
proof fn lemma_recorded_in_range(
    document: DocumentModel,
    after: DocumentModel,
    command: CommandModel,
)
    requires
        document.history_in_range(),
        document.command_in_range(command),
        after.strokes == document.strokes,
        after.undo == document.undo.push(command),
        after.redo.len() == 0,
    ensures
        after.history_in_range(),
{
    assert forall|k: int| 0 <= k < after.undo.len() implies after.command_in_range(
        #[trigger] after.undo[k],
    ) by {
        if k < document.undo.len() {
            assert(document.command_in_range(document.undo[k]));
        }
        assert(document.command_in_range(after.undo[k]) == after.command_in_range(after.undo[k]));
    }
}

/// A longer history stays in range where completed strokes stay completed.
proof fn lemma_recorded_survives(
    document: DocumentModel,
    after: DocumentModel,
    command: CommandModel,
)
    requires
        document.history_in_range(),
        after.command_in_range(command),
        document.strokes.len() <= after.strokes.len(),
        forall|i: int|
            0 <= i < document.strokes.len() && (#[trigger] document.strokes[i]).complete
                ==> after.strokes[i].complete,
        after.undo == document.undo.push(command),
        after.redo.len() == 0,
    ensures
        after.history_in_range(),
{
    assert forall|k: int| 0 <= k < after.undo.len() implies after.command_in_range(
        #[trigger] after.undo[k],
    ) by {
        if k < document.undo.len() {
            assert(document.command_in_range(document.undo[k]));
            lemma_command_survives(document, after, document.undo[k]);
        }
    }
}

/// Creating a layer is undone exactly, as long as its identity is new.
pub proof fn law_new_layer_can_be_undone(document: DocumentModel, name: Seq<char>)
    requires
        document.well_formed(),
        document.layers.len() <= usize::MAX,
        !has_layer(document.layers, LayerId(document.next_layer)),
    ensures
        document.consistent_history() && document.next_layer < u32::MAX ==> document.layer_added(
            name,
        ).consistent_history(),
        document.layer_added(name).undone().picture() == document.picture(),
        document.layer_added(name).redo.len() == 0,
{
    let layer = LayerModel::plain(LayerId(document.next_layer), name);
    let command = CommandModel::AddLayer { layer, index: document.layers.len() as usize };
    lemma_layer_added(document, document.layer_added(name), layer, command);
}

proof fn lemma_layer_added(
    document: DocumentModel,
    after: DocumentModel,
    layer: LayerModel,
    command: CommandModel,
)
    requires
        document.history_in_range(),
        document.layers.len() <= usize::MAX,
        !has_layer(document.layers, layer.id),
        command == (CommandModel::AddLayer { layer, index: document.layers.len() as usize }),
        after.layers == document.layers.push(layer),
        after.strokes == document.strokes,
        after.canvas_size == document.canvas_size,
        after.undo == document.undo.push(command),
        after.redo.len() == 0,
        document.next_layer <= after.next_layer || document.next_layer == u32::MAX,
    ensures
        document.consistent_history() && document.next_layer < u32::MAX && layer_in_order(
            layer,
            after.next_layer,
        ) ==> after.consistent_history(),
        after.undone().picture() == document.picture(),
{
    let before = document.picture();
    let stepped = before.stepped(command, true);
    assert(stepped.layers == after.layers) by {
        lemma_layer_on_top(document.layers, layer);
    }
    assert(before.reversible(command, true)) by {
        lemma_layer_taken_off(document.layers, layer);
    }
    assert(after.picture() == stepped) by {
        assert(after.picture().shown =~= before.shown);
    }
    lemma_recorded_in_range(document, after, command);
    lemma_latest_undone(document, after, command);
    if document.next_layer <= after.next_layer {
        if document.consistent_history() && layer_in_order(layer, after.next_layer) {
            lemma_layer_on_top_orderly(document, after, layer);
        }
        lemma_edit_undone(document, after, command);
    }
}

/// A new top layer with a new identity leaves the picture orderly.
proof fn lemma_layer_on_top_orderly(
    document: DocumentModel,
    after: DocumentModel,
    layer: LayerModel,
)
    requires
        document.picture().orderly(document.next_layer),
        document.next_layer <= after.next_layer,
        layer_in_order(layer, after.next_layer),
        !has_layer(document.layers, layer.id),
        after.layers == document.layers.push(layer),
        after.canvas_size == document.canvas_size,
    ensures
        after.picture().orderly(after.next_layer),
{
    lemma_layer_on_top_distinct(document.layers, layer);
    assert forall|i: int| 0 <= i < after.layers.len() implies layer_in_order(
        #[trigger] after.layers[i],
        after.next_layer,
    ) by {
        if i < document.layers.len() {
            assert(layer_in_order(document.picture().layers[i], document.next_layer));
        }
    }
}

/// Moving a layer is undone exactly, as long as layer identities are distinct.
pub proof fn law_layer_move_can_be_undone(document: DocumentModel, id: LayerId, after: usize)
    requires
        document.well_formed(),
        document.layers.len() <= usize::MAX,
        distinct_layers(document.layers),
        has_layer(document.layers, id),
        after < document.layers.len(),
    ensures
        document.consistent_history() ==> document.layer_moved(id, after).consistent_history(),
        document.layer_moved(id, after).undone().picture() == document.picture(),
        document.layer_moved(id, after).redo.len() == 0,
        distinct_layers(document.layer_moved(id, after).layers),
        layer_position(document.layer_moved(id, after).layers, id) == after,
        document.layer_moved(id, after).points == document.points,
        document.layer_moved(id, after).segments == document.segments,
        document.layer_moved(id, after).strokes == document.strokes,
{
    let moved = document.layer_moved(id, after);
    let before = layer_position(document.layers, id);
    let command = CommandModel::LayerMove { layer: id, before: before as usize, after };
    lemma_moved(document.layers, id, after);
    assert(moved.picture() =~= document.picture().stepped(command, true));
    assert(document.picture().stepped(command, true).stepped(command, false)
        =~= document.picture());
    if document.consistent_history() {
        let rest = document.layers.remove(before);
        lemma_layer_position(document.layers, id);
        assert forall|i: int| 0 <= i < moved.layers.len() implies layer_in_order(
            #[trigger] moved.layers[i],
            moved.next_layer,
        ) by {
            let j = if i < after { i } else { i - 1 };
            let k = if i == after { before } else if j < before { j } else { j + 1 };
            assert(moved.layers[i] == document.layers[k]);
            assert(layer_in_order(document.picture().layers[k], document.next_layer));
        }
    }
    lemma_recorded_in_range(document, moved, command);
    lemma_edit_undone(document, moved, command);
}

/// Drawing contacts, device recovery, cache layout, tile size, effect and
/// handover changes leave picture and history alone.
pub proof fn law_other_changes_keep_the_history(
    document: DocumentModel,
    id: StrokeId,
    point: StrokePoint,
    reach: Bounds,
    profile: BrushProfile,
    coverage: Seq<CoverageModel>,
    number: u32,
    effects: EffectGraphModel,
    ready: Set<usize>,
)
    requires
        document.well_formed(),
        document.consistent_history(),
    ensures
        document.begun(point, reach, profile).consistent_history(),
        document.active.contains_key(id.0) ==> document.extended(
            id,
            point,
            reach,
        ).consistent_history(),
        document.device_lost().consistent_history(),
        document.layout_changed().consistent_history(),
        document.tiles_resized(number, coverage).consistent_history(),
        document.radius_changed(number, coverage).consistent_history(),
        document.effects_replaced(effects).consistent_history(),
        document.handed_over(ready).consistent_history(),
{
    let picture = document.picture();
    assert(document.begun(point, reach, profile).picture() =~= picture);
    if document.active.contains_key(id.0) {
        assert(document.extended(id, point, reach).picture() =~= picture);
    }
    assert(document.device_lost().picture() =~= picture);
    assert(document.layout_changed().picture() =~= picture);
    assert(document.tiles_resized(number, coverage).picture() =~= picture);
    assert(document.radius_changed(number, coverage).picture() =~= picture);
    assert(document.effects_replaced(effects).picture() =~= picture);
    assert(document.handed_over(ready).picture() =~= picture);
}

/// A new document has a consistent, empty history.
pub proof fn law_new_document_has_consistent_history()
    ensures
        DocumentModel::initial().consistent_history(),
{
}

} // verus!
