//! Which layers strokes lie on: those that are there, and those that commands added and
//! undo took back.
use crate::coherence::{same_drawing, same_ink};
use crate::geometry::LayerId;
use crate::layers::{
    has_layer, lemma_found_after_inserting, lemma_found_after_moving, lemma_found_after_removing,
    lemma_found_after_replacing, setting_name, setting_opacity, setting_visible,
};
use crate::state::DocumentModel;
use crate::strokes::CommandModel;
use vstd::prelude::*;

verus! {

/// Identity of the layer that a command adds.
pub open spec fn layer_added_by(command: CommandModel) -> Option<LayerId> {
    match command {
        CommandModel::AddLayer { layer, .. } => Some(layer.id),
        _ => None,
    }
}

/// Whether one of the commands adds the layer.
pub open spec fn adds_layer(commands: Seq<CommandModel>, id: LayerId) -> bool {
    exists|k: int|
        0 <= k < commands.len() && layer_added_by(#[trigger] commands[k]) == Some(id)
}

impl DocumentModel {
    /// Whether a layer is there, or was handed out from `first` on and has been taken back.
    pub open spec fn layer_accounted(self, first: u32, id: LayerId) -> bool {
        has_layer(self.layers, id) || (first <= id.0 && self.undo.len() + self.redo.len() > 0)
    }

    /// Whether commands added the layers from `first` on, and those alone: the layers that
    /// are there and not below `first` can be undone. Strokes and segments lie on layers
    /// that are there or were taken back.
    pub open spec fn layers_added_from(self, first: u32) -> bool {
        &&& first <= self.next_layer
        &&& forall|id: LayerId| #[trigger]
            has_layer(self.layers, id) ==> id.0 < first || adds_layer(self.undo, id)
        &&& forall|id: LayerId| #[trigger] adds_layer(self.undo, id) ==> first <= id.0
        &&& forall|id: LayerId| #[trigger] adds_layer(self.redo, id) ==> first <= id.0
        &&& forall|i: int|
            0 <= i < self.strokes.len() ==> self.layer_accounted(
                first,
                (#[trigger] self.strokes[i]).layer,
            )
        &&& forall|s: int|
            0 <= s < self.segments.len() ==> self.layer_accounted(
                first,
                (#[trigger] self.segments[s]).layer,
            )
    }

    /// Whether every layer that holds a stroke is there or was added and taken back.
    pub open spec fn layers_accounted(self) -> bool {
        exists|first: u32| self.layers_added_from(first)
    }
}

/// Whether no layer came or went between two documents, and none of the commands to undo
/// that adds one is missing.
pub open spec fn same_layers(a: DocumentModel, b: DocumentModel) -> bool {
    &&& a.next_layer <= b.next_layer
    &&& forall|id: LayerId| #[trigger] has_layer(b.layers, id) == has_layer(a.layers, id)
    &&& forall|id: LayerId| #[trigger] adds_layer(b.undo, id) == adds_layer(a.undo, id)
    &&& forall|id: LayerId| #[trigger]
        adds_layer(b.redo, id) ==> adds_layer(a.redo, id)
    &&& a.undo.len() + a.redo.len() > 0 ==> b.undo.len() + b.redo.len() > 0
}

/// Where no layer came or went, strokes on known layers stay accounted for, and may be
/// joined by others on layers that are there.
pub proof fn lemma_accounted_kept(a: DocumentModel, b: DocumentModel)
    requires
        a.layers_accounted(),
        same_layers(a, b),
        forall|i: int|
            0 <= i < b.strokes.len() ==> {
                ||| i < a.strokes.len() && (#[trigger] b.strokes[i]).layer == a.strokes[i].layer
                ||| has_layer(a.layers, b.strokes[i].layer)
            },
        forall|s: int|
            0 <= s < b.segments.len() ==> {
                ||| s < a.segments.len() && (#[trigger] b.segments[s]).layer
                    == a.segments[s].layer
                ||| has_layer(a.layers, b.segments[s].layer)
                ||| exists|i: int|
                    0 <= i < a.strokes.len() && b.segments[s].layer == (
                    #[trigger] a.strokes[i]).layer
            },
    ensures
        b.layers_accounted(),
{
    let first = choose|first: u32| a.layers_added_from(first);
    assert forall|i: int| 0 <= i < b.strokes.len() implies b.layer_accounted(
        first,
        (#[trigger] b.strokes[i]).layer,
    ) by {
        assert(has_layer(b.layers, b.strokes[i].layer) == has_layer(
            a.layers,
            b.strokes[i].layer,
        ));
        if !has_layer(a.layers, b.strokes[i].layer) {
            assert(a.layer_accounted(first, a.strokes[i].layer));
        }
    }
    assert forall|s: int| 0 <= s < b.segments.len() implies b.layer_accounted(
        first,
        (#[trigger] b.segments[s]).layer,
    ) by {
        assert(has_layer(b.layers, b.segments[s].layer) == has_layer(
            a.layers,
            b.segments[s].layer,
        ));
        if !has_layer(a.layers, b.segments[s].layer) {
            if s < a.segments.len() && b.segments[s].layer == a.segments[s].layer {
                assert(a.layer_accounted(first, a.segments[s].layer));
            } else {
                let i = choose|i: int|
                    0 <= i < a.strokes.len() && b.segments[s].layer == (
                    #[trigger] a.strokes[i]).layer;
                assert(a.layer_accounted(first, a.strokes[i].layer));
            }
        }
    }
    assert forall|id: LayerId| #[trigger] has_layer(b.layers, id) implies id.0 < first
        || adds_layer(b.undo, id) by {
        assert(adds_layer(b.undo, id) == adds_layer(a.undo, id));
        assert(has_layer(a.layers, id));
    }
    assert forall|id: LayerId| #[trigger] adds_layer(b.undo, id) implies first <= id.0 by {
        assert(adds_layer(a.undo, id));
    }
    assert(b.layers_added_from(first));
}

/// The same for documents with one drawing.
pub proof fn lemma_drawing_accounted(a: DocumentModel, b: DocumentModel)
    requires
        a.layers_accounted(),
        same_layers(a, b),
        same_drawing(a, b),
    ensures
        b.layers_accounted(),
{
    assert forall|i: int| 0 <= i < b.strokes.len() implies (#[trigger] b.strokes[i]).layer
        == a.strokes[i].layer by {
        assert(same_ink(a.strokes[i], b.strokes[i]));
    }
    lemma_accounted_kept(a, b);
}

/// One more command adds its own layer at most.
proof fn lemma_pushed(commands: Seq<CommandModel>, command: CommandModel, id: LayerId)
    ensures
        adds_layer(commands.push(command), id) == (adds_layer(commands, id) || layer_added_by(
            command,
        ) == Some(id)),
{
    let more = commands.push(command);
    if adds_layer(commands, id) {
        let k = choose|k: int|
            0 <= k < commands.len() && layer_added_by(#[trigger] commands[k]) == Some(id);
        assert(more[k] == commands[k]);
    }
    if layer_added_by(command) == Some(id) {
        assert(more[commands.len() as int] == command);
    }
    if adds_layer(more, id) {
        let k = choose|k: int|
            0 <= k < more.len() && layer_added_by(#[trigger] more[k]) == Some(id);
        if k < commands.len() {
            assert(commands[k] == more[k]);
        }
    }
}

/// A new command that adds no layer leaves all accounted for.
pub proof fn lemma_recorded_accounted(a: DocumentModel, b: DocumentModel, command: CommandModel)
    requires
        a.layers_accounted(),
        same_drawing(a, b),
        a.next_layer == b.next_layer,
        forall|id: LayerId| #[trigger] has_layer(b.layers, id) == has_layer(a.layers, id),
        b.undo == a.undo.push(command),
        b.redo.len() == 0,
        layer_added_by(command) is None,
    ensures
        b.layers_accounted(),
{
    assert forall|id: LayerId| #[trigger] adds_layer(b.undo, id) == adds_layer(a.undo, id) by {
        lemma_pushed(a.undo, command, id);
    }
    lemma_drawing_accounted(a, b);
}

/// A new layer is accounted for.
pub proof fn lemma_added_accounted(document: DocumentModel, name: Seq<char>)
    requires
        document.layers_accounted(),
        document.next_layer < u32::MAX,
        document.layers.len() <= usize::MAX,
    ensures
        document.layer_added(name).layers_accounted(),
{
    let first = choose|first: u32| document.layers_added_from(first);
    let after = document.layer_added(name);
    let added = LayerId(document.next_layer);
    let command = after.undo.last();
    assert(after.undo == document.undo.push(command));
    assert(layer_added_by(command) == Some(added));
    let layer = after.layers.last();
    let top = document.layers.len() as usize;
    assert(after.layers =~= document.layers.insert(document.layers.len() as int, layer));
    assert forall|id: LayerId| #[trigger] has_layer(after.layers, id) implies id.0 < first
        || adds_layer(after.undo, id) by {
        lemma_found_after_inserting(document.layers, top, layer, id);
        lemma_pushed(document.undo, command, id);
        assert(id == added || has_layer(document.layers, id));
    }
    assert forall|id: LayerId| #[trigger] adds_layer(after.undo, id) implies first <= id.0 by {
        lemma_pushed(document.undo, command, id);
    }
    assert forall|id: LayerId| document.layer_accounted(first, id) implies #[trigger]
        after.layer_accounted(first, id) by {
        lemma_found_after_inserting(document.layers, top, layer, id);
    }
    assert forall|s: int| 0 <= s < after.segments.len() implies after.layer_accounted(
        first,
        (#[trigger] after.segments[s]).layer,
    ) by {
        assert(document.layer_accounted(first, document.segments[s].layer));
    }
    assert forall|i: int| 0 <= i < after.strokes.len() implies after.layer_accounted(
        first,
        (#[trigger] after.strokes[i]).layer,
    ) by {
        assert(document.layer_accounted(first, document.strokes[i].layer));
    }
    assert(after.layers_added_from(first));
}

/// Replaying a command that adds no layer brings none in and takes none out.
proof fn lemma_replayed_layers(
    document: DocumentModel,
    command: CommandModel,
    forward: bool,
    id: LayerId,
)
    requires
        layer_added_by(command) is None,
    ensures
        has_layer(document.replayed(command, forward).layers, id) == has_layer(
            document.layers,
            id,
        ),
{
    match command {
        CommandModel::LayerVisibility { layer, before, after } => {
            lemma_found_after_replacing(
                document.layers,
                layer,
                setting_visible(if forward { after } else { before }),
                id,
            );
        },
        CommandModel::LayerOpacity { layer, before, after } => {
            lemma_found_after_replacing(
                document.layers,
                layer,
                setting_opacity(if forward { after } else { before }),
                id,
            );
        },
        CommandModel::LayerRename { layer, before, after } => {
            lemma_found_after_replacing(
                document.layers,
                layer,
                setting_name(if forward { after } else { before }),
                id,
            );
        },
        CommandModel::LayerMove { layer, before, after } => {
            lemma_found_after_moving(
                document.layers,
                layer,
                if forward { after } else { before },
                id,
            );
        },
        _ => {},
    }
}

/// A command that moves from one list to the other, `back` or forth, leaves all layers
/// accounted for.
proof fn lemma_moved_accounted(
    a: DocumentModel,
    b: DocumentModel,
    command: CommandModel,
    back: bool,
)
    requires
        a.layers_accounted(),
        same_drawing(a, b),
        a.next_layer == b.next_layer,
        back ==> a.undo == b.undo.push(command) && b.redo == a.redo.push(command),
        !back ==> a.redo == b.redo.push(command) && b.undo == a.undo.push(command),
        forall|id: LayerId| #[trigger]
            has_layer(b.layers, id) == if layer_added_by(command) == Some(id) {
                !back
            } else {
                has_layer(a.layers, id)
            },
    ensures
        b.layers_accounted(),
{
    let first = choose|first: u32| a.layers_added_from(first);
    assert forall|id: LayerId| layer_added_by(command) == Some(id) implies first <= id.0 by {
        lemma_pushed(if back { b.undo } else { b.redo }, command, id);
        assert(adds_layer(a.undo, id) || adds_layer(a.redo, id));
    }
    assert forall|id: LayerId| #[trigger] has_layer(b.layers, id) implies id.0 < first
        || adds_layer(b.undo, id) by {
        lemma_pushed(if back { b.undo } else { a.undo }, command, id);
        if layer_added_by(command) != Some(id) {
            assert(has_layer(a.layers, id));
        }
    }
    assert forall|id: LayerId| #[trigger] adds_layer(b.undo, id) implies first <= id.0 by {
        lemma_pushed(if back { b.undo } else { a.undo }, command, id);
        if back {
            assert(adds_layer(a.undo, id));
        }
    }
    assert forall|id: LayerId| #[trigger] adds_layer(b.redo, id) implies first <= id.0 by {
        lemma_pushed(if back { a.redo } else { b.redo }, command, id);
        if !back {
            assert(adds_layer(a.redo, id));
        }
    }
    assert forall|id: LayerId| a.layer_accounted(first, id) implies #[trigger] b.layer_accounted(
        first,
        id,
    ) by {
        assert(has_layer(b.layers, id) == if layer_added_by(command) == Some(id) {
            !back
        } else {
            has_layer(a.layers, id)
        });
    }
    assert forall|i: int| 0 <= i < b.strokes.len() implies b.layer_accounted(
        first,
        (#[trigger] b.strokes[i]).layer,
    ) by {
        assert(same_ink(a.strokes[i], b.strokes[i]));
        assert(a.layer_accounted(first, a.strokes[i].layer));
    }
    assert forall|s: int| 0 <= s < b.segments.len() implies b.layer_accounted(
        first,
        (#[trigger] b.segments[s]).layer,
    ) by {
        assert(a.layer_accounted(first, a.segments[s].layer));
    }
    assert(b.layers_added_from(first));
}

/// Undo leaves all layers accounted for.
pub proof fn lemma_undone_accounted(document: DocumentModel)
    requires
        document.layers_accounted(),
        document.undo.len() > 0,
        same_drawing(document, document.undone()),
    ensures
        document.undone().layers_accounted(),
{
    let command = document.undo.last();
    let popped = DocumentModel { undo: document.undo.drop_last(), ..document }.bumped();
    let after = document.undone();
    assert(document.undo =~= after.undo.push(command));
    assert forall|id: LayerId| #[trigger] has_layer(after.layers, id) == if layer_added_by(command)
        == Some(id) {
        false
    } else {
        has_layer(document.layers, id)
    } by {
        match command {
            CommandModel::AddLayer { layer, index } => {
                lemma_found_after_removing(document.layers, layer.id, id);
            },
            _ => {
                lemma_replayed_layers(popped, command, false, id);
            },
        }
    }
    lemma_moved_accounted(document, after, command, true);
}

/// Redo leaves all layers accounted for.
pub proof fn lemma_redone_accounted(document: DocumentModel)
    requires
        document.layers_accounted(),
        document.redo.len() > 0,
        same_drawing(document, document.redone()),
    ensures
        document.redone().layers_accounted(),
{
    let command = document.redo.last();
    let popped = DocumentModel { redo: document.redo.drop_last(), ..document }.bumped();
    let after = document.redone();
    assert(document.redo =~= after.redo.push(command));
    assert forall|id: LayerId| #[trigger] has_layer(after.layers, id) == if layer_added_by(command)
        == Some(id) {
        true
    } else {
        has_layer(document.layers, id)
    } by {
        match command {
            CommandModel::AddLayer { layer, index } => {
                lemma_found_after_inserting(document.layers, index, layer, id);
            },
            _ => {
                lemma_replayed_layers(popped, command, true, id);
            },
        }
    }
    lemma_moved_accounted(document, after, command, false);
}

} // verus!
