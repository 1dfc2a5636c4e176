//! What a document that was saved and loaded again has kept.
use crate::archive::{
    at_rest, insert_id, saved_command, saved_commands, saved_document, saved_effects, sorted_ids,
    ArchiveModel, ArchiveStroke, DOCUMENT_SCHEMA_VERSION,
};
use crate::compatibility::payload_fault;
use crate::drawn_layers::{adds_layer, layer_added_by, lemma_accounted_kept};
use crate::effects::{EffectGraphModel, EffectNodeId};
use crate::geometry::LayerId;
use crate::history::{layer_in_order, lemma_retraceable_further};
use crate::layers::{has_layer, layer_position, lemma_layer_found, lemma_layer_position};
use crate::ordered::{ascending, lemma_listing_exists, lists};
use crate::paint::{
    lemma_material_rank_injective, library_filed, MaterialModel, PaintMaterialRef,
};
use crate::restore::{
    command_fault, dependencies_of, effects_fault, history_fault, library_of, load_fault,
    loaded_command, loaded_document, loaded_effects, lookup_of,
};
use crate::state::{drawn_apart, own_segment, DocumentModel};
use crate::strokes::{CommandModel, StrokeModel};
use crate::validate::{
    archive_fault, creates_layer, knows_layer, knows_material,
    law_current_documents_migrate_to_themselves, layer_created, layers_valid,
    lemma_no_stroke_fault, materials_distinct, migrated, point_valid, remembers_layer,
    segment_owned, segment_valid, stroke_fault, stroke_owns_segments, stroke_valid, strokes_fault,
};
use vstd::prelude::*;

verus! {

/// Whether a stroke kept identity, geometry, style and visibility.
pub open spec fn same_stroke(a: StrokeModel, b: StrokeModel) -> bool {
    &&& a.id == b.id
    &&& a.first_point == b.first_point
    &&& a.point_count == b.point_count
    &&& a.first_segment == b.first_segment
    &&& a.segment_count == b.segment_count
    &&& a.layer == b.layer
    &&& a.brush == b.brush
    &&& a.bounds == b.bounds
    &&& a.visible == b.visible
    &&& a.complete == b.complete
}

/// Looking up the identity of a saved stroke finds it, where identities are
/// distinct.
proof fn lemma_lookup_finds(strokes: Seq<ArchiveStroke>, count: nat, i: int)
    requires
        count <= strokes.len(),
        strokes.len() <= usize::MAX,
        0 <= i < count,
        forall|a: int, b: int|
            0 <= a < b < strokes.len() ==> (#[trigger] strokes[a]).id != (
            #[trigger] strokes[b]).id,
    ensures
        lookup_of(strokes, count).contains_key(strokes[i].id),
        lookup_of(strokes, count)[strokes[i].id] == i,
    decreases count,
{
    if i < count - 1 {
        lemma_lookup_finds(strokes, (count - 1) as nat, i);
        assert(strokes[i].id != strokes[count - 1].id);
    }
}

/// Some stroke with the identity is found, even where identities repeat.
proof fn lemma_lookup_knows(strokes: Seq<ArchiveStroke>, count: nat, i: int)
    requires
        0 <= i < count,
        count <= strokes.len(),
    ensures
        lookup_of(strokes, count).contains_key(strokes[i].id),
    decreases count,
{
    if i < count - 1 {
        lemma_lookup_knows(strokes, (count - 1) as nat, i);
    }
}

/// A saved history never names a stroke that the saved document lacks.
proof fn lemma_saved_history_has_no_fault(
    document: DocumentModel,
    commands: Seq<CommandModel>,
    count: nat,
)
    requires
        count <= commands.len(),
        forall|k: int|
            0 <= k < commands.len() ==> document.command_in_range(#[trigger] commands[k]),
    ensures
        history_fault(
            saved_commands(commands, document.strokes),
            lookup_of(saved_document(document).strokes, document.strokes.len()),
            count,
        ) is None,
    decreases count,
{
    if count > 0 {
        lemma_saved_history_has_no_fault(document, commands, (count - 1) as nat);
        let strokes = saved_document(document).strokes;
        let lookup = lookup_of(strokes, document.strokes.len());
        let command = commands[count - 1];
        assert(document.command_in_range(command));
        let saved = saved_command(command, document.strokes);
        match command {
            CommandModel::AddStroke(index) => {
                lemma_lookup_knows(strokes, document.strokes.len(), index as int);
            },
            CommandModel::Clear(indices) => {
                let ids = indices.map_values(|index: usize| document.strokes[index as int].id.0);
                assert forall|k: int| 0 <= k < ids.len() implies lookup.contains_key(
                    #[trigger] ids[k],
                ) by {
                    assert(indices[k] < document.strokes.len());
                    lemma_lookup_knows(strokes, document.strokes.len(), indices[k] as int);
                }
            },
            _ => {},
        }
        assert(command_fault(saved, lookup) is None);
    }
}

/// A history command survives saving and loading, where stroke identities are
/// distinct.
proof fn lemma_command_survives(document: DocumentModel, command: CommandModel)
    requires
        document.command_in_range(command),
        document.strokes.len() <= usize::MAX,
        forall|a: int, b: int|
            0 <= a < b < document.strokes.len() ==> (#[trigger] document.strokes[a]).id != (
            #[trigger] document.strokes[b]).id,
    ensures
        loaded_command(
            saved_command(command, document.strokes),
            lookup_of(saved_document(document).strokes, document.strokes.len()),
        ) == command,
{
    let strokes = saved_document(document).strokes;
    let lookup = lookup_of(strokes, document.strokes.len());
    assert forall|a: int, b: int| 0 <= a < b < strokes.len() implies (#[trigger] strokes[a]).id
        != (#[trigger] strokes[b]).id by {
        assert(document.strokes[a].id != document.strokes[b].id);
    }
    match command {
        CommandModel::AddStroke(index) => {
            lemma_lookup_finds(strokes, document.strokes.len(), index as int);
        },
        CommandModel::Clear(indices) => {
            let ids = indices.map_values(|index: usize| document.strokes[index as int].id.0);
            let back = ids.map_values(|id: u64| lookup[id]);
            assert forall|k: int| 0 <= k < indices.len() implies back[k] == indices[k] by {
                assert(indices[k] < document.strokes.len());
                lemma_lookup_finds(strokes, document.strokes.len(), indices[k] as int);
            }
            assert(back =~= indices);
        },
        _ => {},
    }
}

/// Inserting an identity into a list adds it and keeps the others.
proof fn lemma_insert_id(sorted: Seq<EffectNodeId>, id: EffectNodeId, any: EffectNodeId)
    ensures
        insert_id(sorted, id).contains(any) <==> sorted.contains(any) || any == id,
        insert_id(sorted, id).len() == sorted.len() + 1,
    decreases sorted.len(),
{
    let all = insert_id(sorted, id);
    if sorted.len() == 0 || sorted.last().0 <= id.0 {
        assert(all[sorted.len() as int] == id);
        if sorted.contains(any) {
            let k = choose|k: int| 0 <= k < sorted.len() && sorted[k] == any;
            assert(all[k] == any);
        }
    } else {
        let front = sorted.drop_last();
        let inner = insert_id(front, id);
        lemma_insert_id(front, id, any);
        assert(all == inner.push(sorted.last()));
        if inner.contains(any) {
            let k = choose|k: int| 0 <= k < inner.len() && inner[k] == any;
            assert(all[k] == any);
        }
        if any == sorted.last() {
            assert(all[inner.len() as int] == any);
        }
        if sorted.contains(any) {
            let k = choose|k: int| 0 <= k < sorted.len() && sorted[k] == any;
            if k < front.len() {
                assert(front[k] == any);
            }
        }
        if front.contains(any) {
            let k = choose|k: int| 0 <= k < front.len() && front[k] == any;
            assert(sorted[k] == any);
        }
        if all.contains(any) {
            let k = choose|k: int| 0 <= k < all.len() && all[k] == any;
            if k < inner.len() {
                assert(inner[k] == any);
            } else {
                assert(sorted[sorted.len() - 1] == any);
            }
        }
    }
}

/// Sorting keeps exactly the listed identities.
proof fn lemma_sorted_ids(ids: Seq<EffectNodeId>, any: EffectNodeId)
    ensures
        sorted_ids(ids).contains(any) <==> ids.contains(any),
        sorted_ids(ids).len() == ids.len(),
    decreases ids.len(),
{
    if ids.len() > 0 {
        let front = ids.drop_last();
        lemma_sorted_ids(front, any);
        lemma_insert_id(sorted_ids(front), ids.last(), any);
        if ids.contains(any) {
            let k = choose|k: int| 0 <= k < ids.len() && ids[k] == any;
            if k < front.len() {
                assert(front[k] == any);
            }
        }
        if front.contains(any) {
            let k = choose|k: int| 0 <= k < front.len() && front[k] == any;
            assert(ids[k] == any);
        }
        assert(any == ids.last() ==> ids[ids.len() - 1] == any);
    }
}

/// Lists saved by ascending node are found again under their nodes.
proof fn lemma_dependencies_of(
    keys: Seq<u64>,
    dependencies: Map<u64, Seq<EffectNodeId>>,
    count: nat,
)
    requires
        count <= keys.len(),
        forall|i: int, j: int| 0 <= i < j < keys.len() ==> (#[trigger] keys[i]) < (
        #[trigger] keys[j]),
    ensures
        ({
            let pairs = keys.map_values(|key: u64| (key, sorted_ids(dependencies[key])));
            let loaded = dependencies_of(pairs, count);
            &&& forall|key: u64| #[trigger]
                loaded.contains_key(key) <==> exists|i: int|
                    0 <= i < count && #[trigger] keys[i] == key
            &&& forall|key: u64| #[trigger]
                loaded.contains_key(key) ==> loaded[key] == sorted_ids(dependencies[key])
        }),
    decreases count,
{
    if count > 0 {
        lemma_dependencies_of(keys, dependencies, (count - 1) as nat);
        let pairs = keys.map_values(|key: u64| (key, sorted_ids(dependencies[key])));
        let before = dependencies_of(pairs, (count - 1) as nat);
        let all = dependencies_of(pairs, count);
        assert forall|key: u64| #[trigger] all.contains_key(key) <==> exists|i: int|
            0 <= i < count && #[trigger] keys[i] == key by {
            if key == keys[count - 1] {
                assert(keys[count - 1] == key);
            } else {
                assert(all.contains_key(key) == before.contains_key(key));
                if before.contains_key(key) {
                    let i = choose|i: int| 0 <= i < count - 1 && #[trigger] keys[i] == key;
                    assert(keys[i] == key);
                }
            }
        }
        assert forall|key: u64| #[trigger] all.contains_key(key) implies all[key] == sorted_ids(
            dependencies[key],
        ) by {
            if key != keys[count - 1] {
                assert(before.contains_key(key));
            }
        }
    }
}

/// Saving and loading an effect graph keeps nodes and edges; each node's list
/// comes back in ascending order.
pub proof fn law_effects_survive_saving(graph: EffectGraphModel)
    requires
        graph.well_formed(),
        graph.acyclic(),
        graph.dependencies.dom().finite(),
    ensures
        effects_fault(saved_effects(graph)) is None,
        loaded_effects(saved_effects(graph)).nodes == graph.nodes,
        loaded_effects(saved_effects(graph)).dependencies.dom() == graph.dependencies.dom(),
        forall|key: u64| #[trigger]
            graph.dependencies.contains_key(key) ==> loaded_effects(
                saved_effects(graph),
            ).dependencies[key] == sorted_ids(graph.dependencies[key]),
        forall|key: u64, id: EffectNodeId|
            graph.dependencies.contains_key(key) ==> (#[trigger] loaded_effects(
                saved_effects(graph),
            ).dependencies[key].contains(id) <==> graph.dependencies[key].contains(id)),
{
    let keys = ascending(graph.dependencies.dom());
    lemma_listing_exists(graph.dependencies.dom());
    assert(lists(keys, graph.dependencies.dom()));
    assert forall|i: int, j: int| 0 <= i < j < keys.len() implies (#[trigger] keys[i]) < (
    #[trigger] keys[j]) by {
    }
    let saved = saved_effects(graph);
    let loaded = loaded_effects(saved);
    lemma_dependencies_of(keys, graph.dependencies, keys.len());
    assert(saved.dependencies =~= keys.map_values(
        |key: u64| (key, sorted_ids(graph.dependencies[key])),
    ));
    assert forall|key: u64| #[trigger] loaded.dependencies.contains_key(
        key,
    ) <==> graph.dependencies.contains_key(key) by {
        if graph.dependencies.contains_key(key) {
            assert(graph.dependencies.dom().contains(key));
            let i = choose|i: int| 0 <= i < keys.len() && keys[i] == key;
            assert(keys[i] == key);
        }
        if loaded.dependencies.contains_key(key) {
            let i = choose|i: int| 0 <= i < keys.len() && #[trigger] keys[i] == key;
            assert(keys.contains(key));
            assert(graph.dependencies.dom().contains(key));
        }
    }
    assert(loaded.dependencies.dom() =~= graph.dependencies.dom());
    assert forall|key: u64, id: EffectNodeId|
        graph.dependencies.contains_key(key) implies (#[trigger] loaded.dependencies[key].contains(
        id,
    ) <==> graph.dependencies[key].contains(id)) by {
        assert(loaded.dependencies.contains_key(key));
        lemma_sorted_ids(graph.dependencies[key], id);
    }
    assert forall|id: EffectNodeId| #[trigger] graph.has_node(id) implies loaded.has_node(id) by {
        let i = choose|i: int| 0 <= i < graph.nodes.len() && (#[trigger] graph.nodes[i]).id == id;
        assert(loaded.nodes[i].id == id);
    }
    assert forall|key: u64| #[trigger]
        loaded.dependencies.contains_key(key) implies loaded.has_node(EffectNodeId(key)) by {
        assert(graph.dependencies.contains_key(key));
        assert(graph.has_node(EffectNodeId(key)));
    }
    assert forall|key: u64, k: int|
        loaded.dependencies.contains_key(key) && 0 <= k
            < loaded.dependencies[key].len() implies loaded.has_node(
        #[trigger] loaded.dependencies[key][k],
    ) by {
        let id = loaded.dependencies[key][k];
        assert(graph.dependencies.contains_key(key));
        assert(loaded.dependencies[key].contains(id));
        let j = choose|j: int|
            0 <= j < graph.dependencies[key].len() && graph.dependencies[key][j] == id;
        assert(graph.has_node(graph.dependencies[key][j]));
    }
    assert forall|i: int, j: int| 0 <= i < j < loaded.nodes.len() implies (
    #[trigger] loaded.nodes[i]).id != (#[trigger] loaded.nodes[j]).id by {
        assert(graph.nodes[i].id != graph.nodes[j].id);
    }
    let level = choose|level: spec_fn(EffectNodeId) -> nat| graph.levelled_by(level);
    assert forall|id: EffectNodeId, k: int| 0 <= k < loaded.reads(id).len() implies level(
        #[trigger] loaded.reads(id)[k],
    ) < level(id) by {
        let read = loaded.reads(id)[k];
        assert(loaded.dependencies.contains_key(id.0));
        assert(graph.dependencies.contains_key(id.0));
        assert(loaded.dependencies[id.0].contains(read));
        let j = choose|j: int|
            0 <= j < graph.dependencies[id.0].len() && graph.dependencies[id.0][j] == read;
        assert(level(graph.reads(id)[j]) < level(id));
    }
    assert(loaded.levelled_by(level));
}

/// Recipes saved by ascending reference are found again under their references.
proof fn lemma_library_survives(
    ranks: Seq<u128>,
    materials: Map<u128, MaterialModel>,
    count: nat,
)
    requires
        count <= ranks.len(),
        library_filed(materials),
        forall|i: int|
            0 <= i < ranks.len() ==> materials.contains_key(#[trigger] ranks[i]),
    ensures
        ({
            let records = ranks.map_values(|rank: u128| materials[rank]);
            let loaded = library_of(records, count);
            &&& forall|rank: u128| #[trigger]
                loaded.contains_key(rank) <==> exists|i: int|
                    0 <= i < count && #[trigger] ranks[i] == rank
            &&& forall|rank: u128| #[trigger]
                loaded.contains_key(rank) ==> loaded[rank] == materials[rank]
        }),
    decreases count,
{
    if count > 0 {
        lemma_library_survives(ranks, materials, (count - 1) as nat);
        let records = ranks.map_values(|rank: u128| materials[rank]);
        let before = library_of(records, (count - 1) as nat);
        let all = library_of(records, count);
        let last = ranks[count - 1];
        assert(materials.contains_key(last));
        assert(records[count - 1].reference.spec_rank() == last);
        assert forall|rank: u128| #[trigger] all.contains_key(rank) <==> exists|i: int|
            0 <= i < count && #[trigger] ranks[i] == rank by {
            if rank == last {
                assert(ranks[count - 1] == rank);
            } else {
                assert(all.contains_key(rank) == before.contains_key(rank));
                if before.contains_key(rank) {
                    let i = choose|i: int| 0 <= i < count - 1 && #[trigger] ranks[i] == rank;
                    assert(ranks[i] == rank);
                }
            }
        }
        assert forall|rank: u128| #[trigger] all.contains_key(rank) implies all[rank]
            == materials[rank] by {
            if before.contains_key(rank) {
                assert(all[rank] == before[rank]);
            }
        }
    }
}

/// Saving leaves nothing to fault in effects and history: a document at rest is
/// refused on loading only for what validation finds.
pub proof fn law_saved_documents_fail_only_validation(document: DocumentModel)
    requires
        document.well_formed(),
        at_rest(document),
        document.effects.dependencies.dom().finite(),
    ensures
        load_fault(saved_document(document)) == archive_fault(saved_document(document)),
{
    law_effects_survive_saving(document.effects);
    let archive = saved_document(document);
    assert(archive.strokes.len() == document.strokes.len());
    lemma_saved_history_has_no_fault(document, document.undo, document.undo.len());
    lemma_saved_history_has_no_fault(document, document.redo, document.redo.len());
}

/// A document that passes validation comes back from saving and loading with
/// the same geometry, strokes, layers, materials, effects, history and extent.
///
/// Only derived state starts anew: no stroke is in the live overlay, and every
/// visible stroke waits for the tile cache.
pub proof fn law_saved_documents_load_back(document: DocumentModel)
    requires
        document.well_formed(),
        at_rest(document),
        document.strokes.len() <= usize::MAX,
        document.effects.dependencies.dom().finite(),
        document.materials.dom().finite(),
        archive_fault(saved_document(document)) is None,
    ensures
        load_fault(saved_document(document)) is None,
        ({
            let loaded = loaded_document(saved_document(document));
            &&& loaded.points == document.points
            &&& loaded.segments == document.segments
            &&& loaded.strokes.len() == document.strokes.len()
            &&& forall|i: int|
                0 <= i < document.strokes.len() ==> same_stroke(
                    #[trigger] loaded.strokes[i],
                    document.strokes[i],
                )
            &&& forall|i: int|
                0 <= i < document.strokes.len() ==> loaded.lookup.contains_key(
                    (#[trigger] document.strokes[i]).id.0,
                ) && loaded.lookup[document.strokes[i].id.0] == i
            &&& loaded.layers == document.layers
            &&& loaded.active_layer == document.active_layer
            &&& loaded.materials == document.materials
            &&& loaded.effects.nodes == document.effects.nodes
            &&& loaded.effects.dependencies.dom() == document.effects.dependencies.dom()
            &&& loaded.undo == document.undo
            &&& loaded.redo == document.redo
            &&& loaded.canvas_size == document.canvas_size
            &&& loaded.tile_size == document.tile_size
            &&& loaded.revision == (if document.revision == 0 { 1 } else { document.revision })
            &&& loaded.overlay == Set::<usize>::empty()
            &&& loaded.active == document.active
            &&& loaded.next_stroke >= document.next_stroke
            &&& loaded.next_layer >= document.next_layer
        }),
{
    let archive = saved_document(document);
    let loaded = loaded_document(archive);
    law_saved_documents_fail_only_validation(document);
    law_effects_survive_saving(document.effects);
    assert forall|a: int, b: int| 0 <= a < b < document.strokes.len() implies (
    #[trigger] document.strokes[a]).id != (#[trigger] document.strokes[b]).id by {
        lemma_no_stroke_fault(archive, archive.strokes.len(), b);
        assert(archive.strokes[a].id != archive.strokes[b].id);
    }
    assert forall|a: int, b: int| 0 <= a < b < archive.strokes.len() implies (
    #[trigger] archive.strokes[a]).id != (#[trigger] archive.strokes[b]).id by {
        assert(document.strokes[a].id != document.strokes[b].id);
    }
    assert(loaded.segments =~= document.segments);
    assert(loaded.layers =~= document.layers);
    assert forall|i: int| 0 <= i < document.strokes.len() implies same_stroke(
        #[trigger] loaded.strokes[i],
        document.strokes[i],
    ) by {
        assert(document.strokes[i].complete);
    }
    assert forall|i: int| 0 <= i < document.strokes.len() implies loaded.lookup.contains_key(
        (#[trigger] document.strokes[i]).id.0,
    ) && loaded.lookup[document.strokes[i].id.0] == i by {
        lemma_lookup_finds(archive.strokes, archive.strokes.len(), i);
    }
    assert forall|k: int| 0 <= k < document.undo.len() implies loaded.undo[k]
        == document.undo[k] by {
        assert(document.command_in_range(document.undo[k]));
        lemma_command_survives(document, document.undo[k]);
    }
    assert(loaded.undo =~= document.undo);
    assert forall|k: int| 0 <= k < document.redo.len() implies loaded.redo[k]
        == document.redo[k] by {
        assert(document.command_in_range(document.redo[k]));
        lemma_command_survives(document, document.redo[k]);
    }
    assert(loaded.redo =~= document.redo);
    let ranks = ascending(document.materials.dom());
    lemma_listing_exists(document.materials.dom());
    assert forall|i: int| 0 <= i < ranks.len() implies document.materials.contains_key(
        #[trigger] ranks[i],
    ) by {
        assert(ranks.contains(ranks[i]));
        assert(document.materials.dom().contains(ranks[i]));
    }
    lemma_library_survives(ranks, document.materials, ranks.len());
    assert(archive.materials =~= ranks.map_values(|rank: u128| document.materials[rank]));
    assert forall|rank: u128| #[trigger] loaded.materials.contains_key(
        rank,
    ) <==> document.materials.contains_key(rank) by {
        if document.materials.contains_key(rank) {
            assert(document.materials.dom().contains(rank));
            let i = choose|i: int| 0 <= i < ranks.len() && ranks[i] == rank;
            assert(ranks[i] == rank);
        }
    }
    assert(loaded.materials =~= document.materials);
    assert(loaded.active =~= document.active) by {
        assert(document.active =~= Map::empty());
    }
}

/// Whether every number of a document is in the range that saved documents allow, and
/// every brush paints with a recipe of the document.
pub open spec fn values_in_range(document: DocumentModel) -> bool {
    &&& forall|i: int|
        0 <= i < document.points.len() ==> point_valid(#[trigger] document.points[i])
    &&& forall|i: int|
        0 <= i < document.layers.len() ==> (#[trigger] document.layers[i]).opacity.finite()
    &&& forall|i: int|
        0 <= i < document.strokes.len() ==> stroke_values_in_range(
            document,
            #[trigger] document.strokes[i],
        )
}

/// Whether the bounds of a stroke are finite and ordered, its brush is finite and its
/// recipe is one of the document.
pub open spec fn stroke_values_in_range(document: DocumentModel, stroke: StrokeModel) -> bool {
    &&& stroke.bounds.min.finite()
    &&& stroke.bounds.max.finite()
    &&& !stroke.bounds.max.x.below(stroke.bounds.min.x)
    &&& !stroke.bounds.max.y.below(stroke.bounds.min.y)
    &&& stroke.brush.diameter.finite()
    &&& stroke.brush.minimum_diameter_ratio.finite()
    &&& stroke.brush.pressure_gamma.finite()
    &&& stroke.brush.flow.finite()
    &&& document.materials.contains_key(stroke.brush.paint.spec_rank())
}

proof fn lemma_strokes_pass(archive: ArchiveModel, count: nat)
    requires
        forall|i: int| 0 <= i < count ==> #[trigger] stroke_fault(archive, i) is None,
    ensures
        strokes_fault(archive, count) is None,
    decreases count,
{
    if count > 0 {
        lemma_strokes_pass(archive, (count - 1) as nat);
        assert(stroke_fault(archive, count - 1) is None);
    }
}

/// Saved layers pass validation.
proof fn lemma_saved_layers_pass(document: DocumentModel)
    requires
        document.coherent(),
        values_in_range(document),
    ensures
        layers_valid(saved_document(document)),
        knows_layer(saved_document(document), document.active_layer.0),
{
    let archive = saved_document(document);
    assert forall|i: int| 0 <= i < archive.layers.len() implies (
    #[trigger] archive.layers[i]).valid() by {
        assert(layer_in_order(document.picture().layers[i], document.next_layer));
        assert(document.layers[i].opacity.finite());
    }
    assert forall|i: int, j: int| 0 <= i < j < archive.layers.len() implies (
    #[trigger] archive.layers[i]).id != (#[trigger] archive.layers[j]).id by {
        assert(document.picture().layers[i].id != document.picture().layers[j].id);
    }
    lemma_layer_position(document.layers, document.active_layer);
    let active = layer_position(document.layers, document.active_layer);
    assert(archive.layers[active].id == document.active_layer.0);
}

/// Saved recipes pass validation, and those that strokes paint with are found.
proof fn lemma_saved_materials_pass(document: DocumentModel)
    requires
        document.well_formed(),
        document.materials.dom().finite(),
    ensures
        materials_distinct(saved_document(document)),
        forall|reference: PaintMaterialRef|
            document.materials.contains_key(#[trigger] reference.spec_rank()) ==> knows_material(
                saved_document(document),
                reference,
            ),
{
    let archive = saved_document(document);
    let ranks = ascending(document.materials.dom());
    lemma_listing_exists(document.materials.dom());
    assert forall|i: int| 0 <= i < ranks.len() implies archive.materials[i].reference.spec_rank()
        == #[trigger] ranks[i] by {
        assert(ranks.contains(ranks[i]));
        assert(document.materials.dom().contains(ranks[i]));
        assert(document.materials.contains_key(ranks[i]));
    }
    assert forall|i: int, j: int| 0 <= i < j < archive.materials.len() implies (
    #[trigger] archive.materials[i]).reference != (#[trigger] archive.materials[j]).reference by {
        assert(ranks[i] < ranks[j]);
    }
    assert forall|reference: PaintMaterialRef|
        document.materials.contains_key(#[trigger] reference.spec_rank()) implies knows_material(
        archive,
        reference,
    ) by {
        assert(document.materials.dom().contains(reference.spec_rank()));
        let i = choose|i: int| 0 <= i < ranks.len() && ranks[i] == reference.spec_rank();
        assert(archive.materials[i].reference.spec_rank() == ranks[i]);
        lemma_material_rank_injective(archive.materials[i].reference, reference);
    }
}

/// Saving keeps which layers commands add.
proof fn lemma_saved_adds(
    commands: Seq<CommandModel>,
    strokes: Seq<StrokeModel>,
    id: LayerId,
)
    requires
        adds_layer(commands, id),
    ensures
        creates_layer(saved_commands(commands, strokes), id.0),
{
    let k = choose|k: int|
        0 <= k < commands.len() && layer_added_by(#[trigger] commands[k]) == Some(id);
    let saved = saved_commands(commands, strokes);
    assert(saved[k] == saved_command(commands[k], strokes));
    assert(layer_created(saved[k]) == Some(id.0));
}

/// Layers that are accounted for are remembered once a document was saved.
proof fn lemma_saved_layer_remembered(document: DocumentModel, first: u32, id: LayerId)
    requires
        document.layers_added_from(first),
        document.layer_accounted(first, id),
        id.0 < document.next_layer,
    ensures
        remembers_layer(saved_document(document), id.0),
{
    let archive = saved_document(document);
    if has_layer(document.layers, id) {
        lemma_layer_position(document.layers, id);
        assert(archive.layers[layer_position(document.layers, id)].id == id.0);
    } else {
        assert forall|i: int| 0 <= i < archive.layers.len() implies (
        #[trigger] archive.layers[i]).id < id.0 || creates_layer(
            archive.undo,
            archive.layers[i].id,
        ) by {
            let layer = document.layers[i].id;
            assert(archive.layers[i].id == layer.0);
            lemma_layer_found(document.layers, i);
            assert(layer.0 < first || adds_layer(document.undo, layer));
            if adds_layer(document.undo, layer) {
                lemma_saved_adds(document.undo, document.strokes, layer);
            }
        }
    }
}

/// Saved strokes pass validation.
proof fn lemma_saved_strokes_pass(document: DocumentModel)
    requires
        document.well_formed(),
        document.coherent(),
        values_in_range(document),
        document.materials.dom().finite(),
    ensures
        strokes_fault(saved_document(document), document.strokes.len()) is None,
{
    let archive = saved_document(document);
    let first = choose|first: u32| document.layers_added_from(first);
    lemma_saved_materials_pass(document);
    assert forall|i: int| 0 <= i < document.strokes.len() implies #[trigger] stroke_fault(
        archive,
        i,
    ) is None by {
        let stroke = document.strokes[i];
        let saved = archive.strokes[i];
        assert(saved == ArchiveStroke::saved(stroke));
        assert(document.stroke_in_range(stroke));
        assert(document.owns_geometry(stroke));
        assert(stroke_values_in_range(document, stroke));
        assert(saved.brush.reference() == stroke.brush.paint);
        assert(knows_material(archive, stroke.brush.paint));
        lemma_saved_layer_remembered(document, first, stroke.layer);
        assert forall|j: int| 0 <= j < i implies (#[trigger] archive.strokes[j]).id
            != saved.id by {
            assert(document.strokes[j].id.0 < document.strokes[i].id.0);
        }
        assert(stroke_valid(archive, i));
        assert forall|s: int|
            saved.first_segment <= s < saved.first_segment
                + saved.segment_count implies segment_owned(
            #[trigger] archive.segments[s],
            saved,
        ) by {
            assert(document.segments[s] == own_segment(stroke, s - stroke.first_segment));
        }
        assert(stroke_owns_segments(archive, i));
    }
    lemma_strokes_pass(archive, document.strokes.len());
}

/// A drawn document whose numbers are in range passes validation once it was saved,
/// with hidden strokes, strokes on layers that were taken back, and all of its history.
pub proof fn law_drawn_documents_pass_validation(document: DocumentModel)
    requires
        document.well_formed(),
        document.coherent(),
        values_in_range(document),
        document.materials.dom().finite(),
    ensures
        archive_fault(saved_document(document)) is None,
{
    let archive = saved_document(document);
    let first = choose|first: u32| document.layers_added_from(first);
    lemma_saved_layers_pass(document);
    lemma_saved_materials_pass(document);
    lemma_saved_strokes_pass(document);
    assert forall|i: int| 0 <= i < archive.points.len() implies point_valid(
        #[trigger] archive.points[i],
    ) by {
        assert(point_valid(document.points[i]));
    }
    assert forall|s: int| 0 <= s < archive.segments.len() implies segment_valid(
        archive,
        #[trigger] archive.segments[s],
    ) by {
        assert(document.segments[s].start < document.points.len());
        assert(document.segments[s].layer.0 < document.next_layer);
        lemma_saved_layer_remembered(document, first, document.segments[s].layer);
    }
    assert(archive.strokes.len() == document.strokes.len());
}

/// Loading the saved form of a drawn document with numbers in range succeeds without
/// migration, and brings back layers, geometry, strokes with their visibility, recipes,
/// effects, history and extent. What comes back is coherent again.
pub proof fn law_drawn_documents_load_back(document: DocumentModel)
    requires
        document.well_formed(),
        document.coherent(),
        document.active.is_empty(),
        values_in_range(document),
        document.strokes.len() <= usize::MAX,
        document.effects.dependencies.dom().finite(),
        document.materials.dom().finite(),
    ensures
        payload_fault(saved_document(document)) is None,
        migrated(saved_document(document)) == saved_document(document),
        saved_document(document).schema_version == DOCUMENT_SCHEMA_VERSION,
        ({
            let loaded = loaded_document(saved_document(document));
            &&& loaded.coherent()
            &&& loaded.points == document.points
            &&& loaded.segments == document.segments
            &&& loaded.strokes.len() == document.strokes.len()
            &&& forall|i: int|
                0 <= i < document.strokes.len() ==> same_stroke(
                    #[trigger] loaded.strokes[i],
                    document.strokes[i],
                )
            &&& loaded.layers == document.layers
            &&& loaded.active_layer == document.active_layer
            &&& loaded.canvas_size == document.canvas_size
            &&& loaded.materials == document.materials
            &&& loaded.effects.nodes == document.effects.nodes
            &&& forall|key: u64, id: EffectNodeId|
                document.effects.dependencies.contains_key(key) ==> (
                #[trigger] loaded.effects.dependencies[key].contains(id)
                    <==> document.effects.dependencies[key].contains(id))
            &&& loaded.undo == document.undo
            &&& loaded.redo == document.redo
        }),
{
    let archive = saved_document(document);
    let loaded = loaded_document(archive);
    assert forall|i: int| 0 <= i < document.strokes.len() implies (
    #[trigger] document.strokes[i]).complete by {
        if !document.strokes[i].complete {
            assert(document.is_contact(i));
        }
    }
    law_drawn_documents_pass_validation(document);
    law_current_documents_migrate_to_themselves(archive);
    law_saved_documents_load_back(document);
    law_effects_survive_saving(document.effects);
    assert(loaded.picture() == document.picture()) by {
        assert forall|i: int| loaded.picture().shown.contains(i)
            <==> document.picture().shown.contains(i) by {
            if 0 <= i < document.strokes.len() {
                assert(same_stroke(loaded.strokes[i], document.strokes[i]));
            }
        }
        assert(loaded.picture().shown =~= document.picture().shown);
    }
    lemma_retraceable_further(
        document.picture(),
        document.undo,
        false,
        document.next_layer,
        loaded.next_layer,
    );
    lemma_retraceable_further(
        document.picture(),
        document.redo,
        true,
        document.next_layer,
        loaded.next_layer,
    );
    assert(loaded.consistent_history());
    lemma_loaded_in_order(document, loaded);
}

/// Strokes that kept identity, ranges and style stay apart and in order.
proof fn lemma_loaded_in_order(document: DocumentModel, loaded: DocumentModel)
    requires
        document.coherent(),
        loaded.segments == document.segments,
        loaded.strokes.len() == document.strokes.len(),
        forall|i: int|
            0 <= i < document.strokes.len() ==> same_stroke(
                #[trigger] loaded.strokes[i],
                document.strokes[i],
            ),
        loaded.layers == document.layers,
        loaded.active_layer == document.active_layer,
        loaded.tile_size == document.tile_size,
        loaded.next_stroke >= document.next_stroke,
        loaded.next_layer >= document.next_layer,
        loaded.undo == document.undo,
        loaded.redo == document.redo,
    ensures
        loaded.numbers_in_order(),
        loaded.strokes_apart(),
        loaded.layers_accounted(),
{
    assert forall|i: int| 0 <= i < loaded.strokes.len() implies (#[trigger] loaded.strokes[i]).layer
        == document.strokes[i].layer by {
        assert(same_stroke(loaded.strokes[i], document.strokes[i]));
    }
    lemma_accounted_kept(document, loaded);
    assert forall|i: int| 0 <= i < loaded.strokes.len() implies loaded.owns_geometry(
        #[trigger] loaded.strokes[i],
    ) by {
        let (a, b) = (document.strokes[i], loaded.strokes[i]);
        assert(same_stroke(b, a));
        assert(document.owns_geometry(a));
        assert forall|s: int|
            b.first_segment <= s < b.first_segment
                + b.segment_count implies #[trigger] loaded.segments[s] == own_segment(
            b,
            s - b.first_segment,
        ) by {
            assert(document.segments[s] == own_segment(a, s - a.first_segment));
        }
    }
    assert forall|i: int, j: int| 0 <= i < j < loaded.strokes.len() implies (
    #[trigger] loaded.strokes[i]).id.0 < (#[trigger] loaded.strokes[j]).id.0 && drawn_apart(
        loaded.strokes[i],
        loaded.strokes[j],
    ) by {
        assert(same_stroke(loaded.strokes[i], document.strokes[i]));
        assert(same_stroke(loaded.strokes[j], document.strokes[j]));
        assert(drawn_apart(document.strokes[i], document.strokes[j]));
    }
    assert forall|i: int| 0 <= i < loaded.strokes.len() implies (
    #[trigger] loaded.strokes[i]).layer.0 < loaded.next_layer && loaded.strokes[i].id.0
        < loaded.next_stroke by {
        assert(same_stroke(loaded.strokes[i], document.strokes[i]));
    }
}

} // verus!
