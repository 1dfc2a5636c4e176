//! Rebuilding a document from its saved form.
use crate::archive::{
    archive_command_models, ArchiveCommandModel, ArchiveDocument, ArchiveEffects,
    ArchiveEffectsModel, ArchiveHistoryCommand, ArchiveLayerModel, ArchiveModel, ArchiveSegment,
    ArchiveStroke,
};
use crate::document::{coverage_models, DocumentParts, StrokeDocument};
use crate::effects::{
    dependency_models, lemma_identity_above, node_models, EffectGraph, EffectGraphModel, EffectNode,
    EffectNodeId,
};
use crate::errors::{DocumentIoError, ErrorModel};
use crate::geometry::LayerId;
use crate::paint::{library_filed, library_with, MaterialModel, PaintMaterialLibrary};
use crate::state::{CoverageModel, DocumentModel};
use crate::strokes::{
    command_models, layer_models, stroke_models, CanvasLayer, CommandModel, HistoryCommand,
    StrokeCoverage, StrokeId, StrokeMetadata, StrokeSegment, TileInvalidationCause,
};
use crate::validate::{
    archive_fault, layer_above, lemma_no_stroke_fault, next_layer_number, segment_valid,
    validate_archive,
};
use std::collections::BTreeMap;
use vstd::prelude::*;

verus! {

broadcast use vstd::laws_cmp::group_laws_cmp;

/// Position of each of the first `count` saved strokes by identity number.
pub open spec fn lookup_of(strokes: Seq<ArchiveStroke>, count: nat) -> Map<u64, usize>
    decreases count,
{
    if count == 0 {
        Map::empty()
    } else {
        lookup_of(strokes, (count - 1) as nat).insert(
            strokes[count - 1].id,
            (count - 1) as usize,
        )
    }
}

/// Smallest number above all stroke identities, as far as 64 bits reach.
pub open spec fn stroke_above(strokes: Seq<ArchiveStroke>, count: nat) -> u64
    decreases count,
{
    if count == 0 {
        0
    } else {
        let before = stroke_above(strokes, (count - 1) as nat);
        let last = strokes[count - 1].id.saturating_add(1);
        if before < last { last } else { before }
    }
}

/// The recipes of the first `count` saved records.
pub open spec fn library_of(records: Seq<MaterialModel>, count: nat) -> Map<u128, MaterialModel>
    decreases count,
{
    if count == 0 {
        Map::empty()
    } else {
        library_with(library_of(records, (count - 1) as nat), records[count - 1])
    }
}

/// The dependency lists of the first `count` saved pairs; a later pair of the
/// same node wins.
pub open spec fn dependencies_of(
    pairs: Seq<(u64, Seq<EffectNodeId>)>,
    count: nat,
) -> Map<u64, Seq<EffectNodeId>>
    decreases count,
{
    if count == 0 {
        Map::empty()
    } else {
        dependencies_of(pairs, (count - 1) as nat).insert(
            pairs[count - 1].0,
            pairs[count - 1].1,
        )
    }
}

/// The effect graph that a saved form stands for.
pub open spec fn loaded_effects(effects: ArchiveEffectsModel) -> EffectGraphModel {
    EffectGraphModel {
        revision: if effects.revision == 0 { 1 } else { effects.revision },
        next_node: {
            let above = EffectGraphModel::identity_above(effects.nodes);
            if effects.next_node < above { above } else { effects.next_node }
        },
        nodes: effects.nodes,
        dependencies: dependencies_of(effects.dependencies, effects.dependencies.len()),
    }
}

/// What is wrong with a saved effect graph, if anything.
pub open spec fn effects_fault(effects: ArchiveEffectsModel) -> Option<Seq<char>> {
    let graph = loaded_effects(effects);
    if !graph.distinct_nodes() {
        Some("effect graph contains duplicate node ids"@)
    } else if !graph.known_dependencies() {
        Some("effect graph contains an unknown dependency id"@)
    } else if !graph.acyclic() {
        Some("effect graph contains a cycle"@)
    } else {
        None
    }
}

/// What is wrong with a saved history command, if anything.
pub open spec fn command_fault(
    command: ArchiveCommandModel,
    lookup: Map<u64, usize>,
) -> Option<Seq<char>> {
    match command {
        ArchiveCommandModel::AddStroke(id) => if lookup.contains_key(id) {
            None
        } else {
            Some("history references an unknown stroke"@)
        },
        ArchiveCommandModel::Clear(ids) => if forall|k: int|
            0 <= k < ids.len() ==> lookup.contains_key(#[trigger] ids[k]) {
            None
        } else {
            Some("clear history references an unknown stroke"@)
        },
        _ => None,
    }
}

/// What is wrong with the first faulty of the first `count` saved commands.
pub open spec fn history_fault(
    commands: Seq<ArchiveCommandModel>,
    lookup: Map<u64, usize>,
    count: nat,
) -> Option<Seq<char>>
    decreases count,
{
    if count == 0 {
        None
    } else {
        match history_fault(commands, lookup, (count - 1) as nat) {
            Some(fault) => Some(fault),
            None => command_fault(commands[count - 1], lookup),
        }
    }
}

/// The history command that a saved form stands for.
pub open spec fn loaded_command(
    command: ArchiveCommandModel,
    lookup: Map<u64, usize>,
) -> CommandModel {
    match command {
        ArchiveCommandModel::AddStroke(id) => CommandModel::AddStroke(lookup[id]),
        ArchiveCommandModel::Clear(ids) => CommandModel::Clear(
            ids.map_values(|id: u64| lookup[id]),
        ),
        ArchiveCommandModel::Resize { before, after } => CommandModel::Resize { before, after },
        ArchiveCommandModel::AddLayer { layer, index } => CommandModel::AddLayer {
            layer: layer.loaded(),
            index,
        },
        ArchiveCommandModel::LayerVisibility { layer, before, after } => {
            CommandModel::LayerVisibility { layer: LayerId(layer), before, after }
        },
        ArchiveCommandModel::LayerOpacity { layer, before, after } => CommandModel::LayerOpacity {
            layer: LayerId(layer),
            before,
            after,
        },
        ArchiveCommandModel::LayerMove { layer, before, after } => CommandModel::LayerMove {
            layer: LayerId(layer),
            before,
            after,
        },
        ArchiveCommandModel::LayerRename { layer, before, after } => CommandModel::LayerRename {
            layer: LayerId(layer),
            before,
            after,
        },
    }
}

/// The history that a saved list of commands stands for.
pub open spec fn loaded_commands(
    commands: Seq<ArchiveCommandModel>,
    lookup: Map<u64, usize>,
) -> Seq<CommandModel> {
    commands.map_values(|command: ArchiveCommandModel| loaded_command(command, lookup))
}

/// What keeps a saved document from being loaded, if anything.
pub open spec fn load_fault(archive: ArchiveModel) -> Option<Seq<char>> {
    let lookup = lookup_of(archive.strokes, archive.strokes.len());
    match archive_fault(archive) {
        Some(fault) => Some(fault),
        None => match effects_fault(archive.effects) {
            Some(fault) => Some(fault),
            None => match history_fault(archive.undo, lookup, archive.undo.len()) {
                Some(fault) => Some(fault),
                None => history_fault(archive.redo, lookup, archive.redo.len()),
            },
        },
    }
}

/// The revision that a loaded document starts from.
pub open spec fn loaded_revision(archive: ArchiveModel) -> u64 {
    if archive.revision == 0 { 1 } else { archive.revision }
}

/// The document that a saved form stands for, before its tiles are known.
pub open spec fn loaded_document(archive: ArchiveModel) -> DocumentModel {
    let lookup = lookup_of(archive.strokes, archive.strokes.len());
    let revision = loaded_revision(archive);
    DocumentModel {
        points: archive.points,
        segments: archive.segments.map_values(|segment: ArchiveSegment| segment.loaded()),
        strokes: archive.strokes.map_values(|stroke: ArchiveStroke| stroke.loaded(revision)),
        lookup,
        active: Map::empty(),
        overlay: Set::empty(),
        index: Map::empty(),
        invalidations: Seq::empty(),
        undo: loaded_commands(archive.undo, lookup),
        redo: loaded_commands(archive.redo, lookup),
        layers: archive.layers.map_values(|layer: ArchiveLayerModel| layer.loaded()),
        active_layer: LayerId(archive.active_layer),
        next_layer: {
            let above = layer_above(archive.layers);
            if archive.next_layer < above { above } else { archive.next_layer }
        },
        layer_revision: 1,
        effects: loaded_effects(archive.effects),
        materials: library_of(archive.materials, archive.materials.len()),
        next_stroke: {
            let above = stroke_above(archive.strokes, archive.strokes.len());
            if archive.next_stroke < above { above } else { archive.next_stroke }
        },
        revision,
        contact_generation: 1,
        geometry_generation: 1,
        tile_size: archive.tile_size,
        effect_radius_px: 0,
        canvas_size: archive.canvas_size,
    }
}

/// Coverage has one entry per saved stroke with one span per segment.
pub open spec fn covers_archive(archive: ArchiveModel, coverage: Seq<CoverageModel>) -> bool {
    &&& coverage.len() == archive.strokes.len()
    &&& forall|i: int|
        0 <= i < archive.strokes.len() ==> (#[trigger] coverage[i]).segments.len()
            == archive.strokes[i].segment_count
}

fn restore_command(
    command: &ArchiveHistoryCommand,
    lookup: &BTreeMap<u64, usize>,
) -> (result: Result<HistoryCommand, DocumentIoError>)
    ensures
        match command_fault(command@, lookup@) {
            Some(fault) => result matches Err(error) && error@ == ErrorModel::InvalidDocument(
                fault,
            ),
            None => result matches Ok(restored) && restored@ == loaded_command(command@, lookup@),
        },
{
    match command {
        ArchiveHistoryCommand::AddStroke(id) => match lookup.get(id) {
            Some(index) => Ok(HistoryCommand::AddStroke(*index)),
            None => Err(
                DocumentIoError::InvalidDocument(
                    "history references an unknown stroke".to_owned(),
                ),
            ),
        },
        ArchiveHistoryCommand::Clear(ids) => {
            let mut indices: Vec<usize> = Vec::new();
            for k in 0..ids.len()
                invariant
                    command@ == ArchiveCommandModel::Clear(ids@),
                    forall|j: int| 0 <= j < k ==> lookup@.contains_key(#[trigger] ids@[j]),
                    indices@ == ids@.take(k as int).map_values(|id: u64| lookup@[id]),
            {
                match lookup.get(&ids[k]) {
                    Some(index) => indices.push(*index),
                    None => {
                        assert(!lookup@.contains_key(ids@[k as int]));
                        return Err(
                            DocumentIoError::InvalidDocument(
                                "clear history references an unknown stroke".to_owned(),
                            ),
                        );
                    },
                }
                assert(indices@ =~= ids@.take(k + 1).map_values(|id: u64| lookup@[id]));
            }
            assert(ids@.take(ids@.len() as int) =~= ids@);
            Ok(HistoryCommand::Clear(indices))
        },
        ArchiveHistoryCommand::Resize { before, after } => Ok(
            HistoryCommand::Resize { before: *before, after: *after },
        ),
        ArchiveHistoryCommand::AddLayer { layer, index } => Ok(
            HistoryCommand::AddLayer { layer: layer.to_layer(), index: *index },
        ),
        ArchiveHistoryCommand::LayerVisibility { layer, before, after } => Ok(
            HistoryCommand::LayerVisibility {
                layer: LayerId(*layer),
                before: *before,
                after: *after,
            },
        ),
        ArchiveHistoryCommand::LayerOpacity { layer, before, after } => Ok(
            HistoryCommand::LayerOpacity {
                layer: LayerId(*layer),
                before: *before,
                after: *after,
            },
        ),
        ArchiveHistoryCommand::LayerMove { layer, before, after } => Ok(
            HistoryCommand::LayerMove { layer: LayerId(*layer), before: *before, after: *after },
        ),
        ArchiveHistoryCommand::LayerRename { layer, before, after } => Ok(
            HistoryCommand::LayerRename {
                layer: LayerId(*layer),
                before: before.clone(),
                after: after.clone(),
            },
        ),
    }
}

/// Restores saved history commands, finding strokes by their identities.
pub fn restore_history(
    commands: &Vec<ArchiveHistoryCommand>,
    lookup: &BTreeMap<u64, usize>,
) -> (result: Result<Vec<HistoryCommand>, DocumentIoError>)
    ensures
        match history_fault(archive_command_models(commands@), lookup@, commands@.len()) {
            Some(fault) => result matches Err(error) && error@ == ErrorModel::InvalidDocument(
                fault,
            ),
            None => result matches Ok(restored) && command_models(restored@) == loaded_commands(
                archive_command_models(commands@),
                lookup@,
            ),
        },
{
    let ghost saved = archive_command_models(commands@);
    let mut restored: Vec<HistoryCommand> = Vec::new();
    for k in 0..commands.len()
        invariant
            saved == archive_command_models(commands@),
            history_fault(saved, lookup@, k as nat) is None,
            restored@.len() == k,
            forall|j: int|
                0 <= j < k ==> (#[trigger] restored@[j])@ == loaded_command(saved[j], lookup@),
    {
        assert(saved[k as int] == commands@[k as int]@);
        match restore_command(&commands[k], lookup) {
            Ok(command) => restored.push(command),
            Err(error) => {
                proof {
                    lemma_history_fault_stays(
                        saved,
                        lookup@,
                        (k + 1) as nat,
                        saved.len(),
                    );
                }
                return Err(error);
            },
        }
        assert(history_fault(saved, lookup@, (k + 1) as nat) is None);
    }
    assert(command_models(restored@) =~= loaded_commands(saved, lookup@));
    Ok(restored)
}

proof fn lemma_history_fault_stays(
    commands: Seq<ArchiveCommandModel>,
    lookup: Map<u64, usize>,
    i: nat,
    count: nat,
)
    requires
        i <= count,
        history_fault(commands, lookup, i) is Some,
    ensures
        history_fault(commands, lookup, count) == history_fault(commands, lookup, i),
    decreases count,
{
    if i < count {
        lemma_history_fault_stays(commands, lookup, i, (count - 1) as nat);
    }
}

/// Where no command is faulty, none of them is.
proof fn lemma_no_command_fault(
    commands: Seq<ArchiveCommandModel>,
    lookup: Map<u64, usize>,
    count: nat,
    k: int,
)
    requires
        history_fault(commands, lookup, count) is None,
        0 <= k < count,
    ensures
        command_fault(commands[k], lookup) is None,
    decreases count,
{
    if k < count - 1 {
        lemma_no_command_fault(commands, lookup, (count - 1) as nat, k);
    }
}

impl ArchiveEffects {
    /// The effect graph that the saved form stands for.
    pub fn to_graph(&self) -> (result: Result<EffectGraph, DocumentIoError>)
        ensures
            match effects_fault(self@) {
                Some(fault) => result matches Err(error) && error@ == ErrorModel::InvalidDocument(
                    fault,
                ),
                None => result matches Ok(graph) && graph.well_formed() && graph@
                    == loaded_effects(self@),
            },
    {
        let mut nodes: Vec<EffectNode> = Vec::new();
        for i in 0..self.nodes.len()
            invariant
                nodes@.len() == i,
                forall|j: int| 0 <= j < i ==> (#[trigger] nodes@[j])@ == self.nodes@[j]@,
        {
            nodes.push(self.nodes[i].clone());
        }
        assert(node_models(nodes@) =~= self@.nodes);
        let ghost pairs = self@.dependencies;
        let mut dependencies: BTreeMap<u64, Vec<EffectNodeId>> = BTreeMap::new();
        assert(dependency_models(dependencies@) =~= dependencies_of(pairs, 0));
        for i in 0..self.dependencies.len()
            invariant
                pairs == self@.dependencies,
                dependency_models(dependencies@) == dependencies_of(pairs, i as nat),
        {
            let pair = &self.dependencies[i];
            assert(pairs[i as int] == (pair.0, pair.1@));
            let mut list: Vec<EffectNodeId> = Vec::new();
            for k in 0..pair.1.len()
                invariant
                    list@ == pair.1@.take(k as int),
            {
                list.push(pair.1[k]);
                assert(list@ =~= pair.1@.take(k + 1));
            }
            assert(list@ =~= pair.1@);
            let ghost before = dependency_models(dependencies@);
            dependencies.insert(pair.0, list);
            assert(dependency_models(dependencies@) =~= before.insert(pair.0, pair.1@));
        }
        match EffectGraph::from_persistence_parts(
            self.revision,
            self.next_node,
            nodes,
            dependencies,
        ) {
            Ok(graph) => Ok(graph),
            Err(message) => Err(DocumentIoError::InvalidDocument(message.to_owned())),
        }
    }
}

/// Looked-up positions belong to the strokes with those identities.
proof fn lemma_lookup(strokes: Seq<ArchiveStroke>, count: nat)
    requires
        count <= strokes.len(),
        strokes.len() <= usize::MAX,
    ensures
        forall|id: u64| #[trigger]
            lookup_of(strokes, count).contains_key(id) ==> {
                &&& lookup_of(strokes, count)[id] < count
                &&& strokes[lookup_of(strokes, count)[id] as int].id == id
            },
        forall|i: int|
            0 <= i < count ==> lookup_of(strokes, count).contains_key(
                (#[trigger] strokes[i]).id,
            ),
    decreases count,
{
    if count > 0 {
        lemma_lookup(strokes, (count - 1) as nat);
        let before = lookup_of(strokes, (count - 1) as nat);
        let all = lookup_of(strokes, count);
        assert forall|id: u64| #[trigger] all.contains_key(id) implies all[id] < count
            && strokes[all[id] as int].id == id by {
            if id != strokes[count - 1].id {
                assert(before.contains_key(id));
            }
        }
        assert forall|i: int| 0 <= i < count implies all.contains_key(
            (#[trigger] strokes[i]).id,
        ) by {
            if i < count - 1 {
                assert(before.contains_key(strokes[i].id));
            }
        }
    }
}

/// Every recipe of a library built from records is filed under its own rank.
proof fn lemma_library_of(records: Seq<MaterialModel>, count: nat)
    requires
        count <= records.len(),
    ensures
        library_filed(library_of(records, count)),
        forall|rank: u128| #[trigger]
            library_of(records, count).contains_key(rank) <==> exists|i: int|
                0 <= i < count && (#[trigger] records[i]).reference.spec_rank() == rank,
    decreases count,
{
    if count > 0 {
        lemma_library_of(records, (count - 1) as nat);
        let before = library_of(records, (count - 1) as nat);
        let all = library_of(records, count);
        let last = records[count - 1].reference.spec_rank();
        assert forall|rank: u128| #[trigger] all.contains_key(rank) <==> exists|i: int|
            0 <= i < count && (#[trigger] records[i]).reference.spec_rank() == rank by {
            if rank == last {
                assert(records[count - 1].reference.spec_rank() == rank);
            } else {
                assert(all.contains_key(rank) == before.contains_key(rank));
                if before.contains_key(rank) {
                    let i = choose|i: int|
                        0 <= i < count - 1 && (#[trigger] records[i]).reference.spec_rank()
                            == rank;
                    assert(records[i].reference.spec_rank() == rank);
                }
            }
        }
    }
}

/// A loadable document is well formed.
proof fn lemma_loaded(archive: ArchiveModel)
    requires
        load_fault(archive) is None,
        archive.strokes.len() <= usize::MAX,
    ensures
        loaded_document(archive).well_formed(),
        forall|i: int|
            0 <= i < archive.strokes.len() ==> (#[trigger] loaded_document(
                archive,
            ).strokes[i]).complete,
{
    let document = loaded_document(archive);
    let lookup = lookup_of(archive.strokes, archive.strokes.len());
    lemma_lookup(archive.strokes, archive.strokes.len());
    assert forall|s: int| 0 <= s < document.segments.len() implies {
        &&& (#[trigger] document.segments[s]).start < document.points.len()
        &&& document.segments[s].end < document.points.len()
    } by {
        assert(segment_valid(archive, archive.segments[s]));
    }
    assert forall|i: int| 0 <= i < document.strokes.len() implies document.stroke_in_range(
        #[trigger] document.strokes[i],
    ) by {
        lemma_no_stroke_fault(archive, archive.strokes.len(), i);
    }
    assert forall|id: u64| #[trigger] document.lookup.contains_key(id) implies {
        &&& document.lookup[id] < document.strokes.len()
        &&& document.strokes[document.lookup[id] as int].id == StrokeId(id)
    } by {
    }
    assert(document.contacts_own_geometry()) by {
        assert forall|i: int| 0 <= i < document.strokes.len() implies (
        #[trigger] document.strokes[i]).complete by {
        }
    }
    assert(document.effects.counter_ahead()) by {
        lemma_identity_above(document.effects.nodes);
        if !document.effects.has_node(EffectNodeId(u64::MAX)) {
            assert forall|i: int| 0 <= i < document.effects.nodes.len() implies (
            #[trigger] document.effects.nodes[i]).id.0 < document.effects.next_node by {
                assert(document.effects.nodes[i].id != EffectNodeId(u64::MAX));
            }
        }
    }
    lemma_loaded_history(archive, archive.undo);
    lemma_loaded_history(archive, archive.redo);
    lemma_library_of(archive.materials, archive.materials.len());
}

/// Loaded commands name strokes of the loaded document.
proof fn lemma_loaded_history(archive: ArchiveModel, commands: Seq<ArchiveCommandModel>)
    requires
        archive.strokes.len() <= usize::MAX,
        history_fault(
            commands,
            lookup_of(archive.strokes, archive.strokes.len()),
            commands.len(),
        ) is None,
    ensures
        ({
            let lookup = lookup_of(archive.strokes, archive.strokes.len());
            forall|k: int|
                0 <= k < commands.len() ==> loaded_document(archive).command_in_range(
                    #[trigger] loaded_commands(commands, lookup)[k],
                )
        }),
{
    let document = loaded_document(archive);
    let lookup = lookup_of(archive.strokes, archive.strokes.len());
    lemma_lookup(archive.strokes, archive.strokes.len());
    assert forall|k: int| 0 <= k < commands.len() implies document.command_in_range(
        #[trigger] loaded_commands(commands, lookup)[k],
    ) by {
        lemma_no_command_fault(commands, lookup, commands.len(), k);
        match commands[k] {
            ArchiveCommandModel::AddStroke(id) => {
                assert(lookup.contains_key(id));
                assert(document.strokes[lookup[id] as int].complete);
            },
            ArchiveCommandModel::Clear(ids) => {
                let indices = ids.map_values(|id: u64| lookup[id]);
                assert forall|j: int| 0 <= j < indices.len() implies (#[trigger] indices[j])
                    < document.strokes.len() && document.strokes[indices[j] as int].complete by {
                    assert(lookup.contains_key(ids[j]));
                }
            },
            _ => {},
        }
    }
}

impl ArchiveDocument {
    /// Validates the saved form and rebuilds the document from it.
    ///
    /// `coverage` names the tiles under each saved stroke and its segments; it is
    /// not read where the saved form is refused.
    pub fn into_document(self, coverage: &Vec<StrokeCoverage>) -> (result: Result<
        StrokeDocument,
        DocumentIoError,
    >)
        requires
            load_fault(self@) is None ==> covers_archive(self@, coverage_models(coverage@)),
        ensures
            match load_fault(self@) {
                Some(fault) => result matches Err(error) && error@ == ErrorModel::InvalidDocument(
                    fault,
                ),
                None => {
                    &&& result matches Ok(document)
                    &&& document.well_formed()
                    &&& document@ == loaded_document(self@).recovered(
                        coverage_models(coverage@),
                    ).invalidated_all(TileInvalidationCause::CacheLayout)
                },
            },
    {
        let ghost archive = self@;
        match validate_archive(&self) {
            Ok(_) => {},
            Err(error) => {
                return Err(error);
            },
        }
        let effects = match self.effects.to_graph() {
            Ok(graph) => graph,
            Err(error) => {
                return Err(error);
            },
        };
        let mut lookup: BTreeMap<u64, usize> = BTreeMap::new();
        assert(lookup@ =~= lookup_of(archive.strokes, 0));
        let revision: u64 = if self.revision == 0 { 1 } else { self.revision };
        let mut strokes: Vec<StrokeMetadata> = Vec::new();
        let mut above: u64 = 0;
        for i in 0..self.strokes.len()
            invariant
                archive == self@,
                revision == loaded_revision(archive),
                lookup@ == lookup_of(archive.strokes, i as nat),
                above == stroke_above(archive.strokes, i as nat),
                strokes@.len() == i,
                forall|j: int|
                    0 <= j < i ==> (#[trigger] strokes@[j])@ == archive.strokes[j].loaded(
                        revision,
                    ),
        {
            lookup.insert(self.strokes[i].id, i);
            let next: u64 = self.strokes[i].id.saturating_add(1);
            if above < next {
                above = next;
            }
            strokes.push(self.strokes[i].into_stroke(revision));
        }
        assert(stroke_models(strokes@) =~= loaded_document(archive).strokes);
        let undo = match restore_history(&self.undo, &lookup) {
            Ok(commands) => commands,
            Err(error) => {
                return Err(error);
            },
        };
        let redo = match restore_history(&self.redo, &lookup) {
            Ok(commands) => commands,
            Err(error) => {
                return Err(error);
            },
        };
        let mut segments: Vec<StrokeSegment> = Vec::new();
        for i in 0..self.segments.len()
            invariant
                archive == self@,
                segments@.len() == i,
                forall|j: int|
                    0 <= j < i ==> #[trigger] segments@[j] == archive.segments[j].loaded(),
        {
            segments.push(self.segments[i].into_segment());
        }
        assert(segments@ =~= loaded_document(archive).segments);
        let mut layers: Vec<CanvasLayer> = Vec::new();
        for i in 0..self.layers.len()
            invariant
                archive == self@,
                layers@.len() == i,
                forall|j: int| 0 <= j < i ==> (#[trigger] layers@[j])@ == archive.layers[j].loaded(),
        {
            assert(archive.layers[i as int] == self.layers@[i as int]@);
            layers.push(self.layers[i].to_layer());
        }
        assert(layer_models(layers@) =~= loaded_document(archive).layers);
        let mut paint_materials = PaintMaterialLibrary::new();
        for i in 0..self.materials.len()
            invariant
                archive == self@,
                paint_materials.well_formed(),
                paint_materials@ == library_of(archive.materials, i as nat),
        {
            assert(archive.materials[i as int] == self.materials@[i as int]@);
            let _ = paint_materials.add(self.materials[i].clone());
        }
        let layer_number: u32 = next_layer_number(&self.layers);
        let ghost spans = coverage_models(coverage@);
        assert(self.strokes.len() == archive.strokes.len());
        let parts = DocumentParts {
            points: self.points,
            segments,
            strokes,
            stroke_lookup: lookup,
            undo,
            redo,
            layers,
            active_layer: LayerId(self.active_layer),
            next_layer: if self.next_layer < layer_number { layer_number } else { self.next_layer },
            effects,
            paint_materials,
            next_stroke: if self.next_stroke < above { above } else { self.next_stroke },
            revision,
            tile_size: self.tile_size,
            canvas_size: self.canvas_size,
        };
        proof {
            assert(load_fault(archive) is None);
            assert(parts.model() =~= loaded_document(archive));
            lemma_loaded(archive);
            assert forall|i: int|
                0 <= i < parts.model().strokes.len() && (
                #[trigger] parts.model().strokes[i]).complete implies parts.model().covers_stroke(
                i,
                spans[i],
            ) by {
                assert(spans[i].segments.len() == archive.strokes[i].segment_count);
            }
        }
        Ok(StrokeDocument::from_parts(parts, coverage))
    }
}

} // verus!
