//! Loading a saved document and reporting what it needs but cannot find.
use crate::archive::{ArchiveDocument, ArchiveModel, DOCUMENT_SCHEMA_VERSION};
use crate::coherence::lemma_derived_coherent;
use crate::document::{coverage_models, StrokeDocument};
use crate::effects::{EffectDescriptor, EffectId, EffectRegistry};
use crate::errors::{DocumentIoError, ErrorModel};
use crate::ordered::{ascending, lists, ordered_keys};
use crate::paint::{PaintMaterialRef, PaintModelDescriptor, PaintModelId, PaintModelRegistry};
use crate::restore::{covers_archive, load_fault, loaded_document};
use crate::state::DocumentModel;
use crate::strokes::{stroke_models, StrokeCoverage, TileInvalidationCause};
use crate::validate::{migrate_archive, migrated};
use std::collections::BTreeMap;
use vstd::prelude::*;

verus! {

broadcast use vstd::laws_cmp::group_laws_cmp;

/// A model/effect implementation needed by a loaded document is unavailable.
/// The authoritative opaque records remain intact so the file can be resaved.
#[allow(inconsistent_fields)]
#[derive(Clone, Copy, Debug, PartialEq, Eq, Hash, Structural)]
pub enum DocumentCompatibilityIssue {
    /// No model of the identity is registered.
    PaintModelUnavailable {
        /// Model that a recipe or stroke names.
        model: PaintModelId,
        /// Version that it needs.
        required_version: u32,
    },
    /// The model is registered in another version.
    PaintModelVersionMismatch {
        /// Model that a recipe or stroke names.
        model: PaintModelId,
        /// Version that it needs.
        required_version: u32,
        /// Version that is registered.
        available_version: u32,
    },
    /// No effect of the identity is registered.
    EffectUnavailable {
        /// Effect that a node names.
        effect: EffectId,
        /// Version that it needs.
        required_version: u32,
    },
    /// The effect is registered in another version.
    EffectVersionMismatch {
        /// Effect that a node names.
        effect: EffectId,
        /// Version that it needs.
        required_version: u32,
        /// Version that is registered.
        available_version: u32,
    },
}

impl DocumentCompatibilityIssue {
    /// Position in the report: by what is missing, then identity, then version.
    pub open spec fn rank(self) -> u128 {
        match self {
            DocumentCompatibilityIssue::PaintModelUnavailable { model, required_version } => {
                (model.0 * 0x1_0000_0000 + required_version) as u128
            },
            DocumentCompatibilityIssue::PaintModelVersionMismatch {
                model,
                required_version,
                ..
            } => (0x1_0000_0000_0000_0000 + model.0 * 0x1_0000_0000 + required_version) as u128,
            DocumentCompatibilityIssue::EffectUnavailable { effect, required_version } => {
                (0x2_0000_0000_0000_0000 + effect.0 * 0x1_0000_0000 + required_version) as u128
            },
            DocumentCompatibilityIssue::EffectVersionMismatch { effect, required_version, .. } => {
                (0x3_0000_0000_0000_0000 + effect.0 * 0x1_0000_0000 + required_version) as u128
            },
        }
    }

    fn sort_rank(self) -> (rank: u128)
        ensures
            rank == self.rank(),
    {
        match self {
            DocumentCompatibilityIssue::PaintModelUnavailable { model, required_version } => {
                model.0 as u128 * 0x1_0000_0000 + required_version as u128
            },
            DocumentCompatibilityIssue::PaintModelVersionMismatch {
                model,
                required_version,
                ..
            } => 0x1_0000_0000_0000_0000 + model.0 as u128 * 0x1_0000_0000 + required_version as u128,
            DocumentCompatibilityIssue::EffectUnavailable { effect, required_version } => {
                0x2_0000_0000_0000_0000 + effect.0 as u128 * 0x1_0000_0000
                    + required_version as u128
            },
            DocumentCompatibilityIssue::EffectVersionMismatch { effect, required_version, .. } => {
                0x3_0000_0000_0000_0000 + effect.0 as u128 * 0x1_0000_0000
                    + required_version as u128
            },
        }
    }
}

/// What stands against replaying a paint reference, if anything.
pub open spec fn model_issue(
    models: Map<u64, PaintModelDescriptor>,
    reference: PaintMaterialRef,
) -> Option<DocumentCompatibilityIssue> {
    if !models.contains_key(reference.model.0 as u64) {
        Some(
            DocumentCompatibilityIssue::PaintModelUnavailable {
                model: reference.model,
                required_version: reference.model_version,
            },
        )
    } else if models[reference.model.0 as u64].version != reference.model_version {
        Some(
            DocumentCompatibilityIssue::PaintModelVersionMismatch {
                model: reference.model,
                required_version: reference.model_version,
                available_version: models[reference.model.0 as u64].version,
            },
        )
    } else {
        None
    }
}

/// What stands against running an effect node, if anything.
pub open spec fn effect_issue(
    effects: Map<u64, EffectDescriptor>,
    effect: EffectId,
    version: u32,
) -> Option<DocumentCompatibilityIssue> {
    if !effects.contains_key(effect.0 as u64) {
        Some(DocumentCompatibilityIssue::EffectUnavailable { effect, required_version: version })
    } else if effects[effect.0 as u64].implementation_version != version {
        Some(
            DocumentCompatibilityIssue::EffectVersionMismatch {
                effect,
                required_version: version,
                available_version: effects[effect.0 as u64].implementation_version,
            },
        )
    } else {
        None
    }
}

/// Whether some recipe, stroke or effect node of the document raises the issue.
pub open spec fn raises(
    document: DocumentModel,
    models: Map<u64, PaintModelDescriptor>,
    effects: Map<u64, EffectDescriptor>,
    issue: DocumentCompatibilityIssue,
) -> bool {
    ||| exists|rank: u128| #[trigger]
        document.materials.contains_key(rank) && model_issue(
            models,
            document.materials[rank].reference,
        ) == Some(issue)
    ||| exists|i: int|
        0 <= i < document.strokes.len() && model_issue(
            models,
            (#[trigger] document.strokes[i]).brush.paint,
        ) == Some(issue)
    ||| exists|i: int|
        0 <= i < document.effects.nodes.len() && effect_issue(
            effects,
            (#[trigger] document.effects.nodes[i]).effect,
            document.effects.nodes[i].implementation_version,
        ) == Some(issue)
}

/// Issues with one rank, raised under one pair of registries, are the same.
proof fn lemma_issue_rank(
    models: Map<u64, PaintModelDescriptor>,
    effects: Map<u64, EffectDescriptor>,
    a: DocumentCompatibilityIssue,
    b: DocumentCompatibilityIssue,
)
    requires
        a.rank() == b.rank(),
        raisable(models, effects, a),
        raisable(models, effects, b),
    ensures
        a == b,
{
}

/// Whether the registries can raise the issue for some reference or node.
spec fn raisable(
    models: Map<u64, PaintModelDescriptor>,
    effects: Map<u64, EffectDescriptor>,
    issue: DocumentCompatibilityIssue,
) -> bool {
    match issue {
        DocumentCompatibilityIssue::PaintModelVersionMismatch { model, available_version, .. } => {
            models[model.0 as u64].version == available_version
        },
        DocumentCompatibilityIssue::EffectVersionMismatch { effect, available_version, .. } => {
            effects[effect.0 as u64].implementation_version == available_version
        },
        _ => true,
    }
}

/// State of the collection: filed by rank, all raisable, all satisfying `from`.
spec fn collected(
    issues: Map<u128, DocumentCompatibilityIssue>,
    models: Map<u64, PaintModelDescriptor>,
    effects: Map<u64, EffectDescriptor>,
    document: DocumentModel,
) -> bool {
    forall|rank: u128| #[trigger]
        issues.contains_key(rank) ==> {
            &&& issues[rank].rank() == rank
            &&& raisable(models, effects, issues[rank])
            &&& raises(document, models, effects, issues[rank])
        }
}

/// Whether an issue, where there is one, was collected.
spec fn has_issue(
    issues: Map<u128, DocumentCompatibilityIssue>,
    issue: Option<DocumentCompatibilityIssue>,
) -> bool {
    issue matches Some(found) ==> issues.contains_key(found.rank()) && issues[found.rank()]
        == found
}

fn issue_of_reference(
    models: &PaintModelRegistry,
    reference: PaintMaterialRef,
) -> (issue: Option<DocumentCompatibilityIssue>)
    requires
        models.well_formed(),
    ensures
        issue == model_issue(models@, reference),
{
    match models.get(reference.model) {
        None => Some(
            DocumentCompatibilityIssue::PaintModelUnavailable {
                model: reference.model,
                required_version: reference.model_version,
            },
        ),
        Some(model) => if model.version != reference.model_version {
            Some(
                DocumentCompatibilityIssue::PaintModelVersionMismatch {
                    model: reference.model,
                    required_version: reference.model_version,
                    available_version: model.version,
                },
            )
        } else {
            None
        },
    }
}

fn issue_of_node(
    effects: &EffectRegistry,
    effect: EffectId,
    version: u32,
) -> (issue: Option<DocumentCompatibilityIssue>)
    requires
        effects.well_formed(),
    ensures
        issue == effect_issue(effects@, effect, version),
{
    match effects.get(effect) {
        None => Some(
            DocumentCompatibilityIssue::EffectUnavailable { effect, required_version: version },
        ),
        Some(descriptor) => if descriptor.implementation_version != version {
            Some(
                DocumentCompatibilityIssue::EffectVersionMismatch {
                    effect,
                    required_version: version,
                    available_version: descriptor.implementation_version,
                },
            )
        } else {
            None
        },
    }
}

fn collect_issue(
    issues: &mut BTreeMap<u128, DocumentCompatibilityIssue>,
    issue: Option<DocumentCompatibilityIssue>,
    models: &PaintModelRegistry,
    effects: &EffectRegistry,
    document: &StrokeDocument,
)
    requires
        collected(old(issues)@, models@, effects@, document@),
        issue matches Some(found) ==> raisable(models@, effects@, found) && raises(
            document@,
            models@,
            effects@,
            found,
        ),
    ensures
        collected(final(issues)@, models@, effects@, document@),
        has_issue(final(issues)@, issue),
        forall|other: Option<DocumentCompatibilityIssue>| #[trigger]
            has_issue(old(issues)@, other) ==> has_issue(final(issues)@, other),
{
    let ghost before = issues@;
    match issue {
        None => {},
        Some(found) => {
            let rank: u128 = found.sort_rank();
            issues.insert(rank, found);
            proof {
                assert forall|other: Option<DocumentCompatibilityIssue>| #[trigger] has_issue(
                    before,
                    other,
                ) implies has_issue(issues@, other) by {
                    if other is Some && other->0.rank() == rank {
                        assert(before.contains_key(rank));
                        lemma_issue_rank(models@, effects@, other->0, found);
                    }
                }
            }
        },
    }
}

impl StrokeDocument {
    /// Reports unavailable/newer implementations while retaining every opaque record.
    pub fn compatibility_issues(
        &self,
        paint_models: &PaintModelRegistry,
        effects: &EffectRegistry,
    ) -> (issues: Vec<DocumentCompatibilityIssue>)
        requires
            self.well_formed(),
            paint_models.well_formed(),
            effects.well_formed(),
        ensures
            forall|issue: DocumentCompatibilityIssue| #[trigger]
                issues@.contains(issue) <==> raises(self@, paint_models@, effects@, issue),
            forall|i: int, j: int|
                0 <= i < j < issues@.len() ==> (#[trigger] issues@[i]).rank() < (
                #[trigger] issues@[j]).rank(),
    {
        let ghost models = paint_models@;
        let mut found: BTreeMap<u128, DocumentCompatibilityIssue> = BTreeMap::new();
        let ghost ranks = ascending(self@.materials.dom());
        let records = self.paint_materials().iter();
        for i in 0..records.len()
            invariant
                paint_models.well_formed(),
                models == paint_models@,
                ranks == ascending(self@.materials.dom()),
                lists(ranks, self@.materials.dom()),
                records@.len() == ranks.len(),
                forall|j: int|
                    0 <= j < records@.len() ==> (#[trigger] records@[j])@ == self@.materials[
                        ranks[j]
                    ],
                collected(found@, models, effects@, self@),
                forall|j: int|
                    0 <= j < i ==> has_issue(
                        found@,
                        model_issue(models, self@.materials[#[trigger] ranks[j]].reference),
                    ),
        {
            assert(ranks.contains(ranks[i as int]));
            assert(self@.materials.dom().contains(ranks[i as int]));
            assert(self@.materials.contains_key(ranks[i as int]));
            let issue = issue_of_reference(paint_models, records[i].reference);
            collect_issue(&mut found, issue, paint_models, effects, self);
        }
        let strokes = self.strokes();
        for i in 0..strokes.len()
            invariant
                paint_models.well_formed(),
                models == paint_models@,
                stroke_models(strokes@) == self@.strokes,
                collected(found@, models, effects@, self@),
                forall|j: int|
                    0 <= j < ranks.len() ==> has_issue(
                        found@,
                        model_issue(models, self@.materials[#[trigger] ranks[j]].reference),
                    ),
                forall|j: int|
                    0 <= j < i ==> has_issue(
                        found@,
                        model_issue(models, (#[trigger] self@.strokes[j]).brush.paint),
                    ),
        {
            assert(stroke_models(strokes@)[i as int] == strokes@[i as int]@);
            let issue = issue_of_reference(paint_models, strokes[i].brush.paint);
            collect_issue(&mut found, issue, paint_models, effects, self);
        }
        let nodes = self.effects().nodes();
        for i in 0..nodes.len()
            invariant
                effects.well_formed(),
                models == paint_models@,
                crate::effects::node_models(nodes@) == self@.effects.nodes,
                collected(found@, models, effects@, self@),
                forall|j: int|
                    0 <= j < ranks.len() ==> has_issue(
                        found@,
                        model_issue(models, self@.materials[#[trigger] ranks[j]].reference),
                    ),
                forall|j: int|
                    0 <= j < self@.strokes.len() ==> has_issue(
                        found@,
                        model_issue(models, (#[trigger] self@.strokes[j]).brush.paint),
                    ),
                forall|j: int|
                    0 <= j < i ==> has_issue(
                        found@,
                        effect_issue(
                            effects@,
                            (#[trigger] self@.effects.nodes[j]).effect,
                            self@.effects.nodes[j].implementation_version,
                        ),
                    ),
        {
            assert(crate::effects::node_models(nodes@)[i as int] == nodes@[i as int]@);
            assert(self@.effects.nodes[i as int].effect == nodes@[i as int].effect);
            let issue = issue_of_node(effects, nodes[i].effect, nodes[i].implementation_version);
            collect_issue(&mut found, issue, paint_models, effects, self);
        }
        let keys = ordered_keys(&found);
        let mut issues: Vec<DocumentCompatibilityIssue> = Vec::new();
        for i in 0..keys.len()
            invariant
                lists(keys@, found@.dom()),
                collected(found@, models, effects@, self@),
                issues@.len() == i,
                forall|j: int| 0 <= j < i ==> #[trigger] issues@[j] == found@[keys@[j]],
        {
            assert(keys@.contains(keys@[i as int]));
            assert(found@.dom().contains(keys@[i as int]));
            match found.get(&keys[i]) {
                Some(issue) => issues.push(*issue),
                None => {},
            }
        }
        proof {
            assert forall|j: int| 0 <= j < issues@.len() implies found@.contains_key(keys@[j])
                && (#[trigger] issues@[j]).rank() == keys@[j] by {
                assert(keys@.contains(keys@[j]));
                assert(found@.dom().contains(keys@[j]));
            }
            assert forall|issue: DocumentCompatibilityIssue| #[trigger] issues@.contains(
                issue,
            ) <==> raises(self@, models, effects@, issue) by {
                if issues@.contains(issue) {
                    let j = choose|j: int| 0 <= j < issues@.len() && issues@[j] == issue;
                    assert(found@.contains_key(keys@[j]));
                }
                if raises(self@, models, effects@, issue) {
                    lemma_raised_is_found(self@, models, effects@, found@, ranks, issue);
                    assert(found@.dom().contains(issue.rank()));
                    let j = choose|j: int| 0 <= j < keys@.len() && keys@[j] == issue.rank();
                    assert(issues@[j] == issue);
                }
            }
        }
        issues
    }
}

/// Whatever the document raises was collected.
proof fn lemma_raised_is_found(
    document: DocumentModel,
    models: Map<u64, PaintModelDescriptor>,
    effects: Map<u64, EffectDescriptor>,
    found: Map<u128, DocumentCompatibilityIssue>,
    ranks: Seq<u128>,
    issue: DocumentCompatibilityIssue,
)
    requires
        lists(ranks, document.materials.dom()),
        forall|j: int|
            0 <= j < ranks.len() ==> has_issue(
                found,
                model_issue(models, document.materials[#[trigger] ranks[j]].reference),
            ),
        forall|j: int|
            0 <= j < document.strokes.len() ==> has_issue(
                found,
                model_issue(models, (#[trigger] document.strokes[j]).brush.paint),
            ),
        forall|j: int|
            0 <= j < document.effects.nodes.len() ==> has_issue(
                found,
                effect_issue(
                    effects,
                    (#[trigger] document.effects.nodes[j]).effect,
                    document.effects.nodes[j].implementation_version,
                ),
            ),
        raises(document, models, effects, issue),
    ensures
        found.contains_key(issue.rank()),
        found[issue.rank()] == issue,
{
    if exists|rank: u128| #[trigger]
        document.materials.contains_key(rank) && model_issue(
            models,
            document.materials[rank].reference,
        ) == Some(issue) {
        let rank = choose|rank: u128| #[trigger]
            document.materials.contains_key(rank) && model_issue(
                models,
                document.materials[rank].reference,
            ) == Some(issue);
        assert(document.materials.dom().contains(rank));
        let j = choose|j: int| 0 <= j < ranks.len() && ranks[j] == rank;
        assert(has_issue(found, model_issue(models, document.materials[ranks[j]].reference)));
    } else if exists|i: int|
        0 <= i < document.strokes.len() && model_issue(
            models,
            (#[trigger] document.strokes[i]).brush.paint,
        ) == Some(issue) {
        let i = choose|i: int|
            0 <= i < document.strokes.len() && model_issue(
                models,
                (#[trigger] document.strokes[i]).brush.paint,
            ) == Some(issue);
        assert(has_issue(found, model_issue(models, document.strokes[i].brush.paint)));
    } else {
        let i = choose|i: int|
            0 <= i < document.effects.nodes.len() && effect_issue(
                effects,
                (#[trigger] document.effects.nodes[i]).effect,
                document.effects.nodes[i].implementation_version,
            ) == Some(issue);
        assert(has_issue(
            found,
            effect_issue(
                effects,
                document.effects.nodes[i].effect,
                document.effects.nodes[i].implementation_version,
            ),
        ));
    }
}

/// Successfully loaded document plus non-destructive compatibility diagnostics.
#[derive(Debug)]
pub struct LoadedStrokeDocument {
    /// The loaded document.
    pub document: StrokeDocument,
    /// Schema version of the payload.
    pub source_schema_version: u32,
    /// Schema version that the payload was migrated from, if it was.
    pub migrated_from: Option<u32>,
    /// What the document needs but cannot find.
    pub compatibility_issues: Vec<DocumentCompatibilityIssue>,
}

/// Why a decoded payload is refused, if it is.
pub open spec fn payload_fault(archive: ArchiveModel) -> Option<ErrorModel> {
    if archive.schema_version > DOCUMENT_SCHEMA_VERSION {
        Some(
            ErrorModel::UnsupportedSchema {
                found: archive.schema_version,
                supported: DOCUMENT_SCHEMA_VERSION,
            },
        )
    } else if archive.schema_version == 0 {
        Some(ErrorModel::InvalidDocument("missing document schema version"@))
    } else {
        match load_fault(migrated(archive)) {
            Some(fault) => Some(ErrorModel::InvalidDocument(fault)),
            None => None,
        }
    }
}

impl StrokeDocument {
    /// Migrates, validates and rebuilds a decoded payload without touching any
    /// existing document.
    ///
    /// `coverage` names the tiles under each saved stroke and its segments; it is
    /// not read where the payload is refused.
    pub fn load_archive(
        archive: ArchiveDocument,
        coverage: &Vec<StrokeCoverage>,
        paint_models: &PaintModelRegistry,
        effects: &EffectRegistry,
    ) -> (result: Result<LoadedStrokeDocument, DocumentIoError>)
        requires
            paint_models.well_formed(),
            effects.well_formed(),
            payload_fault(archive@) is None ==> covers_archive(
                migrated(archive@),
                coverage_models(coverage@),
            ),
        ensures
            match payload_fault(archive@) {
                Some(fault) => result matches Err(error) && error@ == fault,
                None => {
                    &&& result matches Ok(loaded)
                    &&& loaded.document.well_formed()
                    &&& loaded.document@ == loaded_document(migrated(archive@)).recovered(
                        coverage_models(coverage@),
                    ).invalidated_all(TileInvalidationCause::CacheLayout)
                    &&& loaded.source_schema_version == archive@.schema_version
                    &&& loaded.migrated_from == (if archive@.schema_version
                        == DOCUMENT_SCHEMA_VERSION {
                        None
                    } else {
                        Some(archive@.schema_version)
                    })
                    &&& forall|issue: DocumentCompatibilityIssue| #[trigger]
                        loaded.compatibility_issues@.contains(issue) <==> raises(
                            loaded.document@,
                            paint_models@,
                            effects@,
                            issue,
                        )
                    &&& forall|i: int, j: int|
                        0 <= i < j < loaded.compatibility_issues@.len() ==> (
                        #[trigger] loaded.compatibility_issues@[i]).rank() < (
                        #[trigger] loaded.compatibility_issues@[j]).rank()
                    &&& loaded_document(migrated(archive@)).coherent()
                        ==> loaded.document@.coherent()
                },
            },
    {
        let ghost decoded = archive@;
        let mut archive = archive;
        let source_schema_version: u32 = archive.schema_version;
        let migrated_from = match migrate_archive(&mut archive) {
            Ok(version) => version,
            Err(error) => {
                return Err(error);
            },
        };
        let document = match archive.into_document(coverage) {
            Ok(document) => document,
            Err(error) => {
                return Err(error);
            },
        };
        let compatibility_issues = document.compatibility_issues(paint_models, effects);
        proof {
            let plain = loaded_document(migrated(decoded));
            if plain.coherent() {
                lemma_derived_coherent(plain, document@);
            }
        }
        Ok(
            LoadedStrokeDocument {
                document,
                source_schema_version,
                migrated_from,
                compatibility_issues,
            },
        )
    }
}

} // verus!
