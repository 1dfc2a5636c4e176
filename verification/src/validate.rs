//! Migration and validation of saved documents.
use crate::archive::{
    archive_command_models, archive_layer_models, ArchiveCommandModel, ArchiveDocument,
    ArchiveHistoryCommand, ArchiveLayer, ArchiveLayerModel, ArchiveModel, ArchiveSegment,
    ArchiveStroke, DOCUMENT_SCHEMA_VERSION,
};
use crate::errors::{DocumentIoError, ErrorModel};
use crate::paint::{lemma_material_rank_injective, MaterialModel, PaintMaterialRef};
use crate::scalar::Scalar;
use crate::strokes::StrokePoint;
use crate::text::same_text;
use std::collections::BTreeSet;
use vstd::prelude::*;

verus! {

broadcast use vstd::laws_cmp::group_laws_cmp;

/// Smallest number above all layer identities, as far as 32 bits reach.
pub open spec fn layer_above(layers: Seq<ArchiveLayerModel>) -> u32
    decreases layers.len(),
{
    if layers.len() == 0 {
        1
    } else {
        let last = layers.last().id.saturating_add(1);
        if layers.len() == 1 {
            last
        } else {
            let before = layer_above(layers.drop_last());
            if before < last { last } else { before }
        }
    }
}

/// Smallest number above all layer identities, as far as 32 bits reach.
pub fn next_layer_number(layers: &Vec<ArchiveLayer>) -> (next: u32)
    ensures
        next == layer_above(archive_layer_models(layers@)),
{
    let mut above: u32 = 1;
    for i in 0..layers.len()
        invariant
            above == layer_above(archive_layer_models(layers@).take(i as int)),
    {
        let next: u32 = layers[i].id.saturating_add(1);
        proof {
            let longer = archive_layer_models(layers@).take(i + 1);
            assert(longer.drop_last() =~= archive_layer_models(layers@).take(i as int));
            assert(longer.last() == layers@[i as int]@);
        }
        if i == 0 || above < next {
            above = next;
        }
    }
    assert(archive_layer_models(layers@).take(layers@.len() as int) =~= archive_layer_models(
        layers@,
    ));
    above
}

/// The layers of a first-version document: a plain one where none was saved.
pub open spec fn first_version_layers(layers: Seq<ArchiveLayerModel>) -> Seq<ArchiveLayerModel> {
    if layers.len() == 0 {
        seq![
            ArchiveLayerModel {
                id: 0,
                name: "Paint"@,
                opacity: Scalar::one(),
                composite: 0,
                visible: true,
            },
        ]
    } else {
        layers
    }
}

/// A saved document raised from an earlier schema version to the current one.
pub open spec fn migrated(archive: ArchiveModel) -> ArchiveModel {
    if archive.schema_version == 1 {
        let layers = first_version_layers(archive.layers);
        ArchiveModel {
            layers,
            active_layer: layers[0].id,
            next_layer: layer_above(layers),
            schema_version: DOCUMENT_SCHEMA_VERSION,
            ..archive
        }
    } else {
        ArchiveModel { schema_version: DOCUMENT_SCHEMA_VERSION, ..archive }
    }
}

/// Raises a saved document to the current schema version; returns the version
/// it came from where that was an earlier one.
pub fn migrate_archive(archive: &mut ArchiveDocument) -> (result: Result<
    Option<u32>,
    DocumentIoError,
>)
    ensures
        if old(archive)@.schema_version > DOCUMENT_SCHEMA_VERSION {
            &&& result matches Err(error)
            &&& error@ == (ErrorModel::UnsupportedSchema {
                found: old(archive)@.schema_version,
                supported: DOCUMENT_SCHEMA_VERSION,
            })
            &&& final(archive)@ == old(archive)@
        } else if old(archive)@.schema_version == 0 {
            &&& result matches Err(error)
            &&& error@ == ErrorModel::InvalidDocument("missing document schema version"@)
            &&& final(archive)@ == old(archive)@
        } else {
            &&& result == Ok::<Option<u32>, DocumentIoError>(
                if old(archive)@.schema_version == DOCUMENT_SCHEMA_VERSION {
                    None
                } else {
                    Some(old(archive)@.schema_version)
                },
            )
            &&& final(archive)@ == migrated(old(archive)@)
        },
{
    let ghost before = archive@;
    if archive.schema_version > DOCUMENT_SCHEMA_VERSION {
        return Err(
            DocumentIoError::UnsupportedSchema {
                found: archive.schema_version,
                supported: DOCUMENT_SCHEMA_VERSION,
            },
        );
    }
    if archive.schema_version == 0 {
        return Err(
            DocumentIoError::InvalidDocument("missing document schema version".to_owned()),
        );
    }
    let source: u32 = archive.schema_version;
    if archive.schema_version == 1 {
        if archive.layers.len() == 0 {
            archive.layers.push(
                ArchiveLayer {
                    id: 0,
                    name: "Paint".to_owned(),
                    opacity: Scalar::one(),
                    composite: 0,
                    visible: true,
                },
            );
        }
        assert(archive@.layers =~= first_version_layers(before.layers));
        assert(archive@.layers[0] == archive.layers@[0]@);
        archive.active_layer = archive.layers[0].id;
        archive.next_layer = next_layer_number(&archive.layers);
        archive.schema_version = 2;
    }
    if archive.schema_version == 2 {
        archive.schema_version = 3;
    }
    if source == archive.schema_version {
        Ok(None)
    } else {
        Ok(Some(source))
    }
}

/// Whether some layer has the identity number.
pub open spec fn knows_layer(archive: ArchiveModel, id: u32) -> bool {
    exists|i: int| 0 <= i < archive.layers.len() && (#[trigger] archive.layers[i]).id == id
}

/// Whether one of the commands creates the layer with the identity number.
pub open spec fn creates_layer(commands: Seq<ArchiveCommandModel>, id: u32) -> bool {
    exists|k: int|
        0 <= k < commands.len() && layer_created(#[trigger] commands[k]) == Some(id)
}

/// Identity number of the layer that a command creates.
pub open spec fn layer_created(command: ArchiveCommandModel) -> Option<u32> {
    match command {
        ArchiveCommandModel::AddLayer { layer, .. } => Some(layer.id),
        _ => None,
    }
}

/// Whether the layers that are there without a command to undo all came before the one
/// with the identity number.
pub open spec fn added_since(archive: ArchiveModel, id: u32) -> bool {
    forall|i: int|
        0 <= i < archive.layers.len() ==> (#[trigger] archive.layers[i]).id < id || creates_layer(
            archive.undo,
            archive.layers[i].id,
        )
}

/// Whether a layer may have been added and taken back: its identity was handed out after
/// those of the layers that no command adds, and there is a history.
pub open spec fn may_be_taken_back(archive: ArchiveModel, id: u32) -> bool {
    &&& id < archive.next_layer
    &&& archive.undo.len() + archive.redo.len() > 0
    &&& added_since(archive, id)
}

/// Whether a layer exists or may have been taken back: strokes that were drawn on it stay
/// in the document.
pub open spec fn remembers_layer(archive: ArchiveModel, id: u32) -> bool {
    knows_layer(archive, id) || may_be_taken_back(archive, id)
}

/// Whether some saved recipe has the reference.
pub open spec fn knows_material(archive: ArchiveModel, reference: PaintMaterialRef) -> bool {
    exists|i: int|
        0 <= i < archive.materials.len() && (#[trigger] archive.materials[i]).reference
            == reference
}

/// Layers exist, have distinct identities, and each is in range.
pub open spec fn layers_valid(archive: ArchiveModel) -> bool {
    &&& archive.layers.len() > 0
    &&& forall|i: int| 0 <= i < archive.layers.len() ==> (#[trigger] archive.layers[i]).valid()
    &&& forall|i: int, j: int|
        0 <= i < j < archive.layers.len() ==> (#[trigger] archive.layers[i]).id != (
        #[trigger] archive.layers[j]).id
}

/// Whether a point has finite geometry in range.
pub open spec fn point_valid(point: StrokePoint) -> bool {
    &&& point.position.finite()
    &&& point.half_width.finite()
    &&& !point.half_width.below(Scalar::zero())
    &&& point.aspect_ratio.finite()
    &&& !point.aspect_ratio.below(Scalar::one())
    &&& point.flow.finite()
    &&& point.orientation.finite()
    &&& point.twist_radians.finite()
}

/// Whether a segment names known points, a layer that is remembered and a deposition mode.
pub open spec fn segment_valid(archive: ArchiveModel, segment: ArchiveSegment) -> bool {
    &&& segment.start < archive.points.len()
    &&& segment.end < archive.points.len()
    &&& segment.deposition <= 1
    &&& remembers_layer(archive, segment.layer)
}

/// Recipes have distinct identities.
pub open spec fn materials_distinct(archive: ArchiveModel) -> bool {
    forall|i: int, j: int|
        0 <= i < j < archive.materials.len() ==> (#[trigger] archive.materials[i]).reference != (
        #[trigger] archive.materials[j]).reference
}

/// Whether the stroke at a position has a new identity, ranges within the
/// geometry, finite ordered bounds, a layer that is remembered, and a known brush and
/// recipe.
pub open spec fn stroke_valid(archive: ArchiveModel, i: int) -> bool {
    let stroke = archive.strokes[i];
    &&& forall|j: int| 0 <= j < i ==> (#[trigger] archive.strokes[j]).id != stroke.id
    &&& stroke.first_point + stroke.point_count <= archive.points.len()
    &&& stroke.first_segment + stroke.segment_count <= archive.segments.len()
    &&& remembers_layer(archive, stroke.layer)
    &&& stroke.bounds.min.finite()
    &&& stroke.bounds.max.finite()
    &&& !stroke.bounds.max.x.below(stroke.bounds.min.x)
    &&& !stroke.bounds.max.y.below(stroke.bounds.min.y)
    &&& stroke.brush.valid()
    &&& knows_material(archive, stroke.brush.reference())
}

/// Whether a segment agrees with the stroke that owns it.
pub open spec fn segment_owned(segment: ArchiveSegment, stroke: ArchiveStroke) -> bool {
    &&& segment.layer == stroke.layer
    &&& segment.model == stroke.brush.model
    &&& segment.material == stroke.brush.material
    &&& segment.deposition == stroke.brush.deposition
}

/// Whether all segments of the stroke at a position agree with it.
pub open spec fn stroke_owns_segments(archive: ArchiveModel, i: int) -> bool {
    let stroke = archive.strokes[i];
    forall|s: int|
        stroke.first_segment <= s < stroke.first_segment + stroke.segment_count ==> segment_owned(
            #[trigger] archive.segments[s],
            stroke,
        )
}

/// What is wrong with the stroke at a position.
pub open spec fn stroke_fault(archive: ArchiveModel, i: int) -> Option<Seq<char>> {
    if !stroke_valid(archive, i) {
        Some("stroke metadata or material references are invalid"@)
    } else if !stroke_owns_segments(archive, i) {
        Some("stroke segment metadata disagrees with its owner"@)
    } else {
        None
    }
}

/// What is wrong with the first faulty of the first `count` strokes.
pub open spec fn strokes_fault(archive: ArchiveModel, count: nat) -> Option<Seq<char>>
    decreases count,
{
    if count == 0 {
        None
    } else {
        match strokes_fault(archive, (count - 1) as nat) {
            Some(fault) => Some(fault),
            None => stroke_fault(archive, count - 1),
        }
    }
}

/// What is wrong with a saved document, if anything.
pub open spec fn archive_fault(archive: ArchiveModel) -> Option<Seq<char>> {
    if archive.format != "org.hamerons.stroke-document"@ {
        Some("unrecognized Hamerons document payload"@)
    } else if archive.schema_version != DOCUMENT_SCHEMA_VERSION {
        Some("document migration did not reach the current schema"@)
    } else if archive.canvas_size.width == 0 || archive.canvas_size.height == 0
        || archive.tile_size == 0 {
        Some("canvas and tile dimensions must be nonzero"@)
    } else if !layers_valid(archive) {
        Some("layers contain invalid ids, opacity, or blend modes"@)
    } else if !knows_layer(archive, archive.active_layer) {
        Some("active layer does not exist"@)
    } else if !(forall|i: int|
        0 <= i < archive.points.len() ==> point_valid(#[trigger] archive.points[i])) {
        Some("stroke points contain non-finite geometry"@)
    } else if !(forall|s: int|
        0 <= s < archive.segments.len() ==> segment_valid(
            archive,
            #[trigger] archive.segments[s],
        )) {
        Some("segments contain invalid point, layer, or deposition ids"@)
    } else if !materials_distinct(archive) {
        Some("material identities are duplicated"@)
    } else {
        strokes_fault(archive, archive.strokes.len())
    }
}

fn invalid(message: &str) -> (error: DocumentIoError)
    ensures
        error@ == ErrorModel::InvalidDocument(message@),
{
    DocumentIoError::InvalidDocument(message.to_owned())
}

fn layer_known(archive: &ArchiveDocument, id: u32) -> (known: bool)
    ensures
        known == knows_layer(archive@, id),
{
    for i in 0..archive.layers.len()
        invariant
            forall|j: int| 0 <= j < i ==> (#[trigger] archive@.layers[j]).id != id,
    {
        assert(archive@.layers[i as int] == archive.layers@[i as int]@);
        if archive.layers[i].id == id {
            return true;
        }
    }
    false
}

fn layer_in_history(commands: &Vec<ArchiveHistoryCommand>, id: u32) -> (created: bool)
    ensures
        created == creates_layer(archive_command_models(commands@), id),
{
    let ghost models = archive_command_models(commands@);
    for k in 0..commands.len()
        invariant
            models == archive_command_models(commands@),
            forall|j: int| 0 <= j < k ==> layer_created(#[trigger] models[j]) != Some(id),
    {
        assert(models[k as int] == commands@[k as int]@);
        match &commands[k] {
            ArchiveHistoryCommand::AddLayer { layer, .. } => {
                if layer.id == id {
                    assert(layer_created(models[k as int]) == Some(id));
                    return true;
                }
            },
            _ => {},
        }
    }
    assert(models.len() == commands@.len());
    false
}

/// Whether the layers added since are those from a number on.
spec fn added_from(archive: ArchiveModel, first: u64) -> bool {
    forall|id: u32| #[trigger] added_since(archive, id) <==> first <= id
}

/// [`added_since`], as far as the first `count` layers go.
spec fn added_since_these(archive: ArchiveModel, id: u32, count: int) -> bool {
    forall|i: int|
        0 <= i < count ==> (#[trigger] archive.layers[i]).id < id || creates_layer(
            archive.undo,
            archive.layers[i].id,
        )
}

/// [`added_from`], as far as the first `count` layers go.
spec fn added_from_these(archive: ArchiveModel, first: u64, count: int) -> bool {
    forall|id: u32| #[trigger] added_since_these(archive, id, count) <==> first <= id
}

/// The number from which on layers were added by commands.
fn first_added(archive: &ArchiveDocument) -> (first: u64)
    ensures
        added_from(archive@, first),
{
    let mut first: u64 = 0;
    for i in 0..archive.layers.len()
        invariant
            first <= 0x1_0000_0000,
            added_from_these(archive@, first, i as int),
    {
        let ghost before = first;
        let layer: u32 = archive.layers[i].id;
        assert(archive@.layers[i as int] == archive.layers@[i as int]@);
        if layer as u64 >= first && !layer_in_history(&archive.undo, layer) {
            first = layer as u64 + 1;
        }
        let ghost (few, more) = (i as int, i + 1);
        assert forall|id: u32| #[trigger] added_since_these(archive@, id, more) <==> first
            <= id by {
            assert(added_since_these(archive@, id, few) <==> before <= id);
            assert(added_since_these(archive@, id, more) <==> added_since_these(
                archive@,
                id,
                few,
            ) && (layer < id || creates_layer(archive@.undo, layer)));
        }
    }
    let ghost all = archive@.layers.len() as int;
    assert(added_from_these(archive@, first, all));
    assert forall|id: u32| #[trigger] added_since(archive@, id) <==> first <= id by {
        assert(added_since(archive@, id) == added_since_these(archive@, id, all));
    }
    first
}

fn layer_remembered(archive: &ArchiveDocument, id: u32, first: u64) -> (remembered: bool)
    requires
        added_from(archive@, first),
    ensures
        remembered == remembers_layer(archive@, id),
{
    assert(added_since(archive@, id) <==> first <= id);
    layer_known(archive, id) || (id < archive.next_layer && (archive.undo.len() > 0
        || archive.redo.len() > 0) && first <= id as u64)
}

fn check_layers(archive: &ArchiveDocument) -> (valid: bool)
    ensures
        valid == layers_valid(archive@),
{
    if archive.layers.len() == 0 {
        return false;
    }
    let mut seen: BTreeSet<u32> = BTreeSet::new();
    for i in 0..archive.layers.len()
        invariant
            forall|id: u32| #[trigger]
                seen@.contains(id) <==> exists|j: int|
                    0 <= j < i && (#[trigger] archive@.layers[j]).id == id,
            forall|j: int| 0 <= j < i ==> (#[trigger] archive@.layers[j]).valid(),
            forall|a: int, b: int|
                0 <= a < b < i ==> (#[trigger] archive@.layers[a]).id != (
                #[trigger] archive@.layers[b]).id,
    {
        assert(archive@.layers[i as int] == archive.layers@[i as int]@);
        if !seen.insert(archive.layers[i].id) {
            let ghost j = choose|j: int|
                0 <= j < i && (#[trigger] archive@.layers[j]).id == archive@.layers[i as int].id;
            assert(archive@.layers[j].id == archive@.layers[i as int].id);
            return false;
        }
        if !archive.layers[i].is_valid() {
            return false;
        }
        assert forall|a: int| 0 <= a < i implies (#[trigger] archive@.layers[a]).id
            != archive@.layers[i as int].id by {
        }
    }
    true
}

fn check_points(archive: &ArchiveDocument) -> (valid: bool)
    ensures
        valid == forall|i: int|
            0 <= i < archive@.points.len() ==> point_valid(#[trigger] archive@.points[i]),
{
    for i in 0..archive.points.len()
        invariant
            forall|j: int| 0 <= j < i ==> point_valid(#[trigger] archive@.points[j]),
    {
        let point = archive.points[i];
        let valid = point.position.is_finite() && point.half_width.is_finite()
            && !point.half_width.less_than(Scalar::zero()) && point.aspect_ratio.is_finite()
            && !point.aspect_ratio.less_than(Scalar::one()) && point.flow.is_finite()
            && point.orientation.is_finite() && point.twist_radians.is_finite();
        if !valid {
            assert(!point_valid(archive@.points[i as int]));
            return false;
        }
    }
    true
}

fn check_segments(archive: &ArchiveDocument, first: u64) -> (valid: bool)
    requires
        added_from(archive@, first),
    ensures
        valid == forall|s: int|
            0 <= s < archive@.segments.len() ==> segment_valid(
                archive@,
                #[trigger] archive@.segments[s],
            ),
{
    for i in 0..archive.segments.len()
        invariant
            added_from(archive@, first),
            forall|s: int|
                0 <= s < i ==> segment_valid(archive@, #[trigger] archive@.segments[s]),
    {
        let segment = archive.segments[i];
        let valid = (segment.start as usize) < archive.points.len() && (segment.end as usize)
            < archive.points.len() && segment.deposition <= 1 && layer_remembered(
            archive,
            segment.layer,
            first,
        );
        if !valid {
            assert(!segment_valid(archive@, archive@.segments[i as int]));
            return false;
        }
    }
    true
}

/// Whether the set holds exactly the ranks of the first `count` recipes.
spec fn ranks_of(ranks: Set<u128>, materials: Seq<MaterialModel>, count: int) -> bool {
    forall|rank: u128| #[trigger]
        ranks.contains(rank) <==> exists|i: int|
            0 <= i < count && (#[trigger] materials[i]).reference.spec_rank() == rank
}

fn collect_materials(archive: &ArchiveDocument) -> (ranks: Option<BTreeSet<u128>>)
    ensures
        match ranks {
            Some(set) => materials_distinct(archive@) && ranks_of(
                set@,
                archive@.materials,
                archive@.materials.len() as int,
            ),
            None => !materials_distinct(archive@),
        },
{
    let mut ranks: BTreeSet<u128> = BTreeSet::new();
    for i in 0..archive.materials.len()
        invariant
            ranks_of(ranks@, archive@.materials, i as int),
            forall|a: int, b: int|
                0 <= a < b < i ==> (#[trigger] archive@.materials[a]).reference != (
                #[trigger] archive@.materials[b]).reference,
    {
        assert(archive@.materials[i as int] == archive.materials@[i as int]@);
        if !ranks.insert(archive.materials[i].reference.rank()) {
            proof {
                let j = choose|j: int|
                    0 <= j < i && (#[trigger] archive@.materials[j]).reference.spec_rank()
                        == archive@.materials[i as int].reference.spec_rank();
                lemma_material_rank_injective(
                    archive@.materials[j].reference,
                    archive@.materials[i as int].reference,
                );
                assert(archive@.materials[j].reference == archive@.materials[i as int].reference);
            }
            return None;
        }
        assert forall|a: int| 0 <= a < i implies (#[trigger] archive@.materials[a]).reference
            != archive@.materials[i as int].reference by {
        }
    }
    Some(ranks)
}

/// Whether the stroke at a position is valid, given the identities before it
/// and the ranks of all recipes.
fn check_stroke(
    archive: &ArchiveDocument,
    i: usize,
    fresh: bool,
    ranks: &BTreeSet<u128>,
    first: u64,
) -> (valid: bool)
    requires
        added_from(archive@, first),
        i < archive@.strokes.len(),
        fresh == forall|j: int| 0 <= j < i ==> (#[trigger] archive@.strokes[j]).id
            != archive@.strokes[i as int].id,
        ranks_of(ranks@, archive@.materials, archive@.materials.len() as int),
    ensures
        valid == stroke_valid(archive@, i as int),
{
    let stroke = archive.strokes[i];
    let point_end: u64 = stroke.first_point as u64 + stroke.point_count as u64;
    let segment_end: u64 = stroke.first_segment as u64 + stroke.segment_count as u64;
    let reference = PaintMaterialRef {
        model: crate::paint::PaintModelId(stroke.brush.model),
        model_version: stroke.brush.model_version,
        material: crate::paint::PaintMaterialId(stroke.brush.material),
    };
    proof {
        assert(ranks@.contains(reference.spec_rank()) <==> knows_material(archive@, reference)) by {
            if ranks@.contains(reference.spec_rank()) {
                let k = choose|k: int|
                    0 <= k < archive@.materials.len() && (
                    #[trigger] archive@.materials[k]).reference.spec_rank()
                        == reference.spec_rank();
                lemma_material_rank_injective(archive@.materials[k].reference, reference);
            }
            if knows_material(archive@, reference) {
                let k = choose|k: int|
                    0 <= k < archive@.materials.len() && (
                    #[trigger] archive@.materials[k]).reference == reference;
                assert(archive@.materials[k].reference.spec_rank() == reference.spec_rank());
            }
        }
    }
    let rank: u128 = reference.rank();
    fresh && point_end <= archive.points.len() as u64 && segment_end
        <= archive.segments.len() as u64 && layer_remembered(archive, stroke.layer, first)
        && stroke.bounds.min.is_finite() && stroke.bounds.max.is_finite()
        && !stroke.bounds.max.x.less_than(stroke.bounds.min.x) && !stroke.bounds.max.y.less_than(
        stroke.bounds.min.y,
    ) && stroke.brush.is_valid() && ranks.contains(&rank)
}

fn check_ownership(archive: &ArchiveDocument, i: usize) -> (owned: bool)
    requires
        i < archive@.strokes.len(),
        archive@.strokes[i as int].first_segment + archive@.strokes[i as int].segment_count
            <= archive@.segments.len(),
    ensures
        owned == stroke_owns_segments(archive@, i as int),
{
    let stroke = archive.strokes[i];
    let first: usize = stroke.first_segment as usize;
    let count: usize = stroke.segment_count as usize;
    for n in 0..count
        invariant
            stroke == archive@.strokes[i as int],
            first == stroke.first_segment,
            count == stroke.segment_count,
            first + count <= archive.segments.len(),
            forall|s: int|
                first <= s < first + n ==> segment_owned(#[trigger] archive@.segments[s], stroke),
    {
        let segment = archive.segments[first + n];
        if segment.layer != stroke.layer || segment.model != stroke.brush.model || segment.material
            != stroke.brush.material || segment.deposition != stroke.brush.deposition {
            assert(!segment_owned(archive@.segments[first + n], stroke));
            return false;
        }
    }
    true
}

/// Accepts a saved document only where every part of it is in range and agrees
/// with the others.
pub fn validate_archive(archive: &ArchiveDocument) -> (result: Result<(), DocumentIoError>)
    ensures
        match archive_fault(archive@) {
            Some(fault) => result matches Err(error) && error@ == ErrorModel::InvalidDocument(
                fault,
            ),
            None => result is Ok,
        },
{
    if !same_text(archive.format.as_str(), "org.hamerons.stroke-document") {
        return Err(invalid("unrecognized Hamerons document payload"));
    }
    if archive.schema_version != DOCUMENT_SCHEMA_VERSION {
        return Err(invalid("document migration did not reach the current schema"));
    }
    if archive.canvas_size.width == 0 || archive.canvas_size.height == 0 || archive.tile_size
        == 0 {
        return Err(invalid("canvas and tile dimensions must be nonzero"));
    }
    if !check_layers(archive) {
        return Err(invalid("layers contain invalid ids, opacity, or blend modes"));
    }
    if !layer_known(archive, archive.active_layer) {
        return Err(invalid("active layer does not exist"));
    }
    if !check_points(archive) {
        return Err(invalid("stroke points contain non-finite geometry"));
    }
    let first: u64 = first_added(archive);
    if !check_segments(archive, first) {
        return Err(invalid("segments contain invalid point, layer, or deposition ids"));
    }
    let ranks: BTreeSet<u128> = match collect_materials(archive) {
        Some(ranks) => ranks,
        None => {
            return Err(invalid("material identities are duplicated"));
        },
    };
    validate_strokes(archive, &ranks, first)
}

fn validate_strokes(archive: &ArchiveDocument, ranks: &BTreeSet<u128>, first: u64) -> (result:
    Result<(), DocumentIoError>)
    requires
        added_from(archive@, first),
        ranks_of(ranks@, archive@.materials, archive@.materials.len() as int),
    ensures
        match strokes_fault(archive@, archive@.strokes.len()) {
            Some(fault) => result matches Err(error) && error@ == ErrorModel::InvalidDocument(
                fault,
            ),
            None => result is Ok,
        },
{
    let mut seen: BTreeSet<u64> = BTreeSet::new();
    for i in 0..archive.strokes.len()
        invariant
            added_from(archive@, first),
            ranks_of(ranks@, archive@.materials, archive@.materials.len() as int),
            forall|id: u64| #[trigger]
                seen@.contains(id) <==> exists|j: int|
                    0 <= j < i && (#[trigger] archive@.strokes[j]).id == id,
            strokes_fault(archive@, i as nat) is None,
    {
        let fresh = seen.insert(archive.strokes[i].id);
        assert(fresh == forall|j: int| 0 <= j < i ==> (#[trigger] archive@.strokes[j]).id
            != archive@.strokes[i as int].id);
        if !check_stroke(archive, i, fresh, ranks, first) {
            proof {
                lemma_first_fault(archive@, i as nat);
            }
            return Err(invalid("stroke metadata or material references are invalid"));
        }
        if !check_ownership(archive, i) {
            proof {
                lemma_first_fault(archive@, i as nat);
            }
            return Err(invalid("stroke segment metadata disagrees with its owner"));
        }
        assert(strokes_fault(archive@, (i + 1) as nat) is None);
    }
    Ok(())
}

/// The first faulty stroke decides what is reported of all.
proof fn lemma_first_fault(archive: ArchiveModel, i: nat)
    requires
        i < archive.strokes.len(),
        strokes_fault(archive, i) is None,
        stroke_fault(archive, i as int) is Some,
    ensures
        strokes_fault(archive, archive.strokes.len()) == stroke_fault(archive, i as int),
{
    lemma_fault_stays(archive, i + 1, archive.strokes.len());
}

proof fn lemma_fault_stays(archive: ArchiveModel, i: nat, count: nat)
    requires
        i <= count,
        strokes_fault(archive, i) is Some,
    ensures
        strokes_fault(archive, count) == strokes_fault(archive, i),
    decreases count,
{
    if i < count {
        lemma_fault_stays(archive, i, (count - 1) as nat);
    }
}

/// Where no stroke is faulty, each is valid and owns its segments.
pub proof fn lemma_no_stroke_fault(archive: ArchiveModel, count: nat, i: int)
    requires
        strokes_fault(archive, count) is None,
        0 <= i < count,
    ensures
        stroke_valid(archive, i),
        stroke_owns_segments(archive, i),
    decreases count,
{
    if i < count - 1 {
        lemma_no_stroke_fault(archive, (count - 1) as nat, i);
    }
}

/// A document of a later version is refused, and one of the current version
/// needs no migration.
pub proof fn law_current_documents_migrate_to_themselves(archive: ArchiveModel)
    requires
        archive.schema_version == DOCUMENT_SCHEMA_VERSION,
    ensures
        migrated(archive) == archive,
{
}

} // verus!
