//! Paint models, their surface planes and the immutable materials they own.
use crate::effects::{copy_bytes, same_bytes};
use crate::ordered::{ascending, lists, ordered_ids, ordered_keys};
use crate::scalar::Scalar;
use std::collections::BTreeMap;
use vstd::prelude::*;

verus! {

broadcast use vstd::laws_cmp::group_laws_cmp;

/// Identifies a registered paint model.
#[derive(Clone, Copy, Debug, PartialEq, Eq, Hash, Structural)]
pub struct PaintModelId(pub u32);

/// Identifies a material owned by a paint model.
#[derive(Clone, Copy, Debug, PartialEq, Eq, Hash, Structural)]
pub struct PaintMaterialId(pub u32);

/// A paint model and one of its immutable material records.
#[derive(Clone, Copy, Debug, PartialEq, Eq, Hash, Structural)]
pub struct PaintMaterialRef {
    /// Model that interprets the material payload.
    pub model: PaintModelId,
    /// Paint-model implementation version required to replay the material.
    pub model_version: u32,
    /// Material within that model.
    pub material: PaintMaterialId,
}

/// Identifier number of the built-in premultiplied-linear RGBA model.
pub const RGBA_PAINT_MODEL_ID: u32 = 0;

/// Version of the RGBA deposition and material contract.
pub const RGBA_MODEL_VERSION: u32 = 1;

/// Material number of the default dark ink.
pub const RGBA_DEFAULT_INK: u32 = 0;

/// Material number of the opaque removal strength used by the eraser preset.
pub const RGBA_DEFAULT_ERASER: u32 = 1;

/// Ordering guarantee required when replaying depositions into a material surface.
#[derive(Clone, Copy, Debug, PartialEq, Eq, Structural)]
pub enum DepositionOrdering {
    /// Preserve document order because existing material state may affect the result.
    Strict,
    /// Compatible depositions may be regrouped when a model guarantees equivalence.
    CommutativeAssociative,
}

impl Default for DepositionOrdering {
    /// Document order is kept unless a model says otherwise.
    fn default() -> (ordering: Self)
        ensures
            ordering == DepositionOrdering::Strict,
    {
        DepositionOrdering::Strict
    }
}

/// Operation a paint model applies beneath paint-model-independent coverage.
#[derive(Clone, Copy, Debug, PartialEq, Eq, Structural)]
pub enum DepositionMode {
    /// Add the selected paint material.
    Normal,
    /// Remove material according to the selected paint model.
    Erase,
}

impl Default for DepositionMode {
    /// Brushes add material.
    fn default() -> (mode: Self)
        ensures
            mode == DepositionMode::Normal,
    {
        DepositionMode::Normal
    }
}

impl DepositionMode {
    /// Number by which packed segment records tell the modes apart.
    pub open spec fn spec_code(self) -> u32 {
        match self {
            DepositionMode::Normal => 0,
            DepositionMode::Erase => 1,
        }
    }

    /// Number by which packed segment records tell the modes apart.
    #[verifier::when_used_as_spec(spec_code)]
    pub fn code(self) -> (code: u32)
        ensures
            code == self.spec_code(),
    {
        match self {
            DepositionMode::Normal => 0,
            DepositionMode::Erase => 1,
        }
    }
}

/// Storage representation requested by a paint-model surface plane.
#[derive(Clone, Copy, Debug, PartialEq, Eq, Structural)]
pub enum PaintPlaneFormat {
    /// Four normalized 8-bit channels. Display conversion happens after effects.
    Rgba8Unorm,
    /// Four half-float channels for high-dynamic-range paint state.
    Rgba16Float,
    /// One 32-bit floating-point channel, suitable for masks or wetness.
    R32Float,
    /// A model-defined packed representation with an explicit byte cost.
    Custom {
        /// Explicit packed cost used by the common allocator.
        bytes_per_pixel: u8,
    },
}

impl PaintPlaneFormat {
    /// Number of persistent bytes required for one pixel of this plane.
    pub open spec fn pixel_cost(self) -> nat {
        match self {
            PaintPlaneFormat::Rgba8Unorm => 4,
            PaintPlaneFormat::Rgba16Float => 8,
            PaintPlaneFormat::R32Float => 4,
            PaintPlaneFormat::Custom { bytes_per_pixel } => bytes_per_pixel as nat,
        }
    }

    /// Number of persistent bytes required for one pixel of this plane.
    pub fn bytes_per_pixel(self) -> (bytes: u64)
        ensures
            bytes == self.pixel_cost(),
            bytes <= 255,
    {
        match self {
            PaintPlaneFormat::Rgba8Unorm => 4,
            PaintPlaneFormat::Rgba16Float => 8,
            PaintPlaneFormat::R32Float => 4,
            PaintPlaneFormat::Custom { bytes_per_pixel } => bytes_per_pixel as u64,
        }
    }
}

/// Deterministic value used when allocating or regenerating a plane.
#[derive(Clone, Copy, Debug, PartialEq, Eq, Structural)]
pub enum PaintPlaneClearValue {
    /// All stored channels begin at zero.
    Zero,
    /// Packed normalized RGBA clear value: red, green, blue and alpha.
    Rgba8(u8, u8, u8, u8),
}

impl Default for PaintPlaneClearValue {
    /// Planes begin empty.
    fn default() -> (value: Self)
        ensures
            value == PaintPlaneClearValue::Zero,
    {
        PaintPlaneClearValue::Zero
    }
}

/// Describes one native surface plane owned by a paint model.
#[derive(Clone, Copy, Debug, PartialEq, Eq)]
pub struct PaintPlaneDescriptor {
    /// Stable shader-facing plane name.
    pub name: &'static str,
    /// Human-readable meaning of the stored values.
    pub semantic: &'static str,
    /// Native storage format used for allocation and memory accounting.
    pub format: PaintPlaneFormat,
    /// Value restored before deterministic tile replay.
    pub clear: PaintPlaneClearValue,
}

/// Describes a paint model without coupling stroke geometry to its channels.
#[derive(Clone, Debug, PartialEq, Eq)]
pub struct PaintModelDescriptor {
    /// Stable model identifier stored in stroke metadata.
    pub id: PaintModelId,
    /// Version persisted beside paint recipes and document commands.
    pub version: u32,
    /// Human-readable model name.
    pub name: &'static str,
    /// Native planes required by deposition, effects, and display resolve.
    pub persistent_planes: Vec<PaintPlaneDescriptor>,
    /// Temporary planes needed by model-local mixing or display resolve.
    pub scratch_planes: Vec<PaintPlaneDescriptor>,
    /// Whether the scheduler may reorder compatible deposition work.
    pub deposition_ordering: DepositionOrdering,
}

/// Registry boundary used by RGBA now and multi-plane pigment models later.
pub struct PaintModelRegistry {
    models: BTreeMap<u64, PaintModelDescriptor>,
}

impl View for PaintModelRegistry {
    type V = Map<u64, PaintModelDescriptor>;

    closed spec fn view(&self) -> Map<u64, PaintModelDescriptor> {
        self.models@
    }
}

impl PaintModelRegistry {
    /// Every descriptor is filed under its own identifier.
    pub open spec fn well_formed(&self) -> bool {
        forall|key: u64| #[trigger] self@.contains_key(key) ==> self@[key].id.0 == key
    }

    /// Creates a registry without models.
    pub fn new() -> (registry: Self)
        ensures
            registry.well_formed(),
            registry@ == Map::<u64, PaintModelDescriptor>::empty(),
    {
        PaintModelRegistry { models: BTreeMap::new() }
    }

    /// Registers or replaces a model descriptor.
    pub fn register(&mut self, descriptor: PaintModelDescriptor)
        requires
            old(self).well_formed(),
        ensures
            final(self).well_formed(),
            final(self)@ == old(self)@.insert(descriptor.id.0 as u64, descriptor),
    {
        self.models.insert(descriptor.id.0 as u64, descriptor);
    }

    /// Returns the descriptor for `id`.
    pub fn get(&self, id: PaintModelId) -> (descriptor: Option<&PaintModelDescriptor>)
        requires
            self.well_formed(),
        ensures
            match descriptor {
                Some(found) => self@.contains_key(id.0 as u64) && self@[id.0 as u64] == *found
                    && found.id == id,
                None => !self@.contains_key(id.0 as u64),
            },
    {
        let key: u64 = id.0 as u64;
        self.models.get(&key)
    }

    /// Lists the registered descriptors by ascending identifier.
    pub fn iter(&self) -> (descriptors: Vec<&PaintModelDescriptor>)
        ensures
            descriptors@ == ascending(self@.dom()).map_values(|key: u64| &self@[key]),
            lists(ascending(self@.dom()), self@.dom()),
    {
        let keys = ordered_ids(&self.models);
        let mut descriptors: Vec<&PaintModelDescriptor> = Vec::new();
        for i in 0..keys.len()
            invariant
                lists(keys@, self@.dom()),
                descriptors@ == keys@.take(i as int).map_values(|key: u64| &self@[key]),
        {
            assert(keys@.contains(keys@[i as int]));
            assert(self@.dom().contains(keys@[i as int]));
            match self.models.get(&keys[i]) {
                Some(found) => descriptors.push(found),
                None => {},
            }
            assert(descriptors@ =~= keys@.take(i + 1).map_values(|key: u64| &self@[key]));
        }
        assert(keys@.take(keys@.len() as int) =~= keys@);
        descriptors
    }
}

impl Default for PaintModelRegistry {
    fn default() -> (registry: Self)
        ensures
            registry.well_formed(),
            registry@ == Map::<u64, PaintModelDescriptor>::empty(),
    {
        PaintModelRegistry::new()
    }
}

impl PaintMaterialRef {
    /// Position of the reference when references are sorted by model, version
    /// and material.
    pub open spec fn spec_rank(self) -> u128 {
        (self.model.0 * 0x1_0000_0000_0000_0000 + self.model_version * 0x1_0000_0000
            + self.material.0) as u128
    }

    /// Position of the reference when references are sorted by model, version
    /// and material.
    #[verifier::when_used_as_spec(spec_rank)]
    pub fn rank(self) -> (rank: u128)
        ensures
            rank == self.spec_rank(),
    {
        self.model.0 as u128 * 0x1_0000_0000_0000_0000 + self.model_version as u128 * 0x1_0000_0000
            + self.material.0 as u128
    }
}

/// Equal ranks belong to equal references.
pub proof fn lemma_material_rank_injective(a: PaintMaterialRef, b: PaintMaterialRef)
    requires
        a.spec_rank() == b.spec_rank(),
    ensures
        a == b,
{
}

/// Reference to a material of the built-in RGBA model.
#[verifier::allow_in_spec]
pub fn rgba_reference(material: u32) -> PaintMaterialRef
    returns
        (PaintMaterialRef {
            model: PaintModelId(RGBA_PAINT_MODEL_ID),
            model_version: RGBA_MODEL_VERSION,
            material: PaintMaterialId(material),
        }),
{
    PaintMaterialRef {
        model: PaintModelId(RGBA_PAINT_MODEL_ID),
        model_version: RGBA_MODEL_VERSION,
        material: PaintMaterialId(material),
    }
}

/// Four color channels.
#[derive(Clone, Copy, Debug, PartialEq, Eq, Structural)]
pub struct Rgba {
    /// Red channel.
    pub red: Scalar,
    /// Green channel.
    pub green: Scalar,
    /// Blue channel.
    pub blue: Scalar,
    /// Opacity channel.
    pub alpha: Scalar,
}

impl Rgba {
    /// Numeric equality of all channels.
    pub open spec fn same_number(self, other: Rgba) -> bool {
        &&& self.red.same_number(other.red)
        &&& self.green.same_number(other.green)
        &&& self.blue.same_number(other.blue)
        &&& self.alpha.same_number(other.alpha)
    }

    /// Numeric equality of all channels.
    pub fn equals(self, other: Rgba) -> (equal: bool)
        ensures
            equal == self.same_number(other),
    {
        self.red.equals(other.red) && self.green.equals(other.green) && self.blue.equals(other.blue)
            && self.alpha.equals(other.alpha)
    }

    /// All channels zero.
    #[verifier::allow_in_spec]
    pub fn transparent() -> Rgba
        returns
            (Rgba {
                red: Scalar { bits: 0 },
                green: Scalar { bits: 0 },
                blue: Scalar { bits: 0 },
                alpha: Scalar { bits: 0 },
            }),
    {
        Rgba {
            red: Scalar { bits: 0 },
            green: Scalar { bits: 0 },
            blue: Scalar { bits: 0 },
            alpha: Scalar { bits: 0 },
        }
    }
}

/// Versioned, model-owned payload retained by the authoritative document.
#[derive(Debug, PartialEq)]
pub enum PaintMaterialPayload {
    /// Built-in premultiplied linear RGBA recipe.
    PremultipliedLinearRgba(Rgba),
    /// Opaque pigment/model data with a persisted schema version.
    ModelData {
        /// Payload schema interpreted by the selected model version.
        schema_version: u32,
        /// Immutable coefficients, pigment identities, or recipe data.
        bytes: Vec<u8>,
    },
}

/// Mathematical value of a [`PaintMaterialPayload`].
#[verifier::ext_equal]
pub enum PayloadModel {
    PremultipliedLinearRgba(Rgba),
    ModelData { schema_version: u32, bytes: Seq<u8> },
}

impl View for PaintMaterialPayload {
    type V = PayloadModel;

    open spec fn view(&self) -> PayloadModel {
        match self {
            PaintMaterialPayload::PremultipliedLinearRgba(rgba) => {
                PayloadModel::PremultipliedLinearRgba(*rgba)
            },
            PaintMaterialPayload::ModelData { schema_version, bytes } => PayloadModel::ModelData {
                schema_version: *schema_version,
                bytes: bytes@,
            },
        }
    }
}

impl PayloadModel {
    /// Whether two payloads are the same recipe; channels compare as numbers.
    pub open spec fn same_recipe(self, other: PayloadModel) -> bool {
        match (self, other) {
            (
                PayloadModel::PremultipliedLinearRgba(a),
                PayloadModel::PremultipliedLinearRgba(b),
            ) => a.same_number(b),
            (
                PayloadModel::ModelData { schema_version: a, bytes: x },
                PayloadModel::ModelData { schema_version: b, bytes: y },
            ) => a == b && x == y,
            _ => false,
        }
    }
}

impl Clone for PaintMaterialPayload {
    fn clone(&self) -> (copy: Self)
        ensures
            copy@ == self@,
    {
        match self {
            PaintMaterialPayload::PremultipliedLinearRgba(rgba) => {
                PaintMaterialPayload::PremultipliedLinearRgba(*rgba)
            },
            PaintMaterialPayload::ModelData { schema_version, bytes } => {
                PaintMaterialPayload::ModelData {
                    schema_version: *schema_version,
                    bytes: copy_bytes(bytes),
                }
            },
        }
    }
}

impl PaintMaterialPayload {
    /// Whether two payloads are the same recipe; channels compare as numbers.
    pub fn matches(&self, other: &PaintMaterialPayload) -> (same: bool)
        ensures
            same == self@.same_recipe(other@),
    {
        match self {
            PaintMaterialPayload::PremultipliedLinearRgba(a) => match other {
                PaintMaterialPayload::PremultipliedLinearRgba(b) => a.equals(*b),
                PaintMaterialPayload::ModelData { .. } => false,
            },
            PaintMaterialPayload::ModelData { schema_version: a, bytes: x } => match other {
                PaintMaterialPayload::PremultipliedLinearRgba(_) => false,
                PaintMaterialPayload::ModelData { schema_version: b, bytes: y } => *a == *b
                    && same_bytes(x, y),
            },
        }
    }
}

/// Immutable paint recipe keyed by model, implementation version, and material id.
#[derive(Debug, PartialEq)]
pub struct PaintMaterialRecord {
    /// Stable reference stored by stroke metadata.
    pub reference: PaintMaterialRef,
    /// Native model payload required for deterministic regeneration.
    pub payload: PaintMaterialPayload,
}

/// Mathematical value of a [`PaintMaterialRecord`].
#[verifier::ext_equal]
pub struct MaterialModel {
    pub reference: PaintMaterialRef,
    pub payload: PayloadModel,
}

impl View for PaintMaterialRecord {
    type V = MaterialModel;

    open spec fn view(&self) -> MaterialModel {
        MaterialModel { reference: self.reference, payload: self.payload@ }
    }
}

impl Clone for PaintMaterialRecord {
    fn clone(&self) -> (copy: Self)
        ensures
            copy@ == self@,
    {
        PaintMaterialRecord { reference: self.reference, payload: self.payload.clone() }
    }
}

/// Document-owned library of immutable color and future pigment recipes.
#[derive(Clone, Debug)]
pub struct PaintMaterialLibrary {
    records: BTreeMap<u128, PaintMaterialRecord>,
}

impl View for PaintMaterialLibrary {
    type V = Map<u128, MaterialModel>;

    closed spec fn view(&self) -> Map<u128, MaterialModel> {
        self.records@.map_values(|record: PaintMaterialRecord| record@)
    }
}

/// Every recipe is filed under the rank of its own reference.
pub open spec fn library_filed(library: Map<u128, MaterialModel>) -> bool {
    forall|rank: u128| #[trigger]
        library.contains_key(rank) ==> library[rank].reference.spec_rank() == rank
}

/// The library after an attempt to add a recipe: a known identity keeps its recipe.
pub open spec fn library_with(
    library: Map<u128, MaterialModel>,
    record: MaterialModel,
) -> Map<u128, MaterialModel> {
    if library.contains_key(record.reference.spec_rank()) {
        library
    } else {
        library.insert(record.reference.spec_rank(), record)
    }
}

/// The library's recipe for a material of the RGBA model.
pub open spec fn rgba_recipe(library: Map<u128, MaterialModel>, material: int) -> Option<Rgba> {
    if 0 <= material <= u32::MAX && library.contains_key(
        rgba_reference(material as u32).spec_rank(),
    ) {
        match library[rgba_reference(material as u32).spec_rank()].payload {
            PayloadModel::PremultipliedLinearRgba(rgba) => Some(rgba),
            PayloadModel::ModelData { .. } => None,
        }
    } else {
        None
    }
}

impl PaintMaterialLibrary {
    /// Every recipe is filed under its own reference.
    pub open spec fn well_formed(&self) -> bool {
        library_filed(self@)
    }

    /// Creates a library without recipes.
    pub fn new() -> (library: Self)
        ensures
            library.well_formed(),
            library@ == Map::<u128, MaterialModel>::empty(),
    {
        let library = PaintMaterialLibrary { records: BTreeMap::new() };
        assert(library@ =~= Map::<u128, MaterialModel>::empty());
        library
    }

    /// Adds a record, rejecting an attempt to mutate an existing identity.
    pub fn add(&mut self, record: PaintMaterialRecord) -> (result: Result<(), &'static str>)
        requires
            old(self).well_formed(),
        ensures
            final(self).well_formed(),
            final(self)@ == library_with(old(self)@, record@),
            result is Ok <==> !old(self)@.contains_key(record.reference.spec_rank()) || old(
                self,
            )@[record.reference.spec_rank()].payload.same_recipe(record@.payload),
            result matches Err(message) ==> message@
                == "paint material identities are immutable"@,
    {
        let rank: u128 = record.reference.rank();
        let known = match self.records.get(&rank) {
            Some(existing) => Some(existing.payload.matches(&record.payload)),
            None => None,
        };
        match known {
            Some(true) => Ok(()),
            Some(false) => Err("paint material identities are immutable"),
            None => {
                let ghost before = self@;
                self.records.insert(rank, record);
                assert(self@ =~= before.insert(rank, record@));
                Ok(())
            },
        }
    }

    /// Retrieves a versioned material recipe.
    pub fn get(&self, reference: PaintMaterialRef) -> (record: Option<&PaintMaterialRecord>)
        requires
            self.well_formed(),
        ensures
            match record {
                Some(found) => self@.contains_key(reference.spec_rank()) && found@
                    == self@[reference.spec_rank()] && found.reference == reference,
                None => !self@.contains_key(reference.spec_rank()),
            },
    {
        let rank: u128 = reference.rank();
        let found = self.records.get(&rank);
        proof {
            if found is Some {
                assert(self@.contains_key(rank));
                lemma_material_rank_injective(self@[rank].reference, reference);
            }
        }
        found
    }

    /// Lists all recipes by ascending reference, without exposing mutation of
    /// existing records.
    pub fn iter(&self) -> (records: Vec<&PaintMaterialRecord>)
        ensures
            lists(ascending(self@.dom()), self@.dom()),
            records@.len() == ascending(self@.dom()).len(),
            forall|i: int|
                0 <= i < records@.len() ==> (#[trigger] records@[i])@ == self@[ascending(
                    self@.dom(),
                )[i]],
    {
        let keys = ordered_keys(&self.records);
        assert(self@.dom() =~= self.records@.dom());
        let mut records: Vec<&PaintMaterialRecord> = Vec::new();
        for i in 0..keys.len()
            invariant
                lists(keys@, self@.dom()),
                records@.len() == i,
                forall|j: int| 0 <= j < i ==> (#[trigger] records@[j])@ == self@[keys@[j]],
        {
            assert(keys@.contains(keys@[i as int]));
            assert(self@.dom().contains(keys@[i as int]));
            match self.records.get(&keys[i]) {
                Some(found) => records.push(found),
                None => {},
            }
        }
        records
    }
}

impl Default for PaintMaterialLibrary {
    fn default() -> (library: Self)
        ensures
            library.well_formed(),
            library@ == Map::<u128, MaterialModel>::empty(),
    {
        PaintMaterialLibrary::new()
    }
}

/// A recipe once added stays: later additions never change it.
pub proof fn law_material_identity_is_immutable(
    library: Map<u128, MaterialModel>,
    reference: PaintMaterialRef,
    record: MaterialModel,
)
    requires
        library.contains_key(reference.spec_rank()),
    ensures
        library_with(library, record).contains_key(reference.spec_rank()),
        library_with(library, record)[reference.spec_rank()] == library[reference.spec_rank()],
{
}

/// Adding the same recipe twice is adding it once.
pub proof fn law_adding_a_recipe_is_idempotent(
    library: Map<u128, MaterialModel>,
    record: MaterialModel,
)
    ensures
        library_with(library_with(library, record), record) == library_with(library, record),
{
}

} // verus!
