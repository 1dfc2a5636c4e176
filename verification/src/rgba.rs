//! The built-in paint model: premultiplied linear RGBA deposition.
use crate::ordered::{ascending, lists};
use crate::paint::{
    lemma_material_rank_injective, library_with, rgba_recipe, rgba_reference, DepositionOrdering,
    MaterialModel, PaintMaterialId, PaintMaterialLibrary, PaintMaterialPayload, PaintMaterialRecord,
    PaintModelDescriptor, PaintModelId, PaintPlaneClearValue, PaintPlaneDescriptor,
    PaintPlaneFormat, PayloadModel, Rgba, RGBA_MODEL_VERSION, RGBA_PAINT_MODEL_ID,
};
use crate::scalar::Scalar;
use vstd::prelude::*;

verus! {

/// Premultiplied linear RGBA material consumed by live and cached deposition.
#[derive(Clone, Copy, Debug, PartialEq, Eq, Structural)]
pub struct RgbaMaterial {
    /// Premultiplied linear RGBA channels.
    pub premultiplied_linear_rgba: Rgba,
}

/// Mathematical value of an [`RgbaPaintModel`].
#[verifier::ext_equal]
pub struct RgbaModelState {
    /// Material table; the position of a material is its identifier.
    pub materials: Seq<RgbaMaterial>,
    /// Material-table revision.
    pub revision: u64,
}

/// Whether `extent` is one more than the largest RGBA material that the
/// library knows, or zero when it knows none.
pub open spec fn is_rgba_extent(library: Map<u128, MaterialModel>, extent: int) -> bool {
    &&& 0 <= extent
    &&& extent == 0 || rgba_recipe(library, extent - 1) is Some
    &&& forall|material: int| #[trigger]
        rgba_recipe(library, material) is Some ==> material < extent
}

/// Entry of the material table before any recipe is applied.
pub open spec fn table_entry(materials: Seq<RgbaMaterial>, i: int) -> RgbaMaterial {
    if i < materials.len() {
        materials[i]
    } else {
        RgbaMaterial { premultiplied_linear_rgba: Rgba::transparent() }
    }
}

/// Entry of the material table after the library's recipe is applied.
pub open spec fn synced_entry(
    materials: Seq<RgbaMaterial>,
    library: Map<u128, MaterialModel>,
    i: int,
) -> RgbaMaterial {
    match rgba_recipe(library, i) {
        Some(rgba) => if table_entry(materials, i).premultiplied_linear_rgba.same_number(rgba) {
            table_entry(materials, i)
        } else {
            RgbaMaterial { premultiplied_linear_rgba: rgba }
        },
        None => table_entry(materials, i),
    }
}

impl RgbaModelState {
    /// The built-in ink and eraser materials.
    pub open spec fn initial() -> Self {
        RgbaModelState {
            materials: seq![
                RgbaMaterial {
                    premultiplied_linear_rgba: Rgba {
                        red: Scalar { bits: 0x3c75_c28f },
                        green: Scalar { bits: 0x3ca3_d70a },
                        blue: Scalar { bits: 0x3cf5_c28f },
                        alpha: Scalar { bits: 0x3f80_0000 },
                    },
                },
                RgbaMaterial {
                    premultiplied_linear_rgba: Rgba {
                        red: Scalar { bits: 0x3f80_0000 },
                        green: Scalar { bits: 0x3f80_0000 },
                        blue: Scalar { bits: 0x3f80_0000 },
                        alpha: Scalar { bits: 0x3f80_0000 },
                    },
                },
            ],
            revision: 1,
        }
    }

    /// The table with one more material.
    pub open spec fn with_material(self, material: RgbaMaterial) -> Self {
        RgbaModelState {
            materials: self.materials.push(material),
            revision: self.revision.wrapping_add(1),
        }
    }

    /// The table length that `extent` asks for.
    pub open spec fn synced_len(self, extent: int) -> nat {
        if self.materials.len() < extent { extent as nat } else { self.materials.len() }
    }

    /// Whether applying the recipes changes the table.
    pub open spec fn differs_from(self, library: Map<u128, MaterialModel>, extent: int) -> bool {
        ||| self.materials.len() < extent
        ||| exists|i: int|
            #![trigger rgba_recipe(library, i)]
            0 <= i < self.materials.len() && rgba_recipe(library, i) is Some
                && !self.materials[i].premultiplied_linear_rgba.same_number(
                rgba_recipe(library, i)->0,
            )
    }

    /// The table with the library's recipes applied at their identifiers.
    pub open spec fn synced(self, library: Map<u128, MaterialModel>, extent: int) -> Self {
        RgbaModelState {
            materials: Seq::new(
                self.synced_len(extent),
                |i: int| synced_entry(self.materials, library, i),
            ),
            revision: if self.differs_from(library, extent) {
                self.revision.wrapping_add(1)
            } else {
                self.revision
            },
        }
    }
}

/// The first production paint model: premultiplied linear RGBA deposition.
#[derive(Clone, Debug)]
pub struct RgbaPaintModel {
    materials: Vec<RgbaMaterial>,
    revision: u64,
}

impl View for RgbaPaintModel {
    type V = RgbaModelState;

    closed spec fn view(&self) -> RgbaModelState {
        RgbaModelState { materials: self.materials@, revision: self.revision }
    }
}

impl Default for RgbaPaintModel {
    fn default() -> (model: Self)
        ensures
            model@ == RgbaModelState::initial(),
    {
        let mut materials: Vec<RgbaMaterial> = Vec::new();
        materials.push(
            RgbaMaterial {
                premultiplied_linear_rgba: Rgba {
                    red: Scalar { bits: 0x3c75_c28f },
                    green: Scalar { bits: 0x3ca3_d70a },
                    blue: Scalar { bits: 0x3cf5_c28f },
                    alpha: Scalar { bits: 0x3f80_0000 },
                },
            },
        );
        materials.push(
            RgbaMaterial {
                premultiplied_linear_rgba: Rgba {
                    red: Scalar { bits: 0x3f80_0000 },
                    green: Scalar { bits: 0x3f80_0000 },
                    blue: Scalar { bits: 0x3f80_0000 },
                    alpha: Scalar { bits: 0x3f80_0000 },
                },
            },
        );
        let model = RgbaPaintModel { materials, revision: 1 };
        assert(model@.materials =~= RgbaModelState::initial().materials);
        model
    }
}

impl RgbaPaintModel {
    /// Returns all material records.
    pub fn materials(&self) -> (materials: &Vec<RgbaMaterial>)
        ensures
            materials@ == self@.materials,
    {
        &self.materials
    }

    /// Returns the monotonically increasing material-table revision.
    pub fn revision(&self) -> (revision: u64)
        ensures
            revision == self@.revision,
    {
        self.revision
    }

    /// Appends an immutable material record and returns its identifier.
    pub fn add_material(&mut self, material: RgbaMaterial) -> (id: PaintMaterialId)
        ensures
            id == PaintMaterialId(old(self)@.materials.len() as u32),
            final(self)@ == old(self)@.with_material(material),
    {
        let id = PaintMaterialId(self.materials.len() as u32);
        self.materials.push(material);
        self.revision = self.revision.wrapping_add(1);
        id
    }

    /// Applies the document's RGBA recipes, each at the identifier that the
    /// document gave it.
    pub fn sync_from_document(&mut self, library: &PaintMaterialLibrary)
        requires
            library.well_formed(),
        ensures
            exists|extent: int| #[trigger]
                is_rgba_extent(library@, extent) && final(self)@ == old(self)@.synced(
                    library@,
                    extent,
                ),
    {
        let ghost before = self@;
        let ghost ranks = ascending(library@.dom());
        let records = library.iter();
        let mut extent: u64 = 0;
        for n in 0..records.len()
            invariant
                library.well_formed(),
                ranks == ascending(library@.dom()),
                lists(ranks, library@.dom()),
                records@.len() == ranks.len(),
                forall|i: int| 0 <= i < records@.len() ==> (#[trigger] records@[i])@ == library@[
                    ranks[i]
                ],
                extent <= u32::MAX + 1,
                extent == 0 || rgba_recipe(library@, extent - 1) is Some,
                forall|m: int|
                    #![trigger ranks[m]]
                    0 <= m < n ==> forall|material: int| #[trigger]
                        rgba_recipe(library@, material) is Some && rgba_reference(
                            material as u32,
                        ).spec_rank() == ranks[m] ==> material < extent,
        {
            let record: &PaintMaterialRecord = records[n];
            assert(ranks.contains(ranks[n as int]));
            assert(library@.dom().contains(ranks[n as int]));
            match rgba_channels(record) {
                Some(_) => {
                    let next: u64 = record.reference.material.0 as u64 + 1;
                    proof {
                        assert(record.reference == rgba_reference(record.reference.material.0));
                        assert(rgba_recipe(library@, next - 1) is Some);
                    }
                    if extent < next {
                        extent = next;
                    }
                },
                None => {},
            }
            proof {
                assert forall|material: int| #[trigger]
                    rgba_recipe(library@, material) is Some && rgba_reference(
                        material as u32,
                    ).spec_rank() == ranks[n as int] implies material < extent by {
                    lemma_material_rank_injective(
                        rgba_reference(material as u32),
                        record.reference,
                    );
                }
            }
        }
        proof {
            assert forall|material: int| #[trigger]
                rgba_recipe(library@, material) is Some implies material < extent by {
                let rank = rgba_reference(material as u32).spec_rank();
                assert(library@.dom().contains(rank));
                let m = choose|m: int| 0 <= m < ranks.len() && ranks[m] == rank;
                assert(ranks[m] == rank);
            }
            assert(is_rgba_extent(library@, extent as int));
        }
        let mut changed = false;
        if (self.materials.len() as u64) < extent {
            changed = true;
        }
        while (self.materials.len() as u64) < extent
            invariant
                extent <= u32::MAX + 1,
                before.materials.len() <= self.materials@.len(),
                self.materials@.len() <= extent || self.materials@ == before.materials,
                self.revision == before.revision,
                forall|i: int|
                    0 <= i < self.materials@.len() ==> self.materials@[i] == table_entry(
                        before.materials,
                        i,
                    ),
            decreases extent - self.materials@.len(),
        {
            self.materials.push(
                RgbaMaterial { premultiplied_linear_rgba: Rgba::transparent() },
            );
        }
        assert(self.materials@.len() == before.synced_len(extent as int));
        for n in 0..records.len()
            invariant
                library.well_formed(),
                lists(ranks, library@.dom()),
                records@.len() == ranks.len(),
                forall|i: int| 0 <= i < records@.len() ==> (#[trigger] records@[i])@ == library@[
                    ranks[i]
                ],
                is_rgba_extent(library@, extent as int),
                self.revision == before.revision,
                self.materials@.len() == before.synced_len(extent as int),
                forall|i: int|
                    0 <= i < self.materials@.len() ==> {
                        ||| #[trigger] self.materials@[i] == synced_entry(
                            before.materials,
                            library@,
                            i,
                        ) && among(ranks, n as int, i)
                        ||| self.materials@[i] == table_entry(before.materials, i) && !among(
                            ranks,
                            n as int,
                            i,
                        )
                    },
                changed ==> before.differs_from(library@, extent as int),
                before.materials.len() < extent ==> changed,
                changed || entries_current(before.materials, library@, ranks, n as int),
        {
            let record: &PaintMaterialRecord = records[n];
            assert(ranks.contains(ranks[n as int]));
            assert(library@.dom().contains(ranks[n as int]));
            let ghost earlier = self.materials@;
            proof {
                lemma_among_step(ranks, n as int);
            }
            match rgba_channels(record) {
                Some(rgba) => {
                    let id: usize = record.reference.material.0 as usize;
                    assert(record.reference == rgba_reference(record.reference.material.0));
                    assert(rgba_recipe(library@, id as int) == Some(rgba));
                    assert(ranks[n as int] == rgba_reference(id as u32).spec_rank());
                    assert(among(ranks, n + 1, id as int));
                    assert(!among(ranks, n as int, id as int)) by {
                        if among(ranks, n as int, id as int) {
                            let m = choose|m: int|
                                0 <= m < n && #[trigger] ranks[m] == rgba_reference(
                                    id as u32,
                                ).spec_rank();
                            assert(ranks[m] < ranks[n as int]);
                        }
                    }
                    if !self.materials[id].premultiplied_linear_rgba.equals(rgba) {
                        self.materials.set(id, RgbaMaterial { premultiplied_linear_rgba: rgba });
                        proof {
                            if id < before.materials.len() {
                                assert(rgba_recipe(library@, id as int) is Some);
                            }
                        }
                        changed = true;
                    }
                    assert(!changed && id < before.materials.len() ==> entry_current(
                        before.materials,
                        library@,
                        id as int,
                    )) by {
                        assert(earlier[id as int] == table_entry(before.materials, id as int));
                    }
                },
                None => {},
            }
            proof {
                if !changed {
                    assert forall|i: int|
                        0 <= i < before.materials.len() && #[trigger] among(
                            ranks,
                            n + 1,
                            i,
                        ) implies entry_current(before.materials, library@, i) by {
                        if !among(ranks, n as int, i) {
                            lemma_material_rank_injective(
                                rgba_reference(i as u32),
                                record.reference,
                            );
                            assert(record.reference.material.0 == i);
                        }
                    }
                }
                assert forall|i: int| 0 <= i < self.materials@.len() implies {
                    ||| #[trigger] self.materials@[i] == synced_entry(
                        before.materials,
                        library@,
                        i,
                    ) && among(ranks, n + 1, i)
                    ||| self.materials@[i] == table_entry(before.materials, i) && !among(
                        ranks,
                        n + 1,
                        i,
                    )
                } by {
                    assert(earlier[i] == synced_entry(before.materials, library@, i) && among(
                        ranks,
                        n as int,
                        i,
                    ) || earlier[i] == table_entry(before.materials, i) && !among(
                        ranks,
                        n as int,
                        i,
                    ));
                    if among(ranks, n + 1, i) && !among(ranks, n as int, i) {
                        assert(i <= u32::MAX);
                        assert(ranks[n as int] == rgba_reference(i as u32).spec_rank());
                        lemma_material_rank_injective(
                            rgba_reference(i as u32),
                            record.reference,
                        );
                    }
                }
            }
        }
        if changed {
            self.revision = self.revision.wrapping_add(1);
        }
        proof {
            assert forall|i: int| 0 <= i < self.materials@.len() implies #[trigger] self.materials@[
                i
            ] == synced_entry(before.materials, library@, i) by {
                if !among(ranks, ranks.len() as int, i) && rgba_recipe(library@, i) is Some {
                    let rank = rgba_reference(i as u32).spec_rank();
                    assert(library@.dom().contains(rank));
                    let m = choose|m: int| 0 <= m < ranks.len() && ranks[m] == rank;
                    assert(ranks[m] == rank);
                }
            }
            if before.differs_from(library@, extent as int) && !changed {
                let i = choose|i: int|
                    #![trigger rgba_recipe(library@, i)]
                    0 <= i < before.materials.len() && rgba_recipe(library@, i) is Some
                        && !before.materials[i].premultiplied_linear_rgba.same_number(
                        rgba_recipe(library@, i)->0,
                    );
                let rank = rgba_reference(i as u32).spec_rank();
                assert(library@.dom().contains(rank));
                let m = choose|m: int| 0 <= m < ranks.len() && ranks[m] == rank;
                assert(ranks[m] == rank);
                assert(among(ranks, ranks.len() as int, i));
                assert(entry_current(before.materials, library@, i));
            }
            assert(self@.materials =~= before.synced(library@, extent as int).materials);
        }
    }

    /// Descriptor of the RGBA model: one 8-bit premultiplied color plane.
    pub fn descriptor() -> (descriptor: PaintModelDescriptor)
        ensures
            descriptor.id == PaintModelId(RGBA_PAINT_MODEL_ID),
            descriptor.version == RGBA_MODEL_VERSION,
            descriptor.name@ == "Premultiplied linear RGBA"@,
            descriptor.persistent_planes@.len() == 1,
            descriptor.persistent_planes@[0].name@ == "rgba"@,
            descriptor.persistent_planes@[0].semantic@
                == "premultiplied linear display color and opacity"@,
            descriptor.persistent_planes@[0].format == PaintPlaneFormat::Rgba8Unorm,
            descriptor.persistent_planes@[0].clear == PaintPlaneClearValue::Zero,
            descriptor.scratch_planes@.len() == 0,
            descriptor.deposition_ordering == DepositionOrdering::Strict,
    {
        let mut persistent_planes: Vec<PaintPlaneDescriptor> = Vec::new();
        persistent_planes.push(
            PaintPlaneDescriptor {
                name: "rgba",
                semantic: "premultiplied linear display color and opacity",
                format: PaintPlaneFormat::Rgba8Unorm,
                clear: PaintPlaneClearValue::Zero,
            },
        );
        PaintModelDescriptor {
            id: PaintModelId(RGBA_PAINT_MODEL_ID),
            version: RGBA_MODEL_VERSION,
            name: "Premultiplied linear RGBA",
            persistent_planes,
            scratch_planes: Vec::new(),
            deposition_ordering: DepositionOrdering::Strict,
        }
    }
}

/// The channels of a record that the RGBA model interprets.
fn rgba_channels(record: &PaintMaterialRecord) -> (channels: Option<Rgba>)
    ensures
        channels == if record.reference == rgba_reference(record.reference.material.0) {
            match record@.payload {
                PayloadModel::PremultipliedLinearRgba(rgba) => Some(rgba),
                PayloadModel::ModelData { .. } => None,
            }
        } else {
            None
        },
{
    if record.reference.model == PaintModelId(RGBA_PAINT_MODEL_ID)
        && record.reference.model_version == RGBA_MODEL_VERSION {
        match &record.payload {
            PaintMaterialPayload::PremultipliedLinearRgba(rgba) => Some(*rgba),
            PaintMaterialPayload::ModelData { .. } => None,
        }
    } else {
        None
    }
}

/// Whether the reference of an RGBA material stands among the first `count` ranks.
spec fn among(ranks: Seq<u128>, count: int, material: int) -> bool {
    0 <= material <= u32::MAX && exists|m: int|
        0 <= m < count && m < ranks.len() && #[trigger] ranks[m] == rgba_reference(
            material as u32,
        ).spec_rank()
}

/// Whether the recipe of a table entry, if any, is the number it already holds.
spec fn entry_current(
    materials: Seq<RgbaMaterial>,
    library: Map<u128, MaterialModel>,
    i: int,
) -> bool {
    rgba_recipe(library, i) matches Some(rgba)
        ==> materials[i].premultiplied_linear_rgba.same_number(rgba)
}

/// Whether that holds of all entries whose reference stands among the first
/// `count` ranks.
spec fn entries_current(
    materials: Seq<RgbaMaterial>,
    library: Map<u128, MaterialModel>,
    ranks: Seq<u128>,
    count: int,
) -> bool {
    forall|i: int|
        0 <= i < materials.len() && #[trigger] among(ranks, count, i) ==> entry_current(
            materials,
            library,
            i,
        )
}

proof fn lemma_among_step(ranks: Seq<u128>, count: int)
    requires
        0 <= count < ranks.len(),
    ensures
        forall|material: int| #[trigger]
            among(ranks, count + 1, material) <==> among(ranks, count, material) || (0 <= material
                <= u32::MAX && ranks[count] == rgba_reference(material as u32).spec_rank()),
{
    assert forall|material: int| among(ranks, count, material) implies #[trigger] among(
        ranks,
        count + 1,
        material,
    ) by {
        let m = choose|m: int|
            0 <= m < count && m < ranks.len() && #[trigger] ranks[m] == rgba_reference(
                material as u32,
            ).spec_rank();
        assert(ranks[m] == rgba_reference(material as u32).spec_rank());
    }
}

/// After syncing, every RGBA recipe of the document stands at its own
/// identifier, up to the sign of zeroes.
pub proof fn law_sync_restores_identifiers(
    state: RgbaModelState,
    library: Map<u128, MaterialModel>,
    extent: int,
    material: int,
)
    requires
        is_rgba_extent(library, extent),
        rgba_recipe(library, material) is Some,
    ensures
        0 <= material < state.synced(library, extent).materials.len(),
        state.synced(library, extent).materials[material].premultiplied_linear_rgba
            == rgba_recipe(library, material)->0
            || state.synced(library, extent).materials[material].premultiplied_linear_rgba.same_number(
            rgba_recipe(library, material)->0,
        ),
{
}

/// The library with a recipe added for each of the first `count` materials of a
/// table whose identity it does not know yet.
pub open spec fn library_with_table(
    library: Map<u128, MaterialModel>,
    materials: Seq<RgbaMaterial>,
    count: nat,
) -> Map<u128, MaterialModel>
    decreases count,
{
    if count == 0 {
        library
    } else {
        library_with(
            library_with_table(library, materials, (count - 1) as nat),
            MaterialModel {
                reference: rgba_reference((count - 1) as u32),
                payload: PayloadModel::PremultipliedLinearRgba(
                    materials[count - 1].premultiplied_linear_rgba,
                ),
            },
        )
    }
}

/// Adds the materials of a table to a document's library; known identities
/// keep their recipes.
pub fn add_table_to_library(library: &mut PaintMaterialLibrary, materials: &Vec<RgbaMaterial>)
    requires
        old(library).well_formed(),
    ensures
        final(library).well_formed(),
        final(library)@ == library_with_table(old(library)@, materials@, materials@.len()),
{
    let ghost before = library@;
    for index in 0..materials.len()
        invariant
            library.well_formed(),
            library@ == library_with_table(before, materials@, index as nat),
    {
        let _ = library.add(
            PaintMaterialRecord {
                reference: rgba_reference(index as u32),
                payload: PaintMaterialPayload::PremultipliedLinearRgba(
                    materials[index].premultiplied_linear_rgba,
                ),
            },
        );
    }
}

} // verus!
