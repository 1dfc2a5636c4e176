//! Persistent surface layouts derived from paint-model descriptors.
use crate::paint::{PaintModelDescriptor, PaintModelId, PaintPlaneDescriptor};
use crate::scratch::{lemma_plane_bytes_grow, pixel_count, plane_bytes};
use crate::text::same_text;
use vstd::prelude::*;

verus! {

/// Per-plane accounting derived entirely from a model descriptor.
#[derive(Clone, Copy, Debug, PartialEq, Eq)]
pub struct TilePlaneAllocation {
    /// Stable plane name.
    pub name: &'static str,
    /// Bytes consumed by one content tile in this plane.
    pub bytes_per_tile: u64,
}

/// Mathematical value of a [`TilePlaneAllocation`].
#[verifier::ext_equal]
pub struct PlaneModel {
    pub name: Seq<char>,
    pub bytes_per_tile: u64,
}

impl View for TilePlaneAllocation {
    type V = PlaneModel;

    open spec fn view(&self) -> PlaneModel {
        PlaneModel { name: self.name@, bytes_per_tile: self.bytes_per_tile }
    }
}

/// Descriptor-derived persistent surface layout.
#[derive(Clone, Debug, PartialEq, Eq)]
pub struct TileSurfaceLayout {
    /// Paint-model implementation owning the planes.
    pub model: PaintModelId,
    /// Persisted implementation version.
    pub model_version: u32,
    /// Content tile edge length.
    pub tile_size: u32,
    /// Every persistent model plane.
    pub planes: Vec<TilePlaneAllocation>,
    /// Sum of all plane costs for one resident tile.
    pub bytes_per_tile: u64,
}

/// Mathematical value of a [`TileSurfaceLayout`].
#[verifier::ext_equal]
pub struct LayoutModel {
    pub model: PaintModelId,
    pub model_version: u32,
    pub tile_size: u32,
    pub planes: Seq<PlaneModel>,
    pub bytes_per_tile: u64,
}

/// The plane allocations of a list, as values.
pub open spec fn plane_models(planes: Seq<TilePlaneAllocation>) -> Seq<PlaneModel> {
    planes.map_values(|plane: TilePlaneAllocation| plane@)
}

impl View for TileSurfaceLayout {
    type V = LayoutModel;

    open spec fn view(&self) -> LayoutModel {
        LayoutModel {
            model: self.model,
            model_version: self.model_version,
            tile_size: self.tile_size,
            planes: plane_models(self.planes@),
            bytes_per_tile: self.bytes_per_tile,
        }
    }
}

/// A tile edge of at least one pixel.
pub open spec fn tile_edge(tile_size: u32) -> u32 {
    if tile_size == 0 { 1 } else { tile_size }
}

/// Whether all planes together need a 64-bit number of bytes for the tiles.
pub open spec fn planes_fit(
    planes: Seq<PaintPlaneDescriptor>,
    tile_size: u32,
    tile_count: u32,
) -> bool {
    &&& pixel_count(tile_size, tile_count) <= u64::MAX
    &&& plane_bytes(planes, pixel_count(tile_size, tile_count)) <= u64::MAX
}

/// The layout that a paint model asks for.
pub open spec fn model_layout(
    id: PaintModelId,
    version: u32,
    planes: Seq<PaintPlaneDescriptor>,
    tile_size: u32,
) -> LayoutModel {
    let pixels = pixel_count(tile_edge(tile_size), 1);
    LayoutModel {
        model: id,
        model_version: version,
        tile_size: tile_edge(tile_size),
        planes: planes.map_values(
            |plane: PaintPlaneDescriptor|
                PlaneModel {
                    name: plane.name@,
                    bytes_per_tile: (plane.format.pixel_cost() * pixels) as u64,
                },
        ),
        bytes_per_tile: plane_bytes(planes, pixels) as u64,
    }
}

/// Whether all planes together need a 64-bit number of bytes for the tiles.
pub fn planes_are_addressable(
    planes: &Vec<PaintPlaneDescriptor>,
    tile_size: u32,
    tile_count: u32,
) -> (fits: bool)
    ensures
        fits == planes_fit(planes@, tile_size, tile_count),
{
    let ghost count = pixel_count(tile_size, tile_count);
    proof {
        assert((tile_size as nat) * (tile_size as nat) <= 0xffff_ffff * 0xffff_ffff)
            by (nonlinear_arith)
            requires
                tile_size <= 0xffff_ffff,
        ;
    }
    let area: u64 = tile_size as u64 * tile_size as u64;
    let pixels: u64 = match area.checked_mul(tile_count as u64) {
        Some(pixels) => pixels,
        None => {
            return false;
        },
    };
    let mut bytes: u64 = 0;
    for i in 0..planes.len()
        invariant
            pixels == count,
            count == pixel_count(tile_size, tile_count),
            bytes == plane_bytes(planes@.take(i as int), count),
    {
        proof {
            lemma_plane_bytes_grow(planes@, count, i as int);
        }
        let cost: u64 = planes[i].format.bytes_per_pixel();
        assert(cost * pixels >= 0) by (nonlinear_arith)
            requires
                cost >= 0,
                pixels >= 0,
        ;
        match cost.checked_mul(pixels) {
            None => {
                return false;
            },
            Some(plane) => match bytes.checked_add(plane) {
                None => {
                    return false;
                },
                Some(sum) => {
                    bytes = sum;
                },
            },
        }
    }
    assert(planes@.take(planes@.len() as int) =~= planes@);
    true
}

/// Fewer tiles cost no more.
pub proof fn lemma_fewer_tiles_fit(
    planes: Seq<PaintPlaneDescriptor>,
    tile_size: u32,
    fewer: u32,
    more: u32,
)
    requires
        fewer <= more,
        planes_fit(planes, tile_size, more),
    ensures
        planes_fit(planes, tile_size, fewer),
{
    assert(pixel_count(tile_size, fewer) <= pixel_count(tile_size, more)) by {
        let area = (tile_size as nat) * (tile_size as nat);
        assert(area * fewer <= area * more) by (nonlinear_arith)
            requires
                fewer <= more,
                area >= 0,
        ;
    }
    lemma_plane_bytes_monotone(
        planes,
        pixel_count(tile_size, fewer),
        pixel_count(tile_size, more),
    );
}

proof fn lemma_plane_bytes_monotone(planes: Seq<PaintPlaneDescriptor>, fewer: nat, more: nat)
    requires
        fewer <= more,
    ensures
        plane_bytes(planes, fewer) <= plane_bytes(planes, more),
    decreases planes.len(),
{
    if planes.len() > 0 {
        lemma_plane_bytes_monotone(planes.drop_last(), fewer, more);
        let cost = planes.last().format.pixel_cost();
        assert(cost * fewer <= cost * more) by (nonlinear_arith)
            requires
                fewer <= more,
                cost >= 0,
        ;
    }
}

impl TileSurfaceLayout {
    /// Builds allocation metadata without assuming RGBA or a fixed channel count.
    ///
    /// The bytes of one tile must be a 64-bit number.
    pub fn from_model(model: &PaintModelDescriptor, tile_size: u32) -> (layout: Self)
        requires
            planes_fit(model.persistent_planes@, tile_edge(tile_size), 1),
        ensures
            layout@ == model_layout(
                model.id,
                model.version,
                model.persistent_planes@,
                tile_size,
            ),
    {
        let edge: u32 = if tile_size == 0 { 1 } else { tile_size };
        let ghost count = pixel_count(tile_edge(tile_size), 1);
        let ghost source = model.persistent_planes@;
        let ghost target = model_layout(model.id, model.version, source, tile_size);
        proof {
            assert((edge as nat) * (edge as nat) <= 0xffff_ffff * 0xffff_ffff) by (nonlinear_arith)
                requires
                    edge <= 0xffff_ffff,
            ;
        }
        let pixels: u64 = edge as u64 * edge as u64;
        let mut planes: Vec<TilePlaneAllocation> = Vec::new();
        let mut bytes: u64 = 0;
        for i in 0..model.persistent_planes.len()
            invariant
                pixels == count,
                source == model.persistent_planes@,
                count == pixel_count(tile_edge(tile_size), 1),
                target == model_layout(model.id, model.version, source, tile_size),
                plane_bytes(source, count) <= u64::MAX,
                bytes == plane_bytes(source.take(i as int), count),
                planes@.len() == i,
                forall|j: int| 0 <= j < i ==> (#[trigger] planes@[j])@ == target.planes[j],
        {
            proof {
                lemma_plane_bytes_grow(source, count, i as int);
            }
            let plane = &model.persistent_planes[i];
            let cost: u64 = plane.format.bytes_per_pixel();
            assert(cost * pixels >= 0) by (nonlinear_arith)
                requires
                    cost >= 0,
                    pixels >= 0,
            ;
            bytes = bytes + cost * pixels;
            planes.push(TilePlaneAllocation { name: plane.name, bytes_per_tile: cost * pixels });
        }
        assert(source.take(source.len() as int) =~= source);
        assert(plane_models(planes@) =~= target.planes);
        TileSurfaceLayout {
            model: model.id,
            model_version: model.version,
            tile_size: edge,
            planes,
            bytes_per_tile: bytes,
        }
    }

    /// Whether two layouts describe the same planes of the same model.
    pub fn same_as(&self, other: &TileSurfaceLayout) -> (same: bool)
        ensures
            same == (self@ == other@),
    {
        if self.model != other.model || self.model_version != other.model_version
            || self.tile_size != other.tile_size || self.bytes_per_tile != other.bytes_per_tile
            || self.planes.len() != other.planes.len() {
            assert(self@.planes.len() == self.planes@.len());
            assert(other@.planes.len() == other.planes@.len());
            return false;
        }
        for i in 0..self.planes.len()
            invariant
                self.planes@.len() == other.planes@.len(),
                forall|j: int| 0 <= j < i ==> (#[trigger] self@.planes[j]) == other@.planes[j],
        {
            assert(self@.planes[i as int] == self.planes@[i as int]@);
            assert(other@.planes[i as int] == other.planes@[i as int]@);
            if self.planes[i].bytes_per_tile != other.planes[i].bytes_per_tile || !same_text(
                self.planes[i].name,
                other.planes[i].name,
            ) {
                return false;
            }
        }
        assert(self@.planes =~= other@.planes);
        true
    }
}

} // verus!
