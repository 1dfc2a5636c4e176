//! What paints, surfaces, scratch memory and counters add up to.
use crate::cache::TileCacheStats;
use crate::diagnostics::{log_is_due, StrokeTelemetrySnapshot};
use crate::maintenance::{effect_budget, replay_budget};
use crate::ordered::{ascending, Ranked};
use crate::paint::{
    library_filed, library_with, rgba_reference, MaterialModel, PaintMaterialLibrary,
    PaintMaterialRecord, PaintMaterialRef, PaintModelDescriptor, PaintModelId, PaintModelRegistry,
    PaintPlaneDescriptor, PaintPlaneFormat, PayloadModel,
};
use crate::rgba::{
    is_rgba_extent, library_with_table, synced_entry, RgbaMaterial, RgbaModelState, RgbaPaintModel,
};
use crate::scratch::{pixel_count, plane_bytes, ScratchPoolModel};
use crate::strokes::StrokeRendererSettings;
use crate::surface::{
    planes_are_addressable, planes_fit, tile_edge, TilePlaneAllocation, TileSurfaceLayout,
};
use vstd::prelude::*;

verus! {

/// A pixel of a plane takes as many bytes as its channels.
pub proof fn law_pixels_take_the_bytes_of_their_channels(format: PaintPlaneFormat, bytes: u64)
    requires
        call_ensures(PaintPlaneFormat::bytes_per_pixel, (format,), bytes),
    ensures
        format is Rgba8Unorm ==> bytes == 4 * 1,
        format is Rgba16Float ==> bytes == 4 * 2,
        format is R32Float ==> bytes == 1 * 4,
        format matches PaintPlaneFormat::Custom { bytes_per_pixel } ==> bytes == bytes_per_pixel,
{
}

/// Paints are told apart by model, version of the model and material, and are listed in this
/// order.
pub proof fn law_paints_are_ordered_by_model_version_and_material(
    a: PaintMaterialRef,
    b: PaintMaterialRef,
    rank_a: u128,
    rank_b: u128,
)
    requires
        call_ensures(PaintMaterialRef::rank, (a,), rank_a),
        call_ensures(PaintMaterialRef::rank, (b,), rank_b),
    ensures
        rank_a == rank_b <==> a == b,
        rank_a < rank_b <==> {
            ||| a.model.0 < b.model.0
            ||| a.model == b.model && a.model_version < b.model_version
            ||| a.model == b.model && a.model_version == b.model_version && a.material.0
                < b.material.0
        },
{
}

/// A recipe of a new paint is found under it, and all other recipes stay as they are.
pub proof fn law_new_recipes_are_found(
    library: Map<u128, MaterialModel>,
    record: MaterialModel,
    reference: PaintMaterialRef,
)
    requires
        library_filed(library),
    ensures
        ({
            let after = library_with(library, record);
            &&& after.contains_key(record.reference.spec_rank())
            &&& !library.contains_key(record.reference.spec_rank())
                ==> after[record.reference.spec_rank()] == record
            &&& reference != record.reference ==> (after.contains_key(reference.spec_rank())
                <==> library.contains_key(reference.spec_rank()))
            &&& reference != record.reference && library.contains_key(reference.spec_rank())
                ==> after[reference.spec_rank()] == library[reference.spec_rank()]
        }),
{
}

/// A library lists every recipe once, in the order of its paints.
pub proof fn law_libraries_list_every_recipe(
    library: PaintMaterialLibrary,
    records: Vec<&PaintMaterialRecord>,
    reference: PaintMaterialRef,
)
    requires
        library.well_formed(),
        call_ensures(PaintMaterialLibrary::iter, (&library,), records),
    ensures
        library@.contains_key(reference.spec_rank()) <==> exists|i: int|
            0 <= i < records@.len() && (#[trigger] records@[i]).reference == reference,
        forall|i: int|
            0 <= i < records@.len() ==> library@.contains_key(
                (#[trigger] records@[i]).reference.spec_rank(),
            ) && library@[records@[i].reference.spec_rank()] == records@[i]@,
        forall|i: int, j: int|
            0 <= i < j < records@.len() ==> (#[trigger] records@[i]).reference.spec_rank() < (
            #[trigger] records@[j]).reference.spec_rank(),
{
    let ranks = ascending(library@.dom());
    assert forall|i: int| 0 <= i < records@.len() implies library@.contains_key(
        (#[trigger] records@[i]).reference.spec_rank(),
    ) && library@[records@[i].reference.spec_rank()] == records@[i]@
        && records@[i].reference.spec_rank() == ranks[i] by {
        assert(ranks.contains(ranks[i]));
        assert(library@.dom().contains(ranks[i]));
        assert(library@.contains_key(ranks[i]));
        assert(records@[i]@ == library@[ranks[i]]);
        assert(records@[i]@.reference == records@[i].reference);
    }
    assert forall|i: int, j: int| 0 <= i < j < records@.len() implies (
    #[trigger] records@[i]).reference.spec_rank() < (
    #[trigger] records@[j]).reference.spec_rank() by {
        assert(ranks[i].rank() < ranks[j].rank());
    }
    if library@.contains_key(reference.spec_rank()) {
        assert(library@.dom().contains(reference.spec_rank()));
        assert(ranks.contains(reference.spec_rank()));
        let i = choose|i: int| 0 <= i < ranks.len() && ranks[i] == reference.spec_rank();
        assert(records@[i].reference.spec_rank() == ranks[i]);
        crate::paint::lemma_material_rank_injective(records@[i].reference, reference);
        assert(records@[i].reference == reference);
    }
}

/// A registry lists every model once, in the order of their numbers.
pub proof fn law_registries_list_every_model(
    registry: PaintModelRegistry,
    models: Vec<&PaintModelDescriptor>,
    id: PaintModelId,
)
    requires
        registry.well_formed(),
        call_ensures(PaintModelRegistry::iter, (&registry,), models),
    ensures
        registry@.contains_key(id.0 as u64) <==> exists|i: int|
            0 <= i < models@.len() && (#[trigger] models@[i]).id == id,
        forall|i: int, j: int|
            0 <= i < j < models@.len() ==> (#[trigger] models@[i]).id.0 < (
            #[trigger] models@[j]).id.0,
{
    let keys = ascending(registry@.dom());
    assert forall|i: int| 0 <= i < models@.len() implies registry@.contains_key(
        (#[trigger] models@[i]).id.0 as u64,
    ) && models@[i].id.0 == keys[i] by {
        assert(keys.contains(keys[i]));
        assert(registry@.dom().contains(keys[i]));
        assert(registry@.contains_key(keys[i]));
        assert(models@[i] == &registry@[keys[i]]);
    }
    assert forall|i: int, j: int| 0 <= i < j < models@.len() implies (
    #[trigger] models@[i]).id.0 < (#[trigger] models@[j]).id.0 by {
        assert(keys[i].rank() < keys[j].rank());
    }
    if registry@.contains_key(id.0 as u64) {
        assert(registry@.dom().contains(id.0 as u64));
        assert(keys.contains(id.0 as u64));
        let i = choose|i: int| 0 <= i < keys.len() && keys[i] == id.0 as u64;
        assert(models@[i].id.0 == keys[i]);
    }
}

/// A new colour is found under the number that is handed out for it, and no other changes.
pub proof fn law_new_colours_are_found_by_number(state: RgbaModelState, material: RgbaMaterial)
    ensures
        ({
            let after = state.with_material(material);
            &&& after.materials.len() == state.materials.len() + 1
            &&& after.materials[state.materials.len() as int] == material
            &&& forall|i: int|
                0 <= i < state.materials.len() ==> #[trigger] after.materials[i]
                    == state.materials[i]
            &&& after.revision != state.revision
        }),
{
}

/// Bringing a table in step with a library gives each colour of the library the place of its
/// number, leaves all others alone, and fills gaps with transparency. The revision moves on
/// only where a colour changed or came in.
pub proof fn law_tables_follow_the_library(
    state: RgbaModelState,
    library: Map<u128, MaterialModel>,
    extent: int,
    i: int,
)
    requires
        is_rgba_extent(library, extent),
        0 <= i < state.synced(library, extent).materials.len(),
        i <= u32::MAX,
    ensures
        ({
            let after = state.synced(library, extent);
            let rank = rgba_reference(i as u32).spec_rank();
            let coloured = library.contains_key(rank) && library[rank].payload
                is PremultipliedLinearRgba;
            let colour = after.materials[i].premultiplied_linear_rgba;
            &&& after.materials.len() >= state.materials.len()
            &&& after.materials.len() >= extent
            &&& after.materials.len() == state.materials.len() || after.materials.len() == extent
            &&& coloured ==> colour.same_number(library[rank].payload->PremultipliedLinearRgba_0)
                || colour == library[rank].payload->PremultipliedLinearRgba_0
            &&& !coloured && i < state.materials.len() ==> after.materials[i]
                == state.materials[i]
            &&& !coloured && i >= state.materials.len() ==> colour.red.bits == 0
                && colour.green.bits == 0 && colour.blue.bits == 0 && colour.alpha.bits == 0
            &&& after.revision == state.revision ==> after.materials.len()
                == state.materials.len() && after.materials[i] == state.materials[i]
        }),
{
    let after = state.synced(library, extent);
    assert(after.materials[i] == synced_entry(state.materials, library, i));
    assert(crate::paint::rgba_recipe(library, i) is Some ==> i < extent);
    if extent > 0 {
        assert(crate::paint::rgba_recipe(library, extent - 1) is Some);
    }
}

/// Taking a table into a library adds each of its colours whose number is not taken, and
/// changes no recipe.
pub proof fn law_libraries_take_in_a_table(
    library: Map<u128, MaterialModel>,
    materials: Seq<RgbaMaterial>,
    count: nat,
    reference: PaintMaterialRef,
)
    requires
        count <= materials.len(),
        count <= u32::MAX,
    ensures
        ({
            let after = library_with_table(library, materials, count);
            let rank = reference.spec_rank();
            let listed = reference == rgba_reference(reference.material.0)
                && reference.material.0 < count;
            &&& library.contains_key(rank) ==> after.contains_key(rank) && after[rank]
                == library[rank]
            &&& !library.contains_key(rank) ==> (after.contains_key(rank) <==> listed)
            &&& !library.contains_key(rank) && listed ==> after[rank].reference == reference
                && after[rank].payload == PayloadModel::PremultipliedLinearRgba(
                materials[reference.material.0 as int].premultiplied_linear_rgba,
            )
        }),
    decreases count,
{
    if count > 0 {
        law_libraries_take_in_a_table(library, materials, (count - 1) as nat, reference);
        let last = rgba_reference((count - 1) as u32);
        if last.spec_rank() == reference.spec_rank() {
            crate::paint::lemma_material_rank_injective(last, reference);
        }
    }
}

/// The bytes that planes of a tile take, as they are allocated.
pub open spec fn allocated(planes: Seq<TilePlaneAllocation>) -> nat
    decreases planes.len(),
{
    if planes.len() == 0 {
        0
    } else {
        allocated(planes.drop_last()) + planes.last().bytes_per_tile as nat
    }
}

/// A surface has a plane for each persistent plane of the model, in the same order, with the
/// bytes of all pixels of a tile, and takes the bytes of all planes together.
pub proof fn law_surfaces_hold_every_plane(
    model: PaintModelDescriptor,
    tile_size: u32,
    layout: TileSurfaceLayout,
)
    requires
        tile_size > 0,
        planes_fit(model.persistent_planes@, tile_edge(tile_size), 1),
        call_ensures(TileSurfaceLayout::from_model, (&model, tile_size), layout),
    ensures
        layout.model == model.id,
        layout.model_version == model.version,
        layout.tile_size == tile_size,
        layout.planes@.len() == model.persistent_planes@.len(),
        forall|i: int|
            0 <= i < layout.planes@.len() ==> {
                let plane = #[trigger] layout.planes@[i];
                &&& plane.name@ == model.persistent_planes@[i].name@
                &&& plane.bytes_per_tile == model.persistent_planes@[i].format.pixel_cost()
                    * pixel_count(tile_size, 1)
            },
        layout.bytes_per_tile == allocated(layout.planes@),
{
    let planes = model.persistent_planes@;
    let pixels = pixel_count(tile_size, 1);
    assert(layout@.planes.len() == planes.len());
    assert forall|i: int| 0 <= i < layout.planes@.len() implies {
        let plane = #[trigger] layout.planes@[i];
        &&& plane.name@ == planes[i].name@
        &&& plane.bytes_per_tile == planes[i].format.pixel_cost() * pixels
    } by {
        assert(layout@.planes[i] == layout.planes@[i]@);
        lemma_plane_within(planes, pixels, i);
    }
    lemma_allocated(layout.planes@, planes, pixels);
}

/// One plane takes no more than all of them.
proof fn lemma_plane_within(planes: Seq<PaintPlaneDescriptor>, pixels: nat, i: int)
    requires
        0 <= i < planes.len(),
    ensures
        planes[i].format.pixel_cost() * pixels <= plane_bytes(planes, pixels),
    decreases planes.len(),
{
    let front = planes.drop_last();
    assert(planes.last().format.pixel_cost() * pixels >= 0) by (nonlinear_arith);
    if i < planes.len() - 1 {
        lemma_plane_within(front, pixels, i);
        assert(front[i] == planes[i]);
    }
}

proof fn lemma_allocated(
    allocations: Seq<TilePlaneAllocation>,
    planes: Seq<PaintPlaneDescriptor>,
    pixels: nat,
)
    requires
        allocations.len() == planes.len(),
        forall|i: int|
            0 <= i < allocations.len() ==> (#[trigger] allocations[i]).bytes_per_tile
                == planes[i].format.pixel_cost() * pixels,
    ensures
        allocated(allocations) == plane_bytes(planes, pixels),
    decreases planes.len(),
{
    if planes.len() > 0 {
        let front = allocations.drop_last();
        assert forall|i: int| 0 <= i < front.len() implies (#[trigger] front[i]).bytes_per_tile
            == planes.drop_last()[i].format.pixel_cost() * pixels by {
            assert(front[i] == allocations[i]);
        }
        lemma_allocated(front, planes.drop_last(), pixels);
        assert(allocations[allocations.len() - 1].bytes_per_tile == planes[planes.len()
            - 1].format.pixel_cost() * pixels);
    }
}

/// A number of square tiles has the pixels of one as many times.
pub proof fn law_tiles_are_square(tile_size: u32, tile_count: u32)
    ensures
        pixel_count(tile_size, 1) == tile_size * tile_size,
        pixel_count(tile_size, tile_count) == pixel_count(tile_size, 1) * tile_count,
        pixel_count(tile_size, 0) == 0,
{
    assert(pixel_count(tile_size, 1) == tile_size * tile_size) by (nonlinear_arith)
        requires
            pixel_count(tile_size, 1) == (tile_size as nat) * (tile_size as nat) * (1u32 as nat),
    ;
    assert(pixel_count(tile_size, tile_count) == pixel_count(tile_size, 1) * tile_count)
        by (nonlinear_arith)
        requires
            pixel_count(tile_size, 1) == (tile_size as nat) * (tile_size as nat) * (1u32 as nat),
            pixel_count(tile_size, tile_count) == (tile_size as nat) * (tile_size as nat) * (
            tile_count as nat),
    ;
    assert(pixel_count(tile_size, 0) == 0) by (nonlinear_arith)
        requires
            pixel_count(tile_size, 0) == (tile_size as nat) * (tile_size as nat) * (0u32 as nat),
    ;
}

/// Planes take their bytes together, whatever their order, and as many times as there are
/// pixels.
pub proof fn law_planes_add_up(
    first: Seq<PaintPlaneDescriptor>,
    second: Seq<PaintPlaneDescriptor>,
    pixels: nat,
)
    ensures
        plane_bytes(first + second, pixels) == plane_bytes(first, pixels) + plane_bytes(
            second,
            pixels,
        ),
        first.len() == 1 ==> plane_bytes(first, pixels) == first[0].format.pixel_cost() * pixels,
        plane_bytes(Seq::empty(), pixels) == 0,
    decreases second.len(),
{
    if second.len() == 0 {
        assert(first + second =~= first);
    } else {
        law_planes_add_up(first, second.drop_last(), pixels);
        assert((first + second).drop_last() =~= first + second.drop_last());
    }
    if first.len() == 1 {
        assert(first.drop_last() =~= Seq::empty());
        reveal_with_fuel(plane_bytes, 2);
    }
}

/// A lease adds its bytes to what is leased, under a token of its own, and the most that was
/// ever leased is remembered. A budget cannot fall below what is leased.
pub proof fn law_leases_add_up(pool: ScratchPoolModel, bytes: nat, budget: u64)
    requires
        pool.well_formed(),
        pool.admits(bytes),
    ensures
        ({
            let after = pool.with_lease(bytes);
            &&& after.leased == pool.leased + bytes
            &&& after.leased <= after.budget
            &&& after.budget == pool.budget
            &&& after.high_water >= pool.high_water && after.high_water >= after.leased
            &&& after.high_water == pool.high_water || after.high_water == after.leased
            &&& after.leases.contains(pool.next_lease)
            &&& after.next_lease != pool.next_lease
        }),
        ({
            let after = pool.with_budget(budget);
            &&& after.leased <= after.budget
            &&& pool.leased <= budget ==> after.budget == budget
            &&& pool.leased > budget ==> after.budget == pool.leased
            &&& after.leased == pool.leased && after.high_water == pool.high_water
                && after.leases == pool.leases
        }),
{
}

/// A lease is granted exactly where it fits into the budget beside what is leased, to the
/// last byte.
pub proof fn law_leases_fill_the_budget(pool: ScratchPoolModel, bytes: nat)
    requires
        pool.well_formed(),
    ensures
        pool.admits(bytes) <==> bytes <= pool.budget - pool.leased,
        pool.admits(0),
{
}

/// While strokes are drawn the budgets for drawing hold, and otherwise those for idling.
pub proof fn law_budgets_depend_on_drawing(settings: StrokeRendererSettings)
    ensures
        replay_budget(settings, true) == settings.max_dirty_tiles_while_drawing,
        replay_budget(settings, false) == settings.max_dirty_tiles_while_idle,
        effect_budget(settings, true) == settings.max_effect_tiles_while_drawing,
        effect_budget(settings, false) == settings.max_effect_tiles_while_idle,
{
}

/// Counters count: messages and bytes add up, the deepest batch is remembered, and what was
/// measured last replaces what was measured before. Times that do not fit are the longest
/// that do.
pub proof fn law_counters_add_up(
    before: StrokeTelemetrySnapshot,
    messages: usize,
    nanos: u128,
    points: usize,
    segments: usize,
    oldest: u128,
    newest: u128,
    bytes: usize,
    reallocations: u64,
    revision: u64,
    stats: TileCacheStats,
)
    ensures
        ({
            let after = before.input_counted(messages, nanos, points, segments);
            &&& before.pen_messages + messages <= u64::MAX ==> after.pen_messages
                == before.pen_messages + messages
            &&& before.input_batches < u64::MAX ==> after.input_batches == before.input_batches
                + 1
            &&& after.last_batch_depth == messages
            &&& after.max_batch_depth >= before.max_batch_depth && after.max_batch_depth
                >= messages
            &&& after.max_batch_depth == before.max_batch_depth || after.max_batch_depth
                == messages
            &&& after.input_cpu_nanos == nanos || nanos > u64::MAX && after.input_cpu_nanos
                == u64::MAX
            &&& after.resident_points == points && after.resident_segments == segments
            &&& after.uploaded_bytes_total == before.uploaded_bytes_total
                && after.document_revision == before.document_revision
        }),
        ({
            let after = before.ages_noted(oldest, newest);
            &&& after.oldest_extracted_sample_age_micros == oldest || oldest > u64::MAX
                && after.oldest_extracted_sample_age_micros == u64::MAX
            &&& after.extracted_sample_age_micros == newest || newest > u64::MAX
                && after.extracted_sample_age_micros == u64::MAX
            &&& after.pen_messages == before.pen_messages
        }),
        ({
            let after = before.upload_counted(bytes, reallocations);
            &&& after.uploaded_bytes_last_frame == bytes
            &&& before.uploaded_bytes_total + bytes <= u64::MAX ==> after.uploaded_bytes_total
                == before.uploaded_bytes_total + bytes
            &&& before.gpu_reallocations + reallocations <= u64::MAX ==> after.gpu_reallocations
                == before.gpu_reallocations + reallocations
            &&& after.pen_messages == before.pen_messages
        }),
        ({
            let after = before.tiles_noted(revision, stats);
            &&& after.document_revision == revision
            &&& after.resident_tiles == stats.resident_tiles
            &&& after.dirty_tiles == stats.dirty_tiles
            &&& after.rasterized_tiles == stats.rasterized_tiles
            &&& after.evicted_tiles == stats.evicted_tiles
            &&& after.regenerated_tiles == stats.regenerated_tiles
            &&& after.tile_cache_bytes == stats.persistent_bytes
            &&& after.scratch_high_water_bytes == stats.scratch_high_water_bytes
            &&& after.pen_messages == before.pen_messages
        }),
{
}

/// A record is due only where logging is on, and then at first and a second after the latest.
pub proof fn law_records_are_a_second_apart(enabled: bool, elapsed: Option<u128>, due: bool)
    requires
        call_ensures(log_is_due, (enabled, elapsed), due),
    ensures
        !enabled ==> !due,
        enabled && elapsed is None ==> due,
        enabled && elapsed is Some ==> (due <==> elapsed->0 >= 1000 * 1000 * 1000),
{
}

/// A tile has an edge of one pixel at least.
pub proof fn law_tiles_have_an_edge(tile_size: u32)
    ensures
        tile_edge(tile_size) >= 1,
        tile_size > 0 ==> tile_edge(tile_size) == tile_size,
        tile_size == 0 ==> tile_edge(tile_size) == 1,
{
}

/// The table of colours begins with an opaque dark ink and an opaque white, in that order.
pub proof fn law_tables_begin_with_ink_and_white(model: RgbaPaintModel)
    requires
        call_ensures(RgbaPaintModel::default, (), model),
    ensures
        model@.materials.len() == 2,
        ({
            let ink = model@.materials[0].premultiplied_linear_rgba;
            &&& ink.red.bits == 0x3c75_c28f && ink.green.bits == 0x3ca3_d70a && ink.blue.bits
                == 0x3cf5_c28f && ink.alpha.bits == 0x3f80_0000
        }),
        ({
            let white = model@.materials[1].premultiplied_linear_rgba;
            &&& white.red.bits == 0x3f80_0000 && white.green.bits == 0x3f80_0000
                && white.blue.bits == 0x3f80_0000 && white.alpha.bits == 0x3f80_0000
        }),
{
}

/// Planes can be addressed where the pixels of all tiles and the bytes of all planes can be
/// counted.
pub proof fn law_planes_are_addressable_up_to_the_last_byte(
    planes: Vec<PaintPlaneDescriptor>,
    tile_size: u32,
    tile_count: u32,
    fits: bool,
)
    requires
        call_ensures(planes_are_addressable, (&planes, tile_size, tile_count), fits),
    ensures
        fits <==> pixel_count(tile_size, tile_count) < 0x1_0000_0000_0000_0000 && plane_bytes(
            planes@,
            pixel_count(tile_size, tile_count),
        ) < 0x1_0000_0000_0000_0000,
{
}

} // verus!
