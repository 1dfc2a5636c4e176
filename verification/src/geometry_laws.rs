//! What rectangles, spans of tiles and the order of numbers are good for.
use crate::geometry::{
    halo_fits, law_halo_is_the_neighborhood, lemma_rank_of_key, lemma_span_tiles, neighbor_halo,
    radius_in_tiles, tiles_for_span, Bounds, LayerId, TileKey, TileSpan, Vector,
};
use crate::scalar::Scalar;
use vstd::prelude::*;

verus! {

/// Value that a bit pattern stands for, as a multiple of the smallest step at its exponent:
/// patterns without a sign ascend with the number, and a sign turns the order around.
pub open spec fn comes_before(a: u32, b: u32) -> bool {
    if a < 0x8000_0000 && b < 0x8000_0000 {
        a < b
    } else if a >= 0x8000_0000 && b >= 0x8000_0000 {
        b < a
    } else {
        a >= 0x8000_0000 && !(a == 0x8000_0000 && b == 0)
    }
}

/// Whether a bit pattern stands for no number.
pub open spec fn no_number(bits: u32) -> bool {
    0x7f80_0000 < bits < 0x8000_0000 || 0xff80_0000 < bits
}

/// Numbers are ordered by sign, exponent and fraction; both zeroes are one number, and what
/// is no number is neither below, above nor equal to anything.
pub proof fn law_numbers_are_ordered(a: Scalar, b: Scalar, less: bool, equal: bool, nan: bool)
    requires
        call_ensures(Scalar::less_than, (a, b), less),
        call_ensures(Scalar::equals, (a, b), equal),
        call_ensures(Scalar::is_nan, (a,), nan),
    ensures
        nan == no_number(a.bits),
        no_number(a.bits) || no_number(b.bits) ==> !less && !equal,
        !no_number(a.bits) && !no_number(b.bits) ==> {
            &&& less == comes_before(a.bits, b.bits)
            &&& equal == (!comes_before(a.bits, b.bits) && !comes_before(b.bits, a.bits))
        },
{
}

/// Finite numbers are those below the infinities on either side.
pub proof fn law_finite_numbers_are_between_the_infinities(
    value: Scalar,
    finite: bool,
    high: bool,
    low: bool,
)
    requires
        call_ensures(Scalar::is_finite, (value,), finite),
        call_ensures(Scalar::less_than, (value, Scalar { bits: 0x7f80_0000 }), high),
        call_ensures(Scalar::less_than, (Scalar { bits: 0xff80_0000 }, value), low),
    ensures
        finite == (high && low),
{
}

/// A clamped number lies within the limits and is moved no further than to the nearer one.
pub proof fn law_clamping_confines(value: Scalar, low: Scalar, high: Scalar, clamped: Scalar)
    requires
        call_ensures(Scalar::clamp, (value, low, high), clamped),
        !no_number(value.bits),
        !no_number(low.bits),
        !no_number(high.bits),
        !comes_before(high.bits, low.bits),
    ensures
        !comes_before(clamped.bits, low.bits),
        !comes_before(high.bits, clamped.bits),
        comes_before(value.bits, low.bits) ==> clamped == low,
        comes_before(high.bits, value.bits) ==> clamped == high,
        !comes_before(value.bits, low.bits) && !comes_before(high.bits, value.bits) ==> clamped
            == value,
{
}

/// Whether a rectangle has four numbers for its sides.
pub open spec fn measured(bounds: Bounds) -> bool {
    &&& !no_number(bounds.min.x.bits)
    &&& !no_number(bounds.min.y.bits)
    &&& !no_number(bounds.max.x.bits)
    &&& !no_number(bounds.max.y.bits)
}

/// Whether a point of numbers lies within a rectangle, its edges counted in.
pub open spec fn lies_within(point: Vector, bounds: Bounds) -> bool {
    &&& !no_number(point.x.bits)
    &&& !no_number(point.y.bits)
    &&& !comes_before(point.x.bits, bounds.min.x.bits)
    &&& !comes_before(bounds.max.x.bits, point.x.bits)
    &&& !comes_before(point.y.bits, bounds.min.y.bits)
    &&& !comes_before(bounds.max.y.bits, point.y.bits)
}

/// Whether a rectangle reaches at least as far as another on all four sides.
pub open spec fn reaches_around(outer: Bounds, inner: Bounds) -> bool {
    &&& !comes_before(inner.min.x.bits, outer.min.x.bits)
    &&& !comes_before(inner.min.y.bits, outer.min.y.bits)
    &&& !comes_before(outer.max.x.bits, inner.max.x.bits)
    &&& !comes_before(outer.max.y.bits, inner.max.y.bits)
}

/// The union of two rectangles holds every point that either holds, on both axes, and is
/// the smallest that does: every rectangle around both reaches around it.
pub proof fn law_union_holds_both(
    a: Bounds,
    b: Bounds,
    union: Bounds,
    point: Vector,
    around: Bounds,
)
    requires
        call_ensures(Bounds::union, (a, b), union),
        measured(a),
        measured(b),
    ensures
        measured(union),
        reaches_around(union, a),
        reaches_around(union, b),
        lies_within(point, a) ==> lies_within(point, union),
        lies_within(point, b) ==> lies_within(point, union),
        measured(around) && reaches_around(around, a) && reaches_around(around, b)
            ==> reaches_around(around, union),
{
}

/// A side that is no number gives way to one that is.
pub proof fn law_union_forgets_what_is_no_number(a: Bounds, b: Bounds, union: Bounds)
    requires
        call_ensures(Bounds::union, (a, b), union),
    ensures
        no_number(a.min.x.bits) ==> union.min.x == b.min.x,
        no_number(a.min.y.bits) ==> union.min.y == b.min.y,
        no_number(a.max.x.bits) ==> union.max.x == b.max.x,
        no_number(a.max.y.bits) ==> union.max.y == b.max.y,
        no_number(b.min.x.bits) && !no_number(a.min.x.bits) ==> union.min.x == a.min.x,
        no_number(b.min.y.bits) && !no_number(a.min.y.bits) ==> union.min.y == a.min.y,
        no_number(b.max.x.bits) && !no_number(a.max.x.bits) ==> union.max.x == a.max.x,
        no_number(b.max.y.bits) && !no_number(a.max.y.bits) ==> union.max.y == a.max.y,
{
}

/// A blocked region is hit by the points that lie within it, edges counted in.
pub proof fn law_rectangles_contain_their_points(bounds: Bounds, point: Vector, inside: bool)
    requires
        call_ensures(Bounds::contains, (bounds, point), inside),
        measured(bounds),
    ensures
        inside == lies_within(point, bounds),
{
}

/// A span lists each of its tiles once, row by row and each row from left to right: the
/// tiles of the layer from its first to its last column and row, both counted in.
pub proof fn law_spans_list_their_tiles(
    span: TileSpan,
    layer: LayerId,
    tiles: Vec<TileKey>,
    key: TileKey,
)
    requires
        call_ensures(tiles_for_span, (span, layer), tiles),
    ensures
        tiles@.contains(key) <==> {
            &&& key.layer == layer
            &&& span.min_x <= key.x <= span.max_x
            &&& span.min_y <= key.y <= span.max_y
        },
        forall|i: int, j: int|
            0 <= i < j < tiles@.len() ==> (#[trigger] tiles@[i]).y < (#[trigger] tiles@[j]).y || (
            tiles@[i].y == tiles@[j].y && tiles@[i].x < tiles@[j].x),
{
    lemma_span_tiles(span, layer, key);
    lemma_rows_ascend(span, layer, span.rows());
}

proof fn lemma_rows_ascend(span: TileSpan, layer: LayerId, count: nat)
    requires
        count <= span.rows(),
    ensures
        forall|i: int|
            0 <= i < span.first_rows(layer, count).len() ==> span.min_y <= (
            #[trigger] span.first_rows(layer, count)[i]).y < span.min_y + count,
        forall|i: int, j: int|
            0 <= i < j < span.first_rows(layer, count).len() ==> (#[trigger] span.first_rows(
                layer,
                count,
            )[i]).y < (#[trigger] span.first_rows(layer, count)[j]).y || (span.first_rows(
                layer,
                count,
            )[i].y == span.first_rows(layer, count)[j].y && span.first_rows(layer, count)[i].x
                < span.first_rows(layer, count)[j].x),
    decreases count,
{
    if count > 0 {
        lemma_rows_ascend(span, layer, (count - 1) as nat);
        let before = span.first_rows(layer, (count - 1) as nat);
        let row = span.row(layer, span.min_y + count - 1, span.columns());
        let rows = span.first_rows(layer, count);
        assert(rows == before + row);
        assert forall|n: int| 0 <= n < row.len() implies (#[trigger] row[n]).y == span.min_y + count
            - 1 && row[n].x == span.min_x + n by {}
        assert forall|i: int| 0 <= i < rows.len() implies span.min_y <= (#[trigger] rows[i]).y
            < span.min_y + count by {
            if i < before.len() {
                assert(rows[i] == before[i]);
            } else {
                assert(rows[i] == row[i - before.len()]);
            }
        }
        assert forall|i: int, j: int| 0 <= i < j < rows.len() implies (#[trigger] rows[i]).y < (
        #[trigger] rows[j]).y || (rows[i].y == rows[j].y && rows[i].x < rows[j].x) by {
            if i < before.len() {
                assert(rows[i] == before[i]);
                if j < before.len() {
                    assert(rows[j] == before[j]);
                } else {
                    assert(rows[j] == row[j - before.len()]);
                }
            } else {
                assert(rows[i] == row[i - before.len()]);
                assert(rows[j] == row[j - before.len()]);
            }
        }
    }
}

/// Distance between two tiles of one axis, in whole tiles.
pub open spec fn steps_apart(a: i32, b: i32) -> int {
    if a < b { b - a } else { a - b }
}

/// Whether a pixel of the tile `b` is within `radius` pixels of some pixel of the tile `a`
/// on one axis: what lies between the tiles is less than the radius.
pub open spec fn within_reach(a: i32, b: i32, radius: u32, edge: u32) -> bool {
    a == b || (steps_apart(a, b) - 1) * edge < radius
}

/// The halo of a tile holds each other tile of its layer that has a pixel within the radius
/// of one of its own pixels, once, and no other tile.
pub proof fn law_halos_hold_what_the_radius_reaches(
    key: TileKey,
    radius_px: u32,
    tile_size: u32,
    halo: Vec<TileKey>,
    tile: TileKey,
)
    requires
        call_ensures(neighbor_halo, (key, radius_px, tile_size), halo),
        halo_fits(key, radius_px, tile_size),
        tile_size > 0,
    ensures
        halo@.contains(tile) <==> {
            &&& tile != key
            &&& tile.layer == key.layer
            &&& within_reach(key.x, tile.x, radius_px, tile_size)
            &&& within_reach(key.y, tile.y, radius_px, tile_size)
        },
{
    law_halo_is_the_neighborhood(key, radius_px, tile_size, tile);
    if radius_px > 0 {
        lemma_reach_in_tiles(key.x, tile.x, radius_px, tile_size);
        lemma_reach_in_tiles(key.y, tile.y, radius_px, tile_size);
    } else {
        let (across, down) = (steps_apart(key.x, tile.x), steps_apart(key.y, tile.y));
        assert(across >= 1 ==> (across - 1) * tile_size >= 0) by (nonlinear_arith)
            requires
                tile_size > 0,
        ;
        assert(down >= 1 ==> (down - 1) * tile_size >= 0) by (nonlinear_arith)
            requires
                tile_size > 0,
        ;
    }
}

proof fn lemma_reach_in_tiles(a: i32, b: i32, radius: u32, edge: u32)
    requires
        edge > 0,
        radius > 0,
    ensures
        within_reach(a, b, radius, edge) <==> steps_apart(a, b) <= radius_in_tiles(radius, edge),
{
    let steps = steps_apart(a, b);
    let reach = radius_in_tiles(radius, edge);
    let size = edge as int;
    assert(reach == (radius + size - 1) / size);
    assert(size * reach <= radius + size - 1 < size * reach + size && reach >= 1) by (
        nonlinear_arith)
        requires
            reach == (radius + size - 1) / size,
            size > 0,
            radius > 0,
    ;
    if steps >= 1 {
        if steps <= reach {
            assert((steps - 1) * size < radius) by (nonlinear_arith)
                requires
                    1 <= steps <= reach,
                    size * reach <= radius + size - 1,
                    size > 0,
            ;
        } else {
            assert((steps - 1) * size >= radius) by (nonlinear_arith)
                requires
                    steps >= reach + 1,
                    radius + size - 1 < size * reach + size,
                    size > 0,
            ;
        }
        assert((steps - 1) * edge == (steps - 1) * size);
    }
}

/// A key names its layer, column and row, and its rank tells it from every other key.
pub proof fn law_keys_are_told_apart(
    layer: LayerId,
    x: i32,
    y: i32,
    key: TileKey,
    other: TileKey,
    rank: u128,
    other_rank: u128,
)
    requires
        call_ensures(TileKey::new, (layer, x, y), key),
        call_ensures(TileKey::rank, (key,), rank),
        call_ensures(TileKey::rank, (other,), other_rank),
    ensures
        key.layer == layer,
        key.x == x,
        key.y == y,
        (rank == other_rank) == (key.layer == other.layer && key.x == other.x && key.y
            == other.y),
{
    lemma_rank_of_key(key);
    lemma_rank_of_key(other);
}

} // verus!
