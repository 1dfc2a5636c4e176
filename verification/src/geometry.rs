//! Canvas geometry: points, rectangles and the tile grid of each layer.
use crate::scalar::Scalar;
use vstd::prelude::*;

verus! {

/// Stable layer identity carried by document commands and tile keys.
#[derive(Clone, Copy, Debug, Hash, PartialEq, Eq, PartialOrd, Ord, Structural)]
pub struct LayerId(pub u32);

impl Default for LayerId {
    /// The layer that every new document has.
    fn default() -> (id: Self)
        ensures
            id == LayerId(0),
    {
        LayerId(0)
    }
}

/// Two coordinates of a position or direction.
#[derive(Clone, Copy, Debug, PartialEq, Eq, Structural)]
pub struct Vector {
    /// Horizontal coordinate.
    pub x: Scalar,
    /// Vertical coordinate.
    pub y: Scalar,
}

impl Vector {
    /// Numeric equality of both coordinates.
    pub open spec fn same_number(self, other: Vector) -> bool {
        self.x.same_number(other.x) && self.y.same_number(other.y)
    }

    /// Whether both coordinates are finite.
    pub open spec fn finite(self) -> bool {
        self.x.finite() && self.y.finite()
    }

    /// Numeric equality of both coordinates.
    pub fn equals(self, other: Vector) -> (equal: bool)
        ensures
            equal == self.same_number(other),
    {
        self.x.equals(other.x) && self.y.equals(other.y)
    }

    /// Whether both coordinates are finite.
    pub fn is_finite(self) -> (finite: bool)
        ensures
            finite == self.finite(),
    {
        self.x.is_finite() && self.y.is_finite()
    }
}

/// The smaller of two numbers; a NaN gives way to a number.
pub open spec fn lesser(a: Scalar, b: Scalar) -> Scalar {
    if a.nan() || b.below(a) { b } else { a }
}

/// The larger of two numbers; a NaN gives way to a number.
pub open spec fn greater(a: Scalar, b: Scalar) -> Scalar {
    if a.nan() || a.below(b) { b } else { a }
}

fn lesser_of(a: Scalar, b: Scalar) -> (least: Scalar)
    ensures
        least == lesser(a, b),
{
    if a.is_nan() || b.less_than(a) { b } else { a }
}

fn greater_of(a: Scalar, b: Scalar) -> (largest: Scalar)
    ensures
        largest == greater(a, b),
{
    if a.is_nan() || a.less_than(b) { b } else { a }
}

/// Axis-aligned rectangle in document coordinates.
#[derive(Clone, Copy, Debug, PartialEq, Eq, Structural)]
pub struct Bounds {
    /// Corner with the smallest coordinates.
    pub min: Vector,
    /// Corner with the largest coordinates.
    pub max: Vector,
}

impl Bounds {
    /// The smallest rectangle around both.
    pub open spec fn joined(self, other: Bounds) -> Bounds {
        Bounds {
            min: Vector { x: lesser(self.min.x, other.min.x), y: lesser(self.min.y, other.min.y) },
            max: Vector {
                x: greater(self.max.x, other.max.x),
                y: greater(self.max.y, other.max.y),
            },
        }
    }

    /// The smallest rectangle around both.
    pub fn union(self, other: Bounds) -> (joined: Bounds)
        ensures
            joined == self.joined(other),
    {
        Bounds {
            min: Vector {
                x: lesser_of(self.min.x, other.min.x),
                y: lesser_of(self.min.y, other.min.y),
            },
            max: Vector {
                x: greater_of(self.max.x, other.max.x),
                y: greater_of(self.max.y, other.max.y),
            },
        }
    }
}

/// Logical canvas extent in pixels.
#[derive(Clone, Copy, Debug, PartialEq, Eq, Structural)]
pub struct CanvasSize {
    /// Horizontal extent.
    pub width: u32,
    /// Vertical extent.
    pub height: u32,
}

impl CanvasSize {
    /// The extent with each side at least one pixel.
    pub open spec fn at_least_one(self) -> CanvasSize {
        CanvasSize {
            width: if self.width == 0 { 1 } else { self.width },
            height: if self.height == 0 { 1 } else { self.height },
        }
    }
}

/// Signed document-space tile identity, independent of paint-model plane formats.
#[derive(Clone, Copy, Debug, PartialEq, Eq, Hash, PartialOrd, Ord, Structural)]
pub struct TileKey {
    /// Canvas layer owning the tile.
    pub layer: LayerId,
    /// Signed horizontal tile coordinate.
    pub x: i32,
    /// Signed vertical tile coordinate.
    pub y: i32,
}

impl TileKey {
    /// Creates a key in stable document coordinates.
    pub fn new(layer: LayerId, x: i32, y: i32) -> (key: Self)
        ensures
            key == (TileKey { layer, x, y }),
    {
        TileKey { layer, x, y }
    }

    /// Position of the key when keys are sorted by layer, column and row.
    pub open spec fn spec_rank(self) -> u128 {
        (self.layer.0 * 0x1_0000_0000_0000_0000 + (self.x + 0x8000_0000) * 0x1_0000_0000 + (self.y
            + 0x8000_0000)) as u128
    }

    /// The key at a position of the sort order.
    pub open spec fn at_rank(rank: u128) -> TileKey {
        TileKey {
            layer: LayerId((rank as int / 0x1_0000_0000_0000_0000) as u32),
            x: ((rank as int / 0x1_0000_0000) % 0x1_0000_0000 - 0x8000_0000) as i32,
            y: (rank as int % 0x1_0000_0000 - 0x8000_0000) as i32,
        }
    }

    /// Position of the key when keys are sorted by layer, column and row.
    #[verifier::when_used_as_spec(spec_rank)]
    pub fn rank(self) -> (rank: u128)
        ensures
            rank == self.spec_rank(),
    {
        let column: i64 = self.x as i64 + 0x8000_0000;
        let row: i64 = self.y as i64 + 0x8000_0000;
        self.layer.0 as u128 * 0x1_0000_0000_0000_0000 + column as u128 * 0x1_0000_0000
            + row as u128
    }
}

/// Ranks tell keys apart, and each key can be read back from its rank.
pub proof fn lemma_rank_of_key(key: TileKey)
    ensures
        key.spec_rank() == key.layer.0 * 0x1_0000_0000_0000_0000 + (key.x + 0x8000_0000)
            * 0x1_0000_0000 + (key.y + 0x8000_0000),
        TileKey::at_rank(key.spec_rank()) == key,
{
}

/// Equal ranks belong to equal keys.
pub broadcast proof fn lemma_rank_injective(a: TileKey, b: TileKey)
    requires
        #[trigger] a.spec_rank() == #[trigger] b.spec_rank(),
    ensures
        a == b,
{
    lemma_rank_of_key(a);
    lemma_rank_of_key(b);
}

/// Ranks order keys by layer, then column, then row.
pub proof fn law_rank_orders_keys(a: TileKey, b: TileKey)
    ensures
        a.spec_rank() < b.spec_rank() <==> {
            ||| a.layer.0 < b.layer.0
            ||| a.layer.0 == b.layer.0 && a.x < b.x
            ||| a.layer.0 == b.layer.0 && a.x == b.x && a.y < b.y
        },
{
    lemma_rank_of_key(a);
    lemma_rank_of_key(b);
}

/// Inclusive range of tile coordinates; empty where a maximum is below its minimum.
#[derive(Clone, Copy, Debug, PartialEq, Eq, Structural)]
pub struct TileSpan {
    /// First column.
    pub min_x: i32,
    /// First row.
    pub min_y: i32,
    /// Last column.
    pub max_x: i32,
    /// Last row.
    pub max_y: i32,
}

impl TileSpan {
    /// Number of columns.
    pub open spec fn columns(self) -> nat {
        if self.min_x <= self.max_x { (self.max_x - self.min_x + 1) as nat } else { 0 }
    }

    /// Number of rows.
    pub open spec fn rows(self) -> nat {
        if self.min_y <= self.max_y { (self.max_y - self.min_y + 1) as nat } else { 0 }
    }

    /// Whether the tile coordinates lie in the span.
    pub open spec fn covers(self, x: i32, y: i32) -> bool {
        self.min_x <= x <= self.max_x && self.min_y <= y <= self.max_y
    }

    /// One row of a layer's tiles, from the first column on.
    pub open spec fn row(self, layer: LayerId, y: int, count: nat) -> Seq<TileKey> {
        Seq::new(count, |n: int| TileKey { layer, x: (self.min_x + n) as i32, y: y as i32 })
    }

    /// The first `count` rows of a layer's tiles, row by row.
    pub open spec fn first_rows(self, layer: LayerId, count: nat) -> Seq<TileKey>
        decreases count,
    {
        if count == 0 {
            Seq::empty()
        } else {
            self.first_rows(layer, (count - 1) as nat) + self.row(
                layer,
                self.min_y + count - 1,
                self.columns(),
            )
        }
    }

    /// All tiles of a layer in the span, row by row.
    pub open spec fn tiles(self, layer: LayerId) -> Seq<TileKey> {
        self.first_rows(layer, self.rows())
    }
}

/// All tiles of a layer in a span, row by row.
pub fn tiles_for_span(span: TileSpan, layer: LayerId) -> (tiles: Vec<TileKey>)
    ensures
        tiles@ == span.tiles(layer),
{
    let mut tiles: Vec<TileKey> = Vec::new();
    let mut y: i64 = span.min_y as i64;
    while y <= span.max_y as i64
        invariant
            span.min_y <= y,
            y <= span.max_y + 1 || y == span.min_y,
            tiles@ == span.first_rows(layer, (y - span.min_y) as nat),
        decreases span.max_y + 1 - y,
    {
        let mut x: i64 = span.min_x as i64;
        let ghost done = tiles@;
        while x <= span.max_x as i64
            invariant
                span.min_y <= y <= span.max_y,
                span.min_x <= x,
                x <= span.max_x + 1 || x == span.min_x,
                tiles@ == done + span.row(layer, y as int, (x - span.min_x) as nat),
            decreases span.max_x + 1 - x,
        {
            tiles.push(TileKey::new(layer, x as i32, y as i32));
            x = x + 1;
            assert(tiles@ =~= done + span.row(layer, y as int, (x - span.min_x) as nat));
        }
        assert(x - span.min_x == span.columns());
        y = y + 1;
    }
    assert(y - span.min_y == span.rows());
    tiles
}

/// The tiles of a span are those with its layer whose coordinates it covers.
pub proof fn lemma_span_tiles(span: TileSpan, layer: LayerId, key: TileKey)
    ensures
        span.tiles(layer).contains(key) <==> key.layer == layer && span.covers(key.x, key.y),
{
    lemma_first_rows(span, layer, span.rows(), key);
}

proof fn lemma_first_rows(span: TileSpan, layer: LayerId, count: nat, key: TileKey)
    requires
        count <= span.rows(),
    ensures
        span.first_rows(layer, count).contains(key) <==> key.layer == layer && span.min_x <= key.x
            <= span.max_x && span.min_y <= key.y < span.min_y + count,
    decreases count,
{
    let rows = span.first_rows(layer, count);
    if count > 0 {
        let before = span.first_rows(layer, (count - 1) as nat);
        let row = span.row(layer, span.min_y + count - 1, span.columns());
        lemma_first_rows(span, layer, (count - 1) as nat, key);
        assert(rows == before + row);
        if before.contains(key) {
            let i = choose|i: int| 0 <= i < before.len() && before[i] == key;
            assert(rows[i] == key);
        }
        if key.layer == layer && span.min_x <= key.x <= span.max_x && key.y == span.min_y + count
            - 1 {
            assert(row[key.x - span.min_x] == key);
            assert(rows[before.len() + key.x - span.min_x] == key);
        }
        if rows.contains(key) {
            let i = choose|i: int| 0 <= i < rows.len() && rows[i] == key;
            if i < before.len() {
                assert(before[i] == key);
            } else {
                assert(row[i - before.len()] == key);
            }
        }
    }
}

/// Radius of a pixel neighborhood in whole tiles, rounded up.
pub open spec fn radius_in_tiles(radius_px: u32, tile_size: u32) -> int {
    let size = if tile_size == 0 { 1 } else { tile_size as int };
    (radius_px + size - 1) / size
}

/// Largest tile radius whose neighborhood can be counted in 32 bits.
pub const MAX_HALO_RADIUS: i64 = 23169;

/// Whether the neighborhood of `key` has 32-bit coordinates and a 32-bit size.
pub open spec fn halo_fits(key: TileKey, radius_px: u32, tile_size: u32) -> bool {
    let radius = radius_in_tiles(radius_px, tile_size);
    radius_px == 0 || {
        &&& radius <= MAX_HALO_RADIUS
        &&& i32::MIN <= key.x - radius && key.x + radius <= i32::MAX
        &&& i32::MIN <= key.y - radius && key.y + radius <= i32::MAX
    }
}

/// The square of tiles within `radius` tiles of `key`.
pub open spec fn square_around(key: TileKey, radius: int) -> TileSpan {
    TileSpan {
        min_x: (key.x - radius) as i32,
        min_y: (key.y - radius) as i32,
        max_x: (key.x + radius) as i32,
        max_y: (key.y + radius) as i32,
    }
}

/// Tells all tiles but one.
pub open spec fn other_than(key: TileKey) -> spec_fn(TileKey) -> bool {
    |tile: TileKey| tile != key
}

/// Every other tile that a neighborhood of `radius_px` pixels reaches, row by row.
pub open spec fn halo_tiles(key: TileKey, radius_px: u32, tile_size: u32) -> Seq<TileKey> {
    if radius_px == 0 {
        Seq::empty()
    } else {
        square_around(key, radius_in_tiles(radius_px, tile_size)).tiles(key.layer).filter(
            other_than(key),
        )
    }
}

fn tile_radius(radius_px: u32, tile_size: u32) -> (radius: i64)
    ensures
        radius == radius_in_tiles(radius_px, tile_size),
{
    let size: i64 = if tile_size == 0 { 1 } else { tile_size as i64 };
    (radius_px as i64 + size - 1) / size
}

/// Whether the neighborhood of `key` has 32-bit coordinates and a 32-bit size.
pub fn halo_is_addressable(key: TileKey, radius_px: u32, tile_size: u32) -> (fits: bool)
    ensures
        fits == halo_fits(key, radius_px, tile_size),
{
    if radius_px == 0 {
        return true;
    }
    let radius: i64 = tile_radius(radius_px, tile_size);
    proof {
        let size = if tile_size == 0 { 1 } else { tile_size as int };
        assert((radius_px + size - 1) / size >= 0) by (nonlinear_arith)
            requires
                size >= 1,
                radius_px >= 0,
        ;
    }
    radius <= MAX_HALO_RADIUS && i32::MIN as i64 <= key.x as i64 - radius && key.x as i64 + radius
        <= i32::MAX as i64 && i32::MIN as i64 <= key.y as i64 - radius && key.y as i64 + radius
        <= i32::MAX as i64
}

/// Returns every neighboring tile needed to provide a radius-sized source halo.
pub fn neighbor_halo(key: TileKey, radius_px: u32, tile_size: u32) -> (halo: Vec<TileKey>)
    requires
        halo_fits(key, radius_px, tile_size),
    ensures
        halo@ == halo_tiles(key, radius_px, tile_size),
{
    let mut halo: Vec<TileKey> = Vec::new();
    if radius_px == 0 {
        return halo;
    }
    let radius: i64 = tile_radius(radius_px, tile_size);
    proof {
        let size = if tile_size == 0 { 1 } else { tile_size as int };
        assert((radius_px + size - 1) / size >= 0) by (nonlinear_arith)
            requires
                size >= 1,
                radius_px >= 0,
        ;
    }
    let span = TileSpan {
        min_x: (key.x as i64 - radius) as i32,
        min_y: (key.y as i64 - radius) as i32,
        max_x: (key.x as i64 + radius) as i32,
        max_y: (key.y as i64 + radius) as i32,
    };
    let square = tiles_for_span(span, key.layer);
    for i in 0..square.len()
        invariant
            halo@ == square@.take(i as int).filter(other_than(key)),
    {
        proof {
            let longer = square@.take(i + 1);
            assert(longer.drop_last() =~= square@.take(i as int));
            reveal(Seq::filter);
        }
        if square[i] != key {
            halo.push(square[i]);
        }
    }
    assert(square@.take(square@.len() as int) =~= square@);
    halo
}

/// A halo holds exactly the other tiles of its layer within the tile radius.
pub proof fn law_halo_is_the_neighborhood(
    key: TileKey,
    radius_px: u32,
    tile_size: u32,
    tile: TileKey,
)
    requires
        halo_fits(key, radius_px, tile_size),
    ensures
        halo_tiles(key, radius_px, tile_size).contains(tile) <==> {
            &&& radius_px != 0
            &&& tile != key
            &&& tile.layer == key.layer
            &&& -radius_in_tiles(radius_px, tile_size) <= tile.x - key.x <= radius_in_tiles(
                radius_px,
                tile_size,
            )
            &&& -radius_in_tiles(radius_px, tile_size) <= tile.y - key.y <= radius_in_tiles(
                radius_px,
                tile_size,
            )
        },
{
    if radius_px != 0 {
        let radius = radius_in_tiles(radius_px, tile_size);
        let square = square_around(key, radius).tiles(key.layer);
        let keep = other_than(key);
        let size = if tile_size == 0 { 1 } else { tile_size as int };
        assert((radius_px + size - 1) / size >= 0) by (nonlinear_arith)
            requires
                size >= 1,
                radius_px >= 0,
        ;
        lemma_span_tiles(square_around(key, radius), key.layer, tile);
        assert(halo_tiles(key, radius_px, tile_size) =~= square.filter(keep));
        if square.filter(keep).contains(tile) {
            square.lemma_filter_contains_rev(keep, tile);
            let i = choose|i: int|
                0 <= i < square.filter(keep).len() && square.filter(keep)[i] == tile;
            square.lemma_filter_pred(keep, i);
        }
        if square.contains(tile) && tile != key {
            let i = choose|i: int| 0 <= i < square.len() && square[i] == tile;
            square.lemma_filter_contains(keep, i);
        }
    }
}

} // verus!
