//! What a reader of a saved document finds in its manifest and paint devices.
use crate::archive::{ArchiveDocument, ArchiveLayerModel, ArchiveModel};
use crate::container::{device_name, kra_members, ArtModel};
use crate::geometry::CanvasSize;
use crate::krita::{
    escaped, escaped_byte, krita_tile_models, layer_line, layer_lines, layer_uuid_bytes,
    maindoc_xml, manifest, paint_device, paint_device_bytes, painted_count, plan_layer,
    recipe_colour, stroke_colour, strokes_reaching, tile_place, tile_record, tile_records,
    KritaSpan, KritaTile, KritaTileModel, KritaTilePlan,
};
use crate::paint::{MaterialModel, PaintMaterialRef, PayloadModel, Rgba};
use crate::text::{decimal_ascii, decimal_text, hex_ascii, lemma_decimal_digits};
use vstd::prelude::*;
use vstd::utf8::{encode_utf8, is_ascii_chars_encode_utf8};

verus! {

/// The number that decimal digits stand for.
pub open spec fn number_read(digits: Seq<u8>) -> int
    decreases digits.len(),
{
    if digits.len() == 0 {
        0
    } else {
        10 * number_read(digits.drop_last()) + (digits.last() - 48)
    }
}

/// The value of a lower-case hexadecimal digit.
pub open spec fn hex_digit(code: u8) -> int {
    if code <= 57 { code - 48 } else { code - 97 + 10 }
}

/// The number that hexadecimal digits stand for.
pub open spec fn hex_read(digits: Seq<u8>) -> int
    decreases digits.len(),
{
    if digits.len() == 0 {
        0
    } else {
        16 * hex_read(digits.drop_last()) + hex_digit(digits.last())
    }
}

/// A number written in decimal digits is read back as the same number, begins with a zero
/// only where it is zero, and has nothing but digits; its text has the same digits.
pub proof fn law_decimal_numbers_are_read_back(number: nat)
    ensures
        number_read(decimal_ascii(number)) == number,
        decimal_ascii(number).len() > 0,
        decimal_ascii(number)[0] == 48 ==> number == 0,
        forall|i: int|
            0 <= i < decimal_ascii(number).len() ==> 48 <= #[trigger] decimal_ascii(number)[i]
                <= 57,
        decimal_text(number).len() == decimal_ascii(number).len(),
        forall|i: int|
            0 <= i < decimal_text(number).len() ==> #[trigger] decimal_text(number)[i] as int
                == decimal_ascii(number)[i],
    decreases number,
{
    lemma_decimal_digits(number);
    let digits = decimal_ascii(number);
    if number < 10 {
        assert(digits.drop_last() =~= Seq::empty());
        reveal_with_fuel(number_read, 2);
    } else {
        law_decimal_numbers_are_read_back(number / 10);
        assert(digits.drop_last() =~= decimal_ascii(number / 10));
        assert(digits[0] == decimal_ascii(number / 10)[0]);
    }
}

/// A number written in as many hexadecimal digits as it needs, or more, is read back as the
/// same number.
pub proof fn law_hexadecimal_numbers_are_read_back(number: nat, width: nat)
    ensures
        hex_ascii(number, width).len() == width,
        number < vstd::arithmetic::power::pow(16, width) ==> hex_read(hex_ascii(number, width))
            == number,
    decreases width,
{
    let digits = hex_ascii(number, width);
    reveal(vstd::arithmetic::power::pow);
    if width > 0 {
        law_hexadecimal_numbers_are_read_back(number / 16, (width - 1) as nat);
        assert(digits.drop_last() =~= hex_ascii(number / 16, (width - 1) as nat));
        let rest = vstd::arithmetic::power::pow(16, (width - 1) as nat);
        assert(vstd::arithmetic::power::pow(16, width) == 16 * rest);
    }
}

/// Whether some pixel of a tile is not fully transparent.
pub open spec fn has_paint(tile: KritaTile) -> bool {
    exists|p: int| 0 <= p < 4096 && #[trigger] tile.pixels@[4 * p + 3] > 0
}

/// The text in front of the pixels of a tile: its corner in pixels and the size of the data.
pub open spec fn tile_heading(tile: KritaTile) -> Seq<u8> {
    decimal_ascii((64 * tile.x) as nat) + encode_utf8(","@) + decimal_ascii(
        (64 * tile.y) as nat,
    ) + encode_utf8(",LZF,16385\n"@)
}

/// Whether bytes hold a tile: behind the heading a zero for uncompressed data, then the
/// blue, green, red and alpha of all pixels, each plane row by row from the top and each row
/// from left to right.
pub open spec fn holds_tile(bytes: Seq<u8>, tile: KritaTile) -> bool {
    let start = tile_heading(tile).len() as int;
    &&& bytes.len() == start + 1 + 16384
    &&& bytes.take(start) == tile_heading(tile)
    &&& bytes[start] == 0
    &&& forall|y: int, x: int|
        0 <= y < 64 && 0 <= x < 64 ==> #[trigger] holds_pixel(
            bytes.skip(start + 1),
            tile.pixels@,
            y,
            x,
        )
}

/// Whether four planes, of 64 rows and columns each, hold the blue, the green, the red and the
/// alpha of the pixel in a row and a column.
pub open spec fn holds_pixel(planes: Seq<u8>, pixels: Seq<u8>, y: int, x: int) -> bool {
    let red = 4 * (64 * y + x);
    &&& planes[64 * y + x] == pixels[red + 2]
    &&& planes[4096 + 64 * y + x] == pixels[red + 1]
    &&& planes[2 * 4096 + 64 * y + x] == pixels[red]
    &&& planes[3 * 4096 + 64 * y + x] == pixels[red + 3]
}

/// Whether bytes are those of a paint device: the heading with the number of tiles, then the
/// tiles with paint in them in their order, the one at `kept[k]` between `cuts[k]` and
/// `cuts[k + 1]`, and nothing else.
pub open spec fn holds_device(
    bytes: Seq<u8>,
    tiles: Seq<KritaTile>,
    kept: Seq<int>,
    cuts: Seq<int>,
) -> bool {
    let heading = encode_utf8(
        "VERSION 2\nTILEWIDTH 64\nTILEHEIGHT 64\nPIXELSIZE 4\nDATA "@,
    ) + decimal_ascii(kept.len()) + encode_utf8("\n"@);
    &&& cuts.len() == kept.len() + 1
    &&& cuts[0] == heading.len()
    &&& cuts.last() == bytes.len()
    &&& bytes.take(cuts[0]) == heading
    &&& lists_painted(tiles, kept, tiles.len() as int)
    &&& cut_into_tiles(bytes, tiles, kept, cuts)
}

/// Whether bytes hold the tile at `kept[k]` between `cuts[k]` and `cuts[k + 1]`.
pub open spec fn cut_into_tiles(
    bytes: Seq<u8>,
    tiles: Seq<KritaTile>,
    kept: Seq<int>,
    cuts: Seq<int>,
) -> bool {
    forall|k: int|
        0 <= k < kept.len() ==> tile_between(
            bytes,
            tiles[#[trigger] kept[k]],
            cuts[k],
            cuts[k + 1],
        )
}

/// Whether bytes hold a tile between two places.
pub open spec fn tile_between(bytes: Seq<u8>, tile: KritaTile, from: int, to: int) -> bool {
    0 <= from <= to <= bytes.len() && holds_tile(bytes.subrange(from, to), tile)
}

/// Whether a list holds in ascending order the places of the tiles with paint in them, among
/// the first `count`.
pub open spec fn lists_painted(tiles: Seq<KritaTile>, kept: Seq<int>, count: int) -> bool {
    &&& forall|a: int, b: int| 0 <= a < b < kept.len() ==> kept[a] < kept[b]
    &&& forall|k: int|
        0 <= k < kept.len() ==> 0 <= (#[trigger] kept[k]) < count && has_paint(tiles[kept[k]])
    &&& forall|i: int|
        0 <= i < count && has_paint(#[trigger] tiles[i]) ==> kept.contains(i)
}

/// The planes hold each channel of each pixel.
proof fn lemma_planes(pixels: Seq<u8>, y: int, x: int)
    requires
        pixels.len() == 16384,
        0 <= y < 64,
        0 <= x < 64,
    ensures
        holds_pixel(crate::krita::planar(pixels), pixels, y, x),
{
    let p = 64 * y + x;
    let planes = crate::krita::planar(pixels);
    assert(0 <= p < 4096);
    assert(p / 4096 == 0 && p % 4096 == p);
    assert((4096 + p) / 4096 == 1 && (4096 + p) % 4096 == p);
    assert((8192 + p) / 4096 == 2 && (8192 + p) % 4096 == p);
    assert((12288 + p) / 4096 == 3 && (12288 + p) % 4096 == p);
    assert(planes[p] == pixels[p * 4 + 2]);
    assert(planes[4096 + p] == pixels[p * 4 + 1]);
    assert(planes[8192 + p] == pixels[p * 4]);
    assert(planes[12288 + p] == pixels[p * 4 + 3]);
}

/// A record is the heading, a zero and the planes.
proof fn lemma_record_parts(record: Seq<u8>, heading: Seq<u8>, planes: Seq<u8>)
    requires
        record == heading + seq![0u8] + planes,
    ensures
        record.len() == heading.len() + 1 + planes.len(),
        record.take(heading.len() as int) == heading,
        record[heading.len() as int] == 0,
        record.skip(heading.len() as int + 1) == planes,
{
    assert(record.take(heading.len() as int) =~= heading);
    assert(record.skip(heading.len() as int + 1) =~= planes);
}

proof fn lemma_tile_record(tile: KritaTile)
    requires
        tile.pixels@.len() == 16384,
    ensures
        holds_tile(tile_record(tile@), tile),
{
    let bytes = tile_record(tile@);
    let heading = tile_heading(tile);
    let start = heading.len() as int;
    let planes = crate::krita::planar(tile.pixels@);
    assert(bytes == heading + seq![0u8] + planes);
    lemma_record_parts(bytes, heading, planes);
    assert forall|y: int, x: int| 0 <= y < 64 && 0 <= x < 64 implies #[trigger] holds_pixel(
        bytes.skip(start + 1),
        tile.pixels@,
        y,
        x,
    ) by {
        lemma_planes(tile.pixels@, y, x);
    }
}

/// The places of the tiles with paint, and where their records end.
proof fn lemma_tile_records(tiles: Seq<KritaTile>, count: nat) -> (listed: (Seq<int>, Seq<int>))
    requires
        count <= tiles.len(),
        forall|i: int| 0 <= i < tiles.len() ==> (#[trigger] tiles[i]).pixels@.len() == 16384,
    ensures
        ({
            let (kept, cuts) = listed;
            let bytes = tile_records(krita_tile_models(tiles), count);
            &&& kept.len() == painted_count(krita_tile_models(tiles), count)
            &&& cuts.len() == kept.len() + 1
            &&& cuts[0] == 0
            &&& cuts.last() == bytes.len()
            &&& lists_painted(tiles, kept, count as int)
            &&& cut_into_tiles(bytes, tiles, kept, cuts)
        }),
    decreases count,
{
    let models = krita_tile_models(tiles);
    let bytes = tile_records(models, count);
    if count == 0 {
        let kept = Seq::<int>::empty();
        assert(lists_painted(tiles, kept, 0));
        (kept, seq![0int])
    } else {
        let (early, ends) = lemma_tile_records(tiles, (count - 1) as nat);
        let before = tile_records(models, (count - 1) as nat);
        let tile = tiles[count - 1];
        assert(models[count - 1] == tile@);
        assert(has_paint(tile) == tile@.painted()) by {
            if has_paint(tile) {
                let p = choose|p: int| 0 <= p < 4096 && #[trigger] tile.pixels@[4 * p + 3] > 0;
                assert(tile@.pixels[4 * p + 3] > 0);
            }
            if tile@.painted() {
                let p = choose|p: int| 0 <= p < 4096 && #[trigger] tile@.pixels[4 * p + 3] > 0;
                assert(tile.pixels@[4 * p + 3] > 0);
            }
        }
        if tile@.painted() {
            lemma_tile_record(tile);
            let kept = early.push(count - 1);
            let cuts = ends.push(bytes.len() as int);
            assert(bytes == before + tile_record(tile@));
            assert forall|k: int| 0 <= k < kept.len() implies tile_between(
                bytes,
                tiles[#[trigger] kept[k]],
                cuts[k],
                cuts[k + 1],
            ) by {
                if k < early.len() {
                    assert(0 <= early[k]);
                    assert(cuts[k] == ends[k] && cuts[k + 1] == ends[k + 1]);
                    assert(kept[k] == early[k]);
                    assert(bytes.subrange(cuts[k], cuts[k + 1]) =~= before.subrange(
                        ends[k],
                        ends[k + 1],
                    ));
                } else {
                    assert(cuts[k] == before.len());
                    assert(bytes.subrange(cuts[k], cuts[k + 1]) =~= tile_record(tile@));
                }
            }
            assert forall|i: int|
                0 <= i < count && has_paint(#[trigger] tiles[i]) implies kept.contains(i) by {
                if i < count - 1 {
                    let k = choose|k: int| 0 <= k < early.len() && early[k] == i;
                    assert(kept[k] == i);
                } else {
                    assert(kept[early.len() as int] == i);
                }
            }
            assert forall|k: int| 0 <= k < kept.len() implies 0 <= (#[trigger] kept[k]) < count
                && has_paint(tiles[kept[k]]) by {
                if k < early.len() {
                    assert(kept[k] == early[k]);
                }
            }
            assert(cut_into_tiles(bytes, tiles, kept, cuts));
            assert(lists_painted(tiles, kept, count as int));
            (kept, cuts)
        } else {
            assert(lists_painted(tiles, early, count as int));
            (early, ends)
        }
    }
}

/// A paint device lists exactly the tiles that have paint in them, in their order, each with
/// its corner in pixels. In each of the four planes of a tile the byte for a row and a column
/// is that channel of the pixel in the same row and column.
pub proof fn law_paint_devices_hold_their_pixels_in_place(tiles: Vec<KritaTile>, bytes: Vec<u8>)
    requires
        forall|i: int| 0 <= i < tiles@.len() ==> (#[trigger] tiles@[i]).pixels@.len() == 16384,
        call_ensures(paint_device_bytes, (&tiles,), bytes),
    ensures
        exists|kept: Seq<int>, cuts: Seq<int>| #[trigger]
            holds_device(bytes@, tiles@, kept, cuts),
{
    let models = krita_tile_models(tiles@);
    let (kept, ends) = lemma_tile_records(tiles@, tiles@.len());
    let records = tile_records(models, tiles@.len());
    let heading = encode_utf8(
        "VERSION 2\nTILEWIDTH 64\nTILEHEIGHT 64\nPIXELSIZE 4\nDATA "@,
    ) + decimal_ascii(kept.len()) + encode_utf8("\n"@);
    assert(models.len() == tiles@.len());
    assert(bytes@ == heading + records);
    let cuts = ends.map_values(|end: int| heading.len() + end);
    assert(bytes@.take(cuts[0]) =~= heading);
    assert forall|k: int| 0 <= k < kept.len() implies tile_between(
        bytes@,
        tiles@[#[trigger] kept[k]],
        cuts[k],
        cuts[k + 1],
    ) by {
        assert(0 <= kept[k]);
        assert(0 <= ends[k] <= ends[k + 1] <= records.len());
        assert(bytes@.subrange(cuts[k], cuts[k + 1]) =~= records.subrange(ends[k], ends[k + 1]));
    }
    assert(cut_into_tiles(bytes@, tiles@, kept, cuts));
    assert(holds_device(bytes@, tiles@, kept, cuts));
}

/// Whether the bytes at the start are an entity.
pub open spec fn starts_with(bytes: Seq<u8>, entity: Seq<u8>) -> bool {
    bytes.len() >= entity.len() && bytes.take(entity.len() as int) == entity
}

/// The text that escaped text stands for, as a reader of markup finds it: `&` begins one of
/// the five entities, and any other byte stands for itself.
pub open spec fn entities_read(bytes: Seq<u8>) -> Seq<u8>
    decreases bytes.len(),
{
    if bytes.len() == 0 {
        Seq::empty()
    } else if starts_with(bytes, seq![38u8, 97u8, 109u8, 112u8, 59u8]) {
        seq![38u8] + entities_read(bytes.skip(5))
    } else if starts_with(bytes, seq![38u8, 108u8, 116u8, 59u8]) {
        seq![60u8] + entities_read(bytes.skip(4))
    } else if starts_with(bytes, seq![38u8, 103u8, 116u8, 59u8]) {
        seq![62u8] + entities_read(bytes.skip(4))
    } else if starts_with(bytes, seq![38u8, 113u8, 117u8, 111u8, 116u8, 59u8]) {
        seq![34u8] + entities_read(bytes.skip(6))
    } else if starts_with(bytes, seq![38u8, 97u8, 112u8, 111u8, 115u8, 59u8]) {
        seq![39u8] + entities_read(bytes.skip(6))
    } else {
        seq![bytes[0]] + entities_read(bytes.skip(1))
    }
}

/// The entities, byte by byte.
proof fn lemma_entities(byte: u8)
    ensures
        byte == 38 ==> escaped_byte(byte) == seq![38u8, 97u8, 109u8, 112u8, 59u8],
        byte == 60 ==> escaped_byte(byte) == seq![38u8, 108u8, 116u8, 59u8],
        byte == 62 ==> escaped_byte(byte) == seq![38u8, 103u8, 116u8, 59u8],
        byte == 34 ==> escaped_byte(byte) == seq![38u8, 113u8, 117u8, 111u8, 116u8, 59u8],
        byte == 39 ==> escaped_byte(byte) == seq![38u8, 97u8, 112u8, 111u8, 115u8, 59u8],
        byte != 38 && byte != 60 && byte != 62 && byte != 34 && byte != 39 ==> escaped_byte(byte)
            == seq![byte],
{
    reveal_strlit("&amp;");
    reveal_strlit("&lt;");
    reveal_strlit("&gt;");
    reveal_strlit("&quot;");
    reveal_strlit("&apos;");
    is_ascii_chars_encode_utf8("&amp;"@);
    is_ascii_chars_encode_utf8("&lt;"@);
    is_ascii_chars_encode_utf8("&gt;"@);
    is_ascii_chars_encode_utf8("&quot;"@);
    is_ascii_chars_encode_utf8("&apos;"@);
    assert(byte == 38 ==> escaped_byte(byte) =~= seq![38u8, 97u8, 109u8, 112u8, 59u8]);
    assert(byte == 60 ==> escaped_byte(byte) =~= seq![38u8, 108u8, 116u8, 59u8]);
    assert(byte == 62 ==> escaped_byte(byte) =~= seq![38u8, 103u8, 116u8, 59u8]);
    assert(byte == 34 ==> escaped_byte(byte) =~= seq![38u8, 113u8, 117u8, 111u8, 116u8, 59u8]);
    assert(byte == 39 ==> escaped_byte(byte) =~= seq![38u8, 97u8, 112u8, 111u8, 115u8, 59u8]);
}

/// Escaping goes byte by byte.
proof fn lemma_escaped_front(bytes: Seq<u8>)
    requires
        bytes.len() > 0,
    ensures
        escaped(bytes) == escaped_byte(bytes[0]) + escaped(bytes.drop_first()),
    decreases bytes.len(),
{
    let front = bytes.drop_last();
    if bytes.len() == 1 {
        assert(front =~= Seq::empty());
        assert(bytes.drop_first() =~= Seq::empty());
        assert(escaped(front) == Seq::<u8>::empty());
        assert(escaped(bytes) =~= escaped_byte(bytes[0]) + escaped(bytes.drop_first()));
    } else {
        lemma_escaped_front(front);
        assert(front.drop_first() =~= bytes.drop_first().drop_last());
        assert(bytes.drop_first().last() == bytes.last());
        assert(escaped(bytes) =~= escaped_byte(bytes[0]) + escaped(bytes.drop_first()));
    }
}

/// Escaped text holds neither angle brackets nor quotation marks, so that it ends no
/// attribute and begins no element, and a reader finds the text in it that was escaped.
pub proof fn law_escaped_text_is_read_back(text: Seq<u8>)
    ensures
        entities_read(escaped(text)) == text,
        forall|i: int|
            0 <= i < escaped(text).len() ==> {
                let byte = #[trigger] escaped(text)[i];
                byte != 60 && byte != 62 && byte != 34 && byte != 39
            },
    decreases text.len(),
{
    if text.len() > 0 {
        let rest = text.drop_first();
        let piece = escaped_byte(text[0]);
        let all = escaped(text);
        law_escaped_text_is_read_back(rest);
        lemma_escaped_front(text);
        lemma_entities(text[0]);
        assert(all == piece + escaped(rest));
        assert(all.skip(piece.len() as int) =~= escaped(rest));
        assert(all.take(piece.len() as int) =~= piece);
        assert(text =~= seq![text[0]] + rest);
        assert(all[0] == piece[0]);
        if text[0] == 38 || text[0] == 60 || text[0] == 62 || text[0] == 34 || text[0] == 39 {
            assert(all[1] == piece[1] && all[2] == piece[2] && all[3] == piece[3]);
            lemma_not_entity(all);
        } else {
            lemma_not_entity(all);
        }
    } else {
        assert(text =~= Seq::empty());
    }
}

/// Which entity text begins with is seen from its first bytes.
proof fn lemma_not_entity(bytes: Seq<u8>)
    requires
        bytes.len() > 0,
    ensures
        bytes[0] != 38 ==> {
            &&& !starts_with(bytes, seq![38u8, 97u8, 109u8, 112u8, 59u8])
            &&& !starts_with(bytes, seq![38u8, 108u8, 116u8, 59u8])
            &&& !starts_with(bytes, seq![38u8, 103u8, 116u8, 59u8])
            &&& !starts_with(bytes, seq![38u8, 113u8, 117u8, 111u8, 116u8, 59u8])
            &&& !starts_with(bytes, seq![38u8, 97u8, 112u8, 111u8, 115u8, 59u8])
        },
        bytes.len() > 2 && (bytes[1] != 97 || bytes[2] != 109) ==> !starts_with(
            bytes,
            seq![38u8, 97u8, 109u8, 112u8, 59u8],
        ),
        bytes.len() > 2 && bytes[1] != 108 ==> !starts_with(
            bytes,
            seq![38u8, 108u8, 116u8, 59u8],
        ),
        bytes.len() > 2 && bytes[1] != 103 ==> !starts_with(
            bytes,
            seq![38u8, 103u8, 116u8, 59u8],
        ),
        bytes.len() > 2 && bytes[1] != 113 ==> !starts_with(
            bytes,
            seq![38u8, 113u8, 117u8, 111u8, 116u8, 59u8],
        ),
{
    let entities = seq![
        seq![38u8, 97u8, 109u8, 112u8, 59u8],
        seq![38u8, 108u8, 116u8, 59u8],
        seq![38u8, 103u8, 116u8, 59u8],
        seq![38u8, 113u8, 117u8, 111u8, 116u8, 59u8],
        seq![38u8, 97u8, 112u8, 111u8, 115u8, 59u8],
    ];
    assert forall|e: int| 0 <= e < 5 && starts_with(bytes, #[trigger] entities[e]) implies bytes[0]
        == 38 && bytes[1] == entities[e][1] && bytes[2] == entities[e][2] by {
        let entity = entities[e];
        let front = bytes.take(entity.len() as int);
        assert(front[0] == bytes[0] && front[1] == bytes[1] && front[2] == bytes[2]);
    }
    assert(entities[0] == seq![38u8, 97u8, 109u8, 112u8, 59u8]);
    assert(entities[1] == seq![38u8, 108u8, 116u8, 59u8]);
    assert(entities[2] == seq![38u8, 103u8, 116u8, 59u8]);
    assert(entities[3] == seq![38u8, 113u8, 117u8, 111u8, 116u8, 59u8]);
    assert(entities[4] == seq![38u8, 97u8, 112u8, 111u8, 115u8, 59u8]);
}

/// Whether a line of the manifest describes a layer: its name, the number of its paint
/// device, its opacity, whether it is shown, an identity of its own and whether it is the
/// selected one.
pub open spec fn describes_layer(
    line: Seq<u8>,
    layer: ArchiveLayerModel,
    device: nat,
    opacity: u8,
    selected: bool,
) -> bool {
    exists|identity: Seq<u8>|
        {
            &&& identity.len() == 38
            &&& hex_read(identity.subrange(25, 37)) == layer.id + 1
            &&& line == encode_utf8("    <layer name=\""@) + escaped(encode_utf8(layer.name))
                + encode_utf8("\" filename=\"layer"@) + decimal_ascii(device) + encode_utf8(
                "\" nodetype=\"paintlayer\" x=\"0\" y=\"0\" colorspacename=\"RGBA\" compositeop=\"normal\" opacity=\""@,
            ) + decimal_ascii(opacity as nat) + encode_utf8("\" visible=\""@) + (
            if layer.visible { encode_utf8("1"@) } else { encode_utf8("0"@) }) + encode_utf8(
                "\" locked=\"0\" collapsed=\"0\" channelflags=\"\" channellockflags=\"\" uuid=\""@,
            ) + #[trigger] identity.subrange(0, 38) + encode_utf8("\""@) + (if selected {
                encode_utf8(" selected=\"true\""@)
            } else {
                encode_utf8(""@)
            }) + encode_utf8("/>\n"@)
        }
}

/// The identity of a layer in the manifest ends in its number, so that no two layers share
/// one.
pub proof fn law_layer_identities_are_told_apart(a: u32, b: u32)
    ensures
        layer_uuid_bytes(a).len() == 38,
        hex_read(layer_uuid_bytes(a).subrange(25, 37)) == a + 1,
        layer_uuid_bytes(a) == layer_uuid_bytes(b) ==> a == b,
{
    lemma_identity(a);
    lemma_identity(b);
}

proof fn lemma_identity(id: u32)
    ensures
        layer_uuid_bytes(id).len() == 38,
        hex_read(layer_uuid_bytes(id).subrange(25, 37)) == id + 1,
{
    reveal_strlit("{00000000-0000-4000-8000-");
    reveal_strlit("}");
    is_ascii_chars_encode_utf8("{00000000-0000-4000-8000-"@);
    is_ascii_chars_encode_utf8("}"@);
    let digits = hex_ascii((id + 1) as nat, 12);
    law_hexadecimal_numbers_are_read_back((id + 1) as nat, 12);
    assert(vstd::arithmetic::power::pow(16, 12) == 0x1_0000_0000_0000) by {
        reveal_with_fuel(vstd::arithmetic::power::pow, 13);
    }
    assert(layer_uuid_bytes(id).subrange(25, 37) =~= digits);
}

proof fn lemma_layer_line(layer: ArchiveLayerModel, position: int, opacity: u8, active: u32)
    requires
        0 <= position,
    ensures
        describes_layer(
            layer_line(layer, position, opacity, active),
            layer,
            (position + 2) as nat,
            opacity,
            layer.id == active,
        ),
{
    let identity = layer_uuid_bytes(layer.id);
    lemma_identity(layer.id);
    assert(identity.subrange(0, 38) =~= identity);
    let line = layer_line(layer, position, opacity, active);
    assert(line =~= encode_utf8("    <layer name=\""@) + escaped(encode_utf8(layer.name))
        + encode_utf8("\" filename=\"layer"@) + decimal_ascii((position + 2) as nat)
        + encode_utf8(
        "\" nodetype=\"paintlayer\" x=\"0\" y=\"0\" colorspacename=\"RGBA\" compositeop=\"normal\" opacity=\""@,
    ) + decimal_ascii(opacity as nat) + encode_utf8("\" visible=\""@) + (if layer.visible {
        encode_utf8("1"@)
    } else {
        encode_utf8("0"@)
    }) + encode_utf8(
        "\" locked=\"0\" collapsed=\"0\" channelflags=\"\" channellockflags=\"\" uuid=\""@,
    ) + identity.subrange(0, 38) + encode_utf8("\""@) + (if layer.id == active {
        encode_utf8(" selected=\"true\""@)
    } else {
        encode_utf8(""@)
    }) + encode_utf8("/>\n"@));
}

/// The statement of the extent of a canvas.
pub open spec fn extent_text(size: CanvasSize) -> Seq<u8> {
    encode_utf8("<IMAGE width=\""@) + decimal_ascii(size.width as nat) + encode_utf8(
        "\" height=\""@,
    ) + decimal_ascii(size.height as nat) + encode_utf8("\" name="@)
}

/// Whether text stands at a place.
pub open spec fn stands_at(text: Seq<u8>, bytes: Seq<u8>, at: int) -> bool {
    0 <= at && at + text.len() <= bytes.len() && bytes.subrange(at, at + text.len()) == text
}

/// Whether a manifest states the extent of the canvas, and then describes all layers, the
/// topmost first: the layer at position `n` between `cuts[n + 1]` and `cuts[n]`.
pub open spec fn describes_document(
    xml: Seq<u8>,
    archive: ArchiveModel,
    opacities: Seq<u8>,
    cuts: Seq<int>,
) -> bool {
    let extent = extent_text(archive.canvas_size);
    let count = archive.layers.len() as int;
    &&& exists|at: int| #[trigger] stands_at(extent, xml, at) && at + extent.len() <= cuts[count]
    &&& cuts.len() == count + 1
    &&& 0 <= cuts[count]
    &&& cuts[0] <= xml.len()
    &&& forall|n: int|
        0 <= n < count ==> line_between(
            xml,
            #[trigger] archive.layers[n],
            n,
            opacities[n],
            archive.active_layer,
            cuts[n + 1],
            cuts[n],
        )
}

/// Whether a line between two places describes the layer at a position.
pub open spec fn line_between(
    xml: Seq<u8>,
    layer: ArchiveLayerModel,
    position: int,
    opacity: u8,
    active: u32,
    from: int,
    to: int,
) -> bool {
    &&& 0 <= from <= to <= xml.len()
    &&& describes_layer(
        xml.subrange(from, to),
        layer,
        (position + 2) as nat,
        opacity,
        layer.id == active,
    )
}

/// Where the lines of the layers end.
proof fn lemma_layer_lines(
    layers: Seq<ArchiveLayerModel>,
    opacities: Seq<u8>,
    active: u32,
    count: nat,
) -> (cuts: Seq<int>)
    requires
        count <= layers.len(),
    ensures
        ({
            let bytes = layer_lines(layers, opacities, active, count);
            &&& cuts.len() == count + 1
            &&& cuts[count as int] == 0
            &&& cuts[0] == bytes.len()
            &&& forall|n: int|
                0 <= n < count ==> line_between(
                    bytes,
                    #[trigger] layers[n],
                    n,
                    opacities[n],
                    active,
                    cuts[n + 1],
                    cuts[n],
                )
        }),
    decreases count,
{
    let bytes = layer_lines(layers, opacities, active, count);
    if count == 0 {
        seq![0int]
    } else {
        let before = layer_lines(layers, opacities, active, (count - 1) as nat);
        let early = lemma_layer_lines(layers, opacities, active, (count - 1) as nat);
        let line = layer_line(layers[count - 1], count - 1, opacities[count - 1], active);
        lemma_layer_line(layers[count - 1], count - 1, opacities[count - 1], active);
        assert(bytes == line + before);
        let cuts = early.map_values(|cut: int| cut + line.len()).push(0);
        assert forall|n: int| 0 <= n < count implies line_between(
            bytes,
            #[trigger] layers[n],
            n,
            opacities[n],
            active,
            cuts[n + 1],
            cuts[n],
        ) by {
            if n < count - 1 {
                assert(line_between(
                    before,
                    layers[n],
                    n,
                    opacities[n],
                    active,
                    early[n + 1],
                    early[n],
                ));
                assert(bytes.subrange(cuts[n + 1], cuts[n]) =~= before.subrange(
                    early[n + 1],
                    early[n],
                ));
            } else {
                assert(bytes.subrange(0, line.len() as int) =~= line);
            }
        }
        cuts
    }
}

/// What stands in the middle of a sequence is found there.
proof fn lemma_in_the_middle(start: Seq<u8>, middle: Seq<u8>, rest: Seq<u8>)
    ensures
        (start + middle + rest).subrange(start.len() as int, (start.len() + middle.len()) as int)
            == middle,
{
    assert((start + middle + rest).subrange(
        start.len() as int,
        (start.len() + middle.len()) as int,
    ) =~= middle);
}

/// Where the head of a manifest states the extent.
proof fn lemma_extent_stated(size: CanvasSize) -> (at: int)
    ensures
        ({
            let head = crate::krita::manifest_head(size);
            let extent = extent_text(size);
            &&& 0 <= at && at + extent.len() <= head.len()
            &&& head.subrange(at, at + extent.len()) == extent
        }),
{
    let head = crate::krita::manifest_head(size);
    let start = encode_utf8("<?xml version=\"1.0\" encoding=\"UTF-8\"?>\n"@) + encode_utf8(
        "<!DOCTYPE DOC PUBLIC '-//KDE//DTD krita 2.0//EN' 'http://www.calligra.org/DTD/krita-2.0.dtd'>\n"@,
    ) + encode_utf8(
        "<DOC xmlns=\"http://www.calligra.org/DTD/krita\" syntaxVersion=\"2\" editor=\"Krita\">\n"@,
    );
    let rest = encode_utf8(
        "\" name=\"unnamed\" mime=\"application/x-kra\" colorspacename=\"RGBA\" profile=\"sRGB built-in\" x-res=\"100\" y-res=\"100\" description=\"Hamerons stroke document\">\n"@,
    );
    let opening = encode_utf8("\" name="@);
    lemma_opening();
    let width = decimal_ascii(size.width as nat);
    let height = decimal_ascii(size.height as nat);
    let (a, b) = (encode_utf8("<IMAGE width=\""@), encode_utf8("\" height=\""@));
    let ending = encode_utf8("<layers>\n"@);
    let middle = a + width + b + height + opening;
    let others = rest.skip(opening.len() as int) + ending;
    assert(rest =~= opening + rest.skip(opening.len() as int));
    assert(head == start + a + width + b + height + rest + ending);
    assert(head =~= start + middle + others);
    lemma_in_the_middle(start, middle, others);
    start.len() as int
}

proof fn lemma_opening()
    ensures
        ({
            let rest = encode_utf8(
                "\" name=\"unnamed\" mime=\"application/x-kra\" colorspacename=\"RGBA\" profile=\"sRGB built-in\" x-res=\"100\" y-res=\"100\" description=\"Hamerons stroke document\">\n"@,
            );
            let opening = encode_utf8("\" name="@);
            opening.len() <= rest.len() && rest.take(opening.len() as int) == opening
        }),
{
    reveal_strlit("\" name=");
    reveal_strlit(
        "\" name=\"unnamed\" mime=\"application/x-kra\" colorspacename=\"RGBA\" profile=\"sRGB built-in\" x-res=\"100\" y-res=\"100\" description=\"Hamerons stroke document\">\n",
    );
    is_ascii_chars_encode_utf8("\" name="@);
    is_ascii_chars_encode_utf8(
        "\" name=\"unnamed\" mime=\"application/x-kra\" colorspacename=\"RGBA\" profile=\"sRGB built-in\" x-res=\"100\" y-res=\"100\" description=\"Hamerons stroke document\">\n"@,
    );
    let rest = encode_utf8(
        "\" name=\"unnamed\" mime=\"application/x-kra\" colorspacename=\"RGBA\" profile=\"sRGB built-in\" x-res=\"100\" y-res=\"100\" description=\"Hamerons stroke document\">\n"@,
    );
    let opening = encode_utf8("\" name="@);
    assert(rest.take(opening.len() as int) =~= opening);
}

/// A manifest states the width and the height of the canvas, and describes every layer of
/// the document, the topmost first, with the file of its paint device.
pub proof fn law_manifests_describe_the_document(
    archive: ArchiveDocument,
    opacities: Vec<u8>,
    xml: Vec<u8>,
)
    requires
        opacities@.len() == archive@.layers.len(),
        archive@.layers.len() <= 0xffff_ffff,
        call_ensures(maindoc_xml, (&archive, &opacities), xml),
    ensures
        exists|cuts: Seq<int>| #[trigger]
            describes_document(xml@, archive@, opacities@, cuts),
{
    let model = archive@;
    let lines = layer_lines(
        model.layers,
        opacities@,
        model.active_layer,
        model.layers.len(),
    );
    let early = lemma_layer_lines(
        model.layers,
        opacities@,
        model.active_layer,
        model.layers.len(),
    );
    let head = crate::krita::manifest_head(model.canvas_size);
    let tail = crate::krita::manifest_tail();
    assert(xml@ == head + lines + tail);
    let cuts = early.map_values(|cut: int| head.len() + cut);
    let count = model.layers.len() as int;
    let at = lemma_extent_stated(model.canvas_size);
    let extent = extent_text(model.canvas_size);
    assert(xml@.subrange(at, at + extent.len()) =~= head.subrange(at, at + extent.len()));
    assert(stands_at(extent, xml@, at));
    assert forall|n: int| 0 <= n < count implies line_between(
        xml@,
        #[trigger] model.layers[n],
        n,
        opacities@[n],
        model.active_layer,
        cuts[n + 1],
        cuts[n],
    ) by {
        assert(line_between(
            lines,
            model.layers[n],
            n,
            opacities@[n],
            model.active_layer,
            early[n + 1],
            early[n],
        ));
        assert(xml@.subrange(cuts[n + 1], cuts[n]) =~= lines.subrange(early[n + 1], early[n]));
    }
    assert(describes_document(xml@, model, opacities@, cuts));
}

/// Whether members of a container hold content under a name.
pub open spec fn member_is(
    members: Seq<(Seq<char>, Seq<u8>)>,
    name: Seq<char>,
    content: Seq<u8>,
) -> bool {
    exists|i: int| 0 <= i < members.len() && #[trigger] members[i] == (name, content)
}

/// A container holds what it declares to be, the manifest, both images, the payload, and for
/// every layer its own paint device under the number by which the manifest names it, with
/// transparency outside of the tiles.
pub proof fn law_containers_hold_every_layer(
    archive: ArchiveModel,
    art: ArtModel,
    merged: Seq<u8>,
    preview: Seq<u8>,
    payload: Seq<u8>,
    n: int,
)
    requires
        0 <= n < art.layers.len(),
    ensures
        ({
            let members = kra_members(archive, art, merged, preview, payload);
            let name = "unnamed/layers/layer"@ + decimal_text((n + 2) as nat);
            &&& members[0] == ("mimetype"@, encode_utf8("application/x-krita"@))
            &&& member_is(members, "maindoc.xml"@, manifest(archive, art.opacities))
            &&& member_is(members, "mergedimage.png"@, merged)
            &&& member_is(members, "preview.png"@, preview)
            &&& member_is(members, "hamerons/document.ron"@, payload)
            &&& member_is(members, name, paint_device(art.layers[n]))
            &&& member_is(members, name + ".defaultpixel"@, seq![0u8, 0u8, 0u8, 0u8])
            &&& members.len() == 5 + 2 * art.layers.len()
        }),
{
    let members = kra_members(archive, art, merged, preview, payload);
    let inner = crate::container::layer_members(art.layers, art.layers.len());
    lemma_layer_members_at(art.layers, art.layers.len());
    assert(members[1] == ("maindoc.xml"@, manifest(archive, art.opacities)));
    assert(members[2] == ("mergedimage.png"@, merged));
    assert(members[3] == ("preview.png"@, preview));
    assert(members[members.len() - 1] == ("hamerons/document.ron"@, payload));
    assert(inner[2 * n] == (device_name(n), paint_device(art.layers[n])));
    assert(members[4 + 2 * n] == inner[2 * n]);
    assert(members[4 + (2 * n + 1)] == inner[2 * n + 1]);
}

proof fn lemma_layer_members_at(layers: Seq<Seq<KritaTileModel>>, count: nat)
    requires
        count <= layers.len(),
    ensures
        ({
            let members = crate::container::layer_members(layers, count);
            &&& members.len() == 2 * count
            &&& forall|n: int|
                0 <= n < count ==> {
                    &&& members[2 * n] == (device_name(n), paint_device(#[trigger] layers[n]))
                    &&& members[2 * n + 1] == (
                        device_name(n) + ".defaultpixel"@,
                        seq![0u8, 0u8, 0u8, 0u8],
                    )
                }
        }),
    decreases count,
{
    if count > 0 {
        lemma_layer_members_at(layers, (count - 1) as nat);
        let before = crate::container::layer_members(layers, (count - 1) as nat);
        let members = crate::container::layer_members(layers, count);
        assert forall|n: int| 0 <= n < count implies {
            &&& members[2 * n] == (device_name(n), paint_device(#[trigger] layers[n]))
            &&& members[2 * n + 1] == (
                device_name(n) + ".defaultpixel"@,
                seq![0u8, 0u8, 0u8, 0u8],
            )
        } by {
            if n < count - 1 {
                assert(members[2 * n] == before[2 * n]);
                assert(members[2 * n + 1] == before[2 * n + 1]);
            }
        }
    }
}

/// Whether a shown stroke of a layer covers a tile.
pub open spec fn paints_tile(
    archive: ArchiveModel,
    spans: Seq<Option<KritaSpan>>,
    layer: u32,
    stroke: int,
    x: u32,
    y: u32,
) -> bool {
    &&& 0 <= stroke < archive.strokes.len()
    &&& archive.strokes[stroke].visible
    &&& archive.strokes[stroke].layer == layer
    &&& spans[stroke] is Some
    &&& spans[stroke]->0.min_x <= x <= spans[stroke]->0.max_x
    &&& spans[stroke]->0.min_y <= y <= spans[stroke]->0.max_y
}

/// Whether a planned tile lists exactly the strokes that cover it, in document order.
pub open spec fn lists_its_strokes(
    tile: KritaTilePlan,
    archive: ArchiveModel,
    spans: Seq<Option<KritaSpan>>,
    layer: u32,
) -> bool {
    &&& forall|stroke: usize| #[trigger]
        tile.strokes@.contains(stroke) <==> paints_tile(
            archive,
            spans,
            layer,
            stroke as int,
            tile.x,
            tile.y,
        )
    &&& forall|a: int, b: int|
        0 <= a < b < tile.strokes@.len() ==> tile.strokes@[a] < tile.strokes@[b]
}

/// The plan of a layer lists each tile that a shown stroke of the layer covers, once, column
/// by column from the left and each column from the top, with exactly the strokes that cover
/// it, in document order.
pub proof fn law_plans_list_the_painted_tiles(
    archive: ArchiveDocument,
    spans: Vec<Option<KritaSpan>>,
    layer: u32,
    plan: Vec<KritaTilePlan>,
    x: u32,
    y: u32,
)
    requires
        spans@.len() == archive@.strokes.len(),
        archive@.strokes.len() <= usize::MAX,
        call_ensures(plan_layer, (&archive, &spans, layer), plan),
    ensures
        (exists|i: int| 0 <= i < plan@.len() && (#[trigger] plan@[i]).x == x && plan@[i].y == y)
            <==> exists|stroke: int| #[trigger]
            paints_tile(archive@, spans@, layer, stroke, x, y),
        forall|i: int, j: int|
            0 <= i < j < plan@.len() ==> (#[trigger] plan@[i]).x < (#[trigger] plan@[j]).x || (
            plan@[i].x == plan@[j].x && plan@[i].y < plan@[j].y),
        forall|i: int|
            0 <= i < plan@.len() ==> lists_its_strokes(
                #[trigger] plan@[i],
                archive@,
                spans@,
                layer,
            ),
{
    let strokes = archive@.strokes;
    assert forall|i: int, j: int| 0 <= i < j < plan@.len() implies (#[trigger] plan@[i]).x < (
    #[trigger] plan@[j]).x || (plan@[i].x == plan@[j].x && plan@[i].y < plan@[j].y) by {
        assert(tile_place(plan@[i].x, plan@[i].y) < tile_place(plan@[j].x, plan@[j].y));
    }
    assert forall|i: int| 0 <= i < plan@.len() implies lists_its_strokes(
        #[trigger] plan@[i],
        archive@,
        spans@,
        layer,
    ) by {
        lemma_strokes_reaching(
            archive@,
            spans@,
            layer,
            strokes.len(),
            plan@[i].x,
            plan@[i].y,
        );
    }
    if exists|i: int| 0 <= i < plan@.len() && (#[trigger] plan@[i]).x == x && plan@[i].y == y {
        assert(crate::krita::planned(plan@, x, y));
        let stroke = choose|i: int|
            0 <= i < strokes.len() && #[trigger] crate::krita::reaches(
                strokes,
                spans@,
                layer,
                i,
                x,
                y,
            );
        assert(paints_tile(archive@, spans@, layer, stroke, x, y));
    }
    if exists|stroke: int| #[trigger] paints_tile(archive@, spans@, layer, stroke, x, y) {
        let stroke = choose|stroke: int| #[trigger]
            paints_tile(archive@, spans@, layer, stroke, x, y);
        assert(crate::krita::reaches(strokes, spans@, layer, stroke, x, y));
        assert(crate::krita::reached(strokes, spans@, layer, strokes.len() as int, x, y));
        assert(crate::krita::planned(plan@, x, y));
    }
}

proof fn lemma_strokes_reaching(
    archive: ArchiveModel,
    spans: Seq<Option<KritaSpan>>,
    layer: u32,
    count: nat,
    x: u32,
    y: u32,
)
    requires
        count <= archive.strokes.len() <= usize::MAX,
    ensures
        ({
            let list = strokes_reaching(archive.strokes, spans, layer, count, x, y);
            &&& forall|stroke: usize| #[trigger]
                list.contains(stroke) <==> stroke < count && paints_tile(
                    archive,
                    spans,
                    layer,
                    stroke as int,
                    x,
                    y,
                )
            &&& forall|a: int, b: int| 0 <= a < b < list.len() ==> list[a] < list[b]
        }),
    decreases count,
{
    if count > 0 {
        lemma_strokes_reaching(archive, spans, layer, (count - 1) as nat, x, y);
        let before = strokes_reaching(archive.strokes, spans, layer, (count - 1) as nat, x, y);
        let list = strokes_reaching(archive.strokes, spans, layer, count, x, y);
        let last = (count - 1) as usize;
        if paints_tile(archive, spans, layer, count - 1, x, y) {
            assert(list == before.push(last));
            assert forall|stroke: usize| #[trigger] list.contains(stroke) <==> stroke < count
                && paints_tile(archive, spans, layer, stroke as int, x, y) by {
                if list.contains(stroke) {
                    let k = choose|k: int| 0 <= k < list.len() && list[k] == stroke;
                    if k < before.len() {
                        assert(before.contains(before[k]));
                    }
                }
                if stroke < count && paints_tile(archive, spans, layer, stroke as int, x, y) {
                    if stroke == last {
                        assert(list[before.len() as int] == stroke);
                    } else {
                        assert(before.contains(stroke));
                        let k = choose|k: int| 0 <= k < before.len() && before[k] == stroke;
                        assert(list[k] == stroke);
                    }
                }
            }
            assert forall|a: int, b: int| 0 <= a < b < list.len() implies list[a] < list[b] by {
                assert(before.contains(before[a]));
            }
        } else {
            assert(list == before);
        }
    } else {
        assert(strokes_reaching(archive.strokes, spans, layer, 0, x, y) =~= Seq::empty());
    }
}

/// Whether a recipe is the colour of a paint.
pub open spec fn is_colour_of(recipe: MaterialModel, reference: PaintMaterialRef) -> bool {
    recipe.reference == reference && recipe.payload is PremultipliedLinearRgba
}

/// A stroke is painted in the colour of the latest recipe with the paint of its brush, and
/// has none where no recipe of that paint is a colour.
pub proof fn law_strokes_have_the_colour_of_their_paint(
    archive: ArchiveDocument,
    stroke: usize,
    colour: Option<Rgba>,
)
    requires
        stroke < archive@.strokes.len(),
        call_ensures(stroke_colour, (&archive, stroke), colour),
    ensures
        ({
            let brush = archive@.strokes[stroke as int].brush;
            let recipes = archive@.materials;
            let paint = PaintMaterialRef {
                model: crate::paint::PaintModelId(brush.model),
                model_version: brush.model_version,
                material: crate::paint::PaintMaterialId(brush.material),
            };
            match colour {
                Some(found) => exists|m: int|
                    {
                        &&& 0 <= m < recipes.len()
                        &&& (#[trigger] recipes[m]).reference == paint
                        &&& recipes[m].payload == PayloadModel::PremultipliedLinearRgba(found)
                        &&& forall|later: int|
                            m < later < recipes.len() ==> !is_colour_of(
                                #[trigger] recipes[later],
                                paint,
                            )
                    },
                None => forall|m: int|
                    0 <= m < recipes.len() ==> !is_colour_of(#[trigger] recipes[m], paint),
            }
        }),
{
    lemma_recipe_colour(archive@.materials, archive@.strokes[stroke as int].brush.reference());
}

proof fn lemma_recipe_colour(recipes: Seq<MaterialModel>, paint: PaintMaterialRef)
    ensures
        match recipe_colour(recipes, paint) {
            Some(found) => exists|m: int|
                {
                    &&& 0 <= m < recipes.len()
                    &&& (#[trigger] recipes[m]).reference == paint
                    &&& recipes[m].payload == PayloadModel::PremultipliedLinearRgba(found)
                    &&& forall|later: int|
                        m < later < recipes.len() ==> !is_colour_of(
                            #[trigger] recipes[later],
                            paint,
                        )
                },
            None => forall|m: int|
                0 <= m < recipes.len() ==> !is_colour_of(#[trigger] recipes[m], paint),
        },
    decreases recipes.len(),
{
    if recipes.len() > 0 {
        let last = recipes.len() - 1;
        let front = recipes.drop_last();
        lemma_recipe_colour(front, paint);
        if is_colour_of(recipes[last], paint) {
            assert(recipe_colour(recipes, paint) == Some(
                recipes[last].payload->PremultipliedLinearRgba_0,
            ));
        } else {
            assert(recipe_colour(recipes, paint) == recipe_colour(front, paint));
            match recipe_colour(front, paint) {
                Some(found) => {
                    let m = choose|m: int|
                        {
                            &&& 0 <= m < front.len()
                            &&& (#[trigger] front[m]).reference == paint
                            &&& front[m].payload == PayloadModel::PremultipliedLinearRgba(found)
                            &&& forall|later: int|
                                m < later < front.len() ==> !is_colour_of(
                                    #[trigger] front[later],
                                    paint,
                                )
                        };
                    assert(recipes[m] == front[m]);
                    assert forall|later: int| m < later < recipes.len() implies !is_colour_of(
                        #[trigger] recipes[later],
                        paint,
                    ) by {
                        if later < last {
                            assert(recipes[later] == front[later]);
                        }
                    }
                },
                None => {
                    assert forall|m: int| 0 <= m < recipes.len() implies !is_colour_of(
                        #[trigger] recipes[m],
                        paint,
                    ) by {
                        if m < last {
                            assert(recipes[m] == front[m]);
                        }
                    }
                },
            }
        }
    }
}

} // verus!
