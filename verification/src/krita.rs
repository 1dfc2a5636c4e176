//! Krita-native parts of a saved document: manifest, paint devices, tile plan.
use crate::archive::{
    archive_layer_models, ArchiveDocument, ArchiveLayer, ArchiveLayerModel, ArchiveModel,
    ArchiveStroke,
};
use crate::geometry::CanvasSize;
use crate::ordered::ordered_ids;
use crate::paint::{MaterialModel, PaintMaterialPayload, PaintMaterialRef, PayloadModel, Rgba};
use crate::text::{decimal_ascii, hex_ascii, push_decimal, push_hex, push_text};
use std::collections::BTreeMap;
use vstd::prelude::*;
use vstd::utf8::encode_utf8;

verus! {

broadcast use vstd::laws_cmp::group_laws_cmp;

/// Edge length of a Krita tile in pixels.
pub const KRITA_TILE_SIZE: u32 = 64;

/// What stands for a byte of text in an XML attribute.
pub open spec fn escaped_byte(byte: u8) -> Seq<u8> {
    if byte == 38 {
        encode_utf8("&amp;"@)
    } else if byte == 60 {
        encode_utf8("&lt;"@)
    } else if byte == 62 {
        encode_utf8("&gt;"@)
    } else if byte == 34 {
        encode_utf8("&quot;"@)
    } else if byte == 39 {
        encode_utf8("&apos;"@)
    } else {
        seq![byte]
    }
}

/// Text bytes as they stand in an XML attribute.
pub open spec fn escaped(bytes: Seq<u8>) -> Seq<u8>
    decreases bytes.len(),
{
    if bytes.len() == 0 {
        Seq::empty()
    } else {
        escaped(bytes.drop_last()) + escaped_byte(bytes.last())
    }
}

/// Appends text bytes as they stand in an XML attribute.
pub fn escape_xml(output: &mut Vec<u8>, text: &str)
    ensures
        final(output)@ == old(output)@ + escaped(encode_utf8(text@)),
{
    let ghost before = output@;
    let bytes = text.as_bytes();
    assert(output@ =~= before + escaped(bytes@.take(0)));
    for i in 0..bytes.len()
        invariant
            output@ == before + escaped(bytes@.take(i as int)),
    {
        let ghost done = output@;
        proof {
            let longer = bytes@.take(i + 1);
            assert(longer.drop_last() =~= bytes@.take(i as int));
            assert(longer.last() == bytes@[i as int]);
        }
        let byte: u8 = bytes[i];
        if byte == 38 {
            push_text(output, "&amp;");
        } else if byte == 60 {
            push_text(output, "&lt;");
        } else if byte == 62 {
            push_text(output, "&gt;");
        } else if byte == 34 {
            push_text(output, "&quot;");
        } else if byte == 39 {
            push_text(output, "&apos;");
        } else {
            output.push(byte);
        }
        assert(output@ =~= done + escaped_byte(byte));
        assert(output@ =~= before + escaped(bytes@.take(i + 1)));
    }
    assert(bytes@.take(bytes@.len() as int) =~= bytes@);
}

/// Stable identifier of a layer in the manifest.
pub open spec fn layer_uuid_bytes(id: u32) -> Seq<u8> {
    encode_utf8("{00000000-0000-4000-8000-"@) + hex_ascii((id + 1) as nat, 12) + encode_utf8("}"@)
}

/// Appends the stable identifier of a layer in the manifest.
pub fn layer_uuid(output: &mut Vec<u8>, id: u32)
    ensures
        final(output)@ == old(output)@ + layer_uuid_bytes(id),
{
    let ghost before = output@;
    push_text(output, "{00000000-0000-4000-8000-");
    push_hex(output, id as u64 + 1, 12);
    push_text(output, "}");
    assert(output@ =~= before + layer_uuid_bytes(id));
}

/// What the manifest says of a layer's name, file and opacity.
pub open spec fn layer_line_start(
    layer: ArchiveLayerModel,
    position: int,
    opacity: u8,
) -> Seq<u8> {
    encode_utf8("    <layer name=\""@) + escaped(encode_utf8(layer.name)) + encode_utf8(
        "\" filename=\"layer"@,
    ) + decimal_ascii((position + 2) as nat) + encode_utf8(
        "\" nodetype=\"paintlayer\" x=\"0\" y=\"0\" colorspacename=\"RGBA\" compositeop=\"normal\" opacity=\""@,
    ) + decimal_ascii(opacity as nat)
}

/// What the manifest says of a layer's visibility, identity and selection.
pub open spec fn layer_line_end(layer: ArchiveLayerModel, active: u32) -> Seq<u8> {
    encode_utf8("\" visible=\""@) + encode_utf8(if layer.visible { "1"@ } else { "0"@ })
        + encode_utf8(
        "\" locked=\"0\" collapsed=\"0\" channelflags=\"\" channellockflags=\"\" uuid=\""@,
    ) + layer_uuid_bytes(layer.id) + encode_utf8("\""@) + encode_utf8(
        if layer.id == active { " selected=\"true\""@ } else { ""@ },
    ) + encode_utf8("/>\n"@)
}

/// Manifest line of a layer at a composite position.
pub open spec fn layer_line(
    layer: ArchiveLayerModel,
    position: int,
    opacity: u8,
    active: u32,
) -> Seq<u8> {
    layer_line_start(layer, position, opacity) + layer_line_end(layer, active)
}

/// Manifest lines of the first `count` layers, the topmost first.
pub open spec fn layer_lines(
    layers: Seq<ArchiveLayerModel>,
    opacities: Seq<u8>,
    active: u32,
    count: nat,
) -> Seq<u8>
    decreases count,
{
    if count == 0 {
        Seq::empty()
    } else {
        layer_line(layers[count - 1], count - 1, opacities[count - 1], active) + layer_lines(
            layers,
            opacities,
            active,
            (count - 1) as nat,
        )
    }
}

/// Opening lines of the manifest.
pub open spec fn manifest_head(size: CanvasSize) -> Seq<u8> {
    encode_utf8("<?xml version=\"1.0\" encoding=\"UTF-8\"?>\n"@) + encode_utf8(
        "<!DOCTYPE DOC PUBLIC '-//KDE//DTD krita 2.0//EN' 'http://www.calligra.org/DTD/krita-2.0.dtd'>\n"@,
    ) + encode_utf8(
        "<DOC xmlns=\"http://www.calligra.org/DTD/krita\" syntaxVersion=\"2\" editor=\"Krita\">\n"@,
    ) + encode_utf8("<IMAGE width=\""@) + decimal_ascii(size.width as nat) + encode_utf8(
        "\" height=\""@,
    ) + decimal_ascii(size.height as nat) + encode_utf8(
        "\" name=\"unnamed\" mime=\"application/x-kra\" colorspacename=\"RGBA\" profile=\"sRGB built-in\" x-res=\"100\" y-res=\"100\" description=\"Hamerons stroke document\">\n"@,
    ) + encode_utf8("<layers>\n"@)
}

/// Closing lines of the manifest.
pub open spec fn manifest_tail() -> Seq<u8> {
    encode_utf8(
        "   </layers>\n  <ProjectionBackgroundColor ColorData=\"AAAAAA==\"/>\n  </IMAGE>\n </DOC>\n"@,
    )
}

/// Manifest of a saved document; `opacities` are the layers' opacities as bytes.
pub open spec fn manifest(archive: ArchiveModel, opacities: Seq<u8>) -> Seq<u8> {
    manifest_head(archive.canvas_size) + layer_lines(
        archive.layers,
        opacities,
        archive.active_layer,
        archive.layers.len(),
    ) + manifest_tail()
}

fn push_layer_line_start(output: &mut Vec<u8>, layer: &ArchiveLayer, position: usize, opacity: u8)
    requires
        position < 0xffff_ffff,
    ensures
        final(output)@ == old(output)@ + layer_line_start(layer@, position as int, opacity),
{
    let ghost before = output@;
    push_text(output, "    <layer name=\"");
    escape_xml(output, layer.name.as_str());
    push_text(output, "\" filename=\"layer");
    push_decimal(output, position as u64 + 2);
    push_text(
        output,
        "\" nodetype=\"paintlayer\" x=\"0\" y=\"0\" colorspacename=\"RGBA\" compositeop=\"normal\" opacity=\"",
    );
    push_decimal(output, opacity as u64);
    assert(output@ =~= before + layer_line_start(layer@, position as int, opacity));
}

fn push_layer_line_end(output: &mut Vec<u8>, layer: &ArchiveLayer, active: u32)
    ensures
        final(output)@ == old(output)@ + layer_line_end(layer@, active),
{
    let ghost before = output@;
    push_text(output, "\" visible=\"");
    push_text(output, if layer.visible { "1" } else { "0" });
    push_text(
        output,
        "\" locked=\"0\" collapsed=\"0\" channelflags=\"\" channellockflags=\"\" uuid=\"",
    );
    layer_uuid(output, layer.id);
    push_text(output, "\"");
    push_text(output, if layer.id == active { " selected=\"true\"" } else { "" });
    push_text(output, "/>\n");
    assert(output@ =~= before + layer_line_end(layer@, active));
}

fn push_layer_line(
    output: &mut Vec<u8>,
    layer: &ArchiveLayer,
    position: usize,
    opacity: u8,
    active: u32,
)
    requires
        position < 0xffff_ffff,
    ensures
        final(output)@ == old(output)@ + layer_line(layer@, position as int, opacity, active),
{
    let ghost before = output@;
    push_layer_line_start(output, layer, position, opacity);
    push_layer_line_end(output, layer, active);
    assert(output@ =~= before + layer_line(layer@, position as int, opacity, active));
}

/// Manifest of a saved document; `opacities` are the layers' opacities as bytes.
pub fn maindoc_xml(archive: &ArchiveDocument, opacities: &Vec<u8>) -> (xml: Vec<u8>)
    requires
        opacities@.len() == archive@.layers.len(),
        archive@.layers.len() <= 0xffff_ffff,
    ensures
        xml@ == manifest(archive@, opacities@),
{
    let mut xml: Vec<u8> = Vec::new();
    push_text(&mut xml, "<?xml version=\"1.0\" encoding=\"UTF-8\"?>\n");
    push_text(
        &mut xml,
        "<!DOCTYPE DOC PUBLIC '-//KDE//DTD krita 2.0//EN' 'http://www.calligra.org/DTD/krita-2.0.dtd'>\n",
    );
    push_text(
        &mut xml,
        "<DOC xmlns=\"http://www.calligra.org/DTD/krita\" syntaxVersion=\"2\" editor=\"Krita\">\n",
    );
    push_text(&mut xml, "<IMAGE width=\"");
    push_decimal(&mut xml, archive.canvas_size.width as u64);
    push_text(&mut xml, "\" height=\"");
    push_decimal(&mut xml, archive.canvas_size.height as u64);
    push_text(
        &mut xml,
        "\" name=\"unnamed\" mime=\"application/x-kra\" colorspacename=\"RGBA\" profile=\"sRGB built-in\" x-res=\"100\" y-res=\"100\" description=\"Hamerons stroke document\">\n",
    );
    push_text(&mut xml, "<layers>\n");
    let ghost layers = archive@.layers;
    let ghost head = manifest_head(archive@.canvas_size);
    assert(xml@ =~= head);
    let count: usize = archive.layers.len();
    let ghost all = layer_lines(layers, opacities@, archive.active_layer, layers.len());
    let mut left: usize = count;
    proof {
        assert(layers.len() == archive.layers@.len());
        assert(head + all =~= xml@ + all);
    }
    while left > 0
        invariant
            left <= count,
            count == archive.layers@.len(),
            layers == archive_layer_models(archive.layers@),
            layers.len() == count,
            count <= 0xffff_ffff,
            opacities@.len() == count,
            head + all == xml@ + layer_lines(
                layers,
                opacities@,
                archive.active_layer,
                left as nat,
            ),
        decreases left,
    {
        let ghost done = xml@;
        let position: usize = left - 1;
        assert(layers[position as int] == archive.layers@[position as int]@);
        push_layer_line(
            &mut xml,
            &archive.layers[position],
            position,
            opacities[position],
            archive.active_layer,
        );
        proof {
            let line = layer_line(
                layers[position as int],
                position as int,
                opacities@[position as int],
                archive.active_layer,
            );
            let rest = layer_lines(layers, opacities@, archive.active_layer, position as nat);
            assert(done + (line + rest) =~= (done + line) + rest);
        }
        left = position;
    }
    assert(xml@ + Seq::<u8>::empty() =~= xml@);
    push_text(
        &mut xml,
        "   </layers>\n  <ProjectionBackgroundColor ColorData=\"AAAAAA==\"/>\n  </IMAGE>\n </DOC>\n",
    );
    xml
}

/// One rasterized tile: column, row and interleaved straight sRGB pixels with alpha.
#[derive(Debug)]
pub struct KritaTile {
    /// Column, counted in tiles.
    pub x: u32,
    /// Row, counted in tiles.
    pub y: u32,
    /// Red, green, blue and alpha bytes of every pixel, row by row.
    pub pixels: Vec<u8>,
}

/// Mathematical value of a [`KritaTile`].
#[verifier::ext_equal]
pub struct KritaTileModel {
    pub x: u32,
    pub y: u32,
    pub pixels: Seq<u8>,
}

impl View for KritaTile {
    type V = KritaTileModel;

    open spec fn view(&self) -> KritaTileModel {
        KritaTileModel { x: self.x, y: self.y, pixels: self.pixels@ }
    }
}

/// The tiles of a list, as values.
pub open spec fn krita_tile_models(tiles: Seq<KritaTile>) -> Seq<KritaTileModel> {
    tiles.map_values(|tile: KritaTile| tile@)
}

impl KritaTileModel {
    /// Whether some pixel of the tile is not fully transparent.
    pub open spec fn painted(self) -> bool {
        exists|i: int| 0 <= i < 4096 && #[trigger] self.pixels[4 * i + 3] > 0
    }
}

/// Whether every tile has a byte for each channel of each pixel.
pub open spec fn tiles_complete(tiles: Seq<KritaTileModel>) -> bool {
    forall|i: int| 0 <= i < tiles.len() ==> (#[trigger] tiles[i]).pixels.len() == 16384
}

/// Channel that comes at a place of Krita's channel order: blue, green, red, alpha.
pub open spec fn channel_at(place: int) -> int {
    if place == 0 {
        2
    } else if place == 1 {
        1
    } else if place == 2 {
        0
    } else {
        3
    }
}

/// Bytes of a tile channel by channel, in Krita's channel order.
pub open spec fn planar(pixels: Seq<u8>) -> Seq<u8> {
    Seq::new(16384, |i: int| pixels[(i % 4096) * 4 + channel_at(i / 4096)])
}

/// Record of a tile in a paint device.
pub open spec fn tile_record(tile: KritaTileModel) -> Seq<u8> {
    decimal_ascii((tile.x * 64) as nat) + encode_utf8(","@) + decimal_ascii(
        (tile.y * 64) as nat,
    ) + encode_utf8(",LZF,16385\n"@) + seq![0u8] + planar(tile.pixels)
}

/// Records of the first `count` tiles that show something.
pub open spec fn tile_records(tiles: Seq<KritaTileModel>, count: nat) -> Seq<u8>
    decreases count,
{
    if count == 0 {
        Seq::empty()
    } else {
        let before = tile_records(tiles, (count - 1) as nat);
        if tiles[count - 1].painted() { before + tile_record(tiles[count - 1]) } else { before }
    }
}

/// Number of the first `count` tiles that show something.
pub open spec fn painted_count(tiles: Seq<KritaTileModel>, count: nat) -> nat
    decreases count,
{
    if count == 0 {
        0
    } else {
        painted_count(tiles, (count - 1) as nat) + if tiles[count - 1].painted() { 1nat } else {
            0nat
        }
    }
}

/// Paint device of a layer: a header, then a record for every tile that shows something.
pub open spec fn paint_device(tiles: Seq<KritaTileModel>) -> Seq<u8> {
    encode_utf8("VERSION 2\nTILEWIDTH 64\nTILEHEIGHT 64\nPIXELSIZE 4\nDATA "@) + decimal_ascii(
        painted_count(tiles, tiles.len()),
    ) + encode_utf8("\n"@) + tile_records(tiles, tiles.len())
}

fn is_painted(tile: &KritaTile) -> (painted: bool)
    requires
        tile@.pixels.len() == 16384,
    ensures
        painted == tile@.painted(),
{
    for i in 0..4096usize
        invariant
            tile@.pixels.len() == 16384,
            forall|j: int| 0 <= j < i ==> #[trigger] tile@.pixels[4 * j + 3] == 0,
    {
        if tile.pixels[4 * i + 3] > 0 {
            assert(tile@.pixels[4 * (i as int) + 3] > 0);
            return true;
        }
    }
    false
}

fn push_planar(output: &mut Vec<u8>, pixels: &Vec<u8>)
    requires
        pixels@.len() == 16384,
    ensures
        final(output)@ == old(output)@ + planar(pixels@),
{
    let ghost before = output@;
    for i in 0..16384usize
        invariant
            pixels@.len() == 16384,
            output@ == before + planar(pixels@).take(i as int),
    {
        let place: usize = i / 4096;
        let channel: usize = if place == 0 {
            2
        } else if place == 1 {
            1
        } else if place == 2 {
            0
        } else {
            3
        };
        let pixel: usize = i % 4096;
        output.push(pixels[pixel * 4 + channel]);
        assert(output@ =~= before + planar(pixels@).take(i + 1));
    }
    assert(planar(pixels@).take(16384) =~= planar(pixels@));
}

/// Paint device of a layer: a header, then a record for every tile that shows something.
///
/// Tiles are listed by column, then row.
pub fn paint_device_bytes(tiles: &Vec<KritaTile>) -> (bytes: Vec<u8>)
    requires
        tiles_complete(krita_tile_models(tiles@)),
    ensures
        bytes@ == paint_device(krita_tile_models(tiles@)),
{
    let ghost models = krita_tile_models(tiles@);
    let mut count: u64 = 0;
    for i in 0..tiles.len()
        invariant
            models == krita_tile_models(tiles@),
            tiles_complete(models),
            count == painted_count(models, i as nat),
            count <= i,
    {
        assert(models[i as int] == tiles@[i as int]@);
        if is_painted(&tiles[i]) {
            count = count + 1;
        }
    }
    let mut bytes: Vec<u8> = Vec::new();
    push_text(&mut bytes, "VERSION 2\nTILEWIDTH 64\nTILEHEIGHT 64\nPIXELSIZE 4\nDATA ");
    push_decimal(&mut bytes, count);
    push_text(&mut bytes, "\n");
    let ghost head = bytes@;
    assert(head =~= head + tile_records(models, 0));
    for i in 0..tiles.len()
        invariant
            models == krita_tile_models(tiles@),
            tiles_complete(models),
            bytes@ == head + tile_records(models, i as nat),
    {
        let ghost done = bytes@;
        assert(models[i as int] == tiles@[i as int]@);
        if is_painted(&tiles[i]) {
            push_decimal(&mut bytes, tiles[i].x as u64 * 64);
            push_text(&mut bytes, ",");
            push_decimal(&mut bytes, tiles[i].y as u64 * 64);
            push_text(&mut bytes, ",LZF,16385\n");
            bytes.push(0);
            push_planar(&mut bytes, &tiles[i].pixels);
            assert(bytes@ =~= done + tile_record(models[i as int]));
            assert(bytes@ =~= head + tile_records(models, (i + 1) as nat));
        }
    }
    proof {
        assert(models.len() == tiles@.len());
        assert(head =~= encode_utf8(
            "VERSION 2\nTILEWIDTH 64\nTILEHEIGHT 64\nPIXELSIZE 4\nDATA "@,
        ) + decimal_ascii(painted_count(models, models.len())) + encode_utf8("\n"@));
    }
    bytes
}

/// Inclusive range of Krita tiles.
#[derive(Clone, Copy, Debug, PartialEq, Eq, Structural)]
pub struct KritaSpan {
    /// First column.
    pub min_x: u32,
    /// First row.
    pub min_y: u32,
    /// Last column.
    pub max_x: u32,
    /// Last row.
    pub max_y: u32,
}

impl KritaSpan {
    /// Whether the tile lies in the range.
    pub open spec fn covers(self, x: u32, y: u32) -> bool {
        self.min_x <= x <= self.max_x && self.min_y <= y <= self.max_y
    }
}

/// Whether a stroke of a layer reaches a tile; strokes off the canvas reach none.
pub open spec fn reaches(
    strokes: Seq<ArchiveStroke>,
    spans: Seq<Option<KritaSpan>>,
    layer: u32,
    stroke: int,
    x: u32,
    y: u32,
) -> bool {
    &&& strokes[stroke].visible
    &&& strokes[stroke].layer == layer
    &&& spans[stroke] matches Some(span) && span.covers(x, y)
}

/// Positions of those among the first `count` strokes of a layer that reach a tile.
pub open spec fn strokes_reaching(
    strokes: Seq<ArchiveStroke>,
    spans: Seq<Option<KritaSpan>>,
    layer: u32,
    count: nat,
    x: u32,
    y: u32,
) -> Seq<usize>
    decreases count,
{
    if count == 0 {
        Seq::empty()
    } else {
        let before = strokes_reaching(strokes, spans, layer, (count - 1) as nat, x, y);
        if reaches(strokes, spans, layer, count - 1, x, y) {
            before.push((count - 1) as usize)
        } else {
            before
        }
    }
}

/// Whether one of the first `count` strokes of a layer reaches a tile.
pub open spec fn reached(
    strokes: Seq<ArchiveStroke>,
    spans: Seq<Option<KritaSpan>>,
    layer: u32,
    count: int,
    x: u32,
    y: u32,
) -> bool {
    exists|i: int| 0 <= i < count && #[trigger] reaches(strokes, spans, layer, i, x, y)
}

/// Strokes to replay into one tile of a layer.
#[derive(Debug)]
pub struct KritaTilePlan {
    /// Column of the tile.
    pub x: u32,
    /// Row of the tile.
    pub y: u32,
    /// Positions of the strokes, in document order.
    pub strokes: Vec<usize>,
}

/// Position of a tile when tiles are sorted by column, then row.
pub open spec fn tile_place(x: u32, y: u32) -> u64 {
    (x * 0x1_0000_0000 + y) as u64
}

/// Whether a plan lists every tile that the layer's strokes reach, by column and
/// row, each with the strokes that reach it.
pub open spec fn plans_layer(
    plan: Seq<KritaTilePlan>,
    strokes: Seq<ArchiveStroke>,
    spans: Seq<Option<KritaSpan>>,
    layer: u32,
) -> bool {
    &&& forall|i: int, j: int|
        0 <= i < j < plan.len() ==> tile_place((#[trigger] plan[i]).x, plan[i].y) < tile_place(
            (#[trigger] plan[j]).x,
            plan[j].y,
        )
    &&& forall|i: int|
        0 <= i < plan.len() ==> (#[trigger] plan[i]).strokes@ == strokes_reaching(
            strokes,
            spans,
            layer,
            strokes.len(),
            plan[i].x,
            plan[i].y,
        )
    &&& forall|x: u32, y: u32|
        reached(strokes, spans, layer, strokes.len() as int, x, y) <==> #[trigger] planned(
            plan,
            x,
            y,
        )
}

/// Whether a plan has an entry for the tile.
pub open spec fn planned(plan: Seq<KritaTilePlan>, x: u32, y: u32) -> bool {
    exists|i: int| 0 <= i < plan.len() && (#[trigger] plan[i]).x == x && plan[i].y == y
}

/// Whether the places filed so far are those that the first strokes reach.
spec fn filed(
    places: Map<u64, ()>,
    strokes: Seq<ArchiveStroke>,
    spans: Seq<Option<KritaSpan>>,
    layer: u32,
    count: int,
) -> bool {
    forall|x: u32, y: u32| #[trigger]
        places.contains_key(tile_place(x, y)) <==> reached(strokes, spans, layer, count, x, y)
}

/// Whether the places of a partly visited span are filed, on top of earlier ones.
spec fn filed_partly(
    places: Map<u64, ()>,
    earlier: Map<u64, ()>,
    span: KritaSpan,
    column: int,
    row: int,
) -> bool {
    forall|x: u32, y: u32| #[trigger]
        places.contains_key(tile_place(x, y)) <==> earlier.contains_key(tile_place(x, y)) || (
        span.covers(x, y) && (y < row || (y == row && x < column)))
}

/// Files the places of a span.
fn file_span(places: &mut BTreeMap<u64, ()>, span: KritaSpan)
    ensures
        forall|x: u32, y: u32| #[trigger]
            final(places)@.contains_key(tile_place(x, y)) <==> old(places)@.contains_key(
                tile_place(x, y),
            ) || span.covers(x, y),
{
    let ghost earlier = places@;
    let mut y: u64 = span.min_y as u64;
    while y <= span.max_y as u64
        invariant
            span.min_y <= y,
            y <= span.max_y + 1 || y == span.min_y,
            filed_partly(places@, earlier, span, 0, y as int),
        decreases span.max_y + 1 - y,
    {
        let mut x: u64 = span.min_x as u64;
        while x <= span.max_x as u64
            invariant
                span.min_y <= y <= span.max_y,
                span.min_x <= x,
                x <= span.max_x + 1 || x == span.min_x,
                filed_partly(places@, earlier, span, x as int, y as int),
            decreases span.max_x + 1 - x,
        {
            let ghost current = places@;
            let place: u64 = x * 0x1_0000_0000 + y;
            places.insert(place, ());
            proof {
                assert forall|a: u32, b: u32| #[trigger]
                    places@.contains_key(tile_place(a, b)) <==> earlier.contains_key(
                        tile_place(a, b),
                    ) || (span.covers(a, b) && (b < y || (b == y && a < x + 1))) by {
                    assert(tile_place(a, b) == place <==> a == x && b == y);
                    assert(current.contains_key(tile_place(a, b)) <==> earlier.contains_key(
                        tile_place(a, b),
                    ) || (span.covers(a, b) && (b < y || (b == y && a < x))));
                }
            }
            x = x + 1;
        }
        y = y + 1;
    }
}

fn list_strokes(
    strokes: &Vec<ArchiveStroke>,
    spans: &Vec<Option<KritaSpan>>,
    layer: u32,
    x: u32,
    y: u32,
) -> (list: Vec<usize>)
    requires
        spans@.len() == strokes@.len(),
    ensures
        list@ == strokes_reaching(strokes@, spans@, layer, strokes@.len(), x, y),
{
    let mut list: Vec<usize> = Vec::new();
    for i in 0..strokes.len()
        invariant
            spans@.len() == strokes@.len(),
            list@ == strokes_reaching(strokes@, spans@, layer, i as nat, x, y),
    {
        let hit = match spans[i] {
            Some(span) => span.min_x <= x && x <= span.max_x && span.min_y <= y && y
                <= span.max_y,
            None => false,
        };
        if strokes[i].visible && strokes[i].layer == layer && hit {
            list.push(i);
        }
    }
    list
}

/// Plans the tiles of a layer: which tiles its visible strokes reach, and which
/// strokes each of them replays.
///
/// `spans` names the tiles under each stroke, or nothing for one off the canvas.
pub fn plan_layer(
    archive: &ArchiveDocument,
    spans: &Vec<Option<KritaSpan>>,
    layer: u32,
) -> (plan: Vec<KritaTilePlan>)
    requires
        spans@.len() == archive@.strokes.len(),
    ensures
        plans_layer(plan@, archive@.strokes, spans@, layer),
{
    let mut places: BTreeMap<u64, ()> = BTreeMap::new();
    let strokes = &archive.strokes;
    for i in 0..strokes.len()
        invariant
            spans@.len() == strokes@.len(),
            filed(places@, strokes@, spans@, layer, i as int),
    {
        let ghost before = places@;
        if strokes[i].visible && strokes[i].layer == layer {
            if let Some(span) = spans[i] {
                file_span(&mut places, span);
            }
        }
        proof {
            assert forall|x: u32, y: u32| #[trigger]
                places@.contains_key(tile_place(x, y)) <==> reached(
                    strokes@,
                    spans@,
                    layer,
                    i + 1,
                    x,
                    y,
                ) by {
                assert(before.contains_key(tile_place(x, y)) <==> reached(
                    strokes@,
                    spans@,
                    layer,
                    i as int,
                    x,
                    y,
                ));
                if reached(strokes@, spans@, layer, i as int, x, y) {
                    let n = choose|n: int|
                        0 <= n < i && #[trigger] reaches(strokes@, spans@, layer, n, x, y);
                    assert(reaches(strokes@, spans@, layer, n, x, y));
                }
                if reached(strokes@, spans@, layer, i + 1, x, y) {
                    let n = choose|n: int|
                        0 <= n < i + 1 && #[trigger] reaches(strokes@, spans@, layer, n, x, y);
                    if n < i {
                        assert(reached(strokes@, spans@, layer, i as int, x, y));
                    }
                }
                if reaches(strokes@, spans@, layer, i as int, x, y) {
                    assert(reached(strokes@, spans@, layer, i + 1, x, y));
                }
            }
        }
    }
    let order = ordered_ids(&places);
    let mut plan: Vec<KritaTilePlan> = Vec::new();
    for i in 0..order.len()
        invariant
            spans@.len() == strokes@.len(),
            plan@.len() == i,
            forall|j: int|
                0 <= j < i ==> {
                    &&& tile_place((#[trigger] plan@[j]).x, plan@[j].y) == order@[j]
                    &&& plan@[j].strokes@ == strokes_reaching(
                        strokes@,
                        spans@,
                        layer,
                        strokes@.len(),
                        plan@[j].x,
                        plan@[j].y,
                    )
                },
    {
        let place: u64 = order[i];
        let x: u32 = (place / 0x1_0000_0000) as u32;
        let y: u32 = (place % 0x1_0000_0000) as u32;
        plan.push(KritaTilePlan { x, y, strokes: list_strokes(strokes, spans, layer, x, y) });
    }
    proof {
        assert forall|x: u32, y: u32|
            reached(strokes@, spans@, layer, strokes@.len() as int, x, y) <==> #[trigger] planned(
                plan@,
                x,
                y,
            ) by {
            let place = tile_place(x, y);
            assert(places@.contains_key(place) <==> reached(
                strokes@,
                spans@,
                layer,
                strokes@.len() as int,
                x,
                y,
            ));
            if places@.contains_key(place) {
                assert(places@.dom().contains(place));
                let j = choose|j: int| 0 <= j < order@.len() && order@[j] == place;
                assert(tile_place(plan@[j].x, plan@[j].y) == place);
                assert(plan@[j].x == x && plan@[j].y == y);
            }
            if planned(plan@, x, y) {
                let j = choose|j: int|
                    0 <= j < plan@.len() && (#[trigger] plan@[j]).x == x && plan@[j].y == y;
                assert(order@[j] == place);
                assert(order@.contains(order@[j]));
                assert(places@.dom().contains(place));
            }
        }
    }
    plan
}

/// Colour among saved recipes that a reference names: that of the latest recipe
/// with it that is a colour.
pub open spec fn recipe_colour(materials: Seq<MaterialModel>, reference: PaintMaterialRef) -> Option<
    Rgba,
>
    decreases materials.len(),
{
    if materials.len() == 0 {
        None
    } else {
        match materials.last().payload {
            PayloadModel::PremultipliedLinearRgba(colour) if materials.last().reference
                == reference => Some(colour),
            _ => recipe_colour(materials.drop_last(), reference),
        }
    }
}

/// Colour that a saved stroke is rasterized with; strokes whose recipe is not a
/// colour are left out of rasterized parts.
pub fn stroke_colour(archive: &ArchiveDocument, stroke: usize) -> (colour: Option<Rgba>)
    requires
        stroke < archive@.strokes.len(),
    ensures
        colour == recipe_colour(
            archive@.materials,
            archive@.strokes[stroke as int].brush.reference(),
        ),
{
    let brush = archive.strokes[stroke].brush;
    let ghost reference = brush.reference();
    let mut rest: usize = archive.materials.len();
    assert(archive@.materials.take(rest as int) =~= archive@.materials);
    while rest > 0
        invariant
            rest <= archive.materials@.len(),
            brush == archive@.strokes[stroke as int].brush,
            reference == brush.reference(),
            recipe_colour(archive@.materials, reference) == recipe_colour(
                archive@.materials.take(rest as int),
                reference,
            ),
        decreases rest,
    {
        proof {
            let shown = archive@.materials.take(rest as int);
            assert(shown.drop_last() =~= archive@.materials.take(rest - 1));
            assert(shown.last() == archive.materials@[rest - 1]@);
        }
        let record = &archive.materials[rest - 1];
        if record.reference.model.0 == brush.model && record.reference.model_version
            == brush.model_version && record.reference.material.0 == brush.material {
            if let PaintMaterialPayload::PremultipliedLinearRgba(colour) = &record.payload {
                return Some(*colour);
            }
        }
        rest = rest - 1;
    }
    None
}

} // verus!
