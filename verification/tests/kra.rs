use hamerons_stroke_render::archive::ArchiveDocument;
use hamerons_stroke_render::container::{
    check_mimetype, check_payload_size, list_members, pack_kra, store_members, unpack_kra, KraArt,
    KraImage, KraMember, MAX_DOCUMENT_BYTES,
};
use hamerons_stroke_render::geometry::{CanvasSize, Vector};
use hamerons_stroke_render::krita::{
    escape_xml, layer_uuid, maindoc_xml, paint_device_bytes, plan_layer, stroke_colour, KritaSpan,
    KritaTile,
};
use hamerons_stroke_render::{
    DocumentIoError, LayerId, PaintMaterialId, RgbaPaintModel, Scalar, StrokeDocument, StrokePoint,
    StrokeRendererSettings,
};
use hamerons_stroke_render::geometry::{Bounds, TileSpan};
use hamerons_stroke_render::strokes::StrokeCoverage;
use std::io::{Cursor, Read};

fn scalar(value: f32) -> Scalar {
    Scalar::from_bits(value.to_bits())
}

fn vector(x: f32, y: f32) -> Vector {
    Vector { x: scalar(x), y: scalar(y) }
}

fn image(width: u32, height: u32) -> KraImage {
    KraImage { width, height, pixels: vec![200; (width * height * 4) as usize] }
}

fn tile(x: u32, y: u32, value: u8) -> KritaTile {
    KritaTile { x, y, pixels: vec![value; 64 * 64 * 4] }
}

fn art(tiles: Vec<KritaTile>) -> KraArt {
    KraArt {
        opacities: vec![255],
        merged: image(128, 96),
        preview: image(8, 6),
        layers: vec![tiles],
    }
}

fn archive() -> ArchiveDocument {
    let mut document = StrokeDocument::default();
    document.resize(CanvasSize { width: 128, height: 96 });
    ArchiveDocument::from_document(&document).unwrap()
}

fn entry(file: &[u8], name: &str) -> Vec<u8> {
    let mut reader = zip::ZipArchive::new(Cursor::new(file)).unwrap();
    let mut content = Vec::new();
    reader.by_name(name).unwrap().read_to_end(&mut content).unwrap();
    content
}

fn text(build: impl Fn(&mut Vec<u8>)) -> String {
    let mut output = Vec::new();
    build(&mut output);
    String::from_utf8(output).unwrap()
}

fn member(name: &str, bytes: &[u8]) -> KraMember {
    KraMember { name: name.to_string(), bytes: bytes.to_vec() }
}

#[test]
fn kra_contains_krita_native_manifest_layers_and_previews() {
    let file = pack_kra(&archive(), &vec![1, 2, 3], &art(vec![tile(0, 0, 9)])).unwrap();
    let manifest = String::from_utf8(entry(&file, "maindoc.xml")).unwrap();
    assert!(manifest.contains("syntaxVersion=\"2\""));
    assert!(manifest.contains("mime=\"application/x-kra\""));
    assert!(manifest.contains("colorspacename=\"RGBA\""));
    assert!(manifest.contains("filename=\"layer2\""));
    assert!(manifest.contains("width=\"128\" height=\"96\""));

    let layer = entry(&file, "unnamed/layers/layer2");
    assert!(layer.starts_with(b"VERSION 2\nTILEWIDTH 64\nTILEHEIGHT 64\nPIXELSIZE 4\nDATA "));
    assert!(layer.windows(5).any(|window| window == b",LZF,"));
    assert_eq!(entry(&file, "unnamed/layers/layer2.defaultpixel"), vec![0; 4]);
    for name in ["mergedimage.png", "preview.png"] {
        assert!(entry(&file, name).starts_with(b"\x89PNG\r\n\x1a\n"));
    }
}

#[test]
fn the_container_starts_with_its_type_and_ends_with_the_payload() {
    let file = pack_kra(&archive(), &vec![7; 40], &art(Vec::new())).unwrap();
    let mut reader = zip::ZipArchive::new(Cursor::new(&file)).unwrap();
    let names: Vec<String> = (0..reader.len())
        .map(|index| reader.by_index(index).unwrap().name().unwrap().to_string())
        .collect();
    assert_eq!(
        names,
        vec![
            "mimetype",
            "maindoc.xml",
            "mergedimage.png",
            "preview.png",
            "unnamed/layers/layer2",
            "unnamed/layers/layer2.defaultpixel",
            "hamerons/document.ron",
        ]
    );
    assert_eq!(entry(&file, "mimetype"), b"application/x-krita");
    assert_eq!(
        reader.by_name("mimetype").unwrap().compression(),
        zip::CompressionMethod::Stored
    );
}

#[test]
fn packed_payloads_are_read_back() {
    let payload = b"(format: \"anything\")".to_vec();
    let file = pack_kra(&archive(), &payload, &art(Vec::new())).unwrap();
    assert_ne!(file, payload);
    assert_eq!(unpack_kra(&file).unwrap(), payload);
}

#[test]
fn images_are_encoded_at_their_extent() {
    let file = pack_kra(&archive(), &Vec::new(), &art(Vec::new())).unwrap();
    let png = entry(&file, "preview.png");
    let mut reader = png::Decoder::new(Cursor::new(png)).read_info().unwrap();
    assert_eq!(reader.info().width, 8);
    assert_eq!(reader.info().height, 6);
    let mut pixels = vec![0; 8 * 6 * 4];
    reader.next_frame(&mut pixels).unwrap();
    assert!(pixels.iter().all(|byte| *byte == 200));
}

#[test]
fn images_without_extent_are_refused() {
    let mut broken = art(Vec::new());
    broken.merged = KraImage { width: 0, height: 5, pixels: Vec::new() };
    assert!(matches!(
        pack_kra(&archive(), &Vec::new(), &broken),
        Err(DocumentIoError::Encode(_))
    ));
    let mut broken = art(Vec::new());
    broken.preview = KraImage { width: 0, height: 0, pixels: Vec::new() };
    assert!(matches!(
        pack_kra(&archive(), &Vec::new(), &broken),
        Err(DocumentIoError::Encode(_))
    ));
}

#[test]
fn two_members_of_one_name_are_refused() {
    let members = vec![member("a", b"1"), member("a", b"2")];
    assert!(matches!(store_members(&members), Err(DocumentIoError::Archive(_))));
}

#[test]
fn other_archives_are_refused() {
    assert!(matches!(unpack_kra(&vec![1, 2, 3]), Err(DocumentIoError::Archive(_))));

    let unmarked = store_members(&vec![member("other", b"x")]).unwrap();
    assert!(matches!(unpack_kra(&unmarked), Err(DocumentIoError::Archive(_))));

    let foreign = store_members(&vec![member("mimetype", b"text/plain")]).unwrap();
    match unpack_kra(&foreign) {
        Err(DocumentIoError::Archive(reason)) => {
            assert_eq!(reason, "archive does not declare the Krita MIME type")
        }
        _ => panic!("the container was accepted"),
    }

    let hollow = store_members(&vec![member("mimetype", b"application/x-krita")]).unwrap();
    assert!(matches!(unpack_kra(&hollow), Err(DocumentIoError::Archive(_))));
}

#[test]
fn torn_payloads_are_refused() {
    let members = vec![
        member("mimetype", b"application/x-krita"),
        member("hamerons/document.ron", b"precious payload"),
    ];
    let mut file = store_members(&members).unwrap();
    let place = file.windows(8).position(|window| window == b"precious").unwrap();
    file[place] = b'P';
    assert!(matches!(unpack_kra(&file), Err(DocumentIoError::Io(_))));
}

#[test]
fn the_payload_limit_is_half_a_gibibyte() {
    assert_eq!(MAX_DOCUMENT_BYTES, 512 * 1024 * 1024);
    assert!(check_payload_size(MAX_DOCUMENT_BYTES).is_ok());
    match check_payload_size(MAX_DOCUMENT_BYTES + 1) {
        Err(DocumentIoError::Archive(reason)) => {
            assert_eq!(reason, "authoritative document payload exceeds the safety limit")
        }
        _ => panic!("the payload was accepted"),
    }
    assert!(check_mimetype(&b"application/x-krita".to_vec()).is_ok());
    assert!(check_mimetype(&b"application/x-kritas".to_vec()).is_err());
    assert!(check_mimetype(&b"application/x-kritA".to_vec()).is_err());
}

#[test]
fn members_carry_what_was_handed_in() {
    let members = list_members(
        &archive(),
        &art(vec![tile(1, 0, 5)]),
        vec![1],
        vec![2, 2],
        &vec![3, 3, 3],
    );
    assert_eq!(members.len(), 7);
    assert_eq!(members[2].bytes, vec![1]);
    assert_eq!(members[3].bytes, vec![2, 2]);
    assert_eq!(members[6].bytes, vec![3, 3, 3]);
    assert_eq!(members[1].bytes, maindoc_xml(&archive(), &vec![255]));
}

#[test]
fn markup_is_escaped() {
    assert_eq!(
        text(|output| escape_xml(output, "a<b>&\"c\"'d'")),
        "a&lt;b&gt;&amp;&quot;c&quot;&apos;d&apos;"
    );
    assert_eq!(text(|output| escape_xml(output, "plain")), "plain");
}

#[test]
fn layer_identities_are_numbered_from_one() {
    assert_eq!(
        text(|output| layer_uuid(output, 0)),
        "{00000000-0000-4000-8000-000000000001}"
    );
    assert_eq!(
        text(|output| layer_uuid(output, u32::MAX)),
        "{00000000-0000-4000-8000-000100000000}"
    );
}

#[test]
fn the_manifest_lists_layers_from_the_top() {
    let mut document = StrokeDocument::default();
    let upper = document.add_layer("Top & front");
    document.set_layer_visibility(upper, false);
    let saved = ArchiveDocument::from_document(&document).unwrap();
    let manifest = String::from_utf8(maindoc_xml(&saved, &vec![255, 102])).unwrap();
    let top = manifest.find("Top &amp; front").unwrap();
    let bottom = manifest.find("filename=\"layer2\"").unwrap();
    assert!(top < bottom);
    assert!(manifest.contains("filename=\"layer3\""));
    assert!(manifest.contains("opacity=\"102\" visible=\"0\""));
    assert_eq!(manifest.matches("selected=\"true\"").count(), 1);
}

#[test]
fn paint_devices_hold_planes_and_leave_out_empty_tiles() {
    let mut pixels = vec![0; 64 * 64 * 4];
    pixels[0..4].copy_from_slice(&[1, 2, 3, 4]);
    let tiles = vec![
        KritaTile { x: 2, y: 1, pixels },
        tile(5, 5, 0),
    ];
    let device = paint_device_bytes(&tiles);
    let head = b"VERSION 2\nTILEWIDTH 64\nTILEHEIGHT 64\nPIXELSIZE 4\nDATA 1\n128,64,LZF,16385\n";
    assert!(device.starts_with(head));
    let data = &device[head.len()..];
    assert_eq!(data.len(), 16385);
    assert_eq!(data[0], 0);
    assert_eq!(data[1], 3);
    assert_eq!(data[1 + 4096], 2);
    assert_eq!(data[1 + 2 * 4096], 1);
    assert_eq!(data[1 + 3 * 4096], 4);
}

#[test]
fn tiles_are_planned_from_the_strokes_that_reach_them() {
    let mut document = StrokeDocument::default();
    let point = StrokePoint {
        position: vector(10.0, 10.0),
        half_width: scalar(1.0),
        aspect_ratio: scalar(1.0),
        flow: scalar(1.0),
        orientation: vector(0.0, 1.0),
        twist_radians: scalar(0.0),
    };
    let reach = Bounds { min: vector(7.0, 7.0), max: vector(13.0, 13.0) };
    let covered = StrokeCoverage {
        affected: TileSpan { min_x: 0, min_y: 0, max_x: 0, max_y: 0 },
        segments: vec![TileSpan { min_x: 0, min_y: 0, max_x: 0, max_y: 0 }],
    };
    for _ in 0..3 {
        let (stroke, _) =
            document.begin_stroke(point, reach, StrokeRendererSettings::default().pen);
        document.end_stroke(stroke, &covered);
    }
    document.undo();
    let saved = ArchiveDocument::from_document(&document).unwrap();
    let spans = vec![
        Some(KritaSpan { min_x: 0, min_y: 0, max_x: 1, max_y: 0 }),
        Some(KritaSpan { min_x: 1, min_y: 0, max_x: 1, max_y: 1 }),
        Some(KritaSpan { min_x: 0, min_y: 0, max_x: 9, max_y: 9 }),
    ];
    let plan = plan_layer(&saved, &spans, LayerId(0).0);
    let listed: Vec<(u32, u32, Vec<usize>)> =
        plan.iter().map(|item| (item.x, item.y, item.strokes.clone())).collect();
    assert_eq!(
        listed,
        vec![(0, 0, vec![0]), (1, 0, vec![0, 1]), (1, 1, vec![1])]
    );
    assert!(plan_layer(&saved, &spans, 4).is_empty());
    assert!(plan_layer(&saved, &vec![None, None, None], 0).is_empty());
}

#[test]
fn saved_strokes_are_rasterized_in_the_colour_of_their_recipe() {
    let mut document = StrokeDocument::default();
    let mut brush = StrokeRendererSettings::default().pen;
    let point = StrokePoint {
        position: vector(10.0, 10.0),
        half_width: scalar(1.0),
        aspect_ratio: scalar(1.0),
        flow: scalar(1.0),
        orientation: vector(0.0, 1.0),
        twist_radians: scalar(0.0),
    };
    let reach = Bounds { min: vector(7.0, 7.0), max: vector(13.0, 13.0) };
    let covered = StrokeCoverage {
        affected: TileSpan { min_x: 0, min_y: 0, max_x: 0, max_y: 0 },
        segments: vec![TileSpan { min_x: 0, min_y: 0, max_x: 0, max_y: 0 }],
    };
    let (known, _) = document.begin_stroke(point, reach, brush);
    document.end_stroke(known, &covered);
    brush.paint.material = PaintMaterialId(900);
    let (unknown, _) = document.begin_stroke(point, reach, brush);
    document.end_stroke(unknown, &covered);
    let saved = ArchiveDocument::from_document(&document).unwrap();
    assert_eq!(saved.strokes.len(), 2);
    let model = RgbaPaintModel::default();
    let ink = model.materials()[0].premultiplied_linear_rgba;
    assert_eq!(f32::from_bits(ink.red.bits), 0.015);
    assert_eq!(stroke_colour(&saved, 0), Some(ink));
    assert!(stroke_colour(&saved, 1).is_none());
}

#[test]
fn distinct_members_are_stored_with_their_content() {
    let members = vec![member("a", b"1"), member("b/c", b""), member("\u{e4}", b"345")];
    let file = store_members(&members).unwrap();
    assert_eq!(entry(&file, "a"), b"1");
    assert_eq!(entry(&file, "b/c"), b"");
    assert_eq!(entry(&file, "\u{e4}"), b"345");
    assert!(store_members(&Vec::new()).is_ok());
}

#[test]
fn names_leave_room_for_the_header() {
    let longest = "n".repeat(65504);
    let file = store_members(&vec![member(&longest, b"content")]).unwrap();
    assert_eq!(entry(&file, &longest), b"content");
    let longer = "n".repeat(65505);
    assert!(matches!(
        store_members(&vec![member(&longer, b"content")]),
        Err(DocumentIoError::Archive(_))
    ));
    let wide = "\u{e4}".repeat(32753);
    assert!(matches!(
        store_members(&vec![member("a", b"1"), member(&wide, b"2")]),
        Err(DocumentIoError::Archive(_))
    ));
}

#[test]
fn every_layer_has_members_of_its_own() {
    let mut document = StrokeDocument::default();
    for name in ["same", "same", "same", "same", "same", "same", "same", "same", "same", "same"] {
        document.add_layer(name);
    }
    let archive = ArchiveDocument::from_document(&document).unwrap();
    let mut art = art(vec![tile(0, 0, 1)]);
    art.opacities = vec![255; 11];
    art.layers = (0..11).map(|value| vec![tile(0, 0, value + 1)]).collect();
    let file = pack_kra(&archive, &vec![4, 5], &art).unwrap();
    let first = entry(&file, "unnamed/layers/layer2");
    let tenth = entry(&file, "unnamed/layers/layer12");
    assert_ne!(first, tenth);
    assert_eq!(unpack_kra(&file).unwrap(), vec![4, 5]);
}

#[test]
fn archives_with_many_members_are_read_back() {
    for count in [65534usize, 65535, 65536] {
        let members: Vec<KraMember> = (0..count)
            .map(|index| member(&format!("member/with/a/number/{index:06}"), &[index as u8]))
            .collect();
        let file = store_members(&members).unwrap();
        let mut reader = zip::ZipArchive::new(Cursor::new(&file)).unwrap();
        assert_eq!(reader.len(), count);
        for index in [0, 1, count / 2, count - 1] {
            let name = format!("member/with/a/number/{index:06}");
            let mut content = Vec::new();
            reader.by_name(&name).unwrap().read_to_end(&mut content).unwrap();
            assert_eq!(content, vec![index as u8]);
        }
    }
}
