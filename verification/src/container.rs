//! The `.kra` container: which members it has, and what is read back from it.
use crate::archive::{ArchiveDocument, ArchiveModel};
use crate::errors::{DocumentIoError, ErrorModel};
use crate::krita::{
    krita_tile_models, maindoc_xml, manifest, paint_device, paint_device_bytes, tiles_complete,
    KritaTile, KritaTileModel,
};
use crate::text::{
    append_decimal, decimal_ascii, decimal_text, lemma_decimal_digits, lemma_decimal_length,
    lemma_decimal_tells_apart, push_bytes, push_text,
};
use vstd::prelude::*;
use vstd::utf8::encode_utf8;

verus! {

/// Largest authoritative payload that is read.
pub const MAX_DOCUMENT_BYTES: u64 = 536870912;

/// Failure of the `zip` crate.
#[verifier::external_type_specification]
#[verifier::external_body]
pub struct ExZipError(zip::result::ZipError);

/// Failure of a reader or writer of the standard library.
#[verifier::external_type_specification]
#[verifier::external_body]
pub struct ExIoError(std::io::Error);

/// Failure of the `png` crate.
#[verifier::external_type_specification]
#[verifier::external_body]
pub struct ExEncodingError(png::EncodingError);

/// In-memory `zip::ZipWriter` whose entries are stored without compression.
#[verifier::external_body]
pub struct StoredWriter {
    inner: zip::ZipWriter<std::io::Cursor<Vec<u8>>>,
}

/// Names and contents of the entries that a writer has taken, in order.
pub uninterp spec fn taken_entries(writer: StoredWriter) -> Seq<(Seq<char>, Seq<u8>)>;

/// Whether no call on a writer has failed yet.
pub uninterp spec fn in_order(writer: StoredWriter) -> bool;

/// Whether `zip::ZipArchive::new` reads the central directory of these bytes.
pub uninterp spec fn zip_opens(archive: Seq<u8>) -> bool;

/// Declared size of the entry that `zip::ZipArchive::by_name` finds, if it finds one.
pub uninterp spec fn zip_size(archive: Seq<u8>, name: Seq<char>) -> Option<u64>;

/// Content of the entry that `zip::ZipArchive::by_name` finds, if it can be read.
pub uninterp spec fn zip_content(archive: Seq<u8>, name: Seq<char>) -> Option<Seq<u8>>;

/// File that `png::Encoder` writes for eight-bit RGBA pixels, if it accepts the extent.
pub uninterp spec fn png_file(width: u32, height: u32, pixels: Seq<u8>) -> Option<Seq<u8>>;

/// Calls `zip::ZipWriter::new` on an empty buffer: no entry was taken yet.
#[verifier::external_body]
fn new_writer() -> (writer: StoredWriter)
    ensures
        in_order(writer),
        taken_entries(writer) == Seq::<(Seq<char>, Seq<u8>)>::empty(),
{
    StoredWriter { inner: zip::ZipWriter::new(std::io::Cursor::new(Vec::new())) }
}

/// Calls `zip::ZipWriter::start_file` with the stored method. It succeeds exactly where
/// no entry has the name yet and the name fits a local header of less than 65535 bytes,
/// 30 of which are fixed. An empty entry then follows those taken before.
#[verifier::external_body]
fn start_entry(writer: &mut StoredWriter, name: &str) -> (result: Result<
    (),
    zip::result::ZipError,
>)
    requires
        in_order(*old(writer)),
    ensures
        result is Ok == (name_is_new(taken_entries(*old(writer)), name@) && name_is_short(name@)),
        result is Ok ==> {
            &&& in_order(*final(writer))
            &&& taken_entries(*final(writer)) == taken_entries(*old(writer)).push(
                (name@, Seq::empty()),
            )
        },
{
    let stored = zip::write::SimpleFileOptions::default().compression_method(
        zip::CompressionMethod::Stored,
    );
    writer.inner.start_file(name, stored)
}

/// Calls `write_all` of `zip::ZipWriter`. It succeeds exactly where there is nothing to
/// write or the latest entry stays below 0xffff_ffff bytes. The bytes then follow the
/// content of that entry.
#[verifier::external_body]
fn write_entry(writer: &mut StoredWriter, bytes: &Vec<u8>) -> (result: Result<(), std::io::Error>)
    requires
        in_order(*old(writer)),
        taken_entries(*old(writer)).len() > 0,
    ensures
        result is Ok == (bytes@.len() == 0 || taken_entries(*old(writer)).last().1.len()
            + bytes@.len() < 0xffff_ffff),
        result is Ok ==> {
            &&& in_order(*final(writer))
            &&& taken_entries(*final(writer)) == taken_entries(*old(writer)).drop_last().push(
                (
                    taken_entries(*old(writer)).last().0,
                    taken_entries(*old(writer)).last().1 + bytes@,
                ),
            )
        },
{
    std::io::Write::write_all(&mut writer.inner, bytes)
}

/// Calls `zip::ZipWriter::finish`, which succeeds where no call before it has failed.
/// `zip::ZipArchive` then reads the archive and finds every entry with its size and content,
/// be its final record short or, above the limits of that, preceded by a 64-bit record.
/// Exactly at a limit the writer leaves the 64-bit record out and the reader looks for it:
/// it is not misled where the directory ends in a name that does not look like its locator.
/// Nothing is said of the other archives at a limit.
#[verifier::external_body]
fn finish_writer(writer: StoredWriter) -> (result: Result<Vec<u8>, zip::result::ZipError>)
    requires
        in_order(writer),
    ensures
        result is Ok,
        result matches Ok(archive) ==> form_is_clear(taken_entries(writer)) ==> holds(
            archive@,
            taken_entries(writer),
        ),
{
    writer.inner.finish().map(|buffer| buffer.into_inner())
}

/// Calls `zip::ZipArchive::new` on the bytes.
#[verifier::external_body]
fn open_archive(archive: &Vec<u8>) -> (result: Result<(), zip::result::ZipError>)
    ensures
        result is Ok == zip_opens(archive@),
{
    zip::ZipArchive::new(std::io::Cursor::new(archive)).map(|_| ())
}

/// Calls `zip::ZipArchive::by_name` on the bytes and reads the size of the entry.
#[verifier::external_body]
fn entry_size(archive: &Vec<u8>, name: &str) -> (result: Result<u64, zip::result::ZipError>)
    ensures
        match result {
            Ok(size) => zip_size(archive@, name@) == Some(size),
            Err(_) => zip_size(archive@, name@) is None,
        },
{
    let mut reader = zip::ZipArchive::new(std::io::Cursor::new(archive))?;
    let entry = reader.by_name(name)?;
    Ok(entry.size())
}

/// Calls `zip::ZipArchive::by_name` on the bytes and reads the entry to its end.
#[verifier::external_body]
fn entry_content(archive: &Vec<u8>, name: &str) -> (result: Result<Vec<u8>, std::io::Error>)
    ensures
        match result {
            Ok(content) => zip_content(archive@, name@) == Some(content@),
            Err(_) => zip_content(archive@, name@) is None,
        },
{
    let mut reader = zip::ZipArchive::new(std::io::Cursor::new(archive))?;
    let mut entry = reader.by_name(name)?;
    let mut content = Vec::new();
    std::io::Read::read_to_end(&mut entry, &mut content)?;
    Ok(content)
}

/// Calls `png::Encoder` on eight-bit RGBA pixels with fast compression: header,
/// all rows through its stream writer, end. Into memory it succeeds exactly where both
/// extents are positive.
#[verifier::external_body]
fn encode_png(width: u32, height: u32, pixels: &Vec<u8>) -> (result: Result<
    Vec<u8>,
    png::EncodingError,
>)
    requires
        pixels@.len() == width * height * 4,
    ensures
        result is Ok == (width > 0 && height > 0),
        match result {
            Ok(file) => png_file(width, height, pixels@) == Some(file@),
            Err(_) => png_file(width, height, pixels@) is None,
        },
{
    let mut output = Vec::new();
    let mut encoder = png::Encoder::new(&mut output, width, height);
    encoder.set_color(png::ColorType::Rgba);
    encoder.set_depth(png::BitDepth::Eight);
    encoder.set_compression(png::Compression::Fast);
    let mut writer = encoder.write_header()?;
    let mut stream = writer.stream_writer()?;
    std::io::Write::write_all(&mut stream, pixels)?;
    stream.finish()?;
    drop(writer);
    Ok(output)
}

/// Calls `to_string` of `zip::result::ZipError`; nothing is said of the text.
#[verifier::external_body]
fn describe_zip_error(error: &zip::result::ZipError) -> (text: String) {
    error.to_string()
}

/// Calls `to_string` of `std::io::Error`; nothing is said of the text.
#[verifier::external_body]
fn describe_io_error(error: &std::io::Error) -> (text: String) {
    error.to_string()
}

/// Calls `to_string` of `png::EncodingError`; nothing is said of the text.
#[verifier::external_body]
fn describe_png_error(error: &png::EncodingError) -> (text: String) {
    error.to_string()
}

/// Whether no entry has the name.
pub open spec fn name_is_new(entries: Seq<(Seq<char>, Seq<u8>)>, name: Seq<char>) -> bool {
    forall|i: int| 0 <= i < entries.len() ==> (#[trigger] entries[i]).0 != name
}

/// Whether a name leaves room for the fixed part of a local header.
pub open spec fn name_is_short(name: Seq<char>) -> bool {
    encode_utf8(name).len() + 30 < 65535
}

/// Bytes before the directory of an archive: for each entry a local header of 30 bytes,
/// the name and the content.
pub open spec fn data_size(entries: Seq<(Seq<char>, Seq<u8>)>) -> nat
    decreases entries.len(),
{
    if entries.len() == 0 {
        0
    } else {
        data_size(entries.drop_last()) + 30 + encode_utf8(entries.last().0).len()
            + entries.last().1.len()
    }
}

/// Bytes of the directory of an archive whose data can be addressed in 32 bits: for each
/// entry a header of 46 bytes and the name.
pub open spec fn directory_size(entries: Seq<(Seq<char>, Seq<u8>)>) -> nat
    decreases entries.len(),
{
    if entries.len() == 0 {
        0
    } else {
        directory_size(entries.drop_last()) + 46 + encode_utf8(entries.last().0).len()
    }
}

/// Whether an archive just fits the short form of its final record, and a number in there
/// is the one that stands for a 64-bit record as well.
pub open spec fn just_fits(entries: Seq<(Seq<char>, Seq<u8>)>) -> bool {
    &&& entries.len() <= 0xffff
    &&& data_size(entries) <= 0xffff_ffff
    &&& directory_size(entries) <= 0xffff_ffff
    &&& {
        ||| entries.len() == 0xffff
        ||| data_size(entries) == 0xffff_ffff
        ||| directory_size(entries) == 0xffff_ffff
    }
}

/// Whether the last twenty bytes of a name do not begin as the locator of a 64-bit record
/// does.
pub open spec fn ends_plainly(name: Seq<char>) -> bool {
    let bytes = encode_utf8(name);
    bytes.len() >= 20 && bytes[bytes.len() - 20] != 0x50
}

/// Whether a reader can tell which form the final record of an archive has.
pub open spec fn form_is_clear(entries: Seq<(Seq<char>, Seq<u8>)>) -> bool {
    just_fits(entries) ==> ends_plainly(entries.last().0)
}

/// Whether an archive opens and has every listed entry with its size and content.
pub open spec fn holds(archive: Seq<u8>, entries: Seq<(Seq<char>, Seq<u8>)>) -> bool {
    &&& zip_opens(archive)
    &&& forall|i: int|
        0 <= i < entries.len() ==> {
            &&& zip_size(archive, (#[trigger] entries[i]).0) == Some(entries[i].1.len() as u64)
            &&& zip_content(archive, entries[i].0) == Some(entries[i].1)
        }
}

/// A member of a container.
#[derive(Debug)]
pub struct KraMember {
    /// Name within the container.
    pub name: String,
    /// Content.
    pub bytes: Vec<u8>,
}

impl View for KraMember {
    type V = (Seq<char>, Seq<u8>);

    open spec fn view(&self) -> (Seq<char>, Seq<u8>) {
        (self.name@, self.bytes@)
    }
}

/// The members of a list, as values.
pub open spec fn member_models(members: Seq<KraMember>) -> Seq<(Seq<char>, Seq<u8>)> {
    members.map_values(|member: KraMember| member@)
}

/// Why members cannot be stored.
pub enum StoringFault {
    /// A name is taken or too long.
    Name,
    /// A content is too large.
    Content,
}

/// Why the first `count` members cannot be stored, if they cannot.
pub open spec fn storing_fault(members: Seq<(Seq<char>, Seq<u8>)>, count: nat) -> Option<
    StoringFault,
>
    decreases count,
{
    if count == 0 {
        None
    } else {
        let (name, content) = members[count - 1];
        match storing_fault(members, (count - 1) as nat) {
            Some(fault) => Some(fault),
            None => if !name_is_new(members.take(count - 1), name) || !name_is_short(name) {
                Some(StoringFault::Name)
            } else if content.len() >= 0xffff_ffff {
                Some(StoringFault::Content)
            } else {
                None
            },
        }
    }
}

/// A fault of the first members is one of all.
proof fn lemma_fault_stays(members: Seq<(Seq<char>, Seq<u8>)>, few: nat, many: nat)
    requires
        few <= many,
        storing_fault(members, few) is Some,
    ensures
        storing_fault(members, many) == storing_fault(members, few),
    decreases many,
{
    if few < many {
        lemma_fault_stays(members, few, (many - 1) as nat);
    }
}

/// Members with distinct short names and contents that fit can be stored.
pub proof fn law_distinct_members_can_be_stored(
    members: Seq<(Seq<char>, Seq<u8>)>,
    count: nat,
)
    requires
        count <= members.len(),
        forall|i: int, j: int|
            0 <= i < j < members.len() ==> (#[trigger] members[i]).0 != (#[trigger] members[j]).0,
        forall|i: int|
            0 <= i < members.len() ==> name_is_short((#[trigger] members[i]).0)
                && members[i].1.len() < 0xffff_ffff,
    ensures
        storing_fault(members, count) is None,
    decreases count,
{
    if count > 0 {
        law_distinct_members_can_be_stored(members, (count - 1) as nat);
        assert(name_is_short(members[count - 1].0));
        let earlier = members.take(count - 1);
        assert forall|i: int| 0 <= i < earlier.len() implies (#[trigger] earlier[i]).0 != members[
            count - 1
        ].0 by {
            assert(members[i].0 != members[count - 1].0);
        }
    }
}

/// Stores members in an archive, in order. Where two of them have one name, or a name
/// or a content is too large, the answer says so.
pub fn store_members(members: &Vec<KraMember>) -> (result: Result<Vec<u8>, DocumentIoError>)
    ensures
        match storing_fault(member_models(members@), members@.len()) {
            None => {
                &&& result matches Ok(archive)
                &&& form_is_clear(member_models(members@)) ==> holds(
                    archive@,
                    member_models(members@),
                )
            },
            Some(StoringFault::Name) => result matches Err(error) && error@ is Archive,
            Some(StoringFault::Content) => result matches Err(error) && error@ is Io,
        },
{
    let ghost models = member_models(members@);
    let mut writer = new_writer();
    assert(taken_entries(writer) =~= models.take(0));
    for i in 0..members.len()
        invariant
            models == member_models(members@),
            in_order(writer),
            taken_entries(writer) == models.take(i as int),
            storing_fault(models, i as nat) is None,
    {
        assert(models[i as int] == members@[i as int]@);
        proof {
            if storing_fault(models, (i + 1) as nat) is Some {
                lemma_fault_stays(models, (i + 1) as nat, models.len());
            }
        }
        match start_entry(&mut writer, members[i].name.as_str()) {
            Ok(_) => {},
            Err(error) => {
                return Err(DocumentIoError::Archive(describe_zip_error(&error)));
            },
        }
        assert(taken_entries(writer).last().1.len() == 0);
        match write_entry(&mut writer, &members[i].bytes) {
            Ok(_) => {},
            Err(error) => {
                return Err(DocumentIoError::Io(describe_io_error(&error)));
            },
        }
        proof {
            let content = members@[i as int].bytes@;
            assert(Seq::<u8>::empty() + content =~= content);
            assert(taken_entries(writer) =~= models.take(i + 1));
        }
    }
    assert(models.take(models.len() as int) =~= models);
    match finish_writer(writer) {
        Ok(archive) => Ok(archive),
        Err(error) => Err(DocumentIoError::Archive(describe_zip_error(&error))),
    }
}

/// A raster image: eight-bit RGBA pixels, row by row.
#[derive(Debug)]
pub struct KraImage {
    /// Horizontal extent.
    pub width: u32,
    /// Vertical extent.
    pub height: u32,
    /// Red, green, blue and alpha bytes of every pixel.
    pub pixels: Vec<u8>,
}

/// Mathematical value of a [`KraImage`].
#[verifier::ext_equal]
pub struct ImageModel {
    pub width: u32,
    pub height: u32,
    pub pixels: Seq<u8>,
}

impl View for KraImage {
    type V = ImageModel;

    open spec fn view(&self) -> ImageModel {
        ImageModel { width: self.width, height: self.height, pixels: self.pixels@ }
    }
}

impl ImageModel {
    /// Whether there is a byte for each channel of each pixel.
    pub open spec fn complete(self) -> bool {
        self.pixels.len() == self.width * self.height * 4
    }

    /// Whether the image has a positive extent.
    pub open spec fn has_extent(self) -> bool {
        self.width > 0 && self.height > 0
    }

    /// The image as a PNG file, if it has one.
    pub open spec fn png(self) -> Option<Seq<u8>> {
        png_file(self.width, self.height, self.pixels)
    }
}

fn image_file(image: &KraImage) -> (result: Result<Vec<u8>, DocumentIoError>)
    requires
        image@.complete(),
    ensures
        result is Ok == image@.has_extent(),
        match result {
            Ok(file) => image@.png() == Some(file@),
            Err(error) => image@.png() is None && error@ is Encode,
        },
{
    match encode_png(image.width, image.height, &image.pixels) {
        Ok(file) => Ok(file),
        Err(error) => Err(DocumentIoError::Encode(describe_png_error(&error))),
    }
}

/// Rasterized parts of a container.
#[derive(Debug)]
pub struct KraArt {
    /// Opacity of each layer as a byte.
    pub opacities: Vec<u8>,
    /// Composite of all visible layers.
    pub merged: KraImage,
    /// Composite at a reduced size.
    pub preview: KraImage,
    /// Tiles of each layer, by column, then row.
    pub layers: Vec<Vec<KritaTile>>,
}

/// Mathematical value of a [`KraArt`].
#[verifier::ext_equal]
pub struct ArtModel {
    pub opacities: Seq<u8>,
    pub merged: ImageModel,
    pub preview: ImageModel,
    pub layers: Seq<Seq<KritaTileModel>>,
}

impl View for KraArt {
    type V = ArtModel;

    open spec fn view(&self) -> ArtModel {
        ArtModel {
            opacities: self.opacities@,
            merged: self.merged@,
            preview: self.preview@,
            layers: self.layers@.map_values(|tiles: Vec<KritaTile>| krita_tile_models(tiles@)),
        }
    }
}

impl ArtModel {
    /// Whether there is an opacity and a list of complete tiles for each layer,
    /// and a byte for each channel of each pixel of the images.
    pub open spec fn fits(self, archive: ArchiveModel) -> bool {
        &&& archive.layers.len() <= 0xffff_ffff
        &&& self.opacities.len() == archive.layers.len()
        &&& self.layers.len() == archive.layers.len()
        &&& self.merged.complete()
        &&& self.preview.complete()
        &&& forall|i: int| 0 <= i < self.layers.len() ==> tiles_complete(#[trigger] self.layers[i])
    }
}

/// Name of the paint device of the layer at a composite position.
pub open spec fn device_name(position: int) -> Seq<char> {
    "unnamed/layers/layer"@ + decimal_text((position + 2) as nat)
}

/// Members for the first `count` layers: a paint device and its default pixel each.
pub open spec fn layer_members(layers: Seq<Seq<KritaTileModel>>, count: nat) -> Seq<
    (Seq<char>, Seq<u8>),
>
    decreases count,
{
    if count == 0 {
        Seq::empty()
    } else {
        layer_members(layers, (count - 1) as nat).push(
            (device_name(count - 1), paint_device(layers[count - 1])),
        ).push((device_name(count - 1) + ".defaultpixel"@, seq![0u8, 0u8, 0u8, 0u8]))
    }
}

/// Members of the container of a document, in order: the type marker first, the
/// authoritative payload last.
pub open spec fn kra_members(
    archive: ArchiveModel,
    art: ArtModel,
    merged: Seq<u8>,
    preview: Seq<u8>,
    payload: Seq<u8>,
) -> Seq<(Seq<char>, Seq<u8>)> {
    seq![
        ("mimetype"@, encode_utf8("application/x-krita"@)),
        ("maindoc.xml"@, manifest(archive, art.opacities)),
        ("mergedimage.png"@, merged),
        ("preview.png"@, preview),
    ] + layer_members(art.layers, art.layers.len()) + seq![("hamerons/document.ron"@, payload)]
}

/// Name of the member at a place among those of the layers.
spec fn layer_member_name(place: int) -> Seq<char> {
    if place % 2 == 0 {
        device_name(place / 2)
    } else {
        device_name(place / 2) + ".defaultpixel"@
    }
}

proof fn lemma_layer_members(layers: Seq<Seq<KritaTileModel>>, count: nat)
    ensures
        layer_members(layers, count).len() == 2 * count,
        forall|k: int|
            0 <= k < 2 * count ==> (#[trigger] layer_members(layers, count)[k]).0
                == layer_member_name(k),
    decreases count,
{
    if count > 0 {
        lemma_layer_members(layers, (count - 1) as nat);
        let earlier = layer_members(layers, (count - 1) as nat);
        assert forall|k: int| 0 <= k < 2 * count implies (#[trigger] layer_members(
            layers,
            count,
        )[k]).0 == layer_member_name(k) by {
            if k < 2 * (count - 1) {
                assert(layer_members(layers, count)[k] == earlier[k]);
            }
        }
    }
}

/// A device name is the common start and a number.
proof fn lemma_device_name(position: int)
    requires
        0 <= position <= 0xffff_ffff,
    ensures
        device_name(position).len() == 20 + decimal_ascii((position + 2) as nat).len(),
        21 <= device_name(position).len() <= 30,
        device_name(position)[0] == 'u',
        '0' <= device_name(position).last() <= '9',
        vstd::utf8::is_ascii_chars(device_name(position)),
        forall|i: int|
            0 <= i < decimal_ascii((position + 2) as nat).len() ==> device_name(position)[20 + i]
                == #[trigger] decimal_ascii((position + 2) as nat)[i] as char,
{
    reveal_strlit("unnamed/layers/layer");
    let digits = decimal_ascii((position + 2) as nat);
    lemma_decimal_digits((position + 2) as nat);
    lemma_decimal_length((position + 2) as nat);
    let name = device_name(position);
    assert forall|i: int| 0 <= i < digits.len() implies name[20 + i] == #[trigger] digits[i] as char
        && '0' <= name[20 + i] <= '9' by {
        assert(decimal_text((position + 2) as nat)[i] == digits[i] as char);
    }
    assert(name.last() == name[20 + (digits.len() - 1)]);
    assert forall|i: int| 0 <= i < name.len() implies '\0' <= #[trigger] name[i] <= '\u{7f}' by {
        if i >= 20 {
            assert(name[20 + (i - 20)] == digits[i - 20] as char);
        }
    }
}

/// Different positions have different device names.
proof fn lemma_device_names_differ(left: int, right: int)
    requires
        0 <= left <= 0xffff_ffff,
        0 <= right <= 0xffff_ffff,
        device_name(left) == device_name(right),
    ensures
        left == right,
{
    lemma_device_name(left);
    lemma_device_name(right);
    let (lefts, rights) = (decimal_ascii((left + 2) as nat), decimal_ascii((right + 2) as nat));
    assert forall|i: int| 0 <= i < lefts.len() implies lefts[i] == rights[i] by {
        assert(lefts[i] as char == rights[i] as char);
    }
    assert(lefts =~= rights);
    lemma_decimal_tells_apart((left + 2) as nat, (right + 2) as nat);
}

/// The members of the layers start with a letter that no other member starts with, and
/// have short names.
proof fn lemma_layer_member_name(place: int)
    requires
        0 <= place < 2 * 0x1_0000_0000,
    ensures
        layer_member_name(place).len() > 0,
        layer_member_name(place)[0] == 'u',
        name_is_short(layer_member_name(place)),
{
    reveal_strlit(".defaultpixel");
    lemma_device_name(place / 2);
    let name = layer_member_name(place);
    assert(name.len() <= 43);
    assert(vstd::utf8::is_ascii_chars(name));
    vstd::utf8::is_ascii_chars_encode_utf8(name);
}

/// Different members of layers have different names.
proof fn lemma_layer_member_names_differ(left: int, right: int)
    requires
        0 <= left < 2 * 0x1_0000_0000,
        0 <= right < 2 * 0x1_0000_0000,
        layer_member_name(left) == layer_member_name(right),
    ensures
        left == right,
{
    reveal_strlit(".defaultpixel");
    lemma_device_name(left / 2);
    lemma_device_name(right / 2);
    assert(".defaultpixel"@.last() == 'l');
    assert(layer_member_name(left).last() == layer_member_name(right).last());
    if left % 2 == 1 {
        let length = layer_member_name(left).len() - 13;
        assert(layer_member_name(left).take(length) =~= device_name(left / 2));
        assert(layer_member_name(right).take(length) =~= device_name(right / 2));
    }
    lemma_device_names_differ(left / 2, right / 2);
}

/// First and third letter of a name.
spec fn letters(name: Seq<char>) -> (char, char) {
    (name[0], name[2])
}

/// The members besides those of the layers have short names, which two letters tell apart.
proof fn lemma_fixed_names()
    ensures
        letters("mimetype"@) == ('m', 'm'),
        letters("maindoc.xml"@) == ('m', 'i'),
        letters("mergedimage.png"@) == ('m', 'r'),
        letters("preview.png"@) == ('p', 'e'),
        letters("hamerons/document.ron"@) == ('h', 'm'),
        name_is_short("mimetype"@),
        name_is_short("maindoc.xml"@),
        name_is_short("mergedimage.png"@),
        name_is_short("preview.png"@),
        name_is_short("hamerons/document.ron"@),
        ends_plainly("hamerons/document.ron"@),
{
    reveal_strlit("mimetype");
    reveal_strlit("maindoc.xml");
    reveal_strlit("mergedimage.png");
    reveal_strlit("preview.png");
    reveal_strlit("hamerons/document.ron");
    vstd::utf8::is_ascii_chars_encode_utf8("mimetype"@);
    vstd::utf8::is_ascii_chars_encode_utf8("maindoc.xml"@);
    vstd::utf8::is_ascii_chars_encode_utf8("mergedimage.png"@);
    vstd::utf8::is_ascii_chars_encode_utf8("preview.png"@);
    vstd::utf8::is_ascii_chars_encode_utf8("hamerons/document.ron"@);
}

/// The members of a document have names of their own, so that a container takes all of
/// them unless one is as large as four gigabytes.
pub proof fn law_documents_can_be_stored(
    archive: ArchiveModel,
    art: ArtModel,
    merged: Seq<u8>,
    preview: Seq<u8>,
    payload: Seq<u8>,
)
    requires
        art.fits(archive),
        forall|i: int|
            0 <= i < kra_members(archive, art, merged, preview, payload).len()
                ==> (#[trigger] kra_members(archive, art, merged, preview, payload)[i]).1.len()
                < 0xffff_ffff,
    ensures
        ({
            let members = kra_members(archive, art, merged, preview, payload);
            storing_fault(members, members.len()) is None
        }),
{
    let members = kra_members(archive, art, merged, preview, payload);
    let count = art.layers.len();
    lemma_layer_members(art.layers, count);
    lemma_fixed_names();
    assert forall|i: int| 4 <= i < 4 + 2 * count implies (#[trigger] members[i]).0
        == layer_member_name(i - 4) by {
        assert(members[i] == layer_members(art.layers, count)[i - 4]);
    }
    assert forall|i: int| 0 <= i < members.len() implies name_is_short((#[trigger] members[i]).0) by {
        if 4 <= i < 4 + 2 * count {
            lemma_layer_member_name(i - 4);
        }
    }
    assert forall|i: int, j: int| 0 <= i < j < members.len() implies (#[trigger] members[i]).0 != (
    #[trigger] members[j]).0 by {
        if 4 <= i < 4 + 2 * count {
            lemma_layer_member_name(i - 4);
        }
        if 4 <= j < 4 + 2 * count {
            lemma_layer_member_name(j - 4);
        }
        if 4 <= i && j < 4 + 2 * count && members[i].0 == members[j].0 {
            lemma_layer_member_names_differ(i - 4, j - 4);
        }
        assert(members[i].0 == members[j].0 ==> letters(members[i].0) == letters(members[j].0));
    }
    law_distinct_members_can_be_stored(members, members.len());
}

fn copied(bytes: &Vec<u8>) -> (copy: Vec<u8>)
    ensures
        copy@ == bytes@,
{
    let mut copy: Vec<u8> = Vec::new();
    push_bytes(&mut copy, bytes.as_slice());
    assert(copy@ =~= bytes@);
    copy
}

fn named(name: &str, bytes: Vec<u8>) -> (member: KraMember)
    ensures
        member@ == (name@, bytes@),
{
    KraMember { name: name.to_owned(), bytes }
}

/// Lists the members of the container of a document, in order.
pub fn list_members(
    archive: &ArchiveDocument,
    art: &KraArt,
    merged: Vec<u8>,
    preview: Vec<u8>,
    payload: &Vec<u8>,
) -> (members: Vec<KraMember>)
    requires
        art@.fits(archive@),
    ensures
        member_models(members@) == kra_members(archive@, art@, merged@, preview@, payload@),
{
    let ghost (merged_file, preview_file) = (merged@, preview@);
    let mut members: Vec<KraMember> = Vec::new();
    let mut mimetype: Vec<u8> = Vec::new();
    push_text(&mut mimetype, "application/x-krita");
    assert(mimetype@ =~= encode_utf8("application/x-krita"@));
    members.push(named("mimetype", mimetype));
    members.push(named("maindoc.xml", maindoc_xml(archive, &art.opacities)));
    members.push(named("mergedimage.png", merged));
    members.push(named("preview.png", preview));
    let ghost head = seq![
        ("mimetype"@, encode_utf8("application/x-krita"@)),
        ("maindoc.xml"@, manifest(archive@, art@.opacities)),
        ("mergedimage.png"@, merged_file),
        ("preview.png"@, preview_file),
    ];
    let ghost layers = art@.layers;
    assert(member_models(members@) =~= head + layer_members(layers, 0));
    for i in 0..art.layers.len()
        invariant
            layers == art@.layers,
            layers.len() == art.layers@.len(),
            layers.len() <= 0xffff_ffff,
            forall|j: int| 0 <= j < layers.len() ==> tiles_complete(#[trigger] layers[j]),
            member_models(members@) == head + layer_members(layers, i as nat),
    {
        let ghost done = members@;
        assert(layers[i as int] == krita_tile_models(art.layers@[i as int]@));
        let mut name: String = "unnamed/layers/layer".to_owned();
        append_decimal(&mut name, i as u64 + 2);
        let mut pixel_name: String = name.clone();
        pixel_name.append(".defaultpixel");
        let device = KraMember { name, bytes: paint_device_bytes(&art.layers[i]) };
        let pixel = KraMember { name: pixel_name, bytes: vec![0u8, 0u8, 0u8, 0u8] };
        proof {
            assert(device@ == (device_name(i as int), paint_device(layers[i as int])));
            assert(pixel.bytes@ =~= seq![0u8, 0u8, 0u8, 0u8]);
            assert(pixel@ == (
                device_name(i as int) + ".defaultpixel"@,
                seq![0u8, 0u8, 0u8, 0u8],
            ));
        }
        let ghost (device_model, pixel_model) = (device@, pixel@);
        members.push(device);
        members.push(pixel);
        proof {
            assert(member_models(members@) =~= member_models(done).push(device_model).push(
                pixel_model,
            ));
            assert(member_models(members@) =~= head + layer_members(layers, (i + 1) as nat));
        }
    }
    let ghost done = members@;
    let last = named("hamerons/document.ron", copied(payload));
    let ghost last_model = last@;
    members.push(last);
    proof {
        assert(member_models(members@) =~= member_models(done).push(last_model));
        assert(member_models(members@) =~= kra_members(
            archive@,
            art@,
            merged_file,
            preview_file,
            payload@,
        ));
    }
    members
}

/// Packs a document's encoded payload and its rasterized parts into a container.
///
/// Where an image has no extent, or a member is too large, the answer says so.
pub fn pack_kra(archive: &ArchiveDocument, payload: &Vec<u8>, art: &KraArt) -> (result: Result<
    Vec<u8>,
    DocumentIoError,
>)
    requires
        art@.fits(archive@),
    ensures
        match (art@.merged.png(), art@.preview.png()) {
            (Some(merged), Some(preview)) => {
                let members = kra_members(archive@, art@, merged, preview, payload@);
                match storing_fault(members, members.len()) {
                    None => {
                        &&& result matches Ok(file)
                        &&& holds(file@, members)
                    },
                    Some(StoringFault::Name) => result matches Err(error) && error@ is Archive,
                    Some(StoringFault::Content) => result matches Err(error) && error@ is Io,
                }
            },
            _ => result matches Err(error) && error@ is Encode,
        },
        (result matches Err(error) && error@ is Encode) <==> !(art@.merged.has_extent()
            && art@.preview.has_extent()),
{
    let merged = match image_file(&art.merged) {
        Ok(file) => file,
        Err(error) => {
            return Err(error);
        },
    };
    let preview = match image_file(&art.preview) {
        Ok(file) => file,
        Err(error) => {
            return Err(error);
        },
    };
    let members = list_members(archive, art, merged, preview, payload);
    assert(member_models(members@).len() == members@.len());
    proof {
        lemma_fixed_names();
        assert(member_models(members@).last().0 == "hamerons/document.ron"@);
    }
    store_members(&members)
}

/// Whether bytes are the UTF-8 form of a text.
fn bytes_are(bytes: &Vec<u8>, text: &str) -> (same: bool)
    ensures
        same == (bytes@ == encode_utf8(text@)),
{
    let wanted = text.as_bytes();
    if bytes.len() != wanted.len() {
        return false;
    }
    for i in 0..bytes.len()
        invariant
            wanted@ == encode_utf8(text@),
            bytes@.len() == wanted@.len(),
            forall|j: int| 0 <= j < i ==> bytes@[j] == wanted@[j],
    {
        if bytes[i] != wanted[i] {
            return false;
        }
    }
    assert(bytes@ =~= wanted@);
    true
}

/// Why the type marker of a container is refused, if it is.
pub open spec fn mimetype_fault(mimetype: Seq<u8>) -> Option<ErrorModel> {
    if mimetype == encode_utf8("application/x-krita"@) {
        None
    } else {
        Some(ErrorModel::Archive("archive does not declare the Krita MIME type"@))
    }
}

/// Why a payload of a declared size is refused, if it is.
pub open spec fn payload_size_fault(size: u64) -> Option<ErrorModel> {
    if size > MAX_DOCUMENT_BYTES {
        Some(ErrorModel::Archive("authoritative document payload exceeds the safety limit"@))
    } else {
        None
    }
}

/// Refuses a container whose type marker is not that of Krita.
pub fn check_mimetype(mimetype: &Vec<u8>) -> (result: Result<(), DocumentIoError>)
    ensures
        match mimetype_fault(mimetype@) {
            None => result is Ok,
            Some(fault) => result matches Err(error) && error@ == fault,
        },
{
    if bytes_are(mimetype, "application/x-krita") {
        Ok(())
    } else {
        Err(DocumentIoError::Archive("archive does not declare the Krita MIME type".to_owned()))
    }
}

/// Refuses a payload whose declared size is beyond the safety limit.
pub fn check_payload_size(size: u64) -> (result: Result<(), DocumentIoError>)
    ensures
        match payload_size_fault(size) {
            None => result is Ok,
            Some(fault) => result matches Err(error) && error@ == fault,
        },
{
    if size > MAX_DOCUMENT_BYTES {
        Err(
            DocumentIoError::Archive(
                "authoritative document payload exceeds the safety limit".to_owned(),
            ),
        )
    } else {
        Ok(())
    }
}

/// Payload of a container, if it opens, declares the right type, and has a payload
/// within the safety limit.
pub open spec fn kra_payload(file: Seq<u8>) -> Option<Seq<u8>> {
    if zip_opens(file) && zip_size(file, "mimetype"@) is Some && zip_content(
        file,
        "mimetype"@,
    ) == Some(encode_utf8("application/x-krita"@)) && zip_size(file, "hamerons/document.ron"@)
        is Some && zip_size(file, "hamerons/document.ron"@)->0 <= MAX_DOCUMENT_BYTES {
        zip_content(file, "hamerons/document.ron"@)
    } else {
        None
    }
}

/// Reads the authoritative payload out of a container.
pub fn unpack_kra(file: &Vec<u8>) -> (result: Result<Vec<u8>, DocumentIoError>)
    ensures
        match result {
            Ok(payload) => kra_payload(file@) == Some(payload@),
            Err(_) => kra_payload(file@) is None,
        },
        zip_opens(file@) && zip_size(file@, "mimetype"@) is Some ==> {
            match zip_content(file@, "mimetype"@) {
                None => result matches Err(error) && error@ is Io,
                Some(mimetype) => match mimetype_fault(mimetype) {
                    Some(fault) => result matches Err(error) && error@ == fault,
                    None => match zip_size(file@, "hamerons/document.ron"@) {
                        None => result matches Err(error) && error@ is Archive,
                        Some(size) => match payload_size_fault(size) {
                            Some(fault) => result matches Err(error) && error@ == fault,
                            None => result matches Err(error) ==> error@ is Io,
                        },
                    },
                },
            }
        },
        !(zip_opens(file@) && zip_size(file@, "mimetype"@) is Some) ==> (result matches Err(error)
            && error@ is Archive),
{
    match open_archive(file) {
        Ok(_) => {},
        Err(error) => {
            return Err(DocumentIoError::Archive(describe_zip_error(&error)));
        },
    }
    match entry_size(file, "mimetype") {
        Ok(_) => {},
        Err(error) => {
            return Err(DocumentIoError::Archive(describe_zip_error(&error)));
        },
    }
    let mimetype = match entry_content(file, "mimetype") {
        Ok(content) => content,
        Err(error) => {
            return Err(DocumentIoError::Io(describe_io_error(&error)));
        },
    };
    match check_mimetype(&mimetype) {
        Ok(_) => {},
        Err(error) => {
            return Err(error);
        },
    }
    let size: u64 = match entry_size(file, "hamerons/document.ron") {
        Ok(size) => size,
        Err(error) => {
            return Err(DocumentIoError::Archive(describe_zip_error(&error)));
        },
    };
    match check_payload_size(size) {
        Ok(_) => {},
        Err(error) => {
            return Err(error);
        },
    }
    match entry_content(file, "hamerons/document.ron") {
        Ok(payload) => Ok(payload),
        Err(error) => Err(DocumentIoError::Io(describe_io_error(&error))),
    }
}

/// A container that holds the members of a document gives its payload back, as
/// long as the payload is within the safety limit.
pub proof fn law_packed_payloads_read_back(
    file: Seq<u8>,
    archive: ArchiveModel,
    art: ArtModel,
    merged: Seq<u8>,
    preview: Seq<u8>,
    payload: Seq<u8>,
)
    requires
        holds(file, kra_members(archive, art, merged, preview, payload)),
        payload.len() <= MAX_DOCUMENT_BYTES,
    ensures
        kra_payload(file) == Some(payload),
{
    let members = kra_members(archive, art, merged, preview, payload);
    assert(members[0] == ("mimetype"@, encode_utf8("application/x-krita"@)));
    assert(members[members.len() - 1] == ("hamerons/document.ron"@, payload));
}

} // verus!
