//! What the parts of the library tell each other: changes, work, contacts, times and failures.
use crate::cache::{CacheModel, TileRenderFeedback};
use crate::checkpoint::{report_of, CheckpointModel, DocumentSaveReport};
use crate::container::{check_mimetype, check_payload_size};
use crate::errors::DocumentIoError;
use crate::extraction::{extract_tiles, ExtractedTiles};
use crate::geometry::Bounds;
use crate::input::{
    contacts_follow, stretch_deltas, PenContact, PenContacts, PenEvent, PenSample, SampleClock,
    StrokeStep,
};
use crate::paint::{DepositionMode, PaintMaterialPayload};
use crate::state::DocumentModel;
use crate::strokes::{
    BrushProfile, BrushSizeSpace, StrokeDelta, StrokeId, StrokePoint, StrokeRendererSettings,
    TileInvalidation,
};
use crate::tiles::TileWorkBatch;
use vstd::prelude::*;
use vstd::utf8::encode_utf8;

verus! {

/// What is reported of a stroke that begins is the stroke, its point and its segment, as the
/// document has them afterwards.
pub proof fn law_begun_strokes_are_reported(
    document: DocumentModel,
    point: StrokePoint,
    reach: Bounds,
    profile: BrushProfile,
)
    requires
        document.points.len() <= u32::MAX,
        document.segments.len() <= u32::MAX,
        document.strokes.len() < usize::MAX,
    ensures
        ({
            let after = document.begun(point, reach, profile);
            document.begin_report() matches StrokeDelta::Begin { stroke, point: p, segment } && {
                &&& after.active.contains_key(stroke.0)
                &&& after.strokes[after.lookup[stroke.0] as int].id == stroke
                &&& p < after.points.len() && after.points[p as int] == point
                &&& p == after.strokes[after.lookup[stroke.0] as int].first_point
                &&& segment < after.segments.len() && after.segments[segment as int].end == p
                &&& segment == after.strokes[after.lookup[stroke.0] as int].first_segment
            }
        }),
{
}

/// What is reported of a stroke that moves on is the stroke, the new point and the segment
/// that leads to it.
pub proof fn law_extended_strokes_are_reported(
    document: DocumentModel,
    id: StrokeId,
    point: StrokePoint,
    reach: Bounds,
)
    requires
        document.well_formed(),
        document.active.contains_key(id.0),
        document.has_room(id),
    ensures
        ({
            let after = document.extended(id, point, reach);
            after.append_report(id) matches StrokeDelta::Append { stroke, point: p, segment } && {
                &&& stroke == id
                &&& p < after.points.len() && after.points[p as int] == point
                &&& segment < after.segments.len() && after.segments[segment as int].end == p
            }
        }),
{
    crate::document::lemma_gathered(document, id);
}

/// A change is reported for each sample that moves the stroke on, in their order, and for no
/// other.
pub proof fn law_each_appended_sample_is_reported(
    document: DocumentModel,
    id: StrokeId,
    steps: Seq<StrokeStep>,
    count: nat,
)
    requires
        0 < count <= steps.len(),
    ensures
        ({
            let before = crate::input::stretched(document, id, steps, (count - 1) as nat);
            let earlier = stretch_deltas(document, id, steps, (count - 1) as nat);
            let all = stretch_deltas(document, id, steps, count);
            &&& !before.extends(id, steps[count - 1].point) ==> all == earlier
            &&& before.extends(id, steps[count - 1].point) ==> all.len() == earlier.len() + 1
                && all.drop_last() == earlier && all.last() is Append && all.last()->Append_stroke
                == id
        }),
        stretch_deltas(document, id, steps, 0).len() == 0,
{
    let earlier = stretch_deltas(document, id, steps, (count - 1) as nat);
    let all = stretch_deltas(document, id, steps, count);
    if all.len() > earlier.len() {
        assert(all.drop_last() =~= earlier);
    }
}

/// A contact ends, moves on or stays; the contacts of other devices are left alone.
pub proof fn law_devices_have_contacts_of_their_own(
    before: Map<u64, PenContact>,
    event: PenEvent,
    device: u64,
    generation: u64,
    blocked: bool,
    sample: Option<PenSample>,
    after: Map<u64, PenContact>,
    other: u64,
)
    requires
        contacts_follow(before, event, device, generation, blocked, sample, after),
    ensures
        other != device ==> (after.contains_key(other) <==> before.contains_key(other))
            && after[other] == before[other],
        !before.contains_key(device) ==> !after.contains_key(device),
        event is Pressed || event is Released || event is Left || event is Moved && blocked
            ==> !after.contains_key(device),
        before.contains_key(device) && event is Moved && !blocked ==> {
            &&& after.contains_key(device)
            &&& after[device].stroke == before[device].stroke
            &&& after[device].generation == before[device].generation
            &&& sample is Some && before[device].generation == generation
                ==> after[device].resampler.latest() == sample->0.point
                && after[device].resampler.pending() == sample->0.midpoint
            &&& sample is None || before[device].generation != generation ==> after[device]
                == before[device]
        },
{
}

/// The contact of a device is the one that it made.
pub proof fn law_contacts_are_found_by_device(
    contacts: PenContacts,
    device: u64,
    found: Option<PenContact>,
)
    requires
        call_ensures(PenContacts::contact, (&contacts, device), found),
    ensures
        found is Some <==> contacts@.contains_key(device),
        found is Some ==> found->0 == contacts@[device],
{
}

/// A batch begins with its first sample and knows its latest. Clearing begins anew.
pub proof fn law_batches_begin_with_their_first_sample(
    clock: SampleClock,
    first: u64,
    second: u64,
)
    ensures
        ({
            let begun = clock.in_batch();
            let one = begun.sampled(first);
            let two = one.sampled(second);
            &&& begun.batch_started is None
            &&& begun.latest == clock.latest
            &&& one.batch_started == Some(first) && one.latest == Some(first)
            &&& two.batch_started == Some(first) && two.latest == Some(second)
        }),
{
}

/// The slots that have to exist are exactly those up to the highest in use, and the displayed
/// tiles are split into runs: each run is of one layer, with the order of the layer and all
/// tiles of it that stand together.
pub proof fn law_batches_ask_for_the_slots_in_use(batch: &TileWorkBatch, extracted: ExtractedTiles)
    requires
        call_ensures(extract_tiles, (batch,), extracted),
    ensures
        extracted.required_slots > 0 ==> (exists|n: int|
            0 <= n < batch@.jobs.len() && ((#[trigger] batch@.jobs[n]).slot + 1
                == extracted.required_slots || batch@.jobs[n].slot == u32::MAX)) || (exists|i: int|
            0 <= i < batch@.display.len() && ((#[trigger] batch@.display[i]).slot + 1
                == extracted.required_slots || batch@.display[i].slot == u32::MAX)),
        forall|n: int|
            0 <= n < batch@.jobs.len() ==> (#[trigger] batch@.jobs[n]).slot
                <= extracted.required_slots,
        batch@.display.len() == 0 <==> extracted.runs@.len() == 0,
        forall|r: int|
            0 <= r < extracted.runs@.len() ==> {
                let run = #[trigger] extracted.runs@[r];
                &&& run.start < run.end
                &&& run.end <= batch@.display.len()
                &&& run.order == batch@.display[run.start as int].layer_order
                &&& run.layer_count == batch@.display[run.start as int].layer_count
                &&& forall|i: int|
                    run.start <= i < run.end ==> (#[trigger] batch@.display[i]).key.layer
                        == run.layer
            },
        extracted.runs@.len() > 0 ==> extracted.runs@[0].start == 0 && extracted.runs@.last().end
            == batch@.display.len(),
        forall|r: int|
            0 < r < extracted.runs@.len() ==> (#[trigger] extracted.runs@[r]).start
                == extracted.runs@[r - 1].end && extracted.runs@[r].layer != extracted.runs@[r
                - 1].layer,
{
    let slots = extracted.required_slots;
    if slots > 0 {
        if exists|i: int|
            0 <= i < batch@.jobs.len() && (#[trigger] batch@.jobs[i]).slot.saturating_add(1)
                == slots {
            let i = choose|i: int|
                0 <= i < batch@.jobs.len() && (#[trigger] batch@.jobs[i]).slot.saturating_add(1)
                    == slots;
            assert(batch@.jobs[i].slot + 1 == slots || batch@.jobs[i].slot == u32::MAX);
        } else {
            let i = choose|i: int|
                0 <= i < batch@.display.len() && (
                #[trigger] batch@.display[i]).slot.saturating_add(1) == slots;
            assert(batch@.display[i].slot + 1 == slots || batch@.display[i].slot == u32::MAX);
        }
    }
}

/// Stale tiles are taken in one after the other, in the order of their reports.
pub proof fn law_stale_tiles_are_taken_in_order(
    cache: CacheModel,
    list: Seq<TileInvalidation>,
    reports: Seq<TileRenderFeedback>,
    count: nat,
)
    requires
        count < list.len(),
        count < reports.len(),
    ensures
        cache.invalidated_by(list, 0) == cache,
        cache.invalidated_by(list, count + 1) == cache.invalidated_by(list, count).invalidated(
            list[count as int],
        ),
        cache.informed_by(reports, 0) == cache,
        cache.informed_by(reports, count + 1) == cache.informed_by(reports, count).informed(
            reports[count as int],
        ),
{
}

/// Recipes are the same where they are of the same kind and hold the same: colours the same
/// numbers, data the same bytes under the same schema.
pub proof fn law_recipes_are_compared_by_content(
    a: PaintMaterialPayload,
    b: PaintMaterialPayload,
    same: bool,
)
    requires
        call_ensures(PaintMaterialPayload::matches, (&a, &b), same),
    ensures
        match (a, b) {
            (
                PaintMaterialPayload::PremultipliedLinearRgba(p),
                PaintMaterialPayload::PremultipliedLinearRgba(q),
            ) => {
                &&& same ==> p.red.same_number(q.red) && p.green.same_number(q.green)
                    && p.blue.same_number(q.blue) && p.alpha.same_number(q.alpha)
                &&& p.red.same_number(q.red) && p.green.same_number(q.green)
                    && p.blue.same_number(q.blue) && p.alpha.same_number(q.alpha) ==> same
            },
            (
                PaintMaterialPayload::ModelData { schema_version: s, bytes: x },
                PaintMaterialPayload::ModelData { schema_version: t, bytes: y },
            ) => same <==> s == t && x@ == y@,
            _ => !same,
        },
{
}

/// A container is accepted only where it declares to be one of Krita, and its payload only up
/// to 512 mebibytes.
pub proof fn law_containers_declare_what_they_are(
    mimetype: Vec<u8>,
    declared: Result<(), DocumentIoError>,
    size: u64,
    sized: Result<(), DocumentIoError>,
)
    requires
        call_ensures(check_mimetype, (&mimetype,), declared),
        call_ensures(check_payload_size, (size,), sized),
    ensures
        declared is Ok <==> mimetype@ == encode_utf8("application/x-krita"@),
        declared is Err ==> declared->Err_0 is Archive,
        sized is Ok <==> size <= 512 * 1024 * 1024,
        sized is Err ==> sized->Err_0 is Archive,
{
}

/// A failure is described by what failed and why.
pub proof fn law_failures_say_why(error: DocumentIoError, message: String)
    requires
        call_ensures(DocumentIoError::message, (&error,), message),
    ensures
        match error {
            DocumentIoError::Io(why) => message@ == "document I/O failed: "@ + why@,
            DocumentIoError::Archive(why) => message@ == "invalid .kra archive: "@ + why@,
            DocumentIoError::Encode(why) => message@ == "document encoding failed: "@ + why@,
            DocumentIoError::InvalidDocument(why) => message@ == "invalid document: "@ + why@,
            DocumentIoError::UnsupportedSchema { found, supported } => message@
                == "document schema "@ + crate::text::decimal_text(found as nat)
                + " is newer than supported schema "@ + crate::text::decimal_text(
                supported as nat,
            ),
            DocumentIoError::ActiveContacts => message@
                == "cannot checkpoint while a drawing contact is active"@,
            DocumentIoError::BackgroundWorkerPanicked => message@
                == "background checkpoint worker panicked"@,
        },
{
}

/// A checkpoint that was written is remembered under its path with its revision, and one that
/// failed is not; either way the next one may begin.
pub proof fn law_finished_checkpoints_are_remembered(
    manager: CheckpointModel,
    report: DocumentSaveReport,
    error: DocumentIoError,
)
    ensures
        ({
            let after = manager.finished(report_of(Ok(report)));
            &&& after.in_flight is None
            &&& after.last_saved == Some((report.path@, report.revision))
        }),
        ({
            let after = manager.finished(report_of(Err(error)));
            &&& after.in_flight is None
            &&& after.last_saved == manager.last_saved
        }),
{
}

/// The default pen paints and the default eraser erases with a wider tip, both measured on
/// the screen; tiles are rasterized more eagerly while nothing is drawn.
pub proof fn law_default_tools_paint_and_erase(settings: StrokeRendererSettings)
    requires
        call_ensures(StrokeRendererSettings::default, (), settings),
    ensures
        settings.pen.deposition == DepositionMode::Normal,
        settings.eraser.deposition == DepositionMode::Erase,
        settings.pen.size_space == BrushSizeSpace::Screen,
        settings.eraser.size_space == BrushSizeSpace::Screen,
        settings.pen.diameter.bits == 0x4100_0000,
        settings.eraser.diameter.bits == 0x41e0_0000,
        settings.pen.flow.bits == 0x3f80_0000 && settings.eraser.flow.bits == 0x3f80_0000,
        settings.pen.minimum_diameter_ratio.below(settings.eraser.minimum_diameter_ratio),
        settings.pen.pressure_gamma == settings.eraser.pressure_gamma,
        settings.pen.paint != settings.eraser.paint,
        settings.tile_size == 256,
        settings.gpu_cache_budget_bytes == 256 * 1024 * 1024,
        settings.max_dirty_tiles_while_drawing < settings.max_dirty_tiles_while_idle,
        settings.max_effect_tiles_while_drawing < settings.max_effect_tiles_while_idle,
{
}

/// A sample moves a stroke on exactly where a contact draws the stroke and the sample differs
/// in some number from the point where the contact is.
pub proof fn law_only_new_samples_extend(document: DocumentModel, id: StrokeId, point: StrokePoint)
    ensures
        document.extends(id, point) <==> document.active.contains_key(id.0) && {
            let tip = document.points[document.active[id.0].last_point as int];
            ||| !tip.position.x.same_number(point.position.x)
            ||| !tip.position.y.same_number(point.position.y)
            ||| !tip.half_width.same_number(point.half_width)
            ||| !tip.aspect_ratio.same_number(point.aspect_ratio)
            ||| !tip.flow.same_number(point.flow)
            ||| !tip.orientation.x.same_number(point.orientation.x)
            ||| !tip.orientation.y.same_number(point.orientation.y)
            ||| !tip.twist_radians.same_number(point.twist_radians)
        },
{
}

} // verus!
