//! What a pen draws: where its strokes begin, which way they lead and how they end.
use crate::geometry::Vector;
use crate::geometry_laws::{lies_within, measured};
use crate::input::{
    ends_contact, has_room_for, planned_for, profile_for_tool, release_tip_point, stretched, Curve,
    PenContact, PenEvent, PenPlan, PenSample, SampleClock, StrokeInputBlocker,
    StrokePointResampler, StrokeStep,
};
use crate::laws::law_contacts_keep_ranges_of_their_own;
use crate::state::DocumentModel;
use crate::strokes::{BrushProfile, StrokeId, StrokePoint, StrokeRendererSettings};
use vstd::prelude::*;

verus! {

/// Whether two samples have the same footprint, wherever they are.
pub open spec fn same_footprint(a: StrokePoint, b: StrokePoint) -> bool {
    &&& a.half_width == b.half_width
    &&& a.aspect_ratio == b.aspect_ratio
    &&& a.flow == b.flow
    &&& a.orientation == b.orientation
    &&& a.twist_radians == b.twist_radians
}

/// Whether a plan asks nothing of any stroke.
pub open spec fn asks_nothing(plan: PenPlan) -> bool {
    plan.extend is None && plan.finish is None && plan.begin is None
}

/// Whether a stroke is led on by one curve: from where it was left, bent by the latest
/// input, to a point. Where no curve is asked for, it would lead nowhere.
pub open spec fn led_to(contact: PenContact, plan: PenPlan, end: StrokePoint) -> bool {
    match plan.extend {
        Some((stroke, curve)) => {
            &&& stroke == contact.stroke
            &&& curve.start == contact.resampler.pending()
            &&& curve.control == contact.resampler.latest()
            &&& curve.end == end
        },
        None => {
            &&& contact.resampler.pending().same_number(contact.resampler.latest())
            &&& contact.resampler.latest().same_number(end)
        },
    }
}

/// Whether a stroke is finished along a curve from a point to a tip. Where no curve is left,
/// it would lead nowhere.
pub open spec fn finished_at(
    contact: PenContact,
    plan: PenPlan,
    start: StrokePoint,
    tip: StrokePoint,
) -> bool {
    &&& plan.finish is Some
    &&& plan.finish->0.stroke == contact.stroke
    &&& match plan.finish->0.tail {
        Some(curve) => curve.start == start && curve.control == tip && curve.end == tip,
        None => start.same_number(tip),
    }
}

/// A released pen leaves the canvas where it is reported, with the footprint of its last
/// contact: the tail of the stroke ends at the sample's position, and its width, aspect,
/// flow, orientation and twist are those of the latest input, whatever footprint the sample
/// has. Only a stroke of the current generation is led there, and no other begins.
pub proof fn law_released_strokes_keep_their_footprint(
    contact: PenContact,
    generation: u64,
    sample: PenSample,
    tip: StrokePoint,
)
    requires
        contact.generation == generation,
        tip.position == sample.point.position,
        same_footprint(tip, contact.resampler.latest()),
    ensures
        ({
            let plan = planned_for(
                Some(contact),
                PenEvent::Released,
                generation,
                false,
                Some(sample),
            );
            &&& plan.begin is None
            &&& led_to(contact, plan, sample.midpoint)
            &&& finished_at(contact, plan, sample.midpoint, tip)
        }),
{
}

/// A pen that is released over application chrome or off the canvas, or that leaves, or that
/// moves onto chrome, finishes its stroke at the latest input.
pub proof fn law_interrupted_strokes_end_at_the_latest_input(
    contact: PenContact,
    generation: u64,
    sample: Option<PenSample>,
    blocked: bool,
)
    requires
        contact.generation == generation,
    ensures
        ({
            let plan = planned_for(
                Some(contact),
                PenEvent::Released,
                generation,
                true,
                sample,
            );
            &&& plan.extend is None && plan.begin is None
            &&& finished_at(
                contact,
                plan,
                contact.resampler.pending(),
                contact.resampler.latest(),
            )
        }),
        ({
            let plan = planned_for(Some(contact), PenEvent::Released, generation, blocked, None);
            &&& plan.extend is None && plan.begin is None
            &&& finished_at(
                contact,
                plan,
                contact.resampler.pending(),
                contact.resampler.latest(),
            )
        }),
        ({
            let plan = planned_for(Some(contact), PenEvent::Left, generation, blocked, sample);
            &&& plan.extend is None && plan.begin is None
            &&& finished_at(
                contact,
                plan,
                contact.resampler.pending(),
                contact.resampler.latest(),
            )
        }),
        ({
            let plan = planned_for(Some(contact), PenEvent::Moved, generation, true, sample);
            &&& plan.extend is None && plan.begin is None
            &&& finished_at(
                contact,
                plan,
                contact.resampler.pending(),
                contact.resampler.latest(),
            )
        }),
{
}

/// A pen that moves on the canvas leads its stroke to the midpoint of the movement, and
/// neither finishes it nor begins another.
pub proof fn law_moving_leads_the_stroke_on(
    contact: PenContact,
    generation: u64,
    sample: PenSample,
)
    requires
        contact.generation == generation,
    ensures
        ({
            let plan = planned_for(
                Some(contact),
                PenEvent::Moved,
                generation,
                false,
                Some(sample),
            );
            &&& plan.finish is None
            &&& plan.begin is None
            &&& led_to(contact, plan, sample.midpoint)
        }),
{
}

/// A pen that touches the canvas begins a stroke at the sample, and at none over chrome or
/// off the canvas. A stroke that it still drew is finished first, at its latest input.
pub proof fn law_pressing_begins_a_stroke(
    contact: Option<PenContact>,
    generation: u64,
    sample: PenSample,
    blocked: bool,
    late: Option<PenSample>,
)
    ensures
        planned_for(contact, PenEvent::Pressed, generation, false, Some(sample)).begin == Some(
            sample.point,
        ),
        planned_for(contact, PenEvent::Pressed, generation, true, late).begin is None,
        planned_for(contact, PenEvent::Pressed, generation, blocked, None).begin is None,
        ({
            let plan = planned_for(contact, PenEvent::Pressed, generation, blocked, late);
            &&& plan.extend is None
            &&& contact is None ==> plan.finish is None
            &&& contact is Some ==> finished_at(
                contact->0,
                plan,
                contact->0.resampler.pending(),
                contact->0.resampler.latest(),
            )
        }),
{
}

/// A pen in contact whose strokes were abandoned begins another as it moves on the canvas.
/// A pen without contact draws nothing until it touches, and reports that do not concern
/// strokes ask for nothing.
pub proof fn law_pens_without_a_stroke(
    contact: PenContact,
    generation: u64,
    sample: PenSample,
    blocked: bool,
    late: Option<PenSample>,
    event: PenEvent,
    any: Option<PenContact>,
)
    requires
        contact.generation != generation,
        event != PenEvent::Pressed,
    ensures
        planned_for(Some(contact), PenEvent::Moved, generation, false, Some(sample)).begin == Some(
            sample.point,
        ),
        asks_nothing(planned_for(Some(contact), PenEvent::Moved, generation, true, late)),
        asks_nothing(planned_for(Some(contact), PenEvent::Moved, generation, blocked, None)),
        asks_nothing(planned_for(Some(contact), PenEvent::Released, generation, blocked, late)),
        asks_nothing(planned_for(Some(contact), PenEvent::Left, generation, blocked, late)),
        asks_nothing(planned_for(None, event, generation, blocked, late)),
        asks_nothing(planned_for(any, PenEvent::Other, generation, blocked, late)),
{
}

/// A contact is over when the pen is lifted, leaves, touches anew, or moves onto chrome, and
/// not otherwise.
pub proof fn law_contacts_last_until_the_pen_is_lifted(event: PenEvent, blocked: bool)
    ensures
        ends_contact(event, blocked) == (event == PenEvent::Released || event == PenEvent::Left
            || event == PenEvent::Pressed || (event == PenEvent::Moved && blocked)),
{
}

/// The path that a resampler draws has no gaps: a curve starts where the one before it
/// ended, the first at the first sample, and the last ends at the latest sample.
pub proof fn law_smoothed_paths_have_no_gaps(
    first: StrokePoint,
    fresh: StrokePointResampler,
    moved: StrokePointResampler,
    point: StrokePoint,
    midpoint: StrokePoint,
    latest: StrokePoint,
)
    requires
        call_ensures(StrokePointResampler::new, (first,), fresh),
        moved.latest() == point,
        moved.pending() == midpoint,
        call_ensures(StrokePointResampler::latest_input, (&moved,), latest),
    ensures
        fresh.curve_to(midpoint).start == first,
        fresh.curve_to(midpoint).control == first,
        fresh.curve_to(midpoint).end == midpoint,
        fresh.tail().start == first,
        fresh.tail().end == first,
        moved.tail().start == fresh.curve_to(midpoint).end,
        moved.tail().control == point,
        moved.tail().end == point,
        latest == point,
{
}

/// Every curve is drawn but those whose three points are one.
pub proof fn law_curves_are_drawn_unless_they_lead_nowhere(curve: Curve)
    ensures
        curve.drawn() is Some ==> curve.drawn() == Some(curve),
        curve.drawn() is None <==> curve.start.same_number(curve.control)
            && curve.control.same_number(curve.end),
{
}

/// Two samples are the same where none of their numbers differ.
pub proof fn law_samples_differ_in_a_number(a: StrokePoint, b: StrokePoint, same: bool)
    requires
        call_ensures(StrokePoint::equals, (a, b), same),
    ensures
        same ==> a.position.x.same_number(b.position.x) && a.position.y.same_number(
            b.position.y,
        ),
        same ==> a.half_width.same_number(b.half_width) && a.flow.same_number(b.flow),
        same ==> a.aspect_ratio.same_number(b.aspect_ratio) && a.twist_radians.same_number(
            b.twist_radians,
        ),
        same ==> a.orientation.x.same_number(b.orientation.x) && a.orientation.y.same_number(
            b.orientation.y,
        ),
        a == b && !same ==> a.position.x.nan() || a.position.y.nan() || a.half_width.nan()
            || a.flow.nan() || a.aspect_ratio.nan() || a.twist_radians.nan()
            || a.orientation.x.nan() || a.orientation.y.nan(),
{
}

/// The tip of a released pen is where it is reported, with the footprint of the last contact.
pub proof fn law_tips_keep_the_last_footprint(
    position: Vector,
    last: StrokePoint,
    tip: StrokePoint,
)
    requires
        call_ensures(release_tip_point, (position, last), tip),
    ensures
        tip.position == position,
        same_footprint(tip, last),
{
}

/// The eraser end draws with the eraser, every other tool with the pen.
pub proof fn law_tools_draw_with_their_profile(
    settings: &StrokeRendererSettings,
    with_eraser: BrushProfile,
    with_pen: BrushProfile,
)
    requires
        call_ensures(profile_for_tool, (settings, true), with_eraser),
        call_ensures(profile_for_tool, (settings, false), with_pen),
    ensures
        with_eraser == settings.eraser,
        with_pen == settings.pen,
{
}

/// A point is blocked where it lies within one of the regions, edges counted in.
pub proof fn law_regions_block_their_points(
    blocker: &StrokeInputBlocker,
    point: Vector,
    hit: bool,
)
    requires
        call_ensures(StrokeInputBlocker::blocks, (blocker, point), hit),
        forall|i: int| 0 <= i < blocker@.len() ==> measured(#[trigger] blocker@[i]),
    ensures
        hit <==> exists|i: int|
            0 <= i < blocker@.len() && lies_within(point, #[trigger] blocker@[i]),
{
    assert forall|i: int| 0 <= i < blocker@.len() implies (#[trigger] blocker@[i]).encloses(point)
        == lies_within(point, blocker@[i]) by {
        assert(measured(blocker@[i]));
    }
    if exists|i: int| 0 <= i < blocker@.len() && lies_within(point, #[trigger] blocker@[i]) {
        let i = choose|i: int| 0 <= i < blocker@.len() && lies_within(point, #[trigger] blocker@[i]);
        assert(blocker@[i].encloses(point));
    }
}

/// Ages are measured up to now: the latest sample is the youngest of its batch, and there is
/// an age as soon as there was a sample.
pub proof fn law_sample_ages(clock: &SampleClock, now: u64, ages: Option<(u64, u64)>)
    requires
        call_ensures(SampleClock::ages, (clock, now), ages),
        clock.latest is Some ==> clock.latest->0 <= now,
        clock.latest is Some && clock.batch_started is Some ==> clock.batch_started->0
            <= clock.latest->0,
    ensures
        ages is Some == clock.latest is Some,
        ages matches Some((oldest, newest)) ==> {
            &&& clock.latest->0 + newest == now
            &&& newest <= oldest
            &&& clock.batch_started is Some ==> clock.batch_started->0 + oldest == now
            &&& clock.batch_started is None ==> oldest == newest
        },
{
}

/// Position in the document of the tip of a contact.
pub open spec fn tip_of(document: DocumentModel, id: StrokeId) -> StrokePoint {
    document.points[document.active[id.0].last_point as int]
}

/// A stroke that samples are offered to ends at the last of them, its tip, as a number at
/// least; the stroke stays the one that its contact draws, and other contacts keep theirs.
pub proof fn law_samples_lead_to_the_exact_tip(
    document: DocumentModel,
    id: StrokeId,
    steps: Seq<StrokeStep>,
    count: nat,
    other: StrokeId,
)
    requires
        document.well_formed(),
        document.active.contains_key(id.0),
        has_room_for(document, id, count as int),
        count <= steps.len(),
    ensures
        ({
            let after = stretched(document, id, steps, count);
            &&& after.well_formed()
            &&& after.active.contains_key(id.0)
            &&& after.active[id.0].metadata_index == document.active[id.0].metadata_index
            &&& has_room_for(after, id, 0)
            &&& count > 0 ==> tip_of(after, id) == steps[count - 1].point || tip_of(
                after,
                id,
            ).same_number(steps[count - 1].point)
            &&& count == 0 ==> after == document
            &&& other != id && document.active.contains_key(other.0) ==> after.active[other.0]
                == document.active[other.0]
            &&& after.layers == document.layers
            &&& after.undo == document.undo
            &&& after.redo == document.redo
        }),
    decreases count,
{
    lemma_stretched_room(document, id, steps, count, count as int);
}

proof fn lemma_stretched_room(
    document: DocumentModel,
    id: StrokeId,
    steps: Seq<StrokeStep>,
    count: nat,
    room: int,
)
    requires
        document.well_formed(),
        document.active.contains_key(id.0),
        has_room_for(document, id, room),
        count <= room,
        count <= steps.len(),
    ensures
        ({
            let after = stretched(document, id, steps, count);
            &&& after.well_formed()
            &&& after.active.contains_key(id.0)
            &&& after.active[id.0].metadata_index == document.active[id.0].metadata_index
            &&& has_room_for(after, id, room - count)
            &&& count > 0 ==> tip_of(after, id) == steps[count - 1].point || tip_of(
                after,
                id,
            ).same_number(steps[count - 1].point)
            &&& forall|other: u64|
                other != id.0 && document.active.contains_key(other) ==> #[trigger] after.active[
                    other
                ] == document.active[other]
            &&& after.layers == document.layers
            &&& after.undo == document.undo
            &&& after.redo == document.redo
        }),
    decreases count,
{
    if count > 0 {
        lemma_stretched_room(document, id, steps, (count - 1) as nat, room);
        let before = stretched(document, id, steps, (count - 1) as nat);
        let step = steps[count - 1];
        if before.extends(id, step.point) {
            let i = before.active[id.0].metadata_index as int;
            assert(before.stroke_in_range(before.strokes[i]));
            assert(before.owns_geometry(before.strokes[i]));
            law_contacts_keep_ranges_of_their_own(before, id, step.point, step.reach);
        }
    }
}

} // verus!
