//! Pen contacts: which strokes they begin, extend and finish, and where they may.
use crate::document::StrokeDocument;
use crate::geometry::{Bounds, Vector};
use crate::scalar::Scalar;
use crate::state::DocumentModel;
use crate::strokes::{
    BrushProfile, StrokeCoverage, StrokeDelta, StrokeDeltaBatch, StrokeId, StrokePoint,
    StrokeRendererSettings,
};
use std::collections::BTreeMap;
use vstd::prelude::*;

verus! {

broadcast use vstd::laws_cmp::group_laws_cmp;

impl Scalar {
    /// Numeric at-most: false whenever a NaN takes part.
    pub open spec fn at_most(self, other: Scalar) -> bool {
        self.below(other) || self.same_number(other)
    }
}

impl Bounds {
    /// Whether a point lies within the rectangle, edges and corners counted in.
    pub open spec fn encloses(self, point: Vector) -> bool {
        &&& self.min.x.at_most(point.x)
        &&& point.x.at_most(self.max.x)
        &&& self.min.y.at_most(point.y)
        &&& point.y.at_most(self.max.y)
    }

    /// Whether a point lies within the rectangle, edges and corners counted in.
    pub fn contains(self, point: Vector) -> (inside: bool)
        ensures
            inside == self.encloses(point),
    {
        not_above(self.min.x, point.x) && not_above(point.x, self.max.x) && not_above(
            self.min.y,
            point.y,
        ) && not_above(point.y, self.max.y)
    }
}

fn not_above(a: Scalar, b: Scalar) -> (ordered: bool)
    ensures
        ordered == a.at_most(b),
{
    a.less_than(b) || a.equals(b)
}

/// Logical viewport regions that must not begin or extend canvas strokes.
#[derive(Debug)]
pub struct StrokeInputBlocker {
    regions: Vec<Bounds>,
}

impl View for StrokeInputBlocker {
    type V = Seq<Bounds>;

    closed spec fn view(&self) -> Seq<Bounds> {
        self.regions@
    }
}

/// Whether some region encloses the point.
pub open spec fn blocked(regions: Seq<Bounds>, point: Vector) -> bool {
    exists|i: int| 0 <= i < regions.len() && (#[trigger] regions[i]).encloses(point)
}

impl StrokeInputBlocker {
    /// Creates a blocker without regions.
    pub fn new() -> (blocker: Self)
        ensures
            blocker@ == Seq::<Bounds>::empty(),
    {
        StrokeInputBlocker { regions: Vec::new() }
    }

    /// Replaces the blocked viewport regions for the current frame.
    pub fn set_regions(&mut self, regions: Vec<Bounds>)
        ensures
            final(self)@ == regions@,
    {
        self.regions = regions;
    }

    /// Returns whether a logical viewport point belongs to application chrome.
    pub fn blocks(&self, point: Vector) -> (hit: bool)
        ensures
            hit == blocked(self@, point),
    {
        for i in 0..self.regions.len()
            invariant
                forall|j: int| 0 <= j < i ==> !(#[trigger] self@[j]).encloses(point),
        {
            if self.regions[i].contains(point) {
                assert(self@[i as int].encloses(point));
                return true;
            }
        }
        false
    }
}

impl Default for StrokeInputBlocker {
    fn default() -> (blocker: Self)
        ensures
            blocker@ == Seq::<Bounds>::empty(),
    {
        StrokeInputBlocker::new()
    }
}

/// Ordering label for application chrome that must block pen collection.
#[derive(Clone, Copy, Debug, PartialEq, Eq, Hash, Structural)]
pub enum StrokeInputSystems {
    /// Converts pen input into document geometry.
    Collect,
}

/// When the samples of the current input batch were received, in nanoseconds of
/// the caller's clock.
#[derive(Clone, Copy, Debug, PartialEq, Eq, Structural)]
pub struct SampleClock {
    /// First sample of the batch, if it has one.
    pub batch_started: Option<u64>,
    /// Latest sample of any batch.
    pub latest: Option<u64>,
}

impl SampleClock {
    /// Creates a clock that saw no sample.
    pub fn new() -> (clock: Self)
        ensures
            clock == (SampleClock { batch_started: None, latest: None }),
    {
        SampleClock { batch_started: None, latest: None }
    }

    /// The clock in a batch that has just begun.
    pub open spec fn in_batch(self) -> Self {
        SampleClock { batch_started: None, ..self }
    }

    /// The clock after a sample.
    pub open spec fn sampled(self, now: u64) -> Self {
        SampleClock {
            batch_started: if self.batch_started is Some { self.batch_started } else { Some(now) },
            latest: Some(now),
        }
    }

    /// Starts a batch.
    pub fn begin_batch(&mut self)
        ensures
            *final(self) == old(self).in_batch(),
    {
        self.batch_started = None;
    }

    /// Notes that a sample was appended.
    pub fn sample(&mut self, now: u64)
        ensures
            *final(self) == old(self).sampled(now),
    {
        if self.batch_started.is_none() {
            self.batch_started = Some(now);
        }
        self.latest = Some(now);
    }

    /// Notes that the document was cleared, which counts as a sample of its own batch.
    pub fn document_cleared(&mut self, now: u64)
        ensures
            *final(self) == old(self).in_batch().sampled(now),
    {
        self.batch_started = Some(now);
        self.latest = Some(now);
    }

    /// Ages of the oldest sample of the batch and of the latest sample, where
    /// there was one.
    pub fn ages(&self, now: u64) -> (ages: Option<(u64, u64)>)
        ensures
            ages == match self.latest {
                None => None,
                Some(newest) => Some(
                    (
                        now.saturating_sub(
                            if self.batch_started is Some { self.batch_started->0 } else { newest },
                        ),
                        now.saturating_sub(newest),
                    ),
                ),
            },
    {
        match self.latest {
            None => None,
            Some(newest) => {
                let oldest: u64 = match self.batch_started {
                    Some(started) => started,
                    None => newest,
                };
                Some((now.saturating_sub(oldest), now.saturating_sub(newest)))
            },
        }
    }
}

impl Default for SampleClock {
    fn default() -> (clock: Self)
        ensures
            clock == (SampleClock { batch_started: None, latest: None }),
    {
        SampleClock::new()
    }
}

/// A quadratic curve through footprints.
#[derive(Clone, Copy, Debug, PartialEq, Eq, Structural)]
pub struct Curve {
    /// Where the curve starts.
    pub start: StrokePoint,
    /// Sample that bends the curve.
    pub control: StrokePoint,
    /// Where the curve ends.
    pub end: StrokePoint,
}

impl Curve {
    /// Whether the curve leads anywhere: its three points are not all the same.
    pub open spec fn leads(self) -> bool {
        !(self.start.same_number(self.control) && self.control.same_number(self.end))
    }

    /// The curve, if it leads anywhere.
    pub open spec fn drawn(self) -> Option<Curve> {
        if self.leads() { Some(self) } else { None }
    }

    fn if_drawn(self) -> (curve: Option<Curve>)
        ensures
            curve == self.drawn(),
    {
        if self.start.equals(self.control) && self.control.equals(self.end) {
            None
        } else {
            Some(self)
        }
    }
}

/// Turns raw pen samples into midpoint-to-midpoint quadratic curves, so that the
/// drawn tangent does not jump at a platform sample.
#[derive(Clone, Copy, Debug, PartialEq, Eq, Structural)]
pub struct StrokePointResampler {
    last_input: StrokePoint,
    curve_start: StrokePoint,
}

impl StrokePointResampler {
    /// Most recent unmodified platform sample.
    pub closed spec fn latest(self) -> StrokePoint {
        self.last_input
    }

    /// Where the next curve starts.
    pub closed spec fn pending(self) -> StrokePoint {
        self.curve_start
    }

    /// The curve that completes the pending half-curve.
    pub open spec fn tail(self) -> Curve {
        Curve { start: self.pending(), control: self.latest(), end: self.latest() }
    }

    /// The curve that leads to a midpoint.
    pub open spec fn curve_to(self, midpoint: StrokePoint) -> Curve {
        Curve { start: self.pending(), control: self.latest(), end: midpoint }
    }

    /// Starts a resampler after `first` has already been appended to a stroke.
    pub fn new(first: StrokePoint) -> (resampler: Self)
        ensures
            resampler.latest() == first,
            resampler.pending() == first,
    {
        StrokePointResampler { last_input: first, curve_start: first }
    }

    /// Observes one raw point and hands out the completed smooth curve prefix.
    ///
    /// `midpoint` lies halfway between the latest input and the point.
    pub fn push(&mut self, point: StrokePoint, midpoint: StrokePoint) -> (curve: Option<Curve>)
        ensures
            curve == old(self).curve_to(midpoint).drawn(),
            final(self).latest() == point,
            final(self).pending() == midpoint,
    {
        let curve = Curve { start: self.curve_start, control: self.last_input, end: midpoint };
        self.curve_start = midpoint;
        self.last_input = point;
        curve.if_drawn()
    }

    /// Completes the pending half-curve, which ends at the exact latest input point.
    pub fn finish(&mut self) -> (curve: Option<Curve>)
        ensures
            curve == old(self).tail().drawn(),
            final(self).latest() == old(self).latest(),
            final(self).pending() == old(self).latest(),
    {
        let curve = Curve {
            start: self.curve_start,
            control: self.last_input,
            end: self.last_input,
        };
        self.curve_start = self.last_input;
        curve.if_drawn()
    }

    /// Most recent unmodified platform sample observed by the resampler.
    pub fn latest_input(&self) -> (point: StrokePoint)
        ensures
            point == self.latest(),
    {
        self.last_input
    }
}

/// Successive curves join: each starts where the previous one ended, and the tail
/// ends at the latest input.
pub proof fn law_curves_join(
    before: StrokePointResampler,
    after: StrokePointResampler,
    point: StrokePoint,
    midpoint: StrokePoint,
)
    requires
        after.latest() == point,
        after.pending() == midpoint,
    ensures
        after.tail().start == before.curve_to(midpoint).end,
        after.tail().end == point,
        before.curve_to(midpoint).start == before.pending(),
{
}

/// The point at which a released pen leaves the canvas: the reported position
/// with the footprint of the last contact sample.
pub open spec fn tip(position: Vector, last_contact_point: StrokePoint) -> StrokePoint {
    StrokePoint { position, ..last_contact_point }
}

/// The point at which a released pen leaves the canvas: the reported position
/// with the footprint of the last contact sample.
pub fn release_tip_point(position: Vector, last_contact_point: StrokePoint) -> (point: StrokePoint)
    ensures
        point == tip(position, last_contact_point),
{
    let mut point = last_contact_point;
    point.position = position;
    point
}

/// Profile that a tool draws with.
pub fn profile_for_tool(settings: &StrokeRendererSettings, eraser: bool) -> (profile: BrushProfile)
    ensures
        profile == (if eraser { settings.eraser } else { settings.pen }),
{
    if eraser { settings.eraser } else { settings.pen }
}

/// What a pen reports.
#[derive(Clone, Copy, Debug, PartialEq, Eq, Structural)]
pub enum PenEvent {
    /// The tip touched the surface.
    Pressed,
    /// The pen moved, touching or not.
    Moved,
    /// The tip left the surface.
    Released,
    /// The pen left proximity.
    Left,
    /// Anything that does not concern strokes.
    Other,
}

/// A pen sample that falls on the canvas.
#[derive(Clone, Copy, Debug, PartialEq, Eq, Structural)]
pub struct PenSample {
    /// Footprint at the sample.
    pub point: StrokePoint,
    /// Footprint halfway between the contact's latest input and the sample.
    pub midpoint: StrokePoint,
}

/// A pen in contact, and the stroke it draws.
#[derive(Clone, Copy, Debug, PartialEq, Eq, Structural)]
pub struct PenContact {
    /// Stroke that the contact draws.
    pub stroke: StrokeId,
    /// Contact generation of the document when the stroke began.
    pub generation: u64,
    /// Smoothing state.
    pub resampler: StrokePointResampler,
}

/// A stroke to be finished, and the curve that still belongs to it.
#[derive(Clone, Copy, Debug, PartialEq, Eq, Structural)]
pub struct PenFinish {
    /// Stroke to be finished.
    pub stroke: StrokeId,
    /// Curve to be appended first, if one is left.
    pub tail: Option<Curve>,
}

/// What follows from a pen report, to be done in this order.
#[derive(Clone, Copy, Debug, PartialEq, Eq)]
pub struct PenPlan {
    /// Stroke to be extended, and along which curve.
    pub extend: Option<(StrokeId, Curve)>,
    /// Stroke to be finished.
    pub finish: Option<PenFinish>,
    /// First point of a stroke to be begun.
    pub begin: Option<StrokePoint>,
}

impl PenContact {
    /// What finishing the contact asks for.
    pub open spec fn finish(self) -> PenFinish {
        PenFinish { stroke: self.stroke, tail: self.resampler.tail().drawn() }
    }

    /// Whether a contact is this one after it took a sample in.
    pub open spec fn moved_to(self, point: StrokePoint, midpoint: StrokePoint, after: Self) -> bool {
        &&& after.stroke == self.stroke
        &&& after.generation == self.generation
        &&& after.resampler.latest() == point
        &&& after.resampler.pending() == midpoint
    }

    /// The curve along which a sample extends the contact's stroke, if one.
    pub open spec fn extension(self, midpoint: StrokePoint) -> Option<(StrokeId, Curve)> {
        match self.resampler.curve_to(midpoint).drawn() {
            Some(curve) => Some((self.stroke, curve)),
            None => None,
        }
    }
}

/// Nothing to do.
pub open spec fn idle_plan() -> PenPlan {
    PenPlan { extend: None, finish: None, begin: None }
}

/// What a report asks for, given the pen's contact and the document's contact
/// generation. `blocked` says that the pen is over application chrome.
pub open spec fn planned_for(
    contact: Option<PenContact>,
    event: PenEvent,
    generation: u64,
    blocked: bool,
    sample: Option<PenSample>,
) -> PenPlan {
    let current = contact is Some && contact->0.generation == generation;
    match event {
        PenEvent::Pressed => PenPlan {
            extend: None,
            finish: match contact {
                Some(previous) => Some(previous.finish()),
                None => None,
            },
            begin: if !blocked && sample is Some { Some(sample->0.point) } else { None },
        },
        PenEvent::Moved => if blocked {
            PenPlan {
                extend: None,
                finish: if current { Some(contact->0.finish()) } else { None },
                begin: None,
            }
        } else if contact is None || sample is None {
            idle_plan()
        } else if current {
            PenPlan {
                extend: contact->0.extension(sample->0.midpoint),
                finish: None,
                begin: None,
            }
        } else {
            PenPlan { extend: None, finish: None, begin: Some(sample->0.point) }
        },
        PenEvent::Released => if !current {
            idle_plan()
        } else if !blocked && sample is Some {
            PenPlan {
                extend: contact->0.extension(sample->0.midpoint),
                finish: Some(
                    PenFinish {
                        stroke: contact->0.stroke,
                        tail: (Curve {
                            start: sample->0.midpoint,
                            control: tip(
                                sample->0.point.position,
                                contact->0.resampler.latest(),
                            ),
                            end: tip(sample->0.point.position, contact->0.resampler.latest()),
                        }).drawn(),
                    },
                ),
                begin: None,
            }
        } else {
            PenPlan { extend: None, finish: Some(contact->0.finish()), begin: None }
        },
        PenEvent::Left => PenPlan {
            extend: None,
            finish: if current { Some(contact->0.finish()) } else { None },
            begin: None,
        },
        PenEvent::Other => idle_plan(),
    }
}

/// Whether a report ends the pen's contact.
pub open spec fn ends_contact(event: PenEvent, blocked: bool) -> bool {
    match event {
        PenEvent::Pressed => true,
        PenEvent::Moved => blocked,
        PenEvent::Released => true,
        PenEvent::Left => true,
        PenEvent::Other => false,
    }
}

/// Pens in contact, by device number.
#[derive(Debug)]
pub struct PenContacts {
    contacts: BTreeMap<u64, PenContact>,
}

impl View for PenContacts {
    type V = Map<u64, PenContact>;

    closed spec fn view(&self) -> Map<u64, PenContact> {
        self.contacts@
    }
}

/// The contact of a device, if it has one.
pub open spec fn contact_of(contacts: Map<u64, PenContact>, device: u64) -> Option<PenContact> {
    if contacts.contains_key(device) { Some(contacts[device]) } else { None }
}

/// How contacts follow an event: the one of the device ends, moves on, or stays.
pub open spec fn contacts_follow(
    before: Map<u64, PenContact>,
    event: PenEvent,
    device: u64,
    generation: u64,
    blocked: bool,
    sample: Option<PenSample>,
    after: Map<u64, PenContact>,
) -> bool {
    if ends_contact(event, blocked) {
        after == before.remove(device)
    } else if event is Moved && sample is Some && before.contains_key(device)
        && before[device].generation == generation {
        &&& after == before.insert(device, after[device])
        &&& before[device].moved_to(sample->0.point, sample->0.midpoint, after[device])
    } else {
        after == before
    }
}

impl PenContacts {
    /// Creates a table without contacts.
    pub fn new() -> (contacts: Self)
        ensures
            contacts@ == Map::<u64, PenContact>::empty(),
    {
        PenContacts { contacts: BTreeMap::new() }
    }

    /// The contact of a device, if it has one.
    pub fn contact(&self, device: u64) -> (contact: Option<PenContact>)
        ensures
            contact == contact_of(self@, device),
    {
        match self.contacts.get(&device) {
            Some(found) => Some(*found),
            None => None,
        }
    }

    /// Takes in a pen report and says what is to be done.
    ///
    /// Where a stroke is to be begun, the caller begins it and names it through
    /// [`PenContacts::began`].
    pub fn respond(
        &mut self,
        event: PenEvent,
        device: u64,
        generation: u64,
        blocked: bool,
        sample: Option<PenSample>,
    ) -> (plan: PenPlan)
        ensures
            plan == planned_for(
                contact_of(old(self)@, device),
                event,
                generation,
                blocked,
                sample,
            ),
            contacts_follow(
                old(self)@,
                event,
                device,
                generation,
                blocked,
                sample,
                final(self)@,
            ),
    {
        let known = self.contact(device);
        let current = match known {
            Some(contact) => contact.generation == generation,
            None => false,
        };
        let mut plan = PenPlan { extend: None, finish: None, begin: None };
        match event {
            PenEvent::Pressed => {
                self.contacts.remove(&device);
                if let Some(contact) = known {
                    plan.finish = Some(finished(contact));
                }
                if !blocked {
                    if let Some(found) = sample {
                        plan.begin = Some(found.point);
                    }
                }
            },
            PenEvent::Moved => {
                if blocked {
                    self.contacts.remove(&device);
                    if current {
                        if let Some(contact) = known {
                            plan.finish = Some(finished(contact));
                        }
                    }
                } else if let (Some(contact), Some(found)) = (known, sample) {
                    if current {
                        let mut contact = contact;
                        if let Some(curve) = contact.resampler.push(found.point, found.midpoint) {
                            plan.extend = Some((contact.stroke, curve));
                        }
                        self.contacts.insert(device, contact);
                    } else {
                        plan.begin = Some(found.point);
                    }
                }
            },
            PenEvent::Released => {
                self.contacts.remove(&device);
                if current {
                    if let Some(contact) = known {
                        let mut contact = contact;
                        if !blocked {
                            if let Some(found) = sample {
                                let point = release_tip_point(
                                    found.point.position,
                                    contact.resampler.latest_input(),
                                );
                                if let Some(curve) = contact.resampler.push(
                                    point,
                                    found.midpoint,
                                ) {
                                    plan.extend = Some((contact.stroke, curve));
                                }
                            }
                        }
                        plan.finish = Some(finished(contact));
                    }
                }
            },
            PenEvent::Left => {
                self.contacts.remove(&device);
                if current {
                    if let Some(contact) = known {
                        plan.finish = Some(finished(contact));
                    }
                }
            },
            PenEvent::Other => {},
        }
        assert(ends_contact(event, blocked) ==> self@ =~= old(self)@.remove(device));
        plan
    }

    /// Names the stroke that a contact began.
    pub fn began(&mut self, device: u64, stroke: StrokeId, generation: u64, point: StrokePoint)
        ensures
            final(self)@ == old(self)@.insert(device, final(self)@[device]),
            final(self)@[device].stroke == stroke,
            final(self)@[device].generation == generation,
            final(self)@[device].resampler.latest() == point,
            final(self)@[device].resampler.pending() == point,
    {
        self.contacts.insert(
            device,
            PenContact { stroke, generation, resampler: StrokePointResampler::new(point) },
        );
    }
}

impl Default for PenContacts {
    fn default() -> (contacts: Self)
        ensures
            contacts@ == Map::<u64, PenContact>::empty(),
    {
        PenContacts::new()
    }
}

fn finished(contact: PenContact) -> (finish: PenFinish)
    ensures
        finish == contact.finish(),
{
    let mut resampler = contact.resampler;
    PenFinish { stroke: contact.stroke, tail: resampler.finish() }
}

/// A stroke of an abandoned generation is never extended or finished by moving,
/// lifting or removing the pen.
pub proof fn law_abandoned_contacts_are_left_alone(
    contact: PenContact,
    event: PenEvent,
    generation: u64,
    blocked: bool,
    sample: Option<PenSample>,
)
    requires
        contact.generation != generation,
        !(event is Pressed),
    ensures
        ({
            let plan = planned_for(Some(contact), event, generation, blocked, sample);
            plan.extend is None && plan.finish is None
        }),
{
}

/// Application chrome never begins or extends a stroke.
pub proof fn law_chrome_blocks_ink(
    contact: Option<PenContact>,
    event: PenEvent,
    generation: u64,
    sample: Option<PenSample>,
)
    ensures
        ({
            let plan = planned_for(contact, event, generation, true, sample);
            plan.extend is None && plan.begin is None
        }),
{
}

/// One smoothed point of a stroke and the rectangle that its footprint covers.
#[derive(Clone, Copy, Debug, PartialEq, Eq, Structural)]
pub struct StrokeStep {
    /// Footprint.
    pub point: StrokePoint,
    /// Rectangle that it covers.
    pub reach: Bounds,
}

/// The document after the first `count` points were offered to a stroke.
pub open spec fn stretched(
    document: DocumentModel,
    id: StrokeId,
    steps: Seq<StrokeStep>,
    count: nat,
) -> DocumentModel
    decreases count,
{
    if count == 0 {
        document
    } else {
        let before = stretched(document, id, steps, (count - 1) as nat);
        let step = steps[count - 1];
        if before.extends(id, step.point) {
            before.extended(id, step.point, step.reach)
        } else {
            before
        }
    }
}

/// Changes reported while the first `count` points were offered to a stroke.
pub open spec fn stretch_deltas(
    document: DocumentModel,
    id: StrokeId,
    steps: Seq<StrokeStep>,
    count: nat,
) -> Seq<StrokeDelta>
    decreases count,
{
    if count == 0 {
        Seq::empty()
    } else {
        let earlier = stretch_deltas(document, id, steps, (count - 1) as nat);
        let before = stretched(document, id, steps, (count - 1) as nat);
        let after = stretched(document, id, steps, count);
        if before.extends(id, steps[count - 1].point) {
            earlier.push(after.append_report(id))
        } else {
            earlier
        }
    }
}

/// Whether a contact's ranges, where they are to be copied, and so many more points and
/// segments can be numbered and counted.
pub open spec fn has_room_for(document: DocumentModel, id: StrokeId, count: int) -> bool {
    document.active.contains_key(id.0) ==> {
        let i = document.active[id.0].metadata_index as int;
        let stroke = document.strokes[i];
        let copied: int = if document.drawn_last(i) { 0 } else { stroke.point_count as int };
        &&& document.points.len() + copied + count <= 0x1_0000_0000
        &&& document.segments.len() + copied + count <= 0x1_0000_0000
        &&& stroke.point_count + count <= u32::MAX
        &&& stroke.segment_count + count <= u32::MAX
    }
}

/// Offers smoothed points to a stroke and reports the changes.
pub fn append_samples(
    document: &mut StrokeDocument,
    batch: &mut StrokeDeltaBatch,
    stroke: StrokeId,
    steps: &Vec<StrokeStep>,
)
    requires
        old(document).well_formed(),
        has_room_for(old(document)@, stroke, steps@.len() as int),
    ensures
        final(document).well_formed(),
        old(document)@.coherent() ==> final(document)@.coherent(),
        final(document)@ == stretched(old(document)@, stroke, steps@, steps@.len()),
        final(batch).number() == old(batch).number(),
        final(batch).changes() == old(batch).changes() + stretch_deltas(
            old(document)@,
            stroke,
            steps@,
            steps@.len(),
        ),
{
    let ghost before = document@;
    let ghost told = batch.changes();
    let ghost number = batch.number();
    assert(told =~= told + stretch_deltas(before, stroke, steps@, 0));
    for i in 0..steps.len()
        invariant
            document.well_formed(),
            before.coherent() ==> document@.coherent(),
            document@ == stretched(before, stroke, steps@, i as nat),
            has_room_for(document@, stroke, steps@.len() - i),
            batch.number() == number,
            batch.changes() == told + stretch_deltas(before, stroke, steps@, i as nat),
    {
        let ghost current = document@;
        let ghost reported = batch.changes();
        proof {
            if current.active.contains_key(stroke.0) {
                let index = current.active[stroke.0].metadata_index as int;
                assert(index < current.strokes.len());
                assert(current.stroke_in_range(current.strokes[index]));
                assert(current.owns_geometry(current.strokes[index]));
            }
        }
        if let Some(delta) = document.append_point(stroke, steps[i].point, steps[i].reach) {
            batch.push(delta);
            assert(batch.changes() =~= told + stretch_deltas(
                before,
                stroke,
                steps@,
                (i + 1) as nat,
            ));
        }
    }
}

/// Begins a stroke and reports the change.
pub fn begin_contact(
    document: &mut StrokeDocument,
    batch: &mut StrokeDeltaBatch,
    step: StrokeStep,
    profile: BrushProfile,
) -> (stroke: StrokeId)
    requires
        old(document).well_formed(),
        old(document)@.points.len() <= u32::MAX,
        old(document)@.segments.len() <= u32::MAX,
    ensures
        final(document).well_formed(),
        old(document)@.coherent() && old(document)@.next_stroke < u64::MAX ==> final(document)@.coherent(),
        stroke == StrokeId(old(document)@.next_stroke),
        final(document)@ == old(document)@.begun(step.point, step.reach, profile),
        final(batch).number() == old(batch).number(),
        final(batch).changes() == old(batch).changes().push(old(document)@.begin_report()),
{
    let (stroke, delta) = document.begin_stroke(step.point, step.reach, profile);
    batch.push(delta);
    stroke
}

/// Completes a stroke and reports the change; a stroke that is no longer active
/// is left alone.
pub fn end_contact(
    document: &mut StrokeDocument,
    batch: &mut StrokeDeltaBatch,
    stroke: StrokeId,
    coverage: &StrokeCoverage,
)
    requires
        old(document).well_formed(),
        old(document)@.active.contains_key(stroke.0) ==> old(document)@.covers_stroke(
            old(document)@.active[stroke.0].metadata_index as int,
            coverage@,
        ),
    ensures
        final(document).well_formed(),
        old(document)@.coherent() ==> final(document)@.coherent(),
        final(batch).number() == old(batch).number(),
        if old(document)@.active.contains_key(stroke.0) {
            &&& final(document)@ == old(document)@.ended(stroke, coverage@)
            &&& final(batch).changes() == old(batch).changes().push(StrokeDelta::End { stroke })
        } else {
            &&& final(document)@ == old(document)@
            &&& final(batch).changes() == old(batch).changes()
        },
{
    if let Some(delta) = document.end_stroke(stroke, coverage) {
        batch.push(delta);
    }
}

} // verus!
