use hamerons_stroke_render::geometry::{Bounds, TileSpan, Vector};
use hamerons_stroke_render::input::{
    append_samples, begin_contact, end_contact, profile_for_tool, release_tip_point, Curve,
    PenContacts, PenEvent, PenFinish, PenSample, SampleClock, StrokeStep,
};
use hamerons_stroke_render::strokes::StrokeCoverage;
use hamerons_stroke_render::{
    Scalar, StrokeDelta, StrokeDeltaBatch, StrokeDocument, StrokeId, StrokeInputBlocker,
    StrokePoint, StrokePointResampler, StrokeRendererSettings,
};

fn scalar(value: f32) -> Scalar {
    Scalar::from_bits(value.to_bits())
}

fn vector(x: f32, y: f32) -> Vector {
    Vector { x: scalar(x), y: scalar(y) }
}

fn point(x: f32) -> StrokePoint {
    StrokePoint {
        position: vector(x, 2.0),
        half_width: scalar(3.0),
        aspect_ratio: scalar(1.0),
        flow: scalar(1.0),
        orientation: vector(0.0, 1.0),
        twist_radians: scalar(0.0),
    }
}

fn sample(from: f32, to: f32) -> Option<PenSample> {
    Some(PenSample { point: point(to), midpoint: point((from + to) / 2.0) })
}

fn step(x: f32) -> StrokeStep {
    StrokeStep {
        point: point(x),
        reach: Bounds { min: vector(x - 5.0, -3.0), max: vector(x + 5.0, 7.0) },
    }
}

fn tile() -> TileSpan {
    TileSpan { min_x: 0, min_y: 0, max_x: 0, max_y: 0 }
}

#[test]
fn release_position_does_not_import_zero_pressure_footprint() {
    let last_contact_point = StrokePoint {
        position: vector(10.0, 20.0),
        half_width: scalar(4.5),
        aspect_ratio: scalar(1.8),
        flow: scalar(0.73),
        orientation: vector(0.6, 0.8),
        twist_radians: scalar(0.4),
    };
    let released = release_tip_point(vector(12.0, 23.0), last_contact_point);

    assert_eq!(released.position, vector(12.0, 23.0));
    assert_eq!(released.half_width, last_contact_point.half_width);
    assert_eq!(released.aspect_ratio, last_contact_point.aspect_ratio);
    assert_eq!(released.flow, last_contact_point.flow);
    assert_eq!(released.orientation, last_contact_point.orientation);
    assert_eq!(released.twist_radians, last_contact_point.twist_radians);
}

#[test]
fn curves_run_from_midpoint_to_midpoint_and_end_at_the_tip() {
    let mut resampler = StrokePointResampler::new(point(0.0));
    let first = resampler.push(point(4.0), point(2.0)).unwrap();
    assert_eq!(first, Curve { start: point(0.0), control: point(0.0), end: point(2.0) });
    let second = resampler.push(point(8.0), point(6.0)).unwrap();
    assert_eq!(second, Curve { start: point(2.0), control: point(4.0), end: point(6.0) });
    assert_eq!(resampler.latest_input(), point(8.0));
    let tail = resampler.finish().unwrap();
    assert_eq!(tail, Curve { start: point(6.0), control: point(8.0), end: point(8.0) });
    assert!(resampler.finish().is_none());
}

#[test]
fn a_resting_pen_draws_no_curve() {
    let mut resampler = StrokePointResampler::new(point(3.0));
    assert!(resampler.push(point(3.0), point(3.0)).is_none());
    assert!(resampler.finish().is_none());
}

#[test]
fn the_eraser_draws_with_its_own_profile() {
    let settings = StrokeRendererSettings::default();
    assert_eq!(profile_for_tool(&settings, true), settings.eraser);
    assert_eq!(profile_for_tool(&settings, false), settings.pen);
}

#[test]
fn chrome_blocks_points_inside_its_regions() {
    let mut blocker = StrokeInputBlocker::default();
    assert!(!blocker.blocks(vector(1.0, 1.0)));
    blocker.set_regions(vec![Bounds { min: vector(0.0, 0.0), max: vector(10.0, 5.0) }]);
    assert!(blocker.blocks(vector(1.0, 1.0)));
    assert!(blocker.blocks(vector(10.0, 5.0)));
    assert!(!blocker.blocks(vector(10.5, 5.0)));
    assert!(!blocker.blocks(vector(f32::NAN, 1.0)));
    blocker.set_regions(Vec::new());
    assert!(!blocker.blocks(vector(1.0, 1.0)));
}

#[test]
fn a_press_a_move_and_a_release_draw_one_stroke() {
    let mut contacts = PenContacts::new();
    let pressed = contacts.respond(PenEvent::Pressed, 9, 1, false, sample(0.0, 0.0));
    assert_eq!(pressed.begin, Some(point(0.0)));
    assert!(pressed.finish.is_none());
    contacts.began(9, StrokeId(5), 1, point(0.0));

    let moved = contacts.respond(PenEvent::Moved, 9, 1, false, sample(0.0, 4.0));
    assert_eq!(
        moved.extend,
        Some((
            StrokeId(5),
            Curve { start: point(0.0), control: point(0.0), end: point(2.0) }
        ))
    );

    let released = contacts.respond(PenEvent::Released, 9, 1, false, sample(4.0, 6.0));
    assert_eq!(
        released.extend,
        Some((
            StrokeId(5),
            Curve { start: point(2.0), control: point(4.0), end: point(5.0) }
        ))
    );
    assert_eq!(
        released.finish,
        Some(PenFinish {
            stroke: StrokeId(5),
            tail: Some(Curve { start: point(5.0), control: point(6.0), end: point(6.0) }),
        })
    );
    assert!(contacts.contact(9).is_none());
}

#[test]
fn moving_over_chrome_finishes_the_stroke() {
    let mut contacts = PenContacts::default();
    contacts.began(2, StrokeId(0), 1, point(0.0));
    let blocked = contacts.respond(PenEvent::Moved, 2, 1, true, sample(0.0, 9.0));
    assert_eq!(blocked.finish, Some(PenFinish { stroke: StrokeId(0), tail: None }));
    assert!(blocked.extend.is_none());
    let pressed = contacts.respond(PenEvent::Pressed, 2, 1, true, sample(0.0, 9.0));
    assert!(pressed.begin.is_none());
    assert!(pressed.finish.is_none());
}

#[test]
fn contacts_of_a_replaced_document_begin_anew() {
    let mut contacts = PenContacts::new();
    contacts.began(2, StrokeId(0), 1, point(0.0));
    let moved = contacts.respond(PenEvent::Moved, 2, 8, false, sample(0.0, 3.0));
    assert_eq!(moved.begin, Some(point(3.0)));
    assert!(moved.extend.is_none());
    let left = contacts.respond(PenEvent::Left, 2, 8, false, None);
    assert!(left.finish.is_none());
    assert!(contacts.contact(2).is_none());
}

#[test]
fn other_reports_change_nothing() {
    let mut contacts = PenContacts::new();
    contacts.began(2, StrokeId(0), 1, point(0.0));
    let plan = contacts.respond(PenEvent::Other, 2, 1, false, None);
    assert!(plan.extend.is_none() && plan.finish.is_none() && plan.begin.is_none());
    assert!(contacts.contact(2).is_some());
    let stranger = contacts.respond(PenEvent::Moved, 3, 1, false, sample(0.0, 3.0));
    assert!(stranger.begin.is_none());
}

#[test]
fn smoothed_points_reach_the_document_in_order() {
    let mut document = StrokeDocument::default();
    let mut batch = StrokeDeltaBatch::default();
    batch.begin_frame();
    let pen = StrokeRendererSettings::default().pen;
    let stroke = begin_contact(&mut document, &mut batch, step(0.0), pen);
    append_samples(
        &mut document,
        &mut batch,
        stroke,
        &vec![step(1.0), step(1.0), step(2.0)],
    );
    let coverage =
        StrokeCoverage { affected: tile(), segments: vec![tile(), tile(), tile()] };
    end_contact(&mut document, &mut batch, stroke, &coverage);
    end_contact(&mut document, &mut batch, stroke, &coverage);
    assert_eq!(
        batch.deltas(),
        &vec![
            StrokeDelta::Begin { stroke, point: 0, segment: 0 },
            StrokeDelta::Append { stroke, point: 1, segment: 1 },
            StrokeDelta::Append { stroke, point: 2, segment: 2 },
            StrokeDelta::End { stroke },
        ]
    );
    assert_eq!(document.points().len(), 3);
}

#[test]
fn ages_are_measured_from_the_first_and_the_latest_sample() {
    let mut clock = SampleClock::new();
    assert!(clock.ages(10).is_none());
    clock.begin_batch();
    clock.sample(100);
    clock.sample(140);
    assert_eq!(clock.ages(200), Some((100, 60)));
}

#[test]
fn clearing_the_document_counts_as_a_sample() {
    let mut clock = SampleClock::new();
    clock.begin_batch();
    clock.sample(100);
    clock.document_cleared(160);
    assert_eq!(clock.ages(200), Some((40, 40)));
}

#[test]
fn resampler_builds_midpoint_curves_and_finishes_at_the_exact_tip() {
    let first = StrokePoint { half_width: scalar(100.0), ..point(0.0) };
    let mut resampler = StrokePointResampler::new(first);
    let mut output: Vec<StrokePoint> = Vec::new();

    // The brush is so wide that each curve is sampled at its end alone.
    for x in [2.0f32, 4.0] {
        let next = StrokePoint { position: vector(x, 2.0), ..first };
        let latest = f32::from_bits(resampler.latest_input().position.x.bits);
        let midpoint = StrokePoint { position: vector((latest + x) / 2.0, 2.0), ..first };
        output.push(resampler.push(next, midpoint).unwrap().end);
    }

    assert_eq!(output.len(), 2);
    assert_eq!(output[0].position.x, scalar(1.0));
    assert_eq!(output[1].position.x, scalar(3.0));
    let tail = resampler.finish();
    assert!(tail.is_some());
    assert_eq!(tail.unwrap().end.position.x, scalar(4.0));
}
