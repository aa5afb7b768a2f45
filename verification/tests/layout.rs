use waterui_visualizer::{
    CaptureActivation, SampleRing, SplineStep, after, before, catmull_rom_plan, column_count,
    column_span,
};

#[test]
fn columns_follow_the_pixel_width_within_the_window() {
    assert_eq!(column_count(0, 100), 0);
    assert_eq!(column_count(64, 1), 0);
    assert_eq!(column_count(1, 100), 2);
    assert_eq!(column_count(64, 256), 64);
    assert_eq!(column_count(500, 128), 128);
}

#[test]
fn column_spans_cover_the_window_in_order() {
    let spans: Vec<(usize, usize)> = (0..3).map(|column| column_span(10, 3, column)).collect();
    assert_eq!(spans, vec![(0, 3), (3, 6), (6, 10)]);
    for column in 0..64 {
        assert_eq!(column_span(256, 64, column), (column * 4, column * 4 + 4));
    }
}

#[test]
fn a_column_span_is_never_empty() {
    assert_eq!(column_span(2, 5, 3), (1, 2));
}

#[test]
fn the_ring_reads_oldest_first() {
    let mut ring = SampleRing::new(4, 0.0_f32);
    assert_eq!(ring.len(), 4);
    ring.extend(&[1.0, 2.0, 3.0]);
    assert_eq!(ring.window(), vec![0.0, 1.0, 2.0, 3.0]);
    ring.extend(&[4.0, 5.0, 6.0, 7.0, 8.0, 9.0]);
    assert_eq!(ring.window(), vec![6.0, 7.0, 8.0, 9.0]);
    ring.push(10.0);
    assert_eq!(ring.window(), vec![7.0, 8.0, 9.0, 10.0]);
}

#[test]
fn the_ring_ignores_how_the_signal_was_cut() {
    let signal: Vec<i32> = (1..=11).collect();
    let mut whole = SampleRing::new(5, 0);
    whole.extend(&signal);
    let mut pieces = SampleRing::new(5, 0);
    for chunk in signal.chunks(3) {
        pieces.extend(chunk);
    }
    assert_eq!(whole.window(), pieces.window());
    assert_eq!(whole.window(), vec![7, 8, 9, 10, 11]);
}

#[test]
fn too_few_knots_plan_nothing() {
    assert!(catmull_rom_plan(0, false).is_empty());
    assert!(catmull_rom_plan(1, true).is_empty());
}

#[test]
fn an_open_spline_is_a_move_and_curves() {
    assert_eq!(
        catmull_rom_plan(3, false),
        vec![
            SplineStep::MoveTo(0),
            SplineStep::CurveTo { start: 0, end: 1 },
            SplineStep::CurveTo { start: 1, end: 2 },
        ]
    );
}

#[test]
fn a_closed_spline_wraps_and_closes() {
    assert_eq!(
        catmull_rom_plan(3, true),
        vec![
            SplineStep::MoveTo(0),
            SplineStep::CurveTo { start: 0, end: 1 },
            SplineStep::CurveTo { start: 1, end: 2 },
            SplineStep::CurveTo { start: 2, end: 0 },
            SplineStep::Close,
        ]
    );
}

#[test]
fn neighbouring_knots_clamp_or_wrap() {
    let points = [10, 11, 12, 13];
    assert_eq!(before(&points, 0, false), 10);
    assert_eq!(before(&points, 0, true), 13);
    assert_eq!(before(&points, 2, false), 11);
    assert_eq!(after(&points, 2, false), 13);
    assert_eq!(after(&points, 2, true), 10);
    assert_eq!(after(&points, 3, true), 11);
}

#[test]
fn only_the_first_activation_starts_a_recorder() {
    let mut latch = CaptureActivation::new();
    assert!(!latch.is_active());
    assert!(latch.activate());
    assert!(latch.is_active());
    assert!(!latch.activate());
    assert!(!latch.activate());
}
