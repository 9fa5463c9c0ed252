use race_frames::pipeline::{trim_lap_data, PipelineError};
use race_frames::tables::{AbbrevTable, Dataset};
use race_frames::window::{detect_window, Window, MIN_FLAT};

/// Jump flags of an x-position sequence: flag `i` is set when the position
/// moves by at least 10 units between samples `i` and `i + 1`.
fn jumps_of(xs: &[f64]) -> Vec<bool> {
    let mut flags = Vec::new();
    for i in 0..xs.len() - 1 {
        flags.push((xs[i + 1] - xs[i]).abs() >= 10.0);
    }
    flags
}

/// An x-sequence with `lead` flat samples, `active` moving samples around
/// 50, and `tail` flat samples.
fn staged_xs(lead: usize, active: usize, tail: usize) -> Vec<f64> {
    let mut xs = vec![0.0; lead];
    for i in 0..active {
        xs.push(50.0 + (i as f64) * 0.5);
    }
    xs.extend(vec![0.0; tail]);
    xs
}

#[test]
fn min_flat_is_one_hundred() {
    assert_eq!(MIN_FLAT, 100);
}

#[test]
fn short_flat_runs_leave_series_untrimmed() {
    // Three leading zeros, a jump of 50 at index 3, and two trailing zeros:
    // both flat runs are shorter than MIN_FLAT, so nothing is trimmed.
    let xs = staged_xs(3, 50, 2);
    let w = detect_window(&jumps_of(&xs));
    assert_eq!(w, Window { start: 0, end: xs.len() });
}

#[test]
fn long_flat_runs_are_trimmed() {
    // 150 leading and trailing flat samples qualify for trimming: the
    // window moves to the first and last change indices.
    let xs = staged_xs(150, 300, 150);
    assert_eq!(xs.len(), 600);
    let w = detect_window(&jumps_of(&xs));
    assert_eq!(w, Window { start: 150, end: 450 });
}

#[test]
fn long_lead_short_tail_trims_only_start() {
    let xs = staged_xs(120, 300, 50);
    let w = detect_window(&jumps_of(&xs));
    assert_eq!(w, Window { start: 120, end: xs.len() });
}

#[test]
fn short_lead_long_tail_trims_only_end() {
    let xs = staged_xs(50, 300, 120);
    let w = detect_window(&jumps_of(&xs));
    assert_eq!(w, Window { start: 0, end: 350 });
}

#[test]
fn constant_series_has_no_change_indices() {
    let xs = vec![7.25; 400];
    let w = detect_window(&jumps_of(&xs));
    assert_eq!(w, Window { start: 0, end: 400 });
}

#[test]
fn changes_below_threshold_do_not_count() {
    // Steps of 9.99 stay below the change threshold of 10 units.
    let mut xs = Vec::new();
    for i in 0..300 {
        xs.push((i as f64) * 9.99);
    }
    let w = detect_window(&jumps_of(&xs));
    assert_eq!(w, Window { start: 0, end: 300 });
}

fn single_driver_session(xs: &[f64]) -> (Dataset<(f64, f64)>, AbbrevTable) {
    let mut data: Dataset<(f64, f64)> = Dataset::new();
    let series: Vec<(f64, f64)> = xs.iter().map(|&x| (x, 0.0)).collect();
    data.push("44".to_string(), series);
    let mut abv = AbbrevTable::new();
    abv.push("HAM".to_string(), "44".to_string());
    (data, abv)
}

#[test]
fn trim_resolves_winner_and_detects_window() {
    let xs = staged_xs(150, 300, 150);
    let (data, abv) = single_driver_session(&xs);
    let r = trim_lap_data(&data, &abv, &"HAM".to_string(), &jumps_of(&xs));
    assert_eq!(r, Ok(Window { start: 150, end: 450 }));
}

#[test]
fn unknown_winner_code_is_missing_reference_driver() {
    let xs = staged_xs(3, 50, 2);
    let (data, abv) = single_driver_session(&xs);
    let r = trim_lap_data(&data, &abv, &"VER".to_string(), &jumps_of(&xs));
    assert_eq!(r, Err(PipelineError::MissingReferenceDriver));
}

#[test]
fn winner_without_series_is_missing_reference_driver() {
    let xs = staged_xs(3, 50, 2);
    let (data, mut abv) = single_driver_session(&xs);
    abv.push("VER".to_string(), "1".to_string());
    let r = trim_lap_data(&data, &abv, &"VER".to_string(), &jumps_of(&xs));
    assert_eq!(r, Err(PipelineError::MissingReferenceDriver));
}

#[test]
fn one_sample_series_is_degenerate() {
    let xs = [5.0];
    let (data, abv) = single_driver_session(&xs);
    let r = trim_lap_data(&data, &abv, &"HAM".to_string(), &jumps_of(&xs));
    assert_eq!(r, Err(PipelineError::DegenerateSeries));
}

#[test]
fn empty_series_is_degenerate() {
    let (data, abv) = single_driver_session(&[]);
    let r = trim_lap_data(&data, &abv, &"HAM".to_string(), &Vec::new());
    assert_eq!(r, Err(PipelineError::DegenerateSeries));
}

#[test]
fn single_mid_series_change_gives_empty_window() {
    // One change index at 150, with at least MIN_FLAT samples on both
    // sides: start and end coincide there, which is rejected.
    let mut xs = vec![0.0; 150];
    xs.extend(vec![50.0; 150]);
    let (data, abv) = single_driver_session(&xs);
    let r = trim_lap_data(&data, &abv, &"HAM".to_string(), &jumps_of(&xs));
    assert_eq!(r, Err(PipelineError::EmptyWindow));
}
