use race_frames::pipeline::{run_pipeline, PipelineError};
use race_frames::tables::{AbbrevTable, Dataset};
use race_frames::window::Window;

/// Jump flags of an x-position sequence, with the 10-unit change threshold.
fn jumps_of(xs: &[f64]) -> Vec<bool> {
    (0..xs.len() - 1).map(|i| (xs[i + 1] - xs[i]).abs() >= 10.0).collect()
}

/// A series whose x-positions are flat for 150 samples, move for 300, and
/// are flat again for 150.
fn staged_series(base: f64) -> Vec<(f64, f64)> {
    let mut s = vec![(0.0, 0.0); 150];
    for i in 0..300 {
        s.push((base + (i as f64) * 0.5, base - (i as f64) * 0.5));
    }
    s.extend(vec![(0.0, 0.0); 150]);
    s
}

fn session() -> (Dataset<(f64, f64)>, AbbrevTable) {
    let mut data: Dataset<(f64, f64)> = Dataset::new();
    data.push("44".to_string(), staged_series(50.0));
    data.push("1".to_string(), staged_series(70.0));
    let mut abv = AbbrevTable::new();
    abv.push("HAM".to_string(), "44".to_string());
    abv.push("VER".to_string(), "1".to_string());
    (data, abv)
}

#[test]
fn pipeline_trims_assembles_and_decimates() {
    let (data, abv) = session();
    let winner = "HAM".to_string();
    let id = abv.get(&winner).unwrap();
    let xs: Vec<f64> = data.get(id).unwrap().iter().map(|&(x, _)| x).collect();
    let out = run_pipeline(&data, &abv, &winner, &jumps_of(&xs)).unwrap();
    assert_eq!(out.window, Window { start: 150, end: 450 });
    assert_eq!(out.table.pos.len(), 600);
    assert_eq!(out.table.driver[0], "HAM");
    assert_eq!(out.table.driver[599], "VER");
    assert_eq!(out.table.frame[0], 0);
    assert_eq!(out.table.frame[299], 299);
    assert_eq!(out.table.frame[300], 0);
    let expected: Vec<i32> = (0..300).filter(|v| v % 10 == 0).collect();
    assert_eq!(out.frames, expected);
}

#[test]
fn pipeline_rejects_unknown_winner() {
    let (data, abv) = session();
    let xs = vec![0.0; 600];
    let r = run_pipeline(&data, &abv, &"ALO".to_string(), &jumps_of(&xs));
    assert_eq!(r.err(), Some(PipelineError::MissingReferenceDriver));
}

#[test]
fn pipeline_rejects_degenerate_reference_series() {
    let mut data: Dataset<(f64, f64)> = Dataset::new();
    data.push("44".to_string(), vec![(3.0, 4.0)]);
    let mut abv = AbbrevTable::new();
    abv.push("HAM".to_string(), "44".to_string());
    let r = run_pipeline(&data, &abv, &"HAM".to_string(), &Vec::new());
    assert_eq!(r.err(), Some(PipelineError::DegenerateSeries));
}

#[test]
fn pipeline_rejects_coinciding_boundaries() {
    let mut xs = vec![0.0; 150];
    xs.extend(vec![50.0; 150]);
    let mut data: Dataset<(f64, f64)> = Dataset::new();
    data.push("44".to_string(), xs.iter().map(|&x| (x, 0.0)).collect());
    let mut abv = AbbrevTable::new();
    abv.push("HAM".to_string(), "44".to_string());
    let r = run_pipeline(&data, &abv, &"HAM".to_string(), &jumps_of(&xs));
    assert_eq!(r.err(), Some(PipelineError::EmptyWindow));
}

#[test]
fn table_lookups_return_first_match_in_order() {
    let (data, abv) = session();
    assert_eq!(abv.get(&"HAM".to_string()), Some(&"44".to_string()));
    assert_eq!(abv.get(&"VER".to_string()), Some(&"1".to_string()));
    assert_eq!(abv.get(&"ALO".to_string()), None);
    assert_eq!(abv.len(), 2);
    assert!(data.get(&"44".to_string()).is_some());
    assert!(data.get(&"7".to_string()).is_none());
    assert_eq!(data.len(), 2);
}

#[test]
fn well_formedness_check_spots_duplicate_codes() {
    let (_, mut abv) = session();
    assert!(abv.is_wf());
    abv.push("HAM".to_string(), "63".to_string());
    assert!(!abv.is_wf());
}
