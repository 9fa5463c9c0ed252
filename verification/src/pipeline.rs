//! The trim-and-assemble pipeline.
//!
//! The session winner is the reference driver: their code resolves through
//! the abbreviation table to an identifier, and the identifier to a series
//! in the dataset.  The jump flags of that series drive the lap-window
//! detector; the window drives the frame-table assembler; the table yields
//! the animation frame list.  Rotating the assembled coordinates into the
//! track-aligned frame is numeric work the caller performs on the finished
//! table (see `replace_positions`), so it has no step here.

use vstd::prelude::*;
use crate::frame_table::{
    build_frame_dataframe, count_present, get_frame_values, spec_driver_col, spec_frame_col,
    spec_pos_col, FrameTable, FRAME_STEP,
};
use crate::tables::{assoc_get, AbbrevTable, Dataset};
use crate::window::{
    detect_window, has_jump, lemma_window_containment, spec_window_end, spec_window_start, Window,
};

verus! {

/// A fatal condition that aborts the pipeline: no partial artifact is
/// produced.
#[derive(Clone, Copy, Debug, PartialEq, Eq, Structural)]
pub enum PipelineError {
    /// The winner code has no entry in the abbreviation table, or the
    /// resolved identifier has no series in the dataset.
    MissingReferenceDriver,
    /// The reference series has fewer than two samples, so boundary
    /// detection is undefined.
    DegenerateSeries,
    /// The detected boundaries coincide, which signals corrupt input.
    EmptyWindow,
}

/// Series of the reference driver: the winner code resolved through the
/// abbreviation table, then through the dataset.
pub open spec fn spec_resolve<T>(
    abv: Seq<(Seq<char>, Seq<char>)>,
    data: Seq<(Seq<char>, Seq<T>)>,
    winner: Seq<char>,
) -> Option<Seq<T>> {
    match assoc_get(abv, winner) {
        Some(id) => assoc_get(data, id),
        None => None,
    }
}

/// Looks the reference driver's series up.
pub fn resolve_reference<'a, T>(
    data: &'a Dataset<T>,
    abv: &AbbrevTable,
    winner_abv: &String,
) -> (r: Option<&'a Vec<T>>)
    ensures
        match r {
            Some(series) => spec_resolve(abv@, data@, winner_abv@) == Some(series@),
            None => spec_resolve(abv@, data@, winner_abv@) is None,
        },
{
    match abv.get(winner_abv) {
        Some(id) => data.get(id),
        None => None,
    }
}

/// Detects the shared sample window from the reference driver's series.
/// `jumps` are the series' jump flags: flag `i` says whether the x-position
/// moves by at least the change threshold between samples `i` and `i + 1`.
/// Fails when the winner cannot be resolved, when the series is too short
/// for boundary detection, or when the boundaries coincide.
pub fn trim_lap_data<T>(
    data: &Dataset<T>,
    abv: &AbbrevTable,
    winner_abv: &String,
    jumps: &Vec<bool>,
) -> (r: Result<Window, PipelineError>)
    requires
        match spec_resolve(abv@, data@, winner_abv@) {
            Some(series) => series.len() >= 2 ==> jumps@.len() == series.len() - 1,
            None => true,
        },
    ensures
        match spec_resolve(abv@, data@, winner_abv@) {
            None => r == Err::<Window, PipelineError>(PipelineError::MissingReferenceDriver),
            Some(series) => if series.len() < 2 {
                r == Err::<Window, PipelineError>(PipelineError::DegenerateSeries)
            } else if spec_window_start(jumps@) == spec_window_end(jumps@) {
                r == Err::<Window, PipelineError>(PipelineError::EmptyWindow)
            } else {
                r matches Ok(w) && w.start == spec_window_start(jumps@) && w.end
                    == spec_window_end(jumps@) && w.wf(series.len() as int)
            },
        },
{
    let series = match resolve_reference(data, abv, winner_abv) {
        Some(series) => series,
        None => { return Err(PipelineError::MissingReferenceDriver) },
    };
    if series.len() < 2 {
        return Err(PipelineError::DegenerateSeries);
    }
    let w = detect_window(jumps);
    proof {
        lemma_window_containment(jumps@);
    }
    if w.start >= w.end {
        return Err(PipelineError::EmptyWindow);
    }
    Ok(w)
}

/// Everything the pipeline computes; the rendering collaborator receives
/// it unchanged (after the caller rotates the coordinates).
pub struct PipelineOutput<T> {
    /// Shared trimmed sample range of the session.
    pub window: Window,
    /// Long-format table of every present driver's windowed block.
    pub table: FrameTable<T>,
    /// Ascending animation keyframes drawn from the table's frame column.
    pub frames: Vec<i32>,
}

/// Runs detector and assembler in order: the window from the reference
/// driver's jump flags, then the frame table and the animation frame list.
pub fn run_pipeline<T: Copy>(
    data: &Dataset<T>,
    abv: &AbbrevTable,
    winner_abv: &String,
    jumps: &Vec<bool>,
) -> (r: Result<PipelineOutput<T>, PipelineError>)
    requires
        match spec_resolve(abv@, data@, winner_abv@) {
            Some(series) => series.len() >= 2 ==> jumps@.len() == series.len() - 1,
            None => true,
        },
        jumps@.len() < i32::MAX,
        forall|i: int|
            0 <= i < abv@.len() ==> match assoc_get(data@, (#[trigger] abv@[i]).1) {
                Some(series) => series.len() >= spec_window_end(jumps@),
                None => true,
            },
    ensures
        match spec_resolve(abv@, data@, winner_abv@) {
            None => r == Err::<PipelineOutput<T>, PipelineError>(
                PipelineError::MissingReferenceDriver,
            ),
            Some(series) => if series.len() < 2 {
                r == Err::<PipelineOutput<T>, PipelineError>(PipelineError::DegenerateSeries)
            } else if spec_window_start(jumps@) == spec_window_end(jumps@) {
                r == Err::<PipelineOutput<T>, PipelineError>(PipelineError::EmptyWindow)
            } else {
                r matches Ok(out) && {
                    let start = spec_window_start(jumps@);
                    let end = spec_window_end(jumps@);
                    &&& out.window == (Window { start: start as usize, end: end as usize })
                    &&& out.window.wf(series.len() as int)
                    &&& out.table.wf()
                    &&& out.table.pos@ == spec_pos_col(abv@, data@, start, end)
                    &&& out.table.driver.deep_view() == spec_driver_col(abv@, data@, end - start)
                    &&& out.table.frame@ == spec_frame_col(abv@, data@, end - start)
                    &&& out.table.spec_len() == count_present(abv@, data@) * (end - start)
                    &&& (forall|p: int, q: int|
                        0 <= p < q < out.frames@.len() ==> out.frames@[p] < out.frames@[q])
                    &&& (forall|x: i32|
                        out.frames@.contains(x) <==> out.table.frame@.contains(x) && x as int % (
                        FRAME_STEP as int) == 0)
                }
            },
        },
{
    let w = match trim_lap_data(data, abv, winner_abv, jumps) {
        Ok(w) => w,
        Err(e) => { return Err(e) },
    };
    let table = build_frame_dataframe(data, abv, w.start, w.end);
    let frames = get_frame_values(&table);
    Ok(PipelineOutput { window: w, table, frames })
}

} // verus!
