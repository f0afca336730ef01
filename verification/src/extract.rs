use vstd::prelude::*;

use crate::record::{Record, RecordKind, RecordV, record_span_path};
use crate::span_path::SpanPath;
use crate::strings::str_eq;
use crate::timing::{
    abs_diff_ns, combined, zero_stats, AccumulatedStepTimings, AccumulatedTimingSeries,
    AccumulatedTimings, DirectStats, TimingAccumulator, TimingError,
};

verus! {

/// The scan state while one step span is being accumulated.
pub struct StepScanV {
    pub path: Seq<Seq<char>>,
    pub step_index: u64,
    pub completed: Map<Seq<Seq<char>>, DirectStats>,
    pub open: Map<Seq<Seq<char>>, i64>,
}

/// One emitted step bucket.
pub struct StepBucketV {
    pub stats: Map<Seq<Seq<char>>, DirectStats>,
    pub step_index: u64,
}

/// The state of the scanning state machine after some prefix of the record
/// stream has been consumed.
pub enum ExtractV {
    /// Still looking for the enter record of the top-level `run` span.
    Seeking,
    /// Inside the `run` span; `step` is the state of a step span still being
    /// scanned, if one is.
    Running {
        thread: Seq<char>,
        path: Seq<Seq<char>>,
        completed: Map<Seq<Seq<char>>, DirectStats>,
        open: Map<Seq<Seq<char>>, i64>,
        steps: Seq<StepBucketV>,
        step: Option<StepScanV>,
    },
    /// The `run` span was exited.
    Done { steps: Seq<StepBucketV>, intransient: Map<Seq<Seq<char>>, DirectStats> },
    /// A fatal error was hit; the whole extraction reports it.
    Failed { error: TimingError },
}

/// Whether a record names a span called `name` under the well-known
/// application target.
pub open spec fn names_app_span(r: RecordV, name: Seq<char>) -> bool {
    match r.span {
        Some(sp) => sp.name == name && r.target == "dynamecs_app"@,
        None => false,
    }
}

/// The completed-statistics table after an exit of path `p` of duration
/// `dur` folds into `completed`.
pub open spec fn fold_exit(
    completed: Map<Seq<Seq<char>>, DirectStats>,
    p: Seq<Seq<char>>,
    dur: u128,
) -> Map<Seq<Seq<char>>, DirectStats> {
    completed.insert(
        p,
        combined(
            if completed.contains_key(p) {
                completed[p]
            } else {
                zero_stats()
            },
            DirectStats { duration: dur, count: 1u64 },
        ),
    )
}

/// One transition of the scanning state machine on one record.
///
/// While seeking, only an enter record of the application's `run` span
/// changes anything; it opens the intransient accumulator. Inside the run,
/// records of other threads and records without a span are ignored; an enter
/// of the application's `step` span opens a nested step scan, which consumes
/// every span record until the exit of that exact step path; any other span
/// record feeds the intransient accumulator, and an exit of the `run` span
/// whose path is the run's own ends the scan. A step whose spans are all closed when it ends is emitted;
/// one with spans still open is dropped. Mismatched enters and exits, a
/// `step` span without step index and an exit record without a span fail
/// the whole extraction.
pub open spec fn ext_step(s: ExtractV, r: RecordV) -> ExtractV {
    match s {
        ExtractV::Seeking => {
            if names_app_span(r, "run"@) && r.kind == RecordKind::SpanEnter {
                ExtractV::Running {
                    thread: r.thread_id,
                    path: record_span_path(r)->0,
                    completed: Map::empty(),
                    open: Map::empty().insert(record_span_path(r)->0, r.timestamp),
                    steps: Seq::empty(),
                    step: None,
                }
            } else {
                ExtractV::Seeking
            }
        },
        ExtractV::Running { thread, path, completed, open, steps, step } => {
            if r.thread_id != thread || r.span is None {
                s
            } else {
                match step {
                    None => {
                        if names_app_span(r, "step"@) && r.kind == RecordKind::SpanEnter {
                            match r.span->0.step_index {
                                Some(idx) => ExtractV::Running {
                                    thread,
                                    path,
                                    completed,
                                    open,
                                    steps,
                                    step: Some(
                                        StepScanV {
                                            path: record_span_path(r)->0,
                                            step_index: idx,
                                            completed: Map::empty(),
                                            open: Map::empty().insert(
                                                record_span_path(r)->0,
                                                r.timestamp,
                                            ),
                                        },
                                    ),
                                },
                                None => ExtractV::Failed { error: TimingError::MissingStepIndex },
                            }
                        } else if r.kind == RecordKind::SpanEnter {
                            let p = record_span_path(r)->0;
                            if open.contains_key(p) {
                                ExtractV::Failed { error: TimingError::SpanAlreadyActive }
                            } else {
                                ExtractV::Running {
                                    thread,
                                    path,
                                    completed,
                                    open: open.insert(p, r.timestamp),
                                    steps,
                                    step: None,
                                }
                            }
                        } else if r.kind == RecordKind::SpanExit {
                            match record_span_path(r) {
                                None => ExtractV::Failed {
                                    error: TimingError::NoSpanInExitRecord,
                                },
                                Some(p) => {
                                    if !open.contains_key(p) {
                                        ExtractV::Failed { error: TimingError::SpanNotActive }
                                    } else {
                                        let completed2 = fold_exit(
                                            completed,
                                            p,
                                            abs_diff_ns(r.timestamp, open[p]),
                                        );
                                        if names_app_span(r, "run"@) && p == path {
                                            ExtractV::Done { steps, intransient: completed2 }
                                        } else {
                                            ExtractV::Running {
                                                thread,
                                                path,
                                                completed: completed2,
                                                open: open.remove(p),
                                                steps,
                                                step: None,
                                            }
                                        }
                                    }
                                },
                            }
                        } else {
                            s
                        }
                    },
                    Some(sc) => {
                        if r.kind == RecordKind::SpanEnter {
                            let p = record_span_path(r)->0;
                            if sc.open.contains_key(p) {
                                ExtractV::Failed { error: TimingError::SpanAlreadyActive }
                            } else {
                                ExtractV::Running {
                                    thread,
                                    path,
                                    completed,
                                    open,
                                    steps,
                                    step: Some(
                                        StepScanV {
                                            open: sc.open.insert(p, r.timestamp),
                                            ..sc
                                        },
                                    ),
                                }
                            }
                        } else if r.kind == RecordKind::SpanExit {
                            match record_span_path(r) {
                                None => ExtractV::Failed {
                                    error: TimingError::NoSpanInExitRecord,
                                },
                                Some(p) => {
                                    if !sc.open.contains_key(p) {
                                        ExtractV::Failed { error: TimingError::SpanNotActive }
                                    } else {
                                        let sc2 = StepScanV {
                                            completed: fold_exit(
                                                sc.completed,
                                                p,
                                                abs_diff_ns(r.timestamp, sc.open[p]),
                                            ),
                                            open: sc.open.remove(p),
                                            ..sc
                                        };
                                        if names_app_span(r, "step"@) && p == sc.path {
                                            ExtractV::Running {
                                                thread,
                                                path,
                                                completed,
                                                open,
                                                steps: if sc2.open == Map::<
                                                    Seq<Seq<char>>,
                                                    i64,
                                                >::empty() {
                                                    steps.push(
                                                        StepBucketV {
                                                            stats: sc2.completed,
                                                            step_index: sc2.step_index,
                                                        },
                                                    )
                                                } else {
                                                    steps
                                                },
                                                step: None,
                                            }
                                        } else {
                                            ExtractV::Running {
                                                thread,
                                                path,
                                                completed,
                                                open,
                                                steps,
                                                step: Some(sc2),
                                            }
                                        }
                                    }
                                },
                            }
                        } else {
                            s
                        }
                    },
                }
            }
        },
        ExtractV::Done { .. } => s,
        ExtractV::Failed { .. } => s,
    }
}

/// The state after scanning a whole record stream from the start.
pub open spec fn scan_records(rs: Seq<RecordV>) -> ExtractV {
    rs.fold_left(ExtractV::Seeking, |s: ExtractV, r: RecordV| ext_step(s, r))
}

/// The extracted series: one bucket per emitted step and the intransient
/// bucket.
pub struct SeriesV {
    pub steps: Seq<StepBucketV>,
    pub intransient: Map<Seq<Seq<char>>, DirectStats>,
}

/// What a finished scan reports: an error where one was hit or no `run` span
/// was ever entered; otherwise the emitted steps and intransient statistics,
/// with a final still-open step emitted only if all of its spans closed.
pub open spec fn series_of(s: ExtractV) -> Result<SeriesV, TimingError> {
    match s {
        ExtractV::Seeking => Err(TimingError::RunSpanNotFound),
        ExtractV::Failed { error } => Err(error),
        ExtractV::Done { steps, intransient } => Ok(SeriesV { steps, intransient }),
        ExtractV::Running { completed, steps, step, .. } => Ok(
            SeriesV {
                steps: match step {
                    Some(sc) => {
                        if sc.open == Map::<Seq<Seq<char>>, i64>::empty() {
                            steps.push(StepBucketV { stats: sc.completed, step_index: sc.step_index })
                        } else {
                            steps
                        }
                    },
                    None => steps,
                },
                intransient: completed,
            },
        ),
    }
}

/// What extraction reports for a record stream.
pub open spec fn extract_spec(rs: Seq<RecordV>) -> Result<SeriesV, TimingError> {
    series_of(scan_records(rs))
}

struct StepScan {
    path: SpanPath,
    step_index: u64,
    acc: TimingAccumulator,
}

struct RunScan {
    thread: String,
    run_path: SpanPath,
    intransient: TimingAccumulator,
    steps: Vec<AccumulatedStepTimings>,
    step: Option<StepScan>,
}

enum ScanState {
    Seeking,
    Running(RunScan),
    Done { steps: Vec<AccumulatedStepTimings>, intransient: AccumulatedTimings },
    Failed(TimingError),
}

impl ScanState {
    spec fn wf(&self) -> bool {
        match self {
            ScanState::Running(run) => {
                &&& run.intransient.wf()
                &&& forall|i: int|
                    0 <= i < run.steps@.len() ==> (#[trigger] run.steps@[i]).timings.wf()
                &&& match run.step {
                    Some(sc) => sc.acc.wf(),
                    None => true,
                }
            },
            ScanState::Done { steps, intransient } => {
                &&& intransient.wf()
                &&& forall|i: int| 0 <= i < steps@.len() ==> (#[trigger] steps@[i]).timings.wf()
            },
            _ => true,
        }
    }

    spec fn view_spec(&self) -> ExtractV {
        match self {
            ScanState::Seeking => ExtractV::Seeking,
            ScanState::Running(run) => ExtractV::Running {
                thread: run.thread@,
                path: run.run_path@,
                completed: run.intransient.completed_view(),
                open: run.intransient.open_view(),
                steps: run.steps@.map_values(
                    |s: AccumulatedStepTimings| StepBucketV {
                        stats: s.timings.stats_view(),
                        step_index: s.step_index,
                    },
                ),
                step: match run.step {
                    Some(sc) => Some(
                        StepScanV {
                            path: sc.path@,
                            step_index: sc.step_index,
                            completed: sc.acc.completed_view(),
                            open: sc.acc.open_view(),
                        },
                    ),
                    None => None,
                },
            },
            ScanState::Done { steps, intransient } => ExtractV::Done {
                steps: steps@.map_values(
                    |s: AccumulatedStepTimings| StepBucketV {
                        stats: s.timings.stats_view(),
                        step_index: s.step_index,
                    },
                ),
                intransient: intransient.stats_view(),
            },
            ScanState::Failed(e) => ExtractV::Failed { error: *e },
        }
    }
}

/// Feeds one record into the scan.
fn scan_one(state: ScanState, record: &Record) -> (r: ScanState)
    requires
        state.wf(),
    ensures
        r.wf(),
        r.view_spec() == ext_step(state.view_spec(), record@),
{
    let ghost pre = state.view_spec();
    match state {
        ScanState::Seeking => {
            let is_run_enter = match record.span() {
                Some(span) => str_eq(span.name(), "run") && str_eq(record.target(), "dynamecs_app")
                    && record.kind() == RecordKind::SpanEnter,
                None => false,
            };
            if is_run_enter {
                let mut intransient = TimingAccumulator::new();
                let path = match record.create_span_path() {
                    Ok(p) => p,
                    Err(_) => {
                        proof {
                            assert(false);
                        }
                        return ScanState::Failed(TimingError::NoSpanInExitRecord);
                    },
                };
                let run_path = path.clone();
                let enter_result = intransient.enter_span(path, record.timestamp());
                proof {
                    assert(enter_result is Ok);
                }
                let thread = String::from_str(record.thread_id());
                let steps_vec: Vec<AccumulatedStepTimings> = Vec::new();
                proof {
                    assert(steps_vec@.map_values(
                        |s: AccumulatedStepTimings| StepBucketV {
                            stats: s.timings.stats_view(),
                            step_index: s.step_index,
                        },
                    ) =~= Seq::<StepBucketV>::empty());
                }
                ScanState::Running(
                    RunScan { thread, run_path, intransient, steps: steps_vec, step: None },
                )
            } else {
                ScanState::Seeking
            }
        },
        ScanState::Running(run) => scan_one_running(run, record),
        ScanState::Done { steps, intransient } => ScanState::Done { steps, intransient },
        ScanState::Failed(e) => ScanState::Failed(e),
    }
}

/// Feeds one record into a scan that stands inside the `run` span.
fn scan_one_running(run: RunScan, record: &Record) -> (r: ScanState)
    requires
        ScanState::Running(run).wf(),
    ensures
        r.wf(),
        r.view_spec() == ext_step(ScanState::Running(run).view_spec(), record@),
{
    let ghost pre = ScanState::Running(run).view_spec();
    let RunScan { thread, run_path, mut intransient, mut steps, step } = run;
    if !str_eq(record.thread_id(), thread.as_str()) {
        return ScanState::Running(RunScan { thread, run_path, intransient, steps, step });
    }
    let has_span = match record.span() {
        Some(_) => true,
        None => false,
    };
    if !has_span {
        return ScanState::Running(RunScan { thread, run_path, intransient, steps, step });
    }
    match step {
        None => {
            let is_step_enter = match record.span() {
                Some(span) => str_eq(span.name(), "step") && str_eq(
                    record.target(),
                    "dynamecs_app",
                ) && record.kind() == RecordKind::SpanEnter,
                None => false,
            };
            if is_step_enter {
                let idx = match record.span() {
                    Some(span) => match span.step_index() {
                        Some(idx) => idx,
                        None => {
                            return ScanState::Failed(TimingError::MissingStepIndex);
                        },
                    },
                    None => {
                        proof {
                            assert(false);
                        }
                        return ScanState::Failed(TimingError::MissingStepIndex);
                    },
                };
                let path = match record.create_span_path() {
                    Ok(p) => p,
                    Err(_) => {
                        proof {
                            assert(false);
                        }
                        return ScanState::Failed(TimingError::NoSpanInExitRecord);
                    },
                };
                let step_path = path.clone();
                let mut acc = TimingAccumulator::new();
                let enter_result = acc.enter_span(path, record.timestamp());
                proof {
                    assert(enter_result is Ok);
                }
                ScanState::Running(
                    RunScan {
                        thread,
                        run_path,
                        intransient,
                        steps,
                        step: Some(StepScan { path: step_path, step_index: idx, acc }),
                    },
                )
            } else if record.kind() == RecordKind::SpanEnter {
                let path = match record.create_span_path() {
                    Ok(p) => p,
                    Err(_) => {
                        proof {
                            assert(false);
                        }
                        return ScanState::Failed(TimingError::NoSpanInExitRecord);
                    },
                };
                match intransient.enter_span(path, record.timestamp()) {
                    Ok(_) => ScanState::Running(
                        RunScan { thread, run_path, intransient, steps, step: None },
                    ),
                    Err(e) => ScanState::Failed(e),
                }
            } else if record.kind() == RecordKind::SpanExit {
                let path = match record.create_span_path() {
                    Ok(p) => p,
                    Err(_) => {
                        return ScanState::Failed(TimingError::NoSpanInExitRecord);
                    },
                };
                let is_run_exit = match record.span() {
                    Some(span) => str_eq(span.name(), "run") && str_eq(
                        record.target(),
                        "dynamecs_app",
                    ) && path == run_path,
                    None => false,
                };
                match intransient.exit_span(path, record.timestamp()) {
                    Ok(_) => {
                        if is_run_exit {
                            ScanState::Done {
                                steps,
                                intransient: intransient.collect_completed_statistics(),
                            }
                        } else {
                            ScanState::Running(
                                RunScan { thread, run_path, intransient, steps, step: None },
                            )
                        }
                    },
                    Err(e) => ScanState::Failed(e),
                }
            } else {
                ScanState::Running(RunScan { thread, run_path, intransient, steps, step: None })
            }
        },
        Some(mut sc) => {
            if record.kind() == RecordKind::SpanEnter {
                let path = match record.create_span_path() {
                    Ok(p) => p,
                    Err(_) => {
                        proof {
                            assert(false);
                        }
                        return ScanState::Failed(TimingError::NoSpanInExitRecord);
                    },
                };
                match sc.acc.enter_span(path, record.timestamp()) {
                    Ok(_) => ScanState::Running(
                        RunScan { thread, run_path, intransient, steps, step: Some(sc) },
                    ),
                    Err(e) => ScanState::Failed(e),
                }
            } else if record.kind() == RecordKind::SpanExit {
                let path = match record.create_span_path() {
                    Ok(p) => p,
                    Err(_) => {
                        return ScanState::Failed(TimingError::NoSpanInExitRecord);
                    },
                };
                let is_step_path = path == sc.path;
                let is_step_exit = match record.span() {
                    Some(span) => str_eq(span.name(), "step") && str_eq(
                        record.target(),
                        "dynamecs_app",
                    ) && is_step_path,
                    None => false,
                };
                match sc.acc.exit_span(path, record.timestamp()) {
                    Ok(_) => {
                        if is_step_exit {
                            if !sc.acc.has_active_spans() {
                                let ghost old_steps_v = steps@.map_values(
                                    |s: AccumulatedStepTimings| StepBucketV {
                                        stats: s.timings.stats_view(),
                                        step_index: s.step_index,
                                    },
                                );
                                let bucket = sc.acc.collect_completed_statistics();
                                steps.push(
                                    AccumulatedStepTimings {
                                        timings: bucket,
                                        step_index: sc.step_index,
                                    },
                                );
                                proof {
                                    assert(steps@.map_values(
                                        |s: AccumulatedStepTimings| StepBucketV {
                                            stats: s.timings.stats_view(),
                                            step_index: s.step_index,
                                        },
                                    ) =~= old_steps_v.push(
                                        StepBucketV {
                                            stats: steps@.last().timings.stats_view(),
                                            step_index: sc.step_index,
                                        },
                                    ));
                                }
                                ScanState::Running(
                                    RunScan { thread, run_path, intransient, steps, step: None },
                                )
                            } else {
                                ScanState::Running(
                                    RunScan { thread, run_path, intransient, steps, step: None },
                                )
                            }
                        } else {
                            ScanState::Running(
                                RunScan { thread, run_path, intransient, steps, step: Some(sc) },
                            )
                        }
                    },
                    Err(e) => ScanState::Failed(e),
                }
            } else {
                ScanState::Running(RunScan { thread, run_path, intransient, steps, step: Some(sc) })
            }
        },
    }
}

impl AccumulatedTimingSeries {
    /// The mathematical content of the series.
    pub open spec fn series_view(&self) -> SeriesV {
        SeriesV {
            steps: self.steps_view().map_values(
                |s: AccumulatedStepTimings| StepBucketV {
                    stats: s.timings.stats_view(),
                    step_index: s.step_index,
                },
            ),
            intransient: self.intransient_view().stats_view(),
        }
    }
}

/// Scans a record stream, locates the top-level `run` span, and accumulates
/// per-step and intransient timing buckets.
pub fn extract_step_timings(records: Vec<Record>) -> (r: Result<
    AccumulatedTimingSeries,
    TimingError,
>)
    ensures
        match (r, extract_spec(records.deep_view())) {
            (Ok(series), Ok(sv)) => series.wf() && series.series_view() == sv,
            (Err(e), Err(e2)) => e == e2,
            _ => false,
        },
{
    let ghost rs = records.deep_view();
    let n = records.len();
    let mut state = ScanState::Seeking;
    let mut i: usize = 0;
    while i < n
        invariant
            n == records@.len(),
            rs == records.deep_view(),
            rs.len() == n,
            i <= n,
            state.wf(),
            state.view_spec() == scan_records(rs.subrange(0, i as int)),
        decreases n - i,
    {
        let ghost prefix = rs.subrange(0, i as int);
        state = scan_one(state, &records[i]);
        proof {
            assert(records.deep_view()[i as int] == records@[i as int]@);
            assert(rs.subrange(0, i + 1).drop_last() =~= prefix);
            assert(rs.subrange(0, i + 1).last() == rs[i as int]);
        }
        i = i + 1;
    }
    proof {
        assert(rs.subrange(0, n as int) =~= rs);
    }
    finalize_scan(state)
}

/// Turns the final scan state into the reported series.
fn finalize_scan(state: ScanState) -> (r: Result<AccumulatedTimingSeries, TimingError>)
    requires
        state.wf(),
    ensures
        match (r, series_of(state.view_spec())) {
            (Ok(series), Ok(sv)) => series.wf() && series.series_view() == sv,
            (Err(e), Err(e2)) => e == e2,
            _ => false,
        },
{
    let ghost pre = state.view_spec();
    match state {
        ScanState::Seeking => Err(TimingError::RunSpanNotFound),
        ScanState::Failed(e) => Err(e),
        ScanState::Done { steps, intransient } => {
            let series = AccumulatedTimingSeries::from_parts(steps, intransient);
            proof {
                match series_of(pre) {
                    Ok(sv) => {
                        assert(series.series_view().steps =~= sv.steps);
                    },
                    Err(_) => {},
                }
            }
            Ok(series)
        },
        ScanState::Running(run) => {
            let mut steps = run.steps;
            match run.step {
                Some(sc) => {
                    if !sc.acc.has_active_spans() {
                        let bucket = sc.acc.collect_completed_statistics();
                        steps.push(
                            AccumulatedStepTimings { timings: bucket, step_index: sc.step_index },
                        );
                        let ghost pre_steps = steps@.drop_last();
                        proof {
                            assert(steps@.map_values(
                                |s: AccumulatedStepTimings| StepBucketV {
                                    stats: s.timings.stats_view(),
                                    step_index: s.step_index,
                                },
                            ) =~= pre_steps.map_values(
                                |s: AccumulatedStepTimings| StepBucketV {
                                    stats: s.timings.stats_view(),
                                    step_index: s.step_index,
                                },
                            ).push(
                                StepBucketV {
                                    stats: steps@.last().timings.stats_view(),
                                    step_index: sc.step_index,
                                },
                            ));
                        }
                    }
                },
                None => {},
            }
            let series = AccumulatedTimingSeries::from_parts(
                steps,
                run.intransient.collect_completed_statistics(),
            );
            proof {
                match series_of(pre) {
                    Ok(sv) => {
                        assert(series.series_view().steps =~= sv.steps);
                    },
                    Err(_) => {},
                }
            }
            Ok(series)
        },
    }
}

/// Extracts and immediately summarizes: the merge of the intransient bucket
/// with every step bucket.
pub fn extract_timing_summary(records: Vec<Record>) -> (r: Result<AccumulatedTimings, TimingError>)
    ensures
        match (r, extract_spec(records.deep_view())) {
            (Ok(summary), Ok(sv)) => summary.wf() && summary.stats_view() == sv.steps.fold_left(
                sv.intransient,
                |acc: Map<Seq<Seq<char>>, DirectStats>, s: StepBucketV|
                    crate::timing::map_combine(acc, s.stats),
            ),
            (Err(e), Err(e2)) => e == e2,
            _ => false,
        },
{
    match extract_step_timings(records) {
        Ok(series) => {
            let summary = series.summarize();
            proof {
                lemma_fold_buckets(
                    series.steps_view(),
                    series.intransient_view().stats_view(),
                );
            }
            Ok(summary)
        },
        Err(e) => Err(e),
    }
}

/// Folding step buckets directly or through their views gives the same map.
proof fn lemma_fold_buckets(steps: Seq<AccumulatedStepTimings>, init: Map<Seq<Seq<char>>, DirectStats>)
    ensures
        steps.fold_left(
            init,
            |acc: Map<Seq<Seq<char>>, DirectStats>, s: AccumulatedStepTimings|
                crate::timing::map_combine(acc, s.timings.stats_view()),
        ) == steps.map_values(
            |s: AccumulatedStepTimings| StepBucketV {
                stats: s.timings.stats_view(),
                step_index: s.step_index,
            },
        ).fold_left(
            init,
            |acc: Map<Seq<Seq<char>>, DirectStats>, s: StepBucketV|
                crate::timing::map_combine(acc, s.stats),
        ),
    decreases steps.len(),
{
    let f = |acc: Map<Seq<Seq<char>>, DirectStats>, s: AccumulatedStepTimings|
        crate::timing::map_combine(acc, s.timings.stats_view());
    let g = |acc: Map<Seq<Seq<char>>, DirectStats>, s: StepBucketV|
        crate::timing::map_combine(acc, s.stats);
    let m = |s: AccumulatedStepTimings| StepBucketV {
        stats: s.timings.stats_view(),
        step_index: s.step_index,
    };
    if steps.len() > 0 {
        lemma_fold_buckets(steps.drop_last(), init);
        assert(steps.map_values(m).drop_last() =~= steps.drop_last().map_values(m));
        assert(steps.map_values(m).last() == m(steps.last()));
    }
}

} // verus!
