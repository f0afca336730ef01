use vstd::prelude::*;

use crate::assoc::{
    assoc_keys_unique, assoc_map, lemma_assoc_map_at, lemma_assoc_map_contains,
    lemma_assoc_map_empty, lemma_assoc_map_push, lemma_assoc_map_remove, lemma_assoc_map_update,
};

use crate::order::{
    contains_path, lemma_path_lt_connected, lemma_path_lt_trans, lemma_prefix_le,
    lemma_prefix_nested, lemma_sorted_closed_df_ok, path_lt, prefix_of,
};
use crate::span_path::SpanPath;
use crate::span_tree::{depth_first_ok, SpanTree};
use crate::tree_build::{closed_pairs, common_root, find_key, has_key, key_index_of, pair_views, sort_pairs};

verus! {

/// The sum that fits, or the largest value that does.
pub open spec fn sat_add_u128(a: u128, b: u128) -> u128 {
    if a + b > u128::MAX {
        u128::MAX
    } else {
        (a + b) as u128
    }
}

/// The sum that fits, or the largest value that does.
pub open spec fn sat_add_u64(a: u64, b: u64) -> u64 {
    if a + b > u64::MAX {
        u64::MAX
    } else {
        (a + b) as u64
    }
}

/// Statistics measured directly from records: total accumulated wall time in
/// nanoseconds, and how often the span was entered and subsequently exited.
#[derive(Debug, Clone, Copy, PartialEq, Eq, Structural)]
pub struct DirectStats {
    pub duration: u128,
    pub count: u64,
}

/// Key-wise summation of two statistics; the sums saturate at the largest
/// representable values.
pub open spec fn combined(a: DirectStats, b: DirectStats) -> DirectStats {
    DirectStats { duration: sat_add_u128(a.duration, b.duration), count: sat_add_u64(a.count, b.count) }
}

/// The statistics of a span never observed.
pub open spec fn zero_stats() -> DirectStats {
    DirectStats { duration: 0, count: 0 }
}

impl DirectStats {
    pub fn from_single_duration(duration: u128) -> (r: Self)
        ensures
            r == (DirectStats { duration, count: 1u64 }),
    {
        Self { duration, count: 1 }
    }

    /// Folds another statistic into this one by summation.
    pub fn combine_mut(&mut self, other: &DirectStats)
        ensures
            *final(self) == combined(*old(self), *other),
    {
        self.duration = sat_add_u128_exec(self.duration, other.duration);
        self.count = sat_add_u64_exec(self.count, other.count);
    }
}

impl Default for DirectStats {
    fn default() -> (r: Self)
        ensures
            r == zero_stats(),
    {
        Self { duration: 0, count: 0 }
    }
}

fn sat_add_u128_exec(a: u128, b: u128) -> (r: u128)
    ensures
        r == sat_add_u128(a, b),
{
    if u128::MAX - a < b {
        u128::MAX
    } else {
        a + b
    }
}

fn sat_add_u64_exec(a: u64, b: u64) -> (r: u64)
    ensures
        r == sat_add_u64(a, b),
{
    if u64::MAX - a < b {
        u64::MAX
    } else {
        a + b
    }
}

/// What can abort an extraction pass.
#[derive(Debug, Clone, Copy, PartialEq, Eq, Structural)]
pub enum TimingError {
    /// No enter record for the top-level `run` span was found in the stream.
    RunSpanNotFound,
    /// An enter record arrived for a span path that is already active.
    SpanAlreadyActive,
    /// An exit record arrived for a span path that is not active.
    SpanNotActive,
    /// A `step` span carried no numeric step index.
    MissingStepIndex,
    /// An exit record named no span, so its path cannot be reconstructed.
    NoSpanInExitRecord,
}

/// The magnitude of the difference of two timestamps, in nanoseconds.
pub open spec fn abs_diff_ns(a: i64, b: i64) -> u128 {
    if a >= b {
        (a - b) as u128
    } else {
        (b - a) as u128
    }
}

fn abs_diff_ns_exec(a: i64, b: i64) -> (r: u128)
    ensures
        r == abs_diff_ns(a, b),
{
    let wide_a = a as i128;
    let wide_b = b as i128;
    if wide_a >= wide_b {
        (wide_a - wide_b) as u128
    } else {
        (wide_b - wide_a) as u128
    }
}

/// Finds the position of `path` among the keys of an association vector.
fn find_path<T>(v: &Vec<(SpanPath, T)>, path: &SpanPath) -> (r: Option<usize>)
    ensures
        match r {
            Some(i) => 0 <= i < v@.len() && v@[i as int].0@ == path@,
            None => forall|j: int| 0 <= j < v@.len() ==> (#[trigger] v@[j]).0@ != path@,
        },
{
    let n = v.len();
    let mut i: usize = 0;
    while i < n
        invariant
            n == v@.len(),
            i <= n,
            forall|j: int| 0 <= j < i ==> (#[trigger] v@[j]).0@ != path@,
        decreases n - i,
    {
        if &v[i].0 == path {
            return Some(i);
        }
        i = i + 1;
    }
    None
}

/// Matches span enter and exit records into accumulated per-path durations.
#[derive(Debug)]
pub struct TimingAccumulator {
    completed: Vec<(SpanPath, DirectStats)>,
    open: Vec<(SpanPath, i64)>,
}

impl TimingAccumulator {
    spec fn completed_pairs(&self) -> Seq<(Seq<Seq<char>>, DirectStats)> {
        self.completed@.map_values(|p: (SpanPath, DirectStats)| (p.0@, p.1))
    }

    spec fn open_pairs(&self) -> Seq<(Seq<Seq<char>>, i64)> {
        self.open@.map_values(|p: (SpanPath, i64)| (p.0@, p.1))
    }

    /// Well-formedness: no span path appears twice in either table.
    /// Constructors establish it and every method keeps it.
    pub closed spec fn wf(&self) -> bool {
        assoc_keys_unique(self.completed_pairs()) && assoc_keys_unique(self.open_pairs())
    }

    /// The accumulated statistics of the spans that have completed.
    pub closed spec fn completed_view(&self) -> Map<Seq<Seq<char>>, DirectStats> {
        assoc_map(self.completed_pairs())
    }

    /// The enter timestamps of the spans that are still active.
    pub closed spec fn open_view(&self) -> Map<Seq<Seq<char>>, i64> {
        assoc_map(self.open_pairs())
    }

    pub fn new() -> (r: Self)
        ensures
            r.wf(),
            r.completed_view() == Map::<Seq<Seq<char>>, DirectStats>::empty(),
            r.open_view() == Map::<Seq<Seq<char>>, i64>::empty(),
    {
        let r = Self { completed: Vec::new(), open: Vec::new() };
        proof {
            assert(r.completed_pairs() =~= Seq::<(Seq<Seq<char>>, DirectStats)>::empty());
            assert(r.open_pairs() =~= Seq::<(Seq<Seq<char>>, i64)>::empty());
            assert(r.completed_view() =~= Map::<Seq<Seq<char>>, DirectStats>::empty());
            assert(r.open_view() =~= Map::<Seq<Seq<char>>, i64>::empty());
        }
        r
    }

    /// Marks a span as entered at the given timestamp; rejects a span path
    /// that is already active.
    pub fn enter_span(&mut self, path: SpanPath, timestamp: i64) -> (r: Result<(), TimingError>)
        requires
            old(self).wf(),
        ensures
            final(self).wf(),
            (r is Err) == old(self).open_view().contains_key(path@),
            r is Err ==> r->Err_0 == TimingError::SpanAlreadyActive && *final(self) == *old(self),
            r is Ok ==> {
                &&& final(self).open_view() == old(self).open_view().insert(path@, timestamp)
                &&& final(self).completed_view() == old(self).completed_view()
            },
    {
        proof {
            lemma_assoc_map_contains(self.open_pairs(), path@);
        }
        match find_path(&self.open, &path) {
            Some(i) => {
                proof {
                    assert((self.open_pairs()[i as int]).0 == path@);
                }
                Err(TimingError::SpanAlreadyActive)
            },
            None => {
                proof {
                    assert(forall|j: int|
                        0 <= j < self.open_pairs().len() ==> (#[trigger] self.open_pairs()[j]).0
                            == self.open@[j].0@);
                    lemma_assoc_map_push(self.open_pairs(), path@, timestamp);
                }
                let ghost old_pairs = self.open_pairs();
                self.open.push((path, timestamp));
                proof {
                    assert(self.open_pairs() =~= old_pairs.push(
                        (self.open@.last().0@, timestamp),
                    ));
                }
                Ok(())
            },
        }
    }

    /// Marks a span as exited at the given timestamp, folding the absolute
    /// difference of the two timestamps into the span's statistics; rejects a
    /// span path that is not active.
    pub fn exit_span(&mut self, path: SpanPath, timestamp_close: i64) -> (r: Result<
        (),
        TimingError,
    >)
        requires
            old(self).wf(),
        ensures
            final(self).wf(),
            (r is Err) == !old(self).open_view().contains_key(path@),
            r is Err ==> r->Err_0 == TimingError::SpanNotActive && *final(self) == *old(self),
            r is Ok ==> {
                &&& final(self).open_view() == old(self).open_view().remove(path@)
                &&& final(self).completed_view() == old(self).completed_view().insert(
                    path@,
                    combined(
                        if old(self).completed_view().contains_key(path@) {
                            old(self).completed_view()[path@]
                        } else {
                            zero_stats()
                        },
                        DirectStats {
                            duration: abs_diff_ns(timestamp_close, old(self).open_view()[path@]),
                            count: 1u64,
                        },
                    ),
                )
            },
    {
        proof {
            lemma_assoc_map_contains(self.open_pairs(), path@);
            assert(forall|j: int|
                0 <= j < self.open_pairs().len() ==> (#[trigger] self.open_pairs()[j]).0
                    == self.open@[j].0@);
        }
        let i = match find_path(&self.open, &path) {
            Some(i) => i,
            None => {
                return Err(TimingError::SpanNotActive);
            },
        };
        let timestamp_enter = self.open[i].1;
        proof {
            lemma_assoc_map_at(self.open_pairs(), i as int);
            assert((self.open_pairs()[i as int]).0 == path@);
            lemma_assoc_map_remove(self.open_pairs(), i as int);
        }
        let ghost old_open_pairs = self.open_pairs();
        self.open.remove(i);
        proof {
            assert(self.open_pairs() =~= old_open_pairs.remove(i as int));
        }
        let duration = abs_diff_ns_exec(timestamp_close, timestamp_enter);
        let new_single = DirectStats::from_single_duration(duration);
        proof {
            lemma_assoc_map_contains(self.completed_pairs(), path@);
            assert(forall|j: int|
                0 <= j < self.completed_pairs().len() ==> (#[trigger] self.completed_pairs()[j]).0
                    == self.completed@[j].0@);
        }
        match find_path(&self.completed, &path) {
            Some(j) => {
                proof {
                    lemma_assoc_map_at(self.completed_pairs(), j as int);
                    lemma_assoc_map_update(
                        self.completed_pairs(),
                        j as int,
                        combined(self.completed@[j as int].1, new_single),
                    );
                }
                let ghost old_completed_pairs = self.completed_pairs();
                let mut stats = self.completed[j].1;
                stats.combine_mut(&new_single);
                self.completed[j] = (path, stats);
                proof {
                    assert(self.completed_pairs() =~= old_completed_pairs.update(
                        j as int,
                        (old_completed_pairs[j as int].0, stats),
                    ));
                }
                Ok(())
            },
            None => {
                proof {
                    lemma_assoc_map_push(
                        self.completed_pairs(),
                        path@,
                        combined(zero_stats(), new_single),
                    );
                }
                let ghost old_completed_pairs = self.completed_pairs();
                let mut stats = DirectStats::default();
                stats.combine_mut(&new_single);
                self.completed.push((path, stats));
                proof {
                    assert(self.completed_pairs() =~= old_completed_pairs.push(
                        (self.completed@.last().0@, stats),
                    ));
                }
                Ok(())
            },
        }
    }

    /// Whether any entered span has not yet been exited.
    pub fn has_active_spans(&self) -> (r: bool)
        ensures
            !r ==> self.open_view() == Map::<Seq<Seq<char>>, i64>::empty(),
            r ==> self.open_view() != Map::<Seq<Seq<char>>, i64>::empty(),
    {
        proof {
            lemma_assoc_map_empty(self.open_pairs());
            if self.open@.len() > 0 {
                lemma_assoc_map_contains(self.open_pairs(), self.open_pairs()[0].0);
                assert(self.open_view().contains_key(self.open_pairs()[0].0));
            }
        }
        self.open.len() > 0
    }

    /// Consumes the accumulator and hands out the completed statistics.
    pub fn collect_completed_statistics(self) -> (r: AccumulatedTimings)
        requires
            self.wf(),
        ensures
            r.wf(),
            r.stats_view() == self.completed_view(),
    {
        AccumulatedTimings { span_stats: self.completed }
    }
}

/// One flat bucket of per-path statistics, mergeable by key-wise summation.
#[derive(Debug)]
pub struct AccumulatedTimings {
    span_stats: Vec<(SpanPath, DirectStats)>,
}

/// Key-wise summation of two buckets: a key of either side is a key of the
/// result, and a shared key's statistics are summed.
pub open spec fn map_combine(
    a: Map<Seq<Seq<char>>, DirectStats>,
    b: Map<Seq<Seq<char>>, DirectStats>,
) -> Map<Seq<Seq<char>>, DirectStats> {
    Map::new(
        |k: Seq<Seq<char>>| a.contains_key(k) || b.contains_key(k),
        |k: Seq<Seq<char>>|
            if a.contains_key(k) && b.contains_key(k) {
                combined(a[k], b[k])
            } else if b.contains_key(k) {
                b[k]
            } else {
                a[k]
            },
    )
}

impl AccumulatedTimings {
    spec fn pairs(&self) -> Seq<(Seq<Seq<char>>, DirectStats)> {
        self.span_stats@.map_values(|p: (SpanPath, DirectStats)| (p.0@, p.1))
    }

    /// Well-formedness: no span path appears twice. Constructors establish
    /// it and every method keeps it.
    pub closed spec fn wf(&self) -> bool {
        assoc_keys_unique(self.pairs())
    }

    /// The statistics per span path.
    pub closed spec fn stats_view(&self) -> Map<Seq<Seq<char>>, DirectStats> {
        assoc_map(self.pairs())
    }

    pub fn new() -> (r: Self)
        ensures
            r.wf(),
            r.stats_view() == Map::<Seq<Seq<char>>, DirectStats>::empty(),
    {
        let r = Self { span_stats: Vec::new() };
        proof {
            assert(r.pairs() =~= Seq::<(Seq<Seq<char>>, DirectStats)>::empty());
            assert(r.stats_view() =~= Map::<Seq<Seq<char>>, DirectStats>::empty());
        }
        r
    }

    /// Folds the statistics of every given bucket into this one, key-wise.
    pub fn merge_with_others(&mut self, others: &Vec<AccumulatedTimings>)
        requires
            old(self).wf(),
            forall|i: int| 0 <= i < others@.len() ==> (#[trigger] others@[i]).wf(),
        ensures
            final(self).wf(),
            final(self).stats_view() == others@.fold_left(
                old(self).stats_view(),
                |acc: Map<Seq<Seq<char>>, DirectStats>, t: AccumulatedTimings|
                    map_combine(acc, t.stats_view()),
            ),
    {
        let n = others.len();
        let ghost f = |acc: Map<Seq<Seq<char>>, DirectStats>, t: AccumulatedTimings|
            map_combine(acc, t.stats_view());
        let mut idx: usize = 0;
        while idx < n
            invariant
                n == others@.len(),
                idx <= n,
                self.wf(),
                forall|i: int| 0 <= i < others@.len() ==> (#[trigger] others@[i]).wf(),
                f == (|acc: Map<Seq<Seq<char>>, DirectStats>, t: AccumulatedTimings|
                    map_combine(acc, t.stats_view())),
                self.stats_view() == others@.subrange(0, idx as int).fold_left(
                    old(self).stats_view(),
                    f,
                ),
            decreases n - idx,
        {
            let ghost before = self.stats_view();
            self.merge_one(&others[idx]);
            proof {
                assert(others@.subrange(0, idx + 1).drop_last() =~= others@.subrange(
                    0,
                    idx as int,
                ));
                assert(others@.subrange(0, idx + 1).last() == others@[idx as int]);
                assert(others@.subrange(0, idx + 1).fold_left(old(self).stats_view(), f)
                    == map_combine(before, others@[idx as int].stats_view()));
            }
            idx = idx + 1;
        }
        proof {
            assert(others@.subrange(0, n as int) =~= others@);
        }
    }

    /// Folds one other bucket into this one, key-wise.
    fn merge_one(&mut self, other: &AccumulatedTimings)
        requires
            old(self).wf(),
            other.wf(),
        ensures
            final(self).wf(),
            final(self).stats_view() == map_combine(old(self).stats_view(), other.stats_view()),
    {
        let n = other.span_stats.len();
        let mut j: usize = 0;
        while j < n
            invariant
                n == other.span_stats@.len(),
                j <= n,
                self.wf(),
                other.wf(),
                self.stats_view() == map_combine(
                    old(self).stats_view(),
                    assoc_map(other.pairs().subrange(0, j as int)),
                ),
            decreases n - j,
        {
            let ghost cur = self.stats_view();
            let ghost partial = assoc_map(other.pairs().subrange(0, j as int));
            let path = other.span_stats[j].0.clone();
            let stats = other.span_stats[j].1;
            proof {
                // The key about to be folded in is new to the partial map.
                lemma_assoc_map_contains(other.pairs().subrange(0, j as int), path@);
                assert(forall|m: int|
                    0 <= m < j ==> (#[trigger] other.pairs().subrange(0, j as int)[m]).0
                        == other.pairs()[m].0);
                assert(other.pairs()[j as int].0 == path@);
                assert(!partial.contains_key(path@));
                lemma_assoc_map_contains(self.pairs(), path@);
                assert(forall|m: int|
                    0 <= m < self.pairs().len() ==> (#[trigger] self.pairs()[m]).0
                        == self.span_stats@[m].0@);
            }
            match find_path(&self.span_stats, &path) {
                Some(i) => {
                    proof {
                        lemma_assoc_map_at(self.pairs(), i as int);
                        lemma_assoc_map_update(
                            self.pairs(),
                            i as int,
                            combined(self.span_stats@[i as int].1, stats),
                        );
                    }
                    let ghost old_pairs = self.pairs();
                    let mut cur_stats = self.span_stats[i].1;
                    cur_stats.combine_mut(&stats);
                    self.span_stats[i] = (path, cur_stats);
                    proof {
                        assert(self.pairs() =~= old_pairs.update(
                            i as int,
                            (old_pairs[i as int].0, cur_stats),
                        ));
                    }
                },
                None => {
                    proof {
                        lemma_assoc_map_push(self.pairs(), path@, stats);
                    }
                    let ghost old_pairs = self.pairs();
                    self.span_stats.push((path, stats));
                    proof {
                        assert(self.pairs() =~= old_pairs.push(
                            (self.span_stats@.last().0@, stats),
                        ));
                    }
                },
            }
            proof {
                lemma_assoc_map_at(other.pairs(), j as int);
                assert(other.pairs().subrange(0, j + 1).drop_last() =~= other.pairs().subrange(
                    0,
                    j as int,
                ));
                assert(other.pairs().subrange(0, j + 1).last() == other.pairs()[j as int]);
                assert(assoc_map(other.pairs().subrange(0, j + 1)) =~= partial.insert(
                    path@,
                    stats,
                ));
                assert(self.stats_view() =~= map_combine(
                    old(self).stats_view(),
                    partial.insert(path@, stats),
                ));
            }
            j = j + 1;
        }
        proof {
            assert(other.pairs().subrange(0, n as int) =~= other.pairs());
        }
    }
}

impl Clone for AccumulatedTimings {
    fn clone(&self) -> (r: Self)
        ensures
            r.wf() == self.wf(),
            r.stats_view() == self.stats_view(),
    {
        let n = self.span_stats.len();
        let mut out: Vec<(SpanPath, DirectStats)> = Vec::new();
        let mut i: usize = 0;
        while i < n
            invariant
                n == self.span_stats@.len(),
                i <= n,
                out@.len() == i,
                forall|j: int|
                    0 <= j < i ==> (#[trigger] out@[j]).0@ == self.span_stats@[j].0@ && out@[j].1
                        == self.span_stats@[j].1,
            decreases n - i,
        {
            out.push((self.span_stats[i].0.clone(), self.span_stats[i].1));
            i = i + 1;
        }
        let r = AccumulatedTimings { span_stats: out };
        proof {
            assert(r.pairs() =~= self.pairs());
        }
        r
    }
}

/// One complete simulation step's bucket, with its step index.
#[derive(Debug, Clone)]
pub struct AccumulatedStepTimings {
    pub timings: AccumulatedTimings,
    pub step_index: u64,
}

/// One bucket per complete simulation step, plus one bucket for everything
/// that happened inside the run but outside any step.
#[derive(Debug, Clone)]
pub struct AccumulatedTimingSeries {
    steps: Vec<AccumulatedStepTimings>,
    intransient_timings: AccumulatedTimings,
}

impl AccumulatedTimingSeries {
    /// Well-formedness of every bucket held.
    pub open spec fn wf(&self) -> bool {
        &&& self.intransient_view().wf()
        &&& forall|i: int| 0 <= i < self.steps_view().len() ==> (#[trigger] self.steps_view()[i]).timings.wf()
    }

    /// The per-step buckets, in order of appearance.
    pub closed spec fn steps_view(&self) -> Seq<AccumulatedStepTimings> {
        self.steps@
    }

    /// The bucket for spans outside any step.
    pub closed spec fn intransient_view(&self) -> AccumulatedTimings {
        self.intransient_timings
    }

    /// Merges the intransient bucket with every step's bucket into one
    /// summary bucket.
    pub fn summarize(&self) -> (r: AccumulatedTimings)
        requires
            self.wf(),
        ensures
            r.wf(),
            r.stats_view() == self.steps_view().fold_left(
                self.intransient_view().stats_view(),
                |acc: Map<Seq<Seq<char>>, DirectStats>, s: AccumulatedStepTimings|
                    map_combine(acc, s.timings.stats_view()),
            ),
    {
        let mut summary = self.intransient_timings.clone();
        let mut step_timings: Vec<AccumulatedTimings> = Vec::new();
        let n = self.steps.len();
        let mut i: usize = 0;
        while i < n
            invariant
                n == self.steps@.len(),
                i <= n,
                self.wf(),
                step_timings@.len() == i,
                forall|j: int|
                    0 <= j < i ==> (#[trigger] step_timings@[j]).stats_view()
                        == self.steps@[j].timings.stats_view() && step_timings@[j].wf(),
            decreases n - i,
        {
            proof {
                assert((#[trigger] self.steps_view()[i as int]).timings == self.steps@[i as int].timings);
            }
            step_timings.push(self.steps[i].timings.clone());
            i = i + 1;
        }
        summary.merge_with_others(&step_timings);
        proof {
            let f = |acc: Map<Seq<Seq<char>>, DirectStats>, t: AccumulatedTimings|
                map_combine(acc, t.stats_view());
            let g = |acc: Map<Seq<Seq<char>>, DirectStats>, s: AccumulatedStepTimings|
                map_combine(acc, s.timings.stats_view());
            lemma_fold_left_same(
                step_timings@,
                self.steps@,
                self.intransient_view().stats_view(),
                0,
            );
        }
        summary
    }

    /// Assembles a series from its parts.
    pub(crate) fn from_parts(
        steps: Vec<AccumulatedStepTimings>,
        intransient: AccumulatedTimings,
    ) -> (r: Self)
        ensures
            r.steps_view() == steps@,
            r.intransient_view() == intransient,
    {
        Self { steps, intransient_timings: intransient }
    }

    pub fn steps(&self) -> (r: &Vec<AccumulatedStepTimings>)
        ensures
            r@ == self.steps_view(),
    {
        &self.steps
    }
}

/// Folding buckets with equal statistics from either of two sequences gives
/// the same result.
proof fn lemma_fold_left_same(
    a: Seq<AccumulatedTimings>,
    b: Seq<AccumulatedStepTimings>,
    init: Map<Seq<Seq<char>>, DirectStats>,
    i: int,
)
    requires
        a.len() == b.len(),
        forall|j: int| 0 <= j < a.len() ==> (#[trigger] a[j]).stats_view()
            == b[j].timings.stats_view(),
    ensures
        a.fold_left(
            init,
            |acc: Map<Seq<Seq<char>>, DirectStats>, t: AccumulatedTimings|
                map_combine(acc, t.stats_view()),
        ) == b.fold_left(
            init,
            |acc: Map<Seq<Seq<char>>, DirectStats>, s: AccumulatedStepTimings|
                map_combine(acc, s.timings.stats_view()),
        ),
    decreases a.len(),
{
    let f = |acc: Map<Seq<Seq<char>>, DirectStats>, t: AccumulatedTimings|
        map_combine(acc, t.stats_view());
    let g = |acc: Map<Seq<Seq<char>>, DirectStats>, s: AccumulatedStepTimings|
        map_combine(acc, s.timings.stats_view());
    if a.len() > 0 {
        lemma_fold_left_same(a.drop_last(), b.drop_last(), init, i);
        assert(forall|j: int|
            0 <= j < a.drop_last().len() ==> (#[trigger] a.drop_last()[j]) == a[j]);
        assert(a.fold_left(init, f) == f(a.drop_last().fold_left(init, f), a.last()));
        assert(b.fold_left(init, g) == g(b.drop_last().fold_left(init, g), b.last()));
        assert(a.last().stats_view() == b.last().timings.stats_view());
    }
}


/// A proportion of two durations, kept as the exact pair of nanosecond
/// totals; the denominator may be zero when the reference span measured no
/// time at all.
#[derive(Debug, Clone, Copy, PartialEq, Eq, Structural)]
pub struct Ratio {
    pub numer: u128,
    pub denom: u128,
}

/// Statistics derived for one tree node: its own totals and its duration
/// relative to its parent and to the tree root. A proportion is absent when
/// the node in question has no measured ancestor to relate to.
#[derive(Debug, Clone, Copy, PartialEq, Eq, Structural)]
pub struct DerivedStats {
    pub duration: u128,
    pub count: u64,
    pub duration_relative_to_parent: Option<Ratio>,
    pub duration_relative_to_root: Option<Ratio>,
}

/// A tree of per-span derived statistics; nodes inferred as missing
/// ancestors carry no statistics.
pub type TimingTree = SpanTree<Option<DerivedStats>>;

/// The derived statistics of the measured span `p` in a tree rooted at
/// `rt`, over the measured statistics `m`.
pub open spec fn derived_for(
    m: Map<Seq<Seq<char>>, DirectStats>,
    rt: Seq<Seq<char>>,
    p: Seq<Seq<char>>,
) -> DerivedStats {
    DerivedStats {
        duration: m[p].duration,
        count: m[p].count,
        duration_relative_to_parent: if p.len() == rt.len() {
            None
        } else if m.contains_key(p.drop_last()) {
            Some(Ratio { numer: m[p].duration, denom: m[p.drop_last()].duration })
        } else {
            None
        },
        duration_relative_to_root: if m.contains_key(rt) {
            Some(Ratio { numer: m[p].duration, denom: m[rt].duration })
        } else {
            None
        },
    }
}

/// Whether `p` is a prefix of some measured path: the chosen witness
/// really is one.
pub open spec fn covered_by_measured(
    m: Map<Seq<Seq<char>>, DirectStats>,
    p: Seq<Seq<char>>,
) -> bool {
    let k = choose|k: Seq<Seq<char>>| #[trigger] m.contains_key(k) && prefix_of(p, k);
    m.contains_key(k) && prefix_of(p, k)
}

/// What the timing tree of a statistics bucket holds. The nodes are exactly
/// the prefixes, no shorter than the common ancestor of all measured paths,
/// of the measured paths, in strictly increasing lexicographic order with
/// that common ancestor first; a measured node carries its derived
/// statistics and an inferred node carries none.
pub open spec fn timing_tree_matches(m: Map<Seq<Seq<char>>, DirectStats>, t: TimingTree) -> bool {
    timing_nodes_match(m, t.paths_view(), t.payloads_view())
}

/// `timing_tree_matches`, spelt over the node paths and payloads themselves.
pub open spec fn timing_nodes_match(
    m: Map<Seq<Seq<char>>, DirectStats>,
    d: Seq<Seq<Seq<char>>>,
    pl: Seq<Option<DerivedStats>>,
) -> bool {
    &&& pl.len() == d.len()
    &&& (d.len() == 0 <==> m == Map::<Seq<Seq<char>>, DirectStats>::empty())
    &&& d.len() > 0 ==> {
        let rt = d[0];
        &&& forall|k: Seq<Seq<char>>| #[trigger] m.contains_key(k) ==> prefix_of(rt, k)
        &&& ((exists|k: Seq<Seq<char>>| #[trigger] m.contains_key(k) && k.len() == rt.len()) || (
        exists|k1: Seq<Seq<char>>, k2: Seq<Seq<char>>|
            m.contains_key(k1) && m.contains_key(k2) && k1.len() > rt.len() && k2.len() > rt.len()
                && #[trigger] k1[rt.len() as int] != #[trigger] k2[rt.len() as int]))
        &&& forall|i: int, j: int| 0 <= i < j < d.len() ==> path_lt(#[trigger] d[i], #[trigger] d[j])
        &&& forall|i: int|
            0 <= i < d.len() ==> (#[trigger] d[i]).len() >= rt.len() && covered_by_measured(
                m,
                d[i],
            )
        &&& forall|k: Seq<Seq<char>>, len: int|
            m.contains_key(k) && rt.len() <= len <= k.len() ==> #[trigger] contains_path(
                d,
                k.subrange(0, len),
            )
        &&& forall|i: int|
            0 <= i < d.len() ==> pl[i] == (if m.contains_key(#[trigger] d[i]) {
                Some(derived_for(m, rt, d[i]))
            } else {
                None
            })
    }
}

/// The root node's duration relative to the root is the whole of itself:
/// when the root path is measured its share is its own duration over
/// itself, and when the root was never measured directly it carries no
/// statistics at all.
pub proof fn lemma_root_share_is_whole(m: Map<Seq<Seq<char>>, DirectStats>, t: TimingTree)
    requires
        timing_tree_matches(m, t),
        t.paths_view().len() > 0,
    ensures
        m.contains_key(t.paths_view()[0]) ==> t.payloads_view()[0] == Some(
            derived_for(m, t.paths_view()[0], t.paths_view()[0]),
        ) && t.payloads_view()[0]->0.duration_relative_to_root == Some(
            Ratio {
                numer: m[t.paths_view()[0]].duration,
                denom: m[t.paths_view()[0]].duration,
            },
        ),
        !m.contains_key(t.paths_view()[0]) ==> t.payloads_view()[0] is None,
{
    let d = t.paths_view();
    let pl = t.payloads_view();
    assert(pl[0] == (if m.contains_key(d[0]) {
        Some(derived_for(m, d[0], d[0]))
    } else {
        None
    }));
}

/// A pair of the one sequence appears among the pairs of the other; the
/// sort only rearranges.
#[verifier::spinoff_prover]
proof fn lemma_pair_carried_over(
    from: Seq<(SpanPath, Option<DirectStats>)>,
    to: Seq<(SpanPath, Option<DirectStats>)>,
    i: int,
)
    requires
        pair_views(from).to_multiset() == pair_views(to).to_multiset(),
        0 <= i < from.len(),
    ensures
        exists|j: int|
            0 <= j < to.len() && (#[trigger] to[j]).0@ == from[i].0@ && to[j].1 == from[i].1,
{
    broadcast use vstd::seq_lib::group_to_multiset_ensures;

    pair_views(from).to_multiset_ensures();
    pair_views(to).to_multiset_ensures();
    let p = pair_views(from)[i];
    assert(pair_views(from).contains(p));
    assert(pair_views(from).to_multiset().count(p) > 0);
    assert(pair_views(to).to_multiset().count(p) > 0);
    assert(pair_views(to).contains(p));
    let j = choose|j: int| 0 <= j < pair_views(to).len() && pair_views(to)[j] == p;
    assert((to[j]).0@ == from[i].0@ && to[j].1 == from[i].1);
}

/// Strictly sorted keys are pairwise distinct.
#[verifier::spinoff_prover]
proof fn lemma_sorted_keys_unique(sorted: Seq<(SpanPath, Option<DirectStats>)>)
    requires
        forall|i: int, j: int|
            0 <= i < j < sorted.len() ==> path_lt(
                (#[trigger] sorted[i]).0@,
                (#[trigger] sorted[j]).0@,
            ),
    ensures
        forall|i: int, k: int|
            0 <= i < k < sorted.len() ==> (#[trigger] sorted[i]).0@ != (#[trigger] sorted[k]).0@,
{
    assert forall|i: int, k: int|
        0 <= i < k < sorted.len() implies (#[trigger] sorted[i]).0@ != (
    #[trigger] sorted[k]).0@ by {
        lemma_path_lt_connected(sorted[i].0@, sorted[k].0@);
    }
}

/// Every key of the sorted closure descends from the root path.
#[verifier::spinoff_prover]
proof fn lemma_sorted_keys_under_root(
    stats: Seq<(SpanPath, DirectStats)>,
    closed: Seq<(SpanPath, Option<DirectStats>)>,
    sorted: Seq<(SpanPath, Option<DirectStats>)>,
    rt: SpanPath,
)
    requires
        forall|i: int| 0 <= i < stats.len() ==> prefix_of(rt@, (#[trigger] stats[i]).0@),
        forall|i: int|
            0 <= i < closed.len() ==> (exists|j: int|
                0 <= j < stats.len() && prefix_of(
                    (#[trigger] closed[i]).0@,
                    (#[trigger] stats[j]).0@,
                )) && closed[i].0@.len() >= rt@.len(),
        pair_views(sorted).to_multiset() == pair_views(closed).to_multiset(),
    ensures
        forall|i: int|
            0 <= i < sorted.len() ==> prefix_of(rt@, (#[trigger] sorted[i]).0@)
                && sorted[i].0@.len() >= rt@.len(),
{
    assert forall|i: int| 0 <= i < sorted.len() implies prefix_of(
        rt@,
        (#[trigger] sorted[i]).0@,
    ) && sorted[i].0@.len() >= rt@.len() by {
        lemma_pair_carried_over(sorted, closed, i);
        let j = choose|j: int|
            0 <= j < closed.len() && (#[trigger] closed[j]).0@ == sorted[i].0@ && closed[j].1
                == sorted[i].1;
        let k = choose|k: int|
            0 <= k < stats.len() && prefix_of(closed[j].0@, (#[trigger] stats[k]).0@);
        lemma_prefix_nested(rt@, sorted[i].0@, stats[k].0@);
    }
}

/// The root path stands first in the sorted closure.
#[verifier::spinoff_prover]
proof fn lemma_root_stands_first(
    stats: Seq<(SpanPath, DirectStats)>,
    closed: Seq<(SpanPath, Option<DirectStats>)>,
    sorted: Seq<(SpanPath, Option<DirectStats>)>,
    rt: SpanPath,
)
    requires
        stats.len() > 0,
        forall|i: int| 0 <= i < stats.len() ==> prefix_of(rt@, (#[trigger] stats[i]).0@),
        forall|j: int, len: int|
            0 <= j < stats.len() && rt@.len() <= len <= stats[j].0@.len() ==> exists|i: int|
                0 <= i < closed.len() && (#[trigger] closed[i]).0@ == (
                #[trigger] stats[j].0@.subrange(0, len)),
        forall|i: int, j: int|
            0 <= i < j < sorted.len() ==> path_lt(
                (#[trigger] sorted[i]).0@,
                (#[trigger] sorted[j]).0@,
            ),
        forall|i: int|
            0 <= i < sorted.len() ==> prefix_of(rt@, (#[trigger] sorted[i]).0@),
        sorted.len() == closed.len(),
        pair_views(sorted).to_multiset() == pair_views(closed).to_multiset(),
    ensures
        sorted.len() > 0,
        sorted[0].0@ == rt@,
{
    assert(rt@ =~= stats[0].0@.subrange(0, rt@.len() as int));
    assert(exists|idx: int|
        0 <= idx < closed.len() && (#[trigger] closed[idx]).0@ == (#[trigger] stats[0].0@.subrange(
            0,
            rt@.len() as int,
        )));
    let idx = choose|idx: int|
        0 <= idx < closed.len() && (#[trigger] closed[idx]).0@ == stats[0].0@.subrange(
            0,
            rt@.len() as int,
        );
    lemma_pair_carried_over(closed, sorted, idx);
    let i0 = choose|i0: int|
        0 <= i0 < sorted.len() && (#[trigger] sorted[i0]).0@ == closed[idx].0@ && sorted[i0].1
            == closed[idx].1;
    assert(sorted[i0].0@ == rt@);
    if i0 != 0 {
        assert(path_lt(sorted[0].0@, sorted[i0].0@));
        lemma_prefix_le(rt@, sorted[0].0@);
        if rt@ == sorted[0].0@ {
            lemma_path_lt_connected(sorted[0].0@, sorted[i0].0@);
        } else {
            lemma_path_lt_trans(rt@, sorted[0].0@, sorted[i0].0@);
            lemma_path_lt_connected(rt@, sorted[i0].0@);
        }
    }
}

/// Every key of the sorted closure deeper than the root has its parent
/// among the keys.
#[verifier::spinoff_prover]
proof fn lemma_parents_present(
    stats: Seq<(SpanPath, DirectStats)>,
    closed: Seq<(SpanPath, Option<DirectStats>)>,
    sorted: Seq<(SpanPath, Option<DirectStats>)>,
    rt: SpanPath,
)
    requires
        forall|i: int|
            0 <= i < closed.len() ==> (exists|j: int|
                0 <= j < stats.len() && prefix_of(
                    (#[trigger] closed[i]).0@,
                    (#[trigger] stats[j]).0@,
                )) && closed[i].0@.len() >= rt@.len(),
        forall|j: int, len: int|
            0 <= j < stats.len() && rt@.len() <= len <= stats[j].0@.len() ==> exists|i: int|
                0 <= i < closed.len() && (#[trigger] closed[i]).0@ == (
                #[trigger] stats[j].0@.subrange(0, len)),
        pair_views(sorted).to_multiset() == pair_views(closed).to_multiset(),
    ensures
        forall|i: int|
            0 <= i < sorted.len() && (#[trigger] sorted[i]).0@.len() > rt@.len() ==> has_key(
                sorted,
                sorted[i].0@.drop_last(),
            ),
{
    assert forall|i: int|
        0 <= i < sorted.len() && (#[trigger] sorted[i]).0@.len() > rt@.len() implies has_key(
        sorted,
        sorted[i].0@.drop_last(),
    ) by {
        lemma_pair_carried_over(sorted, closed, i);
        let jc = choose|j: int|
            0 <= j < closed.len() && (#[trigger] closed[j]).0@ == sorted[i].0@ && closed[j].1
                == sorted[i].1;
        let k = choose|k: int|
            0 <= k < stats.len() && prefix_of(closed[jc].0@, (#[trigger] stats[k]).0@);
        let key = stats[k].0@;
        let plen = sorted[i].0@.len() - 1;
        assert(sorted[i].0@.drop_last() == key.subrange(0, plen)) by {
            assert(sorted[i].0@ =~= key.subrange(0, sorted[i].0@.len() as int));
            assert(sorted[i].0@.drop_last() =~= key.subrange(0, plen));
        }
        assert(exists|idx: int|
            0 <= idx < closed.len() && (#[trigger] closed[idx]).0@ == (#[trigger] key.subrange(
                0,
                plen,
            )));
        let idx = choose|idx: int|
            0 <= idx < closed.len() && (#[trigger] closed[idx]).0@ == key.subrange(0, plen);
        lemma_pair_carried_over(closed, sorted, idx);
        let js = choose|js: int|
            0 <= js < sorted.len() && (#[trigger] sorted[js]).0@ == closed[idx].0@ && sorted[js].1
                == closed[idx].1;
        assert(0 <= js < sorted.len() && sorted[js].0@ == sorted[i].0@.drop_last());
    }
}

/// The sorted closure's values reflect the measured statistics.
#[verifier::spinoff_prover]
proof fn lemma_values_reflect_map(
    stats: Seq<(SpanPath, DirectStats)>,
    closed: Seq<(SpanPath, Option<DirectStats>)>,
    sorted: Seq<(SpanPath, Option<DirectStats>)>,
    m: Map<Seq<Seq<char>>, DirectStats>,
)
    requires
        forall|k: Seq<Seq<char>>|
            #[trigger] m.contains_key(k) ==> exists|j: int|
                0 <= j < stats.len() && (#[trigger] stats[j]).0@ == k,
        forall|j: int|
            0 <= j < stats.len() ==> m.contains_key((#[trigger] stats[j]).0@) && m[stats[j].0@]
                == stats[j].1,
        forall|i: int, j: int|
            0 <= i < closed.len() && 0 <= j < stats.len() && (#[trigger] closed[i]).0@ == (
            #[trigger] stats[j]).0@ ==> closed[i].1 == Some(stats[j].1),
        forall|i: int|
            0 <= i < closed.len() ==> ((#[trigger] closed[i]).1 is Some <==> exists|j: int|
                0 <= j < stats.len() && (#[trigger] stats[j]).0@ == closed[i].0@),
        pair_views(sorted).to_multiset() == pair_views(closed).to_multiset(),
    ensures
        forall|i: int|
            0 <= i < sorted.len() ==> ((#[trigger] sorted[i]).1 is Some <==> m.contains_key(
                sorted[i].0@,
            )),
        forall|i: int|
            0 <= i < sorted.len() && (#[trigger] sorted[i]).1 is Some ==> sorted[i].1->0
                == m[sorted[i].0@],
{
    assert forall|i: int| 0 <= i < sorted.len() implies ((#[trigger] sorted[i]).1 is Some
        <==> m.contains_key(sorted[i].0@)) && (sorted[i].1 is Some ==> sorted[i].1->0
        == m[sorted[i].0@]) by {
        lemma_pair_carried_over(sorted, closed, i);
        let j = choose|j: int|
            0 <= j < closed.len() && (#[trigger] closed[j]).0@ == sorted[i].0@ && closed[j].1
                == sorted[i].1;
        if closed[j].1 is Some {
            let k = choose|k: int|
                0 <= k < stats.len() && (#[trigger] stats[k]).0@ == closed[j].0@;
            assert(closed[j].1 == Some(stats[k].1));
            assert(m[sorted[i].0@] == stats[k].1);
        } else {
            if m.contains_key(sorted[i].0@) {
                let k = choose|k: int|
                    0 <= k < stats.len() && (#[trigger] stats[k]).0@ == sorted[i].0@;
                assert(closed[j].1 is Some);
            }
        }
    }
}

/// One key of the sorted closure is a prefix of some measured path.
#[verifier::spinoff_prover]
proof fn lemma_key_covered(
    stats: Seq<(SpanPath, DirectStats)>,
    closed: Seq<(SpanPath, Option<DirectStats>)>,
    sorted: Seq<(SpanPath, Option<DirectStats>)>,
    rt: SpanPath,
    m: Map<Seq<Seq<char>>, DirectStats>,
    i: int,
)
    requires
        forall|j: int|
            0 <= j < stats.len() ==> m.contains_key((#[trigger] stats[j]).0@) && m[stats[j].0@]
                == stats[j].1,
        forall|i2: int|
            0 <= i2 < closed.len() ==> (exists|j: int|
                0 <= j < stats.len() && prefix_of(
                    (#[trigger] closed[i2]).0@,
                    (#[trigger] stats[j]).0@,
                )) && closed[i2].0@.len() >= rt@.len(),
        pair_views(sorted).to_multiset() == pair_views(closed).to_multiset(),
        0 <= i < sorted.len(),
    ensures
        covered_by_measured(m, sorted[i].0@),
{
    lemma_pair_carried_over(sorted, closed, i);
    let jc = choose|j: int|
        0 <= j < closed.len() && (#[trigger] closed[j]).0@ == sorted[i].0@ && closed[j].1
            == sorted[i].1;
    let j = choose|j: int|
        0 <= j < stats.len() && prefix_of(closed[jc].0@, (#[trigger] stats[j]).0@);
    assert(m.contains_key(stats[j].0@) && prefix_of(sorted[i].0@, stats[j].0@));
}

/// One prefix of a measured path, no shorter than the root, stands among
/// the sorted closure's keys.
#[verifier::spinoff_prover]
proof fn lemma_cover_complete(
    stats: Seq<(SpanPath, DirectStats)>,
    closed: Seq<(SpanPath, Option<DirectStats>)>,
    sorted: Seq<(SpanPath, Option<DirectStats>)>,
    rt: SpanPath,
    j: int,
    len: int,
)
    requires
        forall|j2: int, len2: int|
            0 <= j2 < stats.len() && rt@.len() <= len2 <= stats[j2].0@.len() ==> #[trigger] has_key(
                closed,
                stats[j2].0@.subrange(0, len2),
            ),
        pair_views(sorted).to_multiset() == pair_views(closed).to_multiset(),
        0 <= j < stats.len(),
        rt@.len() <= len <= stats[j].0@.len(),
    ensures
        has_key(sorted, stats[j].0@.subrange(0, len)),
{
    assert(has_key(closed, stats[j].0@.subrange(0, len)));
    let idx = key_index_of(closed, stats[j].0@.subrange(0, len));
    assert(0 <= idx < closed.len() && closed[idx].0@ == stats[j].0@.subrange(0, len));
    lemma_pair_carried_over(closed, sorted, idx);
    let i3 = choose|i3: int|
        0 <= i3 < sorted.len() && (#[trigger] sorted[i3]).0@ == closed[idx].0@ && sorted[i3].1
            == closed[idx].1;
    assert(0 <= i3 < sorted.len() && sorted[i3].0@ == stats[j].0@.subrange(0, len));
}

/// Membership in the statistics map is membership among the stored pairs.
#[verifier::spinoff_prover]
proof fn lemma_stats_map_bridge(
    stats: Seq<(SpanPath, DirectStats)>,
    m: Map<Seq<Seq<char>>, DirectStats>,
)
    requires
        m == assoc_map(stats.map_values(|p: (SpanPath, DirectStats)| (p.0@, p.1))),
        assoc_keys_unique(stats.map_values(|p: (SpanPath, DirectStats)| (p.0@, p.1))),
    ensures
        forall|k: Seq<Seq<char>>|
            #[trigger] m.contains_key(k) ==> exists|j: int|
                0 <= j < stats.len() && (#[trigger] stats[j]).0@ == k,
        forall|j: int|
            0 <= j < stats.len() ==> m.contains_key((#[trigger] stats[j]).0@) && m[stats[j].0@]
                == stats[j].1,
        forall|i: int, j: int|
            0 <= i < j < stats.len() ==> (#[trigger] stats[i]).0@ != (#[trigger] stats[j]).0@,
{
    let pairs = stats.map_values(|p: (SpanPath, DirectStats)| (p.0@, p.1));
    assert(forall|j: int|
        0 <= j < pairs.len() ==> (#[trigger] pairs[j]).0 == stats[j].0@ && pairs[j].1
            == stats[j].1);
    assert forall|k: Seq<Seq<char>>| #[trigger] m.contains_key(k) implies exists|j: int|
        0 <= j < stats.len() && (#[trigger] stats[j]).0@ == k by {
        lemma_assoc_map_contains(pairs, k);
        let j = choose|j: int| 0 <= j < pairs.len() && (#[trigger] pairs[j]).0 == k;
        assert(stats[j].0@ == k);
    }
    assert forall|j: int| 0 <= j < stats.len() implies m.contains_key(
        (#[trigger] stats[j]).0@,
    ) && m[stats[j].0@] == stats[j].1 by {
        lemma_assoc_map_at(pairs, j);
    }
    assert forall|i: int, j: int|
        0 <= i < j < stats.len() implies (#[trigger] stats[i]).0@ != (#[trigger] stats[j]).0@ by {
        assert((pairs[i]).0 != (pairs[j]).0);
    }
}

/// The common-ancestor witnesses over the stored pairs become witnesses
/// over the statistics map.
#[verifier::spinoff_prover]
proof fn lemma_root_depth_witness(
    stats: Seq<(SpanPath, DirectStats)>,
    rt: SpanPath,
    m: Map<Seq<Seq<char>>, DirectStats>,
)
    requires
        forall|j: int|
            0 <= j < stats.len() ==> m.contains_key((#[trigger] stats[j]).0@) && m[stats[j].0@]
                == stats[j].1,
        (exists|i: int| 0 <= i < stats.len() && (#[trigger] stats[i]).0@.len() == rt@.len()) || (
        exists|i1: int, i2: int|
            0 <= i1 < stats.len() && 0 <= i2 < stats.len() && (#[trigger] stats[i1]).0@.len()
                > rt@.len() && (#[trigger] stats[i2]).0@.len() > rt@.len()
                && stats[i1].0@[rt@.len() as int] != stats[i2].0@[rt@.len() as int]),
    ensures
        (exists|k: Seq<Seq<char>>| #[trigger] m.contains_key(k) && k.len() == rt@.len()) || (
        exists|k1: Seq<Seq<char>>, k2: Seq<Seq<char>>|
            m.contains_key(k1) && m.contains_key(k2) && k1.len() > rt@.len() && k2.len()
                > rt@.len() && #[trigger] k1[rt@.len() as int] != #[trigger] k2[rt@.len() as int]),
{
    if exists|i: int| 0 <= i < stats.len() && (#[trigger] stats[i]).0@.len() == rt@.len() {
        let i = choose|i: int| 0 <= i < stats.len() && (#[trigger] stats[i]).0@.len() == rt@.len();
        assert(m.contains_key(stats[i].0@) && stats[i].0@.len() == rt@.len());
    } else {
        let (i1, i2) = choose|i1: int, i2: int|
            0 <= i1 < stats.len() && 0 <= i2 < stats.len() && (#[trigger] stats[i1]).0@.len()
                > rt@.len() && (#[trigger] stats[i2]).0@.len() > rt@.len()
                && stats[i1].0@[rt@.len() as int] != stats[i2].0@[rt@.len() as int];
        assert(m.contains_key(stats[i1].0@));
        assert(m.contains_key(stats[i2].0@));
    }
}

/// Computes the derived payloads of the sorted, parent-closed node list:
/// each measured node's totals and its duration relative to the node
/// holding its parent path and to the first (root) node.
#[verifier::spinoff_prover]
fn derive_payloads(
    sorted: &Vec<(SpanPath, Option<DirectStats>)>,
    rt: &SpanPath,
    Ghost(m): Ghost<Map<Seq<Seq<char>>, DirectStats>>,
) -> (r: Vec<Option<DerivedStats>>)
    requires
        sorted@.len() > 0,
        sorted@[0].0@ == rt@,
        forall|i: int, k: int|
            0 <= i < k < sorted@.len() ==> (#[trigger] sorted@[i]).0@ != (
            #[trigger] sorted@[k]).0@,
        forall|i: int|
            0 <= i < sorted@.len() ==> ((#[trigger] sorted@[i]).1 is Some <==> m.contains_key(
                sorted@[i].0@,
            )),
        forall|i: int|
            0 <= i < sorted@.len() && (#[trigger] sorted@[i]).1 is Some ==> sorted@[i].1->0
                == m[sorted@[i].0@],
        forall|i: int| 0 <= i < sorted@.len() ==> (#[trigger] sorted@[i]).0@.len() >= rt@.len(),
        forall|i: int|
            0 <= i < sorted@.len() && (#[trigger] sorted@[i]).0@.len() > rt@.len() ==> has_key(
                sorted@,
                sorted@[i].0@.drop_last(),
            ),
    ensures
        r@.len() == sorted@.len(),
        forall|i: int|
            0 <= i < sorted@.len() ==> r@[i] == (if m.contains_key((#[trigger] sorted@[i]).0@) {
                Some(derived_for(m, rt@, sorted@[i].0@))
            } else {
                None
            }),
{
    let n = sorted.len();
    let mut r: Vec<Option<DerivedStats>> = Vec::new();
    let mut i: usize = 0;
    while i < n
        invariant
            n == sorted@.len(),
            n > 0,
            i <= n,
            r@.len() == i,
            sorted@[0].0@ == rt@,
            forall|a: int, k: int|
                0 <= a < k < sorted@.len() ==> (#[trigger] sorted@[a]).0@ != (
                #[trigger] sorted@[k]).0@,
            forall|a: int|
                0 <= a < sorted@.len() ==> ((#[trigger] sorted@[a]).1 is Some <==> m.contains_key(
                    sorted@[a].0@,
                )),
            forall|a: int|
                0 <= a < sorted@.len() && (#[trigger] sorted@[a]).1 is Some ==> sorted@[a].1->0
                    == m[sorted@[a].0@],
            forall|a: int| 0 <= a < sorted@.len() ==> (#[trigger] sorted@[a]).0@.len() >= rt@.len(),
            forall|a: int|
                0 <= a < sorted@.len() && (#[trigger] sorted@[a]).0@.len() > rt@.len()
                    ==> has_key(sorted@, sorted@[a].0@.drop_last()),
            forall|a: int|
                0 <= a < i ==> r@[a] == (if m.contains_key((#[trigger] sorted@[a]).0@) {
                    Some(derived_for(m, rt@, sorted@[a].0@))
                } else {
                    None
                }),
        decreases n - i,
    {
        match sorted[i].1 {
            None => {
                r.push(None);
            },
            Some(st) => {
                let duration_relative_to_root = match sorted[0].1 {
                    Some(rst) => Some(Ratio { numer: st.duration, denom: rst.duration }),
                    None => None,
                };
                let duration_relative_to_parent = if sorted[i].0.depth() == rt.depth() {
                    None
                } else {
                    let parent = match sorted[i].0.parent() {
                        Some(parent) => parent,
                        None => {
                            proof {
                                assert(sorted@[i as int].0@.len() > rt@.len());
                                assert(false);
                            }
                            return r;
                        },
                    };
                    match find_key(sorted, &parent) {
                        Some(j) => {
                            proof {
                                assert(sorted@[j as int].0@ == sorted@[i as int].0@.drop_last());
                            }
                            match sorted[j].1 {
                                Some(pst) => Some(
                                    Ratio { numer: st.duration, denom: pst.duration },
                                ),
                                None => None,
                            }
                        },
                        None => {
                            proof {
                                assert(has_key(sorted@, sorted@[i as int].0@.drop_last()));
                                let j = key_index_of(sorted@, sorted@[i as int].0@.drop_last());
                                assert(0 <= j < sorted@.len() && sorted@[j].0@ == parent@);
                                assert(false);
                            }
                            return r;
                        },
                    }
                };
                r.push(
                    Some(
                        DerivedStats {
                            duration: st.duration,
                            count: st.count,
                            duration_relative_to_parent,
                            duration_relative_to_root,
                        },
                    ),
                );
                proof {
                    assert(r@.last() == Some(derived_for(m, rt@, sorted@[i as int].0@)));
                }
            },
        }
        i = i + 1;
    }
    r
}

/// The sorted, parent-closed node paths form a valid depth-first ordering.
#[verifier::spinoff_prover]
#[verifier::rlimit(60)]
proof fn lemma_nodes_form_df(
    sorted: Seq<(SpanPath, Option<DirectStats>)>,
    d: Seq<Seq<Seq<char>>>,
    rt: SpanPath,
)
    requires
        d == sorted.map_values(|p: (SpanPath, Option<DirectStats>)| p.0@),
        sorted.len() > 0,
        sorted[0].0@ == rt@,
        forall|i: int, k: int|
            0 <= i < k < sorted.len() ==> (#[trigger] sorted[i]).0@ != (#[trigger] sorted[k]).0@,
        forall|i: int, k: int|
            0 <= i < k < sorted.len() ==> path_lt(
                (#[trigger] sorted[i]).0@,
                (#[trigger] sorted[k]).0@,
            ),
        forall|i: int|
            0 <= i < sorted.len() ==> prefix_of(rt@, (#[trigger] sorted[i]).0@)
                && sorted[i].0@.len() >= rt@.len(),
        forall|i: int|
            0 <= i < sorted.len() && (#[trigger] sorted[i]).0@.len() > rt@.len() ==> has_key(
                sorted,
                sorted[i].0@.drop_last(),
            ),
    ensures
        depth_first_ok(d),
{
    assert(forall|a: int| 0 <= a < d.len() ==> #[trigger] d[a] == sorted[a].0@);
    assert forall|a: int, b: int| 0 <= a < b < d.len() implies path_lt(
        #[trigger] d[a],
        #[trigger] d[b],
    ) by {
        assert(path_lt(sorted[a].0@, sorted[b].0@));
    }
    assert forall|a: int| 0 <= a < d.len() implies prefix_of(d[0], #[trigger] d[a]) by {
        assert(prefix_of(rt@, sorted[a].0@));
    }
    assert forall|a: int| 1 <= a < d.len() implies #[trigger] contains_path(
        d,
        d[a].drop_last(),
    ) by {
        assert(sorted[a].0@.len() >= rt@.len());
        if sorted[a].0@.len() == rt@.len() {
            assert(prefix_of(rt@, sorted[a].0@));
            assert(sorted[a].0@ =~= rt@);
            assert(sorted[0].0@ != sorted[a].0@);
            assert(false);
        }
        assert(has_key(sorted, sorted[a].0@.drop_last()));
        let j = key_index_of(sorted, sorted[a].0@.drop_last());
        assert(0 <= j < d.len() && d[j] == d[a].drop_last());
    }
    lemma_sorted_closed_df_ok(d);
}

/// The sorted, parent-closed node paths with their derived payloads hold
/// what the timing tree promises.
#[verifier::spinoff_prover]
#[verifier::rlimit(60)]
proof fn lemma_nodes_match_holds(
    sorted: Seq<(SpanPath, Option<DirectStats>)>,
    d: Seq<Seq<Seq<char>>>,
    pl: Seq<Option<DerivedStats>>,
    rt: SpanPath,
    m: Map<Seq<Seq<char>>, DirectStats>,
)
    requires
        m != Map::<Seq<Seq<char>>, DirectStats>::empty(),
        d == sorted.map_values(|p: (SpanPath, Option<DirectStats>)| p.0@),
        pl.len() == sorted.len(),
        sorted.len() > 0,
        sorted[0].0@ == rt@,
        forall|i: int, k: int|
            0 <= i < k < sorted.len() ==> path_lt(
                (#[trigger] sorted[i]).0@,
                (#[trigger] sorted[k]).0@,
            ),
        forall|i: int|
            0 <= i < sorted.len() ==> prefix_of(rt@, (#[trigger] sorted[i]).0@)
                && sorted[i].0@.len() >= rt@.len(),
        forall|i: int|
            0 <= i < sorted.len() ==> covered_by_measured(m, (#[trigger] sorted[i]).0@),
        forall|k: Seq<Seq<char>>| #[trigger] m.contains_key(k) ==> prefix_of(rt@, k),
        forall|k: Seq<Seq<char>>, len: int|
            m.contains_key(k) && rt@.len() <= len <= k.len() ==> #[trigger] has_key(
                sorted,
                k.subrange(0, len),
            ),
        (exists|k: Seq<Seq<char>>| #[trigger] m.contains_key(k) && k.len() == rt@.len()) || (
        exists|k1: Seq<Seq<char>>, k2: Seq<Seq<char>>|
            m.contains_key(k1) && m.contains_key(k2) && k1.len() > rt@.len() && k2.len()
                > rt@.len() && #[trigger] k1[rt@.len() as int] != #[trigger] k2[rt@.len() as int]),
        forall|i: int|
            0 <= i < sorted.len() ==> pl[i] == (if m.contains_key((#[trigger] sorted[i]).0@) {
                Some(derived_for(m, rt@, sorted[i].0@))
            } else {
                None
            }),
    ensures
        timing_nodes_match(m, d, pl),
{
    assert(forall|a: int| 0 <= a < d.len() ==> #[trigger] d[a] == sorted[a].0@);
    assert(d[0] == rt@);
    assert forall|a: int, b: int| 0 <= a < b < d.len() implies path_lt(
        #[trigger] d[a],
        #[trigger] d[b],
    ) by {
        assert(path_lt(sorted[a].0@, sorted[b].0@));
    }
    assert forall|i2: int|
        0 <= i2 < d.len() implies (#[trigger] d[i2]).len() >= d[0].len() && covered_by_measured(
        m,
        d[i2],
    ) by {
        assert(sorted[i2].0@.len() >= rt@.len());
        assert(covered_by_measured(m, sorted[i2].0@));
    }
    assert forall|k: Seq<Seq<char>>, len: int|
        m.contains_key(k) && d[0].len() <= len <= k.len() implies #[trigger] contains_path(
        d,
        k.subrange(0, len),
    ) by {
        assert(has_key(sorted, k.subrange(0, len)));
        let i3 = key_index_of(sorted, k.subrange(0, len));
        assert(0 <= i3 < d.len() && d[i3] == k.subrange(0, len));
    }
    assert forall|i2: int|
        0 <= i2 < d.len() implies pl[i2] == (if m.contains_key(#[trigger] d[i2]) {
        Some(derived_for(m, d[0], d[i2]))
    } else {
        None
    }) by {
        assert(pl[i2] == (if m.contains_key(sorted[i2].0@) {
            Some(derived_for(m, rt@, sorted[i2].0@))
        } else {
            None
        }));
    }
}

/// The root and the sorted, ancestor-closed node list of one bucket.
struct SortedNodes {
    rt: SpanPath,
    nodes: Vec<(SpanPath, Option<DirectStats>)>,
}

impl AccumulatedTimings {
    /// Collects every measured path, every ancestor of one down to the
    /// common ancestor of all, and sorts them lexicographically.
    #[verifier::spinoff_prover]
        fn sorted_closure(&self) -> (r: Option<SortedNodes>)
        requires
            self.wf(),
        ensures
            (r is Some) == (self.stats_view() != Map::<Seq<Seq<char>>, DirectStats>::empty()),
            r matches Some(sn) ==> ({
                let s = sn.nodes@;
                let rt = sn.rt@;
                let m = self.stats_view();
                &&& s.len() > 0
                &&& s[0].0@ == rt
                &&& forall|i: int, k: int|
                    0 <= i < k < s.len() ==> (#[trigger] s[i]).0@ != (#[trigger] s[k]).0@
                &&& forall|i: int, k: int|
                    0 <= i < k < s.len() ==> path_lt((#[trigger] s[i]).0@, (#[trigger] s[k]).0@)
                &&& forall|i: int|
                    0 <= i < s.len() ==> prefix_of(rt, (#[trigger] s[i]).0@) && s[i].0@.len()
                        >= rt.len()
                &&& forall|i: int|
                    0 <= i < s.len() ==> ((#[trigger] s[i]).1 is Some <==> m.contains_key(
                        s[i].0@,
                    ))
                &&& forall|i: int|
                    0 <= i < s.len() && (#[trigger] s[i]).1 is Some ==> s[i].1->0 == m[s[i].0@]
                &&& forall|i: int|
                    0 <= i < s.len() && (#[trigger] s[i]).0@.len() > rt.len() ==> has_key(
                        s,
                        s[i].0@.drop_last(),
                    )
                &&& forall|i: int|
                    0 <= i < s.len() ==> covered_by_measured(m, (#[trigger] s[i]).0@)
                &&& forall|k: Seq<Seq<char>>| #[trigger] m.contains_key(k) ==> prefix_of(rt, k)
                &&& forall|k: Seq<Seq<char>>, len: int|
                    m.contains_key(k) && rt.len() <= len <= k.len() ==> #[trigger] has_key(
                        s,
                        k.subrange(0, len),
                    )
                &&& ((exists|k: Seq<Seq<char>>| #[trigger] m.contains_key(k) && k.len()
                    == rt.len()) || (exists|k1: Seq<Seq<char>>, k2: Seq<Seq<char>>|
                    m.contains_key(k1) && m.contains_key(k2) && k1.len() > rt.len() && k2.len()
                        > rt.len() && #[trigger] k1[rt.len() as int] != #[trigger] k2[rt.len() as int]))
            }),
    {
        let ghost m = self.stats_view();
        proof {
            lemma_stats_map_bridge(self.span_stats@, m);
        }
        let rt = match common_root(&self.span_stats) {
            None => {
                proof {
                    lemma_assoc_map_empty(self.pairs());
                    assert(m =~= Map::<Seq<Seq<char>>, DirectStats>::empty());
                }
                return None;
            },
            Some(rt) => rt,
        };
        proof {
            assert(m != Map::<Seq<Seq<char>>, DirectStats>::empty()) by {
                assert(m.contains_key(self.span_stats@[0].0@));
            }
        }
        let closed = closed_pairs(&self.span_stats, &rt);
        let sorted = sort_pairs(closed);
        proof {
            lemma_sorted_keys_unique(sorted@);
            lemma_sorted_keys_under_root(self.span_stats@, closed@, sorted@, rt);
            lemma_root_stands_first(self.span_stats@, closed@, sorted@, rt);
            lemma_parents_present(self.span_stats@, closed@, sorted@, rt);
            lemma_values_reflect_map(self.span_stats@, closed@, sorted@, m);
            assert forall|i: int| 0 <= i < sorted@.len() implies covered_by_measured(
                m,
                (#[trigger] sorted@[i]).0@,
            ) by {
                lemma_key_covered(self.span_stats@, closed@, sorted@, rt, m, i);
            }
            assert forall|k: Seq<Seq<char>>, len: int|
                m.contains_key(k) && rt@.len() <= len <= k.len() implies #[trigger] has_key(
                sorted@,
                k.subrange(0, len),
            ) by {
                let j = choose|j: int|
                    0 <= j < self.span_stats@.len() && (#[trigger] self.span_stats@[j]).0@ == k;
                lemma_cover_complete(self.span_stats@, closed@, sorted@, rt, j, len);
                assert(has_key(sorted@, self.span_stats@[j].0@.subrange(0, len)));
                assert(self.span_stats@[j].0@.subrange(0, len) == k.subrange(0, len));
            }
            lemma_root_depth_witness(self.span_stats@, rt, m);
        }
        Some(SortedNodes { rt, nodes: sorted })
    }

    /// Builds the timing tree of this bucket: its nodes are the measured
    /// span paths, their common ancestor as the root, and every ancestor in
    /// between, sorted lexicographically depth-first; a measured node
    /// carries its derived statistics and an inferred node carries none.
    #[verifier::spinoff_prover]
    #[verifier::rlimit(60)]
    pub fn create_timing_tree(&self) -> (r: TimingTree)
        requires
            self.wf(),
        ensures
            timing_tree_matches(self.stats_view(), r),
    {
        let ghost m = self.stats_view();
        let sn = match self.sorted_closure() {
            None => {
                let t = SpanTree::new_empty();
                return t;
            },
            Some(sn) => sn,
        };
        let SortedNodes { rt, nodes: sorted } = sn;
        let payloads = derive_payloads(&sorted, &rt, Ghost(m));
        let n = sorted.len();
        let mut paths: Vec<SpanPath> = Vec::new();
        let mut i: usize = 0;
        while i < n
            invariant
                n == sorted@.len(),
                i <= n,
                paths@.len() == i,
                forall|a: int| 0 <= a < i ==> (#[trigger] paths@[a])@ == sorted@[a].0@,
            decreases n - i,
        {
            paths.push(sorted[i].0.clone());
            i = i + 1;
        }
        let ghost d = sorted@.map_values(|p: (SpanPath, Option<DirectStats>)| p.0@);
        proof {
            assert(paths.deep_view() =~= d) by {
                assert(forall|a: int|
                    0 <= a < n ==> #[trigger] paths.deep_view()[a] == paths@[a]@);
                assert(forall|a: int| 0 <= a < n ==> #[trigger] d[a] == sorted@[a].0@);
            }
            lemma_nodes_form_df(sorted@, d, rt);
        }
        let tree = match SpanTree::try_from_depth_first_ordering(paths, payloads) {
            Ok(tree) => tree,
            Err(_) => {
                proof {
                    assert(false);
                }
                SpanTree::new_empty()
            },
        };
        proof {
            lemma_nodes_match_holds(sorted@, d, payloads@, rt, m);
            assert(tree.paths_view() == d);
            assert(tree.payloads_view() == payloads@);
            assert(timing_tree_matches(m, tree));
        }
        tree
    }
}

} // verus!
