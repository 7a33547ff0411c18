//! The decision logic of the solver-invocation harness: judging what a
//! solver process produced, the parameter grid of a sweep, the report
//! record of one attempt, and the guard that keeps batches from
//! running concurrently.
//! The process, pipe and timer work itself stays outside the library; it
//! hands an event in and takes the result back.

use vstd::prelude::*;
use crate::geometry::rect_area;
use crate::problem::{Problem, variant_chars, rect_line_chars, sum_areas};
use crate::solution::{
    Solution, Evaluation, spec_parse_solution, spec_valid, spec_container,
};
use crate::codec::{
    dec_chars, spec_contains, chars_of, contains_sub, append_u64, string_from_chars,
};
use crate::error::PacktError;

verus! {

/// What happened when the harness ran a solver once.
pub enum SolverEvent {
    /// The process exited within the deadline, with this standard
    /// output.
    Exited { output: String, duration_ms: u64 },
    /// The deadline fired first; the child was killed and its output
    /// discarded.
    TimedOut { elapsed_ms: u64 },
    /// The process could not be started.
    SpawnFailed { reason: String },
}

/// How one run's output must be judged against a problem: malformed
/// output is a format error, and a parsed solution is judged exactly as
/// `evaluate` judges it against the problem's height policy and
/// rectangle list.
pub open spec fn judgement(
    pm: crate::problem::ProblemModel,
    output: Seq<char>,
    duration_ms: u64,
    r: Result<Evaluation, PacktError>,
) -> bool {
    match spec_parse_solution(output) {
        None => r matches Err(e) && e is FormatError,
        Some(m) => {
            &&& ((r == Err::<Evaluation, PacktError>(PacktError::OverlapError)) <==> !spec_valid(
                m.placements,
            ))
            &&& spec_valid(m.placements) ==> match spec_container(m.placements, pm.variant) {
                Err(e) => r == Err::<Evaluation, PacktError>(e),
                Ok(c) => {
                    let need = sum_areas(pm.rectangles);
                    if need > rect_area(c) {
                        r == Err::<Evaluation, PacktError>(PacktError::InvariantViolation)
                    } else {
                        r == Ok::<Evaluation, PacktError>(
                            Evaluation {
                                container: c,
                                min_area: need as u64,
                                empty_area: (rect_area(c) - need) as u64,
                                duration_ms: duration_ms,
                            },
                        )
                    }
                },
            }
        },
    }
}

/// Parses solver output against the problem it answers, attaches that
/// problem, and judges the solution, as `judgement` describes it.
pub fn judge_output(problem: &Problem, output: &str, duration_ms: u64) -> (r: Result<
    Evaluation,
    PacktError,
>)
    ensures
        judgement(problem@, output@, duration_ms, r),
        r matches Ok(e) ==> e.min_area <= rect_area(e.container),
{
    let mut solution = match Solution::parse(output) {
        Ok(s) => s,
        Err(e) => {
            return Err(e);
        },
    };
    solution.source(problem.clone());
    solution.evaluate(duration_ms)
}

/// Maps the outcome of one solver invocation to a result: a timeout
/// or a spawn failure becomes its error kind, and produced output is
/// parsed and judged.
pub fn judge_event(problem: &Problem, event: SolverEvent) -> (r: Result<Evaluation, PacktError>)
    ensures
        match event {
            SolverEvent::TimedOut { elapsed_ms } => r == Err::<Evaluation, PacktError>(
                PacktError::TimeoutError { elapsed_ms },
            ),
            SolverEvent::SpawnFailed { .. } => r matches Err(e) && e is SpawnError,
            SolverEvent::Exited { output, duration_ms } => judgement(
                problem@,
                output@,
                duration_ms,
                r,
            ),
        },
        (r matches Err(e) && e is TimeoutError) ==> event is TimedOut,
        (r matches Err(e) && e is SpawnError) ==> event is SpawnFailed,
        r matches Ok(e) ==> event is Exited && e.min_area <= rect_area(e.container),
{
    match event {
        SolverEvent::Exited { output, duration_ms } => judge_output(
            problem,
            output.as_str(),
            duration_ms,
        ),
        SolverEvent::TimedOut { elapsed_ms } => Err(PacktError::TimeoutError { elapsed_ms }),
        SolverEvent::SpawnFailed { reason } => Err(PacktError::SpawnError(reason)),
    }
}

/// The Cartesian product of two parameter lists, in row-major order:
/// a sweep runs one invocation per pair and never stops early.
pub fn sweep_grid(xs: &Vec<i64>, ys: &Vec<i64>) -> (grid: Vec<(i64, i64)>)
    ensures
        grid@.len() == xs@.len() * ys@.len(),
        forall|i: int, j: int|
            0 <= i < xs@.len() && 0 <= j < ys@.len() ==> grid@[i * ys@.len() + j] == (
            xs@[i],
            ys@[j],
            ),
{
    let m = ys.len();
    let mut grid: Vec<(i64, i64)> = Vec::new();
    let mut i: usize = 0;
    proof {
        assert(0 * m as int == 0) by (nonlinear_arith);
    }
    while i < xs.len()
        invariant
            i <= xs@.len(),
            m == ys@.len(),
            grid@.len() == i * m,
            forall|a: int, b: int|
                0 <= a < i && 0 <= b < m ==> grid@[a * m + b] == (xs@[a], ys@[b]),
        decreases xs@.len() - i,
    {
        let mut j: usize = 0;
        while j < m
            invariant
                i < xs@.len(),
                j <= m,
                m == ys@.len(),
                grid@.len() == i * m + j,
                forall|a: int, b: int|
                    0 <= a < i && 0 <= b < m ==> grid@[a * m + b] == (xs@[a], ys@[b]),
                forall|b: int| 0 <= b < j ==> grid@[i as int * m + b] == (xs@[i as int], ys@[b]),
            decreases m - j,
        {
            grid.push((xs[i], ys[j]));
            proof {
                assert forall|a: int, b: int| 0 <= a < i && 0 <= b < m implies grid@[a * m + b]
                    == (xs@[a], ys@[b]) by {
                    assert(a * m + b < i * m + j) by (nonlinear_arith)
                        requires 0 <= a < i, 0 <= b < m, j >= 0,
                    ;
                    assert(a * m + b >= 0) by (nonlinear_arith)
                        requires a >= 0, b >= 0, m >= 0,
                    ;
                }
            }
            j = j + 1;
        }
        proof {
            assert(i * m + m == (i + 1) * m) by (nonlinear_arith);
        }
        i = i + 1;
    }
    grid
}

/// The duration field of a report: whole seconds, a dot, and the
/// remaining milliseconds.
pub open spec fn duration_chars(ms: int) -> Seq<char> {
    dec_chars(ms / 1000) + seq!['.'] + dec_chars(ms % 1000)
}

/// One line of a sweep or batch report: the problem's shape, whether
/// the file came from the generator, and either the metrics of a
/// successful evaluation or the error that ended the attempt.
pub struct Record {
    pub filename: String,
    pub n: usize,
    pub variant: String,
    pub rotation_allowed: bool,
    pub perfect_packing: bool,
    pub error: Option<String>,
    pub container: Option<String>,
    pub min_area: Option<u64>,
    pub empty_area: Option<u64>,
    pub duration: Option<String>,
}

impl Record {
    /// Builds the report line for one attempt. The perfect-packing flag
    /// is the generator's filename marker; on success the container is
    /// rendered as its two sides and the duration as seconds and
    /// milliseconds, and on failure only the error message is kept.
    pub fn new(problem: &Problem, evaluation: Result<Evaluation, PacktError>, filename: &str)
        -> (rec: Record)
        ensures
            rec.filename@ == filename@,
            rec.n == problem.rectangles@.len(),
            rec.variant@ == variant_chars(problem.variant),
            rec.rotation_allowed == problem.allow_rotation,
            rec.perfect_packing == spec_contains(filename@, "packt"@),
            match evaluation {
                Ok(e) => rec.error is None && match (rec.container, rec.min_area, rec.empty_area,
                rec.duration) {
                    (Some(c), Some(mina), Some(empty), Some(d)) => c@ == rect_line_chars(
                        e.container,
                    ) && mina == e.min_area && empty == e.empty_area && d@ == duration_chars(
                        e.duration_ms as int,
                    ),
                    _ => false,
                },
                Err(_) => rec.error is Some && rec.container is None && rec.min_area is None
                    && rec.empty_area is None && rec.duration is None,
            },
    {
        let fname_chars = chars_of(filename);
        let marker = chars_of("packt");
        let perfect_packing = contains_sub(&fname_chars, &marker);
        let (error, container, min_area, empty_area, duration): (
            Option<String>,
            Option<String>,
            Option<u64>,
            Option<u64>,
            Option<String>,
        ) = match evaluation {
            Ok(e) => {
                let mut c = String::new();
                append_u64(&mut c, e.container.width as u64);
                c.append(" ");
                proof {
                    reveal_strlit(" ");
                    assert(" "@ =~= seq![' ']);
                }
                append_u64(&mut c, e.container.height as u64);
                let mut d = String::new();
                append_u64(&mut d, e.duration_ms / 1000);
                d.append(".");
                proof {
                    reveal_strlit(".");
                    assert("."@ =~= seq!['.']);
                }
                append_u64(&mut d, e.duration_ms % 1000);
                (None, Some(c), Some(e.min_area), Some(e.empty_area), Some(d))
            },
            Err(err) => (Some(err.message()), None, None, None, None),
        };
        Record {
            filename: string_from_chars(&fname_chars),
            n: problem.rectangles.len(),
            variant: problem.variant.to_text(),
            rotation_allowed: problem.allow_rotation,
            perfect_packing,
            error,
            container,
            min_area,
            empty_area,
            duration,
        }
    }
}

/// The guard that lets only one batch of jobs run at once: a new
/// batch is rejected, not queued, while one is in flight.
pub struct BatchGuard {
    pub running: u32,
}

impl BatchGuard {
    /// A guard with nothing in flight.
    pub fn new() -> (g: BatchGuard)
        ensures
            g.running == 0,
    {
        BatchGuard { running: 0 }
    }

    /// Accepts a batch of jobs when none is in flight; while one is,
    /// answers with the busy error and changes nothing.
    pub fn try_start(&mut self, jobs: u32) -> (r: Result<(), PacktError>)
        ensures
            old(self).running == 0 ==> r is Ok && final(self).running == jobs,
            old(self).running != 0 ==> r == Err::<(), PacktError>(PacktError::BusyError)
                && final(self).running == old(self).running,
    {
        if self.running != 0 {
            return Err(PacktError::BusyError);
        }
        self.running = jobs;
        Ok(())
    }

    /// Records one finished job and reports whether it was the last.
    pub fn job_done(&mut self) -> (last: bool)
        requires
            old(self).running >= 1,
        ensures
            final(self).running == old(self).running - 1,
            last == (final(self).running == 0),
    {
        self.running = self.running - 1;
        self.running == 0
    }
}

} // verus!
