use packt_core::error::PacktError;
use packt_core::geometry::Rectangle;
use packt_core::problem::{Problem, Variant};
use packt_core::runner::{judge_event, judge_output, sweep_grid, BatchGuard, Record, SolverEvent};

fn sample_problem() -> Problem {
    Problem {
        variant: Variant::Fixed(22),
        allow_rotation: false,
        rectangles: vec![Rectangle::new(12, 8), Rectangle::new(10, 9)],
        source: None,
    }
}

fn sample_output() -> String {
    let mut text = sample_problem().to_text();
    text.push_str("\nplacement of rectangles\n0 0\n24 3");
    text
}

#[test]
fn judge_output_accepts_good_answer() {
    let problem = sample_problem();
    let evaluation = judge_output(&problem, &sample_output(), 42).unwrap();
    assert_eq!(evaluation.container, Rectangle::new(34, 22));
    assert_eq!(evaluation.min_area, 186);
    assert_eq!(evaluation.duration_ms, 42);
    assert!(evaluation.min_area <= 34 * 22);
}

#[test]
fn judge_output_rejects_garbage() {
    let problem = sample_problem();
    let result = judge_output(&problem, "no placements here", 1);
    assert!(matches!(result, Err(PacktError::FormatError(_))));
}

#[test]
fn judge_output_rejects_overlapping_answer() {
    let problem = sample_problem();
    let mut text = problem.to_text();
    text.push_str("\nplacement of rectangles\n0 0\n0 0");
    let result = judge_output(&problem, &text, 1);
    assert!(matches!(result, Err(PacktError::OverlapError)));
}

#[test]
fn timeout_event_maps_to_timeout_error() {
    let problem = sample_problem();
    let result = judge_event(&problem, SolverEvent::TimedOut { elapsed_ms: 300000 });
    assert!(matches!(
        result,
        Err(PacktError::TimeoutError { elapsed_ms: 300000 })
    ));
}

#[test]
fn spawn_failure_maps_to_spawn_error() {
    let problem = sample_problem();
    let result = judge_event(
        &problem,
        SolverEvent::SpawnFailed {
            reason: String::from("no such file"),
        },
    );
    assert!(matches!(result, Err(PacktError::SpawnError(_))));
}

#[test]
fn exited_event_is_judged() {
    let problem = sample_problem();
    let result = judge_event(
        &problem,
        SolverEvent::Exited {
            output: sample_output(),
            duration_ms: 7,
        },
    );
    assert!(result.is_ok());
}

#[test]
fn sweep_grid_is_the_cartesian_product() {
    let xs = vec![1i64, 2, 3];
    let ys = vec![10i64, 20];
    let grid = sweep_grid(&xs, &ys);
    assert_eq!(
        grid,
        vec![(1, 10), (1, 20), (2, 10), (2, 20), (3, 10), (3, 20)]
    );
    let empty = sweep_grid(&vec![], &ys);
    assert!(empty.is_empty());
}

#[test]
fn record_of_success() {
    let problem = sample_problem();
    let evaluation = judge_output(&problem, &sample_output(), 1234).unwrap();
    let record = Record::new(&problem, Ok(evaluation), "packt-07.txt");
    assert_eq!(record.filename, "packt-07.txt");
    assert_eq!(record.n, 2);
    assert_eq!(record.variant, "fixed 22");
    assert!(!record.rotation_allowed);
    assert!(record.perfect_packing);
    assert_eq!(record.error, None);
    assert_eq!(record.container.as_deref(), Some("34 22"));
    assert_eq!(record.min_area, Some(186));
    assert_eq!(record.empty_area, Some(34 * 22 - 186));
    assert_eq!(record.duration.as_deref(), Some("1.234"));
}

#[test]
fn record_of_failure() {
    let problem = sample_problem();
    let record = Record::new(
        &problem,
        Err(PacktError::TimeoutError { elapsed_ms: 1000 }),
        "hand-written.txt",
    );
    assert!(!record.perfect_packing);
    assert!(record.error.is_some());
    assert_eq!(record.container, None);
    assert_eq!(record.min_area, None);
    assert_eq!(record.empty_area, None);
    assert_eq!(record.duration, None);
}

#[test]
fn batch_guard_rejects_second_batch() {
    let mut guard = BatchGuard::new();
    assert!(guard.try_start(2).is_ok());
    assert!(matches!(guard.try_start(1), Err(PacktError::BusyError)));
    assert!(!guard.job_done());
    assert!(matches!(guard.try_start(1), Err(PacktError::BusyError)));
    assert!(guard.job_done());
    assert!(guard.try_start(5).is_ok());
}

#[test]
fn error_messages_name_the_failure() {
    assert_eq!(PacktError::OverlapError.message(), "Overlap in solution");
    assert_eq!(
        PacktError::BoundsExceededError { top: 9, bound: 5 }.message(),
        "Solution placements exceed problem bounds: top: 9, bound: 5"
    );
    assert_eq!(
        PacktError::InvariantViolation.message(),
        "Undetected overlap in solution"
    );
}
