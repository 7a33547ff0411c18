use packt_core::geometry::{Placement, Point, Rectangle, Rotation};
use packt_core::problem::{Problem, Variant};
use packt_core::solution::Solution;
use packt_core::error::PacktError;

#[test]
fn overlap_detection() {
    let p1 = Placement::new(Rectangle::new(5, 5), Rotation::Normal, Point::new(0, 0));
    let p2 = Placement::new(Rectangle::new(5, 5), Rotation::Normal, Point::new(3, 3));
    assert!(p1.overlaps(&p2))
}

#[test]
fn overlap_is_symmetric() {
    let cases = [
        (Point::new(0, 0), Point::new(3, 3)),
        (Point::new(0, 0), Point::new(5, 0)),
        (Point::new(2, 9), Point::new(11, 2)),
        (Point::new(0, 0), Point::new(40, 40)),
    ];
    for (a, b) in cases {
        let p1 = Placement::new(Rectangle::new(5, 5), Rotation::Normal, a);
        let p2 = Placement::new(Rectangle::new(7, 3), Rotation::Rotated, b);
        assert_eq!(p1.overlaps(&p2), p2.overlaps(&p1));
    }
}

#[test]
fn touching_edges_count_as_overlap() {
    let p1 = Placement::new(Rectangle::new(5, 5), Rotation::Normal, Point::new(0, 0));
    let inside_edge = Placement::new(Rectangle::new(5, 5), Rotation::Normal, Point::new(4, 0));
    let outside_edge = Placement::new(Rectangle::new(5, 5), Rotation::Normal, Point::new(5, 0));
    assert!(p1.overlaps(&inside_edge));
    assert!(!p1.overlaps(&outside_edge));
}

#[test]
fn domain_validation() {
    let r = Rectangle::new(10, 9);
    let mut placements = Vec::new();
    let mut x = 0u32;
    for _ in 0..10000 {
        placements.push(Placement::new(r, Rotation::Normal, Point::new(x, 0)));
        x += 11;
    }
    let mut solution = Solution {
        variant: Variant::Fixed(22),
        allow_rotation: false,
        source: None,
        placements,
    };
    assert!(solution.is_valid());

    let p = Placement::new(r, Rotation::Normal, Point::new(0, 0));
    solution.placements = vec![p; 10000];
    assert!(!solution.is_valid());
}

#[test]
fn solution_validation() {
    let r = Rectangle::new(10, 9);
    let mut placements = Vec::new();
    let mut x = 0u32;
    for _ in 0..10000 {
        placements.push(Placement::new(r, Rotation::Normal, Point::new(x, 0)));
        x += 11;
    }
    let mut solution = Solution {
        variant: Variant::Fixed(22),
        allow_rotation: false,
        source: None,
        placements,
    };
    assert!(solution.is_valid());

    let p = Placement::new(r, Rotation::Normal, Point::new(0, 0));
    solution.placements = vec![p; 10000];
    assert!(!solution.is_valid());
}

#[test]
fn two_identical_placements_are_invalid() {
    let r = Rectangle::new(10, 9);
    let p1 = Placement::new(r, Rotation::Normal, Point::new(0, 0));
    let p2 = Placement::new(r, Rotation::Normal, Point::new(0, 0));
    assert!(p1.overlaps(&p2));
    let solution = Solution {
        variant: Variant::Free,
        allow_rotation: false,
        source: None,
        placements: vec![p1, p2],
    };
    assert!(!solution.is_valid());
}

fn solved(problem: Problem, placements: Vec<Placement>) -> Solution {
    Solution {
        variant: problem.variant,
        allow_rotation: problem.allow_rotation,
        source: Some(problem),
        placements,
    }
}

#[test]
fn evaluate_reports_metrics() {
    let problem = Problem {
        variant: Variant::Fixed(22),
        allow_rotation: false,
        rectangles: vec![Rectangle::new(12, 8), Rectangle::new(10, 9)],
        source: None,
    };
    let placements = vec![
        Placement::new(Rectangle::new(12, 8), Rotation::Normal, Point::new(0, 0)),
        Placement::new(Rectangle::new(10, 9), Rotation::Normal, Point::new(24, 3)),
    ];
    let evaluation = solved(problem, placements).evaluate(1234).unwrap();
    // The bounding box spans columns 0..=33; the fixed height replaces
    // the occupied height.
    assert_eq!(evaluation.container, Rectangle::new(34, 22));
    assert_eq!(evaluation.min_area, 12 * 8 + 10 * 9);
    assert_eq!(evaluation.empty_area, 34 * 22 - (12 * 8 + 10 * 9));
    assert_eq!(evaluation.duration_ms, 1234);
    // The filling rate never exceeds one.
    assert!(evaluation.min_area <= 34 * 22);
    let rate = evaluation.min_area as f32 / (34.0 * 22.0);
    assert!(rate <= 1.0);
}

#[test]
fn evaluate_rejects_overlap() {
    let problem = Problem {
        variant: Variant::Free,
        allow_rotation: false,
        rectangles: vec![Rectangle::new(10, 9), Rectangle::new(10, 9)],
        source: None,
    };
    let p = Placement::new(Rectangle::new(10, 9), Rotation::Normal, Point::new(0, 0));
    let result = solved(problem, vec![p, p]).evaluate(5);
    assert!(matches!(result, Err(PacktError::OverlapError)));
}

#[test]
fn evaluate_rejects_exceeded_bounds() {
    let problem = Problem {
        variant: Variant::Fixed(5),
        allow_rotation: false,
        rectangles: vec![Rectangle::new(10, 9)],
        source: None,
    };
    let p = Placement::new(Rectangle::new(10, 9), Rotation::Normal, Point::new(0, 0));
    let result = solved(problem, vec![p]).evaluate(5);
    assert!(matches!(
        result,
        Err(PacktError::BoundsExceededError { top: 9, bound: 5 })
    ));
}

#[test]
fn evaluate_rejects_filling_rate_above_one() {
    // The problem claims far more rectangle area than the placements
    // occupy: the pairwise scan passes, yet the rate would exceed one.
    let problem = Problem {
        variant: Variant::Free,
        allow_rotation: false,
        rectangles: vec![Rectangle::new(100, 100)],
        source: None,
    };
    let p = Placement::new(Rectangle::new(2, 2), Rotation::Normal, Point::new(0, 0));
    let result = solved(problem, vec![p]).evaluate(5);
    assert!(matches!(result, Err(PacktError::InvariantViolation)));
}

#[test]
fn evaluate_of_empty_solution() {
    let problem = Problem {
        variant: Variant::Free,
        allow_rotation: false,
        rectangles: vec![],
        source: None,
    };
    let evaluation = solved(problem, vec![]).evaluate(0).unwrap();
    assert_eq!(evaluation.container, Rectangle::new(1, 1));
    assert_eq!(evaluation.min_area, 0);
    assert_eq!(evaluation.empty_area, 1);
}
