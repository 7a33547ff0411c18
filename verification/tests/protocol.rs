use packt_core::geometry::{Placement, Point, Rectangle, Rotation};
use packt_core::problem::{Problem, Variant};
use packt_core::solution::Solution;
use packt_core::error::PacktError;

const INPUT: &str =
    "container height: fixed 22\nrotations allowed: no\nnumber of rectangles: 2\n12 8\n10 9";

#[test]
fn problem_parsing() {
    let expected = Problem {
        variant: Variant::Fixed(22),
        allow_rotation: false,
        rectangles: vec![Rectangle::new(12, 8), Rectangle::new(10, 9)],
        source: None,
    };
    let input = "container height: fixed 22\nrotations allowed: no\nnumber of rectangles: 6\n12 8\n10 9";
    let result = Problem::parse(input).unwrap();
    assert_eq!(result, expected);
}

#[test]
fn parsing() {
    let expected = Problem {
        variant: Variant::Fixed(22),
        allow_rotation: false,
        rectangles: vec![Rectangle::new(12, 8), Rectangle::new(10, 9)],
        source: None,
    };
    let result = Problem::parse(INPUT).unwrap();
    assert_eq!(result, expected);
}

#[test]
fn problem_format_parse() {
    assert_eq!(INPUT, Problem::parse(INPUT).unwrap().to_text());
}

#[test]
fn domain_solution_parsing() {
    let r1 = Rectangle::new(12, 8);
    let r2 = Rectangle::new(10, 9);
    let expected = Solution {
        variant: Variant::Fixed(22),
        allow_rotation: false,
        source: None,
        placements: vec![
            Placement::new(r1, Rotation::Normal, Point::new(0, 0)),
            Placement::new(r2, Rotation::Normal, Point::new(24, 3)),
        ],
    };
    let input = "container height: fixed 22\nrotations allowed: no\nnumber of rectangles: \
                 6\n12 8\n10 9\nplacement of rectangles\n0 0\n24 3";
    let result = Solution::parse(input).unwrap();
    assert_eq!(result, expected);
}

#[test]
fn solution_solution_parsing() {
    let r1 = Rectangle::new(12, 8);
    let r2 = Rectangle::new(10, 9);
    let expected = Solution {
        variant: Variant::Fixed(22),
        allow_rotation: false,
        source: None,
        placements: vec![
            Placement::new(r1, Rotation::Normal, Point::new(0, 0)),
            Placement::new(r2, Rotation::Normal, Point::new(24, 3)),
        ],
    };
    let input = "container height: fixed 22\nrotations allowed: no\nnumber of rectangles: \
                 6\n12 8\n10 9\nplacement of rectangles\n0 0\n24 3";
    let result = Solution::parse(input).unwrap();
    assert_eq!(result, expected);
}

#[test]
fn fixed_problem_scenario() {
    let problem = Problem {
        variant: Variant::Fixed(22),
        allow_rotation: false,
        rectangles: vec![Rectangle::new(12, 8), Rectangle::new(10, 9)],
        source: None,
    };
    let text = problem.to_text();
    assert_eq!(
        text,
        "container height: fixed 22\nrotations allowed: no\nnumber of rectangles: 2\n12 8\n10 9"
    );
    let mut solution_text = text.clone();
    solution_text.push_str("\nplacement of rectangles\n0 0\n24 3");
    let solution = Solution::parse(&solution_text).unwrap();
    assert_eq!(solution.placements.len(), 2);
    assert_eq!(solution.placements[0].bottom_left, Point::new(0, 0));
    assert_eq!(solution.placements[0].top_right, Point::new(11, 7));
    assert_eq!(solution.placements[1].bottom_left, Point::new(24, 3));
    assert_eq!(solution.placements[1].top_right, Point::new(33, 11));
    assert!(solution.is_valid());
}

#[test]
fn free_problem_round_trip() {
    let problem = Problem {
        variant: Variant::Free,
        allow_rotation: true,
        rectangles: vec![Rectangle::new(1, 1), Rectangle::new(4294967295, 7)],
        source: None,
    };
    let text = problem.to_text();
    assert_eq!(Problem::parse(&text).unwrap(), problem);
}

#[test]
fn empty_rectangle_list_round_trip() {
    let problem = Problem {
        variant: Variant::Free,
        allow_rotation: false,
        rectangles: vec![],
        source: None,
    };
    let text = problem.to_text();
    assert_eq!(
        text,
        "container height: free\nrotations allowed: no\nnumber of rectangles: 0"
    );
    assert_eq!(Problem::parse(&text).unwrap(), problem);
}

#[test]
fn missing_count_line_means_no_rectangles() {
    let problem = Problem::parse("container height: free\nrotations allowed: yes").unwrap();
    assert_eq!(problem.rectangles.len(), 0);
    assert_eq!(problem.variant, Variant::Free);
    assert!(problem.allow_rotation);
}

#[test]
fn malformed_header_is_format_error() {
    let result = Problem::parse("container width: free\nrotations allowed: no");
    assert!(matches!(result, Err(PacktError::FormatError(_))));
    let result = Problem::parse("");
    assert!(matches!(result, Err(PacktError::FormatError(_))));
    let result = Problem::parse("container height: fixed ten\nrotations allowed: no");
    assert!(matches!(result, Err(PacktError::FormatError(_))));
    let result = Problem::parse("container height: free\nrotations allowed: sometimes");
    assert!(matches!(result, Err(PacktError::FormatError(_))));
}

#[test]
fn malformed_rectangle_line_is_format_error() {
    let result =
        Problem::parse("container height: free\nrotations allowed: no\nnumber of rectangles: 1\n12");
    assert!(matches!(result, Err(PacktError::FormatError(_))));
    let result = Problem::parse(
        "container height: free\nrotations allowed: no\nnumber of rectangles: 1\n12 8 3",
    );
    assert!(matches!(result, Err(PacktError::FormatError(_))));
    let result = Problem::parse(
        "container height: free\nrotations allowed: no\nnumber of rectangles: 1\n12 9999999999999",
    );
    assert!(matches!(result, Err(PacktError::FormatError(_))));
}

#[test]
fn missing_placement_line_is_format_error() {
    let input = "container height: fixed 22\nrotations allowed: no\nnumber of rectangles: \
                 2\n12 8\n10 9\nplacement of rectangles\n0 0";
    assert!(matches!(
        Solution::parse(input),
        Err(PacktError::FormatError(_))
    ));
}

#[test]
fn surplus_placement_lines_are_format_error() {
    let input = "container height: fixed 22\nrotations allowed: no\nnumber of rectangles: \
                 2\n12 8\n10 9\nplacement of rectangles\n0 0\n24 3\n50 50";
    assert!(matches!(
        Solution::parse(input),
        Err(PacktError::FormatError(_))
    ));
}

#[test]
fn missing_separator_is_format_error() {
    let input = "container height: fixed 22\nrotations allowed: no\nnumber of rectangles: \
                 2\n12 8\n10 9\n0 0\n24 3";
    assert!(matches!(
        Solution::parse(input),
        Err(PacktError::FormatError(_))
    ));
}

#[test]
fn rotated_placement_grammar() {
    let input = "container height: free\nrotations allowed: yes\nnumber of rectangles: \
                 1\n12 8\nplacement of rectangles\nyes 0 0";
    let solution = Solution::parse(input).unwrap();
    assert_eq!(solution.placements[0].rotation, Rotation::Rotated);
    assert_eq!(solution.placements[0].top_right, Point::new(7, 11));

    let two_tokens_under_rotation = "container height: free\nrotations allowed: yes\nnumber of \
                                     rectangles: 1\n12 8\nplacement of rectangles\n0 0";
    assert!(matches!(
        Solution::parse(two_tokens_under_rotation),
        Err(PacktError::FormatError(_))
    ));

    let three_tokens_without_rotation = "container height: free\nrotations allowed: no\nnumber \
                                         of rectangles: 1\n12 8\nplacement of rectangles\nno 0 0";
    assert!(matches!(
        Solution::parse(three_tokens_without_rotation),
        Err(PacktError::FormatError(_))
    ));
}

#[test]
fn digest_shows_bounding_box() {
    let problem = Problem {
        variant: Variant::Fixed(10),
        allow_rotation: false,
        rectangles: vec![Rectangle::new(3, 10)],
        source: Some(Rectangle::new(3, 10)),
    };
    assert_eq!(
        problem.digest(),
        "container height: fixed 10\nrotations allowed: no\nnumber of rectangles: 1\n\
         bounding box: 3 10\n3 10"
    );
}

#[test]
fn variant_text() {
    assert_eq!(Variant::Free.to_text(), "free");
    assert_eq!(Variant::Fixed(22).to_text(), "fixed 22");
}
