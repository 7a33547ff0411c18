use packt_core::geometry::{Rectangle, Rotation};
use packt_core::problem::{decompose, gen_with_area, Generator, Problem, Variant};
use packt_core::solution::Solution;

#[test]
fn problem_generate_from() {
    let r = Rectangle::new(1000, 1000);
    let p = Problem::generate_from(r, 50, Variant::Free, false);
    let a: u32 = p.rectangles.iter().map(|r| r.height * r.width).sum();
    assert_eq!(a, 1000 * 1000);
}

#[test]
fn generate_from_preserves_area() {
    for n in [1usize, 2, 7, 50] {
        let r = Rectangle::new(40, 25);
        let p = Problem::generate_from(r, n, Variant::Free, false);
        assert_eq!(p.rectangles.len(), n);
        let a: u64 = p
            .rectangles
            .iter()
            .map(|r| r.width as u64 * r.height as u64)
            .sum();
        assert_eq!(a, 1000);
        assert_eq!(p.source, Some(r));
    }
}

#[test]
fn generate_from_never_produces_degenerate_rectangles() {
    let r = Rectangle::new(30, 17);
    for n in [1usize, 5, 100, 510] {
        let p = Problem::generate_from(r, n, Variant::Fixed(17), true);
        for rect in &p.rectangles {
            assert!(rect.width >= 1);
            assert!(rect.height >= 1);
        }
    }
}

#[test]
fn generate_from_unit_grid_short_circuit() {
    let r = Rectangle::new(6, 4);
    let p = Problem::generate_from(r, 24, Variant::Free, false);
    assert_eq!(p.rectangles.len(), 24);
    for rect in &p.rectangles {
        assert_eq!(*rect, Rectangle::new(1, 1));
    }
    // Every generated problem keeps its source rectangle: it is the
    // known-solution ground truth.
    assert_eq!(p.source, Some(r));
}

#[test]
fn decomposition_is_a_valid_packing() {
    let r = Rectangle::new(100, 60);
    let placements = decompose(r, 37);
    assert_eq!(placements.len(), 37);
    let mut area = 0u64;
    for p in &placements {
        assert_eq!(p.rotation, Rotation::Normal);
        assert!(p.rectangle.width >= 1 && p.rectangle.height >= 1);
        assert!(p.top_right.x < 100 && p.top_right.y < 60);
        area += p.rectangle.width as u64 * p.rectangle.height as u64;
    }
    assert_eq!(area, 100 * 60);
    // The generator's own decomposition always passes the validator.
    let solution = Solution {
        variant: Variant::Free,
        allow_rotation: false,
        source: None,
        placements,
    };
    assert!(solution.is_valid());
}

#[test]
fn gen_with_area_factors_exactly() {
    for area in [1u64, 2, 7, 50, 360, 250000, 4294967295] {
        let r = gen_with_area(area);
        assert_eq!(r.width as u64 * r.height as u64, area);
        assert!(r.width >= 1 && r.height >= 1);
    }
}

#[test]
fn generator_respects_requested_settings() {
    let mut g = Generator::new();
    g.container(Rectangle::new(20, 20));
    g.rectangles(30);
    g.allow_rotation(false);
    g.variant(Variant::Fixed(99));
    let p = g.generate();
    assert_eq!(p.rectangles.len(), 30);
    assert!(!p.allow_rotation);
    // A requested fixed height becomes the container's height.
    assert_eq!(p.variant, Variant::Fixed(20));
    let a: u64 = p
        .rectangles
        .iter()
        .map(|r| r.width as u64 * r.height as u64)
        .sum();
    assert_eq!(a, 400);
}

#[test]
fn generator_caps_count_at_container_area() {
    let mut g = Generator::new();
    g.container(Rectangle::new(3, 2));
    g.rectangles(50);
    g.variant(Variant::Free);
    let p = g.generate();
    assert_eq!(p.rectangles.len(), 6);
}

#[test]
fn generator_count_without_container() {
    let mut g = Generator::new();
    g.rectangles(12);
    g.variant(Variant::Free);
    let p = g.generate();
    // Without a container, the sized container's area covers the
    // requested count exactly.
    assert_eq!(p.rectangles.len(), 12);
    let a: u64 = p
        .rectangles
        .iter()
        .map(|r| r.width as u64 * r.height as u64)
        .sum();
    assert_eq!(a, 12 * 50);
}

#[test]
fn generator_defaults_are_usable() {
    let p = Problem::generator().generate();
    assert!(p.rectangles.len() >= 1);
    for rect in &p.rectangles {
        assert!(rect.width >= 1 && rect.height >= 1);
    }
}
