use myelin_geometry::convex_hull::is_counter_clockwise_turn;
use myelin_geometry::{ConvexHull, Point};

fn collect_hull(points: &[Point]) -> Vec<Point> {
    let mut hull = ConvexHull::try_new(points).unwrap();
    let mut collected: Vec<Point> = Vec::new();
    while let Some(point) = hull.next() {
        collected.push(point);
    }
    collected
}

#[test]
fn constructor_fails_with_zero_points() {
    assert!(ConvexHull::try_new(&[]).is_err());
}

#[test]
fn convex_hull_iterator_works() {
    let points = vec![
        Point { x: 5, y: 5 },
        Point { x: 10, y: 0 },
        Point { x: 15, y: 0 },
        Point { x: 20, y: 5 },
        Point { x: 10, y: 10 },
    ];

    let hull = collect_hull(&points);

    assert_eq!(points, hull);
}

#[test]
fn convex_hull_iterator_works_when_items_are_not_sorted() {
    let points = vec![
        Point { x: 20, y: 5 },
        Point { x: 10, y: 0 },
        Point { x: 10, y: 10 },
        Point { x: 15, y: 0 },
        Point { x: 5, y: 5 },
    ];

    let expected_hull = vec![
        Point { x: 5, y: 5 },
        Point { x: 10, y: 0 },
        Point { x: 15, y: 0 },
        Point { x: 20, y: 5 },
        Point { x: 10, y: 10 },
    ];

    let hull = collect_hull(&points);

    assert_eq!(expected_hull, hull);
}

#[test]
fn convex_hull_iterator_works_with_concave_points() {
    let points = vec![
        Point { x: 0, y: 0 },
        Point { x: 20, y: 0 },
        Point { x: 10, y: 5 },
        Point { x: 10, y: 10 },
    ];

    let expected_hull = vec![
        Point { x: 0, y: 0 },
        Point { x: 20, y: 0 },
        Point { x: 10, y: 10 },
    ];

    let hull = collect_hull(&points);

    assert_eq!(expected_hull, hull);
}

#[test]
fn construction_succeeds_on_every_nonempty_input() {
    assert!(ConvexHull::try_new(&[Point { x: 7, y: -3 }]).is_ok());
    assert!(ConvexHull::try_new(&[
        Point { x: 0, y: 0 },
        Point { x: 0, y: 0 },
        Point { x: -1, y: 4 },
    ])
    .is_ok());
}

#[test]
fn single_point_yields_exactly_that_point() {
    let points = vec![Point { x: 3, y: 3 }];

    let hull = collect_hull(&points);

    assert_eq!(vec![Point { x: 3, y: 3 }], hull);
}

#[test]
fn every_hull_vertex_is_drawn_from_the_input() {
    let points = vec![
        Point { x: 1, y: 9 },
        Point { x: -4, y: 2 },
        Point { x: 6, y: -5 },
        Point { x: 0, y: 0 },
        Point { x: 8, y: 8 },
    ];

    let hull = collect_hull(&points);

    assert!(!hull.is_empty());
    for vertex in &hull {
        assert!(points.contains(vertex));
    }
}

#[test]
fn first_hull_vertex_is_the_lexicographically_smallest_point() {
    let points = vec![
        Point { x: 4, y: -1 },
        Point { x: -2, y: 10 },
        Point { x: -2, y: -7 },
        Point { x: 9, y: 3 },
    ];

    let hull = collect_hull(&points);

    assert_eq!(Point { x: -2, y: -7 }, hull[0]);
}

#[test]
fn no_input_point_lies_clockwise_of_any_hull_edge() {
    let points = vec![
        Point { x: 0, y: 0 },
        Point { x: 20, y: 0 },
        Point { x: 10, y: 5 },
        Point { x: 10, y: 10 },
        Point { x: 3, y: 7 },
    ];

    let hull = collect_hull(&points);

    assert!(hull.len() >= 2);
    for i in 0..hull.len() {
        let from = hull[i];
        let to = hull[(i + 1) % hull.len()];
        for &point in &points {
            assert!(is_counter_clockwise_turn(point, from, to));
        }
    }
}

#[test]
fn permuting_the_input_does_not_change_the_hull() {
    let original_order = vec![
        Point { x: 5, y: 5 },
        Point { x: 10, y: 0 },
        Point { x: 15, y: 0 },
        Point { x: 20, y: 5 },
        Point { x: 10, y: 10 },
    ];
    let shuffled_order = vec![
        Point { x: 10, y: 10 },
        Point { x: 15, y: 0 },
        Point { x: 5, y: 5 },
        Point { x: 20, y: 5 },
        Point { x: 10, y: 0 },
    ];

    assert_eq!(collect_hull(&original_order), collect_hull(&shuffled_order));
}

#[test]
fn repeated_construction_and_consumption_yields_the_identical_sequence() {
    let points = vec![
        Point { x: 0, y: 0 },
        Point { x: 20, y: 0 },
        Point { x: 10, y: 5 },
        Point { x: 10, y: 10 },
    ];

    let first_run = collect_hull(&points);
    let second_run = collect_hull(&points);

    assert_eq!(first_run, second_run);
}

#[test]
fn duplicate_points_do_not_duplicate_hull_vertices() {
    let points = vec![
        Point { x: 0, y: 0 },
        Point { x: 0, y: 0 },
        Point { x: 10, y: 0 },
        Point { x: 10, y: 0 },
        Point { x: 5, y: 8 },
    ];

    let expected_hull = vec![
        Point { x: 0, y: 0 },
        Point { x: 10, y: 0 },
        Point { x: 5, y: 8 },
    ];

    let hull = collect_hull(&points);

    assert_eq!(expected_hull, hull);
}

#[test]
fn collinear_points_stop_the_scan_at_the_first_line_point() {
    let points = vec![
        Point { x: 0, y: 0 },
        Point { x: 5, y: 0 },
        Point { x: 10, y: 0 },
    ];

    let expected_hull = vec![Point { x: 0, y: 0 }, Point { x: 5, y: 0 }];

    let hull = collect_hull(&points);

    assert_eq!(expected_hull, hull);
}

#[test]
fn counter_clockwise_turn_is_classified_exactly() {
    let a = Point { x: 0, y: 0 };
    let b = Point { x: 4, y: 0 };
    let above = Point { x: 2, y: 3 };
    let below = Point { x: 2, y: -3 };
    let on_line = Point { x: 9, y: 0 };

    assert!(is_counter_clockwise_turn(a, b, above));
    assert!(!is_counter_clockwise_turn(a, b, below));
    assert!(is_counter_clockwise_turn(a, b, on_line));
}
