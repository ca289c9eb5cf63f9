use kdtree_iced::geometry::{Line, UNIT};
use kdtree_iced::kdtree::KDTree;
use kdtree_iced::point::Point;

fn random_point() -> Point {
    Point::new(rand::random_range(0..=UNIT), rand::random_range(0..=UNIT))
}

fn brute_force_nearest(points: &[Point], target: Point) -> Point {
    *points
        .iter()
        .min_by(|a, b| {
            a.squared_distance(&target)
                .cmp(&b.squared_distance(&target))
        })
        .unwrap()
}

fn sorted(mut points: Vec<Point>) -> Vec<(i32, i32)> {
    let mut v: Vec<(i32, i32)> = points.drain(..).map(|p| (p.x, p.y)).collect();
    v.sort();
    v
}

/// The points of the session that the demo starts with, in units of
/// one millionth of the canvas side.
fn scenario_points() -> Vec<Point> {
    vec![
        Point::new(500_000, 400_000),
        Point::new(100_000, 700_000),
        Point::new(200_000, 850_000),
        Point::new(400_000, 550_000),
        Point::new(800_000, 200_000),
        Point::new(600_000, 820_000),
    ]
}

#[test]
fn test_nearest_point() {
    for _ in 0..100 {
        let points: Vec<Point> = (0..1_000).map(|_| random_point()).collect();
        let target = random_point();
        let tree = KDTree::from_points(&points);
        let actual_neighbor = tree.nearest_neighbor(&target).unwrap();
        let expected_neighbor = brute_force_nearest(&points, target);
        assert_eq!(actual_neighbor, expected_neighbor);
    }
}

#[test]
fn test_deletion() {
    for _ in 0..100 {
        let points: Vec<Point> = (0..1_000).map(|_| random_point()).collect();
        let target = rand::random_range(0..1_000);
        let mut tree = KDTree::from_points(&points);
        let point = points[target];
        tree.remove_point(point);
        let points = tree.points();
        assert_eq!(points.len(), 999);
        assert!(!points.contains(&point));
    }
}

#[test]
fn nearest_in_scenario_before_and_after_removing_root() {
    let points = scenario_points();
    let mut tree = KDTree::from_points(&points);
    let query = Point::new(500_000, 500_000);
    let found = tree.nearest_neighbor(&query).unwrap();
    let expected = brute_force_nearest(&points, query);
    assert_eq!(found.squared_distance(&query), expected.squared_distance(&query));
    assert_eq!(found, Point::new(500_000, 400_000));
    assert_eq!(found.squared_distance(&query), 10_000_000_000);

    tree.remove_point(Point::new(500_000, 400_000));
    let left = tree.points();
    assert_eq!(left.len(), 5);
    assert!(!left.contains(&Point::new(500_000, 400_000)));
    let found = tree.nearest_neighbor(&query).unwrap();
    assert_eq!(found, brute_force_nearest(&left, query));
    assert_eq!(found, Point::new(400_000, 550_000));
    assert_eq!(found.squared_distance(&query), 12_500_000_000);
}

#[test]
fn nearest_on_empty_index_is_none() {
    let tree = KDTree::new();
    assert_eq!(tree.nearest_neighbor(&Point::new(1, 2)), None);
    assert!(tree.points().is_empty());
    assert!(tree.lines().is_empty());
    let tree = KDTree::default();
    assert_eq!(tree.nearest_neighbor(&Point::new(0, 0)), None);
}

#[test]
fn point_count_follows_inserts_with_duplicates() {
    let mut tree = KDTree::new();
    let p = Point::new(3, 4);
    for n in 1..=10 {
        tree.add_point(p);
        tree.add_point(Point::new(n, -n));
        assert_eq!(tree.points().len(), 2 * n as usize);
    }
    assert_eq!(tree.points().iter().filter(|q| **q == p).count(), 10);
    assert_eq!(tree.nearest_neighbor(&Point::new(3, 5)), Some(p));
}

#[test]
fn remove_absent_point_changes_nothing() {
    let mut tree = KDTree::from_points(&scenario_points());
    let before = tree.points();
    tree.remove_point(Point::new(500_000, 400_001));
    assert_eq!(tree.points(), before);
    tree.remove_point(Point::new(-7, 7));
    assert_eq!(tree.points(), before);
    assert_eq!(tree.lines(), KDTree::from_points(&scenario_points()).lines());
}

#[test]
fn remove_on_empty_index_is_a_no_op() {
    let mut tree = KDTree::new();
    tree.remove_point(Point::new(0, 0));
    assert!(tree.points().is_empty());
    tree.add_point(Point::new(1, 1));
    assert_eq!(tree.points(), vec![Point::new(1, 1)]);
}

#[test]
fn remove_then_reinsert_restores_points() {
    let points: Vec<Point> = (0..200).map(|_| random_point()).collect();
    let mut tree = KDTree::from_points(&points);
    let before = sorted(tree.points());
    for i in [0usize, 17, 199] {
        let queries: Vec<Point> = (0..20).map(|_| random_point()).collect();
        let distances: Vec<u128> = queries
            .iter()
            .map(|q| tree.nearest_neighbor(q).unwrap().squared_distance(q))
            .collect();
        tree.remove_point(points[i]);
        assert_eq!(tree.points().len(), 199);
        tree.add_point(points[i]);
        assert_eq!(sorted(tree.points()), before);
        for (q, d) in queries.iter().zip(distances) {
            assert_eq!(tree.nearest_neighbor(q).unwrap().squared_distance(q), d);
        }
    }
}

#[test]
fn remove_one_of_two_equal_points() {
    let mut tree = KDTree::new();
    tree.add_point(Point::new(5, 5));
    tree.add_point(Point::new(5, 5));
    tree.add_point(Point::new(9, 1));
    tree.remove_point(Point::new(5, 5));
    assert_eq!(sorted(tree.points()), vec![(5, 5), (9, 1)]);
    tree.remove_point(Point::new(5, 5));
    assert_eq!(sorted(tree.points()), vec![(9, 1)]);
}

#[test]
fn remove_root_reuses_handles_and_keeps_order() {
    let mut tree = KDTree::from_points(&scenario_points());
    tree.remove_point(Point::new(500_000, 400_000));
    // the rest is inserted again in depth-first order: the old left child
    // becomes the root
    assert_eq!(
        tree.points(),
        vec![
            Point::new(100_000, 700_000),
            Point::new(400_000, 550_000),
            Point::new(800_000, 200_000),
            Point::new(200_000, 850_000),
            Point::new(600_000, 820_000),
        ]
    );
}

#[test]
fn points_are_listed_depth_first() {
    let tree = KDTree::from_points(&scenario_points());
    // (0.5,0.4) splits on x; (0.1,0.7) and (0.4,0.55) go left, (0.8,0.2)
    // and (0.6,0.82) right; below them the split is on y
    assert_eq!(
        tree.points(),
        vec![
            Point::new(500_000, 400_000),
            Point::new(100_000, 700_000),
            Point::new(400_000, 550_000),
            Point::new(200_000, 850_000),
            Point::new(800_000, 200_000),
            Point::new(600_000, 820_000),
        ]
    );
}

#[test]
fn ties_on_the_split_coordinate_go_left() {
    let mut tree = KDTree::new();
    tree.add_point(Point::new(10, 10));
    tree.add_point(Point::new(10, 0));
    tree.add_point(Point::new(11, 0));
    let lines = tree.lines();
    // (10,0) is the left child, (11,0) the right one; both split on y
    assert_eq!(
        lines,
        vec![
            Line::Vertical(10),
            Line::PointToPoint(Point::new(10, 0), Point::new(0, 0)),
            Line::PointToPoint(Point::new(10, 0), Point::new(UNIT, 0)),
        ]
    );
}

#[test]
fn partition_lines_of_scenario() {
    let tree = KDTree::from_points(&scenario_points());
    assert_eq!(
        tree.lines(),
        vec![
            Line::Vertical(500_000),
            Line::PointToPoint(Point::new(500_000, 700_000), Point::new(0, 700_000)),
            Line::PointToPoint(Point::new(400_000, 700_000), Point::new(400_000, 0)),
            Line::PointToPoint(Point::new(200_000, 700_000), Point::new(200_000, UNIT)),
            Line::PointToPoint(Point::new(500_000, 200_000), Point::new(UNIT, 200_000)),
            Line::PointToPoint(Point::new(600_000, 200_000), Point::new(600_000, UNIT)),
        ]
    );
}

#[test]
fn partition_holds_in_random_trees() {
    // after many removals and reinsertions the tree still routes searches
    // correctly: nearest neighbours agree with a linear scan
    for _ in 0..20 {
        let points: Vec<Point> = (0..300).map(|_| random_point()).collect();
        let mut tree = KDTree::from_points(&points);
        for p in points.iter().take(100) {
            tree.remove_point(*p);
        }
        let rest: Vec<Point> = points[100..].to_vec();
        assert_eq!(sorted(tree.points()), sorted(rest.clone()));
        for _ in 0..20 {
            let q = random_point();
            let found = tree.nearest_neighbor(&q).unwrap();
            let expected = brute_force_nearest(&rest, q);
            assert_eq!(found.squared_distance(&q), expected.squared_distance(&q));
        }
    }
}

#[test]
fn node_point_wins_ties() {
    // (2,0) lies on the query's side of the root's line, at the same
    // distance from (1,0) as the root: the root's own point wins
    let tree = KDTree::from_points(&[Point::new(0, 0), Point::new(2, 0)]);
    assert_eq!(tree.nearest_neighbor(&Point::new(1, 0)), Some(Point::new(0, 0)));
    let tree = KDTree::from_points(&[Point::new(2, 0), Point::new(0, 0)]);
    assert_eq!(tree.nearest_neighbor(&Point::new(1, 0)), Some(Point::new(2, 0)));
}

#[test]
fn default_then_inserts_matches_from_points() {
    let points = scenario_points();
    let mut tree = KDTree::default();
    for (n, p) in points.iter().enumerate() {
        tree.add_point(*p);
        assert_eq!(tree.points().len(), n + 1);
    }
    let built = KDTree::from_points(&points);
    assert_eq!(tree.points(), built.points());
    assert_eq!(tree.lines(), built.lines());
}
