use kdtree_iced::interaction::{App, Message};
use kdtree_iced::point::Point;

fn sorted(points: Vec<Point>) -> Vec<(i32, i32)> {
    let mut v: Vec<(i32, i32)> = points.into_iter().map(|p| (p.x, p.y)).collect();
    v.sort();
    v
}

#[test]
fn session_starts_with_six_points_and_no_target() {
    let app = App::default();
    assert_eq!(app.tree.points().len(), 6);
    assert_eq!(app.target, None);
    assert_eq!(app.nearest_neighbor, None);
}

#[test]
fn find_neighbor_sets_target() {
    let mut app = App::default();
    app.update(Message::FindNeighbor(Point::new(500_000, 500_000)));
    assert_eq!(app.target, Some(Point::new(500_000, 500_000)));
    assert_eq!(app.nearest_neighbor, Some(Point::new(500_000, 400_000)));
}

#[test]
fn add_point_refreshes_neighbor() {
    let mut app = App::default();
    app.update(Message::AddPoint(Point::new(1, 1)));
    assert_eq!(app.nearest_neighbor, None);
    assert_eq!(app.tree.points().len(), 7);
    app.update(Message::FindNeighbor(Point::new(500_000, 500_000)));
    app.update(Message::AddPoint(Point::new(500_000, 490_000)));
    assert_eq!(app.nearest_neighbor, Some(Point::new(500_000, 490_000)));
}

#[test]
fn delete_removes_nearby_point_only() {
    let mut app = App::default();
    let before = sorted(app.tree.points());
    // 5001 units away: out of reach
    app.update(Message::DeletePoint(Point::new(505_001, 400_000)));
    assert_eq!(sorted(app.tree.points()), before);
    // 3000 and 4000 units away: 5000 in all, within reach
    app.update(Message::DeletePoint(Point::new(503_000, 404_000)));
    let after = app.tree.points();
    assert_eq!(after.len(), 5);
    assert!(!after.contains(&Point::new(500_000, 400_000)));
}

#[test]
fn delete_refreshes_neighbor_of_target() {
    let mut app = App::default();
    app.update(Message::FindNeighbor(Point::new(500_000, 500_000)));
    app.update(Message::DeletePoint(Point::new(500_000, 400_000)));
    assert_eq!(app.nearest_neighbor, Some(Point::new(400_000, 550_000)));
    assert_eq!(app.target, Some(Point::new(500_000, 500_000)));
}

#[test]
fn delete_on_empty_session_does_nothing() {
    let mut app = App::default();
    for p in app.tree.points() {
        app.update(Message::DeletePoint(p));
    }
    assert!(app.tree.points().is_empty());
    app.update(Message::DeletePoint(Point::new(0, 0)));
    app.update(Message::FindNeighbor(Point::new(0, 0)));
    assert_eq!(app.nearest_neighbor, None);
}
