use kdtree_iced::point::{Point, Split};

#[test]
fn opposite_swaps_axes() {
    assert_eq!(Split::X.opposite(), Split::Y);
    assert_eq!(Split::Y.opposite(), Split::X);
}

#[test]
fn squared_distance_is_exact() {
    assert_eq!(Point::new(0, 0).squared_distance(&Point::new(3, 4)), 25);
    assert_eq!(Point::new(-3, 7).squared_distance(&Point::new(-3, 7)), 0);
    assert_eq!(Point::new(5, -2).squared_distance(&Point::new(-1, 6)), 100);
}

#[test]
fn squared_distance_at_the_extremes() {
    let a = Point::new(i32::MIN, i32::MIN);
    let b = Point::new(i32::MAX, i32::MAX);
    let d: u128 = (u32::MAX as u128) * (u32::MAX as u128) * 2;
    assert_eq!(a.squared_distance(&b), d);
    assert_eq!(b.squared_distance(&a), d);
}
