use beacon_scanner::point::{Axis, Point};

#[test]
fn point_arithmetic() {
    let a = Point::new(1, 2, 3);
    let b = Point::new(10, -20, 30);
    assert_eq!(a.add(b), Point::new(11, -18, 33));
    assert_eq!(b.sub(a), Point::new(9, -22, 27));
    assert_eq!(a.negate(), Point::new(-1, -2, -3));
}

#[test]
fn point_rotations_invert_each_other() {
    let p = Point::new(4, -7, 9);
    for axis in [Axis::X, Axis::Y, Axis::Z] {
        assert_eq!(p.rotate(&axis).reverse_rotate(&axis), p);
        assert_eq!(p.reverse_rotate(&axis).rotate(&axis), p);
        // a quarter turn four times is the identity
        let q = p.rotate(&axis).rotate(&axis).rotate(&axis).rotate(&axis);
        assert_eq!(q, p);
    }
}

#[test]
fn point_invert_is_involution() {
    let p = Point::new(4, -7, 9);
    assert_eq!(p.invert(&Axis::X), Point::new(-4, -7, 9));
    assert_eq!(p.invert(&Axis::Y).invert(&Axis::Y), p);
}

#[test]
fn point_manhattan_distance() {
    assert_eq!(Point::new(1105, -1205, 1229).dist(Point::new(-92, -2380, -20)), 3621);
    assert_eq!(Point::new(0, 0, 0).dist(Point::new(0, 0, 0)), 0);
    assert_eq!(Point::new(1, 2, 3).dist(Point::new(-1, -2, -3)), 12);
}
