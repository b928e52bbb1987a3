use beacon_scanner::orient::{orientations, Orientation};
use beacon_scanner::point::Point;
use beacon_scanner::transform::{Step, Transform};

fn step(o: Orientation, off: Point, inverted: bool) -> Step {
    Step { orient: o, offset: off, inverted }
}

fn sample_transform() -> Transform {
    let ors = orientations();
    Transform {
        steps: vec![
            step(ors[7], Point::new(3, -4, 5), false),
            step(ors[13], Point::new(-10, 2, 8), true),
            step(ors[0], Point::new(0, 0, 100), false),
            step(ors[21], Point::new(7, 7, -7), false),
        ],
    }
}

#[test]
fn transform_apply_unapply_roundtrip() {
    // unapply(t, apply(t, p)) == p and apply(t, unapply(t, p)) == p
    let t = sample_transform();
    for p in [
        Point::new(0, 0, 0),
        Point::new(1, 2, 3),
        Point::new(-50, 41, 999),
    ] {
        assert_eq!(t.unapply(&t.apply(&p)), p);
        assert_eq!(t.apply(&t.unapply(&p)), p);
    }
}

#[test]
fn transform_identity_does_nothing() {
    let t = Transform::identity();
    let p = Point::new(12, -34, 56);
    assert_eq!(t.apply(&p), p);
    assert_eq!(t.unapply(&p), p);
}

#[test]
fn transform_stack_applies_in_order() {
    // apply(stack([t1, t2]), p) == apply(t2, apply(t1, p))
    let ors = orientations();
    let t1 = Transform { steps: vec![step(ors[5], Point::new(1, 2, 3), false)] };
    let t2 = Transform { steps: vec![step(ors[18], Point::new(-9, 4, 0), false)] };
    let stacked = Transform::stack(&[t1.duplicate(), t2.duplicate()]);
    for p in [Point::new(0, 0, 0), Point::new(6, -6, 6), Point::new(123, 45, -67)] {
        assert_eq!(stacked.apply(&p), t2.apply(&t1.apply(&p)));
        // unapply runs in reverse
        assert_eq!(stacked.unapply(&p), t1.unapply(&t2.unapply(&p)));
    }
}

#[test]
fn transform_invert_swaps_directions() {
    // apply(invert(t), p) == unapply(t, p)
    let t = sample_transform();
    let inv = t.invert();
    for p in [Point::new(4, 4, 4), Point::new(-1, 7, -3)] {
        assert_eq!(inv.apply(&p), t.unapply(&p));
        assert_eq!(inv.unapply(&p), t.apply(&p));
    }
}
