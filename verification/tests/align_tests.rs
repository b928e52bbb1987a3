use beacon_scanner::orient::orientations;
use beacon_scanner::point::Point;
use beacon_scanner::scanner::{align, Scanner};

fn scanner(id: usize, pts: Vec<Point>) -> Scanner {
    Scanner { id, beacon_pts: pts }
}

#[test]
fn align_recovers_known_pose() {
    // scanner 1's points are twelve of scanner 0's points, seen under
    // orientation 9 and translation (5, -3, 7), plus unrelated extras
    let a = scanner(0, vec![
        Point::new(0, 0, 0), Point::new(1, 2, 3), Point::new(5, -3, 2),
        Point::new(10, 4, -7), Point::new(-4, 8, 1), Point::new(2, 2, 9),
        Point::new(-7, -5, 6), Point::new(3, -9, -2), Point::new(8, 1, 12),
        Point::new(-11, 6, -4), Point::new(6, 13, 5), Point::new(-2, -8, -13),
        Point::new(100, 100, 100), Point::new(101, -50, 3),
    ]);
    let b = scanner(1, vec![
        Point::new(5, 7, -3), Point::new(4, 4, -5), Point::new(0, 5, 0),
        Point::new(-5, 14, -7), Point::new(9, 6, -11), Point::new(3, -2, -5),
        Point::new(12, 1, 2), Point::new(2, 9, 6), Point::new(-3, -5, -4),
        Point::new(16, 11, -9), Point::new(-1, 2, -16), Point::new(7, 20, 5),
        Point::new(77, 66, 55), Point::new(-60, 40, 20),
    ]);
    let edge = align(&a, &b).expect("the scanners share twelve beacons");
    assert_eq!(edge.src, 0);
    assert_eq!(edge.dst, 1);
    // the exact translation is recovered
    assert_eq!(edge.offset, Point::new(5, -3, 7));
    // the exact orientation is recovered: the edge transform undoes
    // points exactly as orientation 9 maps them
    let ors = orientations();
    for p in [Point::new(1, 0, 0), Point::new(0, 1, 0), Point::new(0, 0, 1), Point::new(1, 2, 3)] {
        assert_eq!(edge.transform.unapply(&p), ors[9].apply(&p));
    }
    // every shared beacon coincides under the recovered pose
    for j in 0..12 {
        let mapped = edge.transform.unapply(&b.beacon_pts[j]).add(edge.offset);
        assert_eq!(mapped, a.beacon_pts[j]);
    }
}

#[test]
fn align_rejects_eleven_shared_points() {
    // eleven shared beacons are one too few
    let pts: Vec<Point> = vec![
        Point::new(0, 0, 0), Point::new(1, 2, 3), Point::new(5, -3, 2),
        Point::new(10, 4, -7), Point::new(-4, 8, 1), Point::new(2, 2, 9),
        Point::new(-7, -5, 6), Point::new(3, -9, -2), Point::new(8, 1, 12),
        Point::new(-11, 6, -4), Point::new(6, 13, 5),
    ];
    let a = scanner(0, pts.clone());
    let b = scanner(1, pts);
    assert!(align(&a, &b).is_none());
}

#[test]
fn pinpoint_needs_twelve_matches() {
    // identical clouds of twelve points pinpoint each other at offset zero
    let pts: Vec<Point> = (0..12).map(|k| Point::new(k, 2 * k * k, 3 - k)).collect();
    let a = scanner(0, pts.clone());
    let b = scanner(1, pts);
    assert_eq!(a.pinpoint(&b), Some(Point::new(0, 0, 0)));

    let short: Vec<Point> = (0..11).map(|k| Point::new(k, 2 * k * k, 3 - k)).collect();
    let c = scanner(2, short.clone());
    let d = scanner(3, short);
    assert_eq!(c.pinpoint(&d), None);
}

#[test]
fn scanner_map_applies_transform() {
    let ors = orientations();
    let t = beacon_scanner::transform::Transform {
        steps: vec![beacon_scanner::transform::Step {
            orient: ors[4],
            offset: Point::new(10, 20, 30),
            inverted: false,
        }],
    };
    let s = scanner(0, vec![Point::new(1, 2, 3), Point::new(-4, 5, -6)]);
    let mapped = s.map(&t);
    assert_eq!(mapped.beacon_pts.len(), 2);
    assert_eq!(mapped.beacon_pts[0], t.apply(&Point::new(1, 2, 3)));
    assert_eq!(mapped.beacon_pts[1], t.apply(&Point::new(-4, 5, -6)));
}
