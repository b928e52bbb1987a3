use beacon_scanner::aggregate::{aggregate, build_edges, solve, SolveError};
use beacon_scanner::graph::{resolve, resolve_all};
use beacon_scanner::point::Point;
use beacon_scanner::scanner::Scanner;
use beacon_scanner::transform::Transform;

fn scanner(id: usize, pts: Vec<Point>) -> Scanner {
    Scanner { id, beacon_pts: pts }
}

/// A three-scanner chain: the first and the last share nothing, but both
/// share twelve beacons with the middle one.  Resolving the last scanner
/// against the first composes the two edges, and the composed pose maps
/// its local points onto the true global positions.
#[test]
fn chain_resolves_through_middle() {
    let a = scanner(0, vec![
        Point::new(0, 0, 0), Point::new(1, 2, 3), Point::new(5, -3, 2),
        Point::new(10, 4, -7), Point::new(-4, 8, 1), Point::new(2, 2, 9),
        Point::new(-7, -5, 6), Point::new(3, -9, -2), Point::new(8, 1, 12),
        Point::new(-11, 6, -4), Point::new(6, 13, 5), Point::new(-2, -8, -13),
    ]);
    let b = scanner(1, vec![
        Point::new(-2, 10, 4), Point::new(-4, 9, 1), Point::new(1, 5, 2),
        Point::new(-6, 0, 11), Point::new(-10, 14, 3), Point::new(-4, 8, -5),
        Point::new(3, 17, -2), Point::new(7, 7, 6), Point::new(-3, 2, -8),
        Point::new(-8, 21, 8), Point::new(-15, 4, -1), Point::new(6, 12, 17),
        Point::new(-7, -10, 3), Point::new(5, -11, -4), Point::new(-5, -15, 13),
        Point::new(-13, -7, 0), Point::new(0, -20, -2), Point::new(-11, -9, 15),
        Point::new(4, -18, 7), Point::new(-16, -13, -3), Point::new(10, -6, 2),
        Point::new(-10, -17, -6), Point::new(-3, -21, 9), Point::new(2, -8, -9),
    ]);
    let c = scanner(2, vec![
        Point::new(-4, -25, -3), Point::new(-11, -26, -15), Point::new(6, -30, -5),
        Point::new(-7, -22, 3), Point::new(-9, -35, -10), Point::new(8, -24, 1),
        Point::new(0, -33, -14), Point::new(-10, -28, 6), Point::new(-5, -21, -20),
        Point::new(-13, -32, 0), Point::new(2, -36, -7), Point::new(-16, -23, -12),
    ]);
    let c_global = [
        Point::new(20, 5, 1), Point::new(21, -7, 8), Point::new(25, 3, -9),
        Point::new(17, 11, 4), Point::new(30, -2, 6), Point::new(19, 9, -11),
        Point::new(28, -6, -3), Point::new(23, 14, 7), Point::new(16, -12, 2),
        Point::new(27, 8, 10), Point::new(31, 1, -5), Point::new(18, -4, 13),
    ];
    let c_pts = c.beacon_pts.clone();
    let scanners = vec![a, b, c];
    let edges = build_edges(&scanners);
    // the outer pair does not align directly, so resolution must go
    // through the middle scanner
    let direct: Vec<_> = edges.iter().filter(|e| e.src == 0 && e.dst == 2).collect();
    assert!(direct.is_empty());
    let pose = resolve(0, 2, 3, &edges).expect("the chain connects scanner 2 to scanner 0");
    for (local, global) in c_pts.iter().zip(c_global.iter()) {
        assert_eq!(pose.1.unapply(local).add(pose.0), *global);
    }
    // resolving via the full table gives the middle scanner a pose too
    let memo = resolve_all(3, 0, &edges);
    assert!(memo.iter().all(|m| m.is_some()));
}

/// End to end: three scanners observe the corners of a shared unit cube
/// and four further shared beacons (twelve in all, the least that lets
/// every pair align), each in its own orientation and position.  All
/// beacons deduplicate to twelve, and the two most separated scanners
/// are Manhattan distance 32 apart.
#[test]
fn three_scanners_shared_cube() {
    let s0 = scanner(0, vec![
        Point::new(0, 0, 0), Point::new(0, 0, 1), Point::new(0, 1, 0),
        Point::new(0, 1, 1), Point::new(1, 0, 0), Point::new(1, 0, 1),
        Point::new(1, 1, 0), Point::new(1, 1, 1), Point::new(3, 7, 2),
        Point::new(9, 4, 6), Point::new(5, 8, 11), Point::new(12, 3, 5),
    ]);
    let s1 = scanner(1, vec![
        Point::new(-2, 10, 4), Point::new(-2, 10, 3), Point::new(-3, 10, 4),
        Point::new(-3, 10, 3), Point::new(-2, 9, 4), Point::new(-2, 9, 3),
        Point::new(-3, 9, 4), Point::new(-3, 9, 3), Point::new(-9, 7, 2),
        Point::new(-6, 1, -2), Point::new(-10, 5, -7), Point::new(-5, -2, -1),
    ]);
    let s2 = scanner(2, vec![
        Point::new(-3, -5, -8), Point::new(-4, -5, -8), Point::new(-3, -5, -7),
        Point::new(-4, -5, -7), Point::new(-3, -6, -8), Point::new(-4, -6, -8),
        Point::new(-3, -6, -7), Point::new(-4, -6, -7), Point::new(-5, -8, -1),
        Point::new(-9, -14, -4), Point::new(-14, -10, 0), Point::new(-8, -17, -5),
    ]);
    let scanners = vec![s0, s1, s2];
    let (count, max_dist) = solve(&scanners).expect("the overlap graph is connected");
    assert_eq!(count, 12);
    assert_eq!(max_dist, 32);
}

/// A disconnected pair fails resolution, naming the unreached scanner.
#[test]
fn solve_reports_unresolved_scanner() {
    let a = scanner(0, vec![
        Point::new(0, 0, 0), Point::new(1, 2, 3), Point::new(5, -3, 2),
    ]);
    let b = scanner(1, vec![
        Point::new(900, 900, 900), Point::new(901, 902, 903), Point::new(905, 897, 902),
    ]);
    let scanners = vec![a, b];
    assert_eq!(solve(&scanners), Err(SolveError::Unresolved { id: 1 }));
}

/// Without edges, only the origin scanner resolves, to the identity pose.
#[test]
fn resolve_without_edges() {
    let edges: Vec<beacon_scanner::scanner::Edge> = Vec::new();
    let own = resolve(0, 0, 2, &edges).expect("the origin resolves to itself");
    let p = Point::new(17, -4, 9);
    assert_eq!(own.0, Point::new(0, 0, 0));
    assert_eq!(own.1.unapply(&p), p);
    assert!(resolve(0, 1, 2, &edges).is_none());
}

/// Aggregation deduplicates by exact equality and maximises the pairwise
/// scanner distance.
#[test]
fn aggregate_counts_distinct_beacons() {
    // two scanners, both already in the global frame, overlapping in one
    // beacon: it is counted once
    let s0 = scanner(0, vec![Point::new(1, 1, 1), Point::new(2, 2, 2)]);
    let s1 = scanner(1, vec![Point::new(2, 2, 2), Point::new(3, 3, 3)]);
    let identity_poses = vec![
        (Point::new(0, 0, 0), Transform::identity()),
        (Point::new(0, 0, 0), Transform::identity()),
    ];
    let (count, max_dist) = aggregate(&vec![s0, s1], &identity_poses);
    assert_eq!(count, 3);
    assert_eq!(max_dist, 0);

    // an offset pose moves the second scanner's beacons away, so nothing
    // coincides any more and the scanner positions drift apart
    let s0b = scanner(0, vec![Point::new(1, 1, 1), Point::new(2, 2, 2)]);
    let s1b = scanner(1, vec![Point::new(2, 2, 2), Point::new(3, 3, 3)]);
    let offset_poses = vec![
        (Point::new(0, 0, 0), Transform::identity()),
        (Point::new(7, -8, 9), Transform::identity()),
    ];
    let (count2, max_dist2) = aggregate(&vec![s0b, s1b], &offset_poses);
    assert_eq!(count2, 4);
    assert_eq!(max_dist2, 24);
}
