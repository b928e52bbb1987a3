use beacon_scanner::orient::orientations;
use beacon_scanner::point::Point;

fn probes() -> Vec<Point> {
    vec![
        Point::new(1, 0, 0),
        Point::new(0, 1, 0),
        Point::new(0, 0, 1),
        Point::new(1, 2, 3),
    ]
}

#[test]
fn twenty_four_orientations_pairwise_distinct() {
    let ors = orientations();
    assert_eq!(ors.len(), 24);
    let probe = Point::new(1, 2, 3);
    for i in 0..24 {
        for j in 0..24 {
            if i != j {
                assert_ne!(ors[i].apply(&probe), ors[j].apply(&probe));
            }
        }
    }
}

#[test]
fn orientation_roundtrips() {
    let ors = orientations();
    for o in ors.iter() {
        for p in probes().iter() {
            assert_eq!(o.unapply(&o.apply(p)), *p);
            assert_eq!(o.apply(&o.unapply(p)), *p);
        }
    }
}

#[test]
fn orientations_closed_under_composition() {
    // composing any two orientations acts like some member of the 24
    let ors = orientations();
    let pts = probes();
    for i in 0..24 {
        for j in 0..24 {
            let composed: Vec<Point> = pts.iter().map(|p| ors[j].apply(&ors[i].apply(p))).collect();
            let mut found = false;
            for k in 0..24 {
                let direct: Vec<Point> = pts.iter().map(|p| ors[k].apply(p)).collect();
                if direct == composed {
                    found = true;
                    break;
                }
            }
            assert!(found);
        }
    }
}

#[test]
fn orientations_closed_under_inversion() {
    // every orientation's inverse acts like some member of the 24
    let ors = orientations();
    let pts = probes();
    for i in 0..24 {
        let inverse: Vec<Point> = pts.iter().map(|p| ors[i].unapply(p)).collect();
        let mut found = false;
        for k in 0..24 {
            let direct: Vec<Point> = pts.iter().map(|p| ors[k].apply(p)).collect();
            if direct == inverse {
                found = true;
                break;
            }
        }
        assert!(found);
    }
}

#[test]
fn orientations_preserve_handedness() {
    // the determinant of each orientation matrix is +1
    let ors = orientations();
    for o in ors.iter() {
        let c1 = o.apply(&Point::new(1, 0, 0));
        let c2 = o.apply(&Point::new(0, 1, 0));
        let c3 = o.apply(&Point::new(0, 0, 1));
        let det = c1.x * (c2.y * c3.z - c2.z * c3.y) - c2.x * (c1.y * c3.z - c1.z * c3.y)
            + c3.x * (c1.y * c2.z - c1.z * c2.y);
        assert_eq!(det, 1);
    }
}
