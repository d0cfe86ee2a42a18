use clipper2_rust::{
    ClipperOffset, EndType as ClipperEndType, JoinType as ClipperJoinType, Path64, Paths64,
    Point64,
};
use clipper_offset::{bbox, offset_finish, offset_prepare, EndType, FxPoint, JoinType, Prepared};

fn run_offset(path_text: &str, distance: f64) -> String {
    let fixed = (distance * 1000.0) as i64;
    let job = match offset_prepare(path_text, Some(fixed), JoinType::Round, EndType::Polygon) {
        Ok(Prepared::Ready(job)) => job,
        Ok(Prepared::Unchanged(t)) => return t,
        Err(e) => panic!("{}", e.message()),
    };
    let mut path = Path64::new();
    for p in job.ring.iter() {
        path.push(Point64::new(p.x, p.y));
    }
    let mut clipper = ClipperOffset::new(2.0, 0.25, false, false);
    clipper.add_path(&path, ClipperJoinType::Round, ClipperEndType::Polygon);
    let mut out = Paths64::new();
    clipper.execute(distance * 1000.0, &mut out);
    let rings: Vec<Vec<FxPoint>> = out
        .iter()
        .map(|r| r.iter().map(|q| FxPoint { x: q.x, y: q.y }).collect())
        .collect();
    offset_finish(&job.ring, &rings, None, None)
}

#[test]
fn scenario_inflate_square() {
    // A 100 x 100 square inflated by 10 grows to roughly [90,210] on both
    // axes, with rounded corners.
    let out = run_offset("M 100 100 L 200 100 L 200 200 L 100 200 Z", 10.0);
    assert!(!out.is_empty());
    assert!(out.starts_with("M "));
    assert!(out.ends_with(" Z"));
    let ring = clipper_offset::parse_svg_path(&out, 100, 1000).unwrap();
    let bb = bbox(&ring);
    assert!(88000 <= bb.0 && bb.0 <= 92000, "min x {}", bb.0);
    assert!(88000 <= bb.1 && bb.1 <= 92000, "min y {}", bb.1);
    assert!(208000 <= bb.2 && bb.2 <= 212000, "max x {}", bb.2);
    assert!(208000 <= bb.3 && bb.3 <= 212000, "max y {}", bb.3);
}

#[test]
fn scenario_total_deflation() {
    // Deflating a 10 x 10 square by 100 swallows it whole: empty text, not
    // an error.
    let out = run_offset("M 0 0 L 10 0 L 10 10 L 0 10 Z", -100.0);
    assert_eq!(out, "");
}

#[test]
fn round_trip_bounding_box_area() {
    // Offsetting out and back by the same distance approximately recovers
    // the bounding box area of a simple convex shape.
    let original = "M 0 0 L 100 0 L 100 100 L 0 100 Z";
    let inflated = run_offset(original, 10.0);
    let back = run_offset(&inflated, -10.0);
    let ring0 = clipper_offset::parse_svg_path(original, 100, 1000).unwrap();
    let ring2 = clipper_offset::parse_svg_path(&back, 100, 1000).unwrap();
    let b0 = bbox(&ring0);
    let b2 = bbox(&ring2);
    let area0 = (b0.2 - b0.0) as f64 * (b0.3 - b0.1) as f64;
    let area2 = (b2.2 - b2.0) as f64 * (b2.3 - b2.1) as f64;
    let rel = (area0 - area2).abs() / area0;
    assert!(rel < 0.05, "relative area drift {}", rel);
}

#[test]
fn anchored_offset_keeps_centre() {
    // Inflate with a centre anchor: the box centre stays put within one
    // coordinate unit per axis.
    let input = "M 100 100 L 200 100 L 200 200 L 100 200 Z";
    let job = match offset_prepare(input, Some(10000), JoinType::Round, EndType::Polygon) {
        Ok(Prepared::Ready(job)) => job,
        _ => panic!("expected a ready job"),
    };
    let mut path = Path64::new();
    for p in job.ring.iter() {
        path.push(Point64::new(p.x, p.y));
    }
    let mut clipper = ClipperOffset::new(2.0, 0.25, false, false);
    clipper.add_path(&path, ClipperJoinType::Round, ClipperEndType::Polygon);
    let mut out = Paths64::new();
    clipper.execute(10000.0, &mut out);
    let rings: Vec<Vec<FxPoint>> = out
        .iter()
        .map(|r| r.iter().map(|q| FxPoint { x: q.x, y: q.y }).collect())
        .collect();
    let text = offset_finish(&job.ring, &rings, Some(500000), Some(500000));
    let moved = clipper_offset::parse_svg_path(&text, 100, 1000).unwrap();
    let bi = bbox(&job.ring);
    let bo = bbox(&moved);
    let ci = ((bi.0 + bi.2) as f64 / 2.0, (bi.1 + bi.3) as f64 / 2.0);
    let co = ((bo.0 + bo.2) as f64 / 2.0, (bo.1 + bo.3) as f64 / 2.0);
    assert!((ci.0 - co.0).abs() <= 1000.0);
    assert!((ci.1 - co.1).abs() <= 1000.0);
}
