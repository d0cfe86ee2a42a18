use clipper_offset::svg_out::{ring_to_svg_chars, rings_to_svg_chars};
use clipper_offset::{
    normalize_winding, offset_finish, offset_prepare, parse_svg_path, validate_svg_path, EndType,
    FxPoint, JoinType, PathError, Prepared,
};

fn pt(x: i64, y: i64) -> FxPoint {
    FxPoint { x, y }
}

#[test]
fn test_parse_simple_path() {
    let path = "M 0 0 L 100 0 L 100 100 Z";
    let result = parse_svg_path(path, 100, 1000);
    assert!(result.is_ok());
    let clipper_path = result.unwrap();
    assert!(!clipper_path.is_empty());
}

#[test]
fn test_parse_bezier_path() {
    // A cubic Bezier command must be subdivided into line segments.
    let path = "M 0 0 C 10 10 20 20 30 30 Z";
    let result = parse_svg_path(path, 100, 1000);
    assert!(result.is_ok());
    let clipper_path = result.unwrap();
    assert!(!clipper_path.is_empty());
    assert!(clipper_path.len() > 2);
}

#[test]
fn test_parse_invalid_path() {
    let path = "INVALID";
    assert!(parse_svg_path(path, 100, 1000).is_err());
}

#[test]
fn test_validate_path() {
    assert!(validate_svg_path("M 0 0 L 100 0 Z"));
    assert!(validate_svg_path("M 0 0 C 10 10 20 20 30 30 Z"));
    assert!(!validate_svg_path("INVALID"));
}

#[test]
fn test_scanner_exact_values() {
    let ring = parse_svg_path("M 1.5 -2.25 L 1e2 -0.5 Z", 100, 1000).unwrap();
    assert_eq!(ring.len(), 2);
    assert_eq!((ring[0].x, ring[0].y), (1500, -2250));
    assert_eq!((ring[1].x, ring[1].y), (100000, -500));
}

#[test]
fn test_scanner_relative_and_exponent() {
    // Lowercase commands are relative to the current point.
    let ring = parse_svg_path("m 10 10 l 5.5 -2.5 Z", 100, 1000).unwrap();
    assert_eq!((ring[0].x, ring[0].y), (10000, 10000));
    assert_eq!((ring[1].x, ring[1].y), (15500, 7500));
    // Negative exponents shift below the fixed-point grid.
    let ring2 = parse_svg_path("M 25e-1 1e-9 L 3 4 Z", 100, 1000).unwrap();
    assert_eq!((ring2[0].x, ring2[0].y), (2500, 0));
}

#[test]
fn test_comma_separators() {
    let ring = parse_svg_path("M 1,2 L 3,4 Z", 100, 1000).unwrap();
    assert_eq!((ring[0].x, ring[0].y), (1000, 2000));
    assert_eq!((ring[1].x, ring[1].y), (3000, 4000));
}

#[test]
fn test_empty_input_error() {
    assert!(matches!(parse_svg_path("", 100, 1000), Err(PathError::EmptyInput)));
    assert!(matches!(parse_svg_path("   \t\n", 100, 1000), Err(PathError::EmptyInput)));
}

#[test]
fn test_empty_ring_error() {
    // A lone command letter yields no drawable point.
    assert!(matches!(parse_svg_path("M", 100, 1000), Err(PathError::EmptyRing)));
}

#[test]
fn test_malformed_paths() {
    // An unrecognized command letter.
    assert!(matches!(parse_svg_path("INVALID", 100, 1000), Err(PathError::MalformedPath(_))));
    assert!(matches!(parse_svg_path("M 1 x", 100, 1000), Err(PathError::MalformedPath(_))));
    // An incomplete coordinate pair.
    assert!(matches!(parse_svg_path("M 1 1 L 2", 100, 1000), Err(PathError::MalformedPath(_))));
    // A line command with no open sub-path.
    assert!(matches!(parse_svg_path("L 1 1", 100, 1000), Err(PathError::MalformedPath(_))));
    // An exponent marker with no digits.
    assert!(matches!(parse_svg_path("M 1e 2", 100, 1000), Err(PathError::MalformedPath(_))));
}

#[test]
fn test_winding_normalization_idempotent() {
    // Clockwise in the Y-down convention: positive shoelace sum, reversed.
    let cw = vec![pt(0, 10000), pt(10000, 10000), pt(10000, 0), pt(0, 0)];
    let once = normalize_winding(cw.clone());
    assert_ne!(once, cw);
    let twice = normalize_winding(once.clone());
    assert_eq!(twice, once);
    // Already counter-clockwise: left untouched both times.
    let ccw = vec![pt(0, 0), pt(10000, 0), pt(10000, 10000), pt(0, 10000)];
    let kept = normalize_winding(ccw.clone());
    assert_eq!(kept, ccw);
}

#[test]
fn test_winding_inside_parse() {
    // This square is wound positively, so the pipeline reverses it.
    let ring = parse_svg_path("M 0 0 L 0 10 L 10 10 L 10 0 Z", 100, 1000).unwrap();
    assert_eq!((ring[0].x, ring[0].y), (10000, 0));
    assert_eq!((ring[3].x, ring[3].y), (0, 0));
}

#[test]
fn test_serializer_exact_text() {
    let ring = vec![pt(100000, 100000), pt(200000, 100500)];
    let text: String = ring_to_svg_chars(&ring, 1000).into_iter().collect();
    assert_eq!(text, "M 100.00 100.00 L 200.00 100.50 Z");
}

#[test]
fn test_serializer_rounding_and_sign() {
    // Two decimal places, rounding half away from zero on the exact decimal
    // value; a negative coordinate keeps its sign even at -0.00.
    let ring = vec![pt(-50, 1005), pt(-4, 999)];
    let text: String = ring_to_svg_chars(&ring, 1000).into_iter().collect();
    assert_eq!(text, "M -0.05 1.01 L -0.00 1.00 Z");
}

#[test]
fn test_serializer_joins_nonempty_rings() {
    let rings = vec![vec![pt(0, 0)], vec![], vec![pt(1000, 2000)]];
    let text: String = rings_to_svg_chars(&rings, 1000).into_iter().collect();
    assert_eq!(text, "M 0.00 0.00 Z M 1.00 2.00 Z");
}

#[test]
fn test_error_messages() {
    assert_eq!(PathError::EmptyInput.message(), "Path is empty");
    assert_eq!(PathError::InvalidAmount.message(), "Offset amount is NaN or infinite");
    assert_eq!(PathError::TooFewPoints.message(), "Path must have at least 3 points");
    assert_eq!(
        PathError::MalformedPath(String::from("boom")).message(),
        "Invalid SVG path data: boom"
    );
}

#[test]
fn test_prepare_invalid_amount() {
    let r = offset_prepare("M 0 0 L 1 0 L 1 1 Z", None, JoinType::Round, EndType::Polygon);
    assert!(matches!(r, Err(PathError::InvalidAmount)));
}

#[test]
fn test_prepare_too_few_points() {
    let r = offset_prepare("M 0 0 L 10 0 Z", Some(10000), JoinType::Round, EndType::Polygon);
    assert!(matches!(r, Err(PathError::TooFewPoints)));
}

#[test]
fn test_prepare_subthreshold_is_noop() {
    // Scenario: a distance of 0.0005 source units truncates to zero ring
    // units and short-circuits to the unchanged input text.
    let input = "M 100 100 L 200 100 L 200 200 L 100 200 Z";
    let fixed = (0.0005_f64 * 1000.0) as i64;
    assert_eq!(fixed, 0);
    match offset_prepare(input, Some(fixed), JoinType::Round, EndType::Polygon) {
        Ok(Prepared::Unchanged(t)) => assert_eq!(t, input),
        _ => panic!("expected the unchanged input text"),
    }
}

#[test]
fn test_prepare_ready_passes_through() {
    let r = offset_prepare(
        "M 0 0 L 10 0 L 10 10 L 0 10 Z",
        Some(10000),
        JoinType::Miter,
        EndType::Joined,
    );
    match r {
        Ok(Prepared::Ready(job)) => {
            assert_eq!(job.delta, 10000);
            assert_eq!(job.join, JoinType::Miter);
            assert_eq!(job.end, EndType::Joined);
            assert_eq!(job.ring.len(), 4);
        },
        _ => panic!("expected a ready job"),
    }
}

#[test]
fn test_finish_empty_result_is_empty_text() {
    let orig = vec![pt(0, 0), pt(10000, 0), pt(10000, 10000)];
    let none: Vec<Vec<FxPoint>> = vec![];
    assert_eq!(offset_finish(&orig, &none, None, None), "");
    let empty_first: Vec<Vec<FxPoint>> = vec![vec![]];
    assert_eq!(offset_finish(&orig, &empty_first, None, None), "");
}

#[test]
fn test_finish_anchor_translation() {
    // Original box [0,10] x [0,10]; offset box [10,30] x [10,30]; a centre
    // anchor must pull the offset ring back so both centres coincide.
    let orig = vec![pt(0, 0), pt(10000, 0), pt(10000, 10000), pt(0, 10000)];
    let off = vec![
        pt(10000, 10000),
        pt(30000, 10000),
        pt(30000, 30000),
        pt(10000, 30000),
    ];
    let text = offset_finish(&orig, &vec![off], Some(500000), Some(500000), );
    assert_eq!(text, "M -5.00 -5.00 L 15.00 -5.00 L 15.00 15.00 L -5.00 15.00 Z");
}

#[test]
fn test_finish_anchor_invariant_within_one_unit() {
    // The anchor point of the translated box stays within one coordinate
    // unit of the original box's anchor point, per axis.
    let orig = vec![pt(0, 0), pt(10000, 0), pt(10000, 10000), pt(0, 10000)];
    let off = vec![pt(-3333, -4444), pt(26667, -4444), pt(26667, 25556), pt(-3333, 25556)];
    let fx = 250000_i64;
    let fy = 750000_i64;
    let text = offset_finish(&orig, &vec![off.clone()], Some(fx), Some(fy));
    let moved = parse_svg_path(&text, 100, 1000).unwrap();
    let bb_in = clipper_offset::bbox(&orig);
    let bb_out = clipper_offset::bbox(&moved);
    let anchor_in_x = bb_in.0 as f64 + (bb_in.2 - bb_in.0) as f64 * (fx as f64 / 1e6);
    let anchor_out_x = bb_out.0 as f64 + (bb_out.2 - bb_out.0) as f64 * (fx as f64 / 1e6);
    let anchor_in_y = bb_in.1 as f64 + (bb_in.3 - bb_in.1) as f64 * (fy as f64 / 1e6);
    let anchor_out_y = bb_out.1 as f64 + (bb_out.3 - bb_out.1) as f64 * (fy as f64 / 1e6);
    // One unit is 1000 fixed-point steps; serialization adds at most half a
    // hundredth of a unit on top of the truncated translation.
    assert!((anchor_in_x - anchor_out_x).abs() <= 1000.0);
    assert!((anchor_in_y - anchor_out_y).abs() <= 1000.0);
}

#[test]
fn test_multiple_subpaths_collected_in_order() {
    // Several M commands: the directives are collected in order and flattened
    // as one continuous ring.
    let ring = parse_svg_path("M 0 0 L 1 0 Z M 2 0 L 3 0 Z", 100, 1000).unwrap();
    assert_eq!(ring.len(), 4);
}

#[test]
fn test_command_repetition() {
    // A command letter stays active for further coordinate pairs.
    let ring = parse_svg_path("M 0 0 L 1 0 2 0 3 0 Z", 100, 1000).unwrap();
    assert_eq!(ring.len(), 4);
    assert_eq!((ring[3].x, ring[3].y), (3000, 0));
}

#[test]
fn test_force_close_without_z() {
    // A sub-path left open at the end of the text is force-closed.
    assert!(validate_svg_path("M 0 0 L 10 0 L 10 10"));
    let ring = parse_svg_path("M 0 0 L 10 0 L 10 10", 100, 1000).unwrap();
    assert_eq!(ring.len(), 3);
}

#[test]
fn test_coordinate_clamping() {
    // Coordinates beyond the fixed-point range are clamped to its edge.
    let ring = parse_svg_path("M 99999999999 0 L 1 1 Z", 100, 1000).unwrap();
    assert!(ring.iter().any(|p| p.x == 33554432));
}

#[test]
fn test_quadratic_flattening() {
    let ring = parse_svg_path("M 0 0 Q 50 100 100 0 Z", 100, 1000).unwrap();
    assert!(ring.len() > 2);
    // The curve ends exactly on its end point.
    assert!(ring.iter().any(|p| p.x == 100000 && p.y == 0));
}
