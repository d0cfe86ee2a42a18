//! Inflate/deflate ("offset") a closed vector outline given in a textual
//! curve-command format.
//!
//! The library parses the text into drawing directives, flattens curve
//! segments into line segments, normalizes the winding of the resulting
//! fixed-point polygon, and serializes offset polygons back into the same
//! textual format while preserving a caller-chosen anchor point.  The
//! polygon-offsetting algorithm itself is an external collaborator; callers
//! run it between `offset_prepare` and `offset_finish`.

use vstd::prelude::*;

pub mod flatten;
pub mod offset;
pub mod parse;
pub mod ring;
pub mod scan;
pub mod svg_out;
pub mod text;

pub use offset::{
    offset_finish, offset_prepare, parse_svg_path, validate_svg_path, EndType, JoinType, OffsetJob,
    PathError, Prepared, ANCHOR_SCALE, DEFAULT_FLATTEN_TOL, DEFAULT_SCALE,
};
pub use ring::{bbox, normalize_winding};

verus! {

/// Fixed-point coordinates are clamped to this magnitude so that every
/// intermediate product of the pipeline fits comfortably in the machine
/// integers it is computed in.
pub const MAX_COORD: i64 = 33554432;

/// A point of a polygon ring, in fixed-point units (source units times the
/// scale factor of the pipeline invocation).
#[derive(Clone, Copy, Debug, PartialEq, Eq, Structural)]
pub struct FxPoint {
    pub x: i64,
    pub y: i64,
}

/// A coordinate the parsing pipeline may produce: clamped to `MAX_COORD`.
pub open spec fn coord_in_bounds(v: int) -> bool {
    -MAX_COORD <= v <= MAX_COORD
}

pub open spec fn pt_in_bounds(p: FxPoint) -> bool {
    coord_in_bounds(p.x as int) && coord_in_bounds(p.y as int)
}

/// Every point of a parsed ring lies within the coordinate bounds.
pub open spec fn ring_in_bounds(r: Seq<FxPoint>) -> bool {
    forall|i: int| 0 <= i < r.len() ==> pt_in_bounds(#[trigger] r[i])
}

} // verus!
