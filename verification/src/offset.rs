//! Offset orchestrator.
//!
//! Ties the pipeline together: parse the path text, flatten it to a ring,
//! normalize its winding, and validate it for the offsetting collaborator;
//! afterwards translate the collaborator's first result ring so that a
//! caller-chosen anchor point keeps its absolute position, and serialize it
//! back to text.  The offsetting algorithm itself is an external
//! collaborator that callers run between `offset_prepare` and
//! `offset_finish`.

use crate::flatten::{abs_i, flatten_dirs, flatten_spec, tdiv};
use crate::parse::{all_ws, is_ws, parse_directives, parse_spec};
use crate::ring::{
    bb_max_x, bb_max_y, bb_min_x, bb_min_y, bbox, normalize_spec, normalize_winding,
};
use crate::scan::pow10;
use crate::svg_out::{ring_svg, ring_to_svg_chars};
use crate::text::{chars_to_string, str_to_chars};
use crate::{ring_in_bounds, FxPoint, MAX_COORD};
use vstd::arithmetic::div_mod::{
    lemma_fundamental_div_mod, lemma_mod_division_less_than_divisor,
};
use vstd::prelude::*;

verus! {

/// Join styles for path offsetting.
#[derive(Clone, Copy, Debug, PartialEq, Eq, Structural)]
pub enum JoinType {
    Square,
    Bevel,
    Round,
    Miter,
}

/// End styles for path offsetting.
#[derive(Clone, Copy, Debug, PartialEq, Eq, Structural)]
pub enum EndType {
    Polygon,
    Joined,
    Butt,
    Square,
    Round,
}

/// Why a call failed.
#[derive(Clone, Debug)]
pub enum PathError {
    /// The path text is blank.
    EmptyInput,
    /// The path text violates the grammar: an unexpected character, an
    /// unrecognized command letter, or a malformed number.
    MalformedPath(String),
    /// Parsing succeeded but produced no drawable point.
    EmptyRing,
    /// The offset distance is not a finite number.
    InvalidAmount,
    /// The flattened ring has fewer than three points.
    TooFewPoints,
    /// The offsetting collaborator reported a failure.
    ClipperError(String),
}

impl PathError {
    /// A human-readable description of the error.
    pub fn message(&self) -> (r: String)
        ensures
            match self {
                PathError::EmptyInput => r@ == "Path is empty"@,
                PathError::MalformedPath(m) => r@ == "Invalid SVG path data: "@ + m@,
                PathError::EmptyRing => r@ == "Path produced no points"@,
                PathError::InvalidAmount => r@ == "Offset amount is NaN or infinite"@,
                PathError::TooFewPoints => r@ == "Path must have at least 3 points"@,
                PathError::ClipperError(m) => r@ == "Clipper2 error: "@ + m@,
            },
    {
        match self {
            PathError::EmptyInput => String::from_str("Path is empty"),
            PathError::MalformedPath(m) => String::from_str("Invalid SVG path data: ").concat(
                m.as_str(),
            ),
            PathError::EmptyRing => String::from_str("Path produced no points"),
            PathError::InvalidAmount => String::from_str("Offset amount is NaN or infinite"),
            PathError::TooFewPoints => String::from_str("Path must have at least 3 points"),
            PathError::ClipperError(m) => String::from_str("Clipper2 error: ").concat(m.as_str()),
        }
    }
}

/// The fixed-point scale factor: source units times this give ring units.
pub const DEFAULT_SCALE: i64 = 1000;

/// The flatness tolerance handed to the curve flattener, in ring units.
pub const DEFAULT_FLATTEN_TOL: i64 = 100;

/// Anchor fractions are given in millionths.
pub const ANCHOR_SCALE: i64 = 1000000;

pub open spec fn is_pow10(scale: int) -> bool {
    exists|k: nat| k <= 9 && pow10(k) == scale
}

pub open spec fn scale_log(scale: int) -> nat {
    choose|k: nat| k <= 9 && pow10(k) == scale
}

/// The parse-and-flatten stage succeeds: the text is not blank, it obeys
/// the grammar, and it yields at least one point.
pub open spec fn pipeline_ok(s: Seq<char>, tol: int, k: nat) -> bool {
    &&& !all_ws(s)
    &&& parse_spec(s, k) is Ok
    &&& flatten_spec(parse_spec(s, k).unwrap(), tol).len() > 0
}

/// The ring the pipeline yields: the parsed directives flattened and
/// winding-normalized.
pub open spec fn pipeline_ring(s: Seq<char>, tol: int, k: nat) -> Seq<FxPoint> {
    normalize_spec(flatten_spec(parse_spec(s, k).unwrap(), tol))
}

proof fn lemma_pow10_vals()
    ensures
        pow10(0) == 1,
        pow10(1) == 10,
        pow10(2) == 100,
        pow10(3) == 1000,
        pow10(4) == 10000,
        pow10(5) == 100000,
        pow10(6) == 1000000,
        pow10(7) == 10000000,
        pow10(8) == 100000000,
        pow10(9) == 1000000000,
{
    assert(pow10(0) == 1);
    assert(pow10(1) == 10);
    assert(pow10(2) == 100);
    assert(pow10(3) == 1000);
    assert(pow10(4) == 10000);
    assert(pow10(5) == 100000);
    assert(pow10(6) == 1000000);
    assert(pow10(7) == 10000000);
    assert(pow10(8) == 100000000);
    assert(pow10(9) == 1000000000);
}

proof fn lemma_pow10_strict(a: nat, b: nat)
    requires
        a < b,
    ensures
        pow10(a) < pow10(b),
{
    crate::scan::lemma_pow10_mono(a, (b - 1) as nat);
    crate::scan::lemma_pow10_pos(a);
    assert(pow10(b) == 10 * pow10((b - 1) as nat));
}

/// Find `k` with `10^k == scale`.
fn scale_k(scale: i64) -> (r: u32)
    requires
        is_pow10(scale as int),
    ensures
        r <= 9,
        pow10(r as nat) == scale,
        r as nat == scale_log(scale as int),
{
    proof {
        lemma_pow10_vals();
    }
    let r: u32 = if scale == 1 {
        0
    } else if scale == 10 {
        1
    } else if scale == 100 {
        2
    } else if scale == 1000 {
        3
    } else if scale == 10000 {
        4
    } else if scale == 100000 {
        5
    } else if scale == 1000000 {
        6
    } else if scale == 10000000 {
        7
    } else if scale == 100000000 {
        8
    } else {
        proof {
            let k = choose|k: nat| k <= 9 && pow10(k) == scale;
            if scale != 1000000000 {
                assert(false);
            }
        }
        9
    };
    proof {
        let k = scale_log(scale as int);
        assert(k <= 9 && pow10(k) == scale);
        if k != r as nat {
            if k < r as nat {
                lemma_pow10_strict(k, r as nat);
            } else {
                lemma_pow10_strict(r as nat, k);
            }
        }
    }
    r
}

fn all_ws_exec(v: &Vec<char>) -> (r: bool)
    ensures
        r == all_ws(v@),
    decreases v@.len(),
{
    let mut i: usize = 0;
    while i < v.len()
        invariant
            0 <= i <= v@.len(),
            forall|t: int| 0 <= t < i ==> is_ws(#[trigger] v@[t]),
        decreases v@.len() - i,
    {
        let c = v[i];
        if !(c == ' ' || c == '\t' || c == '\n' || c == '\r' || c == '\u{c}') {
            assert(!is_ws(v@[i as int]));
            return false;
        }
        i = i + 1;
    }
    true
}

/// Parse a path text and flatten it into a winding-normalized fixed-point
/// ring.  `tolerance` is the flatness tolerance and `scale` the fixed-point
/// scale factor, a power of ten.
pub fn parse_svg_path(path_data: &str, tolerance: i64, scale: i64) -> (r: Result<
    Vec<FxPoint>,
    PathError,
>)
    requires
        0 <= tolerance <= MAX_COORD,
        is_pow10(scale as int),
    ensures
        r is Ok <==> pipeline_ok(path_data@, tolerance as int, scale_log(scale as int)),
        match r {
            Ok(ring) => {
                &&& ring@ == pipeline_ring(path_data@, tolerance as int, scale_log(scale as int))
                &&& ring_in_bounds(ring@)
                &&& ring@.len() >= 1
            },
            Err(e) => {
                &&& (e is EmptyInput <==> all_ws(path_data@))
                &&& (e is MalformedPath <==> !all_ws(path_data@) && parse_spec(
                    path_data@,
                    scale_log(scale as int),
                ) is Err)
                &&& (e is EmptyRing <==> !all_ws(path_data@) && parse_spec(
                    path_data@,
                    scale_log(scale as int),
                ) is Ok && flatten_spec(
                    parse_spec(path_data@, scale_log(scale as int)).unwrap(),
                    tolerance as int,
                ).len() == 0)
            },
        },
{
    let chars = str_to_chars(path_data);
    if all_ws_exec(&chars) {
        return Err(PathError::EmptyInput);
    }
    let k = scale_k(scale);
    match parse_directives(&chars, k) {
        Err(()) => Err(PathError::MalformedPath(String::from_str("unexpected character"))),
        Ok(dirs) => {
            let ring = flatten_dirs(&dirs, tolerance);
            if ring.len() == 0 {
                Err(PathError::EmptyRing)
            } else {
                Ok(normalize_winding(ring))
            }
        },
    }
}

/// Whether the parse-and-flatten stage accepts the path text, with the
/// default tolerance and scale.
pub fn validate_svg_path(path_data: &str) -> (r: bool)
    ensures
        r == pipeline_ok(
            path_data@,
            DEFAULT_FLATTEN_TOL as int,
            scale_log(DEFAULT_SCALE as int),
        ),
{
    proof {
        lemma_pow10_vals();
        assert(3nat <= 9 && pow10(3nat) == 1000);
    }
    parse_svg_path(path_data, DEFAULT_FLATTEN_TOL, DEFAULT_SCALE).is_ok()
}

/// A path text containing a character the grammar can never consume — an
/// unrecognized command letter among them — fails the parse-and-flatten
/// stage, so `validate_svg_path` returns false for it.
pub proof fn lemma_unrecognized_char_invalid(s: Seq<char>, tol: int, k: nat, j: int)
    requires
        0 <= j < s.len(),
        !crate::parse::consumable_char(s[j]),
    ensures
        !pipeline_ok(s, tol, k),
{
    crate::parse::lemma_unconsumable_char_rejects(s, k, j);
}

/// What `offset_prepare` decided.
pub enum Prepared {
    /// The offset distance is below the threshold: the input text is the
    /// result, unchanged.
    Unchanged(String),
    /// The ring is validated; run the offsetting collaborator on it.
    Ready(OffsetJob),
}

/// A validated offsetting job: the winding-normalized ring, the offset
/// distance in ring units, and the styles, passed through unchanged.
pub struct OffsetJob {
    pub ring: Vec<FxPoint>,
    pub delta: i64,
    pub join: JoinType,
    pub end: EndType,
}

/// Validate a path text and an offset distance for the offsetting
/// collaborator.  `distance` is the offset in ring units (source units
/// times the scale factor); `None` stands for a distance that is not a
/// finite number.  A distance of zero ring units is below the offsetting
/// threshold and short-circuits to the unchanged input text.
pub fn offset_prepare(path_data: &str, distance: Option<i64>, join: JoinType, end: EndType) -> (r:
    Result<Prepared, PathError>)
    ensures
        match distance {
            None => r matches Err(PathError::InvalidAmount),
            Some(d) => {
                if d == 0 {
                    r matches Ok(p) && (p matches Prepared::Unchanged(t) && t@ == path_data@)
                } else {
                    let k = scale_log(DEFAULT_SCALE as int);
                    let tol = DEFAULT_FLATTEN_TOL as int;
                    if !pipeline_ok(path_data@, tol, k) {
                        r is Err && (match r {
                            Err(e) => {
                                &&& (e is EmptyInput <==> all_ws(path_data@))
                                &&& (e is MalformedPath <==> !all_ws(path_data@) && parse_spec(
                                    path_data@,
                                    k,
                                ) is Err)
                                &&& (e is EmptyRing <==> !all_ws(path_data@) && parse_spec(
                                    path_data@,
                                    k,
                                ) is Ok && flatten_spec(
                                    parse_spec(path_data@, k).unwrap(),
                                    tol,
                                ).len() == 0)
                            },
                            Ok(_) => false,
                        })
                    } else if pipeline_ring(path_data@, tol, k).len() < 3 {
                        r matches Err(PathError::TooFewPoints)
                    } else {
                        r matches Ok(p) && (p matches Prepared::Ready(job) && job.ring@
                            == pipeline_ring(path_data@, tol, k) && ring_in_bounds(job.ring@)
                            && job.delta == d && job.join == join && job.end == end)
                    }
                }
            },
        },
{
    let d = match distance {
        None => {
            return Err(PathError::InvalidAmount);
        },
        Some(d) => d,
    };
    if d == 0 {
        let chars = str_to_chars(path_data);
        let text = chars_to_string(&chars);
        return Ok(Prepared::Unchanged(text));
    }
    proof {
        lemma_pow10_vals();
        assert(3nat <= 9 && pow10(3nat) == 1000);
    }
    let ring = match parse_svg_path(path_data, DEFAULT_FLATTEN_TOL, DEFAULT_SCALE) {
        Err(e) => {
            return Err(e);
        },
        Ok(ring) => ring,
    };
    if ring.len() < 3 {
        return Err(PathError::TooFewPoints);
    }
    Ok(Prepared::Ready(OffsetJob { ring, delta: d, join, end }))
}

/// Clamp a mathematical integer into the machine range of a coordinate.
pub open spec fn sat64(v: int) -> int {
    if v > i64::MAX {
        i64::MAX as int
    } else if v < i64::MIN {
        i64::MIN as int
    } else {
        v
    }
}

/// The rigid translation that brings the anchor of the offset box back onto
/// the anchor of the original box, truncated toward zero.  `f` is the
/// anchor fraction in millionths.
pub open spec fn anchor_delta(omin: int, omax: int, fmin: int, fmax: int, f: int) -> int {
    tdiv((omin - fmin) * ANCHOR_SCALE + ((omax - omin) - (fmax - fmin)) * f, ANCHOR_SCALE as int)
}

pub open spec fn translate_pt(p: FxPoint, dx: int, dy: int) -> FxPoint {
    FxPoint { x: sat64(p.x + dx) as i64, y: sat64(p.y + dy) as i64 }
}

pub open spec fn translate_ring_spec(r: Seq<FxPoint>, dx: int, dy: int) -> Seq<FxPoint> {
    r.map_values(|p: FxPoint| translate_pt(p, dx, dy))
}

/// The text `offset_finish` produces: empty when the collaborator returned
/// no ring (total deflation) or an empty first ring, else the first ring
/// translated per the anchor fractions and serialized.
pub open spec fn finish_spec(
    orig: Seq<FxPoint>,
    rs: Seq<Seq<FxPoint>>,
    ax: Option<i64>,
    ay: Option<i64>,
) -> Seq<char> {
    if rs.len() == 0 || rs[0].len() == 0 {
        Seq::empty()
    } else {
        let dx = match ax {
            None => 0,
            Some(f) => anchor_delta(
                bb_min_x(orig),
                bb_max_x(orig),
                bb_min_x(rs[0]),
                bb_max_x(rs[0]),
                f as int,
            ),
        };
        let dy = match ay {
            None => 0,
            Some(f) => anchor_delta(
                bb_min_y(orig),
                bb_max_y(orig),
                bb_min_y(rs[0]),
                bb_max_y(rs[0]),
                f as int,
            ),
        };
        ring_svg(translate_ring_spec(rs[0], dx, dy), DEFAULT_SCALE as int)
    }
}

proof fn lemma_tdiv_rem(a: int, b: int)
    requires
        b > 0,
    ensures
        -b < a - tdiv(a, b) * b < b,
{
    if a >= 0 {
        let q = a / b;
        lemma_fundamental_div_mod(a, b);
        lemma_mod_division_less_than_divisor(a, b);
        assert(a == b * q + a % b);
        assert(a - q * b == a % b) by (nonlinear_arith)
            requires
                a == b * q + a % b,
        ;
    } else {
        let q = (-a) / b;
        lemma_fundamental_div_mod(-a, b);
        lemma_mod_division_less_than_divisor(-a, b);
        assert(tdiv(a, b) == -q);
        assert((-a) == b * q + (-a) % b);
        assert(a - (-q) * b == -((-a) - q * b)) by (nonlinear_arith);
        assert((-a) - q * b == (-a) % b) by (nonlinear_arith)
            requires
                (-a) == b * q + (-a) % b,
        ;
    }
}

proof fn lemma_translate_bbox_x(r: Seq<FxPoint>, dx: int, dy: int)
    requires
        r.len() >= 1,
        forall|i: int| 0 <= i < r.len() ==> i64::MIN <= (#[trigger] r[i]).x + dx <= i64::MAX,
    ensures
        bb_min_x(translate_ring_spec(r, dx, dy)) == bb_min_x(r) + dx,
        bb_max_x(translate_ring_spec(r, dx, dy)) == bb_max_x(r) + dx,
    decreases r.len(),
{
    let t = translate_ring_spec(r, dx, dy);
    assert(t.len() == r.len());
    assert(t[0] == translate_pt(r[0], dx, dy));
    if r.len() == 1 {
        assert(sat64(r[0].x + dx) == r[0].x + dx);
    } else {
        let dl = r.drop_last();
        assert(forall|i: int|
            0 <= i < dl.len() ==> i64::MIN <= (#[trigger] dl[i]).x + dx <= i64::MAX) by {
            assert(forall|i: int| 0 <= i < dl.len() ==> dl[i] == #[trigger] r[i]);
        }
        lemma_translate_bbox_x(dl, dx, dy);
        assert(t.drop_last() =~= translate_ring_spec(dl, dx, dy));
        assert(t.last() == translate_pt(r.last(), dx, dy));
        assert(sat64(r.last().x + dx) == r.last().x + dx);
    }
}

proof fn lemma_translate_bbox_y(r: Seq<FxPoint>, dx: int, dy: int)
    requires
        r.len() >= 1,
        forall|i: int| 0 <= i < r.len() ==> i64::MIN <= (#[trigger] r[i]).y + dy <= i64::MAX,
    ensures
        bb_min_y(translate_ring_spec(r, dx, dy)) == bb_min_y(r) + dy,
        bb_max_y(translate_ring_spec(r, dx, dy)) == bb_max_y(r) + dy,
    decreases r.len(),
{
    let t = translate_ring_spec(r, dx, dy);
    assert(t.len() == r.len());
    assert(t[0] == translate_pt(r[0], dx, dy));
    if r.len() == 1 {
        assert(sat64(r[0].y + dy) == r[0].y + dy);
    } else {
        let dl = r.drop_last();
        assert(forall|i: int|
            0 <= i < dl.len() ==> i64::MIN <= (#[trigger] dl[i]).y + dy <= i64::MAX) by {
            assert(forall|i: int| 0 <= i < dl.len() ==> dl[i] == #[trigger] r[i]);
        }
        lemma_translate_bbox_y(dl, dx, dy);
        assert(t.drop_last() =~= translate_ring_spec(dl, dx, dy));
        assert(t.last() == translate_pt(r.last(), dx, dy));
        assert(sat64(r.last().y + dy) == r.last().y + dy);
    }
}

/// Anchor invariant, x axis: translate the offset ring by the delta that
/// `anchor_delta` prescribes for anchor fraction `f`, and the anchor point
/// `boxMin + (boxMax - boxMin) * f` of the translated ring's bounding box
/// coincides with the same point of the original ring's box, up to the
/// integer truncation of the delta: less than one coordinate unit (the
/// anchors below are scaled by `ANCHOR_SCALE`).  The translation must not
/// reach the machine range, where coordinates would saturate.
pub proof fn lemma_anchor_preserved_x(orig: Seq<FxPoint>, off: Seq<FxPoint>, f: int, dx: int, dy: int)
    requires
        orig.len() >= 1,
        off.len() >= 1,
        dx == anchor_delta(bb_min_x(orig), bb_max_x(orig), bb_min_x(off), bb_max_x(off), f),
        forall|i: int| 0 <= i < off.len() ==> i64::MIN <= (#[trigger] off[i]).x + dx <= i64::MAX,
    ensures
        ({
            let t = translate_ring_spec(off, dx, dy);
            let a_in = bb_min_x(orig) * ANCHOR_SCALE + (bb_max_x(orig) - bb_min_x(orig)) * f;
            let a_out = bb_min_x(t) * ANCHOR_SCALE + (bb_max_x(t) - bb_min_x(t)) * f;
            abs_i(a_in - a_out) < ANCHOR_SCALE
        }),
{
    let s = ANCHOR_SCALE as int;
    let omin = bb_min_x(orig);
    let omax = bb_max_x(orig);
    let fmin = bb_min_x(off);
    let fmax = bb_max_x(off);
    lemma_translate_bbox_x(off, dx, dy);
    let t = translate_ring_spec(off, dx, dy);
    let a_in = omin * s + (omax - omin) * f;
    let b = fmin * s + (fmax - fmin) * f;
    let a_out = bb_min_x(t) * s + (bb_max_x(t) - bb_min_x(t)) * f;
    assert(bb_min_x(t) == fmin + dx && bb_max_x(t) == fmax + dx);
    assert(a_out == b + dx * s) by (nonlinear_arith)
        requires
            a_out == (fmin + dx) * s + ((fmax + dx) - (fmin + dx)) * f,
            b == fmin * s + (fmax - fmin) * f,
    ;
    let num = (omin - fmin) * s + ((omax - omin) - (fmax - fmin)) * f;
    assert(num == a_in - b) by (nonlinear_arith)
        requires
            num == (omin - fmin) * s + ((omax - omin) - (fmax - fmin)) * f,
            a_in == omin * s + (omax - omin) * f,
            b == fmin * s + (fmax - fmin) * f,
    ;
    assert(dx == tdiv(num, s));
    lemma_tdiv_rem(num, s);
}

/// Anchor invariant, y axis.
pub proof fn lemma_anchor_preserved_y(orig: Seq<FxPoint>, off: Seq<FxPoint>, f: int, dx: int, dy: int)
    requires
        orig.len() >= 1,
        off.len() >= 1,
        dy == anchor_delta(bb_min_y(orig), bb_max_y(orig), bb_min_y(off), bb_max_y(off), f),
        forall|i: int| 0 <= i < off.len() ==> i64::MIN <= (#[trigger] off[i]).y + dy <= i64::MAX,
    ensures
        ({
            let t = translate_ring_spec(off, dx, dy);
            let a_in = bb_min_y(orig) * ANCHOR_SCALE + (bb_max_y(orig) - bb_min_y(orig)) * f;
            let a_out = bb_min_y(t) * ANCHOR_SCALE + (bb_max_y(t) - bb_min_y(t)) * f;
            abs_i(a_in - a_out) < ANCHOR_SCALE
        }),
{
    let s = ANCHOR_SCALE as int;
    let omin = bb_min_y(orig);
    let omax = bb_max_y(orig);
    let fmin = bb_min_y(off);
    let fmax = bb_max_y(off);
    lemma_translate_bbox_y(off, dx, dy);
    let t = translate_ring_spec(off, dx, dy);
    let a_in = omin * s + (omax - omin) * f;
    let b = fmin * s + (fmax - fmin) * f;
    let a_out = bb_min_y(t) * s + (bb_max_y(t) - bb_min_y(t)) * f;
    assert(bb_min_y(t) == fmin + dy && bb_max_y(t) == fmax + dy);
    assert(a_out == b + dy * s) by (nonlinear_arith)
        requires
            a_out == (fmin + dy) * s + ((fmax + dy) - (fmin + dy)) * f,
            b == fmin * s + (fmax - fmin) * f,
    ;
    let num = (omin - fmin) * s + ((omax - omin) - (fmax - fmin)) * f;
    assert(num == a_in - b) by (nonlinear_arith)
        requires
            num == (omin - fmin) * s + ((omax - omin) - (fmax - fmin)) * f,
            a_in == omin * s + (omax - omin) * f,
            b == fmin * s + (fmax - fmin) * f,
    ;
    assert(dy == tdiv(num, s));
    lemma_tdiv_rem(num, s);
}

/// Truncated division for the anchor arithmetic.
fn tdiv_128(a: i128, b: i128) -> (r: i128)
    requires
        0 < b <= 0x1_0000_0000,
        -0x1_0000_0000_0000_0000_0000_0000 <= a <= 0x1_0000_0000_0000_0000_0000_0000,
    ensures
        r == tdiv(a as int, b as int),
        abs_i(r as int) <= abs_i(a as int),
{
    let bu = b as u128;
    if a >= 0 {
        let q = (a as u128) / bu;
        proof {
            assert(q <= a as u128) by (nonlinear_arith)
                requires
                    q == (a as u128) / bu,
                    bu >= 1,
            ;
        }
        q as i128
    } else {
        let m = (-a) as u128;
        let q = m / bu;
        proof {
            assert(q <= m) by (nonlinear_arith)
                requires
                    q == m / bu,
                    bu >= 1,
            ;
        }
        -(q as i128)
    }
}

fn anchor_delta_exec(omin: i64, omax: i64, fmin: i64, fmax: i64, f: i64) -> (r: i128)
    requires
        -MAX_COORD <= omin <= MAX_COORD,
        -MAX_COORD <= omax <= MAX_COORD,
        -1000000000 <= f <= 1000000000,
    ensures
        r == anchor_delta(omin as int, omax as int, fmin as int, fmax as int, f as int),
        -0x1_0000_0000_0000_0000_0000_0000 <= r <= 0x1_0000_0000_0000_0000_0000_0000,
{
    let diff: i128 = omin as i128 - fmin as i128;
    proof {
        assert(-0x10_0000_0000_0000_0000_0000 <= diff * 1000000 <= 0x10_0000_0000_0000_0000_0000)
            by (nonlinear_arith)
            requires
                -0x1_0000_0000_0000_0000 <= diff <= 0x1_0000_0000_0000_0000,
        ;
    }
    let a: i128 = diff * 1000000;
    let w: i128 = (omax as i128 - omin as i128) - (fmax as i128 - fmin as i128);
    proof {
        assert(-0x8000_0000_0000_0000_0000_0000 <= w * (f as i128)
            <= 0x8000_0000_0000_0000_0000_0000) by (nonlinear_arith)
            requires
                -0x2_0000_0000_0000_0000 <= w <= 0x2_0000_0000_0000_0000,
                -1000000000 <= f as i128 <= 1000000000,
        ;
    }
    let num = a + w * (f as i128);
    let r = tdiv_128(num, 1000000);
    proof {
        assert(ANCHOR_SCALE as int == 1000000);
    }
    r
}

fn sat_add(a: i64, d: i128) -> (r: i64)
    requires
        -0x1_0000_0000_0000_0000_0000_0000 <= d <= 0x1_0000_0000_0000_0000_0000_0000,
    ensures
        r as int == sat64(a + d),
{
    let t = a as i128 + d;
    if t > i64::MAX as i128 {
        i64::MAX
    } else if t < i64::MIN as i128 {
        i64::MIN
    } else {
        t as i64
    }
}

/// Translate every point of a ring, saturating at the machine range.
fn translate_ring(r: &Vec<FxPoint>, dx: i128, dy: i128) -> (out: Vec<FxPoint>)
    requires
        -0x1_0000_0000_0000_0000_0000_0000 <= dx <= 0x1_0000_0000_0000_0000_0000_0000,
        -0x1_0000_0000_0000_0000_0000_0000 <= dy <= 0x1_0000_0000_0000_0000_0000_0000,
    ensures
        out@ == translate_ring_spec(r@, dx as int, dy as int),
{
    let mut out: Vec<FxPoint> = Vec::new();
    let mut i: usize = 0;
    while i < r.len()
        invariant
            0 <= i <= r@.len(),
            -0x1_0000_0000_0000_0000_0000_0000 <= dx <= 0x1_0000_0000_0000_0000_0000_0000,
            -0x1_0000_0000_0000_0000_0000_0000 <= dy <= 0x1_0000_0000_0000_0000_0000_0000,
            out@.len() == i,
            forall|t: int|
                0 <= t < i ==> out@[t] == translate_pt(#[trigger] r@[t], dx as int, dy as int),
        decreases r@.len() - i,
    {
        let p = r[i];
        let q = FxPoint { x: sat_add(p.x, dx), y: sat_add(p.y, dy) };
        out.push(q);
        i = i + 1;
    }
    proof {
        assert(out@ =~= translate_ring_spec(r@, dx as int, dy as int));
    }
    out
}

/// Serialize the offsetting collaborator's result: pick its first ring,
/// translate it so the anchor point stays fixed, and render it as text.
/// An empty result set (total deflation) yields empty text.  The anchor
/// fractions are in millionths of the bounding box extent.
pub fn offset_finish(
    original: &Vec<FxPoint>,
    offset_rings: &Vec<Vec<FxPoint>>,
    anchor_x: Option<i64>,
    anchor_y: Option<i64>,
) -> (r: String)
    requires
        original@.len() >= 1,
        ring_in_bounds(original@),
        match anchor_x {
            Some(f) => -1000000000 <= f <= 1000000000,
            None => true,
        },
        match anchor_y {
            Some(f) => -1000000000 <= f <= 1000000000,
            None => true,
        },
    ensures
        r@ == finish_spec(
            original@,
            offset_rings@.map_values(|v: Vec<FxPoint>| v@),
            anchor_x,
            anchor_y,
        ),
{
    let ghost grs = offset_rings@.map_values(|v: Vec<FxPoint>| v@);
    if offset_rings.len() == 0 {
        return String::new();
    }
    let first = &offset_rings[0];
    assert(grs[0] == offset_rings@[0]@);
    if first.len() == 0 {
        return String::new();
    }
    proof {
        crate::ring::lemma_bbox_bounds(original@);
    }
    let (omin_x, omin_y, omax_x, omax_y) = bbox(original);
    let (fmin_x, fmin_y, fmax_x, fmax_y) = bbox(first);
    let dx: i128 = match anchor_x {
        None => 0,
        Some(f) => anchor_delta_exec(omin_x, omax_x, fmin_x, fmax_x, f),
    };
    let dy: i128 = match anchor_y {
        None => 0,
        Some(f) => anchor_delta_exec(omin_y, omax_y, fmin_y, fmax_y, f),
    };
    let moved = translate_ring(first, dx, dy);
    let chars = ring_to_svg_chars(&moved, DEFAULT_SCALE);
    chars_to_string(&chars)
}

} // verus!
