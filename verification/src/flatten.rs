//! Curve flattener.
//!
//! Turns the directive stream into a closed ring of fixed-point points.
//! `Begin` and `LineTo` map to one point each; curve directives are
//! approximated by evaluating the Bezier polynomial at evenly spaced
//! parameters, with a segment count chosen from the curve's second
//! differences and the flatness tolerance; `Close` adds no point, since
//! closure is implicit in the ring representation.

use crate::parse::{clamp_coord, dir_in_bounds, dirs_in_bounds, Directive};
use crate::{pt_in_bounds, ring_in_bounds, FxPoint, MAX_COORD};
use vstd::prelude::*;

verus! {

/// Division truncated toward zero (the divisor is positive).
pub open spec fn tdiv(a: int, b: int) -> int {
    if a >= 0 {
        a / b
    } else {
        -((-a) / b)
    }
}

pub open spec fn abs_i(v: int) -> int {
    if v < 0 {
        -v
    } else {
        v
    }
}

pub open spec fn max_i(a: int, b: int) -> int {
    if a >= b {
        a
    } else {
        b
    }
}

/// The smallest segment count `n` in `[lo, 32]` with `n*n*t >= d2`, or 32.
/// The deviation of a uniform `n`-segment approximation shrinks with `n*n`,
/// so this caps the flatness error at roughly `d2 / (n*n)`.
pub open spec fn n_from(d2: int, t: int, lo: int) -> int
    decreases 32 - lo,
{
    if lo >= 32 {
        32
    } else if lo * lo * t >= d2 {
        lo
    } else {
        n_from(d2, t, lo + 1)
    }
}

/// Largest second difference of a cubic control polygon, over both axes.
pub open spec fn cubic_dev(p0: FxPoint, c1: FxPoint, c2: FxPoint, p1: FxPoint) -> int {
    max_i(
        max_i(abs_i(p0.x - 2 * c1.x + c2.x), abs_i(p0.y - 2 * c1.y + c2.y)),
        max_i(abs_i(c1.x - 2 * c2.x + p1.x), abs_i(c1.y - 2 * c2.y + p1.y)),
    )
}

pub open spec fn quad_dev(p0: FxPoint, c1: FxPoint, p1: FxPoint) -> int {
    max_i(abs_i(p0.x - 2 * c1.x + p1.x), abs_i(p0.y - 2 * c1.y + p1.y))
}

pub open spec fn seg_count(d2: int, tol: int) -> int {
    n_from(
        d2,
        if tol < 1 {
            1
        } else {
            tol
        },
        2,
    )
}

/// One coordinate of a cubic Bezier at parameter `i/n`, truncated toward
/// zero and clamped to the coordinate bounds.
pub open spec fn bez3_coord(a: int, b: int, c: int, d: int, i: int, n: int) -> int {
    let u = n - i;
    clamp_coord(
        tdiv(u * u * u * a + 3 * (u * u) * i * b + 3 * u * (i * i) * c + i * i * i * d, n * n * n),
    )
}

/// One coordinate of a quadratic Bezier at parameter `i/n`.
pub open spec fn bez2_coord(a: int, b: int, c: int, i: int, n: int) -> int {
    let u = n - i;
    clamp_coord(tdiv(u * u * a + 2 * u * i * b + i * i * c, n * n))
}

/// The points a cubic directive contributes: the curve at `i/n` for
/// `i = 1 ..= n`.
pub open spec fn cubic_pts(p0: FxPoint, c1: FxPoint, c2: FxPoint, p1: FxPoint, tol: int) -> Seq<
    FxPoint,
> {
    let n = seg_count(cubic_dev(p0, c1, c2, p1), tol);
    Seq::new(
        n as nat,
        |t: int|
            FxPoint {
                x: bez3_coord(p0.x as int, c1.x as int, c2.x as int, p1.x as int, t + 1, n) as i64,
                y: bez3_coord(p0.y as int, c1.y as int, c2.y as int, p1.y as int, t + 1, n) as i64,
            },
    )
}

pub open spec fn quad_pts(p0: FxPoint, c1: FxPoint, p1: FxPoint, tol: int) -> Seq<FxPoint> {
    let n = seg_count(quad_dev(p0, c1, p1), tol);
    Seq::new(
        n as nat,
        |t: int|
            FxPoint {
                x: bez2_coord(p0.x as int, c1.x as int, p1.x as int, t + 1, n) as i64,
                y: bez2_coord(p0.y as int, c1.y as int, p1.y as int, t + 1, n) as i64,
            },
    )
}

/// The ring points contributed by the directives from `i` on, with current
/// point `cur`.
pub open spec fn flat_from(ds: Seq<Directive>, i: int, cur: FxPoint, tol: int) -> Seq<FxPoint>
    decreases ds.len() - i,
{
    if i < 0 || i >= ds.len() {
        Seq::empty()
    } else {
        match ds[i] {
            Directive::Begin(p) => seq![p] + flat_from(ds, i + 1, p, tol),
            Directive::LineTo(p) => seq![p] + flat_from(ds, i + 1, p, tol),
            Directive::CubicTo(c1, c2, p) => cubic_pts(cur, c1, c2, p, tol) + flat_from(
                ds,
                i + 1,
                p,
                tol,
            ),
            Directive::QuadTo(c1, p) => quad_pts(cur, c1, p, tol) + flat_from(ds, i + 1, p, tol),
            Directive::Close => flat_from(ds, i + 1, cur, tol),
        }
    }
}

/// The whole ring of a directive stream.
pub open spec fn flatten_spec(ds: Seq<Directive>, tol: int) -> Seq<FxPoint> {
    flat_from(ds, 0, FxPoint { x: 0, y: 0 }, tol)
}

/// Division truncated toward zero.
fn tdiv_exec(a: i64, b: i64) -> (r: i64)
    requires
        0 < b <= 0x10_0000,
        -0x4000_0000_0000_0000 <= a <= 0x4000_0000_0000_0000,
    ensures
        r == tdiv(a as int, b as int),
        abs_i(r as int) <= abs_i(a as int),
{
    let bu = b as u64;
    if a >= 0 {
        let q = (a as u64) / bu;
        proof {
            assert(q <= a as u64) by (nonlinear_arith)
                requires
                    q == (a as u64) / bu,
                    bu >= 1,
            ;
        }
        q as i64
    } else {
        let m = (-a) as u64;
        let q = m / bu;
        proof {
            assert(q <= m) by (nonlinear_arith)
                requires
                    q == m / bu,
                    bu >= 1,
            ;
        }
        -(q as i64)
    }
}

/// Pick the segment count for a curve with largest second difference `d2`.
fn seg_count_exec(d2: i64, tol: i64) -> (r: i64)
    requires
        0 <= d2 <= 4 * MAX_COORD,
        0 <= tol <= MAX_COORD,
    ensures
        r == seg_count(d2 as int, tol as int),
        2 <= r <= 32,
{
    let t = if tol < 1 {
        1
    } else {
        tol
    };
    seg_from(d2, t, 2)
}

fn seg_from(d2: i64, t: i64, n: i64) -> (r: i64)
    requires
        0 <= d2 <= 4 * MAX_COORD,
        1 <= t <= MAX_COORD,
        2 <= n <= 32,
    ensures
        r == n_from(d2 as int, t as int, n as int),
        2 <= r <= 32,
    decreases 32 - n,
{
    if n >= 32 {
        return 32;
    }
    proof {
        assert(0 <= n * n <= 1024) by (nonlinear_arith)
            requires
                0 <= n <= 32,
        ;
    }
    let nn = n * n;
    proof {
        assert(0 <= nn * t <= 1024 * MAX_COORD) by (nonlinear_arith)
            requires
                0 <= nn <= 1024,
                1 <= t <= MAX_COORD,
        ;
    }
    let prod = nn * t;
    if prod >= d2 {
        n
    } else {
        seg_from(d2, t, n + 1)
    }
}

/// One coordinate of a cubic Bezier at parameter `i/n`.
fn bez3_exec(a: i64, b: i64, c: i64, d: i64, i: i64, n: i64) -> (r: i64)
    requires
        -MAX_COORD <= a <= MAX_COORD,
        -MAX_COORD <= b <= MAX_COORD,
        -MAX_COORD <= c <= MAX_COORD,
        -MAX_COORD <= d <= MAX_COORD,
        0 <= i <= n,
        2 <= n <= 32,
    ensures
        r == bez3_coord(a as int, b as int, c as int, d as int, i as int, n as int),
        -MAX_COORD <= r <= MAX_COORD,
{
    let m: i64 = MAX_COORD;
    let u = n - i;
    proof {
        assert(0 <= u * u <= 1024 && 0 <= i * i <= 1024) by (nonlinear_arith)
            requires
                0 <= u <= 32,
                0 <= i <= 32,
        ;
    }
    let uu = u * u;
    let ii = i * i;
    proof {
        assert(0 <= uu * u <= 32768 && 0 <= uu * i <= 32768 && 0 <= u * ii <= 32768 && 0 <= ii * i
            <= 32768) by (nonlinear_arith)
            requires
                0 <= u <= 32,
                0 <= i <= 32,
                uu == u * u,
                ii == i * i,
        ;
    }
    let w0 = uu * u;
    let w1 = uu * i;
    let w2 = u * ii;
    let w3 = ii * i;
    proof {
        assert(-(32768 * (m as int)) <= w0 * a <= 32768 * (m as int)) by (nonlinear_arith)
            requires
                0 <= w0 <= 32768,
                -m <= a <= m,
        ;
        assert(-(32768 * (m as int)) <= w1 * b <= 32768 * (m as int)) by (nonlinear_arith)
            requires
                0 <= w1 <= 32768,
                -m <= b <= m,
        ;
        assert(-(32768 * (m as int)) <= w2 * c <= 32768 * (m as int)) by (nonlinear_arith)
            requires
                0 <= w2 <= 32768,
                -m <= c <= m,
        ;
        assert(-(32768 * (m as int)) <= w3 * d <= 32768 * (m as int)) by (nonlinear_arith)
            requires
                0 <= w3 <= 32768,
                -m <= d <= m,
        ;
    }
    let t0 = w0 * a;
    let t1 = w1 * b;
    let t2 = w2 * c;
    let t3 = w3 * d;
    let num = t0 + 3 * t1 + 3 * t2 + t3;
    proof {
        assert(0 < n * n <= 1024 && 0 < (n * n) * n <= 32768) by (nonlinear_arith)
            requires
                2 <= n <= 32,
        ;
    }
    let den = (n * n) * n;
    let q = tdiv_exec(num, den);
    proof {
        let ui = u as int;
        let ni = i as int;
        assert(num == ui * ui * ui * a + 3 * (ui * ui) * ni * b + 3 * ui * (ni * ni) * c + ni * ni
            * ni * d) by (nonlinear_arith)
            requires
                num == t0 + 3 * t1 + 3 * t2 + t3,
                t0 == w0 * a,
                t1 == w1 * b,
                t2 == w2 * c,
                t3 == w3 * d,
                w0 == uu * u,
                w1 == uu * i,
                w2 == u * ii,
                w3 == ii * i,
                uu == u * u,
                ii == i * i,
                ui == u as int,
                ni == i as int,
        ;
        assert(den == (n as int) * (n as int) * (n as int)) by (nonlinear_arith)
            requires
                den == (n * n) * n,
        ;
    }
    let r = if q > m {
        m
    } else if q < -m {
        -m
    } else {
        q
    };
    r
}

/// One coordinate of a quadratic Bezier at parameter `i/n`.
fn bez2_exec(a: i64, b: i64, c: i64, i: i64, n: i64) -> (r: i64)
    requires
        -MAX_COORD <= a <= MAX_COORD,
        -MAX_COORD <= b <= MAX_COORD,
        -MAX_COORD <= c <= MAX_COORD,
        0 <= i <= n,
        2 <= n <= 32,
    ensures
        r == bez2_coord(a as int, b as int, c as int, i as int, n as int),
        -MAX_COORD <= r <= MAX_COORD,
{
    let m: i64 = MAX_COORD;
    let u = n - i;
    proof {
        assert(0 <= u * u <= 1024 && 0 <= i * i <= 1024 && 0 <= u * i <= 1024) by (nonlinear_arith)
            requires
                0 <= u <= 32,
                0 <= i <= 32,
        ;
    }
    let w0 = u * u;
    let w1 = u * i;
    let w2 = i * i;
    proof {
        assert(-(1024 * (m as int)) <= w0 * a <= 1024 * (m as int)) by (nonlinear_arith)
            requires
                0 <= w0 <= 1024,
                -m <= a <= m,
        ;
        assert(-(1024 * (m as int)) <= w1 * b <= 1024 * (m as int)) by (nonlinear_arith)
            requires
                0 <= w1 <= 1024,
                -m <= b <= m,
        ;
        assert(-(1024 * (m as int)) <= w2 * c <= 1024 * (m as int)) by (nonlinear_arith)
            requires
                0 <= w2 <= 1024,
                -m <= c <= m,
        ;
    }
    let t0 = w0 * a;
    let t1 = w1 * b;
    let t2 = w2 * c;
    let num = t0 + 2 * t1 + t2;
    proof {
        assert(0 < n * n <= 1024) by (nonlinear_arith)
            requires
                2 <= n <= 32,
        ;
    }
    let den = n * n;
    let q = tdiv_exec(num, den);
    proof {
        let ui = u as int;
        let ni = i as int;
        assert(num == ui * ui * a + 2 * ui * ni * b + ni * ni * c) by (nonlinear_arith)
            requires
                num == t0 + 2 * t1 + t2,
                t0 == w0 * a,
                t1 == w1 * b,
                t2 == w2 * c,
                w0 == u * u,
                w1 == u * i,
                w2 == i * i,
                ui == u as int,
                ni == i as int,
        ;
    }
    let r = if q > m {
        m
    } else if q < -m {
        -m
    } else {
        q
    };
    r
}

fn abs_diff2(a: i64, b: i64, c: i64) -> (r: i64)
    requires
        -MAX_COORD <= a <= MAX_COORD,
        -MAX_COORD <= b <= MAX_COORD,
        -MAX_COORD <= c <= MAX_COORD,
    ensures
        r == abs_i(a - 2 * b + c),
        0 <= r <= 4 * MAX_COORD,
{
    let v = a - 2 * b + c;
    if v < 0 {
        -v
    } else {
        v
    }
}

fn max_exec(a: i64, b: i64) -> (r: i64)
    ensures
        r == max_i(a as int, b as int),
{
    if a >= b {
        a
    } else {
        b
    }
}

/// Append the points of one cubic directive.
fn push_cubic(out: &mut Vec<FxPoint>, p0: FxPoint, c1: FxPoint, c2: FxPoint, p1: FxPoint, tol: i64)
    requires
        pt_in_bounds(p0),
        pt_in_bounds(c1),
        pt_in_bounds(c2),
        pt_in_bounds(p1),
        0 <= tol <= MAX_COORD,
    ensures
        final(out)@ == old(out)@ + cubic_pts(p0, c1, c2, p1, tol as int),
{
    let dx1 = abs_diff2(p0.x, c1.x, c2.x);
    let dy1 = abs_diff2(p0.y, c1.y, c2.y);
    let dx2 = abs_diff2(c1.x, c2.x, p1.x);
    let dy2 = abs_diff2(c1.y, c2.y, p1.y);
    let d2 = max_exec(max_exec(dx1, dy1), max_exec(dx2, dy2));
    assert(d2 == cubic_dev(p0, c1, c2, p1));
    let n = seg_count_exec(d2, tol);
    let ghost pts = cubic_pts(p0, c1, c2, p1, tol as int);
    assert(pts.len() == n);
    let mut i: i64 = 1;
    proof {
        assert(out@ =~= old(out)@ + pts.take(0));
    }
    while i <= n
        invariant
            1 <= i <= n + 1,
            2 <= n <= 32,
            0 <= tol <= MAX_COORD,
            pt_in_bounds(p0) && pt_in_bounds(c1) && pt_in_bounds(c2) && pt_in_bounds(p1),
            pts == cubic_pts(p0, c1, c2, p1, tol as int),
            n == seg_count(cubic_dev(p0, c1, c2, p1), tol as int),
            out@ == old(out)@ + pts.take(i - 1),
        decreases n + 1 - i,
    {
        let x = bez3_exec(p0.x, c1.x, c2.x, p1.x, i, n);
        let y = bez3_exec(p0.y, c1.y, c2.y, p1.y, i, n);
        let p = FxPoint { x, y };
        proof {
            assert(pts[i - 1] == p);
            assert(pts.take(i as int) =~= pts.take(i - 1).push(p));
        }
        out.push(p);
        i = i + 1;
    }
    proof {
        assert(pts.take(n as int) =~= pts);
    }
}

/// Append the points of one quadratic directive.
fn push_quad(out: &mut Vec<FxPoint>, p0: FxPoint, c1: FxPoint, p1: FxPoint, tol: i64)
    requires
        pt_in_bounds(p0),
        pt_in_bounds(c1),
        pt_in_bounds(p1),
        0 <= tol <= MAX_COORD,
    ensures
        final(out)@ == old(out)@ + quad_pts(p0, c1, p1, tol as int),
{
    let dx1 = abs_diff2(p0.x, c1.x, p1.x);
    let dy1 = abs_diff2(p0.y, c1.y, p1.y);
    let d2 = max_exec(dx1, dy1);
    assert(d2 == quad_dev(p0, c1, p1));
    let n = seg_count_exec(d2, tol);
    let ghost pts = quad_pts(p0, c1, p1, tol as int);
    assert(pts.len() == n);
    let mut i: i64 = 1;
    proof {
        assert(out@ =~= old(out)@ + pts.take(0));
    }
    while i <= n
        invariant
            1 <= i <= n + 1,
            2 <= n <= 32,
            0 <= tol <= MAX_COORD,
            pt_in_bounds(p0) && pt_in_bounds(c1) && pt_in_bounds(p1),
            pts == quad_pts(p0, c1, p1, tol as int),
            n == seg_count(quad_dev(p0, c1, p1), tol as int),
            out@ == old(out)@ + pts.take(i - 1),
        decreases n + 1 - i,
    {
        let x = bez2_exec(p0.x, c1.x, p1.x, i, n);
        let y = bez2_exec(p0.y, c1.y, p1.y, i, n);
        let p = FxPoint { x, y };
        proof {
            assert(pts[i - 1] == p);
            assert(pts.take(i as int) =~= pts.take(i - 1).push(p));
        }
        out.push(p);
        i = i + 1;
    }
    proof {
        assert(pts.take(n as int) =~= pts);
    }
}

/// Flatten a directive stream into the ring of its fixed-point points.
pub fn flatten_dirs(dirs: &Vec<Directive>, tol: i64) -> (r: Vec<FxPoint>)
    requires
        dirs_in_bounds(dirs@),
        0 <= tol <= MAX_COORD,
    ensures
        r@ == flatten_spec(dirs@, tol as int),
        ring_in_bounds(r@),
{
    let ghost ds = dirs@;
    let mut out: Vec<FxPoint> = Vec::new();
    let mut cur = FxPoint { x: 0, y: 0 };
    let mut i: usize = 0;
    proof {
        assert(out@ + flat_from(ds, 0, cur, tol as int) =~= flat_from(ds, 0, cur, tol as int));
    }
    while i < dirs.len()
        invariant
            0 <= i <= ds.len(),
            dirs@ == ds,
            dirs_in_bounds(ds),
            0 <= tol <= MAX_COORD,
            pt_in_bounds(cur),
            ring_in_bounds(out@),
            flatten_spec(ds, tol as int) == out@ + flat_from(ds, i as int, cur, tol as int),
        decreases ds.len() - i,
    {
        let ghost old_out = out@;
        let ghost old_cur = cur;
        let d = dirs[i];
        assert(dir_in_bounds(ds[i as int]));
        match d {
            Directive::Begin(p) => {
                out.push(p);
                cur = p;
                proof {
                    let rest = flat_from(ds, i + 1, cur, tol as int);
                    assert(old_out + (seq![p] + rest) =~= out@ + rest);
                }
            },
            Directive::LineTo(p) => {
                out.push(p);
                cur = p;
                proof {
                    let rest = flat_from(ds, i + 1, cur, tol as int);
                    assert(old_out + (seq![p] + rest) =~= out@ + rest);
                }
            },
            Directive::CubicTo(c1, c2, p) => {
                push_cubic(&mut out, cur, c1, c2, p, tol);
                cur = p;
                proof {
                    let seg = cubic_pts(old_cur, c1, c2, p, tol as int);
                    let rest = flat_from(ds, i + 1, cur, tol as int);
                    assert(old_out + (seg + rest) =~= (old_out + seg) + rest);
                    assert forall|t: int| 0 <= t < out@.len() implies pt_in_bounds(
                        #[trigger] out@[t],
                    ) by {
                        if t >= old_out.len() {
                            assert(out@[t] == seg[t - old_out.len()]);
                        }
                    }
                }
            },
            Directive::QuadTo(c1, p) => {
                push_quad(&mut out, cur, c1, p, tol);
                cur = p;
                proof {
                    let seg = quad_pts(old_cur, c1, p, tol as int);
                    let rest = flat_from(ds, i + 1, cur, tol as int);
                    assert(old_out + (seg + rest) =~= (old_out + seg) + rest);
                    assert forall|t: int| 0 <= t < out@.len() implies pt_in_bounds(
                        #[trigger] out@[t],
                    ) by {
                        if t >= old_out.len() {
                            assert(out@[t] == seg[t - old_out.len()]);
                        }
                    }
                }
            },
            Directive::Close => {},
        }
        i = i + 1;
    }
    proof {
        assert(out@ + flat_from(ds, i as int, cur, tol as int) =~= out@);
    }
    out
}

} // verus!
