//! Winding normalizer and bounding boxes.
//!
//! The signed area of a ring is computed with the shoelace formula over
//! consecutive point pairs, wrapping from the last point back to the first.
//! The offsetting collaborator needs counter-clockwise outer contours, and in
//! the Y-down coordinate convention a strictly positive shoelace sum means
//! clockwise winding, so such a ring is reversed.

use crate::{ring_in_bounds, FxPoint, MAX_COORD};
use vstd::prelude::*;

verus! {

/// The shoelace term of one directed edge.
pub open spec fn edge_term(a: FxPoint, b: FxPoint) -> int {
    (b.x - a.x) * (b.y + a.y)
}

/// The sum of shoelace terms along the open chain of a ring.
pub open spec fn chain_sum(r: Seq<FxPoint>) -> int
    decreases r.len(),
{
    if r.len() < 2 {
        0
    } else {
        edge_term(r[0], r[1]) + chain_sum(r.drop_first())
    }
}

/// The shoelace sum of a ring, wrap-around edge included.
pub open spec fn shoelace(r: Seq<FxPoint>) -> int {
    if r.len() == 0 {
        0
    } else {
        chain_sum(r) + edge_term(r.last(), r[0])
    }
}

pub open spec fn rev_seq(r: Seq<FxPoint>) -> Seq<FxPoint> {
    Seq::new(r.len(), |i: int| r[r.len() - 1 - i])
}

/// What winding normalization yields: the ring itself when its shoelace sum
/// is not positive, else the ring reversed.
pub open spec fn normalize_spec(r: Seq<FxPoint>) -> Seq<FxPoint> {
    if shoelace(r) > 0 {
        rev_seq(r)
    } else {
        r
    }
}

proof fn lemma_chain_push(r: Seq<FxPoint>, p: FxPoint)
    requires
        r.len() >= 1,
    ensures
        chain_sum(r.push(p)) == chain_sum(r) + edge_term(r.last(), p),
    decreases r.len(),
{
    if r.len() == 1 {
        assert(r.push(p).drop_first() =~= seq![p]);
        assert(chain_sum(seq![p]) == 0);
    } else {
        assert(r.push(p).drop_first() =~= r.drop_first().push(p));
        lemma_chain_push(r.drop_first(), p);
        assert(r.drop_first().last() == r.last());
    }
}

proof fn lemma_chain_rev(r: Seq<FxPoint>)
    ensures
        chain_sum(rev_seq(r)) == -chain_sum(r),
    decreases r.len(),
{
    if r.len() < 2 {
        assert(rev_seq(r).len() == r.len());
    } else {
        let dr = r.drop_first();
        lemma_chain_rev(dr);
        assert(rev_seq(r) =~= rev_seq(dr).push(r[0]));
        assert(rev_seq(dr).len() == r.len() - 1);
        lemma_chain_push(rev_seq(dr), r[0]);
        assert(rev_seq(dr).last() == dr[0]);
        assert(dr[0] == r[1]);
        assert(edge_term(r[1], r[0]) == -edge_term(r[0], r[1])) by (nonlinear_arith);
        assert(chain_sum(rev_seq(r)) == chain_sum(rev_seq(dr)) + edge_term(r[1], r[0]));
    }
}

/// Reversing a ring negates its shoelace sum.
pub proof fn lemma_shoelace_rev(r: Seq<FxPoint>)
    ensures
        shoelace(rev_seq(r)) == -shoelace(r),
{
    if r.len() > 0 {
        lemma_chain_rev(r);
        assert(rev_seq(r).last() == r[0]);
        assert(rev_seq(r)[0] == r.last());
        assert(edge_term(r.last(), r[0]) == -edge_term(r[0], r.last())) by (nonlinear_arith);
        assert(shoelace(rev_seq(r)) == chain_sum(rev_seq(r)) + edge_term(r[0], r.last()));
    }
}

/// Winding normalization is idempotent: once a ring has been normalized, a
/// second normalization returns it unchanged.
pub proof fn lemma_winding_idempotent(r: Seq<FxPoint>)
    requires
        r.len() >= 3,
    ensures
        normalize_spec(normalize_spec(r)) == normalize_spec(r),
{
    if shoelace(r) > 0 {
        lemma_shoelace_rev(r);
    }
}

/// Compute the shoelace sum of a ring.
fn shoelace_exec(r: &Vec<FxPoint>) -> (s: i128)
    requires
        ring_in_bounds(r@),
    ensures
        s == shoelace(r@),
{
    let ghost gs = r@;
    let len = r.len();
    if len == 0 {
        return 0;
    }
    let bound: i128 = 0x20_0000_0000_0000;
    let mut acc: i128 = 0;
    let mut i: usize = 0;
    proof {
        assert(gs.skip(0) =~= gs);
    }
    while i + 1 < len
        invariant
            0 <= i < len == gs.len(),
            r@ == gs,
            ring_in_bounds(gs),
            bound == 0x20_0000_0000_0000,
            acc == chain_sum(gs) - chain_sum(gs.skip(i as int)),
            -(i * bound) <= acc <= i * bound,
        decreases len - i,
    {
        let a = r[i];
        let b = r[i + 1];
        let dx: i64 = b.x - a.x;
        let sy: i64 = b.y + a.y;
        proof {
            assert(-bound <= (dx as int) * (sy as int) <= bound) by (nonlinear_arith)
                requires
                    -0x4000000 <= dx as int <= 0x4000000,
                    -0x4000000 <= sy as int <= 0x4000000,
                    bound == 0x20_0000_0000_0000,
            ;
            assert(gs.skip(i as int).drop_first() =~= gs.skip(i + 1));
            assert(gs.skip(i as int)[0] == gs[i as int]);
            assert(gs.skip(i as int)[1] == gs[i + 1]);
            assert(chain_sum(gs.skip(i as int)) == edge_term(gs[i as int], gs[i + 1]) + chain_sum(
                gs.skip(i + 1),
            ));
        }
        let term = (dx as i128) * (sy as i128);
        acc = acc + term;
        i = i + 1;
    }
    proof {
        assert(gs.skip(i as int).len() < 2);
        assert(chain_sum(gs.skip(i as int)) == 0);
        assert(acc == chain_sum(gs));
    }
    let a = r[len - 1];
    let b = r[0];
    let dx: i64 = b.x - a.x;
    let sy: i64 = b.y + a.y;
    proof {
        assert(-(0x20_0000_0000_0000 as int) <= (dx as int) * (sy as int)
            <= 0x20_0000_0000_0000 as int) by (nonlinear_arith)
            requires
                -0x4000000 <= dx as int <= 0x4000000,
                -0x4000000 <= sy as int <= 0x4000000,
        ;
    }
    acc + (dx as i128) * (sy as i128)
}

/// Reverse the order of a ring's points.
fn reverse_ring(r: &Vec<FxPoint>) -> (out: Vec<FxPoint>)
    ensures
        out@ == rev_seq(r@),
{
    let len = r.len();
    let mut out: Vec<FxPoint> = Vec::new();
    let mut i: usize = 0;
    while i < len
        invariant
            0 <= i <= len == r@.len(),
            out@.len() == i,
            forall|t: int| 0 <= t < i ==> out@[t] == r@[r@.len() - 1 - t],
        decreases len - i,
    {
        out.push(r[len - 1 - i]);
        i = i + 1;
    }
    proof {
        assert(out@ =~= rev_seq(r@));
    }
    out
}

/// Normalize a ring's winding: reverse the point order when the shoelace
/// sum is strictly positive, leave it untouched otherwise.
pub fn normalize_winding(r: Vec<FxPoint>) -> (out: Vec<FxPoint>)
    requires
        ring_in_bounds(r@),
    ensures
        out@ == normalize_spec(r@),
        ring_in_bounds(out@),
        out@.len() == r@.len(),
{
    let s = shoelace_exec(&r);
    if s > 0 {
        let out = reverse_ring(&r);
        proof {
            assert(ring_in_bounds(out@));
        }
        out
    } else {
        r
    }
}

/// The least x coordinate of a nonempty ring.
pub open spec fn bb_min_x(r: Seq<FxPoint>) -> int
    decreases r.len(),
{
    if r.len() <= 1 {
        r[0].x as int
    } else {
        let m = bb_min_x(r.drop_last());
        if r.last().x < m {
            r.last().x as int
        } else {
            m
        }
    }
}

pub open spec fn bb_min_y(r: Seq<FxPoint>) -> int
    decreases r.len(),
{
    if r.len() <= 1 {
        r[0].y as int
    } else {
        let m = bb_min_y(r.drop_last());
        if r.last().y < m {
            r.last().y as int
        } else {
            m
        }
    }
}

pub open spec fn bb_max_x(r: Seq<FxPoint>) -> int
    decreases r.len(),
{
    if r.len() <= 1 {
        r[0].x as int
    } else {
        let m = bb_max_x(r.drop_last());
        if r.last().x > m {
            r.last().x as int
        } else {
            m
        }
    }
}

pub open spec fn bb_max_y(r: Seq<FxPoint>) -> int
    decreases r.len(),
{
    if r.len() <= 1 {
        r[0].y as int
    } else {
        let m = bb_max_y(r.drop_last());
        if r.last().y > m {
            r.last().y as int
        } else {
            m
        }
    }
}

/// A ring within the coordinate bounds has its bounding box within them.
pub proof fn lemma_bbox_bounds(r: Seq<FxPoint>)
    requires
        r.len() >= 1,
        ring_in_bounds(r),
    ensures
        -MAX_COORD <= bb_min_x(r) <= MAX_COORD,
        -MAX_COORD <= bb_min_y(r) <= MAX_COORD,
        -MAX_COORD <= bb_max_x(r) <= MAX_COORD,
        -MAX_COORD <= bb_max_y(r) <= MAX_COORD,
    decreases r.len(),
{
    assert(crate::pt_in_bounds(r[0]));
    if r.len() > 1 {
        assert(ring_in_bounds(r.drop_last())) by {
            assert(forall|i: int|
                0 <= i < r.len() - 1 ==> r.drop_last()[i] == #[trigger] r[i]);
        }
        lemma_bbox_bounds(r.drop_last());
        assert(crate::pt_in_bounds(r[r.len() - 1]));
    }
}

/// The bounding box of a nonempty ring: `(min_x, min_y, max_x, max_y)`.
pub fn bbox(r: &Vec<FxPoint>) -> (bb: (i64, i64, i64, i64))
    requires
        r@.len() >= 1,
    ensures
        bb.0 == bb_min_x(r@),
        bb.1 == bb_min_y(r@),
        bb.2 == bb_max_x(r@),
        bb.3 == bb_max_y(r@),
{
    let first = r[0];
    let mut min_x = first.x;
    let mut min_y = first.y;
    let mut max_x = first.x;
    let mut max_y = first.y;
    let mut i: usize = 1;
    proof {
        assert(r@.take(1).len() == 1);
        assert(r@.take(1)[0] == r@[0]);
    }
    while i < r.len()
        invariant
            1 <= i <= r@.len(),
            min_x == bb_min_x(r@.take(i as int)),
            min_y == bb_min_y(r@.take(i as int)),
            max_x == bb_max_x(r@.take(i as int)),
            max_y == bb_max_y(r@.take(i as int)),
        decreases r@.len() - i,
    {
        let p = r[i];
        proof {
            let nx = r@.take(i + 1);
            assert(nx.drop_last() =~= r@.take(i as int));
            assert(nx.last() == r@[i as int]);
        }
        if p.x < min_x {
            min_x = p.x;
        }
        if p.y < min_y {
            min_y = p.y;
        }
        if p.x > max_x {
            max_x = p.x;
        }
        if p.y > max_y {
            max_y = p.y;
        }
        i = i + 1;
    }
    proof {
        assert(r@.take(r@.len() as int) =~= r@);
    }
    (min_x, min_y, max_x, max_y)
}

} // verus!
