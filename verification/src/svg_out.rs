//! Serializer.
//!
//! Renders fixed-point rings back into the textual path format: `M x y`,
//! then `L x y` for every further point, then an explicit `Z`.  Coordinates
//! are divided by the scale factor and written with exactly two decimal
//! places, rounding half away from zero on the exact decimal value; a
//! negative coordinate keeps its sign even when it rounds to zero.  A ring
//! set is serialized by joining the texts of its nonempty rings with single
//! spaces.

use crate::FxPoint;
use vstd::prelude::*;

verus! {

pub open spec fn digit_char(d: nat) -> char {
    ((d + 48) as u8) as char
}

/// The decimal digits of `n`, most significant first.
pub open spec fn dec_digits(n: nat) -> Seq<char>
    decreases n,
{
    if n < 10 {
        seq![digit_char(n)]
    } else {
        dec_digits(n / 10).push(digit_char(n % 10))
    }
}

/// The text of one coordinate: `v / scale` with two decimal places.
pub open spec fn fmt_fixed(v: int, scale: int) -> Seq<char> {
    let av = if v < 0 {
        -v
    } else {
        v
    };
    let h = ((av * 100 + scale / 2) / scale) as nat;
    let sign: Seq<char> = if v < 0 {
        seq!['-']
    } else {
        Seq::empty()
    };
    sign + dec_digits(h / 100) + seq!['.'] + seq![
        digit_char(((h % 100) / 10) as nat),
        digit_char((h % 10) as nat),
    ]
}

/// The `L` commands for the points of `r` from index `i` on.
pub open spec fn ring_rest(r: Seq<FxPoint>, i: int, scale: int) -> Seq<char>
    decreases r.len() - i,
{
    if i < 0 || i >= r.len() {
        Seq::empty()
    } else {
        seq![' ', 'L', ' '] + fmt_fixed(r[i].x as int, scale) + seq![' '] + fmt_fixed(
            r[i].y as int,
            scale,
        ) + ring_rest(r, i + 1, scale)
    }
}

/// The text of one ring; an empty ring serializes to empty text.
pub open spec fn ring_svg(r: Seq<FxPoint>, scale: int) -> Seq<char> {
    if r.len() == 0 {
        Seq::empty()
    } else {
        seq!['M', ' '] + fmt_fixed(r[0].x as int, scale) + seq![' '] + fmt_fixed(
            r[0].y as int,
            scale,
        ) + ring_rest(r, 1, scale) + seq![' ', 'Z']
    }
}

/// The text of a ring set: the nonempty rings' texts joined with spaces.
pub open spec fn rings_text_from(rs: Seq<Seq<FxPoint>>, i: int, scale: int, first: bool) -> Seq<
    char,
>
    decreases rs.len() - i,
{
    if i < 0 || i >= rs.len() {
        Seq::empty()
    } else if rs[i].len() == 0 {
        rings_text_from(rs, i + 1, scale, first)
    } else {
        (if first {
            Seq::empty()
        } else {
            seq![' ']
        }) + ring_svg(rs[i], scale) + rings_text_from(rs, i + 1, scale, false)
    }
}

pub open spec fn rings_svg(rs: Seq<Seq<FxPoint>>, scale: int) -> Seq<char> {
    rings_text_from(rs, 0, scale, true)
}

/// Append the decimal digits of `n`.
fn push_dec(out: &mut Vec<char>, n: u128)
    ensures
        final(out)@ == old(out)@ + dec_digits(n as nat),
    decreases n,
{
    if n < 10 {
        let c = ((n as u8) + 48) as char;
        assert(c == digit_char(n as nat));
        out.push(c);
        proof {
            assert(out@ =~= old(out)@ + dec_digits(n as nat));
        }
    } else {
        push_dec(out, n / 10);
        let d = (n % 10) as u8;
        let c = (d + 48) as char;
        assert(c == digit_char((n % 10) as nat));
        out.push(c);
        proof {
            assert(out@ =~= old(out)@ + dec_digits(n as nat));
        }
    }
}

/// Append the text of one coordinate.
fn push_fixed(out: &mut Vec<char>, v: i64, scale: i64)
    requires
        1 <= scale,
    ensures
        final(out)@ == old(out)@ + fmt_fixed(v as int, scale as int),
{
    let neg = v < 0;
    let av: u128 = if v < 0 {
        (-(v as i128)) as u128
    } else {
        v as u128
    };
    let su = scale as u128;
    let h = (av * 100 + su / 2) / su;
    let ip = h / 100;
    let f1 = ((h % 100) / 10) as u8;
    let f2 = (h % 10) as u8;
    proof {
        assert(h % 100 < 100 && h % 10 < 10) by (nonlinear_arith);
        assert((h % 100) / 10 < 10) by (nonlinear_arith)
            requires
                h % 100 < 100,
        ;
    }
    if neg {
        out.push('-');
    }
    push_dec(out, ip);
    out.push('.');
    let c1 = (f1 + 48) as char;
    let c2 = (f2 + 48) as char;
    out.push(c1);
    out.push(c2);
    proof {
        assert(c1 == digit_char(((h % 100) / 10) as nat));
        assert(c2 == digit_char((h % 10) as nat));
        assert(out@ =~= old(out)@ + fmt_fixed(v as int, scale as int));
    }
}

/// Serialize one ring.
pub fn ring_to_svg_chars(r: &Vec<FxPoint>, scale: i64) -> (out: Vec<char>)
    requires
        1 <= scale,
    ensures
        out@ == ring_svg(r@, scale as int),
{
    let ghost gs = r@;
    let mut out: Vec<char> = Vec::new();
    if r.len() == 0 {
        return out;
    }
    out.push('M');
    out.push(' ');
    let p0 = r[0];
    push_fixed(&mut out, p0.x, scale);
    out.push(' ');
    push_fixed(&mut out, p0.y, scale);
    let ghost head = seq!['M', ' '] + fmt_fixed(gs[0].x as int, scale as int) + seq![' ']
        + fmt_fixed(gs[0].y as int, scale as int);
    proof {
        assert(out@ =~= head);
    }
    let mut i: usize = 1;
    while i < r.len()
        invariant
            1 <= i <= gs.len(),
            r@ == gs,
            1 <= scale,
            head == seq!['M', ' '] + fmt_fixed(gs[0].x as int, scale as int) + seq![' ']
                + fmt_fixed(gs[0].y as int, scale as int),
            out@ + ring_rest(gs, i as int, scale as int) == head + ring_rest(
                gs,
                1,
                scale as int,
            ),
        decreases gs.len() - i,
    {
        let ghost before = out@;
        let p = r[i];
        out.push(' ');
        out.push('L');
        out.push(' ');
        push_fixed(&mut out, p.x, scale);
        out.push(' ');
        push_fixed(&mut out, p.y, scale);
        proof {
            let step = seq![' ', 'L', ' '] + fmt_fixed(gs[i as int].x as int, scale as int)
                + seq![' '] + fmt_fixed(gs[i as int].y as int, scale as int);
            assert(out@ =~= before + step);
            assert(ring_rest(gs, i as int, scale as int) == step + ring_rest(
                gs,
                i + 1,
                scale as int,
            ));
            assert((before + step) + ring_rest(gs, i + 1, scale as int) =~= before + (step
                + ring_rest(gs, i + 1, scale as int)));
        }
        i = i + 1;
    }
    out.push(' ');
    out.push('Z');
    proof {
        assert(ring_rest(gs, i as int, scale as int) =~= Seq::<char>::empty());
        assert(out@ =~= (head + ring_rest(gs, 1, scale as int)) + seq![' ', 'Z']);
        assert(ring_svg(gs, scale as int) =~= (head + ring_rest(gs, 1, scale as int)) + seq![
            ' ',
            'Z',
        ]);
    }
    out
}

/// Serialize a ring set: nonempty rings joined with single spaces.
pub fn rings_to_svg_chars(rs: &Vec<Vec<FxPoint>>, scale: i64) -> (out: Vec<char>)
    requires
        1 <= scale,
    ensures
        out@ == rings_svg(rs@.map_values(|v: Vec<FxPoint>| v@), scale as int),
{
    let ghost grs = rs@.map_values(|v: Vec<FxPoint>| v@);
    let mut out: Vec<char> = Vec::new();
    let mut first = true;
    let mut i: usize = 0;
    proof {
        assert(out@ =~= Seq::<char>::empty());
    }
    while i < rs.len()
        invariant
            0 <= i <= rs@.len(),
            grs == rs@.map_values(|v: Vec<FxPoint>| v@),
            grs.len() == rs@.len(),
            1 <= scale,
            rings_svg(grs, scale as int) == out@ + rings_text_from(
                grs,
                i as int,
                scale as int,
                first,
            ),
        decreases rs@.len() - i,
    {
        let ghost before = out@;
        let ghost bfirst = first;
        assert(grs[i as int] == rs@[i as int]@);
        if rs[i].len() > 0 {
            if !first {
                out.push(' ');
            }
            let mut piece = ring_to_svg_chars(&rs[i], scale);
            let mut j: usize = 0;
            let ghost gp = piece@;
            let ghost mid = out@;
            while j < piece.len()
                invariant
                    0 <= j <= gp.len(),
                    piece@ == gp,
                    out@ == mid + gp.take(j as int),
                decreases gp.len() - j,
            {
                let c = piece[j];
                out.push(c);
                proof {
                    assert(out@ =~= mid + gp.take(j + 1));
                }
                j = j + 1;
            }
            first = false;
            proof {
                assert(gp.take(gp.len() as int) =~= gp);
                let sp: Seq<char> = if bfirst {
                    Seq::empty()
                } else {
                    seq![' ']
                };
                assert(out@ =~= before + (sp + ring_svg(grs[i as int], scale as int)));
                assert(rings_text_from(grs, i as int, scale as int, bfirst) == (sp + ring_svg(
                    grs[i as int],
                    scale as int,
                )) + rings_text_from(grs, i + 1, scale as int, false));
                assert((before + (sp + ring_svg(grs[i as int], scale as int))) + rings_text_from(
                    grs,
                    i + 1,
                    scale as int,
                    false,
                ) =~= before + ((sp + ring_svg(grs[i as int], scale as int)) + rings_text_from(
                    grs,
                    i + 1,
                    scale as int,
                    false,
                )));
            }
        }
        i = i + 1;
    }
    proof {
        assert(rings_text_from(grs, i as int, scale as int, first) =~= Seq::<char>::empty());
        assert(out@ =~= out@ + Seq::<char>::empty());
    }
    out
}

} // verus!
