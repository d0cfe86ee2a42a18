//! Command-stream parser.
//!
//! Consumes a textual path description (`M/m`, `L/l`, `C/c`, `Q/q`, `Z/z`
//! commands with absolute and relative forms, numbers separated by runs of
//! whitespace and commas) and emits the ordered sequence of drawing
//! directives, with every coordinate already converted to fixed-point units.
//!
//! A command letter stays active, so further number groups repeat it.  A
//! line or curve command with no open sub-path, a `Z` with no open sub-path,
//! and any unexpected character are grammar violations.  A sub-path still
//! open at the end of the text is force-closed, since the offsetting stage
//! works on closed rings only.

use crate::scan::{digits_end, is_digit, lemma_digits_end_props, lemma_scan_spec_advances,
    scan_number, scan_spec};
use crate::{pt_in_bounds, FxPoint, MAX_COORD};
use vstd::prelude::*;

verus! {

/// One drawing directive of a parsed path.
#[derive(Clone, Copy, Debug, PartialEq, Eq, Structural)]
pub enum Directive {
    Begin(FxPoint),
    LineTo(FxPoint),
    CubicTo(FxPoint, FxPoint, FxPoint),
    QuadTo(FxPoint, FxPoint),
    Close,
}

pub open spec fn is_ws(c: char) -> bool {
    c == ' ' || c == '\t' || c == '\n' || c == '\r' || c == '\u{c}'
}

pub open spec fn is_sep(c: char) -> bool {
    is_ws(c) || c == ','
}

pub open spec fn is_cmd(c: char) -> bool {
    c == 'M' || c == 'm' || c == 'L' || c == 'l' || c == 'C' || c == 'c' || c == 'Q' || c == 'q'
        || c == 'Z' || c == 'z'
}

pub open spec fn all_ws(s: Seq<char>) -> bool {
    forall|i: int| 0 <= i < s.len() ==> is_ws(#[trigger] s[i])
}

/// The end of the run of separator characters that starts at `i`.
pub open spec fn sep_end(s: Seq<char>, i: int) -> int
    decreases s.len() - i,
{
    if 0 <= i < s.len() && is_sep(s[i]) {
        sep_end(s, i + 1)
    } else {
        i
    }
}

pub proof fn lemma_sep_end_props(s: Seq<char>, i: int)
    requires
        0 <= i <= s.len(),
    ensures
        i <= sep_end(s, i) <= s.len(),
        forall|t: int| i <= t < sep_end(s, i) ==> is_sep(#[trigger] s[t]),
    decreases s.len() - i,
{
    if i < s.len() && is_sep(s[i]) {
        lemma_sep_end_props(s, i + 1);
    }
}

pub open spec fn clamp_coord(v: int) -> int {
    if v > MAX_COORD {
        MAX_COORD as int
    } else if v < -MAX_COORD {
        -MAX_COORD
    } else {
        v
    }
}

/// The point a coordinate pair denotes: taken as given in the absolute form,
/// added to the current point (and clamped) in the relative form.
pub open spec fn target_pt(abs: bool, cur: FxPoint, vx: int, vy: int) -> FxPoint {
    if abs {
        FxPoint { x: vx as i64, y: vy as i64 }
    } else {
        FxPoint { x: clamp_coord(cur.x + vx) as i64, y: clamp_coord(cur.y + vy) as i64 }
    }
}

/// Scan a coordinate pair at `i`: two numbers with separator runs after
/// each.  Yields the two values and the position after the trailing
/// separators.
pub open spec fn scan_pair(s: Seq<char>, i: int, k: nat) -> Option<(int, int, int)> {
    match scan_spec(s, i, k) {
        None => None,
        Some((vx, e1)) => {
            let i2 = sep_end(s, e1);
            match scan_spec(s, i2, k) {
                None => None,
                Some((vy, e2)) => Some((vx, vy, sep_end(s, e2))),
            }
        },
    }
}

pub proof fn lemma_scan_pair_advances(s: Seq<char>, i: int, k: nat)
    requires
        0 <= i <= s.len(),
        scan_pair(s, i, k) is Some,
    ensures
        i < scan_pair(s, i, k).unwrap().2 <= s.len(),
        -MAX_COORD <= scan_pair(s, i, k).unwrap().0 <= MAX_COORD,
        -MAX_COORD <= scan_pair(s, i, k).unwrap().1 <= MAX_COORD,
{
    lemma_scan_spec_advances(s, i, k);
    let e1 = scan_spec(s, i, k).unwrap().1;
    lemma_sep_end_props(s, e1);
    let i2 = sep_end(s, e1);
    lemma_scan_spec_advances(s, i2, k);
    let e2 = scan_spec(s, i2, k).unwrap().1;
    lemma_sep_end_props(s, e2);
}

/// A character that can appear inside a numeric token.
pub open spec fn num_char(c: char) -> bool {
    is_digit(c) || c == '-' || c == '+' || c == '.' || c == 'e' || c == 'E'
}

/// A character the grammar can consume somewhere: a separator, a command
/// letter, or part of a numeric token.
pub open spec fn consumable_char(c: char) -> bool {
    is_sep(c) || is_cmd(c) || num_char(c)
}

proof fn lemma_scan_chars(s: Seq<char>, i: int, k: nat)
    requires
        0 <= i <= s.len(),
        scan_spec(s, i, k) is Some,
    ensures
        forall|t: int| i <= t < scan_spec(s, i, k).unwrap().1 ==> num_char(#[trigger] s[t]),
{
    let neg = i < s.len() && s[i] == '-';
    let i1 = if neg {
        i + 1
    } else {
        i
    };
    lemma_digits_end_props(s, i1);
    let int_end = digits_end(s, i1);
    let dotted = int_end < s.len() && s[int_end] == '.';
    let fs = if dotted {
        int_end + 1
    } else {
        int_end
    };
    lemma_digits_end_props(s, fs);
    let fe = digits_end(s, fs);
    let has_exp = fe < s.len() && (s[fe] == 'e' || s[fe] == 'E');
    if has_exp {
        let ss = fe + 1;
        let esigned = ss < s.len() && (s[ss] == '-' || s[ss] == '+');
        let ds = if esigned {
            ss + 1
        } else {
            ss
        };
        lemma_digits_end_props(s, ds);
        let ee = digits_end(s, ds);
        assert forall|t: int| i <= t < ee implies num_char(#[trigger] s[t]) by {
            if neg && t == i {
            } else if t < int_end {
                assert(is_digit(s[t]));
            } else if dotted && t == int_end {
            } else if t < fe {
                assert(is_digit(s[t]));
            } else if t == fe {
            } else if esigned && t == ss {
            } else {
                assert(is_digit(s[t]));
            }
        }
    } else {
        assert forall|t: int| i <= t < fe implies num_char(#[trigger] s[t]) by {
            if neg && t == i {
            } else if t < int_end {
                assert(is_digit(s[t]));
            } else if dotted && t == int_end {
            } else {
                assert(is_digit(s[t]));
            }
        }
    }
}

proof fn lemma_scan_pair_chars(s: Seq<char>, i: int, k: nat)
    requires
        0 <= i <= s.len(),
        scan_pair(s, i, k) is Some,
    ensures
        forall|t: int| i <= t < scan_pair(s, i, k).unwrap().2 ==> consumable_char(#[trigger] s[t]),
{
    lemma_scan_spec_advances(s, i, k);
    lemma_scan_chars(s, i, k);
    let e1 = scan_spec(s, i, k).unwrap().1;
    lemma_sep_end_props(s, e1);
    let i2 = sep_end(s, e1);
    lemma_scan_spec_advances(s, i2, k);
    lemma_scan_chars(s, i2, k);
    let e2 = scan_spec(s, i2, k).unwrap().1;
    lemma_sep_end_props(s, e2);
}

/// The directives the rest of the text (from `i` on) denotes, given the
/// active command letter, the current point and whether a sub-path is open.
/// `Err` is a grammar violation.
pub open spec fn parse_from(
    s: Seq<char>,
    i: int,
    cmd: Option<char>,
    cur: FxPoint,
    started: bool,
    k: nat,
) -> Result<Seq<Directive>, ()>
    decreases s.len() - i, 0nat via parse_from_decreases
{
    if i < 0 || i >= s.len() {
        Ok(
            if started {
                seq![Directive::Close]
            } else {
                Seq::empty()
            },
        )
    } else {
        let c = s[i];
        if is_sep(c) {
            parse_from(s, i + 1, cmd, cur, started, k)
        } else if c == 'Z' || c == 'z' {
            if !started {
                Err(())
            } else {
                match parse_from(s, i + 1, None, cur, false, k) {
                    Ok(rest) => Ok(seq![Directive::Close] + rest),
                    Err(e) => Err(e),
                }
            }
        } else if is_cmd(c) {
            parse_from(s, i + 1, Some(c), cur, started, k)
        } else {
            match cmd {
                None => Err(()),
                Some(m) => {
                    if m == 'M' || m == 'm' {
                        match scan_pair(s, i, k) {
                            None => Err(()),
                            Some((vx, vy, j)) => {
                                let pt = target_pt(m == 'M', cur, vx, vy);
                                match parse_from(s, j, cmd, pt, true, k) {
                                    Ok(rest) => Ok(seq![Directive::Begin(pt)] + rest),
                                    Err(e) => Err(e),
                                }
                            },
                        }
                    } else if m == 'L' || m == 'l' {
                        if !started {
                            Err(())
                        } else {
                            match scan_pair(s, i, k) {
                                None => Err(()),
                                Some((vx, vy, j)) => {
                                    let pt = target_pt(m == 'L', cur, vx, vy);
                                    match parse_from(s, j, cmd, pt, true, k) {
                                        Ok(rest) => Ok(seq![Directive::LineTo(pt)] + rest),
                                        Err(e) => Err(e),
                                    }
                                },
                            }
                        }
                    } else if m == 'C' || m == 'c' {
                        if !started {
                            Err(())
                        } else {
                            match scan_pair(s, i, k) {
                                None => Err(()),
                                Some((v1x, v1y, j1)) => match scan_pair(s, j1, k) {
                                    None => Err(()),
                                    Some((v2x, v2y, j2)) => match scan_pair(s, j2, k) {
                                        None => Err(()),
                                        Some((v3x, v3y, j3)) => {
                                            let abs = m == 'C';
                                            let c1 = target_pt(abs, cur, v1x, v1y);
                                            let c2 = target_pt(abs, cur, v2x, v2y);
                                            let pt = target_pt(abs, cur, v3x, v3y);
                                            match parse_from(s, j3, cmd, pt, true, k) {
                                                Ok(rest) => Ok(
                                                    seq![Directive::CubicTo(c1, c2, pt)] + rest,
                                                ),
                                                Err(e) => Err(e),
                                            }
                                        },
                                    },
                                },
                            }
                        }
                    } else if m == 'Q' || m == 'q' {
                        if !started {
                            Err(())
                        } else {
                            match scan_pair(s, i, k) {
                                None => Err(()),
                                Some((v1x, v1y, j1)) => match scan_pair(s, j1, k) {
                                    None => Err(()),
                                    Some((v2x, v2y, j2)) => {
                                        let abs = m == 'Q';
                                        let c1 = target_pt(abs, cur, v1x, v1y);
                                        let pt = target_pt(abs, cur, v2x, v2y);
                                        match parse_from(s, j2, cmd, pt, true, k) {
                                            Ok(rest) => Ok(seq![Directive::QuadTo(c1, pt)] + rest),
                                            Err(e) => Err(e),
                                        }
                                    },
                                },
                            }
                        }
                    } else {
                        Err(())
                    }
                },
            }
        }
    }
}

#[via_fn]
proof fn parse_from_decreases(
    s: Seq<char>,
    i: int,
    cmd: Option<char>,
    cur: FxPoint,
    started: bool,
    k: nat,
) {
    if 0 <= i < s.len() {
        let c = s[i];
        if !is_sep(c) && !(c == 'Z' || c == 'z') && !is_cmd(c) {
            if cmd is Some {
                if scan_pair(s, i, k) is Some {
                    lemma_scan_pair_advances(s, i, k);
                    let j1 = scan_pair(s, i, k).unwrap().2;
                    if scan_pair(s, j1, k) is Some {
                        lemma_scan_pair_advances(s, j1, k);
                        let j2 = scan_pair(s, j1, k).unwrap().2;
                        if scan_pair(s, j2, k) is Some {
                            lemma_scan_pair_advances(s, j2, k);
                        }
                    }
                }
            }
        }
    }
}

/// The whole directive stream of a path text.
pub open spec fn parse_spec(s: Seq<char>, k: nat) -> Result<Seq<Directive>, ()> {
    parse_from(s, 0, None, FxPoint { x: 0, y: 0 }, false, k)
}

proof fn lemma_parse_consumable(
    s: Seq<char>,
    i: int,
    cmd: Option<char>,
    cur: FxPoint,
    started: bool,
    k: nat,
)
    requires
        0 <= i <= s.len(),
        parse_from(s, i, cmd, cur, started, k) is Ok,
    ensures
        forall|t: int| i <= t < s.len() ==> consumable_char(#[trigger] s[t]),
    decreases s.len() - i,
{
    if i < s.len() {
        let c = s[i];
        if is_sep(c) {
            lemma_parse_consumable(s, i + 1, cmd, cur, started, k);
        } else if c == 'Z' || c == 'z' {
            lemma_parse_consumable(s, i + 1, None, cur, false, k);
        } else if is_cmd(c) {
            lemma_parse_consumable(s, i + 1, Some(c), cur, started, k);
        } else {
            let m = cmd.unwrap();
            if m == 'M' || m == 'm' || m == 'L' || m == 'l' {
                let abs = m == 'M' || m == 'L';
                lemma_scan_pair_advances(s, i, k);
                lemma_scan_pair_chars(s, i, k);
                let p = scan_pair(s, i, k).unwrap();
                let pt = target_pt(abs, cur, p.0, p.1);
                lemma_parse_consumable(s, p.2, cmd, pt, true, k);
            } else if m == 'C' || m == 'c' {
                lemma_scan_pair_advances(s, i, k);
                lemma_scan_pair_chars(s, i, k);
                let p1 = scan_pair(s, i, k).unwrap();
                lemma_scan_pair_advances(s, p1.2, k);
                lemma_scan_pair_chars(s, p1.2, k);
                let p2 = scan_pair(s, p1.2, k).unwrap();
                lemma_scan_pair_advances(s, p2.2, k);
                lemma_scan_pair_chars(s, p2.2, k);
                let p3 = scan_pair(s, p2.2, k).unwrap();
                let pt = target_pt(m == 'C', cur, p3.0, p3.1);
                lemma_parse_consumable(s, p3.2, cmd, pt, true, k);
            } else {
                lemma_scan_pair_advances(s, i, k);
                lemma_scan_pair_chars(s, i, k);
                let p1 = scan_pair(s, i, k).unwrap();
                lemma_scan_pair_advances(s, p1.2, k);
                lemma_scan_pair_chars(s, p1.2, k);
                let p2 = scan_pair(s, p1.2, k).unwrap();
                let pt = target_pt(m == 'Q', cur, p2.0, p2.1);
                lemma_parse_consumable(s, p2.2, cmd, pt, true, k);
            }
        }
    }
}

/// A text containing a character the grammar can never consume — an
/// unrecognized command letter among them — never parses successfully.
pub proof fn lemma_unconsumable_char_rejects(s: Seq<char>, k: nat, j: int)
    requires
        0 <= j < s.len(),
        !consumable_char(s[j]),
    ensures
        parse_spec(s, k) is Err,
{
    if parse_spec(s, k) is Ok {
        lemma_parse_consumable(s, 0, None, FxPoint { x: 0, y: 0 }, false, k);
    }
}

pub open spec fn dir_in_bounds(d: Directive) -> bool {
    match d {
        Directive::Begin(p) => pt_in_bounds(p),
        Directive::LineTo(p) => pt_in_bounds(p),
        Directive::CubicTo(a, b, c) => pt_in_bounds(a) && pt_in_bounds(b) && pt_in_bounds(c),
        Directive::QuadTo(a, b) => pt_in_bounds(a) && pt_in_bounds(b),
        Directive::Close => true,
    }
}

pub open spec fn dirs_in_bounds(ds: Seq<Directive>) -> bool {
    forall|i: int| 0 <= i < ds.len() ==> dir_in_bounds(#[trigger] ds[i])
}

/// Skip a run of whitespace and comma separators.
pub fn skip_sep(s: &Vec<char>, pos: usize) -> (r: usize)
    requires
        pos <= s@.len(),
    ensures
        r == sep_end(s@, pos as int),
        pos <= r <= s@.len(),
    decreases s@.len() - pos,
{
    if pos < s.len() {
        let c = s[pos];
        if c == ' ' || c == '\t' || c == '\n' || c == '\r' || c == '\u{c}' || c == ',' {
            assert(is_sep(s@[pos as int]));
            return skip_sep(s, pos + 1);
        }
        assert(!is_sep(s@[pos as int]));
    }
    pos
}

/// Add a relative coordinate to the current one, clamping to the coordinate
/// bounds.
fn clamp_add(a: i64, b: i64) -> (r: i64)
    requires
        -MAX_COORD <= a <= MAX_COORD,
        -MAX_COORD <= b <= MAX_COORD,
    ensures
        r == clamp_coord(a + b),
{
    let t = a + b;
    if t > MAX_COORD {
        MAX_COORD
    } else if t < -MAX_COORD {
        -MAX_COORD
    } else {
        t
    }
}

/// Read one coordinate pair (with trailing separators) at `pos`.
fn read_pair(s: &Vec<char>, pos: usize, k: u32) -> (r: Option<(i64, i64, usize)>)
    requires
        pos <= s@.len(),
        k <= 9,
    ensures
        match r {
            Some(p) => scan_pair(s@, pos as int, k as nat) == Some(
                (p.0 as int, p.1 as int, p.2 as int),
            ) && pos < p.2 <= s@.len() && -MAX_COORD <= p.0 <= MAX_COORD && -MAX_COORD <= p.1
                <= MAX_COORD,
            None => scan_pair(s@, pos as int, k as nat) is None,
        },
{
    match scan_number(s, pos, k) {
        None => None,
        Some((vx, e1)) => {
            let i2 = skip_sep(s, e1);
            match scan_number(s, i2, k) {
                None => None,
                Some((vy, e2)) => {
                    let j = skip_sep(s, e2);
                    Some((vx, vy, j))
                },
            }
        },
    }
}

/// One parsing step: handle the character at `idx` (a separator, a command
/// letter, a close, or a number group for the active command).  Returns the
/// directive emitted by the step, if any, and the new parser state.
#[verifier::rlimit(100)]
fn parse_step(
    s: &Vec<char>,
    idx: usize,
    cmd: Option<char>,
    cur: FxPoint,
    started: bool,
    k: u32,
) -> (r: Result<(Option<Directive>, usize, Option<char>, FxPoint, bool), ()>)
    requires
        idx < s@.len(),
        k <= 9,
        pt_in_bounds(cur),
        match cmd {
            Some(m) => is_cmd(m) && m != 'Z' && m != 'z',
            None => true,
        },
    ensures
        match r {
            Ok(st) => {
                &&& idx < st.1 <= s@.len()
                &&& pt_in_bounds(st.3)
                &&& (match st.2 {
                    Some(m) => is_cmd(m) && m != 'Z' && m != 'z',
                    None => true,
                })
                &&& (match st.0 {
                    Some(d) => dir_in_bounds(d),
                    None => true,
                })
                &&& parse_from(s@, idx as int, cmd, cur, started, k as nat) == (match parse_from(
                    s@,
                    st.1 as int,
                    st.2,
                    st.3,
                    st.4,
                    k as nat,
                ) {
                    Ok(rest) => Ok::<Seq<Directive>, ()>(
                        (match st.0 {
                            Some(d) => seq![d],
                            None => Seq::empty(),
                        }) + rest,
                    ),
                    Err(e) => Err(e),
                })
            },
            Err(()) => parse_from(s@, idx as int, cmd, cur, started, k as nat) is Err,
        },
{
    let ghost gs = s@;
    let ghost k_ = k as nat;
    let slen = s.len();
    assert(idx < slen);
    let c = s[idx];
    if c == ' ' || c == '\t' || c == '\n' || c == '\r' || c == '\u{c}' || c == ',' {
        assert(is_sep(gs[idx as int]));
        proof {
            if parse_from(gs, idx + 1, cmd, cur, started, k_) is Ok {
                let rest = parse_from(gs, idx + 1, cmd, cur, started, k_).unwrap();
                assert(Seq::<Directive>::empty() + rest =~= rest);
            }
        }
        return Ok((None, idx + 1, cmd, cur, started));
    }
    if c == 'Z' || c == 'z' {
        if !started {
            return Err(());
        }
        return Ok((Some(Directive::Close), idx + 1, None, cur, false));
    }
    if c == 'M' || c == 'm' || c == 'L' || c == 'l' || c == 'C' || c == 'c' || c == 'Q' || c == 'q'
    {
        assert(is_cmd(c) && !is_sep(c));
        proof {
            if parse_from(gs, idx + 1, Some(c), cur, started, k_) is Ok {
                let rest = parse_from(gs, idx + 1, Some(c), cur, started, k_).unwrap();
                assert(Seq::<Directive>::empty() + rest =~= rest);
            }
        }
        return Ok((None, idx + 1, Some(c), cur, started));
    }
    assert(!is_sep(gs[idx as int]) && !is_cmd(gs[idx as int]));
    let m = match cmd {
        None => {
            return Err(());
        },
        Some(m) => m,
    };
    if m == 'M' || m == 'm' {
        match read_pair(s, idx, k) {
            None => Err(()),
            Some((vx, vy, j)) => {
                let pt = if m == 'M' {
                    FxPoint { x: vx, y: vy }
                } else {
                    FxPoint { x: clamp_add(cur.x, vx), y: clamp_add(cur.y, vy) }
                };
                assert(pt == target_pt(m == 'M', cur, vx as int, vy as int));
                Ok((Some(Directive::Begin(pt)), j, cmd, pt, true))
            },
        }
    } else if m == 'L' || m == 'l' {
        if !started {
            return Err(());
        }
        match read_pair(s, idx, k) {
            None => Err(()),
            Some((vx, vy, j)) => {
                let pt = if m == 'L' {
                    FxPoint { x: vx, y: vy }
                } else {
                    FxPoint { x: clamp_add(cur.x, vx), y: clamp_add(cur.y, vy) }
                };
                assert(pt == target_pt(m == 'L', cur, vx as int, vy as int));
                Ok((Some(Directive::LineTo(pt)), j, cmd, pt, true))
            },
        }
    } else if m == 'C' || m == 'c' {
        if !started {
            return Err(());
        }
        let abs = m == 'C';
        let p1 = match read_pair(s, idx, k) {
            None => {
                return Err(());
            },
            Some(p) => p,
        };
        let p2 = match read_pair(s, p1.2, k) {
            None => {
                return Err(());
            },
            Some(p) => p,
        };
        let p3 = match read_pair(s, p2.2, k) {
            None => {
                return Err(());
            },
            Some(p) => p,
        };
        let c1 = if abs {
            FxPoint { x: p1.0, y: p1.1 }
        } else {
            FxPoint { x: clamp_add(cur.x, p1.0), y: clamp_add(cur.y, p1.1) }
        };
        let c2 = if abs {
            FxPoint { x: p2.0, y: p2.1 }
        } else {
            FxPoint { x: clamp_add(cur.x, p2.0), y: clamp_add(cur.y, p2.1) }
        };
        let pt = if abs {
            FxPoint { x: p3.0, y: p3.1 }
        } else {
            FxPoint { x: clamp_add(cur.x, p3.0), y: clamp_add(cur.y, p3.1) }
        };
        assert(c1 == target_pt(abs, cur, p1.0 as int, p1.1 as int));
        assert(c2 == target_pt(abs, cur, p2.0 as int, p2.1 as int));
        assert(pt == target_pt(abs, cur, p3.0 as int, p3.1 as int));
        Ok((Some(Directive::CubicTo(c1, c2, pt)), p3.2, cmd, pt, true))
    } else {
        assert(m == 'Q' || m == 'q');
        if !started {
            return Err(());
        }
        let abs = m == 'Q';
        let p1 = match read_pair(s, idx, k) {
            None => {
                return Err(());
            },
            Some(p) => p,
        };
        let p2 = match read_pair(s, p1.2, k) {
            None => {
                return Err(());
            },
            Some(p) => p,
        };
        let c1 = if abs {
            FxPoint { x: p1.0, y: p1.1 }
        } else {
            FxPoint { x: clamp_add(cur.x, p1.0), y: clamp_add(cur.y, p1.1) }
        };
        let pt = if abs {
            FxPoint { x: p2.0, y: p2.1 }
        } else {
            FxPoint { x: clamp_add(cur.x, p2.0), y: clamp_add(cur.y, p2.1) }
        };
        assert(c1 == target_pt(abs, cur, p1.0 as int, p1.1 as int));
        assert(pt == target_pt(abs, cur, p2.0 as int, p2.1 as int));
        Ok((Some(Directive::QuadTo(c1, pt)), p2.2, cmd, pt, true))
    }
}

/// Parse a whole path text into its directive stream.  `Err` is a grammar
/// violation.
pub fn parse_directives(s: &Vec<char>, k: u32) -> (r: Result<Vec<Directive>, ()>)
    requires
        k <= 9,
    ensures
        match r {
            Ok(d) => parse_spec(s@, k as nat) == Ok::<Seq<Directive>, ()>(d@) && dirs_in_bounds(
                d@,
            ),
            Err(e) => parse_spec(s@, k as nat) is Err,
        },
{
    let ghost gs = s@;
    let ghost k_ = k as nat;
    let origin = FxPoint { x: 0, y: 0 };
    let mut idx: usize = 0;
    let mut cmd: Option<char> = None;
    let mut cur: FxPoint = origin;
    let mut started: bool = false;
    let mut dirs: Vec<Directive> = Vec::new();
    proof {
        if parse_from(gs, 0, None, origin, false, k_) is Ok {
            assert(dirs@ + parse_from(gs, 0, None, origin, false, k_).unwrap() =~= parse_from(
                gs,
                0,
                None,
                origin,
                false,
                k_,
            ).unwrap());
        }
    }
    while idx < s.len()
        invariant
            0 <= idx <= gs.len(),
            s@ == gs,
            k <= 9,
            k_ == k as nat,
            pt_in_bounds(cur),
            dirs_in_bounds(dirs@),
            match cmd {
                Some(m) => is_cmd(m) && m != 'Z' && m != 'z',
                None => true,
            },
            match parse_from(gs, idx as int, cmd, cur, started, k_) {
                Ok(rest) => parse_spec(gs, k_) == Ok::<Seq<Directive>, ()>(dirs@ + rest),
                Err(e) => parse_spec(gs, k_) is Err,
            },
        decreases gs.len() - idx,
    {
        let step = match parse_step(s, idx, cmd, cur, started, k) {
            Err(()) => {
                return Err(());
            },
            Ok(st) => st,
        };
        let ghost old_dirs = dirs@;
        let (emit, idx2, cmd2, cur2, started2) = step;
        match emit {
            Some(d) => {
                dirs.push(d);
            },
            None => {},
        }
        proof {
            let e = match emit {
                Some(d) => seq![d],
                None => Seq::<Directive>::empty(),
            };
            assert(dirs@ =~= old_dirs + e);
            if parse_from(gs, idx2 as int, cmd2, cur2, started2, k_) is Ok {
                let rest2 = parse_from(gs, idx2 as int, cmd2, cur2, started2, k_).unwrap();
                assert(old_dirs + (e + rest2) =~= (old_dirs + e) + rest2);
            }
        }
        idx = idx2;
        cmd = cmd2;
        cur = cur2;
        started = started2;
    }
    if started {
        dirs.push(Directive::Close);
        proof {
            assert(parse_from(gs, idx as int, cmd, cur, started, k_) == Ok::<Seq<Directive>, ()>(
                seq![Directive::Close],
            ));
            assert(dirs@ =~= dirs@.drop_last() + seq![Directive::Close]);
        }
    } else {
        proof {
            assert(parse_from(gs, idx as int, cmd, cur, started, k_) == Ok::<Seq<Directive>, ()>(
                Seq::empty(),
            ));
            assert(dirs@ =~= dirs@ + Seq::<Directive>::empty());
        }
    }
    Ok(dirs)
}

} // verus!
