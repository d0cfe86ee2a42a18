//! Numeric scanner.
//!
//! Reads one signed decimal number (optional leading `-`, digits, optional
//! fraction, optional exponent) out of a character sequence and returns its
//! value in fixed-point units: the exact decimal value times the scale factor,
//! truncated toward zero and clamped to `MAX_COORD`.

use crate::MAX_COORD;
use vstd::arithmetic::div_mod::{lemma_basic_div, lemma_fundamental_div_mod_converse};
use vstd::prelude::*;

verus! {

/// Ten to the `n`.
pub open spec fn pow10(n: nat) -> nat
    decreases n,
{
    if n == 0 {
        1
    } else {
        10 * pow10((n - 1) as nat)
    }
}

pub open spec fn is_digit(c: char) -> bool {
    48 <= c as u32 && c as u32 <= 57
}

/// The numeric value of a digit character.
pub open spec fn digit_of(c: char) -> u8 {
    (c as u32 as int - 48) as u8
}

/// The end of the run of digit characters that starts at `i`.
pub open spec fn digits_end(s: Seq<char>, i: int) -> int
    decreases s.len() - i,
{
    if 0 <= i < s.len() && is_digit(s[i]) {
        digits_end(s, i + 1)
    } else {
        i
    }
}

/// The digits of `s[i..j]` as numeric values.
pub open spec fn digit_seq(s: Seq<char>, i: int, j: int) -> Seq<u8> {
    Seq::new(if j >= i { (j - i) as nat } else { 0 }, |t: int| digit_of(s[i + t]))
}

/// The value of a big-endian sequence of decimal digits.
pub open spec fn val8(ds: Seq<u8>) -> nat
    decreases ds.len(),
{
    if ds.len() == 0 {
        0
    } else {
        (val8(ds.drop_last()) * 10 + ds.last()) as nat
    }
}

/// A decimal digit sequence: every entry is at most 9.
pub open spec fn all_digits(ds: Seq<u8>) -> bool {
    forall|i: int| 0 <= i < ds.len() ==> #[trigger] ds[i] <= 9
}

/// Magnitude `d * 10^shift`, truncated toward zero (`d` is nonnegative, so
/// truncation is the floor of the exact rational value).
pub open spec fn fixed_mag(d: nat, shift: int) -> nat {
    if shift >= 0 {
        d * pow10(shift as nat)
    } else {
        d / pow10((-shift) as nat)
    }
}

/// Clamp a magnitude to `MAX_COORD` and apply the sign.
pub open spec fn signed_clamp(neg: bool, m: nat) -> int {
    let c = if m > MAX_COORD as nat {
        MAX_COORD as nat
    } else {
        m
    };
    if neg {
        -(c as int)
    } else {
        c as int
    }
}

/// What scanning a number at position `i` yields: `None` when the text at `i`
/// is not a numeric token (no digit, or an exponent marker with no digits),
/// otherwise the fixed-point value (scale `10^k`) and the position just past
/// the token.
pub open spec fn scan_spec(s: Seq<char>, i: int, k: nat) -> Option<(int, int)> {
    let neg = i < s.len() && s[i] == '-';
    let i1 = if neg {
        i + 1
    } else {
        i
    };
    let int_end = digits_end(s, i1);
    let dotted = int_end < s.len() && s[int_end] == '.';
    let fs = if dotted {
        int_end + 1
    } else {
        int_end
    };
    let fe = digits_end(s, fs);
    let has_digit = int_end > i1 || fe > fs;
    if !has_digit {
        None
    } else {
        let d = val8(digit_seq(s, i1, int_end) + digit_seq(s, fs, fe));
        let fraclen = fe - fs;
        let has_exp = fe < s.len() && (s[fe] == 'e' || s[fe] == 'E');
        if has_exp {
            let ss = fe + 1;
            let esigned = ss < s.len() && (s[ss] == '-' || s[ss] == '+');
            let eneg = ss < s.len() && s[ss] == '-';
            let ds = if esigned {
                ss + 1
            } else {
                ss
            };
            let ee = digits_end(s, ds);
            if ee == ds {
                None
            } else {
                let ev = val8(digit_seq(s, ds, ee)) as int;
                let shift = (if eneg {
                    -ev
                } else {
                    ev
                }) - fraclen + k;
                Some((signed_clamp(neg, fixed_mag(d, shift)), ee))
            }
        } else {
            Some((signed_clamp(neg, fixed_mag(d, k - fraclen)), fe))
        }
    }
}

pub proof fn lemma_pow10_pos(n: nat)
    ensures
        pow10(n) >= 1,
    decreases n,
{
    if n > 0 {
        lemma_pow10_pos((n - 1) as nat);
    }
}

pub proof fn lemma_pow10_mono(a: nat, b: nat)
    requires
        a <= b,
    ensures
        pow10(a) <= pow10(b),
    decreases b,
{
    if a < b {
        lemma_pow10_mono(a, (b - 1) as nat);
        lemma_pow10_pos((b - 1) as nat);
    }
}

pub proof fn lemma_pow10_adds(a: nat, b: nat)
    ensures
        pow10(a + b) == pow10(a) * pow10(b),
    decreases a,
{
    if a == 0 {
        assert(pow10(a) == 1);
        assert(a + b == b);
        assert(pow10(a + b) == pow10(b));
        assert(pow10(a) * pow10(b) == pow10(b));
    } else {
        lemma_pow10_adds((a - 1) as nat, b);
        let x = pow10((a - 1) as nat) as int;
        let y = pow10(b) as int;
        assert((a - 1) as nat + b == (a + b - 1) as nat);
        assert(pow10((a + b - 1) as nat) == x * y);
        assert(pow10(a + b) == 10 * pow10((a + b - 1) as nat));
        assert(pow10(a) == 10 * x);
        assert(pow10(a + b) == pow10(a) * pow10(b)) by (nonlinear_arith)
            requires
                pow10(a + b) == 10 * (x * y),
                pow10(a) == 10 * x,
                pow10(b) == y,
        ;
    }
}

/// The value of a digit sequence is below `10^len`.
pub proof fn lemma_val8_bound(ds: Seq<u8>)
    requires
        all_digits(ds),
    ensures
        val8(ds) < pow10(ds.len()),
    decreases ds.len(),
{
    if ds.len() > 0 {
        assert(all_digits(ds.drop_last()));
        lemma_val8_bound(ds.drop_last());
        assert(ds.last() <= 9);
    }
}

/// Splitting a digit sequence at `l` splits its value: the prefix carries
/// `10^(len - l)` weight and the suffix is the remainder.
pub proof fn lemma_val8_split(ds: Seq<u8>, l: int)
    requires
        all_digits(ds),
        0 <= l <= ds.len(),
    ensures
        val8(ds) == val8(ds.take(l)) * pow10((ds.len() - l) as nat) + val8(ds.skip(l)),
        val8(ds.skip(l)) < pow10((ds.len() - l) as nat),
    decreases ds.len() - l,
{
    if l == ds.len() {
        assert(ds.take(l) =~= ds);
        assert(ds.skip(l) =~= Seq::<u8>::empty());
        assert(val8(ds.skip(l)) == 0);
        assert((ds.len() - l) as nat == 0nat);
        assert(pow10(0) == 1);
        assert(val8(ds) == val8(ds.take(l)) * 1 + 0);
    } else {
        let n = ds.len() as int;
        let dl = ds.drop_last();
        assert(all_digits(dl));
        lemma_val8_split(dl, l);
        let p = pow10((n - 1 - l) as nat) as int;
        assert(dl.take(l) =~= ds.take(l));
        let a = val8(ds.take(l)) as int;
        let b = val8(dl.skip(l)) as int;
        let d = ds.last() as int;
        assert(val8(dl) == a * p + b);
        assert(ds.skip(l).drop_last() =~= dl.skip(l));
        assert(ds.skip(l).last() == ds.last());
        assert(ds.skip(l).len() > 0);
        assert(val8(ds.skip(l)) == b * 10 + d);
        assert(val8(ds) == val8(dl) * 10 + d);
        assert((a * p + b) * 10 == a * (p * 10) + b * 10) by (nonlinear_arith);
        assert(pow10((n - l) as nat) == 10 * pow10((n - l - 1) as nat));
        assert(val8(ds) == a * (p * 10) + (b * 10 + d));
        assert(val8(ds) == val8(ds.take(l)) * pow10((ds.len() - l) as nat) + val8(ds.skip(l)))
            by (nonlinear_arith)
            requires
                val8(ds) == a * (p * 10) + (b * 10 + d),
                pow10((ds.len() - l) as nat) == 10 * p,
                val8(ds.take(l)) == a,
                val8(ds.skip(l)) == b * 10 + d,
        ;
        assert(b < p);
        assert(b * 10 + d < p * 10);
        assert(val8(ds.skip(l)) < pow10((ds.len() - l) as nat));
    }
}

/// Every character of the digit run is a digit, and the run ends at a
/// non-digit or at the end of the text.
pub proof fn lemma_digits_end_props(s: Seq<char>, i: int)
    requires
        0 <= i <= s.len(),
    ensures
        i <= digits_end(s, i) <= s.len(),
        forall|t: int| i <= t < digits_end(s, i) ==> is_digit(#[trigger] s[t]),
        digits_end(s, i) < s.len() ==> !is_digit(s[digits_end(s, i)]),
    decreases s.len() - i,
{
    if i < s.len() && is_digit(s[i]) {
        lemma_digits_end_props(s, i + 1);
    }
}

/// Find the end of the digit run starting at `pos`.
fn digits_end_exec(s: &Vec<char>, pos: usize) -> (r: usize)
    requires
        pos <= s@.len(),
    ensures
        r == digits_end(s@, pos as int),
        pos <= r <= s@.len(),
    decreases s@.len() - pos,
{
    if pos < s.len() {
        let c = s[pos];
        if 48 <= c as u32 && c as u32 <= 57 {
            assert(is_digit(s@[pos as int]));
            return digits_end_exec(s, pos + 1);
        }
    }
    proof {
        lemma_digits_end_props(s@, pos as int);
    }
    pos
}

/// Append the digit values of `s[from..to]` to `dv`.
fn digits_push(s: &Vec<char>, from: usize, to: usize, dv: &mut Vec<u8>)
    requires
        from <= to <= s@.len(),
        forall|t: int| from <= t < to ==> is_digit(#[trigger] s@[t]),
    ensures
        final(dv)@ == old(dv)@ + digit_seq(s@, from as int, to as int),
{
    let mut j: usize = from;
    proof {
        assert(dv@ =~= dv@ + digit_seq(s@, from as int, from as int));
    }
    while j < to
        invariant
            from <= j <= to <= s@.len(),
            forall|t: int| from <= t < to ==> is_digit(#[trigger] s@[t]),
            dv@ == old(dv)@ + digit_seq(s@, from as int, j as int),
        decreases to - j,
    {
        let c = s[j];
        let d: u8 = ((c as u32) - 48) as u8;
        assert(d == digit_of(c));
        dv.push(d);
        j = j + 1;
        proof {
            assert(dv@ =~= old(dv)@ + digit_seq(s@, from as int, j as int));
        }
    }
}

/// Accumulate the value of the digit run `s[from..to]`, saturating at `cap`.
fn digits_acc_chars(s: &Vec<char>, from: usize, to: usize, cap: u128) -> (r: u128)
    requires
        from <= to <= s@.len(),
        forall|t: int| from <= t < to ==> is_digit(#[trigger] s@[t]),
        cap <= 0xffff_ffff_ffff_ffff_ffff_ffff_ffff,
    ensures
        r == if val8(digit_seq(s@, from as int, to as int)) > cap {
            cap as nat
        } else {
            val8(digit_seq(s@, from as int, to as int))
        },
{
    let ghost gs = s@;
    let mut acc: u128 = 0;
    let mut j: usize = from;
    proof {
        assert(digit_seq(gs, from as int, from as int) =~= Seq::<u8>::empty());
    }
    while j < to
        invariant
            from <= j <= to <= gs.len(),
            s@ == gs,
            forall|t: int| from <= t < to ==> is_digit(#[trigger] gs[t]),
            cap <= 0xffff_ffff_ffff_ffff_ffff_ffff_ffff,
            acc == if val8(digit_seq(gs, from as int, j as int)) > cap {
                cap as nat
            } else {
                val8(digit_seq(gs, from as int, j as int))
            },
        decreases to - j,
    {
        let c = s[j];
        let d: u8 = ((c as u32) - 48) as u8;
        proof {
            assert(d == digit_of(c));
            let prev = digit_seq(gs, from as int, j as int);
            let next = digit_seq(gs, from as int, j + 1 as int);
            assert(next.drop_last() =~= prev);
            assert(next.last() == d);
            assert(next.len() > 0);
            assert(val8(next) == val8(prev) * 10 + d);
            let v = val8(prev) as int;
            if v > cap {
                assert(v * 10 + d > cap) by (nonlinear_arith)
                    requires
                        v > cap >= 0,
                        d >= 0,
                ;
            }
        }
        if acc >= cap {
            acc = cap;
        } else {
            let t = acc * 10 + (d as u128);
            acc = if t > cap {
                cap
            } else {
                t
            };
        }
        j = j + 1;
    }
    acc
}

/// Accumulate the value of the first `l` digits of `dv`, saturating at `cap`.
fn val8_prefix_acc(dv: &Vec<u8>, l: usize, cap: u64) -> (r: u64)
    requires
        l <= dv@.len(),
        all_digits(dv@),
        cap <= 0xffff_ffff_ffff,
    ensures
        r == if val8(dv@.take(l as int)) > cap {
            cap as nat
        } else {
            val8(dv@.take(l as int))
        },
{
    let mut acc: u64 = 0;
    let mut j: usize = 0;
    proof {
        assert(dv@.take(0) =~= Seq::<u8>::empty());
    }
    while j < l
        invariant
            0 <= j <= l <= dv@.len(),
            all_digits(dv@),
            cap <= 0xffff_ffff_ffff,
            acc == if val8(dv@.take(j as int)) > cap {
                cap as nat
            } else {
                val8(dv@.take(j as int))
            },
        decreases l - j,
    {
        let d = dv[j];
        proof {
            let prev = dv@.take(j as int);
            let next = dv@.take(j + 1 as int);
            assert(next.drop_last() =~= prev);
            assert(next.last() == d);
            assert(next.len() > 0);
            assert(val8(next) == val8(prev) * 10 + d);
            let v = val8(prev) as int;
            if v > cap {
                assert(v * 10 + d > cap) by (nonlinear_arith)
                    requires
                        v > cap >= 0,
                        d >= 0,
                ;
            }
            assert(dv@[j as int] <= 9);
        }
        if acc >= cap {
            acc = cap;
        } else {
            acc = acc * 10 + (d as u64);
            if acc > cap {
                acc = cap;
            }
        }
        j = j + 1;
    }
    acc
}

proof fn lemma_pow10_8()
    ensures
        pow10(8) == 100000000,
{
    assert(pow10(0) == 1);
    assert(pow10(1) == 10);
    assert(pow10(2) == 100);
    assert(pow10(3) == 1000);
    assert(pow10(4) == 10000);
    assert(pow10(5) == 100000);
    assert(pow10(6) == 1000000);
    assert(pow10(7) == 10000000);
    assert(pow10(8) == 100000000);
}

/// A successful scan consumes at least one character and stays within the
/// text, and its value is clamped to the coordinate bounds.
pub proof fn lemma_scan_spec_advances(s: Seq<char>, i: int, k: nat)
    requires
        0 <= i <= s.len(),
        scan_spec(s, i, k) is Some,
    ensures
        i < scan_spec(s, i, k).unwrap().1 <= s.len(),
        -MAX_COORD <= scan_spec(s, i, k).unwrap().0 <= MAX_COORD,
{
    let neg = i < s.len() && s[i] == '-';
    let i1 = if neg {
        i + 1
    } else {
        i
    };
    lemma_digits_end_props(s, i1);
    let int_end = digits_end(s, i1);
    let dotted = int_end < s.len() && s[int_end] == '.';
    let fs = if dotted {
        int_end + 1
    } else {
        int_end
    };
    lemma_digits_end_props(s, fs);
    let fe = digits_end(s, fs);
    let has_digit = int_end > i1 || fe > fs;
    assert(has_digit);
    if fe < s.len() && (s[fe] == 'e' || s[fe] == 'E') {
        let ss = fe + 1;
        let esigned = ss < s.len() && (s[ss] == '-' || s[ss] == '+');
        let ds = if esigned {
            ss + 1
        } else {
            ss
        };
        lemma_digits_end_props(s, ds);
    }
}

/// Scan one numeric token at `pos` (the caller has already skipped any
/// leading whitespace) and return its fixed-point value at scale `10^k`,
/// together with the position just past the token.  Returns `None` when the
/// text at `pos` is not a numeric token.
#[verifier::rlimit(100)]
pub fn scan_number(s: &Vec<char>, pos: usize, k: u32) -> (r: Option<(i64, usize)>)
    requires
        pos <= s@.len(),
        k <= 9,
    ensures
        match r {
            Some(p) => scan_spec(s@, pos as int, k as nat) == Some((p.0 as int, p.1 as int)) && pos
                < p.1 <= s@.len() && -MAX_COORD <= p.0 <= MAX_COORD,
            None => scan_spec(s@, pos as int, k as nat) is None,
        },
{
    let ghost gs = s@;
    let len = s.len();
    let neg = pos < len && s[pos] == '-';
    let i1 = if neg {
        pos + 1
    } else {
        pos
    };
    let int_end = digits_end_exec(s, i1);
    proof {
        lemma_digits_end_props(gs, i1 as int);
    }
    let dotted = int_end < len && s[int_end] == '.';
    let fs = if dotted {
        int_end + 1
    } else {
        int_end
    };
    let fe = digits_end_exec(s, fs);
    proof {
        lemma_digits_end_props(gs, fs as int);
    }
    if !(int_end > i1 || fe > fs) {
        return None;
    }
    // Gather the mantissa digits (integer part, then fraction part).
    let mut dv: Vec<u8> = Vec::new();
    digits_push(s, i1, int_end, &mut dv);
    digits_push(s, fs, fe, &mut dv);
    let ghost dseq = digit_seq(gs, i1 as int, int_end as int) + digit_seq(gs, fs as int, fe as int);
    proof {
        assert(dv@ =~= dseq);
        assert forall|t: int| 0 <= t < dseq.len() implies #[trigger] dseq[t] <= 9 by {
            if t < int_end - i1 {
                assert(is_digit(gs[i1 + t]));
            } else {
                assert(is_digit(gs[fs + (t - (int_end - i1))]));
            }
        }
        assert(all_digits(dseq));
    }
    let n = dv.len();
    let fraclen = fe - fs;
    // Exponent part, accumulated with saturation: any exponent too large to
    // matter behaves like its saturated stand-in below.
    let ecap: u128 = 1_000_000_000_000_000_000_000;
    let has_exp = fe < len && {
        let c = s[fe];
        c == 'e' || c == 'E'
    };
    let mut token_end = fe;
    let mut eneg = false;
    let mut ev: u128 = 0;
    let ghost mut ev_true: nat = 0nat;
    if has_exp {
        let ss = fe + 1;
        let esigned = ss < len && {
            let c = s[ss];
            c == '-' || c == '+'
        };
        eneg = ss < len && s[ss] == '-';
        let dstart = if esigned {
            ss + 1
        } else {
            ss
        };
        let ee = digits_end_exec(s, dstart);
        proof {
            lemma_digits_end_props(gs, dstart as int);
        }
        if ee == dstart {
            return None;
        }
        ev = digits_acc_chars(s, dstart, ee, ecap);
        proof {
            ev_true = val8(digit_seq(gs, dstart as int, ee as int));
        }
        token_end = ee;
    }
    let mval = clamped_fixed(&dv, eneg, ev, Ghost(ev_true), fraclen, k);
    let v: i64 = if neg {
        -(mval as i64)
    } else {
        mval as i64
    };
    proof {
        assert(dv@ == dseq);
        let shift_true = (if eneg {
            -(ev_true as int)
        } else {
            ev_true as int
        }) - fraclen + k;
        assert(v as int == signed_clamp(neg, fixed_mag(val8(dseq), shift_true)));
    }
    Some((v, token_end))
}

/// Compute the clamped fixed-point magnitude of the number whose mantissa
/// digits are `dv`, whose fraction is the last `fraclen` of those digits, and
/// whose exponent is `ev_true` (negated when `eneg`); `ev` is the exponent as
/// accumulated with saturation.  The scale factor is `10^k`.
#[verifier::rlimit(100)]
fn clamped_fixed(dv: &Vec<u8>, eneg: bool, ev: u128, Ghost(ev_true): Ghost<nat>, fraclen: usize, k: u32) -> (mval: u64)
    requires
        all_digits(dv@),
        k <= 9,
        ev == if ev_true > 1_000_000_000_000_000_000_000 {
            1_000_000_000_000_000_000_000 as nat
        } else {
            ev_true
        },
    ensures
        ({
            let shift_true = (if eneg {
                -(ev_true as int)
            } else {
                ev_true as int
            }) - fraclen + k;
            let mag = fixed_mag(val8(dv@), shift_true);
            mval == if mag > MAX_COORD as nat {
                MAX_COORD as nat
            } else {
                mag
            }
        }),
{
    let ghost dseq = dv@;
    let ghost d_all: nat = val8(dseq);
    let ecap: u128 = 1_000_000_000_000_000_000_000;
    let n = dv.len();
    let ghost shift_true: int = (if eneg {
        -(ev_true as int)
    } else {
        ev_true as int
    }) - fraclen + k;
    let ghost maxn: nat = MAX_COORD as nat;
    let ghost mag: nat = fixed_mag(d_all, shift_true);
    let ghost magc: nat = if mag > maxn {
        maxn
    } else {
        mag
    };
    let evs: i128 = if eneg {
        -(ev as i128)
    } else {
        ev as i128
    };
    let shift: i128 = evs - (fraclen as i128) + (k as i128);
    proof {
        lemma_pow10_8();
        lemma_val8_bound(dseq);
    }
    let mval: u64;
    if ev as u128 == ecap && eneg {
        // The exponent is (at least) astronomically negative: everything is
        // shifted below the units place, whatever its exact value.
        proof {
            let m = (-shift_true) as nat;
            assert(ev_true >= ecap);
            assert(m >= n);
            lemma_pow10_mono(n as nat, m);
            lemma_basic_div(d_all as int, pow10(m) as int);
            assert(mag == 0);
        }
        mval = 0;
    } else if ev as u128 == ecap {
        // Astronomically positive exponent: zero stays zero, anything else
        // clamps.
        let full = val8_prefix_acc(&dv, n, MAX_COORD as u64);
        proof {
            assert(dv@.take(n as int) =~= dseq);
            assert(shift_true >= 8);
            if full > 0 {
                assert(d_all >= 1);
                lemma_pow10_mono(8nat, shift_true as nat);
                assert(d_all * pow10(shift_true as nat) >= pow10(shift_true as nat))
                    by (nonlinear_arith)
                    requires
                        d_all >= 1,
                        pow10(shift_true as nat) >= 0,
                ;
                assert(mag > maxn);
            } else {
                assert(d_all == 0);
                assert(0 * pow10(shift_true as nat) == 0) by (nonlinear_arith);
                assert(mag == 0);
            }
        }
        mval = if full > 0 {
            MAX_COORD as u64
        } else {
            0
        };
    } else {
        proof {
            assert(ev == ev_true);
            assert(shift == shift_true);
        }
        if shift >= 0 {
            let full = val8_prefix_acc(&dv, n, MAX_COORD as u64);
            proof {
                assert(dv@.take(n as int) =~= dseq);
            }
            if full == 0 {
                proof {
                    assert(d_all == 0);
                    assert(0 * pow10(shift_true as nat) == 0) by (nonlinear_arith);
                }
                mval = 0;
            } else if shift >= 8 {
                proof {
                    assert(d_all >= 1);
                    lemma_pow10_mono(8nat, shift_true as nat);
                    assert(d_all * pow10(shift_true as nat) >= pow10(shift_true as nat))
                        by (nonlinear_arith)
                        requires
                            d_all >= 1,
                            pow10(shift_true as nat) >= 0,
                    ;
                    assert(mag > maxn);
                }
                mval = MAX_COORD as u64;
            } else {
                let sh = shift as usize;
                let mut t: u64 = full;
                let mut c: usize = 0;
                proof {
                    assert(pow10(0) == 1);
                    assert(d_all * 1 == d_all);
                }
                while c < sh
                    invariant
                        0 <= c <= sh < 8,
                        sh == shift_true,
                        t == if d_all * pow10(c as nat) > maxn {
                            maxn
                        } else {
                            d_all * pow10(c as nat)
                        },
                        maxn == MAX_COORD as nat,
                        d_all == val8(dseq),
                    decreases sh - c,
                {
                    proof {
                        let pc = pow10(c as nat) as int;
                        assert(pow10((c + 1) as nat) == 10 * pc);
                        assert(d_all * (10 * pc) == (d_all * pc) * 10) by (nonlinear_arith);
                        if d_all * pc > maxn {
                            assert((d_all * pc) * 10 >= d_all * pc) by (nonlinear_arith)
                                requires
                                    d_all * pc >= 0,
                            ;
                        }
                    }
                    t = t * 10;
                    if t > MAX_COORD as u64 {
                        t = MAX_COORD as u64;
                    }
                    c = c + 1;
                }
                mval = t;
            }
        } else {
            let m = -shift;
            if m >= n as i128 {
                proof {
                    let mn = (-shift_true) as nat;
                    lemma_pow10_mono(n as nat, mn);
                    lemma_basic_div(d_all as int, pow10(mn) as int);
                    assert(mag == 0);
                }
                mval = 0;
            } else {
                let l = n - (m as usize);
                mval = val8_prefix_acc(&dv, l, MAX_COORD as u64);
                proof {
                    let mn = (-shift_true) as nat;
                    lemma_val8_split(dseq, l as int);
                    assert((dseq.len() - l) as nat == mn);
                    lemma_fundamental_div_mod_converse(
                        d_all as int,
                        pow10(mn) as int,
                        val8(dseq.take(l as int)) as int,
                        val8(dseq.skip(l as int)) as int,
                    );
                    assert(val8(dseq.take(l as int)) == d_all / pow10(mn));
                    assert(dv@.take(l as int) =~= dseq.take(l as int));
                }
            }
        }
    }
    proof {
        assert(mval == magc);
    }
    mval
}


} // verus!
