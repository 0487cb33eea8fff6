use vstd::prelude::*;

use crate::graph::Graph;
use crate::vector3::{Vector3, fits_i32};

verus! {

/// Why a graph source was refused.
#[derive(Clone, Copy, Debug, PartialEq, Eq, Structural)]
pub enum ParseError {
    /// A `v` line with fewer than three coordinates, or an `l` line with
    /// fewer than two node ids.
    MissingToken,
    /// A token that is not a number of the expected form, or a coordinate
    /// outside the `i32` range.
    BadNumber,
    /// An `l` line names a node that does not exist.
    BadNodeId,
    /// More nodes than `i32` ids can number.
    TooManyNodes,
}

/// Node positions and neighbour lists, as plain values.
pub type GraphModel = (Seq<Vector3>, Seq<Seq<i32>>);

/// Coordinate of the placeholder node that takes id 0: a thousand world
/// units below zero on each axis, in thousandths.
pub const PLACEHOLDER_COORD: i32 = -1_000_000;

pub open spec fn is_space(b: u8) -> bool {
    b == 32 || b == 9 || b == 13
}

pub open spec fn is_digit(b: u8) -> bool {
    48 <= b <= 57
}

/// The pieces of `s` between newlines, the current piece starting at
/// `start` and scanned up to `i`.
pub open spec fn lines_from(s: Seq<u8>, start: int, i: int) -> Seq<Seq<u8>>
    decreases s.len() - i,
{
    if i >= s.len() {
        seq![s.subrange(start, s.len() as int)]
    } else if s[i] == 10 {
        seq![s.subrange(start, i)] + lines_from(s, i + 1, i + 1)
    } else {
        lines_from(s, start, i + 1)
    }
}

/// The lines of `s`: the pieces between newline bytes.
pub open spec fn lines(s: Seq<u8>) -> Seq<Seq<u8>> {
    lines_from(s, 0, 0)
}

/// The non-empty runs of non-space bytes of `s`, the current run starting at
/// `start` and scanned up to `i`.
pub open spec fn words_from(s: Seq<u8>, start: int, i: int) -> Seq<Seq<u8>>
    decreases s.len() - i,
{
    if i >= s.len() {
        if start < s.len() {
            seq![s.subrange(start, s.len() as int)]
        } else {
            Seq::empty()
        }
    } else if is_space(s[i]) {
        (if start < i {
            seq![s.subrange(start, i)]
        } else {
            Seq::empty()
        }) + words_from(s, i + 1, i + 1)
    } else {
        words_from(s, start, i + 1)
    }
}

/// The tokens of a line: its runs of non-whitespace bytes.
pub open spec fn words(s: Seq<u8>) -> Seq<Seq<u8>> {
    words_from(s, 0, 0)
}

pub open spec fn all_digits(s: Seq<u8>) -> bool {
    forall|i: int| 0 <= i < s.len() ==> is_digit(#[trigger] s[i])
}

/// The value of a string of decimal digits.
pub open spec fn digits_value(s: Seq<u8>) -> int
    decreases s.len(),
{
    if s.len() == 0 {
        0
    } else {
        10 * digits_value(s.drop_last()) + (s.last() - 48)
    }
}

/// An integer token: an optional sign and at least one decimal digit.
pub open spec fn int_token(t: Seq<u8>) -> Option<int> {
    let signed = t.len() > 0 && (t[0] == 45 || t[0] == 43);
    let body = if signed {
        t.subrange(1, t.len() as int)
    } else {
        t
    };
    if body.len() > 0 && all_digits(body) {
        Some(
            if t[0] == 45 {
                -digits_value(body)
            } else {
                digits_value(body)
            },
        )
    } else {
        None
    }
}

/// Index of the first `.` in `t` at or after `i`, or `t.len()`.
pub open spec fn dot_index(t: Seq<u8>, i: int) -> int
    decreases t.len() - i,
{
    if i >= t.len() {
        t.len() as int
    } else if t[i] == 46 {
        i
    } else {
        dot_index(t, i + 1)
    }
}

/// Index of the first `e` or `E` in `t` at or after `i`, or `t.len()`.
pub open spec fn exp_index(t: Seq<u8>, i: int) -> int
    decreases t.len() - i,
{
    if i >= t.len() {
        t.len() as int
    } else if t[i] == 101 || t[i] == 69 {
        i
    } else {
        exp_index(t, i + 1)
    }
}

/// The value of digit `i` of `d`, zero outside it.
pub open spec fn digit_at(d: Seq<u8>, i: int) -> int {
    if 0 <= i < d.len() {
        d[i] - 48
    } else {
        0
    }
}

/// The value of the first `n` digits of `d`, extended with zeros past its end.
pub open spec fn prefix_value(d: Seq<u8>, n: int) -> int
    decreases n,
{
    if n <= 0 {
        0
    } else {
        10 * prefix_value(d, n - 1) + digit_at(d, n - 1)
    }
}

/// The first `p` digits of `d`, plus one when digit `p` is 5 or more.
pub open spec fn rounded(d: Seq<u8>, p: int) -> int {
    prefix_value(d, p) + if digit_at(d, p) >= 5 {
        1int
    } else {
        0
    }
}

/// A coordinate token, in thousandths of a world unit: an optional sign,
/// decimal digits with an optional `.` (at least one digit in all), and an
/// optional exponent `e` or `E` followed by an integer token. The value is
/// rounded to the nearest thousandth, halves away from zero: with `d` the
/// digits and `p` the number of them that fall before the thousandths'
/// cut, it is the first `p` digits plus one when digit `p` is 5 or more.
pub open spec fn coord_token(t: Seq<u8>) -> Option<int> {
    let signed = t.len() > 0 && (t[0] == 45 || t[0] == 43);
    let body = if signed {
        t.subrange(1, t.len() as int)
    } else {
        t
    };
    let e = exp_index(body, 0);
    let m = body.subrange(0, e);
    let k = dot_index(m, 0);
    let ip = m.subrange(0, k);
    let fp = if k < m.len() {
        m.subrange(k + 1, m.len() as int)
    } else {
        Seq::empty()
    };
    let has_exp = e < body.len();
    let ex = int_token(body.subrange(e + 1, body.len() as int));
    if all_digits(ip) && all_digits(fp) && ip.len() + fp.len() > 0 && (!has_exp || ex is Some) {
        let d = ip + fp;
        let p = ip.len() + (if has_exp { ex->Some_0 } else { 0 }) + 3;
        let v = rounded(d, p);
        Some(
            if t[0] == 45 {
                -v
            } else {
                v
            },
        )
    } else {
        None
    }
}

/// The graph before any line: the placeholder node alone.
pub open spec fn initial_model() -> GraphModel {
    (
        seq![Vector3 { x: PLACEHOLDER_COORD, y: PLACEHOLDER_COORD, z: PLACEHOLDER_COORD }],
        seq![Seq::<i32>::empty()],
    )
}

/// The effect of one line, given as its tokens, on the graph `m`.
pub open spec fn apply_line(m: GraphModel, w: Seq<Seq<u8>>) -> Result<GraphModel, ParseError> {
    if w.len() == 0 {
        Ok(m)
    } else if w[0] == seq![118u8] {
        if w.len() < 4 {
            Err(ParseError::MissingToken)
        } else {
            let (x, y, z) = (coord_token(w[1]), coord_token(w[2]), coord_token(w[3]));
            if x is Some && y is Some && z is Some && fits_i32(x->Some_0) && fits_i32(y->Some_0)
                && fits_i32(z->Some_0) {
                if m.0.len() >= i32::MAX {
                    Err(ParseError::TooManyNodes)
                } else {
                    let v = Vector3 {
                        x: x->Some_0 as i32,
                        y: y->Some_0 as i32,
                        z: z->Some_0 as i32,
                    };
                    Ok((m.0.push(v), m.1.push(Seq::empty())))
                }
            } else {
                Err(ParseError::BadNumber)
            }
        }
    } else if w[0] == seq![108u8] {
        if w.len() < 3 {
            Err(ParseError::MissingToken)
        } else {
            let (a, b) = (int_token(w[1]), int_token(w[2]));
            if a is Some && b is Some {
                let (a, b) = (a->Some_0, b->Some_0);
                if 0 <= a < m.0.len() && 0 <= b < m.0.len() {
                    let adj1 = m.1.update(a, m.1[a].push(b as i32));
                    Ok((m.0, adj1.update(b, adj1[b].push(a as i32))))
                } else {
                    Err(ParseError::BadNodeId)
                }
            } else {
                Err(ParseError::BadNumber)
            }
        }
    } else {
        Ok(m)
    }
}

/// The graph described by the lines `ls`, or the error of the first bad line.
pub open spec fn parse_lines(ls: Seq<Seq<u8>>) -> Result<GraphModel, ParseError>
    decreases ls.len(),
{
    if ls.len() == 0 {
        Ok(initial_model())
    } else {
        match parse_lines(ls.drop_last()) {
            Ok(m) => apply_line(m, words(ls.last())),
            Err(e) => Err(e),
        }
    }
}

/// The graph that the source text `src` describes.
pub open spec fn parse_graph(src: Seq<u8>) -> Result<GraphModel, ParseError> {
    parse_lines(lines(src))
}

/// The contents of a sequence of byte vectors.
pub open spec fn views(s: Seq<Vec<u8>>) -> Seq<Seq<u8>> {
    s.map_values(|v: Vec<u8>| v@)
}

/// A copy of `s[lo..hi]`.
fn copy_range(s: &[u8], lo: usize, hi: usize) -> (r: Vec<u8>)
    requires
        lo <= hi <= s@.len(),
    ensures
        r@ == s@.subrange(lo as int, hi as int),
{
    let mut out: Vec<u8> = Vec::new();
    let mut i: usize = lo;
    while i < hi
        invariant
            lo <= i <= hi,
            hi <= s@.len(),
            out@ == s@.subrange(lo as int, i as int),
        decreases hi - i,
    {
        out.push(s[i]);
        i += 1;
        assert(out@ =~= s@.subrange(lo as int, i as int));
    }
    out
}

/// Cuts `src` at each newline byte.
fn split_lines(src: &[u8]) -> (r: Vec<Vec<u8>>)
    ensures
        views(r@) == lines(src@),
{
    let mut out: Vec<Vec<u8>> = Vec::new();
    let mut start: usize = 0;
    let mut i: usize = 0;
    while i < src.len()
        invariant
            start <= i <= src@.len(),
            views(out@) + lines_from(src@, start as int, i as int) == lines(src@),
        decreases src@.len() - i,
    {
        if src[i] == 10 {
            let piece = copy_range(src, start, i);
            let ghost before = views(out@);
            out.push(piece);
            assert(views(out@) =~= before.push(piece@));
            assert(before + lines_from(src@, start as int, i as int) =~= views(out@)
                + lines_from(src@, i + 1, i + 1));
            i += 1;
            start = i;
        } else {
            i += 1;
        }
    }
    let piece = copy_range(src, start, src.len());
    let ghost before = views(out@);
    out.push(piece);
    assert(views(out@) =~= before.push(piece@));
    assert(before + lines_from(src@, start as int, i as int) =~= views(out@));
    out
}

/// Cuts `line` into its runs of non-whitespace bytes.
fn split_words(line: &[u8]) -> (r: Vec<Vec<u8>>)
    ensures
        views(r@) == words(line@),
{
    let mut out: Vec<Vec<u8>> = Vec::new();
    let mut start: usize = 0;
    let mut i: usize = 0;
    while i < line.len()
        invariant
            start <= i <= line@.len(),
            views(out@) + words_from(line@, start as int, i as int) == words(line@),
        decreases line@.len() - i,
    {
        let b = line[i];
        if b == 32 || b == 9 || b == 13 {
            let ghost before = views(out@);
            if start < i {
                let piece = copy_range(line, start, i);
                out.push(piece);
                assert(views(out@) =~= before.push(piece@));
                assert(before + words_from(line@, start as int, i as int) =~= views(out@)
                    + words_from(line@, i + 1, i + 1));
            } else {
                assert(before + words_from(line@, start as int, i as int) =~= views(out@)
                    + words_from(line@, i + 1, i + 1));
            }
            i += 1;
            start = i;
        } else {
            i += 1;
        }
    }
    let ghost before = views(out@);
    if start < line.len() {
        let piece = copy_range(line, start, line.len());
        out.push(piece);
        assert(views(out@) =~= before.push(piece@));
        assert(before + words_from(line@, start as int, i as int) =~= views(out@));
    } else {
        assert(before + words_from(line@, start as int, i as int) =~= views(out@));
    }
    out
}

/// A number token as read: not a number, a number too large to matter
/// here, or its value.
enum Num {
    Malformed,
    Big,
    Value(i64),
}

/// Reads `t[0..hi]` as an integer token.
fn read_int(t: &[u8], hi: usize) -> (r: Num)
    requires
        hi <= t@.len(),
    ensures
        (r is Malformed) <==> (int_token(t@.subrange(0, hi as int)) is None),
        r matches Num::Value(v) ==> int_token(t@.subrange(0, hi as int)) == Some(v as int),
        r is Big ==> (int_token(t@.subrange(0, hi as int)) matches Some(x) && (x > 0x1_0000_0000
            || x < -0x1_0000_0000)),
{
    let ghost tok = t@.subrange(0, hi as int);
    assert(hi > 0 ==> tok[0] == t@[0]);
    let mut i0: usize = 0;
    if hi > 0 && (t[0] == 45 || t[0] == 43) {
        i0 = 1;
    }
    let ghost body = t@.subrange(i0 as int, hi as int);
    assert(body =~= (if tok.len() > 0 && (tok[0] == 45 || tok[0] == 43) {
        tok.subrange(1, tok.len() as int)
    } else {
        tok
    }));
    if i0 == hi {
        assert(tok.len() == hi);
        assert(body.len() == 0);
        assert(int_token(tok) is None);
        return Num::Malformed;
    }
    let mut acc: u64 = 0;
    let mut big = false;
    let mut j: usize = i0;
    while j < hi
        invariant
            i0 <= j <= hi,
            hi <= t@.len(),
            body == t@.subrange(i0 as int, hi as int),
            tok == t@.subrange(0, hi as int),
            hi > 0 && tok[0] == t@[0],
            body == (if tok.len() > 0 && (tok[0] == 45 || tok[0] == 43) {
                tok.subrange(1, tok.len() as int)
            } else {
                tok
            }),
            all_digits(t@.subrange(i0 as int, j as int)),
            !big ==> acc as int == digits_value(t@.subrange(i0 as int, j as int)) && acc <= 0x1_0000_0000,
            big ==> digits_value(t@.subrange(i0 as int, j as int)) > 0x1_0000_0000,
        decreases hi - j,
    {
        let b = t[j];
        let ghost pre = t@.subrange(i0 as int, j as int);
        let ghost next = t@.subrange(i0 as int, j + 1);
        assert(next.drop_last() =~= pre);
        if !(48 <= b && b <= 57) {
            assert(!all_digits(body)) by {
                assert(body[j - i0] == b);
            }
            return Num::Malformed;
        }
        proof {
            lemma_digits_value_nonneg(pre);
        }
        if !big {
            let v: u64 = acc * 10 + (b - 48) as u64;
            if v > 0x1_0000_0000 {
                big = true;
            } else {
                acc = v;
            }
        }
        j += 1;
        assert(all_digits(t@.subrange(i0 as int, j as int))) by {
            assert forall|k: int| 0 <= k < next.len() implies is_digit(#[trigger] next[k]) by {
                if k < pre.len() {
                    assert(next[k] == pre[k]);
                }
            }
        }
    }
    assert(t@.subrange(i0 as int, j as int) =~= body);
    if big {
        Num::Big
    } else if t[0] == 45 {
        Num::Value(-(acc as i64))
    } else {
        Num::Value(acc as i64)
    }
}

proof fn lemma_digits_value_nonneg(s: Seq<u8>)
    requires
        all_digits(s),
    ensures
        digits_value(s) >= 0,
    decreases s.len(),
{
    if s.len() > 0 {
        assert(all_digits(s.drop_last())) by {
            assert forall|i: int| 0 <= i < s.len() - 1 implies is_digit(#[trigger] s.drop_last()[i]) by {
                assert(s.drop_last()[i] == s[i]);
            }
        }
        lemma_digits_value_nonneg(s.drop_last());
        assert(is_digit(s[s.len() - 1]));
    }
}

/// Bound past which a run of digits is only noted as large.
pub const WIDE: u128 = 0x40_0000_0000_0000_0000;

/// Reads the digits `t[lo..hi]`: `None` unless all are digits; otherwise
/// whether their value passes `WIDE`, and the value when it does not.
fn read_digits(t: &[u8], lo: usize, hi: usize) -> (r: Option<(bool, u128)>)
    requires
        lo <= hi <= t@.len(),
    ensures
        (r is None) <==> !all_digits(t@.subrange(lo as int, hi as int)),
        r matches Some((big, v)) ==> (big ==> digits_value(t@.subrange(lo as int, hi as int)) > WIDE)
            && (!big ==> v == digits_value(t@.subrange(lo as int, hi as int)) && v <= WIDE),
{
    let mut acc: u128 = 0;
    let mut big = false;
    let mut j: usize = lo;
    assert(t@.subrange(lo as int, lo as int) =~= Seq::<u8>::empty());
    while j < hi
        invariant
            lo <= j <= hi,
            hi <= t@.len(),
            all_digits(t@.subrange(lo as int, j as int)),
            !big ==> acc as int == digits_value(t@.subrange(lo as int, j as int)) && acc <= WIDE,
            big ==> digits_value(t@.subrange(lo as int, j as int)) > WIDE,
        decreases hi - j,
    {
        let b = t[j];
        let ghost pre = t@.subrange(lo as int, j as int);
        let ghost next = t@.subrange(lo as int, j + 1);
        assert(next.drop_last() =~= pre);
        if !(48 <= b && b <= 57) {
            assert(t@.subrange(lo as int, hi as int)[j - lo] == b);
            return None;
        }
        proof {
            lemma_digits_value_nonneg(pre);
        }
        if !big {
            let v: u128 = acc * 10 + (b - 48) as u128;
            if v > WIDE {
                big = true;
            } else {
                acc = v;
            }
        }
        j += 1;
        assert(all_digits(t@.subrange(lo as int, j as int))) by {
            assert forall|k: int| 0 <= k < next.len() implies is_digit(#[trigger] next[k]) by {
                if k < pre.len() {
                    assert(next[k] == pre[k]);
                }
            }
        }
    }
    Some((big, acc))
}

proof fn lemma_prefix_value_nonneg(d: Seq<u8>, n: int)
    requires
        all_digits(d),
    ensures
        prefix_value(d, n) >= 0,
        0 <= digit_at(d, n) <= 9,
    decreases n,
{
    if 0 <= n < d.len() {
        assert(is_digit(d[n]));
    }
    if n > 0 {
        lemma_prefix_value_nonneg(d, n - 1);
    }
}

/// Taking more digits never lowers the value.
proof fn lemma_prefix_value_mono(d: Seq<u8>, a: int, b: int)
    requires
        all_digits(d),
        0 <= a <= b,
    ensures
        prefix_value(d, a) <= prefix_value(d, b),
    decreases b - a,
{
    if a < b {
        lemma_prefix_value_mono(d, a, b - 1);
        lemma_prefix_value_nonneg(d, b - 1);
    }
}

/// Past the end of `d`, zero digits stay zero.
proof fn lemma_prefix_value_zero_tail(d: Seq<u8>, n: int)
    requires
        n >= d.len(),
        prefix_value(d, d.len() as int) == 0,
    ensures
        prefix_value(d, n) == 0,
    decreases n,
{
    if n > d.len() {
        lemma_prefix_value_zero_tail(d, n - 1);
    }
}

/// Eleven zeros past a non-zero value make it too large for an `i32`.
proof fn lemma_prefix_value_huge(d: Seq<u8>, n: int)
    requires
        all_digits(d),
        n >= d.len() + 11,
        prefix_value(d, d.len() as int) >= 1,
    ensures
        prefix_value(d, n) > 0x1_0000_0000,
{
    let l = d.len() as int;
    assert(prefix_value(d, l + 1) == 10 * prefix_value(d, l));
    assert(prefix_value(d, l + 2) == 10 * prefix_value(d, l + 1));
    assert(prefix_value(d, l + 3) == 10 * prefix_value(d, l + 2));
    assert(prefix_value(d, l + 4) == 10 * prefix_value(d, l + 3));
    assert(prefix_value(d, l + 5) == 10 * prefix_value(d, l + 4));
    assert(prefix_value(d, l + 6) == 10 * prefix_value(d, l + 5));
    assert(prefix_value(d, l + 7) == 10 * prefix_value(d, l + 6));
    assert(prefix_value(d, l + 8) == 10 * prefix_value(d, l + 7));
    assert(prefix_value(d, l + 9) == 10 * prefix_value(d, l + 8));
    assert(prefix_value(d, l + 10) == 10 * prefix_value(d, l + 9));
    assert(prefix_value(d, l + 11) == 10 * prefix_value(d, l + 10));
    lemma_prefix_value_mono(d, l + 11, n);
}

/// Digit `i` of the digits `t[i0..k]` followed by `t[k + 1..ke]`.
fn digit_of(t: &[u8], i0: usize, k: usize, ke: usize, i: usize) -> (r: u128)
    requires
        i0 <= k <= ke <= t@.len(),
        all_digits(t@.subrange(i0 as int, k as int)),
        k < ke ==> all_digits(t@.subrange(k + 1, ke as int)),
        i < (k - i0) + (if k < ke { ke - k - 1 } else { 0 }),
    ensures
        r == digit_at(
            t@.subrange(i0 as int, k as int) + (if k < ke {
                t@.subrange(k + 1, ke as int)
            } else {
                Seq::<u8>::empty()
            }),
            i as int,
        ),
{
    let ghost d = t@.subrange(i0 as int, k as int) + (if k < ke {
        t@.subrange(k + 1, ke as int)
    } else {
        Seq::<u8>::empty()
    });
    if i < k - i0 {
        assert(d[i as int] == t@.subrange(i0 as int, k as int)[i as int]);
        assert(is_digit(t@.subrange(i0 as int, k as int)[i as int]));
        (t[i0 + i] - 48) as u128
    } else {
        let j = i - (k - i0);
        assert(d[i as int] == t@.subrange(k + 1, ke as int)[j as int]);
        assert(is_digit(t@.subrange(k + 1, ke as int)[j as int]));
        (t[k + 1 + j] - 48) as u128
    }
}

/// Reads the exponent `t[lo..hi]` (an integer token): its sign, whether its
/// magnitude passes `WIDE`, and the magnitude when it does not.
fn read_exponent(t: &[u8], lo: usize, hi: usize) -> (r: Option<(bool, bool, u128)>)
    requires
        lo <= hi <= t@.len(),
    ensures
        (r is None) <==> (int_token(t@.subrange(lo as int, hi as int)) is None),
        r matches Some((neg, big, v)) ==> {
            let e = int_token(t@.subrange(lo as int, hi as int))->Some_0;
            &&& (!big ==> e == (if neg { -(v as int) } else { v as int }) && v <= WIDE)
            &&& (big && neg ==> e < -(WIDE as int))
            &&& (big && !neg ==> e > WIDE as int)
        },
{
    let ghost ex = t@.subrange(lo as int, hi as int);
    let mut j0: usize = lo;
    let mut neg = false;
    if j0 < hi && (t[j0] == 45 || t[j0] == 43) {
        neg = t[j0] == 45;
        j0 = j0 + 1;
    }
    let ghost ebody = t@.subrange(j0 as int, hi as int);
    assert(ebody =~= (if ex.len() > 0 && (ex[0] == 45 || ex[0] == 43) {
        ex.subrange(1, ex.len() as int)
    } else {
        ex
    }));
    assert(neg <==> (ex.len() > 0 && ex[0] == 45));
    if j0 == hi {
        return None;
    }
    match read_digits(t, j0, hi) {
        None => None,
        Some((big, v)) => {
            proof {
                lemma_digits_value_nonneg(ebody);
            }
            Some((neg, big, v))
        },
    }
}

/// `rounded(d, p)` when it is at most `2^32`, for the digits `d` of
/// `t[i0..k]` followed by `t[k + 1..ke]`; `pe` is `p` when it is small, and
/// `huge` tells that `p` passes the digits by more than eleven.
#[verifier::loop_isolation(false)]
fn round_digits(t: &[u8], i0: usize, k: usize, ke: usize, pe: i128, huge: bool, Ghost(p): Ghost<int>) -> (r: Option<u128>)
    requires
        i0 <= k <= ke <= t@.len(),
        all_digits(t@.subrange(i0 as int, k as int)),
        k < ke ==> all_digits(t@.subrange(k + 1, ke as int)),
        huge ==> p > (k - i0) + (if k < ke { ke - k - 1 } else { 0 }) + 11,
        !huge ==> (pe == p || (pe == -1 && p < 0)),
        -0x100_0000_0000_0000_0000 < pe < 0x100_0000_0000_0000_0000,
    ensures
        ({
            let d = t@.subrange(i0 as int, k as int) + (if k < ke {
                t@.subrange(k + 1, ke as int)
            } else {
                Seq::<u8>::empty()
            });
            &&& (r is None ==> rounded(d, p) > 0x1_0000_0000)
            &&& (r matches Some(v) ==> v == rounded(d, p) && v <= 0x1_0000_0001)
            &&& rounded(d, p) >= 0
        }),
{
    let ghost d = t@.subrange(i0 as int, k as int) + (if k < ke {
        t@.subrange(k + 1, ke as int)
    } else {
        Seq::<u8>::empty()
    });
    let ipl = k - i0;
    let fpl: usize = if k < ke { ke - k - 1 } else { 0 };
    let dl: usize = ipl + fpl;
    assert(d.len() == dl);
    assert(all_digits(d)) by {
        assert forall|q: int| 0 <= q < d.len() implies is_digit(#[trigger] d[q]) by {
            if q < ipl {
                assert(d[q] == t@.subrange(i0 as int, k as int)[q]);
            } else {
                assert(d[q] == t@.subrange(k + 1, ke as int)[q - ipl]);
            }
        }
    }
    proof {
        lemma_prefix_value_nonneg(d, p);
    }
    let lim: usize = if huge {
        dl
    } else if pe <= 0 {
        0
    } else if pe < dl as i128 {
        pe as usize
    } else {
        dl
    };
    let mut acc: u128 = 0;
    let mut i: usize = 0;
    while i < lim
        invariant
            i <= lim,
            lim <= dl,
            acc == prefix_value(d, i as int),
            acc <= 0x1_0000_0000,
        decreases lim - i,
    {
        let dg = digit_of(t, i0, k, ke, i);
        proof {
            lemma_prefix_value_nonneg(d, i as int);
        }
        acc = acc * 10 + dg;
        i += 1;
        if acc > 0x1_0000_0000 {
            proof {
                lemma_prefix_value_mono(d, i as int, p);
            }
            return None;
        }
    }
    let mut rnd: u128 = 0;
    if huge || pe > dl as i128 {
        if acc == 0 {
            proof {
                lemma_prefix_value_zero_tail(d, p);
            }
        } else if huge || pe > dl as i128 + 11 {
            proof {
                lemma_prefix_value_huge(d, p);
            }
            return None;
        } else {
            let mut j: i128 = dl as i128;
            while j < pe
                invariant
                    dl <= j <= pe,
                    acc == prefix_value(d, j as int),
                    acc <= 0x1_0000_0000,
                decreases pe - j,
            {
                acc = acc * 10;
                j += 1;
                if acc > 0x1_0000_0000 {
                    proof {
                        lemma_prefix_value_mono(d, j as int, p);
                    }
                    return None;
                }
            }
        }
    } else if 0 <= pe && pe < dl as i128 {
        let dg = digit_of(t, i0, k, ke, pe as usize);
        if dg >= 5 {
            rnd = 1;
        }
    }
    Some(acc + rnd)
}

/// Where the parts of a coordinate token start: after the sign (`i0`), at
/// the point (`k`, or `ke` without one) and at the exponent (`ke`, or the
/// end without one).
#[verifier::loop_isolation(false)]
fn split_coord(t: &[u8]) -> (r: (usize, usize, usize))
    ensures
        ({
            let (i0, k, ke) = r;
            let signed = t@.len() > 0 && (t@[0] == 45 || t@[0] == 43);
            let body = t@.subrange(i0 as int, t@.len() as int);
            &&& i0 <= k <= ke <= t@.len()
            &&& i0 == (if signed { 1int } else { 0 })
            &&& body == (if signed { t@.subrange(1, t@.len() as int) } else { t@ })
            &&& exp_index(body, 0) == ke - i0
            &&& dot_index(body.subrange(0, ke - i0), 0) == k - i0
        }),
{
    let n = t.len();
    let mut i0: usize = 0;
    if n > 0 && (t[0] == 45 || t[0] == 43) {
        i0 = 1;
    }
    let ghost body = t@.subrange(i0 as int, n as int);
    assert(body =~= (if t@.len() > 0 && (t@[0] == 45 || t@[0] == 43) {
        t@.subrange(1, t@.len() as int)
    } else {
        t@
    }));
    let mut ke: usize = i0;
    while ke < n && t[ke] != 101 && t[ke] != 69
        invariant
            i0 <= ke <= n,
            n == t@.len(),
            exp_index(body, 0) == exp_index(body, ke - i0),
        decreases n - ke,
    {
        assert(body[ke - i0] == t@[ke as int]);
        ke += 1;
    }
    proof {
        if ke < n {
            assert(body[ke - i0] == t@[ke as int]);
        }
    }
    let ghost m = body.subrange(0, ke - i0);
    assert(m =~= t@.subrange(i0 as int, ke as int));
    let mut k: usize = i0;
    while k < ke && t[k] != 46
        invariant
            i0 <= k <= ke,
            ke <= n,
            n == t@.len(),
            dot_index(m, 0) == dot_index(m, k - i0),
        decreases ke - k,
    {
        assert(m[k - i0] == t@[k as int]);
        k += 1;
    }
    proof {
        if k < ke {
            assert(m[k - i0] == t@[k as int]);
        }
    }
    (i0, k, ke)
}

/// Reads `t` as a coordinate, in thousandths, that fits an `i32`.
#[verifier::rlimit(100)]
fn read_coord(t: &[u8]) -> (r: Option<i32>)
    ensures
        (r is Some) <==> (coord_token(t@) is Some && fits_i32(coord_token(t@)->Some_0)),
        r matches Some(v) ==> coord_token(t@) == Some(v as int),
{
    let n = t.len();
    let (i0, k, ke) = split_coord(t);
    let ghost body = t@.subrange(i0 as int, n as int);
    let ghost m = body.subrange(0, ke - i0);
    assert(m =~= t@.subrange(i0 as int, ke as int));
    let ghost ip = m.subrange(0, k - i0);
    assert(ip =~= t@.subrange(i0 as int, k as int));
    let ghost fp = if k < ke {
        m.subrange(k - i0 + 1, m.len() as int)
    } else {
        Seq::<u8>::empty()
    };
    proof {
        if k < ke {
            assert(fp =~= t@.subrange(k + 1, ke as int));
        }
    }
    if read_digits(t, i0, k).is_none() {
        return None;
    }
    if k < ke && read_digits(t, k + 1, ke).is_none() {
        return None;
    }
    let ipl = k - i0;
    let fpl: usize = if k < ke { ke - k - 1 } else { 0 };
    if ipl == 0 && fpl == 0 {
        return None;
    }
    let ghost ex = body.subrange(ke - i0 + 1, body.len() as int);
    let mut eneg = false;
    let mut ebig = false;
    let mut ev: u128 = 0;
    if ke < n {
        assert(ex =~= t@.subrange(ke + 1, n as int));
        match read_exponent(t, ke + 1, n) {
            None => {
                return None;
            },
            Some((ng, b, v)) => {
                eneg = ng;
                ebig = b;
                ev = v;
            },
        }
    }
    let ghost eval: int = if ke < n {
        int_token(ex)->Some_0
    } else {
        0
    };
    let ghost p: int = ipl + eval + 3;
    let ghost d = ip + fp;
    assert(d =~= t@.subrange(i0 as int, k as int) + (if k < ke {
        t@.subrange(k + 1, ke as int)
    } else {
        Seq::<u8>::empty()
    }));
    assert(coord_token(t@) == Some(
        if t@.len() > 0 && t@[0] == 45 {
            -rounded(d, p)
        } else {
            rounded(d, p)
        },
    ));
    let huge = ebig && !eneg;
    let pe: i128 = if ebig {
        -1
    } else if eneg {
        ipl as i128 - ev as i128 + 3
    } else {
        ipl as i128 + ev as i128 + 3
    };
    match round_digits(t, i0, k, ke, pe, huge, Ghost(p)) {
        None => None,
        Some(v) => {
            let v: i64 = v as i64;
            let sv: i64 = if n > 0 && t[0] == 45 { -v } else { v };
            if -0x8000_0000i64 <= sv && sv <= 0x7fff_ffffi64 {
                Some(sv as i32)
            } else {
                None
            }
        },
    }
}

/// Applies one line, given as its tokens, to `g`.
fn apply_tokens(g: &mut Graph, w: &Vec<Vec<u8>>) -> (r: Result<(), ParseError>)
    requires
        old(g).wf(),
    ensures
        apply_line(old(g).model(), views(w@)) matches Ok(m) ==> r is Ok && final(g).wf()
            && final(g).model() == m,
        apply_line(old(g).model(), views(w@)) matches Err(e) ==> r == Err::<(), ParseError>(e),
{
    let ghost ws = views(w@);
    if w.len() == 0 {
        return Ok(());
    }
    assert(ws[0] == w@[0]@);
    let first = &w[0];
    let is_v = first.len() == 1 && first[0] == 118;
    let is_l = first.len() == 1 && first[0] == 108;
    assert(is_v <==> ws[0] =~= seq![118u8]);
    assert(is_l <==> ws[0] =~= seq![108u8]);
    if is_v {
        if w.len() < 4 {
            return Err(ParseError::MissingToken);
        }
        assert(ws[1] == w@[1]@ && ws[2] == w@[2]@ && ws[3] == w@[3]@);
        let xo = read_coord(&w[1]);
        let yo = read_coord(&w[2]);
        let zo = read_coord(&w[3]);
        match (xo, yo, zo) {
            (Some(x), Some(y), Some(z)) => {
                if g.nodes.len() >= 0x7fff_ffff {
                    return Err(ParseError::TooManyNodes);
                }
                g.add_node(Vector3::new(x, y, z));
                Ok(())
            },
            _ => Err(ParseError::BadNumber),
        }
    } else if is_l {
        if w.len() < 3 {
            return Err(ParseError::MissingToken);
        }
        assert(ws[1] == w@[1]@ && ws[2] == w@[2]@);
        assert(w@[1]@.subrange(0, w@[1]@.len() as int) =~= w@[1]@);
        assert(w@[2]@.subrange(0, w@[2]@.len() as int) =~= w@[2]@);
        let a = read_int(&w[1], w[1].len());
        let b = read_int(&w[2], w[2].len());
        match (a, b) {
            (Num::Value(av), Num::Value(bv)) => {
                let n = g.nodes.len();
                if 0 <= av && av < n as i64 && 0 <= bv && bv < n as i64 {
                    g.add_edge(av as i32, bv as i32);
                    g.add_edge(bv as i32, av as i32);
                    Ok(())
                } else {
                    Err(ParseError::BadNodeId)
                }
            },
            (Num::Malformed, _) => Err(ParseError::BadNumber),
            (_, Num::Malformed) => Err(ParseError::BadNumber),
            _ => Err(ParseError::BadNodeId),
        }
    } else {
        Ok(())
    }
}

/// Once a line fails, the whole source fails with that line's error.
proof fn lemma_parse_error_sticks(ls: Seq<Seq<u8>>, k: int, e: ParseError)
    requires
        0 <= k <= ls.len(),
        parse_lines(ls.subrange(0, k)) == Err::<GraphModel, ParseError>(e),
    ensures
        parse_lines(ls) == Err::<GraphModel, ParseError>(e),
    decreases ls.len() - k,
{
    if k == ls.len() {
        assert(ls.subrange(0, k) =~= ls);
    } else {
        let next = ls.subrange(0, k + 1);
        assert(next.drop_last() =~= ls.subrange(0, k));
        lemma_parse_error_sticks(ls, k + 1, e);
    }
}

/// Builds the graph that the source text describes. Tokens are separated
/// by runs of spaces, tabs and carriage returns. Node 0 is a placeholder at
/// `(-1000, -1000, -1000)` world units; each line `v x y z` adds a node at
/// that position (coordinates in world units, kept in thousandths; see
/// `coord_token`), each line `l i j` adds the edges `i -> j` and `j -> i`;
/// other lines are ignored. The first malformed line fails the whole source.
pub fn obj_graph_parser(src: &[u8]) -> (r: Result<Graph, ParseError>)
    ensures
        (r is Ok) <==> (parse_graph(src@) is Ok),
        r matches Ok(g) ==> g.wf() && g.model() == parse_graph(src@)->Ok_0,
        r matches Err(e) ==> parse_graph(src@) == Err::<GraphModel, ParseError>(e),
{
    let mut g = Graph::new();
    g.add_node(Vector3::new(PLACEHOLDER_COORD, PLACEHOLDER_COORD, PLACEHOLDER_COORD));
    assert(g.model().0 =~= initial_model().0);
    assert(g.model().1 =~= initial_model().1);
    let ls = split_lines(src);
    let ghost all = views(ls@);
    let mut k: usize = 0;
    assert(all.subrange(0, 0) =~= Seq::<Seq<u8>>::empty());
    while k < ls.len()
        invariant
            all == views(ls@),
            all == lines(src@),
            k <= ls@.len(),
            g.wf(),
            parse_lines(all.subrange(0, k as int)) == Ok::<GraphModel, ParseError>(g.model()),
        decreases ls@.len() - k,
    {
        let words = split_words(&ls[k]);
        let ghost before = g.model();
        let ghost next = all.subrange(0, k + 1);
        assert(next.drop_last() =~= all.subrange(0, k as int));
        assert(next.last() == ls@[k as int]@);
        match apply_tokens(&mut g, &words) {
            Ok(()) => {},
            Err(e) => {
                proof {
                    lemma_parse_error_sticks(all, k + 1, e);
                }
                return Err(e);
            },
        }
        k += 1;
    }
    assert(all.subrange(0, k as int) =~= all);
    Ok(g)
}

} // verus!
