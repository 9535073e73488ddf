//! Support classes: `Source::getLocation`.

use vstd::prelude::*;
use crate::text::chars_of;

verus! {

/// `(terminators, column_start)` after walking `cs` from character `idx`
/// up to character `pos`: `\r\n`, `\r`, `\n`, U+2028 and U+2029 end a line
/// (a `\r\n` pair counts once; only characters before `pos` are read).
pub open spec fn walk_lines(cs: Seq<char>, pos: int, idx: int, terms: int, col_start: int) -> (
    int,
    int,
)
    decreases cs.len() - idx,
{
    if idx < 0 || idx >= pos || idx >= cs.len() {
        (terms, col_start)
    } else {
        let c = cs[idx];
        let next = idx + 1;
        if c == '\r' {
            if next < pos && next < cs.len() && cs[next] == '\n' {
                walk_lines(cs, pos, next + 1, terms + 1, next + 1)
            } else {
                walk_lines(cs, pos, next, terms + 1, next)
            }
        } else if c == '\n' || c == '\u{2028}' || c == '\u{2029}' {
            walk_lines(cs, pos, next, terms + 1, next)
        } else {
            walk_lines(cs, pos, next, terms, col_start)
        }
    }
}

/// `x` as an `i64`, or `i64::MAX` when it does not fit.
pub open spec fn sat_i64(x: int) -> i64 {
    if x > i64::MAX {
        i64::MAX
    } else {
        x as i64
    }
}

/// The 1-based `(line, column)` of character offset `position` (negative
/// offsets count as 0), as `Source::getLocation` computes them from the text
/// before the position. Values beyond `i64::MAX` saturate.
pub open spec fn line_column_spec(body: Seq<char>, position: i64) -> (i64, i64) {
    let pos: int = if position < 0 {
        0
    } else {
        position as int
    };
    let lim = if pos < body.len() {
        pos
    } else {
        body.len() as int
    };
    let w = walk_lines(body, lim, 0, 0, 0);
    (sat_i64(w.0 + 1), sat_i64(pos - w.1 + 1))
}

proof fn lemma_walk_bounds(cs: Seq<char>, pos: int, idx: int, terms: int, col_start: int)
    requires
        0 <= col_start <= idx <= pos,
        0 <= terms <= idx,
    ensures
        0 <= walk_lines(cs, pos, idx, terms, col_start).1 <= pos,
        0 <= walk_lines(cs, pos, idx, terms, col_start).0,
    decreases cs.len() - idx,
{
    if idx < pos && idx < cs.len() {
        let next = idx + 1;
        if cs[idx] == '\r' && next < pos && next < cs.len() && cs[next] == '\n' {
            lemma_walk_bounds(cs, pos, next + 1, terms + 1, next + 1);
        } else if cs[idx] == '\r' || cs[idx] == '\n' || cs[idx] == '\u{2028}' || cs[idx]
            == '\u{2029}' {
            lemma_walk_bounds(cs, pos, next, terms + 1, next);
        } else {
            lemma_walk_bounds(cs, pos, next, terms, col_start);
        }
    }
}

/// `Source::getLocation`: `position` is a **character** offset (as PHP's
/// `mb_substr` counts). Returns the 1-indexed (line, column).
pub fn compute_line_column(body: &str, position: i64) -> (r: (i64, i64))
    ensures
        r == line_column_spec(body@, position),
{
    let cs = chars_of(body);
    let n = cs.len();
    let position: i64 = if position < 0 {
        0
    } else {
        position
    };
    // Only the characters before the position are read.
    let lim: usize = if position as u64 >= n as u64 {
        n
    } else {
        position as usize
    };
    let mut terms: usize = 0;
    let mut col_start: usize = 0;  // character offset where the current line begins
    let mut idx: usize = 0;
    while idx < lim && idx < n
        invariant
            n == cs@.len(),
            idx <= n,
            col_start <= idx,
            idx <= lim,
            lim <= n,
            terms <= idx,
            walk_lines(cs@, lim as int, 0, 0, 0) == walk_lines(
                cs@,
                lim as int,
                idx as int,
                terms as int,
                col_start as int,
            ),
        decreases n - idx,
    {
        let c = cs[idx];
        idx += 1;
        if c == '\r' {
            terms += 1;
            if idx < lim && idx < n && cs[idx] == '\n' {
                idx += 1;
            }
            col_start = idx;
        } else if c == '\n' || c == '\u{2028}' || c == '\u{2029}' {
            terms += 1;
            col_start = idx;
        }
    }
    proof {
        lemma_walk_bounds(cs@, lim as int, idx as int, terms as int, col_start as int);
    }
    let line: i64 = if terms as u64 >= 0x7fff_ffff_ffff_ffffu64 {
        0x7fff_ffff_ffff_ffff
    } else {
        terms as i64 + 1
    };
    // `col_start <= lim <= position`.
    let span: u64 = position as u64 - col_start as u64;
    let column: i64 = if span >= 0x7fff_ffff_ffff_ffffu64 {
        0x7fff_ffff_ffff_ffff
    } else {
        span as i64 + 1
    };
    (line, column)
}

/// Lines and columns are 1-based: an offset of 0 or less is line 1,
/// column 1, and no position gives a line or a column below 1.
pub proof fn law_origin(body: Seq<char>, position: i64)
    ensures
        position <= 0 ==> line_column_spec(body, position) == (1i64, 1i64),
        line_column_spec(body, position).0 >= 1,
        line_column_spec(body, position).1 >= 1,
{
    let pos: int = if position < 0 {
        0
    } else {
        position as int
    };
    let lim = if pos < body.len() {
        pos
    } else {
        body.len() as int
    };
    lemma_walk_bounds(body, lim, 0, 0, 0);
}

} // verus!
