//! The contents of GraphQL string literals: escape sequences and block-string
//! indentation.

use vstd::prelude::*;
use crate::text::{
    char_from_u32, chars_of, ends_with, lemma_skip_while, lemma_utf8_len_take, push_chars, replace_all, skip_while, slice_chars, starts_with, str_byte_len, string_of, utf8_len, char_width, strip_end, trim_seq, trim_by, eq_lit,
};

verus! {

broadcast use vstd::seq_lib::group_seq_properties;

// --- escape sequences --------------------------------------------------------------

/// The value of a hexadecimal digit.
pub open spec fn hex_digit_value(c: char) -> Option<nat> {
    if '0' <= c && c <= '9' {
        Some((c as u32 - 48) as nat)
    } else if 'a' <= c && c <= 'f' {
        Some((c as u32 - 87) as nat)
    } else if 'A' <= c && c <= 'F' {
        Some((c as u32 - 55) as nat)
    } else {
        None
    }
}

/// The value of a run of hexadecimal digits (`Some(0)` for none).
pub open spec fn hex_fold(s: Seq<char>) -> Option<nat>
    decreases s.len(),
{
    if s.len() == 0 {
        Some(0)
    } else {
        match (hex_fold(s.drop_last()), hex_digit_value(s.last())) {
            (Some(v), Some(d)) => Some(v * 16 + d),
            _ => None,
        }
    }
}

/// `u32::from_str_radix(h, 16)`: an optional `+`, then at least one
/// hexadecimal digit and nothing else.
pub open spec fn parse_hex(h: Seq<char>) -> Option<nat> {
    let digits = if h.len() > 0 && h[0] == '+' {
        h.skip(1)
    } else {
        h
    };
    if digits.len() == 0 {
        None
    } else {
        hex_fold(digits)
    }
}

/// `char::from_u32`: the character with code `v`, if `v` is a Unicode scalar.
pub open spec fn scalar_char(v: nat) -> Option<char> {
    if v <= 0x10FFFF && !(0xD800 <= v <= 0xDFFF) {
        Some((v as u32) as char)
    } else {
        None
    }
}

/// A high (leading) surrogate code.
pub open spec fn is_high_surrogate(v: nat) -> bool {
    0xD800 <= v <= 0xDBFF
}

/// The low (trailing) surrogate escaped at `s[j..j + 6]` (`\uXXXX`), if any.
pub open spec fn low_surrogate_at(s: Seq<char>, j: int) -> Option<nat> {
    if 0 <= j && j + 6 <= s.len() && s[j] == '\\' && s[j + 1] == 'u' {
        match parse_hex(s.subrange(j + 2, j + 6)) {
            Some(lo) => if 0xDC00 <= lo <= 0xDFFF {
                Some(lo)
            } else {
                None
            },
            None => None,
        }
    } else {
        None
    }
}

/// The code point of a surrogate pair.
pub open spec fn pair_code(hi: nat, lo: nat) -> nat {
    (0x10000 + (hi - 0xD800) * 0x400 + (lo - 0xDC00)) as nat
}

/// The decoding of `s[i..]`: GraphQL escapes `\"`, `\\`, `\/`, `\b`, `\f`,
/// `\n`, `\r`, `\t` and `\uXXXX` (up to four characters are taken after
/// `\u`). An escaped high surrogate followed by an escaped low surrogate is
/// the one character of the pair; a surrogate that is not part of a pair,
/// and characters after `\u` that are not hexadecimal, are dropped. Any other escape is kept as it stands, and a trailing `\` stays.
pub open spec fn unescape_rest(s: Seq<char>, i: int) -> Seq<char>
    decreases s.len() - i,
{
    if i < 0 || i >= s.len() {
        seq![]
    } else if s[i] != '\\' {
        seq![s[i]] + unescape_rest(s, i + 1)
    } else if i + 1 >= s.len() {
        seq!['\\']
    } else {
        let e = s[i + 1];
        if e == '"' {
            seq!['"'] + unescape_rest(s, i + 2)
        } else if e == '\\' {
            seq!['\\'] + unescape_rest(s, i + 2)
        } else if e == '/' {
            seq!['/'] + unescape_rest(s, i + 2)
        } else if e == 'b' {
            seq!['\u{0008}'] + unescape_rest(s, i + 2)
        } else if e == 'f' {
            seq!['\u{000C}'] + unescape_rest(s, i + 2)
        } else if e == 'n' {
            seq!['\n'] + unescape_rest(s, i + 2)
        } else if e == 'r' {
            seq!['\r'] + unescape_rest(s, i + 2)
        } else if e == 't' {
            seq!['\t'] + unescape_rest(s, i + 2)
        } else if e == 'u' {
            let end = if i + 6 < s.len() {
                i + 6
            } else {
                s.len() as int
            };
            let tail = unescape_rest(s, end);
            match parse_hex(s.subrange(i + 2, end)) {
                Some(v) => if is_high_surrogate(v) && low_surrogate_at(s, end) is Some {
                    match scalar_char(pair_code(v, low_surrogate_at(s, end)->0)) {
                        Some(c) => seq![c] + unescape_rest(s, end + 6),
                        None => unescape_rest(s, end + 6),
                    }
                } else {
                    match scalar_char(v) {
                        Some(c) => seq![c] + tail,
                        None => tail,
                    }
                },
                None => tail,
            }
        } else {
            seq!['\\', e] + unescape_rest(s, i + 2)
        }
    }
}

pub open spec fn unescape(s: Seq<char>) -> Seq<char> {
    unescape_rest(s, 0)
}

fn hex_digit(c: char) -> (r: Option<u32>)
    ensures
        match r {
            Some(d) => hex_digit_value(c) == Some(d as nat) && d < 16,
            None => hex_digit_value(c) is None,
        },
{
    if '0' <= c && c <= '9' {
        Some(c as u32 - 48)
    } else if 'a' <= c && c <= 'f' {
        Some(c as u32 - 87)
    } else if 'A' <= c && c <= 'F' {
        Some(c as u32 - 55)
    } else {
        None
    }
}

/// `u32::from_str_radix(h, 16)` for at most four characters.
fn parse_hex_chars(h: &Vec<char>) -> (r: Option<u32>)
    requires
        h@.len() <= 4,
    ensures
        match r {
            Some(v) => parse_hex(h@) == Some(v as nat),
            None => parse_hex(h@) is None,
        },
{
    let start: usize = if h.len() > 0 && h[0] == '+' {
        1
    } else {
        0
    };
    let ghost digits = if h@.len() > 0 && h@[0] == '+' {
        h@.skip(1)
    } else {
        h@
    };
    assert(digits =~= h@.subrange(start as int, h@.len() as int));
    if start == h.len() {
        return None;
    }
    assert(parse_hex(h@) == hex_fold(digits));
    let mut v: u32 = 0;
    let mut i = start;
    assert(digits.take(0) =~= Seq::<char>::empty());
    while i < h.len()
        invariant
            start <= i <= h@.len() <= 4,
            start <= 1,
            digits =~= h@.subrange(start as int, h@.len() as int),
            parse_hex(h@) == hex_fold(digits),
            hex_fold(digits.take(i - start)) == Some(v as nat),
            i - start <= 1 ==> v < 16,
            i - start <= 2 ==> v < 256,
            i - start <= 3 ==> v < 4096,
            v < 65536,
        decreases h@.len() - i,
    {
        let ghost k = i - start;
        assert(digits.take(k + 1).drop_last() =~= digits.take(k));
        assert(digits.take(k + 1).last() == h@[i as int]);
        match hex_digit(h[i]) {
            Some(d) => {
                v = v * 16 + d;
            },
            None => {
                assert(hex_fold(digits.take(k + 1)) is None);
                proof {
                    lemma_hex_fold_none_extends(digits, k + 1);
                }
                return None;
            },
        }
        i += 1;
    }
    assert(digits.take(h@.len() - start) =~= digits);
    Some(v)
}

proof fn lemma_hex_fold_none_extends(s: Seq<char>, k: int)
    requires
        0 <= k <= s.len(),
        hex_fold(s.take(k)) is None,
    ensures
        hex_fold(s) is None,
    decreases s.len() - k,
{
    if k < s.len() {
        assert(s.take(k + 1).drop_last() =~= s.take(k));
        lemma_hex_fold_none_extends(s, k + 1);
    } else {
        assert(s.take(k) =~= s);
    }
}

/// The low surrogate escaped at `s[j..j + 6]`, if any.
fn low_surrogate(s: &Vec<char>, j: usize) -> (r: Option<u32>)
    ensures
        match r {
            Some(lo) => low_surrogate_at(s@, j as int) == Some(lo as nat),
            None => low_surrogate_at(s@, j as int) is None,
        },
{
    if j > s.len() || s.len() - j < 6 || s[j] != '\\' || s[j + 1] != 'u' {
        return None;
    }
    let hex = slice_chars(s, j + 2, j + 6);
    match parse_hex_chars(&hex) {
        Some(lo) => if 0xDC00 <= lo && lo <= 0xDFFF {
            Some(lo)
        } else {
            None
        },
        None => None,
    }
}

#[verifier::spinoff_prover]
#[verifier::rlimit(60)]
fn decode_escapes_chars(s: &Vec<char>) -> (r: Vec<char>)
    ensures
        r@ == unescape(s@),
{
    let n = s.len();
    let mut out: Vec<char> = Vec::new();
    let mut i: usize = 0;
    while i < n
        invariant
            n == s@.len(),
            i <= n,
            unescape(s@) == out@ + unescape_rest(s@, i as int),
        decreases n - i,
    {
        let c = s[i];
        if c != '\\' {
            out.push(c);
            i += 1;
            continue;
        }
        if i + 1 >= n {
            out.push('\\');
            i = n;
            continue;
        }
        let e = s[i + 1];
        if e == '"' {
            out.push('"');
        } else if e == '\\' {
            out.push('\\');
        } else if e == '/' {
            out.push('/');
        } else if e == 'b' {
            out.push('\u{0008}');
        } else if e == 'f' {
            out.push('\u{000C}');
        } else if e == 'n' {
            out.push('\n');
        } else if e == 'r' {
            out.push('\r');
        } else if e == 't' {
            out.push('\t');
        } else if e == 'u' {
            // Up to four characters after `\u`.
            let end = if n - i > 6 {
                i + 6
            } else {
                n
            };
            let hex = slice_chars(s, i + 2, end);
            if let Some(code) = parse_hex_chars(&hex) {
                if 0xD800 <= code && code <= 0xDBFF {
                    if let Some(lo) = low_surrogate(s, end) {
                        let cp = 0x10000 + (code - 0xD800) * 0x400 + (lo - 0xDC00);
                        assert(cp as nat == pair_code(code as nat, lo as nat));
                        if let Some(ch) = char_from_u32(cp) {
                            proof {
                                vstd::utf8::char_u32_cast(ch, cp);
                            }
                            out.push(ch);
                        }
                        i = end + 6;
                        continue;
                    }
                }
                match char_from_u32(code) {
                    Some(ch) => {
                        proof {
                            vstd::utf8::char_u32_cast(ch, code);
                        }
                        out.push(ch);
                    },
                    None => {},
                }
            }
            i = end;
            continue;
        } else {
            out.push('\\');
            out.push(e);
        }
        i += 2;
    }
    out
}

/// Apply the GraphQL escape rules to the inside of a `"…"` literal.
pub fn decode_escapes(s: &str) -> (r: String)
    ensures
        r@ == unescape(s@),
{
    string_of(&decode_escapes_chars(&chars_of(s)))
}

// --- block strings -------------------------------------------------------------------

/// Block-string indentation: ASCII whitespace within a line (space, tab,
/// vertical tab, form feed, carriage return).
pub open spec fn is_indent_char(c: char) -> bool {
    c == ' ' || c == '\t' || c == '\u{0B}' || c == '\u{0C}' || c == '\r'
}

pub open spec fn white() -> spec_fn(char) -> bool {
    |c: char| is_indent_char(c)
}

/// `str::split('\n')`: the lines of `s`, at least one.
pub open spec fn split_lines(s: Seq<char>) -> Seq<Seq<char>>
    decreases s.len(),
{
    if s.len() == 0 {
        seq![seq![]]
    } else {
        let p = split_lines(s.drop_last());
        if s.last() == '\n' {
            p.push(seq![])
        } else {
            p.update(p.len() - 1, p.last().push(s.last()))
        }
    }
}

pub proof fn lemma_split_lines_len(s: Seq<char>)
    ensures
        split_lines(s).len() >= 1,
    decreases s.len(),
{
    if s.len() > 0 {
        lemma_split_lines_len(s.drop_last());
    }
}

/// `lines.join("\n")`.
pub open spec fn join_lines(ls: Seq<Seq<char>>) -> Seq<char>
    decreases ls.len(),
{
    if ls.len() == 0 {
        seq![]
    } else if ls.len() == 1 {
        ls[0]
    } else {
        join_lines(ls.drop_last()) + seq!['\n'] + ls.last()
    }
}

/// Number of leading whitespace characters of a line.
pub open spec fn lead_ws(l: Seq<char>) -> int {
    skip_while(l, white(), 0)
}

/// A line of whitespace only.
pub open spec fn is_blank_line(l: Seq<char>) -> bool {
    lead_ws(l) == l.len()
}

pub open spec fn blank_pred() -> spec_fn(Seq<char>) -> bool {
    |l: Seq<char>| is_blank_line(l)
}

/// The indentation of a line: its leading whitespace (one byte each).
pub open spec fn indent_of(l: Seq<char>) -> nat {
    lead_ws(l) as nat
}

/// The least indentation among the non-blank lines `lines[1..k]`.
pub open spec fn common_indent(lines: Seq<Seq<char>>, k: int) -> Option<nat>
    decreases k,
{
    if k <= 1 {
        None
    } else {
        let c = common_indent(lines, k - 1);
        let l = lines[k - 1];
        if is_blank_line(l) {
            c
        } else {
            match c {
                None => Some(indent_of(l)),
                Some(m) => Some(
                    if indent_of(l) < m {
                        indent_of(l)
                    } else {
                        m
                    },
                ),
            }
        }
    }
}

/// The amount by which the block string is dedented.
pub open spec fn dedent_amount(lines: Seq<Seq<char>>) -> nat {
    match common_indent(lines, lines.len() as int) {
        Some(c) => c,
        None => 0,
    }
}

/// Line `i` after removing `d` bytes of indentation (the first line keeps
/// its own, and a line shorter than `d` bytes is kept). Every other line
/// starts with `d` whitespace characters, so the cut takes `d` characters.
pub open spec fn map_line(l: Seq<char>, i: int, d: nat) -> Seq<char> {
    if i == 0 || d == 0 || utf8_len(l) < d {
        l
    } else {
        l.skip(d as int)
    }
}

/// Block-string dedent: the lines are split at `\n`; the common indentation
/// (ASCII whitespace) of the non-blank lines after the first is removed from
/// every line after the first, then leading and trailing blank lines
/// (whitespace only) are dropped and the lines joined with `\n`.
pub open spec fn dedent_spec(s: Seq<char>) -> Seq<char> {
    let lines = split_lines(s);
    let d = dedent_amount(lines);
    let mapped = Seq::new(lines.len(), |i: int| map_line(lines[i], i, d));
    let lo = skip_while(mapped, blank_pred(), 0);
    join_lines(strip_end(mapped.subrange(lo, mapped.len() as int), blank_pred()))
}

pub open spec fn lines_view(v: Seq<Vec<char>>) -> Seq<Seq<char>> {
    v.map_values(|l: Vec<char>| l@)
}

fn split_into_lines(cs: &Vec<char>, total: usize) -> (r: Vec<Vec<char>>)
    requires
        total == utf8_len(cs@),
    ensures
        lines_view(r@) == split_lines(cs@),
        forall|k: int| 0 <= k < r@.len() ==> utf8_len(#[trigger] r@[k]@) <= total,
{
    let n = cs.len();
    let mut lines: Vec<Vec<char>> = Vec::new();
    let mut cur: Vec<char> = Vec::new();
    let mut i: usize = 0;
    assert(cs@.take(0) =~= Seq::<char>::empty());
    assert(lines_view(lines@).push(cur@) =~= seq![seq![]]);
    while i < n
        invariant
            n == cs@.len(),
            i <= n,
            total == utf8_len(cs@),
            split_lines(cs@.take(i as int)) == lines_view(lines@).push(cur@),
            utf8_len(cur@) <= utf8_len(cs@.take(i as int)),
            utf8_len(cs@.take(i as int)) <= total,
            forall|k: int| 0 <= k < lines@.len() ==> utf8_len(#[trigger] lines@[k]@) <= total,
        decreases n - i,
    {
        let c = cs[i];
        assert(cs@.take(i + 1).drop_last() =~= cs@.take(i as int));
        assert(cs@.take(i + 1).last() == c);
        proof {
            lemma_utf8_len_take(cs@, i + 1);
        }
        if c == '\n' {
            let line = cur;
            cur = Vec::new();
            let ghost before = lines_view(lines@);
            lines.push(line);
            assert(lines_view(lines@) =~= before.push(line@));
        } else {
            let ghost before = lines_view(lines@);
            let ghost oc = cur@;
            cur.push(c);
            assert(cur@.drop_last() =~= oc);
            assert(cur@ == oc.push(c));
            assert(before.push(oc).update(before.len() as int, oc.push(c)) =~= before.push(cur@));
            assert(before.push(oc).last() == oc);
        }
        i += 1;
    }
    assert(cs@.take(n as int) =~= cs@);
    let ghost before = lines_view(lines@);
    lines.push(cur);
    assert(lines_view(lines@) =~= before.push(cur@));
    lines
}

fn is_indent(c: char) -> (r: bool)
    ensures
        r == is_indent_char(c),
{
    c == ' ' || c == '\t' || c == '\u{0B}' || c == '\u{0C}' || c == '\r'
}

/// (leading whitespace characters, byte length) of a line.
fn measure_line(l: &Vec<char>) -> (r: (usize, usize))
    requires
        utf8_len(l@) <= usize::MAX,
    ensures
        r.0 == lead_ws(l@),
        r.1 == utf8_len(l@),
{
    let n = l.len();
    let mut i: usize = 0;
    let mut bytes: usize = 0;
    let mut lead: usize = 0;
    let mut in_lead = true;
    assert(l@.take(0) =~= Seq::<char>::empty());
    while i < n
        invariant
            n == l@.len(),
            i <= n,
            utf8_len(l@) <= usize::MAX,
            bytes == utf8_len(l@.take(i as int)),
            in_lead ==> lead == i && skip_while(l@, white(), 0) == skip_while(
                l@,
                white(),
                i as int,
            ),
            !in_lead ==> lead == skip_while(l@, white(), 0) && lead < i,
        decreases n - i,
    {
        proof {
            lemma_utf8_len_take(l@, i + 1);
            assert(l@.take(i + 1).drop_last() =~= l@.take(i as int));
        }
        let w = char_width(l[i]);
        if in_lead {
            if is_indent(l[i]) {
                lead = i + 1;
            } else {
                in_lead = false;
            }
        }
        bytes = bytes + w;
        i += 1;
    }
    proof {
        assert(l@.take(n as int) =~= l@);
        if in_lead {
            lemma_skip_while(l@, white(), n as int);
        }
    }
    (lead, bytes)
}

/// A line of ASCII whitespace has one byte per character.
proof fn lemma_blank_ascii(l: Seq<char>)
    requires
        is_blank_line(l),
    ensures
        utf8_len(l) == l.len(),
{
    lemma_skip_while(l, white(), 0);
    assert forall|k: int| 0 <= k < l.len() implies (l[k] as u32) < 0x80 by {
        assert(is_indent_char(l[k]));
    }
    lemma_ascii_len(l);
}

/// The common indentation is at most the indentation of every non-blank line
/// it was taken over.
proof fn lemma_common_le(lines: Seq<Seq<char>>, k: int, q: int)
    requires
        1 <= q < k <= lines.len(),
        !is_blank_line(lines[q]),
    ensures
        common_indent(lines, k) matches Some(c) && c <= indent_of(lines[q]),
    decreases k,
{
    if q < k - 1 {
        lemma_common_le(lines, k - 1, q);
    }
}

/// The common indentation of the non-blank lines after the first, 0 when
/// there are none.
fn common_dedent(lines: &Vec<Vec<char>>, total: usize) -> (r: usize)
    requires
        lines@.len() >= 1,
        forall|q: int| 0 <= q < lines@.len() ==> utf8_len(#[trigger] lines@[q]@) <= total,
    ensures
        r as nat == dedent_amount(lines_view(lines@)),
{
    let ghost lv = lines_view(lines@);
    let n = lines.len();
    // The common indentation of the non-blank lines after the first.
    let mut common: Option<usize> = None;
    let mut k: usize = 1;
    while k < n
        invariant
            n == lines@.len(),
            1 <= k <= n,
            lv == lines_view(lines@),
            forall|q: int| 0 <= q < lines@.len() ==> utf8_len(#[trigger] lines@[q]@) <= total,
            match common {
                Some(c) => common_indent(lv, k as int) == Some(c as nat),
                None => common_indent(lv, k as int) is None,
            },
        decreases n - k,
    {
        assert(lv[k as int] == lines@[k as int]@);
        let (lead, _len) = measure_line(&lines[k]);
        let indent = lead;
        if lead != lines[k].len() {
            common = match common {
                None => Some(indent),
                Some(c) => Some(
                    if indent < c {
                        indent
                    } else {
                        c
                    },
                ),
            };
        }
        k += 1;
    }
    match common {
        Some(c) => c,
        None => 0,
    }
}

/// Minimal BlockString dedent, following the graphql-js rules for the
/// common cases.
pub fn dedent_block(s: &str) -> (r: String)
    ensures
        r@ == dedent_spec(s@),
{
    let total = str_byte_len(s);
    let cs = chars_of(s);
    let lines = split_into_lines(&cs, total);
    let ghost lv = lines_view(lines@);
    proof {
        lemma_split_lines_len(cs@);
    }
    let n = lines.len();
    let dedent = common_dedent(&lines, total);
    assert(dedent as nat == dedent_amount(lv));
    // Dedent every line after the first.
    let mut mapped: Vec<Vec<char>> = Vec::new();
    let mut i: usize = 0;
    while i < n
        invariant
            n == lines@.len(),
            i <= n,
            lv == lines_view(lines@),
            dedent as nat == dedent_amount(lv),
            lv == split_lines(cs@),
            forall|q: int| 0 <= q < lines@.len() ==> utf8_len(#[trigger] lines@[q]@) <= total,
            mapped@.len() == i,
            forall|q: int|
                0 <= q < i ==> (#[trigger] mapped@[q])@ == map_line(lv[q], q, dedent as nat),
        decreases n - i,
    {
        assert(lv[i as int] == lines@[i as int]@);
        let (lead, len) = measure_line(&lines[i]);
        let line = if i == 0 || dedent == 0 || len < dedent {
            slice_chars(&lines[i], 0, lines[i].len())
        } else {
            proof {
                // A blank line has one byte per character; a non-blank one
                // is indented at least by the common indentation.
                lemma_skip_while(lv[i as int], white(), 0);
                if is_blank_line(lv[i as int]) {
                    lemma_blank_ascii(lv[i as int]);
                } else {
                    lemma_common_le(lv, lv.len() as int, i as int);
                    assert(dedent <= lead);
                }
                assert(dedent <= lines@[i as int]@.len());
            }
            let cut = slice_chars(&lines[i], dedent, lines[i].len());
            assert(cut@ =~= lv[i as int].skip(dedent as int));
            cut
        };
        proof {
            assert(lines@[i as int]@.subrange(0, lines@[i as int]@.len() as int) =~= lines@[i as int]@);
        }
        mapped.push(line);
        i += 1;
    }
    let ghost mv = Seq::new(lv.len(), |q: int| map_line(lv[q], q, dedent as nat));
    assert(lines_view(mapped@) =~= mv);
    // Drop leading and trailing blank lines.
    let mut lo: usize = 0;
    while lo < n && measure_line_blank(&mapped[lo])
        invariant
            n == mapped@.len(),
            lo <= n,
            lines_view(mapped@) == mv,
            skip_while(mv, blank_pred(), 0) == skip_while(mv, blank_pred(), lo as int),
        decreases n - lo,
    {
        lo += 1;
    }
    proof {
        lemma_skip_while(mv, blank_pred(), lo as int);
    }
    let mut hi: usize = n;
    while hi > lo && measure_line_blank(&mapped[hi - 1])
        invariant
            n == mapped@.len(),
            lo <= hi <= n,
            lines_view(mapped@) == mv,
            strip_end(mv.subrange(lo as int, n as int), blank_pred()) == strip_end(
                mv.subrange(lo as int, hi as int),
                blank_pred(),
            ),
        decreases hi,
    {
        assert(mv.subrange(lo as int, hi as int).drop_last() =~= mv.subrange(lo as int, hi - 1));
        hi -= 1;
    }
    proof {
        assert(hi > lo ==> !is_blank_line(mv[hi - 1]));
        assert(strip_end(mv.subrange(lo as int, hi as int), blank_pred()) == mv.subrange(
            lo as int,
            hi as int,
        ));
    }
    // Join with `\n`.
    let mut out: Vec<char> = Vec::new();
    let mut q = lo;
    while q < hi
        invariant
            lo <= q <= hi <= n,
            n == mapped@.len(),
            lines_view(mapped@) == mv,
            out@ == join_lines(mv.subrange(lo as int, q as int)),
        decreases hi - q,
    {
        if q > lo {
            out.push('\n');
        }
        push_chars(&mut out, &mapped[q]);
        assert(mv[q as int] == mapped@[q as int]@);
        assert(mv.subrange(lo as int, q + 1).drop_last() =~= mv.subrange(lo as int, q as int));
        q += 1;
    }
    string_of(&out)
}

/// Whether a line is whitespace only.
fn measure_line_blank(l: &Vec<char>) -> (r: bool)
    ensures
        r == is_blank_line(l@),
{
    let mut i: usize = 0;
    while i < l.len() && is_indent(l[i])
        invariant
            i <= l@.len(),
            skip_while(l@, white(), 0) == skip_while(l@, white(), i as int),
        decreases l@.len() - i,
    {
        i += 1;
    }
    proof {
        lemma_skip_while(l@, white(), i as int);
    }
    i == l.len()
}

// --- string literals ---------------------------------------------------------------

pub open spec fn triple_quote() -> Seq<char> {
    seq!['"', '"', '"']
}

/// `\"""`, the one escape of a block string.
pub open spec fn escaped_triple_quote() -> Seq<char> {
    seq!['\\', '"', '"', '"']
}

/// A block string literal: `"""…"""`, at least six bytes.
pub open spec fn is_block_literal(raw: Seq<char>) -> bool {
    starts_with(raw, triple_quote()) && ends_with(raw, triple_quote()) && utf8_len(raw) >= 6
}

/// A quoted literal: `"…"`, at least two bytes.
pub open spec fn is_quoted_literal(raw: Seq<char>) -> bool {
    starts_with(raw, seq!['"']) && ends_with(raw, seq!['"']) && utf8_len(raw) >= 2
}

/// The inside of a block string with `\"""` turned into `"""`.
pub open spec fn block_body(raw: Seq<char>) -> Seq<char> {
    replace_all(raw.subrange(3, raw.len() - 3), escaped_triple_quote(), triple_quote())
}

/// The value of a string literal and whether it is a block string.
pub open spec fn string_value_spec(raw: Seq<char>) -> (Seq<char>, bool) {
    if is_block_literal(raw) {
        (dedent_spec(block_body(raw)), true)
    } else if is_quoted_literal(raw) {
        (unescape(raw.subrange(1, raw.len() - 1)), false)
    } else {
        (raw, false)
    }
}

proof fn lemma_ascii_len(s: Seq<char>)
    requires
        forall|k: int| 0 <= k < s.len() ==> (s[k] as u32) < 0x80,
    ensures
        utf8_len(s) == s.len(),
    decreases s.len(),
{
    if s.len() > 0 {
        lemma_ascii_len(s.drop_last());
    }
}

fn triple_quote_chars() -> (v: Vec<char>)
    ensures
        v@ == triple_quote(),
{
    let v = vec!['"', '"', '"'];
    assert(v@ =~= triple_quote());
    v
}

fn ends_with_chars(v: &Vec<char>, pat: &Vec<char>) -> (r: bool)
    ensures
        r == ends_with(v@, pat@),
{
    if pat.len() > v.len() {
        return false;
    }
    let r = crate::text::chars_match_at(v, v.len() - pat.len(), pat);
    proof {
        if r {
            assert(v@.subrange(v@.len() - pat@.len(), v@.len() as int) == pat@);
        }
    }
    r
}

fn block_inner(cs: &Vec<char>) -> (r: Vec<char>)
    requires
        is_block_literal(cs@),
    ensures
        r@ == block_body(cs@),
{
    proof {
        if cs@.len() < 6 {
            assert(cs@.subrange(0, 3) == triple_quote());
            assert(cs@.subrange(cs@.len() - 3, cs@.len() as int) == triple_quote());
            assert forall|k: int| 0 <= k < cs@.len() implies (cs@[k] as u32) < 0x80 by {
                if k < 3 {
                    assert(cs@.subrange(0, 3)[k] == '"');
                } else {
                    assert(cs@.subrange(cs@.len() - 3, cs@.len() as int)[k - (cs@.len() - 3)]
                        == '"');
                }
            }
            lemma_ascii_len(cs@);
        }
    }
    let inner = slice_chars(cs, 3, cs.len() - 3);
    let esc = vec!['\\', '"', '"', '"'];
    assert(esc@ =~= escaped_triple_quote());
    replace_chars(&inner, &esc, &triple_quote_chars())
}

/// `str::replace` over character vectors; `from` must not be empty.
fn replace_chars(v: &Vec<char>, from: &Vec<char>, to: &Vec<char>) -> (r: Vec<char>)
    requires
        from@.len() > 0,
    ensures
        r@ == replace_all(v@, from@, to@),
{
    let mut out: Vec<char> = Vec::new();
    let mut i: usize = 0;
    while i < v.len()
        invariant
            i <= v.len(),
            from@.len() > 0,
            replace_all(v@, from@, to@) == out@ + replace_all(v@.skip(i as int), from@, to@),
        decreases v.len() - i,
    {
        let ghost rest = v@.skip(i as int);
        if crate::text::chars_match_at(v, i, from) {
            assert(rest.subrange(0, from@.len() as int) =~= v@.subrange(i as int, i + from@.len()));
            assert(rest.skip(from@.len() as int) =~= v@.skip(i + from@.len()));
            push_chars(&mut out, to);
            i = i + from.len();
        } else {
            assert(!starts_with(rest, from@)) by {
                if from@.len() <= rest.len() {
                    assert(rest.subrange(0, from@.len() as int) =~= v@.subrange(
                        i as int,
                        i + from@.len(),
                    ));
                }
            }
            assert(rest.skip(1) =~= v@.skip(i + 1));
            out.push(v[i]);
            i = i + 1;
        }
    }
    assert(v@.skip(i as int) =~= Seq::<char>::empty());
    out
}

/// Whether the literal is a block string (`"""…"""`, six bytes or more).
fn block_literal(cs: &Vec<char>, byte_len: usize) -> (r: bool)
    requires
        byte_len == utf8_len(cs@),
    ensures
        r == is_block_literal(cs@),
{
    let q = triple_quote_chars();
    crate::text::chars_match_at(cs, 0, &q) && ends_with_chars(cs, &q) && byte_len >= 6
}

/// Whether the literal is a quoted string (`"…"`, two bytes or more).
fn quoted_literal(cs: &Vec<char>, byte_len: usize) -> (r: bool)
    requires
        byte_len == utf8_len(cs@),
    ensures
        r == is_quoted_literal(cs@),
{
    let q = vec!['"'];
    assert(q@ =~= seq!['"']);
    crate::text::chars_match_at(cs, 0, &q) && ends_with_chars(cs, &q) && byte_len >= 2
}

fn quoted_inner(cs: &Vec<char>) -> (r: Vec<char>)
    requires
        is_quoted_literal(cs@),
    ensures
        r@ == cs@.subrange(1, cs@.len() - 1),
{
    proof {
        if cs@.len() < 2 {
            assert(cs@.subrange(0, 1)[0] == '"');
            lemma_ascii_len(cs@);
        }
    }
    slice_chars(cs, 1, cs.len() - 1)
}

/// Extract the contents of a string literal from its source text: strip the
/// surrounding quotes and apply the escape rules (block strings: `\"""` and
/// dedent). The flag tells whether it is a block string.
pub fn decode_string_value(raw: &str) -> (r: (String, bool))
    ensures
        (r.0@, r.1) == string_value_spec(raw@),
{
    let byte_len = str_byte_len(raw);
    let cs = chars_of(raw);
    if block_literal(&cs, byte_len) {
        // Block string: strip the outer `"""`, apply the lone escape
        // `\"""` ⇒ `"""`, then dedent.
        let body = string_of(&block_inner(&cs));
        (dedent_block(body.as_str()), true)
    } else if quoted_literal(&cs, byte_len) {
        (decode_escapes(string_of(&quoted_inner(&cs)).as_str()), false)
    } else {
        (string_of(&cs), false)
    }
}

/// The value of a `"…"` token: the inside with escapes decoded; text that is
/// not such a literal is kept.
pub open spec fn simple_token_spec(raw: Seq<char>) -> Seq<char> {
    if is_quoted_literal(raw) {
        unescape(raw.subrange(1, raw.len() - 1))
    } else {
        raw
    }
}

/// The value of a `"""…"""` token; text that is not such a literal is kept.
pub open spec fn block_token_spec(raw: Seq<char>) -> Seq<char> {
    if is_block_literal(raw) {
        dedent_spec(block_body(raw))
    } else {
        raw
    }
}

pub fn strip_simple_string(raw: &str) -> (r: String)
    ensures
        r@ == simple_token_spec(raw@),
{
    let byte_len = str_byte_len(raw);
    let cs = chars_of(raw);
    if !quoted_literal(&cs, byte_len) {
        return string_of(&cs);
    }
    decode_escapes(string_of(&quoted_inner(&cs)).as_str())
}

pub fn strip_block_string(raw: &str) -> (r: String)
    ensures
        r@ == block_token_spec(raw@),
{
    let byte_len = str_byte_len(raw);
    let cs = chars_of(raw);
    if !block_literal(&cs, byte_len) {
        return string_of(&cs);
    }
    let body = string_of(&block_inner(&cs));
    dedent_block(body.as_str())
}

/// The token chain and the AST agree on the value of a string literal: a
/// block literal gets the same value from `strip_block_string` as from
/// `decode_string_value`, and a literal that does not start with `"""` gets
/// the same value from `strip_simple_string`.
pub proof fn law_token_value_agrees(raw: Seq<char>)
    ensures
        is_block_literal(raw) ==> block_token_spec(raw) == string_value_spec(raw).0,
        !starts_with(raw, triple_quote()) ==> simple_token_spec(raw) == string_value_spec(raw).0,
{
}

/// `BooleanValue`: `true` when the literal text, trimmed, is `true`.
pub open spec fn boolean_spec(text: Seq<char>) -> bool {
    trim_seq(text) == "true"@
}

pub fn boolean_literal_value(text: &str) -> (r: bool)
    ensures
        r == boolean_spec(text@),
{
    eq_lit(&trim_by(&chars_of(text), false), "true")
}

proof fn lemma_unescape_plain_from(s: Seq<char>, i: int)
    requires
        0 <= i <= s.len(),
        forall|k: int| 0 <= k < s.len() ==> s[k] != '\\',
    ensures
        unescape_rest(s, i) == s.subrange(i, s.len() as int),
    decreases s.len() - i,
{
    if i < s.len() {
        lemma_unescape_plain_from(s, i + 1);
        assert(s.subrange(i, s.len() as int) =~= seq![s[i]] + s.subrange(i + 1, s.len() as int));
    } else {
        assert(s.subrange(i, s.len() as int) =~= Seq::<char>::empty());
    }
}

/// Text without a backslash is its own decoding.
pub proof fn law_unescape_plain(s: Seq<char>)
    requires
        forall|k: int| 0 <= k < s.len() ==> s[k] != '\\',
    ensures
        unescape(s) == s,
{
    lemma_unescape_plain_from(s, 0);
    assert(s.subrange(0, s.len() as int) =~= s);
}

proof fn lemma_split_single(s: Seq<char>)
    requires
        forall|k: int| 0 <= k < s.len() ==> s[k] != '\n',
    ensures
        split_lines(s) == seq![s],
    decreases s.len(),
{
    if s.len() > 0 {
        lemma_split_single(s.drop_last());
        assert(s.drop_last().push(s.last()) =~= s);
        assert(seq![s.drop_last()].update(0, s.drop_last().push(s.last())) =~= seq![s]);
    } else {
        assert(s =~= Seq::<char>::empty());
    }
}

/// A block string of one line that is not blank keeps that line as it is.
pub proof fn law_dedent_single_line(s: Seq<char>)
    requires
        forall|k: int| 0 <= k < s.len() ==> s[k] != '\n',
        !is_blank_line(s),
    ensures
        dedent_spec(s) == s,
{
    lemma_split_single(s);
    let lines = split_lines(s);
    assert(dedent_amount(lines) == 0);
    let mapped = Seq::new(lines.len(), |i: int| map_line(lines[i], i, 0));
    assert(mapped =~= seq![s]);
    assert(skip_while(mapped, blank_pred(), 0) == 0);
    assert(mapped.subrange(0, 1) =~= seq![s]);
    assert(strip_end(seq![s], blank_pred()) == seq![s]);
}

/// A line holds no `\n`.
spec fn no_newline(l: Seq<char>) -> bool {
    forall|k: int| 0 <= k < l.len() ==> l[k] != '\n'
}

proof fn lemma_split_lines_no_newline(s: Seq<char>)
    ensures
        forall|i: int| 0 <= i < split_lines(s).len() ==> no_newline(#[trigger] split_lines(s)[i]),
    decreases s.len(),
{
    if s.len() > 0 {
        let p = split_lines(s.drop_last());
        lemma_split_lines_no_newline(s.drop_last());
        lemma_split_lines_len(s.drop_last());
        if s.last() != '\n' {
            assert(no_newline(p.last()));
            assert(no_newline(p.last().push(s.last())));
        } else {
            assert(no_newline(Seq::<char>::empty()));
        }
    }
}

/// Text without `\n` extends the last line.
proof fn lemma_split_tail(a: Seq<char>, b: Seq<char>)
    requires
        no_newline(b),
    ensures
        split_lines(a + b) == split_lines(a).update(
            split_lines(a).len() - 1,
            split_lines(a).last() + b,
        ),
    decreases b.len(),
{
    lemma_split_lines_len(a);
    let q = split_lines(a);
    if b.len() == 0 {
        assert(a + b =~= a);
        assert(q.last() + b =~= q.last());
        assert(q.update(q.len() - 1, q.last() + b) =~= q);
    } else {
        let bd = b.drop_last();
        assert(no_newline(bd));
        lemma_split_tail(a, bd);
        assert((a + b).drop_last() =~= a + bd);
        assert((a + b).last() == b.last());
        assert(b.last() != '\n');
        assert((q.last() + bd).push(b.last()) =~= q.last() + b);
        assert(q.update(q.len() - 1, q.last() + bd).update(q.len() - 1, q.last() + b) =~= q.update(
            q.len() - 1,
            q.last() + b,
        ));
    }
}

/// Splitting joined lines without `\n` gives the lines back.
proof fn lemma_split_join(ls: Seq<Seq<char>>)
    requires
        ls.len() >= 1,
        forall|i: int| 0 <= i < ls.len() ==> no_newline(#[trigger] ls[i]),
    ensures
        split_lines(join_lines(ls)) == ls,
    decreases ls.len(),
{
    if ls.len() == 1 {
        assert(no_newline(ls[0]));
        lemma_split_single(ls[0]);
        assert(seq![ls[0]] =~= ls);
    } else {
        let init = ls.drop_last();
        assert forall|i: int| 0 <= i < init.len() implies no_newline(#[trigger] init[i]) by {
            assert(init[i] == ls[i]);
        }
        lemma_split_join(init);
        let j = join_lines(init);
        assert((j + seq!['\n']).drop_last() =~= j);
        assert(split_lines(j + seq!['\n']) == init.push(seq![]));
        assert(no_newline(ls.last()));
        lemma_split_tail(j + seq!['\n'], ls.last());
        assert(Seq::<char>::empty() + ls.last() =~= ls.last());
        assert(init.push(seq![]).update(init.len() as int, ls.last()) =~= ls);
        assert(join_lines(ls) == j + seq!['\n'] + ls.last());
    }
}

proof fn lemma_strip_end_prefix<A>(s: Seq<A>, p: spec_fn(A) -> bool)
    ensures
        strip_end(s, p).len() <= s.len(),
        strip_end(s, p) == s.subrange(0, strip_end(s, p).len() as int),
        strip_end(s, p).len() > 0 ==> !p(strip_end(s, p).last()),
    decreases s.len(),
{
    if s.len() > 0 && p(s.last()) {
        lemma_strip_end_prefix(s.drop_last(), p);
        let t = strip_end(s.drop_last(), p);
        assert(s.drop_last().subrange(0, t.len() as int) =~= s.subrange(0, t.len() as int));
    } else {
        assert(s.subrange(0, s.len() as int) =~= s);
    }
}

/// A dedented block string neither starts nor ends with a blank line: when
/// it is not empty, its first and its last line hold something other than
/// whitespace (every leading and trailing blank line is removed), and it has
/// no more lines than the block string had.
pub proof fn law_dedent_trimmed(s: Seq<char>)
    ensures
        dedent_spec(s).len() > 0 ==> !is_blank_line(split_lines(dedent_spec(s))[0])
            && !is_blank_line(split_lines(dedent_spec(s)).last())
            && split_lines(dedent_spec(s)).len() <= split_lines(s).len(),
{
    let lines = split_lines(s);
    lemma_split_lines_no_newline(s);
    let d = dedent_amount(lines);
    let mapped = Seq::new(lines.len(), |i: int| map_line(lines[i], i, d));
    let n = mapped.len() as int;
    assert forall|i: int| 0 <= i < n implies no_newline(#[trigger] mapped[i]) by {
        let l = lines[i];
        assert(no_newline(l));
        if !(i == 0 || d == 0 || utf8_len(l) < d) {
            lemma_skip_while(l, white(), 0);
            if is_blank_line(l) {
                lemma_blank_ascii(l);
            } else {
                lemma_common_le(lines, lines.len() as int, i);
            }
            assert(d <= l.len());
            assert forall|k: int| 0 <= k < l.skip(d as int).len() implies l.skip(d as int)[k]
                != '\n' by {
                assert(l.skip(d as int)[k] == l[k + d]);
            }
        }
    }
    let lo = skip_while(mapped, blank_pred(), 0);
    lemma_skip_while(mapped, blank_pred(), 0);
    let mid = mapped.subrange(lo, n);
    let st = strip_end(mid, blank_pred());
    lemma_strip_end_prefix(mid, blank_pred());
    assert(dedent_spec(s) == join_lines(st));
    if st.len() > 0 {
        assert forall|i: int| 0 <= i < st.len() implies no_newline(#[trigger] st[i]) by {
            assert(st[i] == mid[i]);
            assert(mid[i] == mapped[lo + i]);
        }
        lemma_split_join(st);
        assert(st[0] == mapped[lo]);
        assert(!blank_pred()(mapped[lo]));
        assert(!blank_pred()(st.last()));
    } else {
        assert(join_lines(st) =~= Seq::<char>::empty());
    }
}

} // verus!
