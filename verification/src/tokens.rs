//! The doubly-linked chain of `GraphQL\Language\Token` instances for a
//! parsed source, as plain records: `<SOF>`, every token, `<EOF>`. The PHP
//! objects and their `prev`/`next` links are made from these records.
//!
//! Comments are included in the chain (matching the PHP lexer's linked
//! list); whitespace and commas are skipped.

use vstd::prelude::*;
use vstd::utf8::*;
use vstd::string::StringSliceAdditionalSpecFns;
use crate::apollo::{RawToken, apollo_tokens, lex_tokens, token_view, tokens_view};
use crate::lower::ctx::{increasing, is_line_start, line_starts_of};
use crate::lower::values::{
    block_token_spec, simple_token_spec, strip_block_string,
    strip_simple_string, triple_quote,
};
use crate::text::{lemma_after_ascii_boundary, lemma_encode_len, chars_of, decode_bytes, starts_with, starts_with_str, str_byte_len, utf8_len, string_of};

verus! {

broadcast use vstd::seq_lib::group_seq_properties;

/// One token of the chain.
pub struct ChainToken {
    pub kind: String,
    pub start: i64,
    pub end: i64,
    pub line: i64,
    pub column: i64,
    pub value: Option<String>,
}

pub open spec fn opt_string_view(o: Option<String>) -> Option<Seq<char>> {
    match o {
        Some(s) => Some(s@),
        None => None,
    }
}

pub open spec fn chain_token_view(t: ChainToken) -> (Seq<char>, i64, i64, i64, i64, Option<Seq<char>>) {
    (t.kind@, t.start, t.end, t.line, t.column, opt_string_view(t.value))
}

pub open spec fn chain_view(v: Seq<ChainToken>) -> Seq<(Seq<char>, i64, i64, i64, i64, Option<Seq<char>>)> {
    v.map_values(|t: ChainToken| chain_token_view(t))
}

// --- line and column of a byte offset ---------------------------------------------------

/// The number of line starts at or before `x` (for an increasing table).
pub open spec fn count_le(s: Seq<usize>, x: int) -> int
    decreases s.len(),
{
    if s.len() == 0 {
        0
    } else if s.last() <= x {
        s.len() as int
    } else {
        count_le(s.drop_last(), x)
    }
}

/// `line_starts.get(line.saturating_sub(1)).unwrap_or(0)`.
pub open spec fn line_start_at(s: Seq<usize>, line: int) -> int {
    let k = if line == 0 {
        0
    } else {
        line - 1
    };
    if 0 <= k < s.len() {
        s[k] as int
    } else {
        0
    }
}

/// The byte range from the start of the line of `off` to `off` (clamped to
/// the text) can be sliced off the text: it is ordered and both ends are
/// character boundaries.
pub open spec fn span_ok(b: Seq<u8>, s: Seq<usize>, off: int) -> bool {
    let ls = line_start_at(s, count_le(s, off));
    let e = if off < b.len() {
        off
    } else {
        b.len() as int
    };
    0 <= ls <= e && is_char_boundary(b, ls) && is_char_boundary(b, e)
}

/// The 1-based (line, column) of byte offset `off`; the column counts
/// characters.
pub open spec fn line_col_at(b: Seq<u8>, s: Seq<usize>, off: int) -> (i64, i64) {
    let line = count_le(s, off);
    let ls = line_start_at(s, line);
    let e = if off < b.len() {
        off
    } else {
        b.len() as int
    };
    (
        (line as usize) as i64,
        ((decode_utf8(b.subrange(ls, e)).len() as usize) as i64).wrapping_add(1),
    )
}

proof fn lemma_count_le(s: Seq<usize>, x: int, k: int)
    requires
        increasing(s),
        0 <= k <= s.len(),
        forall|j: int| 0 <= j < k ==> s[j] <= x,
        forall|j: int| k <= j < s.len() ==> s[j] > x,
    ensures
        count_le(s, x) == k,
    decreases s.len(),
{
    if s.len() > 0 {
        if k < s.len() {
            lemma_count_le(s.drop_last(), x, k);
        }
    }
}

/// The number of entries of an increasing table at or before `x` (what
/// `binary_search` gives as `Ok(i) ⇒ i + 1`, `Err(i) ⇒ i`).
fn count_at_or_before(s: &[usize], x: usize) -> (r: usize)
    requires
        increasing(s@),
    ensures
        r == count_le(s@, x as int),
{
    let mut lo: usize = 0;
    let mut hi: usize = s.len();
    while lo < hi
        invariant
            lo <= hi <= s@.len(),
            increasing(s@),
            forall|j: int| 0 <= j < lo ==> s@[j] <= x,
            forall|j: int| hi <= j < s@.len() ==> s@[j] > x,
        decreases hi - lo,
    {
        let mid = lo + (hi - lo) / 2;
        if s[mid] <= x {
            lo = mid + 1;
        } else {
            hi = mid;
        }
    }
    proof {
        lemma_count_le(s@, x as int, lo as int);
    }
    lo
}

/// Slicing valid UTF-8 between two character boundaries leaves valid UTF-8.
pub proof fn lemma_boundaries_valid(b: Seq<u8>, s: int, e: int)
    requires
        valid_utf8(b),
        0 <= s <= e <= b.len(),
        is_char_boundary(b, s),
        is_char_boundary(b, e),
    ensures
        valid_utf8(b.subrange(s, e)),
{
    valid_utf8_split(b, s);
    let c = b.subrange(s, b.len() as int);
    if e == b.len() {
        assert(b.subrange(s, e) =~= c);
    } else {
        is_char_boundary_iff_not_is_continuation_byte(b, e);
        is_char_boundary_iff_not_is_continuation_byte(c, e - s);
        valid_utf8_split(c, e - s);
        assert(c.subrange(0, e - s) =~= b.subrange(s, e));
    }
}

/// The (line, column) of a byte offset, `None` where slicing the line would
/// not fall on character boundaries.
fn line_col(body: &str, line_starts: &[usize], offset: usize) -> (r: Option<(i64, i64)>)
    requires
        increasing(line_starts@),
    ensures
        r is Some <==> span_ok(body.spec_bytes(), line_starts@, offset as int),
        r matches Some(lc) ==> lc == line_col_at(body.spec_bytes(), line_starts@, offset as int),
{
    let bytes = body.as_bytes();
    proof {
        encode_utf8_valid_utf8(body@);
    }
    let line = count_at_or_before(line_starts, offset);
    let k = if line == 0 {
        0
    } else {
        line - 1
    };
    let line_start = if k < line_starts.len() {
        line_starts[k]
    } else {
        0
    };
    let e = if offset < bytes.len() {
        offset
    } else {
        bytes.len()
    };
    if line_start > e || !body.is_char_boundary(line_start) || !body.is_char_boundary(e) {
        return None;
    }
    proof {
        lemma_boundaries_valid(bytes@, line_start as int, e as int);
    }
    let text = match decode_bytes(&bytes[line_start..e]) {
        Some(t) => t,
        None => Vec::new(),
    };
    let col = (text.len() as i64).wrapping_add(1);
    Some((line as i64, col))
}

// --- the chain ------------------------------------------------------------------------

/// The `Token::$kind` of a token kind code; `StringValue` splits into
/// `BlockString` and `String` by its opening quotes.
pub open spec fn kind_label(code: u16, data: Seq<char>) -> Seq<char> {
    if code == 1 {
        "Comment"@
    } else if code == 2 {
        "!"@
    } else if code == 3 {
        "$"@
    } else if code == 4 {
        "&"@
    } else if code == 5 {
        "..."@
    } else if code == 7 {
        ":"@
    } else if code == 8 {
        "="@
    } else if code == 9 {
        "@"@
    } else if code == 10 {
        "("@
    } else if code == 11 {
        ")"@
    } else if code == 12 {
        "["@
    } else if code == 13 {
        "]"@
    } else if code == 14 {
        "{"@
    } else if code == 15 {
        "}"@
    } else if code == 16 {
        "|"@
    } else if code == 18 {
        "Name"@
    } else if code == 19 {
        if starts_with(data, triple_quote()) {
            "BlockString"@
        } else {
            "String"@
        }
    } else if code == 20 {
        "Int"@
    } else {
        "Float"@
    }
}

/// `s` without one leading `c`, if it has one.
pub open spec fn drop_one(s: Seq<char>, c: char) -> Seq<char> {
    if s.len() > 0 && s[0] == c {
        s.skip(1)
    } else {
        s
    }
}

/// The `Token::$value` of a token: comment text without `#` and one space,
/// decoded strings, the text of names and numbers; punctuators have none.
pub open spec fn value_of(code: u16, data: Seq<char>) -> Option<Seq<char>> {
    if code == 1 {
        Some(drop_one(drop_one(data, '#'), ' '))
    } else if code == 19 {
        if starts_with(data, triple_quote()) {
            Some(block_token_spec(data))
        } else {
            Some(simple_token_spec(data))
        }
    } else if code == 18 || code == 20 || code == 21 {
        Some(data)
    } else {
        None
    }
}

pub open spec fn entry_of(b: Seq<u8>, s: Seq<usize>, t: (u16, Seq<char>, usize)) -> (
    Seq<char>,
    i64,
    i64,
    i64,
    i64,
    Option<Seq<char>>,
) {
    let lc = line_col_at(b, s, t.2 as int);
    (
        kind_label(t.0, t.1),
        t.2 as i64,
        (t.2.wrapping_add(utf8_len(t.1) as usize)) as i64,
        lc.0,
        lc.1,
        value_of(t.0, t.1),
    )
}

/// The entries for `toks[i..]` and the offset of `<EOF>` (the `Eof` token's,
/// or the text length when there is none); `None` where the chain cannot be
/// built (an unknown kind, a line slice off a character boundary).
pub open spec fn chain_body(b: Seq<u8>, s: Seq<usize>, toks: Seq<(u16, Seq<char>, usize)>, i: int) -> Option<
    (Seq<(Seq<char>, i64, i64, i64, i64, Option<Seq<char>>)>, int),
>
    decreases toks.len() - i,
{
    if i < 0 || i >= toks.len() {
        Some((seq![], b.len() as int))
    } else {
        let t = toks[i];
        if t.0 >= 22 {
            None
        } else if t.0 == 0 || t.0 == 6 {
            chain_body(b, s, toks, i + 1)
        } else if t.0 == 17 {
            Some((seq![], t.2 as int))
        } else if !span_ok(b, s, t.2 as int) {
            None
        } else {
            match chain_body(b, s, toks, i + 1) {
                Some((rest, eof)) => Some((seq![entry_of(b, s, t)] + rest, eof)),
                None => None,
            }
        }
    }
}

/// The whole chain for a text and its tokens.
pub open spec fn chain_spec(b: Seq<u8>, s: Seq<usize>, toks: Seq<(u16, Seq<char>, usize)>) -> Option<
    Seq<(Seq<char>, i64, i64, i64, i64, Option<Seq<char>>)>,
> {
    if !span_ok(b, s, 0) {
        None
    } else {
        match chain_body(b, s, toks, 0) {
            Some((es, eof)) => if !span_ok(b, s, eof) {
                None
            } else {
                let sof = line_col_at(b, s, 0);
                let eofc = line_col_at(b, s, eof);
                Some(
                    seq![("<SOF>"@, 0i64, 0i64, sof.0, sof.1, None::<Seq<char>>)] + es + seq![
                        ("<EOF>"@, eof as i64, eof as i64, eofc.0, eofc.1, None::<Seq<char>>),
                    ],
                )
            },
            None => None,
        }
    }
}

pub open spec fn prepend_entries(
    es: Seq<(Seq<char>, i64, i64, i64, i64, Option<Seq<char>>)>,
    o: Option<(Seq<(Seq<char>, i64, i64, i64, i64, Option<Seq<char>>)>, int)>,
) -> Option<(Seq<(Seq<char>, i64, i64, i64, i64, Option<Seq<char>>)>, int)> {
    match o {
        Some((r, e)) => Some((es + r, e)),
        None => None,
    }
}

fn kind_text(code: u16, data: &String) -> (r: String)
    ensures
        r@ == kind_label(code, data@),
{
    let cs = chars_of(data.as_str());
    let s = if code == 1 {
        "Comment"
    } else if code == 2 {
        "!"
    } else if code == 3 {
        "$"
    } else if code == 4 {
        "&"
    } else if code == 5 {
        "..."
    } else if code == 7 {
        ":"
    } else if code == 8 {
        "="
    } else if code == 9 {
        "@"
    } else if code == 10 {
        "("
    } else if code == 11 {
        ")"
    } else if code == 12 {
        "["
    } else if code == 13 {
        "]"
    } else if code == 14 {
        "{"
    } else if code == 15 {
        "}"
    } else if code == 16 {
        "|"
    } else if code == 18 {
        "Name"
    } else if code == 19 {
        if starts_with_str(&cs, "\"\"\"") {
            "BlockString"
        } else {
            "String"
        }
    } else if code == 20 {
        "Int"
    } else {
        "Float"
    };
    proof {
        reveal_strlit("\"\"\"");
        assert("\"\"\""@ =~= triple_quote());
    }
    s.to_owned()
}

fn drop_one_char(v: &Vec<char>, c: char) -> (r: Vec<char>)
    ensures
        r@ == drop_one(v@, c),
{
    if v.len() > 0 && v[0] == c {
        crate::text::slice_chars(v, 1, v.len())
    } else {
        crate::text::slice_chars(v, 0, v.len())
    }
}

fn token_value(code: u16, data: &String) -> (r: Option<String>)
    ensures
        opt_string_view(r) == value_of(code, data@),
{
    if code == 1 {
        let cs = chars_of(data.as_str());
        let trimmed = drop_one_char(&drop_one_char(&cs, '#'), ' ');
        Some(string_of(&trimmed))
    } else if code == 19 {
        let cs = chars_of(data.as_str());
        proof {
            reveal_strlit("\"\"\"");
            assert("\"\"\""@ =~= triple_quote());
        }
        if starts_with_str(&cs, "\"\"\"") {
            Some(strip_block_string(data.as_str()))
        } else {
            Some(strip_simple_string(data.as_str()))
        }
    } else if code == 18 || code == 20 || code == 21 {
        Some(string_of(&chars_of(data.as_str())))
    } else {
        None
    }
}

/// The chain for `body` from the lexer's tokens; `None` where it cannot be
/// built without slicing the text off a character boundary.
pub fn chain_from_tokens(body: &str, line_starts: &[usize], tokens: &Vec<RawToken>) -> (r: Option<
    Vec<ChainToken>,
>)
    requires
        increasing(line_starts@),
    ensures
        match r {
            Some(v) => chain_spec(body.spec_bytes(), line_starts@, tokens_view(tokens@)) == Some(
                chain_view(v@),
            ),
            None => chain_spec(body.spec_bytes(), line_starts@, tokens_view(tokens@)) is None,
        },
{
    let ghost b = body.spec_bytes();
    let ghost toks = tokens_view(tokens@);
    let sof = match line_col(body, line_starts, 0) {
        Some(lc) => lc,
        None => return None,
    };
    let mut entries: Vec<ChainToken> = Vec::new();
    entries.push(
        ChainToken {
            kind: "<SOF>".to_owned(),
            start: 0,
            end: 0,
            line: sof.0,
            column: sof.1,
            value: None,
        },
    );
    let mut last_eof_offset = body.as_bytes().len();
    let mut i: usize = 0;
    let n = tokens.len();
    let ghost mut found_eof = false;
    while i < n
        invariant_except_break
            n == tokens@.len(),
            i <= n,
            increasing(line_starts@),
            b == body.spec_bytes(),
            toks == tokens_view(tokens@),
            entries@.len() >= 1,
            last_eof_offset == b.len(),
            chain_view(entries@)[0] == ("<SOF>"@, 0i64, 0i64, sof.0, sof.1, None::<Seq<char>>),
            chain_body(b, line_starts@, toks, 0) == prepend_entries(
                chain_view(entries@).skip(1),
                chain_body(b, line_starts@, toks, i as int),
            ),
        ensures
            entries@.len() >= 1,
            chain_view(entries@)[0] == ("<SOF>"@, 0i64, 0i64, sof.0, sof.1, None::<Seq<char>>),
            chain_body(b, line_starts@, toks, 0) == Some(
                (chain_view(entries@).skip(1), last_eof_offset as int),
            ),
        decreases n - i,
    {
        let tok = &tokens[i];
        assert(toks[i as int] == token_view(tokens@[i as int]));
        let code = tok.code;
        if code >= 22 {
            return None;
        }
        if code == 0 || code == 6 {
            i += 1;
            continue;
        }
        if code == 17 {
            last_eof_offset = tok.index;
            break;
        }
        let start = tok.index;
        let lc = match line_col(body, line_starts, start) {
            Some(lc) => lc,
            None => return None,
        };
        let end = start.wrapping_add(str_byte_len(tok.data.as_str()));
        let ghost before = chain_view(entries@);
        entries.push(
            ChainToken {
                kind: kind_text(code, &tok.data),
                start: start as i64,
                end: end as i64,
                line: lc.0,
                column: lc.1,
                value: token_value(code, &tok.data),
            },
        );
        assert(chain_view(entries@) =~= before.push(entry_of(b, line_starts@, toks[i as int])));
        assert(chain_view(entries@).skip(1) =~= before.skip(1) + seq![
            entry_of(b, line_starts@, toks[i as int]),
        ]);
        i += 1;
    }
    let eof = match line_col(body, line_starts, last_eof_offset) {
        Some(lc) => lc,
        None => return None,
    };
    let ghost before = chain_view(entries@);
    entries.push(
        ChainToken {
            kind: "<EOF>".to_owned(),
            start: last_eof_offset as i64,
            end: last_eof_offset as i64,
            line: eof.0,
            column: eof.1,
            value: None,
        },
    );
    assert(chain_view(entries@) =~= seq![before[0]] + before.skip(1) + seq![
        chain_token_view(entries@.last()),
    ]);
    Some(entries)
}

/// Build the token chain of `body`: lex it, then make the records. `None`
/// where the chain cannot be built (see [`chain_from_tokens`]).
pub fn build_chain(body: &str, line_starts: &[usize]) -> (r: Option<Vec<ChainToken>>)
    requires
        increasing(line_starts@),
    ensures
        match r {
            Some(v) => chain_spec(body.spec_bytes(), line_starts@, apollo_tokens(body@)) == Some(
                chain_view(v@),
            ),
            None => chain_spec(body.spec_bytes(), line_starts@, apollo_tokens(body@)) is None,
        },
        utf8_len(body@) <= i64::MAX ==> (r matches Some(v) ==> forall|i: int, j: int|
            0 <= i < j < v@.len() ==> v@[i].start <= v@[j].start),
        line_starts_of(line_starts@, body.spec_bytes()) ==> r is Some,
{
    let raw_tokens = lex_tokens(body);
    let r = chain_from_tokens(body, line_starts, &raw_tokens);
    proof {
        if line_starts_of(line_starts@, body.spec_bytes()) {
            let b = body.spec_bytes();
            let toks = tokens_view(raw_tokens@);
            encode_utf8_valid_utf8(body@);
            lemma_encode_len(body@);
            assert forall|k: int| 0 <= k < toks.len() implies toks[k].0 < 22 && toks[k].2
                <= b.len() && is_char_boundary(b, toks[k].2 as int) by {
                assert(toks[k] == token_view(raw_tokens@[k]));
                assert(raw_tokens@[k].code < 22);
                assert(raw_tokens@[k].index <= utf8_len(body@));
                assert(is_char_boundary(b, raw_tokens@[k].index as int));
            }
            lemma_chain_body_some(b, line_starts@, toks, 0);
            lemma_span_ok(b, line_starts@, 0);
            let eof = (chain_body(b, line_starts@, toks, 0)->0).1;
            lemma_span_ok(b, line_starts@, eof);
            assert(chain_spec(b, line_starts@, toks) is Some);
        }
        if r is Some && utf8_len(body@) <= i64::MAX {
            let v = r->0;
            let w = chain_view(v@);
            let toks = tokens_view(raw_tokens@);
            assert(chain_spec(body.spec_bytes(), line_starts@, toks) == Some(w));
            lemma_encode_len(body@);
            assert forall|i: int, j: int| 0 <= i < j < toks.len() implies toks[i].2
                <= toks[j].2 by {
                assert(toks[i] == token_view(raw_tokens@[i]));
                assert(toks[j] == token_view(raw_tokens@[j]));
            }
            assert forall|i: int| 0 <= i < toks.len() implies toks[i].2
                <= body.spec_bytes().len() by {
                assert(toks[i] == token_view(raw_tokens@[i]));
                assert(raw_tokens@[i].index <= utf8_len(body@));
            }
            law_chain_starts_ordered(body.spec_bytes(), line_starts@, toks);
            assert forall|i: int, j: int| 0 <= i < j < v@.len() implies v@[i].start
                <= v@[j].start by {
                let x = chain_spec(body.spec_bytes(), line_starts@, toks)->0;
                assert(x == w);
                assert(w.len() == v@.len());
                assert(x[i].1 <= x[j].1);
                assert(w[i].1 == v@[i].start);
                assert(w[j].1 == v@[j].start);
            }
        }
    }
    r
}

/// A chain starts with `<SOF>` at offset 0 and ends with `<EOF>`.
pub proof fn law_chain_ends(b: Seq<u8>, s: Seq<usize>, toks: Seq<(u16, Seq<char>, usize)>)
    ensures
        chain_spec(b, s, toks) matches Some(v) ==> v.len() >= 2 && v[0].0 == "<SOF>"@ && v[0].1 == 0
            && v.last().0 == "<EOF>"@,
{
}

proof fn lemma_chain_body_suffix(
    b: Seq<u8>,
    s: Seq<usize>,
    t1: Seq<(u16, Seq<char>, usize)>,
    i1: int,
    t2: Seq<(u16, Seq<char>, usize)>,
    i2: int,
)
    requires
        0 <= i1 <= t1.len(),
        0 <= i2 <= t2.len(),
        t1.skip(i1) == t2.skip(i2),
    ensures
        chain_body(b, s, t1, i1) == chain_body(b, s, t2, i2),
    decreases t1.len() - i1,
{
    if i1 < t1.len() {
        assert(t1.skip(i1).len() == t1.len() - i1);
        assert(t2.skip(i2).len() == t2.len() - i2);
        assert(i2 < t2.len());
        assert(t1[i1] == t1.skip(i1)[0]);
        assert(t2[i2] == t2.skip(i2)[0]);
        assert(t1.skip(i1 + 1) =~= t1.skip(i1).skip(1));
        assert(t2.skip(i2 + 1) =~= t2.skip(i2).skip(1));
        lemma_chain_body_suffix(b, s, t1, i1 + 1, t2, i2 + 1);
    } else {
        assert(t2.skip(i2).len() == 0);
    }
}

proof fn lemma_insert_ignored(
    b: Seq<u8>,
    s: Seq<usize>,
    toks: Seq<(u16, Seq<char>, usize)>,
    j: int,
    t: (u16, Seq<char>, usize),
    i: int,
)
    requires
        0 <= i <= j <= toks.len(),
        t.0 == 0 || t.0 == 6,
    ensures
        chain_body(b, s, toks.insert(j, t), i) == chain_body(b, s, toks, i),
    decreases j - i,
{
    let t2 = toks.insert(j, t);
    if i < j {
        assert(t2[i] == toks[i]);
        lemma_insert_ignored(b, s, toks, j, t, i + 1);
    } else {
        assert(t2[j] == t);
        assert(t2.skip(j + 1) =~= toks.skip(j));
        lemma_chain_body_suffix(b, s, t2, j + 1, toks, j);
    }
}

/// Whitespace and commas are skipped: a whitespace or comma token inserted
/// anywhere among the tokens leaves the chain as it is.
pub proof fn law_chain_skips_ignored(
    b: Seq<u8>,
    s: Seq<usize>,
    toks: Seq<(u16, Seq<char>, usize)>,
    j: int,
    t: (u16, Seq<char>, usize),
)
    requires
        0 <= j <= toks.len(),
        t.0 == 0 || t.0 == 6,
    ensures
        chain_spec(b, s, toks.insert(j, t)) == chain_spec(b, s, toks),
{
    lemma_insert_ignored(b, s, toks, j, t, 0);
}

/// The entries of a chain body start in order, at or after the token at
/// `i`, and no later than its `<EOF>`, when the token offsets do not
/// decrease and lie within the text.
proof fn lemma_body_ordered(b: Seq<u8>, s: Seq<usize>, toks: Seq<(u16, Seq<char>, usize)>, i: int)
    requires
        0 <= i <= toks.len(),
        b.len() <= i64::MAX,
        forall|p: int, q: int| 0 <= p < q < toks.len() ==> toks[p].2 <= toks[q].2,
        forall|p: int| 0 <= p < toks.len() ==> toks[p].2 <= b.len(),
    ensures
        chain_body(b, s, toks, i) matches Some((es, eof)) ==> {
            &&& eof <= b.len()
            &&& (i < toks.len() ==> toks[i].2 <= eof)
            &&& forall|p: int| 0 <= p < es.len() ==> es[p].1 <= eof
            &&& forall|p: int| 0 <= p < es.len() ==> 0 <= es[p].1
            &&& (i < toks.len() ==> forall|p: int| 0 <= p < es.len() ==> toks[i].2 <= es[p].1)
            &&& forall|p: int, q: int| 0 <= p < q < es.len() ==> es[p].1 <= es[q].1
        },
    decreases toks.len() - i,
{
    if i < toks.len() {
        let t = toks[i];
        if t.0 < 22 && t.0 != 17 {
            lemma_body_ordered(b, s, toks, i + 1);
            if i + 1 < toks.len() {
                assert(toks[i].2 <= toks[i + 1].2);
            }
        }
    }
}

/// Start offsets never decrease along a chain, when the token offsets do not
/// decrease and lie within the text.
pub proof fn law_chain_starts_ordered(b: Seq<u8>, s: Seq<usize>, toks: Seq<(u16, Seq<char>, usize)>)
    requires
        b.len() <= i64::MAX,
        forall|p: int, q: int| 0 <= p < q < toks.len() ==> toks[p].2 <= toks[q].2,
        forall|p: int| 0 <= p < toks.len() ==> toks[p].2 <= b.len(),
    ensures
        chain_spec(b, s, toks) matches Some(v) ==> forall|p: int, q: int|
            0 <= p < q < v.len() ==> v[p].1 <= v[q].1,
{
    lemma_body_ordered(b, s, toks, 0);
    if chain_spec(b, s, toks) is Some {
        let (es, eof) = chain_body(b, s, toks, 0)->0;
        let v = chain_spec(b, s, toks)->0;
        assert forall|p: int, q: int| 0 <= p < q < v.len() implies v[p].1 <= v[q].1 by {
            if p == 0 {
                if q < v.len() - 1 {
                    assert(v[q] == es[q - 1]);
                }
            } else if q == v.len() - 1 {
                assert(v[p] == es[p - 1]);
            } else {
                assert(v[p] == es[p - 1]);
                assert(v[q] == es[q - 1]);
            }
        }
    }
}

proof fn lemma_count_le_props(s: Seq<usize>, x: int)
    requires
        s.len() >= 1,
        s[0] <= x,
    ensures
        1 <= count_le(s, x) <= s.len(),
        s[count_le(s, x) - 1] <= x,
    decreases s.len(),
{
    if s.last() > x {
        lemma_count_le_props(s.drop_last(), x);
    }
}

/// A line table of the text can slice the line of every character boundary.
proof fn lemma_span_ok(b: Seq<u8>, s: Seq<usize>, off: int)
    requires
        valid_utf8(b),
        line_starts_of(s, b),
        0 <= off <= b.len(),
        is_char_boundary(b, off),
    ensures
        span_ok(b, s, off),
{
    assert(is_line_start(b, 0));
    let j0 = choose|j: int| 0 <= j < s.len() && s[j] == 0;
    if j0 > 0 {
        assert(s[0] < s[j0]);
    }
    assert(s[0] == 0);
    lemma_count_le_props(s, off);
    let line = count_le(s, off);
    let ls = s[line - 1] as int;
    assert(line_start_at(s, line) == ls);
    assert(is_line_start(b, s[line - 1] as int));
    if ls > 0 {
        assert(b[ls - 1] == 10 || b[ls - 1] == 13);
        lemma_after_ascii_boundary(b, ls);
    }
}

/// With a line table of the text and tokens that start on character
/// boundaries, a chain body is always built.
proof fn lemma_chain_body_some(b: Seq<u8>, s: Seq<usize>, toks: Seq<(u16, Seq<char>, usize)>, i: int)
    requires
        valid_utf8(b),
        line_starts_of(s, b),
        0 <= i <= toks.len(),
        forall|k: int|
            0 <= k < toks.len() ==> toks[k].0 < 22 && toks[k].2 <= b.len() && is_char_boundary(
                b,
                toks[k].2 as int,
            ),
    ensures
        chain_body(b, s, toks, i) matches Some((es, eof)) && 0 <= eof <= b.len()
            && is_char_boundary(b, eof),
    decreases toks.len() - i,
{
    if i < toks.len() {
        let t = toks[i];
        if t.0 == 0 || t.0 == 6 {
            lemma_chain_body_some(b, s, toks, i + 1);
        } else if t.0 != 17 {
            lemma_span_ok(b, s, t.2 as int);
            lemma_chain_body_some(b, s, toks, i + 1);
        }
    } else {
        is_char_boundary_start_end_of_seq(b);
    }
}

/// The `TokenKind` that apollo-parser's lexer gives the punctuator `t` (its
/// `T!` macro: `T![')']` is `RParen`), as a kind code; `None` for any other
/// text.
pub open spec fn punctuator_kind(t: Seq<char>) -> Option<u16> {
    if t == seq!['!'] {
        Some(2u16)
    } else if t == seq!['$'] {
        Some(3u16)
    } else if t == seq!['&'] {
        Some(4u16)
    } else if t == seq!['.', '.', '.'] {
        Some(5u16)
    } else if t == seq![':'] {
        Some(7u16)
    } else if t == seq!['='] {
        Some(8u16)
    } else if t == seq!['@'] {
        Some(9u16)
    } else if t == seq!['('] {
        Some(10u16)
    } else if t == seq![')'] {
        Some(11u16)
    } else if t == seq!['['] {
        Some(12u16)
    } else if t == seq![']'] {
        Some(13u16)
    } else if t == seq!['{'] {
        Some(14u16)
    } else if t == seq!['}'] {
        Some(15u16)
    } else if t == seq!['|'] {
        Some(16u16)
    } else {
        None
    }
}

/// A punctuator token is labelled with its own text: the token kind that
/// the lexer gives a punctuator is labelled with that punctuator, and the
/// label of every punctuator kind is the punctuator of that kind (so no two
/// punctuator kinds share a label).
pub proof fn law_punctuator_label(t: Seq<char>, code: u16, data: Seq<char>)
    ensures
        punctuator_kind(t) matches Some(c) ==> kind_label(c, data) == t,
        2 <= code <= 16 && code != 6 ==> punctuator_kind(kind_label(code, data)) == Some(code),
{
    reveal_strlit("!");
    assert("!"@ =~= seq!['!']);
    reveal_strlit("$");
    assert("$"@ =~= seq!['$']);
    reveal_strlit("&");
    assert("&"@ =~= seq!['&']);
    reveal_strlit("...");
    assert("..."@ =~= seq!['.', '.', '.']);
    reveal_strlit(":");
    assert(":"@ =~= seq![':']);
    reveal_strlit("=");
    assert("="@ =~= seq!['=']);
    reveal_strlit("@");
    assert("@"@ =~= seq!['@']);
    reveal_strlit("(");
    assert("("@ =~= seq!['(']);
    reveal_strlit(")");
    assert(")"@ =~= seq![')']);
    reveal_strlit("[");
    assert("["@ =~= seq!['[']);
    reveal_strlit("]");
    assert("]"@ =~= seq![']']);
    reveal_strlit("{");
    assert("{"@ =~= seq!['{']);
    reveal_strlit("}");
    assert("}"@ =~= seq!['}']);
    reveal_strlit("|");
    assert("|"@ =~= seq!['|']);
    if code == 2 {
        assert(punctuator_kind(seq!['!']) == Some(2u16));
    }
    if code == 3 {
        assert(seq!['$'][0] != seq!['!'][0]);
        assert(punctuator_kind(seq!['$']) == Some(3u16));
    }
    if code == 4 {
        assert(seq!['&'][0] != seq!['!'][0]);
        assert(seq!['&'][0] != seq!['$'][0]);
        assert(punctuator_kind(seq!['&']) == Some(4u16));
    }
    if code == 5 {
        assert(seq!['.', '.', '.'].len() != seq!['!'].len());
        assert(seq!['.', '.', '.'].len() != seq!['$'].len());
        assert(seq!['.', '.', '.'].len() != seq!['&'].len());
        assert(punctuator_kind(seq!['.', '.', '.']) == Some(5u16));
    }
    if code == 7 {
        assert(seq![':'][0] != seq!['!'][0]);
        assert(seq![':'][0] != seq!['$'][0]);
        assert(seq![':'][0] != seq!['&'][0]);
        assert(seq![':'].len() != seq!['.', '.', '.'].len());
        assert(punctuator_kind(seq![':']) == Some(7u16));
    }
    if code == 8 {
        assert(seq!['='][0] != seq!['!'][0]);
        assert(seq!['='][0] != seq!['$'][0]);
        assert(seq!['='][0] != seq!['&'][0]);
        assert(seq!['='].len() != seq!['.', '.', '.'].len());
        assert(seq!['='][0] != seq![':'][0]);
        assert(punctuator_kind(seq!['=']) == Some(8u16));
    }
    if code == 9 {
        assert(seq!['@'][0] != seq!['!'][0]);
        assert(seq!['@'][0] != seq!['$'][0]);
        assert(seq!['@'][0] != seq!['&'][0]);
        assert(seq!['@'].len() != seq!['.', '.', '.'].len());
        assert(seq!['@'][0] != seq![':'][0]);
        assert(seq!['@'][0] != seq!['='][0]);
        assert(punctuator_kind(seq!['@']) == Some(9u16));
    }
    if code == 10 {
        assert(seq!['('][0] != seq!['!'][0]);
        assert(seq!['('][0] != seq!['$'][0]);
        assert(seq!['('][0] != seq!['&'][0]);
        assert(seq!['('].len() != seq!['.', '.', '.'].len());
        assert(seq!['('][0] != seq![':'][0]);
        assert(seq!['('][0] != seq!['='][0]);
        assert(seq!['('][0] != seq!['@'][0]);
        assert(punctuator_kind(seq!['(']) == Some(10u16));
    }
    if code == 11 {
        assert(seq![')'][0] != seq!['!'][0]);
        assert(seq![')'][0] != seq!['$'][0]);
        assert(seq![')'][0] != seq!['&'][0]);
        assert(seq![')'].len() != seq!['.', '.', '.'].len());
        assert(seq![')'][0] != seq![':'][0]);
        assert(seq![')'][0] != seq!['='][0]);
        assert(seq![')'][0] != seq!['@'][0]);
        assert(seq![')'][0] != seq!['('][0]);
        assert(punctuator_kind(seq![')']) == Some(11u16));
    }
    if code == 12 {
        assert(seq!['['][0] != seq!['!'][0]);
        assert(seq!['['][0] != seq!['$'][0]);
        assert(seq!['['][0] != seq!['&'][0]);
        assert(seq!['['].len() != seq!['.', '.', '.'].len());
        assert(seq!['['][0] != seq![':'][0]);
        assert(seq!['['][0] != seq!['='][0]);
        assert(seq!['['][0] != seq!['@'][0]);
        assert(seq!['['][0] != seq!['('][0]);
        assert(seq!['['][0] != seq![')'][0]);
        assert(punctuator_kind(seq!['[']) == Some(12u16));
    }
    if code == 13 {
        assert(seq![']'][0] != seq!['!'][0]);
        assert(seq![']'][0] != seq!['$'][0]);
        assert(seq![']'][0] != seq!['&'][0]);
        assert(seq![']'].len() != seq!['.', '.', '.'].len());
        assert(seq![']'][0] != seq![':'][0]);
        assert(seq![']'][0] != seq!['='][0]);
        assert(seq![']'][0] != seq!['@'][0]);
        assert(seq![']'][0] != seq!['('][0]);
        assert(seq![']'][0] != seq![')'][0]);
        assert(seq![']'][0] != seq!['['][0]);
        assert(punctuator_kind(seq![']']) == Some(13u16));
    }
    if code == 14 {
        assert(seq!['{'][0] != seq!['!'][0]);
        assert(seq!['{'][0] != seq!['$'][0]);
        assert(seq!['{'][0] != seq!['&'][0]);
        assert(seq!['{'].len() != seq!['.', '.', '.'].len());
        assert(seq!['{'][0] != seq![':'][0]);
        assert(seq!['{'][0] != seq!['='][0]);
        assert(seq!['{'][0] != seq!['@'][0]);
        assert(seq!['{'][0] != seq!['('][0]);
        assert(seq!['{'][0] != seq![')'][0]);
        assert(seq!['{'][0] != seq!['['][0]);
        assert(seq!['{'][0] != seq![']'][0]);
        assert(punctuator_kind(seq!['{']) == Some(14u16));
    }
    if code == 15 {
        assert(seq!['}'][0] != seq!['!'][0]);
        assert(seq!['}'][0] != seq!['$'][0]);
        assert(seq!['}'][0] != seq!['&'][0]);
        assert(seq!['}'].len() != seq!['.', '.', '.'].len());
        assert(seq!['}'][0] != seq![':'][0]);
        assert(seq!['}'][0] != seq!['='][0]);
        assert(seq!['}'][0] != seq!['@'][0]);
        assert(seq!['}'][0] != seq!['('][0]);
        assert(seq!['}'][0] != seq![')'][0]);
        assert(seq!['}'][0] != seq!['['][0]);
        assert(seq!['}'][0] != seq![']'][0]);
        assert(seq!['}'][0] != seq!['{'][0]);
        assert(punctuator_kind(seq!['}']) == Some(15u16));
    }
    if code == 16 {
        assert(seq!['|'][0] != seq!['!'][0]);
        assert(seq!['|'][0] != seq!['$'][0]);
        assert(seq!['|'][0] != seq!['&'][0]);
        assert(seq!['|'].len() != seq!['.', '.', '.'].len());
        assert(seq!['|'][0] != seq![':'][0]);
        assert(seq!['|'][0] != seq!['='][0]);
        assert(seq!['|'][0] != seq!['@'][0]);
        assert(seq!['|'][0] != seq!['('][0]);
        assert(seq!['|'][0] != seq![')'][0]);
        assert(seq!['|'][0] != seq!['['][0]);
        assert(seq!['|'][0] != seq![']'][0]);
        assert(seq!['|'][0] != seq!['{'][0]);
        assert(seq!['|'][0] != seq!['}'][0]);
        assert(punctuator_kind(seq!['|']) == Some(16u16));
    }
}

/// Different kinds get different labels: no two of the kinds that reach the
/// chain (all but whitespace, comma and the end of input) share a label,
/// whatever their texts.
pub proof fn law_kind_labels_distinct(c1: u16, c2: u16, d1: Seq<char>, d2: Seq<char>)
    requires
        1 <= c1 < 22 && c1 != 6 && c1 != 17,
        1 <= c2 < 22 && c2 != 6 && c2 != 17,
        c1 != c2,
    ensures
        kind_label(c1, d1) != kind_label(c2, d2),
{
    reveal_strlit("Comment");
    assert("Comment"@ =~= seq!['C', 'o', 'm', 'm', 'e', 'n', 't']);
    reveal_strlit("!");
    assert("!"@ =~= seq!['!']);
    reveal_strlit("$");
    assert("$"@ =~= seq!['$']);
    reveal_strlit("&");
    assert("&"@ =~= seq!['&']);
    reveal_strlit("...");
    assert("..."@ =~= seq!['.', '.', '.']);
    reveal_strlit(":");
    assert(":"@ =~= seq![':']);
    reveal_strlit("=");
    assert("="@ =~= seq!['=']);
    reveal_strlit("@");
    assert("@"@ =~= seq!['@']);
    reveal_strlit("(");
    assert("("@ =~= seq!['(']);
    reveal_strlit(")");
    assert(")"@ =~= seq![')']);
    reveal_strlit("[");
    assert("["@ =~= seq!['[']);
    reveal_strlit("]");
    assert("]"@ =~= seq![']']);
    reveal_strlit("{");
    assert("{"@ =~= seq!['{']);
    reveal_strlit("}");
    assert("}"@ =~= seq!['}']);
    reveal_strlit("|");
    assert("|"@ =~= seq!['|']);
    reveal_strlit("Name");
    assert("Name"@ =~= seq!['N', 'a', 'm', 'e']);
    reveal_strlit("BlockString");
    assert("BlockString"@ =~= seq!['B', 'l', 'o', 'c', 'k', 'S', 't', 'r', 'i', 'n', 'g']);
    reveal_strlit("String");
    assert("String"@ =~= seq!['S', 't', 'r', 'i', 'n', 'g']);
    reveal_strlit("Int");
    assert("Int"@ =~= seq!['I', 'n', 't']);
    reveal_strlit("Float");
    assert("Float"@ =~= seq!['F', 'l', 'o', 'a', 't']);
    let l1 = kind_label(c1, d1);
    let l2 = kind_label(c2, d2);
    assert(l1.len() != l2.len() || l1[0] != l2[0]);
}

} // verus!
