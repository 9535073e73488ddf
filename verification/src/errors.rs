//! Translate apollo-parser errors into the wording of `GraphQL\Error\SyntaxError`.

use vstd::prelude::*;
use vstd::utf8::*;
use vstd::string::StringSliceAdditionalSpecFns;
use crate::text::{
    lemma_skip_while_at, trim_pred, strip_end, byte_is_alpha, byte_is_digit, byte_is_name, char_to_uppercase, chars_of, contains_seq, contains_str, decimal, decimal_chars, decode_bytes, eq_lit, find_bytes, find_chars, first_match, is_ascii_alpha, is_ascii_digit, is_name_byte, lemma_ascii_cut_valid, lemma_contains_first_match, lemma_skip_while, lower_seq, opt_int, push_chars, push_str, remove_quotes, replace_all, replace_lit, skip_while, slice_chars, starts_with, starts_with_str, strip_prefix_lit, strip_prefix_or, string_of, to_lower, to_upper, trim_by, trim_quotes_seq, word_at, trim_seq, unicode_uppercase, upper_seq, without_quotes,
};

verus! {

broadcast use vstd::seq_lib::group_seq_properties;

/// A syntax error as the parser reports it: its message and the byte offset
/// in the parsed text where it begins.
#[derive(Debug)]
pub struct SyntaxErrorInfo {
    pub message: String,
    pub index: usize,
}

// --- previewing the token at the error site ------------------------------------------

/// The one-character punctuators and `...`, by their first byte.
pub open spec fn punct_of(b: u8) -> Option<Seq<char>> {
    if b == 123 {
        Some("{"@)
    } else if b == 125 {
        Some("}"@)
    } else if b == 40 {
        Some("("@)
    } else if b == 41 {
        Some(")"@)
    } else if b == 91 {
        Some("["@)
    } else if b == 93 {
        Some("]"@)
    } else if b == 58 {
        Some(":"@)
    } else if b == 61 {
        Some("="@)
    } else if b == 64 {
        Some("@"@)
    } else if b == 36 {
        Some("$"@)
    } else if b == 33 {
        Some("!"@)
    } else if b == 38 {
        Some("&"@)
    } else if b == 124 {
        Some("|"@)
    } else if b == 46 {
        Some("..."@)
    } else {
        None
    }
}

/// A byte that the number preview takes in: digit, `.`, `-`, `+`, `e`, `E`.
pub open spec fn is_number_byte(b: u8) -> bool {
    is_ascii_digit(b) || b == 46 || b == 45 || b == 43 || b == 101 || b == 69
}

pub open spec fn number_pred() -> spec_fn(u8) -> bool {
    |b: u8| is_number_byte(b)
}

pub open spec fn name_pred() -> spec_fn(u8) -> bool {
    |b: u8| is_name_byte(b)
}

/// Where the string preview ends: the next `"`, skipping a byte after `\`.
pub open spec fn string_end(b: Seq<u8>, p: int) -> int
    decreases b.len() - p,
{
    if 0 <= p < b.len() && b[p] != 34 {
        if b[p] == 92 && p + 1 < b.len() {
            string_end(b, p + 2)
        } else {
            string_end(b, p + 1)
        }
    } else {
        p
    }
}

pub proof fn lemma_string_end(b: Seq<u8>, p: int)
    requires
        0 <= p <= b.len(),
    ensures
        p <= string_end(b, p) <= b.len(),
        string_end(b, p) < b.len() ==> b[string_end(b, p)] == 34,
    decreases b.len() - p,
{
    if 0 <= p < b.len() && b[p] != 34 {
        if b[p] == 92 && p + 1 < b.len() {
            lemma_string_end(b, p + 2);
        } else {
            lemma_string_end(b, p + 1);
        }
    }
}

/// The text `b[s..e]` decoded, when it is valid UTF-8, put between `before`
/// and `after`.
pub open spec fn framed(b: Seq<u8>, s: int, e: int, before: Seq<char>, after: Seq<char>) -> Option<
    Seq<char>,
> {
    if valid_utf8(b.subrange(s, e)) {
        Some(before + decode_utf8(b.subrange(s, e)) + after)
    } else {
        None
    }
}

/// A number run holds a `.`, `e` or `E`: PHP describes it as a `Float`.
pub open spec fn is_float_run(b: Seq<u8>, s: int, e: int) -> bool {
    exists|k: int| s <= k < e && (b[k] == 46 || b[k] == 101 || b[k] == 69)
}

/// A one-token preview of the byte at `offset`, in the words of the PHP
/// lexer's `Token::getDescription()`.
pub open spec fn peek_spec(b: Seq<u8>, offset: int) -> Option<Seq<char>> {
    if offset >= b.len() {
        Some("<EOF>"@)
    } else {
        let x = b[offset];
        if punct_of(x) is Some {
            punct_of(x)
        } else if is_ascii_alpha(x) || x == 95 {
            framed(b, offset, skip_while(b, name_pred(), offset + 1), "Name \""@, "\""@)
        } else if is_ascii_digit(x) || x == 45 {
            let e = skip_while(b, number_pred(), offset + 1);
            if is_float_run(b, offset, e) {
                framed(b, offset, e, "Float \""@, "\""@)
            } else {
                framed(b, offset, e, "Int \""@, "\""@)
            }
        } else if x == 34 {
            framed(b, offset, string_end(b, offset + 1), "String "@, "\""@)
        } else {
            None
        }
    }
}

fn punct(b: u8) -> (r: Option<Vec<char>>)
    ensures
        match r {
            Some(v) => punct_of(b) == Some(v@),
            None => punct_of(b) is None,
        },
{
    let s = if b == 123 {
        "{"
    } else if b == 125 {
        "}"
    } else if b == 40 {
        "("
    } else if b == 41 {
        ")"
    } else if b == 91 {
        "["
    } else if b == 93 {
        "]"
    } else if b == 58 {
        ":"
    } else if b == 61 {
        "="
    } else if b == 64 {
        "@"
    } else if b == 36 {
        "$"
    } else if b == 33 {
        "!"
    } else if b == 38 {
        "&"
    } else if b == 124 {
        "|"
    } else if b == 46 {
        "..."
    } else {
        return None;
    };
    Some(chars_of(s))
}

/// `b[s..e]` decoded and framed; `None` when it is not valid UTF-8.
fn framed_text(bytes: &[u8], s: usize, e: usize, before: &str, after: &str) -> (r: Option<
    Vec<char>,
>)
    requires
        s <= e <= bytes@.len(),
    ensures
        opt_view(r) == framed(bytes@, s as int, e as int, before@, after@),
{
    match decode_bytes(&bytes[s..e]) {
        Some(text) => {
            let mut out = chars_of(before);
            push_chars(&mut out, &text);
            push_str(&mut out, after);
            Some(out)
        },
        None => None,
    }
}

/// The view of an optional character vector.
pub open spec fn opt_view(o: Option<Vec<char>>) -> Option<Seq<char>> {
    match o {
        Some(v) => Some(v@),
        None => None,
    }
}

/// Inspect the byte at the error position and synthesize a one-token preview
/// that mimics `Token::getDescription()` in the PHP lexer.
pub fn peek_token(body: &str, offset: usize) -> (r: Option<String>)
    ensures
        match r {
            Some(s) => peek_spec(body.spec_bytes(), offset as int) == Some(s@),
            None => peek_spec(body.spec_bytes(), offset as int) is None,
        },
{
    let v = peek_token_chars(body.as_bytes(), offset);
    match v {
        Some(v) => Some(string_of(&v)),
        None => None,
    }
}

fn peek_token_chars(bytes: &[u8], offset: usize) -> (r: Option<Vec<char>>)
    ensures
        opt_view(r) == peek_spec(bytes@, offset as int),
{
    let n = bytes.len();
    if offset >= n {
        return Some(chars_of("<EOF>"));
    }
    let b = bytes[offset];
    if let Some(s) = punct(b) {
        return Some(s);
    }
    // Try Name / number / string
    if byte_is_alpha(b) || b == 95 {
        let mut end = offset + 1;
        while end < n && byte_is_name(bytes[end])
            invariant
                n == bytes@.len(),
                offset < end <= n,
                skip_while(bytes@, name_pred(), offset + 1) == skip_while(
                    bytes@,
                    name_pred(),
                    end as int,
                ),
            decreases n - end,
        {
            end += 1;
        }
        proof {
            lemma_skip_while(bytes@, name_pred(), end as int);
        }
        return framed_text(bytes, offset, end, "Name \"", "\"");
    }
    if byte_is_digit(b) || b == 45 {
        // Naive number capture; a `.`, `e` or `E` makes it a float.
        let mut end = offset + 1;
        let mut float = false;
        while end < n && (byte_is_digit(bytes[end]) || bytes[end] == 46 || bytes[end] == 45
            || bytes[end] == 43 || bytes[end] == 101 || bytes[end] == 69)
            invariant
                n == bytes@.len(),
                offset < end <= n,
                b == 45 || is_ascii_digit(b),
                b == bytes@[offset as int],
                skip_while(bytes@, number_pred(), offset + 1) == skip_while(
                    bytes@,
                    number_pred(),
                    end as int,
                ),
                float == is_float_run(bytes@, offset as int, end as int),
            decreases n - end,
        {
            let c = bytes[end];
            if c == 46 || c == 101 || c == 69 {
                float = true;
            }
            proof {
                if float {
                    if c == 46 || c == 101 || c == 69 {
                        assert(is_float_run(bytes@, offset as int, end + 1));
                    } else {
                        let k = choose|k: int|
                            offset <= k < end && (bytes@[k] == 46 || bytes@[k] == 101 || bytes@[k]
                                == 69);
                        assert(is_float_run(bytes@, offset as int, end + 1));
                    }
                } else {
                    assert forall|k: int| offset <= k < end + 1 implies !(bytes@[k] == 46
                        || bytes@[k] == 101 || bytes@[k] == 69) by {
                        if k < end {
                            assert(!is_float_run(bytes@, offset as int, end as int));
                        }
                    }
                }
            }
            end += 1;
        }
        proof {
            lemma_skip_while(bytes@, number_pred(), end as int);
        }
        if float {
            return framed_text(bytes, offset, end, "Float \"", "\"");
        }
        return framed_text(bytes, offset, end, "Int \"", "\"");
    }
    if b == 34 {
        // Capture up to the closing quote; a backslash skips the next byte.
        let mut end = offset + 1;
        while end < n && bytes[end] != 34
            invariant
                n == bytes@.len(),
                offset < end <= n,
                string_end(bytes@, offset + 1) == string_end(bytes@, end as int),
            decreases n - end,
        {
            if bytes[end] == 92 && end + 1 < n {
                end += 2;
            } else {
                end += 1;
            }
        }
        return framed_text(bytes, offset, end, "String ", "\"");
    }
    None
}

// --- rewording the parser's expectations -------------------------------------------------

/// The token names of the parser's "expected X" messages, in PHP wording.
pub open spec fn expected_spec(raw: Seq<char>) -> Seq<char> {
    let r = trim_quotes_seq(trim_seq(raw));
    let stripped = strip_prefix_or(strip_prefix_or(r, "a "@), "an "@);
    let l = lower_seq(stripped);
    if l == "name"@ {
        "Name"@
    } else if l == "r_curly"@ {
        "}"@
    } else if l == "l_curly"@ {
        "{"@
    } else if l == "r_paren"@ {
        ")"@
    } else if l == "l_paren"@ {
        "("@
    } else if l == "r_brack"@ {
        "]"@
    } else if l == "l_brack"@ {
        "["@
    } else if l == "colon"@ {
        ":"@
    } else {
        "\""@ + stripped + "\""@
    }
}

fn format_expected_chars(raw: &Vec<char>) -> (r: Vec<char>)
    ensures
        r@ == expected_spec(raw@),
{
    // apollo: "R_CURLY" / "NAME" / "'on'" / "a name"
    let r = trim_by(&trim_by(raw, false), true);
    // "a name" / "a Name" / "a operation"
    let stripped = strip_prefix_lit(&strip_prefix_lit(&r, "a "), "an ");
    let l = to_lower(&stripped);
    let s = if eq_lit(&l, "name") {
        "Name"
    } else if eq_lit(&l, "r_curly") {
        "}"
    } else if eq_lit(&l, "l_curly") {
        "{"
    } else if eq_lit(&l, "r_paren") {
        ")"
    } else if eq_lit(&l, "l_paren") {
        "("
    } else if eq_lit(&l, "r_brack") {
        "]"
    } else if eq_lit(&l, "l_brack") {
        "["
    } else if eq_lit(&l, "colon") {
        ":"
    } else {
        let mut out = chars_of("\"");
        push_chars(&mut out, &stripped);
        push_str(&mut out, "\"");
        return out;
    };
    chars_of(s)
}

/// Reword the "X" of an "expected X" message: `R_CURLY` ⇒ `}`, `a name` ⇒
/// `Name`, anything else is quoted.
pub fn format_expected(raw: &str) -> (r: String)
    ensures
        r@ == expected_spec(raw@),
{
    string_of(&format_expected_chars(&chars_of(raw)))
}

/// The "found Y" of a "got Y" message: `EOF` becomes `<EOF>`.
pub open spec fn found_spec(s: Seq<char>) -> Seq<char> {
    if upper_seq(trim_seq(s)) == "EOF"@ {
        "<EOF>"@
    } else {
        trim_seq(s)
    }
}

fn format_found_chars(s: &Vec<char>) -> (r: Vec<char>)
    ensures
        r@ == found_spec(s@),
{
    let t = trim_by(s, false);
    if eq_lit(&to_upper(&t), "EOF") {
        chars_of("<EOF>")
    } else {
        t
    }
}

/// Reword the "got Y" of a parser message: `EOF` ⇒ `<EOF>`, anything else
/// trimmed.
pub fn format_found_apollo(s: &str) -> (r: String)
    ensures
        r@ == found_spec(s@),
{
    string_of(&format_found_chars(&chars_of(s)))
}

// --- the description of the first error -----------------------------------------------

/// The bytes of `extend`.
pub open spec fn extend_word() -> Seq<u8> {
    seq![101u8, 120u8, 116u8, 101u8, 110u8, 100u8]
}

fn extend_bytes() -> (v: Vec<u8>)
    ensures
        v@ == extend_word(),
{
    let v: Vec<u8> = vec![101u8, 120u8, 116u8, 101u8, 110u8, 100u8];
    assert(v@ =~= extend_word());
    v
}

pub open spec fn space_pred() -> spec_fn(u8) -> bool {
    |b: u8| b == 32
}

/// Three `"` at `p`.
pub open spec fn triple_quote_at(b: Seq<u8>, p: int) -> bool {
    0 <= p && p + 2 < b.len() && b[p] == 34 && b[p + 1] == 34 && b[p + 2] == 34
}

/// Where a block string whose body starts at `p` ends: after the first `"""`
/// that is not escaped as `\"""`, or the end of the text.
pub open spec fn block_end(b: Seq<u8>, p: int) -> int
    decreases b.len() - p,
{
    if p < 0 || p >= b.len() {
        b.len() as int
    } else if b[p] == 92 && triple_quote_at(b, p + 1) {
        block_end(b, p + 4)
    } else if triple_quote_at(b, p) {
        p + 3
    } else {
        block_end(b, p + 1)
    }
}

pub proof fn lemma_block_end(b: Seq<u8>, p: int)
    requires
        0 <= p,
    ensures
        p <= block_end(b, p) || p > b.len(),
        block_end(b, p) <= b.len(),
    decreases b.len() - p,
{
    if p < b.len() {
        if b[p] == 92 && triple_quote_at(b, p + 1) {
            lemma_block_end(b, p + 4);
        } else if !triple_quote_at(b, p) {
            lemma_block_end(b, p + 1);
        }
    }
}

/// The end of the line from `p` on: the next `\n` or `\r`, or the end.
pub open spec fn line_end(b: Seq<u8>, p: int) -> int
    decreases b.len() - p,
{
    if 0 <= p < b.len() && b[p] != 10 && b[p] != 13 {
        line_end(b, p + 1)
    } else {
        p
    }
}

pub proof fn lemma_line_end(b: Seq<u8>, p: int)
    requires
        0 <= p <= b.len(),
    ensures
        p <= line_end(b, p) <= b.len(),
    decreases b.len() - p,
{
    if 0 <= p < b.len() && b[p] != 10 && b[p] != 13 {
        lemma_line_end(b, p + 1);
    }
}

/// Where the scan for `extend` goes on after the token that starts at `i`:
/// past a string, a block string or a comment, or to the next byte.
pub open spec fn skip_token(b: Seq<u8>, i: int) -> int {
    if b[i] == 34 {
        if triple_quote_at(b, i) {
            block_end(b, i + 3)
        } else {
            let e = string_end(b, i + 1);
            if e < b.len() {
                e + 1
            } else {
                e
            }
        }
    } else if b[i] == 35 {
        line_end(b, i + 1)
    } else {
        i + 1
    }
}

pub proof fn lemma_skip_token(b: Seq<u8>, i: int)
    requires
        0 <= i < b.len(),
    ensures
        i < skip_token(b, i) <= b.len(),
{
    if b[i] == 34 {
        if triple_quote_at(b, i) {
            lemma_block_end(b, i + 3);
        } else {
            lemma_string_end(b, i + 1);
        }
    } else if b[i] == 35 {
        lemma_line_end(b, i + 1);
    }
}

/// The first `extend` keyword of `b[i..]`: a whole word that stands outside
/// string literals, block strings and comments.
pub open spec fn extend_keyword(b: Seq<u8>, i: int) -> Option<int>
    decreases b.len() - i,
{
    if i < 0 || i >= b.len() {
        None
    } else if b[i] != 34 && b[i] != 35 && word_at(b, i, extend_word()) {
        Some(i)
    } else {
        proof {
            lemma_skip_token(b, i);
        }
        extend_keyword(b, skip_token(b, i))
    }
}

proof fn lemma_extend_keyword(b: Seq<u8>, i: int)
    requires
        0 <= i,
    ensures
        extend_keyword(b, i) matches Some(p) ==> i <= p && word_at(b, p, extend_word()),
    decreases b.len() - i,
{
    if 0 <= i < b.len() && !(b[i] != 34 && b[i] != 35 && word_at(b, i, extend_word())) {
        lemma_skip_token(b, i);
        lemma_extend_keyword(b, skip_token(b, i));
    }
}

/// Where the first `extend` keyword of the body is, and where the spaces
/// after it end.
pub open spec fn extend_site(b: Seq<u8>) -> Option<(int, int)> {
    match extend_keyword(b, 0) {
        Some(p) => Some((p, skip_while(b, space_pred(), p + 6))),
        None => None,
    }
}

/// The wording for a misplaced description around `extend`:
/// `"Description" extend …` ⇒ `Unexpected Name "extend"`,
/// `extend "Description" …` ⇒ `Unexpected String "Description"`.
pub open spec fn extend_spec(b: Seq<u8>) -> Seq<char> {
    match extend_site(b) {
        Some((p, i)) => if i < b.len() && b[i] == 34 {
            let rest = b.subrange(i + 1, b.len() as int);
            match first_match(rest, seq![34u8]) {
                Some(e) => "Unexpected String \""@ + decode_utf8(rest.subrange(0, e)) + "\""@,
                None => "Unexpected Name \"extend\""@,
            }
        } else {
            "Unexpected Name \"extend\""@
        },
        None => "Unexpected Name \"extend\""@,
    }
}

fn is_triple_quote_at(bytes: &[u8], p: usize) -> (r: bool)
    ensures
        r == triple_quote_at(bytes@, p as int),
{
    p < bytes.len() && bytes.len() - p > 2 && bytes[p] == 34 && bytes[p + 1] == 34 && bytes[p + 2]
        == 34
}

/// The position after the token that starts at `i` (see [`skip_token`]).
pub(crate) fn skip_token_at(bytes: &[u8], i: usize) -> (r: usize)
    requires
        i < bytes@.len(),
    ensures
        r == skip_token(bytes@, i as int),
        i < r <= bytes@.len(),
{
    proof {
        lemma_skip_token(bytes@, i as int);
    }
    let n = bytes.len();
    if bytes[i] == 34 {
        if is_triple_quote_at(bytes, i) {
            let mut p = i + 3;
            while p < n && (bytes[p] == 92 && is_triple_quote_at(bytes, p + 1)
                || !is_triple_quote_at(bytes, p))
                invariant
                    i + 3 <= p <= n,
                    n == bytes@.len(),
                    block_end(bytes@, i + 3) == block_end(bytes@, p as int),
                decreases n - p,
            {
                if bytes[p] == 92 && is_triple_quote_at(bytes, p + 1) {
                    p = p + 4;
                } else {
                    p = p + 1;
                }
            }
            if p < n {
                p + 3
            } else {
                n
            }
        } else {
            let mut e = i + 1;
            while e < n && bytes[e] != 34
                invariant
                    i + 1 <= e <= n,
                    n == bytes@.len(),
                    string_end(bytes@, i + 1) == string_end(bytes@, e as int),
                decreases n - e,
            {
                if bytes[e] == 92 && e + 1 < n {
                    e = e + 2;
                } else {
                    e = e + 1;
                }
            }
            if e < n {
                e + 1
            } else {
                e
            }
        }
    } else if bytes[i] == 35 {
        let mut e = i + 1;
        while e < n && bytes[e] != 10 && bytes[e] != 13
            invariant
                i + 1 <= e <= n,
                n == bytes@.len(),
                line_end(bytes@, i + 1) == line_end(bytes@, e as int),
            decreases n - e,
        {
            e = e + 1;
        }
        e
    } else {
        i + 1
    }
}

/// The first `extend` keyword and the position after the spaces that follow
/// it.
fn find_extend(bytes: &[u8]) -> (r: Option<(usize, usize)>)
    ensures
        match r {
            Some((p, i)) => extend_site(bytes@) == Some((p as int, i as int)) && i <= bytes@.len(),
            None => extend_site(bytes@) is None,
        },
{
    let kw = extend_bytes();
    let n = bytes.len();
    let mut q: usize = 0;
    while q < n
        invariant
            n == bytes@.len(),
            q <= n,
            kw@ == extend_word(),
            extend_keyword(bytes@, 0) == extend_keyword(bytes@, q as int),
        decreases n - q,
    {
        if bytes[q] != 34 && bytes[q] != 35 && crate::text::matches_word(bytes, q, kw.as_slice()) {
            assert(extend_keyword(bytes@, q as int) == Some(q as int));
            let ext_pos = q;
            let mut i = ext_pos + 6;
            while i < n && bytes[i] == 32
                invariant
                    n == bytes@.len(),
                    ext_pos + 6 <= i <= n,
                    skip_while(bytes@, space_pred(), ext_pos + 6) == skip_while(
                        bytes@,
                        space_pred(),
                        i as int,
                    ),
                decreases n - i,
            {
                i += 1;
            }
            return Some((ext_pos, i));
        }
        assert(extend_keyword(bytes@, q as int) == extend_keyword(
            bytes@,
            skip_token(bytes@, q as int),
        ));
        q = skip_token_at(bytes, q);
    }
    None
}

fn extend_wording(body: &str) -> (r: Vec<char>)
    ensures
        r@ == extend_spec(body.spec_bytes()),
{
    let bytes = body.as_bytes();
    let n = bytes.len();
    proof {
        encode_utf8_valid_utf8(body@);
    }
    if let Some((_ext_pos, i)) = find_extend(bytes) {
        if i < n && bytes[i] == 34 {
            // Find the closing quote.
            let rest = &bytes[i + 1..n];
            let quote: Vec<u8> = vec![34u8];
            assert(quote@ =~= seq![34u8]);
            if let Some(end) = find_bytes(rest, quote.as_slice()) {
                proof {
                    crate::text::lemma_contains_first_match(rest@, seq![34u8]);
                    lemma_ascii_cut_valid(bytes@, i + 1, i + 1 + end);
                    assert(rest@.subrange(0, end as int) =~= bytes@.subrange(
                        i + 1,
                        i + 1 + end,
                    ));
                }
                let desc = match decode_bytes(&rest[0..end]) {
                    Some(d) => d,
                    None => Vec::new(),
                };
                let mut out = chars_of("Unexpected String \"");
                push_chars(&mut out, &desc);
                push_str(&mut out, "\"");
                return out;
            }
        }
    }
    chars_of("Unexpected Name \"extend\"")
}

/// `s` without `'` and `"`.
pub open spec fn remove_quote_marks(s: Seq<char>) -> Seq<char>
    decreases s.len(),
{
    if s.len() == 0 {
        s
    } else if s.last() == '\'' || s.last() == '"' {
        remove_quote_marks(s.drop_last())
    } else {
        remove_quote_marks(s.drop_last()).push(s.last())
    }
}

fn without_quote_marks(v: &Vec<char>) -> (r: Vec<char>)
    ensures
        r@ == remove_quote_marks(v@),
{
    let mut out: Vec<char> = Vec::new();
    let mut i: usize = 0;
    while i < v.len()
        invariant
            i <= v.len(),
            out@ == remove_quote_marks(v@.take(i as int)),
        decreases v.len() - i,
    {
        assert(v@.take(i + 1).drop_last() =~= v@.take(i as int));
        if v[i] != '\'' && v[i] != '"' {
            out.push(v[i]);
        }
        i += 1;
    }
    assert(v@.take(v.len() as int) =~= v@);
    out
}

/// The messages that become `Expected Name, found …`.
pub open spec fn expects_name(lower: Seq<char>) -> bool {
    ||| contains_seq(lower, "at least one selection in selection set"@)
    ||| contains_seq(lower, "expected union member type"@)
    ||| contains_seq(lower, "expected field definition"@)
    ||| contains_seq(lower, "expected directive location"@)
    ||| contains_seq(lower, "expected a value"@)
    ||| contains_seq(lower, "expected name in type condition"@)
    ||| contains_seq(lower, "expected a name in type condition"@)
}

/// Messages about a definition keyword that become `Unexpected …`.
pub open spec fn unexpected_definition(lower: Seq<char>) -> bool {
    ||| contains_seq(lower, "a stringvalue, name or operationdefinition"@)
    ||| contains_seq(lower, "a stringvalue, name, or operationdefinition"@)
    ||| contains_seq(lower, "expected an enum value definition"@)
}

/// Messages about a type extension without a body that become `Unexpected …`.
pub open spec fn unexpected_extension(lower: Seq<char>) -> bool {
    ||| contains_seq(lower, "expected an implements interfaces, directives, or a fields definition"@)
    ||| contains_seq(lower, "expected implements interface, directives or a fields definition"@)
    ||| contains_seq(
        lower,
        "exptected an implements interfaces, directives, or a fields definition"@,
    )
    ||| contains_seq(lower, "expected directives, or a fields definition"@)
}

/// The specific parser wordings that map to a fixed PHP wording; `None` for
/// messages that none of them covers. `lower` is the message in ASCII lower
/// case, `stripped` the same without quote marks, `at_site` the preview of
/// the token at the error offset and `site` that preview or `<EOF>`.
pub open spec fn specific_spec(
    lower: Seq<char>,
    stripped: Seq<char>,
    at_site: Option<Seq<char>>,
    site: Seq<char>,
    b: Seq<u8>,
) -> Option<Seq<char>> {
    if contains_seq(stripped, "implements interface"@) && contains_seq(
        stripped,
        "fields definition"@,
    ) && starts_with(stripped, "expected"@) {
        Some("Unexpected "@ + site)
    } else if contains_seq(lower, "expected a selection set"@) {
        Some("Expected {, found "@ + site)
    } else if expects_name(lower) {
        Some("Expected Name, found "@ + site)
    } else if contains_seq(stripped, "fragment name cannot be on"@) {
        Some("Unexpected Name \"on\""@)
    } else if contains_seq(stripped, "invalid type system extension"@) {
        Some(extend_spec(b))
    } else if contains_seq(stripped, "unexpected variable value in a const context"@) {
        Some("Unexpected $"@)
    } else if stripped == "expected r_curly, got eof"@ {
        Some("Expected Name, found <EOF>"@)
    } else if contains_seq(stripped, "valid directive location"@) {
        Some("Unexpected "@ + site)
    } else if starts_with(stripped, "expected definition"@) && at_site == Some("("@) {
        Some("Expected :, found ("@)
    } else if unexpected_definition(lower) || unexpected_extension(lower) || starts_with(
        lower,
        "expected definition"@,
    ) {
        Some("Unexpected "@ + site)
    } else if (starts_with(stripped, "expected a name"@) || starts_with(
        stripped,
        "expected name"@,
    )) && at_site == Some("("@) {
        Some("Expected :, found ("@)
    } else {
        None
    }
}

/// The general rewording when no specific one applies.
pub open spec fn generic_spec(raw: Seq<char>, lower: Seq<char>, site: Seq<char>) -> Seq<char> {
    if starts_with(lower, "expected "@) {
        let after = lower.skip(9);
        match first_match(after, ", got "@) {
            Some(i) => "Expected "@ + expected_spec(after.subrange(0, i)) + ", found "@
                + found_spec(trim_quotes_seq(after.skip(i + 6))),
            None => "Expected "@ + expected_spec(after) + ", found "@ + site,
        }
    } else if starts_with(lower, "unexpected"@) {
        if raw[0] == 'u' {
            seq!['U'] + raw.skip(1)
        } else {
            raw
        }
    } else if raw.len() == 0 {
        raw
    } else {
        replace_all(
            unicode_uppercase(raw[0]) + remove_quotes(raw.skip(1)),
            "got "@,
            "found "@,
        )
    }
}

/// The PHP wording of an error with message `raw` at byte `index` of `b`.
pub open spec fn describe_spec(raw: Seq<char>, index: int, limit: nat, b: Seq<u8>) -> Seq<char> {
    let lower = lower_seq(raw);
    let at_site = peek_spec(b, index);
    let site = match at_site {
        Some(s) => s,
        None => "<EOF>"@,
    };
    if contains_seq(lower, "recursion"@) {
        "Recursion depth limit of "@ + decimal(limit) + " exceeded"@
    } else {
        match specific_spec(lower, remove_quote_marks(lower), at_site, site, b) {
            Some(s) => s,
            None => generic_spec(raw, lower, site),
        }
    }
}

fn prefixed(prefix: &str, rest: &Vec<char>) -> (r: Vec<char>)
    ensures
        r@ == prefix@ + rest@,
{
    let mut out = chars_of(prefix);
    push_chars(&mut out, rest);
    out
}

fn is_open_paren(at_site: &Option<Vec<char>>) -> (r: bool)
    ensures
        r == (opt_view(*at_site) == Some("("@)),
{
    match at_site {
        Some(s) => eq_lit(s, "("),
        None => false,
    }
}

#[verifier::rlimit(40)]
fn specific_wording(
    lower: &Vec<char>,
    stripped: &Vec<char>,
    at_site: &Option<Vec<char>>,
    site: &Vec<char>,
    body: &str,
) -> (r: Option<Vec<char>>)
    ensures
        opt_view(r) == specific_spec(
            lower@,
            stripped@,
            opt_view(*at_site),
            site@,
            body.spec_bytes(),
        ),
{
    // Specific parser wordings ⇒ PHP wordings.
    // "Expected [an? ] Implements Interface[s]?, Directives,? or a Fields
    // Definition" covers the various "extend type X" with no body.
    if contains_str(stripped, "implements interface") && contains_str(
        stripped,
        "fields definition",
    ) && starts_with_str(stripped, "expected") {
        return Some(prefixed("Unexpected ", site));
    }
    if contains_str(lower, "expected a selection set") {
        // `query`, `mutation`, etc. without a body — PHP expects `{`.
        return Some(prefixed("Expected {, found ", site));
    }
    if contains_str(lower, "at least one selection in selection set") || contains_str(
        lower,
        "expected union member type",
    ) || contains_str(lower, "expected field definition") || contains_str(
        lower,
        "expected directive location",
    ) || contains_str(lower, "expected a value") || contains_str(
        lower,
        "expected name in type condition",
    ) || contains_str(lower, "expected a name in type condition") {
        return Some(prefixed("Expected Name, found ", site));
    }
    if contains_str(stripped, "fragment name cannot be on") {
        return Some(chars_of("Unexpected Name \"on\""));
    }
    if contains_str(stripped, "invalid type system extension") {
        return Some(extend_wording(body));
    }
    if contains_str(stripped, "unexpected variable value in a const context") {
        return Some(chars_of("Unexpected $"));
    }
    // `{f1` (open brace + name + EOF): after a field name the PHP parser
    // looks for `}` or another Name, and at EOF it reports the Name branch.
    if eq_lit(stripped, "expected r_curly, got eof") {
        return Some(chars_of("Expected Name, found <EOF>"));
    }
    if contains_str(stripped, "valid directive location") {
        return Some(prefixed("Unexpected ", site));
    }
    // Input-object args case: `input X { f(arg: Int) }` — PHP had just
    // parsed a Name and was looking for `:`.
    if starts_with_str(stripped, "expected definition") && is_open_paren(at_site) {
        return Some(chars_of("Expected :, found ("));
    }
    if contains_str(lower, "a stringvalue, name or operationdefinition") || contains_str(
        lower,
        "a stringvalue, name, or operationdefinition",
    ) || contains_str(lower, "expected an enum value definition") || contains_str(
        lower,
        "expected an implements interfaces, directives, or a fields definition",
    ) || contains_str(lower, "expected implements interface, directives or a fields definition")
        || contains_str(
        lower,
        "exptected an implements interfaces, directives, or a fields definition",
    ) || contains_str(lower, "expected directives, or a fields definition") || starts_with_str(
        lower,
        "expected definition",
    ) {
        return Some(prefixed("Unexpected ", site));
    }
    if (starts_with_str(stripped, "expected a name") || starts_with_str(stripped, "expected name"))
        && is_open_paren(at_site) {
        return Some(chars_of("Expected :, found ("));
    }
    None
}

fn generic_wording(raw: &Vec<char>, lower: &Vec<char>, site: &Vec<char>) -> (r: Vec<char>)
    requires
        lower@ == lower_seq(raw@),
    ensures
        r@ == generic_spec(raw@, lower@, site@),
{
    proof {
        reveal_strlit("expected ");
        reveal_strlit("unexpected");
        reveal_strlit(", got ");
        reveal_strlit("got ");
        reveal_strlit("U");
        assert(lower@.len() == raw@.len());
    }
    if starts_with_str(lower, "expected ") {
        let after = slice_chars(lower, 9, lower.len());
        assert(after@ =~= lower@.skip(9));
        let got = chars_of(", got ");
        assert(got@.len() == 6);
        let (expected_part, found) = match find_chars(&after, &got) {
            Some(i) => {
                proof {
                    crate::text::lemma_contains_first_match(after@, got@);
                }
                let exp = slice_chars(&after, 0, i);
                let tail = slice_chars(&after, i + 6, after.len());
                assert(tail@ =~= after@.skip(i + 6));
                (exp, format_found_chars(&trim_by(&tail, true)))
            },
            None => (slice_chars(&after, 0, after.len()), slice_chars(site, 0, site.len())),
        };
        proof {
            assert(after@.subrange(0, after@.len() as int) =~= after@);
            assert(site@.subrange(0, site@.len() as int) =~= site@);
        }
        let mut out = prefixed("Expected ", &format_expected_chars(&expected_part));
        push_str(&mut out, ", found ");
        push_chars(&mut out, &found);
        return out;
    }
    if starts_with_str(lower, "unexpected") {
        // The first character is `u` or `U`; a lowercase one is uppercased.
        if raw[0] == 'u' {
            let mut out = chars_of("U");
            push_chars(&mut out, &slice_chars(raw, 1, raw.len()));
            proof {
                assert(raw@.subrange(1, raw@.len() as int) =~= raw@.skip(1));
            }
            return out;
        }
        return slice_chars(raw, 0, raw.len());
    }
    if raw.len() == 0 {
        return Vec::new();
    }
    let mut s = char_to_uppercase(raw[0]);
    let rest = slice_chars(raw, 1, raw.len());
    assert(rest@ =~= raw@.skip(1));
    push_chars(&mut s, &without_quotes(&rest));
    replace_lit(&s, "got ", "found ")
}

/// Convert the first parser error into a description string that matches
/// the wording of the PHP parser where feasible. The full input body is
/// passed in so that "Unexpected X" / "Expected X, found Y" messages can
/// name the token at the error site.
pub fn first_error_description(err: &SyntaxErrorInfo, recursion_limit: usize, body: &str) -> (r:
    String)
    ensures
        r@ == describe_spec(err.message@, err.index as int, recursion_limit as nat, body.spec_bytes()),
{
    let raw = chars_of(err.message.as_str());
    let lower = to_lower(&raw);
    if contains_str(&lower, "recursion") {
        let mut out = chars_of("Recursion depth limit of ");
        push_chars(&mut out, &decimal_chars(recursion_limit));
        push_str(&mut out, " exceeded");
        return string_of(&out);
    }
    let at_site = peek_token_chars(body.as_bytes(), err.index);
    let site = match &at_site {
        Some(s) => slice_chars(s, 0, s.len()),
        None => chars_of("<EOF>"),
    };
    proof {
        if at_site is Some {
            let s = at_site->0;
            assert(s@.subrange(0, s@.len() as int) =~= s@);
        }
    }
    // Strip the parser's quote wrappers from the message so that the
    // patterns below see "expected on" instead of "expected 'on'".
    let stripped = without_quote_marks(&lower);
    match specific_wording(&lower, &stripped, &at_site, &site, body) {
        Some(s) => string_of(&s),
        None => string_of(&generic_wording(&raw, &lower, &site)),
    }
}

/// The byte offset of the first error.
pub fn first_error_offset(err: &SyntaxErrorInfo) -> (r: usize)
    ensures
        r == err.index,
{
    err.index
}

/// The offset that the PHP parser reports where it differs from the parser's:
/// for a misplaced description around `extend`, PHP points at `extend` (or at
/// the description string that follows it).
pub open spec fn override_spec(message: Seq<char>, b: Seq<u8>) -> Option<int> {
    if contains_seq(lower_seq(message), "invalid type system extension"@) {
        match extend_site(b) {
            Some((p, i)) => if i < b.len() && b[i] == 34 {
                Some(i)
            } else {
                Some(p)
            },
            None => None,
        }
    } else {
        None
    }
}

/// Override the reported byte offset for specific parser errors, where the
/// PHP location convention differs (description followed by `extend`, where
/// the parser points at the description and PHP points at `extend`).
pub fn override_offset(err: &SyntaxErrorInfo, body: &str) -> (r: Option<usize>)
    ensures
        opt_int(r) == override_spec(err.message@, body.spec_bytes()),
{
    let lower = to_lower(&chars_of(err.message.as_str()));
    if contains_str(&lower, "invalid type system extension") {
        let bytes = body.as_bytes();
        // Case 1: `extend ...` preceded by a description → point at `extend`.
        // Case 2: `extend "..."` → point at the description string.
        if let Some((ext_pos, i)) = find_extend(bytes) {
            if i < bytes.len() && bytes[i] == 34 {
                return Some(i);
            }
            return Some(ext_pos);
        }
    }
    None
}

/// The message of the `SyntaxError` thrown for a description.
pub fn syntax_error_message(description: &str) -> (r: String)
    ensures
        r@ == "Syntax Error: "@ + description@,
{
    let mut out = chars_of("Syntax Error: ");
    push_str(&mut out, description);
    string_of(&out)
}

// --- what an expected punctuator reads ---------------------------------------------

/// The name that apollo-parser gives a punctuator in its "expected X"
/// messages (`SyntaxKind::from_char`: `')'` is `R_PAREN`); `None` for text
/// that is no such punctuator.
pub open spec fn punctuator_kind_name(t: Seq<char>) -> Option<Seq<char>> {
    if t == seq!['('] {
        Some("L_PAREN"@)
    } else if t == seq![')'] {
        Some("R_PAREN"@)
    } else if t == seq!['['] {
        Some("L_BRACK"@)
    } else if t == seq![']'] {
        Some("R_BRACK"@)
    } else if t == seq!['{'] {
        Some("L_CURLY"@)
    } else if t == seq!['}'] {
        Some("R_CURLY"@)
    } else if t == seq![':'] {
        Some("COLON"@)
    } else {
        None
    }
}

/// A syntax-kind name: capitals and `_` only.
spec fn kind_name_chars(n: Seq<char>) -> bool {
    n.len() >= 2 && forall|k: int| 0 <= k < n.len() ==> ('A' <= #[trigger] n[k] && n[k] <= 'Z')
        || n[k] == '_'
}

/// A syntax-kind name is neither trimmed nor stripped of a prefix.
proof fn lemma_kind_name_plain(n: Seq<char>)
    requires
        kind_name_chars(n),
    ensures
        trim_quotes_seq(trim_seq(n)) == n,
        strip_prefix_or(strip_prefix_or(n, "a "@), "an "@) == n,
{
    let len = n.len() as int;
    let ws = trim_pred(false);
    let q = trim_pred(true);
    assert(!ws(n[0]) && !ws(n[len - 1]) && !q(n[0]) && !q(n[len - 1]));
    lemma_skip_while_at(n, ws, 0, 0);
    assert(n.subrange(0, len) =~= n);
    assert(trim_seq(n) == n);
    lemma_skip_while_at(n, q, 0, 0);
    assert(trim_quotes_seq(n) == n);
    reveal_strlit("a ");
    reveal_strlit("an ");
    assert(n.subrange(0, 2)[1] == n[1]);
    assert(!starts_with(n, "a "@));
    assert(n.len() < 3 || n.subrange(0, 3)[1] == n[1]);
    assert(!starts_with(n, "an "@));
}

/// An expected punctuator reads as that punctuator: the expectation that
/// apollo-parser names `R_PAREN` is reworded to `)`, `L_CURLY` to `{`, and so
/// on for every punctuator the rewording knows.
pub proof fn law_expected_punctuator(t: Seq<char>)
    ensures
        punctuator_kind_name(t) matches Some(n) ==> expected_spec(n) == t,
{
    reveal_strlit("colon");
    reveal_strlit("l_brack");
    reveal_strlit("l_curly");
    reveal_strlit("l_paren");
    reveal_strlit("name");
    reveal_strlit("r_brack");
    reveal_strlit("r_curly");
    reveal_strlit("r_paren");
    if t == seq!['('] {
        let n = "L_PAREN"@;
        reveal_strlit("L_PAREN");
        assert(n =~= seq!['L', '_', 'P', 'A', 'R', 'E', 'N']);
        lemma_kind_name_plain(n);
        assert(lower_seq(n) =~= "l_paren"@);
        assert(lower_seq(n).len() != "name"@.len());
        assert(lower_seq(n)[0] != "r_curly"@[0]);
        assert(lower_seq(n)[2] != "l_curly"@[2]);
        assert(lower_seq(n)[0] != "r_paren"@[0]);
        reveal_strlit("(");
        assert("("@ =~= t);
    }
    if t == seq![')'] {
        let n = "R_PAREN"@;
        reveal_strlit("R_PAREN");
        assert(n =~= seq!['R', '_', 'P', 'A', 'R', 'E', 'N']);
        lemma_kind_name_plain(n);
        assert(lower_seq(n) =~= "r_paren"@);
        assert(lower_seq(n).len() != "name"@.len());
        assert(lower_seq(n)[2] != "r_curly"@[2]);
        assert(lower_seq(n)[0] != "l_curly"@[0]);
        reveal_strlit(")");
        assert(")"@ =~= t);
    }
    if t == seq!['['] {
        let n = "L_BRACK"@;
        reveal_strlit("L_BRACK");
        assert(n =~= seq!['L', '_', 'B', 'R', 'A', 'C', 'K']);
        lemma_kind_name_plain(n);
        assert(lower_seq(n) =~= "l_brack"@);
        assert(lower_seq(n).len() != "name"@.len());
        assert(lower_seq(n)[0] != "r_curly"@[0]);
        assert(lower_seq(n)[2] != "l_curly"@[2]);
        assert(lower_seq(n)[0] != "r_paren"@[0]);
        assert(lower_seq(n)[2] != "l_paren"@[2]);
        assert(lower_seq(n)[0] != "r_brack"@[0]);
        reveal_strlit("[");
        assert("["@ =~= t);
    }
    if t == seq![']'] {
        let n = "R_BRACK"@;
        reveal_strlit("R_BRACK");
        assert(n =~= seq!['R', '_', 'B', 'R', 'A', 'C', 'K']);
        lemma_kind_name_plain(n);
        assert(lower_seq(n) =~= "r_brack"@);
        assert(lower_seq(n).len() != "name"@.len());
        assert(lower_seq(n)[2] != "r_curly"@[2]);
        assert(lower_seq(n)[0] != "l_curly"@[0]);
        assert(lower_seq(n)[2] != "r_paren"@[2]);
        assert(lower_seq(n)[0] != "l_paren"@[0]);
        reveal_strlit("]");
        assert("]"@ =~= t);
    }
    if t == seq!['{'] {
        let n = "L_CURLY"@;
        reveal_strlit("L_CURLY");
        assert(n =~= seq!['L', '_', 'C', 'U', 'R', 'L', 'Y']);
        lemma_kind_name_plain(n);
        assert(lower_seq(n) =~= "l_curly"@);
        assert(lower_seq(n).len() != "name"@.len());
        assert(lower_seq(n)[0] != "r_curly"@[0]);
        reveal_strlit("{");
        assert("{"@ =~= t);
    }
    if t == seq!['}'] {
        let n = "R_CURLY"@;
        reveal_strlit("R_CURLY");
        assert(n =~= seq!['R', '_', 'C', 'U', 'R', 'L', 'Y']);
        lemma_kind_name_plain(n);
        assert(lower_seq(n) =~= "r_curly"@);
        assert(lower_seq(n).len() != "name"@.len());
        reveal_strlit("}");
        assert("}"@ =~= t);
    }
    if t == seq![':'] {
        let n = "COLON"@;
        reveal_strlit("COLON");
        assert(n =~= seq!['C', 'O', 'L', 'O', 'N']);
        lemma_kind_name_plain(n);
        assert(lower_seq(n) =~= "colon"@);
        assert(lower_seq(n).len() != "name"@.len());
        assert(lower_seq(n).len() != "r_curly"@.len());
        assert(lower_seq(n).len() != "l_curly"@.len());
        assert(lower_seq(n).len() != "r_paren"@.len());
        assert(lower_seq(n).len() != "l_paren"@.len());
        assert(lower_seq(n).len() != "r_brack"@.len());
        assert(lower_seq(n).len() != "l_brack"@.len());
        reveal_strlit(":");
        assert(":"@ =~= t);
    }
}

/// A lower-case word.
pub open spec fn lower_word(w: Seq<char>) -> bool {
    w.len() >= 1 && forall|k: int| 0 <= k < w.len() ==> 'a' <= #[trigger] w[k] && w[k] <= 'z'
}

proof fn lemma_lower_word_reworded(w: Seq<char>)
    requires
        lower_word(w),
        w != "name"@,
        w != "colon"@,
    ensures
        trim_quotes_seq(trim_seq(w)) == w,
        strip_prefix_or(strip_prefix_or(w, "a "@), "an "@) == w,
        expected_spec(w) == "\""@ + w + "\""@,
{
    let len = w.len() as int;
    reveal_strlit("a ");
    reveal_strlit("an ");
    if len >= 2 {
        assert(w.subrange(0, 2)[1] == w[1]);
    }
    assert(!starts_with(w, "a "@));
    if len >= 3 {
        assert(w.subrange(0, 3)[2] == w[2]);
    }
    assert(!starts_with(w, "an "@));
    assert(lower_seq(w) =~= w);
    reveal_strlit("r_curly");
    reveal_strlit("l_curly");
    reveal_strlit("r_paren");
    reveal_strlit("l_paren");
    reveal_strlit("r_brack");
    reveal_strlit("l_brack");
    if w.len() == 7 {
        assert(w[1] != "r_curly"@[1]);
    }
    if w.len() == 7 {
        assert(w[1] != "l_curly"@[1]);
    }
    if w.len() == 7 {
        assert(w[1] != "r_paren"@[1]);
    }
    if w.len() == 7 {
        assert(w[1] != "l_paren"@[1]);
    }
    if w.len() == 7 {
        assert(w[1] != "r_brack"@[1]);
    }
    if w.len() == 7 {
        assert(w[1] != "l_brack"@[1]);
    }
    let ws = trim_pred(false);
    let q = trim_pred(true);
    assert(!ws(w[0]) && !ws(w[len - 1]) && !q(w[0]) && !q(w[len - 1]));
    lemma_skip_while_at(w, ws, 0, 0);
    lemma_skip_while_at(w, q, 0, 0);
    assert(w.subrange(0, len) =~= w);
    assert(trim_seq(w) == w);
    assert(trim_quotes_seq(w) == w);
}

/// Single quotes around a word are trimmed off.
proof fn lemma_quoted_trim(w: Seq<char>)
    requires
        lower_word(w),
    ensures
        trim_quotes_seq(trim_seq(seq!['\''] + w + seq!['\''])) == w,
{
    let raw = seq!['\''] + w + seq!['\''];
    let len = raw.len() as int;
    let ws = trim_pred(false);
    let q = trim_pred(true);
    assert(raw[0] == '\'' && raw[len - 1] == '\'' && raw[1] == w[0]);
    assert(!ws(raw[0]) && !ws(raw[len - 1]));
    lemma_skip_while_at(raw, ws, 0, 0);
    assert(raw.subrange(0, len) =~= raw);
    assert(trim_seq(raw) == raw);
    assert(!q(raw[1]));
    lemma_skip_while_at(raw, q, 0, 1);
    let mid = raw.subrange(1, len);
    assert(mid.drop_last() =~= w);
    assert(q(mid.last()));
    assert(!q(w.last()));
    assert(strip_end(w, q) == w);
    assert(strip_end(mid, q) == strip_end(w, q));
}

/// Any other expectation is quoted as it stands: a word, bare or between
/// single quotes (apollo writes `'on'`), reads as that word in double
/// quotes.
pub proof fn law_expected_word_quoted(w: Seq<char>)
    requires
        lower_word(w),
        w != "name"@,
        w != "colon"@,
    ensures
        expected_spec(w) == "\""@ + w + "\""@,
        expected_spec(seq!['\''] + w + seq!['\'']) == "\""@ + w + "\""@,
{
    lemma_lower_word_reworded(w);
    lemma_quoted_trim(w);
    assert(trim_quotes_seq(trim_seq(w)) == w);
}

} // verus!
