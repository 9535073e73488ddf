//! Text primitives shared by the preprocessors, decoders and error mapper:
//! character classes, sequence search, UTF-8 facts and conversions between
//! `&str`, `String`, `Vec<char>` and byte slices.

use vstd::prelude::*;
use vstd::utf8::*;

verus! {

broadcast use vstd::seq_lib::group_seq_properties;

// --- character classes --------------------------------------------------------

/// `u8::is_ascii_alphabetic`.
pub open spec fn is_ascii_alpha(b: u8) -> bool {
    (65 <= b && b <= 90) || (97 <= b && b <= 122)
}

/// `u8::is_ascii_digit`.
pub open spec fn is_ascii_digit(b: u8) -> bool {
    48 <= b && b <= 57
}

/// `u8::is_ascii_alphanumeric`.
pub open spec fn is_ascii_alnum(b: u8) -> bool {
    is_ascii_alpha(b) || is_ascii_digit(b)
}

/// A byte that may continue a GraphQL name: `[A-Za-z0-9_]`.
pub open spec fn is_name_byte(b: u8) -> bool {
    is_ascii_alnum(b) || b == 95
}

/// `u8::is_ascii_whitespace`: space, tab, line feed, form feed, carriage return.
pub open spec fn is_ascii_ws(b: u8) -> bool {
    b == 32 || b == 9 || b == 10 || b == 12 || b == 13
}

/// `char::is_whitespace`: the Unicode `White_Space` property.
pub open spec fn is_white_space(c: char) -> bool {
    let u = c as u32;
    (9 <= u && u <= 13) || u == 32 || u == 0x85 || u == 0xA0 || u == 0x1680 || (0x2000 <= u && u
        <= 0x200A) || u == 0x2028 || u == 0x2029 || u == 0x202F || u == 0x205F || u == 0x3000
}

/// `char::to_ascii_lowercase`.
pub open spec fn ascii_lower(c: char) -> char {
    if 'A' <= c && c <= 'Z' {
        ((c as u32) + 32) as char
    } else {
        c
    }
}

/// `char::to_ascii_uppercase`.
pub open spec fn ascii_upper(c: char) -> char {
    if 'a' <= c && c <= 'z' {
        ((c as u32) - 32) as char
    } else {
        c
    }
}

/// `str::to_ascii_lowercase`, character by character.
pub open spec fn lower_seq(s: Seq<char>) -> Seq<char> {
    s.map_values(|c: char| ascii_lower(c))
}

/// `str::to_ascii_uppercase`, character by character.
pub open spec fn upper_seq(s: Seq<char>) -> Seq<char> {
    s.map_values(|c: char| ascii_upper(c))
}

/// Every byte taken as the `char` with the same code (`b as char`).
pub open spec fn bytes_as_chars(b: Seq<u8>) -> Seq<char> {
    b.map_values(|x: u8| x as char)
}

/// Number of bytes of the UTF-8 encoding of `c` (`char::len_utf8`).
pub open spec fn utf8_width(c: char) -> nat {
    let u = c as u32;
    if u < 0x80 {
        1
    } else if u < 0x800 {
        2
    } else if u < 0x10000 {
        3
    } else {
        4
    }
}

/// Number of bytes of the UTF-8 encoding of `s` (`str::len`).
pub open spec fn utf8_len(s: Seq<char>) -> nat
    decreases s.len(),
{
    if s.len() == 0 {
        0
    } else {
        utf8_len(s.drop_last()) + utf8_width(s.last())
    }
}

// --- searching ---------------------------------------------------------------

/// `pat` occurs in `s` at position `i`.
pub open spec fn matches_at<A>(s: Seq<A>, i: int, pat: Seq<A>) -> bool {
    0 <= i && i + pat.len() <= s.len() && s.subrange(i, i + pat.len()) == pat
}

/// `i` is the first position at which `pat` occurs in `s`.
pub open spec fn is_first_match<A>(s: Seq<A>, pat: Seq<A>, i: int) -> bool {
    &&& matches_at(s, i, pat)
    &&& forall|j: int| 0 <= j < i ==> !matches_at(s, j, pat)
}

/// `str::find`: the first position at which `pat` occurs in `s`.
pub open spec fn first_match<A>(s: Seq<A>, pat: Seq<A>) -> Option<int> {
    if exists|i: int| is_first_match(s, pat, i) {
        Some(choose|i: int| is_first_match(s, pat, i))
    } else {
        None
    }
}

/// `str::contains`.
pub open spec fn contains_seq<A>(s: Seq<A>, pat: Seq<A>) -> bool {
    exists|i: int| matches_at(s, i, pat)
}

/// `str::starts_with`.
pub open spec fn starts_with<A>(s: Seq<A>, pat: Seq<A>) -> bool {
    pat.len() <= s.len() && s.subrange(0, pat.len() as int) == pat
}

/// `str::ends_with`.
pub open spec fn ends_with<A>(s: Seq<A>, pat: Seq<A>) -> bool {
    pat.len() <= s.len() && s.subrange(s.len() - pat.len(), s.len() as int) == pat
}

/// `usize` option taken as an `int` option.
pub open spec fn opt_int(o: Option<usize>) -> Option<int> {
    match o {
        Some(i) => Some(i as int),
        None => None,
    }
}

pub proof fn lemma_first_match_unique<A>(s: Seq<A>, pat: Seq<A>, i: int)
    requires
        is_first_match(s, pat, i),
    ensures
        first_match(s, pat) == Some(i),
{
    let k = choose|k: int| is_first_match(s, pat, k);
    assert(is_first_match(s, pat, k));
    if k < i {
        assert(!matches_at(s, k, pat));
    } else if i < k {
        assert(!matches_at(s, i, pat));
    }
}

pub proof fn lemma_no_match<A>(s: Seq<A>, pat: Seq<A>)
    requires
        forall|j: int| !matches_at(s, j, pat),
    ensures
        first_match(s, pat) == None::<int>,
        !contains_seq(s, pat),
{
}

pub proof fn lemma_contains_first_match<A>(s: Seq<A>, pat: Seq<A>)
    ensures
        contains_seq(s, pat) <==> first_match(s, pat) is Some,
        first_match(s, pat) matches Some(i) ==> is_first_match(s, pat, i),
{
    if contains_seq(s, pat) {
        let i0 = choose|i: int| matches_at(s, i, pat);
        lemma_least_match(s, pat, i0);
    }
}

/// If `pat` occurs at `i0`, there is a first occurrence at or before it.
pub proof fn lemma_least_match<A>(s: Seq<A>, pat: Seq<A>, i0: int)
    requires
        matches_at(s, i0, pat),
    ensures
        exists|i: int| i <= i0 && is_first_match(s, pat, i),
    decreases i0,
{
    if forall|j: int| 0 <= j < i0 ==> !matches_at(s, j, pat) {
        assert(is_first_match(s, pat, i0));
    } else {
        let j = choose|j: int| 0 <= j < i0 && matches_at(s, j, pat);
        lemma_least_match(s, pat, j);
    }
}

// --- executable helpers --------------------------------------------------------

/// The characters of `s`.
pub fn chars_of(s: &str) -> (v: Vec<char>)
    ensures
        v@ == s@,
{
    let mut v: Vec<char> = Vec::new();
    for c in it: s.chars()
        invariant
            v@ == it.seq().take(it.index() as int),
    {
        v.push(c);
    }
    v
}

/// Calls std's `String::push`. Claimed: the string afterwards is the one
/// before with `c` appended.
#[verifier::external_body]
fn string_push(s: &mut String, c: char)
    ensures
        final(s)@ == old(s)@.push(c),
{
    s.push(c);
}

/// A `String` holding exactly the given characters.
pub fn string_of(v: &Vec<char>) -> (s: String)
    ensures
        s@ == v@,
{
    let mut s = String::new();
    let mut i: usize = 0;
    while i < v.len()
        invariant
            i <= v.len(),
            s@ == v@.take(i as int),
        decreases v.len() - i,
    {
        string_push(&mut s, v[i]);
        i += 1;
        assert(v@.take(i as int) == v@.take((i - 1) as int).push(v@[i - 1]));
    }
    assert(v@.take(v.len() as int) == v@);
    s
}

/// Calls `std::str::from_utf8` and takes the decoded text as an owned
/// `String`. Claimed: text comes back exactly when the bytes are valid UTF-8,
/// and it is their decoding.
#[verifier::external_body]
fn from_utf8(bytes: &[u8]) -> (r: Option<String>)
    ensures
        r is Some <==> valid_utf8(bytes@),
        r matches Some(s) ==> s@ == decode_utf8(bytes@),
{
    match std::str::from_utf8(bytes) {
        Ok(s) => Some(s.to_string()),
        Err(_) => None,
    }
}

/// Decode `bytes` as UTF-8, `None` when they are not valid UTF-8.
pub fn decode_bytes(bytes: &[u8]) -> (r: Option<Vec<char>>)
    ensures
        r is Some <==> valid_utf8(bytes@),
        r matches Some(v) ==> v@ == decode_utf8(bytes@),
{
    match from_utf8(bytes) {
        Some(s) => Some(chars_of(s.as_str())),
        None => None,
    }
}

/// Appends the characters of `s` to `v`.
pub fn push_str(v: &mut Vec<char>, s: &str)
    ensures
        final(v)@ == old(v)@ + s@,
{
    let cs = chars_of(s);
    let mut i: usize = 0;
    while i < cs.len()
        invariant
            i <= cs.len(),
            cs@ == s@,
            v@ == old(v)@ + cs@.take(i as int),
        decreases cs.len() - i,
    {
        v.push(cs[i]);
        i += 1;
        assert(cs@.take(i as int) == cs@.take((i - 1) as int).push(cs@[i - 1]));
    }
    assert(cs@.take(cs.len() as int) == cs@);
}

/// Appends the characters of `w` to `v`.
pub fn push_chars(v: &mut Vec<char>, w: &Vec<char>)
    ensures
        final(v)@ == old(v)@ + w@,
{
    let mut i: usize = 0;
    while i < w.len()
        invariant
            i <= w.len(),
            v@ == old(v)@ + w@.take(i as int),
        decreases w.len() - i,
    {
        v.push(w[i]);
        i += 1;
        assert(w@.take(i as int) == w@.take((i - 1) as int).push(w@[i - 1]));
    }
    assert(w@.take(w.len() as int) == w@);
}

/// Appends the bytes `b[start..end]` to `v`.
pub fn push_bytes(v: &mut Vec<u8>, b: &[u8], start: usize, end: usize)
    requires
        start <= end <= b@.len(),
    ensures
        final(v)@ == old(v)@ + b@.subrange(start as int, end as int),
{
    let mut i: usize = start;
    while i < end
        invariant
            start <= i <= end <= b@.len(),
            v@ == old(v)@ + b@.subrange(start as int, i as int),
        decreases end - i,
    {
        v.push(b[i]);
        i += 1;
        assert(b@.subrange(start as int, i as int) =~= b@.subrange(start as int, (i - 1) as int).push(
            b@[i - 1],
        ));
    }
}

/// A position right after an ASCII byte of valid UTF-8 is a character
/// boundary.
pub proof fn lemma_after_ascii_boundary(b: Seq<u8>, k: int)
    requires
        valid_utf8(b),
        0 < k <= b.len(),
        b[k - 1] < 0x80,
    ensures
        is_char_boundary(b, k),
{
    if k == b.len() {
        is_char_boundary_start_end_of_seq(b);
    } else {
        let x = lemma_ascii_suffix_valid(b, k);
        is_char_boundary_iff_not_is_continuation_byte(x, 0);
        assert(x[0] == b[k]);
        is_char_boundary_iff_not_is_continuation_byte(b, k);
    }
}

/// Valid UTF-8, kept folded inside long proofs.
#[verifier::opaque]
pub open spec fn utf8_ok(b: Seq<u8>) -> bool {
    valid_utf8(b)
}

/// A single ASCII byte is valid UTF-8.
pub proof fn lemma_ascii_byte_valid(c: u8)
    requires
        c < 0x80,
    ensures
        valid_utf8(seq![c]),
{
    let x = seq![c];
    let ch = c as char;
    assert(ch as u32 == c as u32);
    encode_utf8_valid_utf8(seq![ch]);
    assert(encode_utf8(seq![ch]) == encode_scalar(ch as u32) + encode_utf8(seq![ch].drop_first()));
    assert(seq![ch].drop_first() =~= Seq::<char>::empty());
    assert(encode_utf8(Seq::<char>::empty()) =~= Seq::<u8>::empty());
    let v: u32 = c as u32;
    assert(v <= 0x7F);
    assert(has_width_1_encoding(v));
    assert(leading_byte_width_1(v) == c) by (bit_vector)
        requires
            v == c as u32,
            c < 0x80,
    ;
    assert(encode_scalar(ch as u32) =~= x);
    assert(encode_utf8(seq![ch]) =~= x);
}

/// Replacing an ASCII byte of valid UTF-8 by another ASCII byte keeps it
/// valid.
pub proof fn lemma_ascii_update_valid(x: Seq<u8>, k: int, c: u8)
    requires
        valid_utf8(x),
        0 <= k < x.len(),
        x[k] < 0x80,
        c < 0x80,
    ensures
        valid_utf8(x.update(k, c)),
{
    lemma_ascii_cut_valid(x, 0, k);
    lemma_ascii_cut_valid(x, k + 1, x.len() as int);
    lemma_ascii_byte_valid(c);
    let a = x.subrange(0, k);
    let d = x.subrange(k + 1, x.len() as int);
    valid_utf8_concat(a, seq![c]);
    valid_utf8_concat(a + seq![c], d);
    assert(x.update(k, c) =~= a + seq![c] + d);
}

/// The text whose UTF-8 encoding is `b`, for valid `b`.
pub fn string_of_bytes(b: &Vec<u8>) -> (s: String)
    requires
        valid_utf8(b@),
    ensures
        encode_utf8(s@) == b@,
        s@ == decode_utf8(b@),
{
    proof {
        decode_utf8_encode_utf8(b@);
    }
    match decode_bytes(b.as_slice()) {
        Some(cs) => string_of(&cs),
        None => {
            assert(false);
            String::new()
        },
    }
}

/// Appends the bytes `b[start..end]`, each taken as a `char`.
pub fn push_bytes_as_chars(v: &mut Vec<char>, b: &[u8], start: usize, end: usize)
    requires
        start <= end <= b@.len(),
    ensures
        final(v)@ == old(v)@ + bytes_as_chars(b@.subrange(start as int, end as int)),
{
    let mut i: usize = start;
    while i < end
        invariant
            start <= i <= end <= b@.len(),
            v@ == old(v)@ + bytes_as_chars(b@.subrange(start as int, i as int)),
        decreases end - i,
    {
        v.push(b[i] as char);
        i += 1;
        assert(bytes_as_chars(b@.subrange(start as int, i as int)) == bytes_as_chars(
            b@.subrange(start as int, (i - 1) as int),
        ).push(b@[i - 1] as char));
    }
}

/// `u8::is_ascii_alphabetic`.
pub fn byte_is_alpha(b: u8) -> (r: bool)
    ensures
        r == is_ascii_alpha(b),
{
    (65 <= b && b <= 90) || (97 <= b && b <= 122)
}

/// `u8::is_ascii_digit`.
pub fn byte_is_digit(b: u8) -> (r: bool)
    ensures
        r == is_ascii_digit(b),
{
    48 <= b && b <= 57
}

/// `u8::is_ascii_alphanumeric`.
pub fn byte_is_alnum(b: u8) -> (r: bool)
    ensures
        r == is_ascii_alnum(b),
{
    byte_is_alpha(b) || byte_is_digit(b)
}

/// `[A-Za-z0-9_]`.
pub fn byte_is_name(b: u8) -> (r: bool)
    ensures
        r == is_name_byte(b),
{
    byte_is_alnum(b) || b == 95
}

/// `u8::is_ascii_whitespace`.
pub fn byte_is_ws(b: u8) -> (r: bool)
    ensures
        r == is_ascii_ws(b),
{
    b == 32 || b == 9 || b == 10 || b == 12 || b == 13
}

/// `char::is_whitespace`.
pub fn char_is_white_space(c: char) -> (r: bool)
    ensures
        r == is_white_space(c),
{
    let u = c as u32;
    (9 <= u && u <= 13) || u == 32 || u == 0x85 || u == 0xA0 || u == 0x1680 || (0x2000 <= u && u
        <= 0x200A) || u == 0x2028 || u == 0x2029 || u == 0x202F || u == 0x205F || u == 0x3000
}

/// `char::len_utf8`.
pub fn char_width(c: char) -> (r: usize)
    ensures
        r == utf8_width(c),
        1 <= r <= 4,
{
    let u = c as u32;
    if u < 0x80 {
        1
    } else if u < 0x800 {
        2
    } else if u < 0x10000 {
        3
    } else {
        4
    }
}

/// `char::to_ascii_lowercase` over a character vector.
pub fn to_lower(v: &Vec<char>) -> (r: Vec<char>)
    ensures
        r@ == lower_seq(v@),
{
    let mut r: Vec<char> = Vec::new();
    let mut i: usize = 0;
    while i < v.len()
        invariant
            i <= v.len(),
            r@ == lower_seq(v@.take(i as int)),
        decreases v.len() - i,
    {
        let c = v[i];
        let l = if 'A' <= c && c <= 'Z' {
            let u = (c as u32) + 32;
            assert(u < 128);
            (u as u8) as char
        } else {
            c
        };
        assert(l == ascii_lower(c));
        r.push(l);
        i += 1;
        assert(lower_seq(v@.take(i as int)) == lower_seq(v@.take((i - 1) as int)).push(
            ascii_lower(v@[i - 1]),
        ));
    }
    assert(v@.take(v.len() as int) == v@);
    r
}

/// `char::to_ascii_uppercase` over a character vector.
pub fn to_upper(v: &Vec<char>) -> (r: Vec<char>)
    ensures
        r@ == upper_seq(v@),
{
    let mut r: Vec<char> = Vec::new();
    let mut i: usize = 0;
    while i < v.len()
        invariant
            i <= v.len(),
            r@ == upper_seq(v@.take(i as int)),
        decreases v.len() - i,
    {
        let c = v[i];
        let l = if 'a' <= c && c <= 'z' {
            let u = (c as u32) - 32;
            assert(u < 128);
            (u as u8) as char
        } else {
            c
        };
        assert(l == ascii_upper(c));
        r.push(l);
        i += 1;
        assert(upper_seq(v@.take(i as int)) == upper_seq(v@.take((i - 1) as int)).push(
            ascii_upper(v@[i - 1]),
        ));
    }
    assert(v@.take(v.len() as int) == v@);
    r
}

/// Whether `pat` occurs in `s` at position `i`.
pub fn chars_match_at(s: &Vec<char>, i: usize, pat: &Vec<char>) -> (r: bool)
    ensures
        r == matches_at(s@, i as int, pat@),
{
    if i > s.len() || pat.len() > s.len() - i {
        return false;
    }
    let mut k: usize = 0;
    while k < pat.len()
        invariant
            i + pat.len() <= s.len(),
            k <= pat.len(),
            forall|m: int| 0 <= m < k ==> s@[i + m] == pat@[m],
        decreases pat.len() - k,
    {
        if s[i + k] != pat[k] {
            assert(s@.subrange(i as int, i + pat.len())[k as int] != pat@[k as int]);
            return false;
        }
        k += 1;
    }
    assert(s@.subrange(i as int, i + pat.len()) =~= pat@);
    true
}

/// `str::find` over characters.
pub fn find_chars(s: &Vec<char>, pat: &Vec<char>) -> (r: Option<usize>)
    ensures
        opt_int(r) == first_match(s@, pat@),
{
    let mut i: usize = 0;
    while i < s.len()
        invariant
            i <= s.len(),
            forall|j: int| 0 <= j < i ==> !matches_at(s@, j, pat@),
        decreases s.len() - i,
    {
        if chars_match_at(s, i, pat) {
            proof {
                lemma_first_match_unique(s@, pat@, i as int);
            }
            return Some(i);
        }
        i += 1;
    }
    if chars_match_at(s, i, pat) {
        proof {
            lemma_first_match_unique(s@, pat@, i as int);
        }
        return Some(i);
    }
    proof {
        assert forall|j: int| !matches_at(s@, j, pat@) by {
            if 0 <= j <= s.len() {
            }
        }
        lemma_no_match(s@, pat@);
    }
    None
}

/// `str::contains` over characters.
pub fn contains_chars(s: &Vec<char>, pat: &Vec<char>) -> (r: bool)
    ensures
        r == contains_seq(s@, pat@),
{
    let f = find_chars(s, pat);
    proof {
        lemma_contains_first_match(s@, pat@);
    }
    f.is_some()
}

/// `str::contains` with a literal pattern.
pub fn contains_str(s: &Vec<char>, pat: &str) -> (r: bool)
    ensures
        r == contains_seq(s@, pat@),
{
    let p = chars_of(pat);
    contains_chars(s, &p)
}

/// `str::starts_with` with a literal pattern.
pub fn starts_with_str(s: &Vec<char>, pat: &str) -> (r: bool)
    ensures
        r == starts_with(s@, pat@),
{
    let p = chars_of(pat);
    chars_match_at(s, 0, &p)
}

/// Whether `pat` occurs in `s` at position `i`, over bytes.
pub fn bytes_match_at(s: &[u8], i: usize, pat: &[u8]) -> (r: bool)
    ensures
        r == matches_at(s@, i as int, pat@),
{
    if i > s.len() || pat.len() > s.len() - i {
        return false;
    }
    let mut k: usize = 0;
    while k < pat.len()
        invariant
            i + pat.len() <= s.len(),
            k <= pat.len(),
            forall|m: int| 0 <= m < k ==> s@[i + m] == pat@[m],
        decreases pat.len() - k,
    {
        if s[i + k] != pat[k] {
            assert(s@.subrange(i as int, i + pat@.len())[k as int] != pat@[k as int]);
            return false;
        }
        k += 1;
    }
    assert(s@.subrange(i as int, i + pat@.len()) =~= pat@);
    true
}

/// `str::find` over bytes.
pub fn find_bytes(s: &[u8], pat: &[u8]) -> (r: Option<usize>)
    ensures
        opt_int(r) == first_match(s@, pat@),
{
    let mut i: usize = 0;
    while i < s.len()
        invariant
            i <= s.len(),
            forall|j: int| 0 <= j < i ==> !matches_at(s@, j, pat@),
        decreases s.len() - i,
    {
        if bytes_match_at(s, i, pat) {
            proof {
                lemma_first_match_unique(s@, pat@, i as int);
            }
            return Some(i);
        }
        i += 1;
    }
    if bytes_match_at(s, i, pat) {
        proof {
            lemma_first_match_unique(s@, pat@, i as int);
        }
        return Some(i);
    }
    proof {
        assert forall|j: int| !matches_at(s@, j, pat@) by {
            if 0 <= j <= s@.len() {
            }
        }
        lemma_no_match(s@, pat@);
    }
    None
}


// --- scanning ------------------------------------------------------------------

/// The first position at or after `i` whose element does not satisfy `p`
/// (or the end of `s`).
pub open spec fn skip_while<A>(s: Seq<A>, p: spec_fn(A) -> bool, i: int) -> int
    decreases s.len() - i,
{
    if 0 <= i < s.len() && p(s[i]) {
        skip_while(s, p, i + 1)
    } else {
        i
    }
}

pub proof fn lemma_skip_while<A>(s: Seq<A>, p: spec_fn(A) -> bool, i: int)
    ensures
        i <= skip_while(s, p, i),
        0 <= i <= s.len() ==> skip_while(s, p, i) <= s.len(),
        forall|k: int| i <= k < skip_while(s, p, i) ==> p(#[trigger] s[k]),
        0 <= i ==> (skip_while(s, p, i) == s.len() || skip_while(s, p, i) < s.len() && !p(
            s[skip_while(s, p, i)],
        )) || skip_while(s, p, i) > s.len(),
    decreases s.len() - i,
{
    if 0 <= i < s.len() && p(s[i]) {
        lemma_skip_while(s, p, i + 1);
    }
}

/// `skip_while` stops at the first element from `i` on that fails `p`.
pub proof fn lemma_skip_while_at<A>(s: Seq<A>, p: spec_fn(A) -> bool, i: int, r: int)
    requires
        0 <= i <= r <= s.len(),
        forall|k: int| i <= k < r ==> p(#[trigger] s[k]),
        r == s.len() || !p(s[r]),
    ensures
        skip_while(s, p, i) == r,
    decreases r - i,
{
    if i < r {
        assert(p(s[i]));
        lemma_skip_while_at(s, p, i + 1, r);
    }
}

/// `skip_while` on a suffix does not look at what stands before it.
pub proof fn lemma_skip_while_shift<A>(a: Seq<A>, c: Seq<A>, p: spec_fn(A) -> bool, i: int)
    requires
        0 <= i,
    ensures
        skip_while(a + c, p, a.len() + i) == a.len() + skip_while(c, p, i),
    decreases c.len() - i,
{
    if i < c.len() {
        assert((a + c)[a.len() + i] == c[i]);
        lemma_skip_while_shift(a, c, p, i + 1);
    }
}

/// `word` occurs at `i` as a whole word: not preceded nor followed by a name byte.
pub open spec fn word_at(b: Seq<u8>, i: int, word: Seq<u8>) -> bool {
    &&& matches_at(b, i, word)
    &&& !(i > 0 && is_name_byte(b[i - 1]))
    &&& !(i + word.len() < b.len() && is_name_byte(b[i + word.len()]))
}

/// Whether `word` stands at `i` in `bytes` as a whole word.
pub fn matches_word(bytes: &[u8], i: usize, word: &[u8]) -> (r: bool)
    ensures
        r == word_at(bytes@, i as int, word@),
{
    if !bytes_match_at(bytes, i, word) {
        return false;
    }
    // Word boundary: the previous byte (if any) and the next byte (if any)
    // must not continue a name.
    if i > 0 && byte_is_name(bytes[i - 1]) {
        return false;
    }
    let after = i + word.len();
    if after < bytes.len() && byte_is_name(bytes[after]) {
        return false;
    }
    true
}

// --- UTF-8 facts ---------------------------------------------------------------

/// Cutting valid UTF-8 right after an ASCII byte (or at the start) and right
/// before an ASCII byte (or at the end) leaves valid UTF-8.
pub proof fn lemma_ascii_cut_valid(b: Seq<u8>, s: int, e: int)
    requires
        valid_utf8(b),
        0 <= s <= e <= b.len(),
        s == 0 || b[s - 1] < 0x80,
        e == b.len() || b[e] < 0x80,
    ensures
        valid_utf8(b.subrange(s, e)),
{
    let c = lemma_ascii_suffix_valid(b, s);
    if e == b.len() {
        assert(b.subrange(s, e) =~= c);
    } else {
        let y = b[e];
        assert(c[e - s] == y);
        assert(!is_continuation_byte(y)) by (bit_vector)
            requires
                y < 0x80,
        ;
        is_char_boundary_iff_not_is_continuation_byte(c, e - s);
        valid_utf8_split(c, e - s);
        assert(c.subrange(0, e - s) =~= b.subrange(s, e));
    }
}

proof fn lemma_ascii_suffix_valid(b: Seq<u8>, s: int) -> (c: Seq<u8>)
    requires
        valid_utf8(b),
        0 <= s <= b.len(),
        s == 0 || b[s - 1] < 0x80,
    ensures
        c == b.subrange(s, b.len() as int),
        valid_utf8(c),
{
    if s == 0 {
        assert(b.subrange(0, b.len() as int) =~= b);
    } else {
        let p = s - 1;
        let x = b[p];
        assert(!is_continuation_byte(x)) by (bit_vector)
            requires
                x < 0x80,
        ;
        is_char_boundary_iff_not_is_continuation_byte(b, p);
        valid_utf8_split(b, p);
        let t = b.subrange(p, b.len() as int);
        assert(t[0] == x);
        assert(is_leading_byte_width_1(x)) by (bit_vector)
            requires
                x < 0x80,
        ;
        assert(length_of_first_scalar(t) == 1);
        assert(pop_first_scalar(t) =~= b.subrange(s, b.len() as int));
    }
    b.subrange(s, b.len() as int)
}

// --- trimming, replacing, formatting ------------------------------------------------

/// Whitespace (`quote == false`) or the single quote `'` (`quote == true`).
pub open spec fn trim_pred(quote: bool) -> spec_fn(char) -> bool {
    if quote {
        |c: char| c == '\''
    } else {
        |c: char| is_white_space(c)
    }
}

/// `s` without its trailing elements that satisfy `p`.
pub open spec fn strip_end<A>(s: Seq<A>, p: spec_fn(A) -> bool) -> Seq<A>
    decreases s.len(),
{
    if s.len() > 0 && p(s.last()) {
        strip_end(s.drop_last(), p)
    } else {
        s
    }
}

/// `s` without its leading and trailing elements that satisfy `p`
/// (`str::trim`, `str::trim_matches`).
pub open spec fn strip_both<A>(s: Seq<A>, p: spec_fn(A) -> bool) -> Seq<A> {
    strip_end(s.subrange(skip_while(s, p, 0), s.len() as int), p)
}

/// `str::trim`.
pub open spec fn trim_seq(s: Seq<char>) -> Seq<char> {
    strip_both(s, trim_pred(false))
}

/// `str::trim_matches('\'')`.
pub open spec fn trim_quotes_seq(s: Seq<char>) -> Seq<char> {
    strip_both(s, trim_pred(true))
}

/// `str::strip_prefix(pat).unwrap_or(s)`.
pub open spec fn strip_prefix_or(s: Seq<char>, pat: Seq<char>) -> Seq<char> {
    if starts_with(s, pat) {
        s.skip(pat.len() as int)
    } else {
        s
    }
}

/// `str::replace(from, to)` for a non-empty `from`: left to right, without
/// overlaps.
pub open spec fn replace_all(s: Seq<char>, from: Seq<char>, to: Seq<char>) -> Seq<char>
    decreases s.len(),
{
    if from.len() == 0 || s.len() == 0 {
        s
    } else if starts_with(s, from) {
        to + replace_all(s.skip(from.len() as int), from, to)
    } else {
        seq![s[0]] + replace_all(s.skip(1), from, to)
    }
}

/// `s` without any `'`.
pub open spec fn remove_quotes(s: Seq<char>) -> Seq<char>
    decreases s.len(),
{
    if s.len() == 0 {
        s
    } else if s.last() == '\'' {
        remove_quotes(s.drop_last())
    } else {
        remove_quotes(s.drop_last()).push(s.last())
    }
}

/// The decimal digit `d`.
pub open spec fn digit_char(d: nat) -> char {
    ((48 + d) as u8) as char
}

/// `n` written in decimal, as `Display` writes an unsigned integer.
pub open spec fn decimal(n: nat) -> Seq<char>
    decreases n,
{
    if n < 10 {
        seq![digit_char(n)]
    } else {
        decimal(n / 10).push(digit_char(n % 10))
    }
}

/// Names what `char::to_uppercase` yields for `c`: the Unicode uppercase
/// mapping, one or more characters.
pub uninterp spec fn unicode_uppercase(c: char) -> Seq<char>;

/// Calls std's `char::to_uppercase` and collects the characters. Claimed:
/// they are what [`unicode_uppercase`] names for `c` (nothing more is said of
/// the Unicode case tables).
#[verifier::external_body]
pub(crate) fn char_to_uppercase(c: char) -> (r: Vec<char>)
    ensures
        r@ == unicode_uppercase(c),
{
    c.to_uppercase().collect()
}

/// `usize` in decimal.
pub fn decimal_chars(n: usize) -> (r: Vec<char>)
    ensures
        r@ == decimal(n as nat),
    decreases n,
{
    let d = (n % 10) as u8;
    let c = (48 + d) as char;
    if n < 10 {
        vec![c]
    } else {
        let mut v = decimal_chars(n / 10);
        v.push(c);
        v
    }
}

/// Whether `v` equals the literal `s`.
pub fn eq_lit(v: &Vec<char>, s: &str) -> (r: bool)
    ensures
        r == (v@ == s@),
{
    let w = chars_of(s);
    if v.len() != w.len() {
        return false;
    }
    let mut i: usize = 0;
    while i < v.len()
        invariant
            i <= v.len(),
            v.len() == w.len(),
            w@ == s@,
            forall|k: int| 0 <= k < i ==> v@[k] == w@[k],
        decreases v.len() - i,
    {
        if v[i] != w[i] {
            assert(v@[i as int] != w@[i as int]);
            return false;
        }
        i += 1;
    }
    assert(v@ =~= w@);
    true
}

/// The elements `v[a..b]`.
pub fn slice_chars(v: &Vec<char>, a: usize, b: usize) -> (r: Vec<char>)
    requires
        a <= b <= v@.len(),
    ensures
        r@ == v@.subrange(a as int, b as int),
{
    let mut r: Vec<char> = Vec::new();
    let mut i = a;
    while i < b
        invariant
            a <= i <= b <= v@.len(),
            r@ == v@.subrange(a as int, i as int),
        decreases b - i,
    {
        r.push(v[i]);
        i += 1;
        assert(v@.subrange(a as int, i as int) =~= v@.subrange(a as int, i - 1).push(v@[i - 1]));
    }
    r
}

fn pred_holds(c: char, quote: bool) -> (r: bool)
    ensures
        r == (trim_pred(quote))(c),
{
    if quote {
        c == '\''
    } else {
        char_is_white_space(c)
    }
}

/// `str::trim` (`quote == false`) or `str::trim_matches('\'')` (`quote == true`).
pub fn trim_by(v: &Vec<char>, quote: bool) -> (r: Vec<char>)
    ensures
        r@ == strip_both(v@, trim_pred(quote)),
{
    let ghost p = trim_pred(quote);
    let mut s: usize = 0;
    while s < v.len() && pred_holds(v[s], quote)
        invariant
            s <= v.len(),
            p == trim_pred(quote),
            skip_while(v@, p, 0) == skip_while(v@, p, s as int),
        decreases v.len() - s,
    {
        s += 1;
    }
    proof {
        lemma_skip_while(v@, p, s as int);
    }
    let mut e: usize = v.len();
    while e > s && pred_holds(v[e - 1], quote)
        invariant
            s <= e <= v.len(),
            p == trim_pred(quote),
            strip_end(v@.subrange(s as int, v.len() as int), p) == strip_end(
                v@.subrange(s as int, e as int),
                p,
            ),
        decreases e,
    {
        assert(v@.subrange(s as int, e as int).drop_last() =~= v@.subrange(s as int, e - 1));
        e -= 1;
    }
    slice_chars(v, s, e)
}

/// `str::strip_prefix(pat).unwrap_or(v)` with a literal pattern.
pub fn strip_prefix_lit(v: &Vec<char>, pat: &str) -> (r: Vec<char>)
    ensures
        r@ == strip_prefix_or(v@, pat@),
{
    let p = chars_of(pat);
    if chars_match_at(v, 0, &p) {
        slice_chars(v, p.len(), v.len())
    } else {
        slice_chars(v, 0, v.len())
    }
}

/// `str::replace` with literal patterns; `from` must not be empty.
pub fn replace_lit(v: &Vec<char>, from: &str, to: &str) -> (r: Vec<char>)
    requires
        from@.len() > 0,
    ensures
        r@ == replace_all(v@, from@, to@),
{
    let f = chars_of(from);
    let t = chars_of(to);
    let mut out: Vec<char> = Vec::new();
    let mut i: usize = 0;
    while i < v.len()
        invariant
            i <= v.len(),
            f@ == from@,
            t@ == to@,
            f@.len() > 0,
            replace_all(v@, f@, t@) == out@ + replace_all(v@.skip(i as int), f@, t@),
        decreases v.len() - i,
    {
        let ghost rest = v@.skip(i as int);
        if chars_match_at(v, i, &f) {
            assert(rest.subrange(0, f@.len() as int) =~= v@.subrange(i as int, i + f@.len()));
            assert(rest.skip(f@.len() as int) =~= v@.skip(i + f@.len()));
            push_chars(&mut out, &t);
            i = i + f.len();
        } else {
            assert(!starts_with(rest, f@)) by {
                if f@.len() <= rest.len() {
                    assert(rest.subrange(0, f@.len() as int) =~= v@.subrange(
                        i as int,
                        i + f@.len(),
                    ));
                }
            }
            assert(rest.skip(1) =~= v@.skip(i + 1));
            out.push(v[i]);
            i = i + 1;
        }
    }
    assert(v@.skip(i as int) =~= Seq::<char>::empty());
    out
}

/// `v` without any `'`.
pub fn without_quotes(v: &Vec<char>) -> (r: Vec<char>)
    ensures
        r@ == remove_quotes(v@),
{
    let mut out: Vec<char> = Vec::new();
    let mut i: usize = 0;
    while i < v.len()
        invariant
            i <= v.len(),
            out@ == remove_quotes(v@.take(i as int)),
        decreases v.len() - i,
    {
        assert(v@.take(i + 1).drop_last() =~= v@.take(i as int));
        if v[i] != '\'' {
            out.push(v[i]);
        }
        i += 1;
    }
    assert(v@.take(v.len() as int) =~= v@);
    out
}

// --- byte lengths of character sequences ------------------------------------------------

pub proof fn lemma_utf8_len_concat(a: Seq<char>, b: Seq<char>)
    ensures
        utf8_len(a + b) == utf8_len(a) + utf8_len(b),
    decreases b.len(),
{
    if b.len() == 0 {
        assert(a + b =~= a);
    } else {
        lemma_utf8_len_concat(a, b.drop_last());
        assert((a + b).drop_last() =~= a + b.drop_last());
    }
}

pub proof fn lemma_utf8_len_take(s: Seq<char>, i: int)
    requires
        0 <= i <= s.len(),
    ensures
        utf8_len(s.take(i)) <= utf8_len(s),
        utf8_len(s.take(i)) + utf8_len(s.skip(i)) == utf8_len(s),
{
    lemma_utf8_len_concat(s.take(i), s.skip(i));
    assert(s.take(i) + s.skip(i) =~= s);
}

/// The UTF-8 encoding has `utf8_len` bytes.
pub proof fn lemma_encode_len(cs: Seq<char>)
    ensures
        encode_utf8(cs).len() == utf8_len(cs),
    decreases cs.len(),
{
    if cs.len() > 0 {
        lemma_encode_len(cs.drop_first());
        let c = cs[0];
        char_is_scalar(c);
        assert(encode_scalar(c as u32).len() == utf8_width(c));
        lemma_utf8_len_concat(seq![c], cs.drop_first());
        assert(seq![c] + cs.drop_first() =~= cs);
        assert(seq![c].drop_last() =~= Seq::<char>::empty());
        assert(utf8_len(Seq::<char>::empty()) == 0);
        assert(utf8_len(seq![c]) == utf8_width(c));
        assert(encode_utf8(cs) == encode_scalar(c as u32) + encode_utf8(cs.drop_first()));
    }
}

/// The UTF-8 encoding of a concatenation is the concatenation of the
/// encodings.
pub proof fn lemma_encode_concat(a: Seq<char>, b: Seq<char>)
    ensures
        encode_utf8(a + b) == encode_utf8(a) + encode_utf8(b),
    decreases a.len(),
{
    if a.len() == 0 {
        assert(a + b =~= b);
        assert(encode_utf8(a) + encode_utf8(b) =~= encode_utf8(b));
    } else {
        lemma_encode_concat(a.drop_first(), b);
        assert((a + b).drop_first() =~= a.drop_first() + b);
        assert((a + b)[0] == a[0]);
        assert(encode_utf8(a + b) =~= encode_utf8(a) + encode_utf8(b));
    }
}

/// The byte length of `s`, which fits in a `usize`.
pub fn str_byte_len(s: &str) -> (r: usize)
    ensures
        r == utf8_len(s@),
{
    proof {
        lemma_encode_len(s@);
    }
    s.as_bytes().len()
}

/// Calls std's `char::from_u32`. Claimed: a character comes back exactly
/// for a Unicode scalar value (at most 0x10FFFF and not a surrogate), and its
/// code is `code`.
#[verifier::external_body]
pub(crate) fn char_from_u32(code: u32) -> (r: Option<char>)
    ensures
        r is Some <==> (code <= 0x10FFFF && !(0xD800 <= code <= 0xDFFF)),
        r matches Some(c) ==> c as u32 == code,
{
    char::from_u32(code)
}

} // verus!
