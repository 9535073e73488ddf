//! `GraphQL\Language\Parser` — the source rewrites applied before parsing
//! (legacy SDL forms, fragment variables) and the wrapping of partial parses.

use vstd::prelude::*;
use vstd::utf8::*;
use vstd::string::StringSliceAdditionalSpecFns;
use crate::apollo::{
    apollo_document_error, apollo_type_error, document_first_error, type_first_error,
};
use crate::errors::{lemma_skip_token, skip_token, skip_token_at, SyntaxErrorInfo, describe_spec, first_error_description, override_offset, override_spec};
use crate::options::{ParserOptions, DEFAULT_RECURSION_LIMIT};
use crate::text::{
    opt_int, contains_seq, first_match, find_bytes, lemma_contains_first_match, starts_with, starts_with_str, utf8_len, str_byte_len, push_str, decode_bytes, is_ascii_ws, is_white_space, lemma_ascii_cut_valid, lemma_skip_while, lemma_skip_while_at, lemma_skip_while_shift, skip_while, byte_is_ws, char_is_white_space, bytes_as_chars, byte_is_alpha, byte_is_name, chars_of, matches_word, push_bytes_as_chars, string_of, is_ascii_alpha, is_name_byte, word_at, push_bytes, string_of_bytes, utf8_ok, matches_at, lemma_ascii_update_valid, lemma_ascii_byte_valid, lemma_encode_concat, lemma_encode_len,
};

verus! {

broadcast use vstd::seq_lib::group_seq_properties;

// --- `allowLegacySDLImplementsInterfaces` ---------------------------------------

/// The bytes of the keyword `implements`.
pub open spec fn implements_word() -> Seq<u8> {
    seq![105u8, 109u8, 112u8, 108u8, 101u8, 109u8, 101u8, 110u8, 116u8, 115u8]
}

fn implements_bytes() -> (v: Vec<u8>)
    ensures
        v@ == implements_word(),
{
    let v: Vec<u8> = vec![105u8, 109u8, 112u8, 108u8, 101u8, 109u8, 101u8, 110u8, 116u8, 115u8];
    assert(v@ =~= implements_word());
    v
}

/// Space or tab.
pub open spec fn is_blank(b: u8) -> bool {
    b == 32 || b == 9
}

/// Where the rewrite of `implements A B C` stands while it walks the source.
pub enum ImplScan {
    /// Copying bytes through.
    Normal,
    /// Right after the keyword `implements`.
    AfterKeyword,
    /// After an optional leading `&`.
    AfterAmp,
    /// Where an interface name may start.
    NameStart,
    /// Inside an interface name.
    InName,
    /// Inside the blanks that follow the name that ended at the given position.
    Gap(int),
}

pub open spec fn scan_rank(st: ImplScan) -> int {
    match st {
        ImplScan::Normal => 0,
        ImplScan::NameStart => 1,
        ImplScan::Gap(_) => 2,
        ImplScan::InName => 3,
        ImplScan::AfterAmp => 4,
        ImplScan::AfterKeyword => 5,
    }
}

/// The output bytes for `b[pos..]` in state `st`. The rewrite copies every
/// byte, except that between two interface names separated by blanks only,
/// the last blank becomes `&`.
pub open spec fn implements_rest(b: Seq<u8>, st: ImplScan, pos: int) -> Seq<u8>
    decreases b.len() - pos, scan_rank(st),
{
    if pos < 0 || pos > b.len() {
        seq![]
    } else {
        let here = pos < b.len();
        match st {
            ImplScan::Normal => if !here {
                seq![]
            } else if word_at(b, pos, implements_word()) {
                implements_word() + implements_rest(
                    b,
                    ImplScan::AfterKeyword,
                    pos + 10,
                )
            } else {
                seq![b[pos]] + implements_rest(b, ImplScan::Normal, pos + 1)
            },
            ImplScan::AfterKeyword => if here && is_blank(b[pos]) {
                seq![b[pos]] + implements_rest(b, ImplScan::AfterKeyword, pos + 1)
            } else if here && b[pos] == 38 {
                seq![38u8] + implements_rest(b, ImplScan::AfterAmp, pos + 1)
            } else {
                implements_rest(b, ImplScan::NameStart, pos)
            },
            ImplScan::AfterAmp => if here && is_blank(b[pos]) {
                seq![b[pos]] + implements_rest(b, ImplScan::AfterAmp, pos + 1)
            } else {
                implements_rest(b, ImplScan::NameStart, pos)
            },
            ImplScan::NameStart => if here && is_name_byte(b[pos]) {
                seq![b[pos]] + implements_rest(b, ImplScan::InName, pos + 1)
            } else {
                implements_rest(b, ImplScan::Normal, pos)
            },
            ImplScan::InName => if here && is_name_byte(b[pos]) {
                seq![b[pos]] + implements_rest(b, ImplScan::InName, pos + 1)
            } else {
                implements_rest(b, ImplScan::Gap(pos), pos)
            },
            ImplScan::Gap(e) => if here && is_blank(b[pos]) {
                implements_rest(b, ImplScan::Gap(e), pos + 1)
            } else if here && (is_ascii_alpha(b[pos]) || b[pos] == 95) {
                b.subrange(e, pos - 1) + seq![38u8] + implements_rest(
                    b,
                    ImplScan::NameStart,
                    pos,
                )
            } else if here && b[pos] == 38 {
                b.subrange(e, pos) + seq![38u8] + implements_rest(
                    b,
                    ImplScan::NameStart,
                    pos + 1,
                )
            } else {
                b.subrange(e, pos) + implements_rest(b, ImplScan::Normal, pos)
            },
        }
    }
}

/// The whole rewrite of `b`.
pub open spec fn legacy_implements(b: Seq<u8>) -> Seq<u8> {
    implements_rest(b, ImplScan::Normal, 0)
}

/// The output has the bytes of the input, except that some blanks became
/// `&`: no byte offset moves.
pub open spec fn keeps_offsets(out: Seq<u8>, b: Seq<u8>) -> bool {
    &&& out.len() == b.len()
    &&& forall|k: int|
        0 <= k < b.len() ==> #[trigger] out[k] == b[k] || (out[k] == 38 && is_blank(b[k]))
}

/// States that the walk can reach: a gap starts where a name ended.
pub open spec fn scan_ok(b: Seq<u8>, st: ImplScan, pos: int) -> bool {
    &&& 0 <= pos <= b.len()
    &&& match st {
        ImplScan::Gap(e) => 0 < e <= pos && (e == pos ==> (e == b.len() || !is_name_byte(b[e])))
            && is_name_byte(b[e - 1]) && forall|k: int| e <= k < pos ==> is_blank(#[trigger] b[k]),
        ImplScan::InName => 0 < pos && is_name_byte(b[pos - 1]),
        _ => true,
    }
}

/// The start of the input that `implements_rest(b, st, pos)` accounts for.
pub open spec fn scan_from(st: ImplScan, pos: int) -> int {
    match st {
        ImplScan::Gap(e) => e,
        _ => pos,
    }
}

proof fn lemma_keeps_offsets_concat(o1: Seq<u8>, b1: Seq<u8>, o2: Seq<u8>, b2: Seq<u8>)
    requires
        keeps_offsets(o1, b1),
        keeps_offsets(o2, b2),
    ensures
        keeps_offsets(o1 + o2, b1 + b2),
{
    assert forall|k: int| 0 <= k < (b1 + b2).len() implies #[trigger] (o1 + o2)[k] == (b1
        + b2)[k] || ((o1 + o2)[k] == 38 && is_blank((b1 + b2)[k])) by {
        if k < b1.len() {
            assert(o1[k] == b1[k] || (o1[k] == 38 && is_blank(b1[k])));
        } else {
            assert(o2[k - b1.len()] == b2[k - b1.len()] || (o2[k - b1.len()] == 38 && is_blank(
                b2[k - b1.len()],
            )));
        }
    }
}

proof fn lemma_keeps_offsets_copy(b: Seq<u8>)
    ensures
        keeps_offsets(b, b),
{
}

proof fn lemma_implements_rest_offsets(b: Seq<u8>, st: ImplScan, pos: int)
    requires
        scan_ok(b, st, pos),
    ensures
        keeps_offsets(
            implements_rest(b, st, pos),
            b.subrange(scan_from(st, pos), b.len() as int),
        ),
    decreases b.len() - pos, scan_rank(st),
{
    let n = b.len() as int;
    let here = pos < n;
    let out = implements_rest(b, st, pos);
    match st {
        ImplScan::Normal => {
            if !here {
                assert(b.subrange(pos, n) =~= Seq::<u8>::empty());
            } else if word_at(b, pos, implements_word()) {
                lemma_implements_rest_offsets(b, ImplScan::AfterKeyword, pos + 10);
                assert(b.subrange(pos, pos + 10) =~= implements_word());
                lemma_keeps_offsets_copy(implements_word());
                lemma_keeps_offsets_concat(
                    implements_word(),
                    implements_word(),
                    implements_rest(b, ImplScan::AfterKeyword, pos + 10),
                    b.subrange(pos + 10, n),
                );
                assert(b.subrange(pos, n) =~= implements_word() + b.subrange(pos + 10, n));
            } else {
                lemma_implements_rest_offsets(b, ImplScan::Normal, pos + 1);
                lemma_keeps_offsets_concat(
                    seq![b[pos]],
                    seq![b[pos]],
                    implements_rest(b, ImplScan::Normal, pos + 1),
                    b.subrange(pos + 1, n),
                );
                assert(b.subrange(pos, n) =~= seq![b[pos]] + b.subrange(pos + 1, n));
            }
        },
        ImplScan::AfterKeyword => {
            if here && is_blank(b[pos]) {
                lemma_implements_rest_offsets(b, ImplScan::AfterKeyword, pos + 1);
                lemma_keeps_offsets_concat(
                    seq![b[pos]],
                    seq![b[pos]],
                    implements_rest(b, ImplScan::AfterKeyword, pos + 1),
                    b.subrange(pos + 1, n),
                );
                assert(b.subrange(pos, n) =~= seq![b[pos]] + b.subrange(pos + 1, n));
            } else if here && b[pos] == 38 {
                lemma_implements_rest_offsets(b, ImplScan::AfterAmp, pos + 1);
                lemma_keeps_offsets_concat(
                    seq![38u8],
                    seq![b[pos]],
                    implements_rest(b, ImplScan::AfterAmp, pos + 1),
                    b.subrange(pos + 1, n),
                );
                assert(b.subrange(pos, n) =~= seq![b[pos]] + b.subrange(pos + 1, n));
            } else {
                lemma_implements_rest_offsets(b, ImplScan::NameStart, pos);
            }
        },
        ImplScan::AfterAmp => {
            if here && is_blank(b[pos]) {
                lemma_implements_rest_offsets(b, ImplScan::AfterAmp, pos + 1);
                lemma_keeps_offsets_concat(
                    seq![b[pos]],
                    seq![b[pos]],
                    implements_rest(b, ImplScan::AfterAmp, pos + 1),
                    b.subrange(pos + 1, n),
                );
                assert(b.subrange(pos, n) =~= seq![b[pos]] + b.subrange(pos + 1, n));
            } else {
                lemma_implements_rest_offsets(b, ImplScan::NameStart, pos);
            }
        },
        ImplScan::NameStart => {
            if here && is_name_byte(b[pos]) {
                lemma_implements_rest_offsets(b, ImplScan::InName, pos + 1);
                lemma_keeps_offsets_concat(
                    seq![b[pos]],
                    seq![b[pos]],
                    implements_rest(b, ImplScan::InName, pos + 1),
                    b.subrange(pos + 1, n),
                );
                assert(b.subrange(pos, n) =~= seq![b[pos]] + b.subrange(pos + 1, n));
            } else {
                lemma_implements_rest_offsets(b, ImplScan::Normal, pos);
            }
        },
        ImplScan::InName => {
            if here && is_name_byte(b[pos]) {
                lemma_implements_rest_offsets(b, ImplScan::InName, pos + 1);
                lemma_keeps_offsets_concat(
                    seq![b[pos]],
                    seq![b[pos]],
                    implements_rest(b, ImplScan::InName, pos + 1),
                    b.subrange(pos + 1, n),
                );
                assert(b.subrange(pos, n) =~= seq![b[pos]] + b.subrange(pos + 1, n));
            } else {
                lemma_implements_rest_offsets(b, ImplScan::Gap(pos), pos);
            }
        },
        ImplScan::Gap(e) => {
            if here && is_blank(b[pos]) {
                lemma_implements_rest_offsets(b, ImplScan::Gap(e), pos + 1);
            } else if here && (is_ascii_alpha(b[pos]) || b[pos] == 95) {
                assert(e < pos);
                lemma_implements_rest_offsets(b, ImplScan::NameStart, pos);
                let gap = b.subrange(e, pos - 1);
                lemma_keeps_offsets_copy(gap);
                let amp_out = seq![38u8];
                let amp_in = seq![b[pos - 1]];
                assert(is_blank(b[pos - 1]));
                assert(keeps_offsets(amp_out, amp_in));
                lemma_keeps_offsets_concat(gap, gap, amp_out, amp_in);
                lemma_keeps_offsets_concat(
                    gap + amp_out,
                    gap + amp_in,
                    implements_rest(b, ImplScan::NameStart, pos),
                    b.subrange(pos, n),
                );
                assert(b.subrange(e, n) =~= gap + amp_in + b.subrange(pos, n));
            } else if here && b[pos] == 38 {
                lemma_implements_rest_offsets(b, ImplScan::NameStart, pos + 1);
                let gap = b.subrange(e, pos + 1);
                assert(b.subrange(e, pos) + seq![38u8] =~= gap);
                lemma_keeps_offsets_copy(gap);
                lemma_keeps_offsets_concat(
                    gap,
                    gap,
                    implements_rest(b, ImplScan::NameStart, pos + 1),
                    b.subrange(pos + 1, n),
                );
                assert(b.subrange(e, n) =~= gap + b.subrange(pos + 1, n));
            } else {
                lemma_implements_rest_offsets(b, ImplScan::Normal, pos);
                let gap = b.subrange(e, pos);
                lemma_keeps_offsets_copy(gap);
                lemma_keeps_offsets_concat(
                    gap,
                    gap,
                    implements_rest(b, ImplScan::Normal, pos),
                    b.subrange(pos, n),
                );
                assert(b.subrange(e, n) =~= gap + b.subrange(pos, n));
            }
        },
    }
}


/// Executable counterpart of [`ImplScan`].
enum Scan {
    Normal,
    AfterKeyword,
    AfterAmp,
    NameStart,
    InName,
    Gap(usize),
}

spec fn scan_view(s: Scan) -> ImplScan {
    match s {
        Scan::Normal => ImplScan::Normal,
        Scan::AfterKeyword => ImplScan::AfterKeyword,
        Scan::AfterAmp => ImplScan::AfterAmp,
        Scan::NameStart => ImplScan::NameStart,
        Scan::InName => ImplScan::InName,
        Scan::Gap(e) => ImplScan::Gap(e as int),
    }
}

/// Turning the blank before a name into `&` keeps the text valid UTF-8.
proof fn lemma_gap_amp_valid(o: Seq<u8>, b: Seq<u8>, e: int, pos: int)
    requires
        utf8_ok(o + b.subrange(e, b.len() as int)),
        0 <= e < pos <= b.len(),
        is_blank(b[pos - 1]),
    ensures
        utf8_ok(o + b.subrange(e, pos - 1) + seq![38u8] + b.subrange(pos, b.len() as int)),
{
    reveal(utf8_ok);
    let old_all = o + b.subrange(e, b.len() as int);
    let k = o.len() + (pos - 1 - e);
    assert(old_all[k] == b[pos - 1]);
    lemma_ascii_update_valid(old_all, k, 38u8);
    assert(o + b.subrange(e, pos - 1) + seq![38u8] + b.subrange(pos, b.len() as int)
        =~= old_all.update(k, 38u8));
}

/// The text that the rewrite of `implements A B C` gives for `cs`.
pub open spec fn implements_text(cs: Seq<char>) -> Seq<char> {
    decode_utf8(legacy_implements(encode_utf8(cs)))
}

/// Preprocessor for `allowLegacySDLImplementsInterfaces`: rewrites
/// `implements A B C` into `implements A&B&C` so that the parser accepts
/// the legacy syntax. The last blank of each separator becomes `&`, so the
/// source length does not shift; every other byte stays as it is.
#[verifier::rlimit(100)]
#[verifier::spinoff_prover]
pub fn preprocess_legacy_implements(body: &str) -> (r: String)
    ensures
        encode_utf8(r@) == legacy_implements(body.spec_bytes()),
        r@ == implements_text(body@),
        keeps_offsets(encode_utf8(r@), body.spec_bytes()),
{
    let bytes = body.as_bytes();
    let n = bytes.len();
    let kw = implements_bytes();
    let mut out: Vec<u8> = Vec::new();
    let mut st = Scan::Normal;
    let mut pos: usize = 0;
    proof {
        lemma_implements_rest_offsets(bytes@, ImplScan::Normal, 0);
        assert(bytes@.subrange(0, n as int) =~= bytes@);
        encode_utf8_valid_utf8(body@);
        assert(out@ + bytes@.subrange(0, n as int) =~= bytes@);
        reveal(utf8_ok);
    }
    loop
        invariant
            n == bytes@.len(),
            bytes@ == body.spec_bytes(),
            kw@ == implements_word(),
            pos <= n,
            legacy_implements(bytes@) == out@ + implements_rest(bytes@, scan_view(st), pos as int),
            scan_ok(bytes@, scan_view(st), pos as int),
            utf8_ok(out@ + bytes@.subrange(scan_from(scan_view(st), pos as int), n as int)),
        ensures
            out@ == legacy_implements(bytes@),
            utf8_ok(out@),
        decreases n - pos, scan_rank(scan_view(st)),
    {
        let ghost old_out = out@;
        let ghost b = bytes@;
        let here = pos < n;
        match st {
            Scan::Normal => {
                if !here {
                    assert(out@ + b.subrange(pos as int, n as int) =~= out@);
                    break;
                } else if matches_word(bytes, pos, kw.as_slice()) {
                    push_bytes(&mut out, kw.as_slice(), 0, 10);
                    assert(kw@.subrange(0, 10) =~= kw@);
                    assert(b.subrange(pos as int, pos + 10) =~= kw@);
                    assert(out@ + b.subrange(pos + 10, n as int) =~= old_out + b.subrange(
                        pos as int,
                        n as int,
                    ));
                    st = Scan::AfterKeyword;
                    pos = pos + 10;
                } else {
                    out.push(bytes[pos]);
                    assert(out@ + b.subrange(pos + 1, n as int) =~= old_out + b.subrange(
                        pos as int,
                        n as int,
                    ));
                    pos = pos + 1;
                }
            },
            Scan::AfterKeyword => {
                if here && (bytes[pos] == 32 || bytes[pos] == 9) {
                    out.push(bytes[pos]);
                    assert(out@ + b.subrange(pos + 1, n as int) =~= old_out + b.subrange(
                        pos as int,
                        n as int,
                    ));
                    pos = pos + 1;
                } else if here && bytes[pos] == 38 {
                    // An optional leading `&` is accepted as it stands.
                    out.push(38);
                    assert(out@ + b.subrange(pos + 1, n as int) =~= old_out + b.subrange(
                        pos as int,
                        n as int,
                    ));
                    st = Scan::AfterAmp;
                    pos = pos + 1;
                } else {
                    st = Scan::NameStart;
                }
            },
            Scan::AfterAmp => {
                if here && (bytes[pos] == 32 || bytes[pos] == 9) {
                    out.push(bytes[pos]);
                    assert(out@ + b.subrange(pos + 1, n as int) =~= old_out + b.subrange(
                        pos as int,
                        n as int,
                    ));
                    pos = pos + 1;
                } else {
                    st = Scan::NameStart;
                }
            },
            Scan::NameStart => {
                if here && byte_is_name(bytes[pos]) {
                    out.push(bytes[pos]);
                    assert(out@ + b.subrange(pos + 1, n as int) =~= old_out + b.subrange(
                        pos as int,
                        n as int,
                    ));
                    st = Scan::InName;
                    pos = pos + 1;
                } else {
                    st = Scan::Normal;
                }
            },
            Scan::InName => {
                if here && byte_is_name(bytes[pos]) {
                    out.push(bytes[pos]);
                    assert(out@ + b.subrange(pos + 1, n as int) =~= old_out + b.subrange(
                        pos as int,
                        n as int,
                    ));
                    pos = pos + 1;
                } else {
                    st = Scan::Gap(pos);
                }
            },
            Scan::Gap(e) => {
                if here && (bytes[pos] == 32 || bytes[pos] == 9) {
                    pos = pos + 1;
                } else if here && (byte_is_alpha(bytes[pos]) || bytes[pos] == 95) {
                    // Another name follows blanks only: its last blank becomes `&`.
                    push_bytes(&mut out, bytes, e, pos - 1);
                    out.push(38);
                    proof {
                        lemma_gap_amp_valid(old_out, b, e as int, pos as int);
                        assert(out@ =~= old_out + b.subrange(e as int, pos - 1) + seq![38u8]);
                    }
                    st = Scan::NameStart;
                } else if here && bytes[pos] == 38 {
                    push_bytes(&mut out, bytes, e, pos);
                    out.push(38);
                    assert(out@ + b.subrange(pos + 1, n as int) =~= old_out + b.subrange(
                        e as int,
                        n as int,
                    ));
                    st = Scan::NameStart;
                    pos = pos + 1;
                } else {
                    push_bytes(&mut out, bytes, e, pos);
                    assert(out@ + b.subrange(pos as int, n as int) =~= old_out + b.subrange(
                        e as int,
                        n as int,
                    ));
                    st = Scan::Normal;
                }
            },
        }
    }
    proof {
        lemma_implements_rest_offsets(bytes@, ImplScan::Normal, 0);
        assert(bytes@.subrange(0, n as int) =~= bytes@);
        reveal(utf8_ok);
    }
    string_of_bytes(&out)
}


// --- `experimentalFragmentVariables` ----------------------------------------------

/// The bytes of the keyword `fragment`.
pub open spec fn fragment_word() -> Seq<u8> {
    seq![102u8, 114u8, 97u8, 103u8, 109u8, 101u8, 110u8, 116u8]
}

fn fragment_bytes() -> (v: Vec<u8>)
    ensures
        v@ == fragment_word(),
{
    let v: Vec<u8> = vec![102u8, 114u8, 97u8, 103u8, 109u8, 101u8, 110u8, 116u8];
    assert(v@ =~= fragment_word());
    v
}

pub open spec fn ascii_ws_pred() -> spec_fn(u8) -> bool {
    |x: u8| is_ascii_ws(x)
}

pub open spec fn name_pred() -> spec_fn(u8) -> bool {
    |x: u8| is_name_byte(x)
}

/// The `)` that closes the parenthesis group scanned from `l` with `depth`
/// groups open. The counter is an `i32` that wraps on overflow.
pub open spec fn close_paren(b: Seq<u8>, l: int, depth: i32) -> Option<int>
    decreases b.len() - l,
{
    if l < 0 || l >= b.len() {
        None
    } else {
        let d = if b[l] == 40 {
            depth.wrapping_add(1)
        } else if b[l] == 41 {
            depth.wrapping_sub(1)
        } else {
            depth
        };
        if b[l] == 41 && d == 0 {
            Some(l)
        } else {
            close_paren(b, l + 1, d)
        }
    }
}

pub proof fn lemma_close_paren(b: Seq<u8>, l: int, depth: i32)
    ensures
        close_paren(b, l, depth) matches Some(x) ==> l <= x < b.len() && b[x] == 41,
    decreases b.len() - l,
{
    if 0 <= l < b.len() {
        let d = if b[l] == 40 {
            depth.wrapping_add(1)
        } else if b[l] == 41 {
            depth.wrapping_sub(1)
        } else {
            depth
        };
        lemma_close_paren(b, l + 1, d);
    }
}

/// The rewrite of `b[i..]` for `experimentalFragmentVariables`, with the
/// variable definitions it captures: for each `fragment <name> (<vars>)`,
/// the output keeps `fragment <name>`, puts one space in place of the
/// parenthesised group, and the pair (name, vars) is captured. Other bytes
/// are copied as they are.
pub open spec fn fragments_rest(b: Seq<u8>, i: int) -> (Seq<u8>, Seq<(Seq<char>, Seq<char>)>)
    decreases b.len() - i,
{
    if i < 0 || i >= b.len() {
        (seq![], seq![])
    } else if word_at(b, i, fragment_word()) {
        let j1 = skip_while(b, ascii_ws_pred(), i + 8);
        let j = skip_while(b, name_pred(), j1);
        let k = skip_while(b, ascii_ws_pred(), j);
        proof {
            lemma_skip_while(b, ascii_ws_pred(), i + 8);
            lemma_skip_while(b, name_pred(), j1);
            lemma_skip_while(b, ascii_ws_pred(), j);
            lemma_close_paren(b, k, 0);
        }
        let head = b.subrange(i, j);
        if k < b.len() && b[k] == 40 && close_paren(b, k, 0) is Some {
            let l = close_paren(b, k, 0)->0;
            let rest = fragments_rest(b, l + 1);
            (
                head + seq![32u8] + rest.0,
                seq![(bytes_as_chars(b.subrange(j1, j)), decode_utf8(b.subrange(k + 1, l)))]
                    + rest.1,
            )
        } else {
            let rest = fragments_rest(b, j);
            (head + rest.0, rest.1)
        }
    } else {
        let rest = fragments_rest(b, i + 1);
        (seq![b[i]] + rest.0, rest.1)
    }
}

/// The text that the fragment-variable rewrite gives for `cs`.
pub open spec fn fragments_text(cs: Seq<char>) -> Seq<char> {
    decode_utf8(fragments_rest(encode_utf8(cs), 0).0)
}

/// The view of captured (name, vars) pairs.
pub open spec fn pairs_view(v: Seq<(String, String)>) -> Seq<(Seq<char>, Seq<char>)> {
    v.map_values(|p: (String, String)| (p.0@, p.1@))
}

/// The position of the `)` matching the `(` at `k`. Nested parentheses are
/// counted; nothing else (not even string literals) is treated specially.
fn matching_paren(bytes: &[u8], k: usize) -> (r: Option<usize>)
    requires
        k < bytes@.len(),
    ensures
        opt_int(r) == close_paren(bytes@, k as int, 0),
{
    let n = bytes.len();
    let mut depth: i32 = 0;
    let mut l = k;
    while l < n
        invariant
            n == bytes@.len(),
            k <= l <= n,
            close_paren(bytes@, k as int, 0) == close_paren(bytes@, l as int, depth),
        decreases n - l,
    {
        if bytes[l] == 40 {
            depth = depth.wrapping_add(1);
        } else if bytes[l] == 41 {
            depth = depth.wrapping_sub(1);
            if depth == 0 {
                return Some(l);
            }
        }
        l += 1;
    }
    None
}

proof fn lemma_shift(o: Seq<u8>, b: Seq<u8>, i: int, j: int)
    requires
        0 <= i <= j <= b.len(),
    ensures
        (o + b.subrange(i, j)) + b.subrange(j, b.len() as int) == o + b.subrange(i, b.len() as int),
{
    assert((o + b.subrange(i, j)) + b.subrange(j, b.len() as int) =~= o + b.subrange(
        i,
        b.len() as int,
    ));
}

/// Putting one space in place of `b[j..=l]` keeps the text valid UTF-8 when
/// the bytes at both ends of the cut are ASCII.
proof fn lemma_replace_group_valid(o: Seq<u8>, b: Seq<u8>, i: int, j: int, l: int)
    requires
        utf8_ok(o + b.subrange(i, b.len() as int)),
        0 <= i < j <= l < b.len(),
        b[j] < 0x80,
        b[l] < 0x80,
    ensures
        utf8_ok(o + b.subrange(i, j) + seq![32u8] + b.subrange(l + 1, b.len() as int)),
{
    reveal(utf8_ok);
    let all = o + b.subrange(i, b.len() as int);
    let cut1 = o.len() + (j - i);
    let cut2 = o.len() + (l + 1 - i);
    assert(all[cut1] == b[j]);
    assert(all[cut2 - 1] == b[l]);
    lemma_ascii_cut_valid(all, 0, cut1);
    lemma_ascii_cut_valid(all, cut2, all.len() as int);
    lemma_ascii_byte_valid(32u8);
    let p1 = all.subrange(0, cut1);
    let p3 = all.subrange(cut2, all.len() as int);
    valid_utf8_concat(p1, seq![32u8]);
    valid_utf8_concat(p1 + seq![32u8], p3);
    assert(p1 =~= o + b.subrange(i, j));
    assert(p3 =~= b.subrange(l + 1, b.len() as int));
}

/// Scan the source for `fragment <name>(<vars>)` patterns. For each match,
/// capture the var-defs text and rewrite the source to omit the parens.
/// Returns the cleaned source and a list of (name, vars-source) tuples.
#[verifier::rlimit(100)]
#[verifier::spinoff_prover]
pub fn extract_fragment_variables(src: &str) -> (r: (String, Vec<(String, String)>))
    ensures
        encode_utf8(r.0@) == fragments_rest(src.spec_bytes(), 0).0,
        r.0@ == fragments_text(src@),
        pairs_view(r.1@) == fragments_rest(src.spec_bytes(), 0).1,
{
    let bytes = src.as_bytes();
    let n = bytes.len();
    let kw = fragment_bytes();
    let mut out: Vec<u8> = Vec::new();
    let mut vars: Vec<(String, String)> = Vec::new();
    let mut i: usize = 0;
    proof {
        encode_utf8_valid_utf8(src@);
        assert(out@ + bytes@.subrange(0, n as int) =~= bytes@);
        reveal(utf8_ok);
    }
    while i < n
        invariant
            n == bytes@.len(),
            bytes@ == src.spec_bytes(),
            valid_utf8(bytes@),
            kw@ == fragment_word(),
            i <= n,
            fragments_rest(bytes@, 0).0 == out@ + fragments_rest(bytes@, i as int).0,
            fragments_rest(bytes@, 0).1 == pairs_view(vars@) + fragments_rest(bytes@, i as int).1,
            utf8_ok(out@ + bytes@.subrange(i as int, n as int)),
        decreases n - i,
    {
        let ghost old_out = out@;
        // Look for the keyword `fragment` at word-start positions.
        if matches_word(bytes, i, kw.as_slice()) {
            let ghost b = bytes@;
            let mut j = i + 8;
            // skip whitespace
            while j < n && byte_is_ws(bytes[j])
                invariant
                    n == bytes@.len(),
                    i + 8 <= j <= n,
                    skip_while(bytes@, ascii_ws_pred(), i + 8) == skip_while(
                        bytes@,
                        ascii_ws_pred(),
                        j as int,
                    ),
                decreases n - j,
            {
                j += 1;
            }
            // capture the fragment name
            let name_start = j;
            while j < n && byte_is_name(bytes[j])
                invariant
                    n == bytes@.len(),
                    name_start <= j <= n,
                    skip_while(bytes@, name_pred(), name_start as int) == skip_while(
                        bytes@,
                        name_pred(),
                        j as int,
                    ),
                decreases n - j,
            {
                j += 1;
            }
            let mut name: Vec<char> = Vec::new();
            push_bytes_as_chars(&mut name, bytes, name_start, j);
            // copy `fragment`, the whitespace and the name to out
            push_bytes(&mut out, bytes, i, j);
            // skip whitespace before `(`
            let mut k = j;
            while k < n && byte_is_ws(bytes[k])
                invariant
                    n == bytes@.len(),
                    j <= k <= n,
                    skip_while(bytes@, ascii_ws_pred(), j as int) == skip_while(
                        bytes@,
                        ascii_ws_pred(),
                        k as int,
                    ),
                decreases n - k,
            {
                k += 1;
            }
            proof {
                lemma_close_paren(b, k as int, 0);
                lemma_close_paren(b, k + 1, 1);
            }
            if k < n && bytes[k] == 40 {
                if let Some(l) = matching_paren(bytes, k) {
                    assert(k < l) by {
                        assert(close_paren(b, k as int, 0) == close_paren(b, k + 1, 1));
                    }
                    // Capture between k+1 and l.
                    proof {
                        lemma_ascii_cut_valid(b, k + 1, l as int);
                    }
                    let text = match decode_bytes(&bytes[k + 1..l]) {
                        Some(t) => t,
                        None => Vec::new(),
                    };
                    let ghost vars_before = vars@;
                    vars.push((string_of(&name), string_of(&text)));
                    // Replace `(...)` with a single space in out.
                    out.push(32);
                    proof {
                        lemma_skip_while(b, ascii_ws_pred(), j as int);
                        if j < k {
                            assert(ascii_ws_pred()(b[j as int]));
                        }
                        lemma_replace_group_valid(old_out, b, i as int, j as int, l as int);
                        assert(out@ =~= old_out + b.subrange(i as int, j as int) + seq![32u8]);
                        assert(pairs_view(vars@) =~= pairs_view(vars_before) + seq![
                            (name@, text@),
                        ]);
                    }
                    i = l + 1;
                    continue;
                }
            }
            proof {
                lemma_shift(old_out, bytes@, i as int, j as int);
            }
            i = j;
            continue;
        }
        // Otherwise pass the byte through.
        out.push(bytes[i]);
        proof {
            assert(out@ =~= old_out + bytes@.subrange(i as int, i + 1));
            lemma_shift(old_out, bytes@, i as int, i + 1);
        }
        i += 1;
    }
    assert(out@ + bytes@.subrange(n as int, n as int) =~= out@);
    proof {
        reveal(utf8_ok);
    }
    (string_of_bytes(&out), vars)
}


// --- `allowLegacySDLEmptyFields` ---------------------------------------------------

pub open spec fn white_pred() -> spec_fn(char) -> bool {
    |c: char| is_white_space(c)
}

/// The rewrite of `cs[i..]` for `allowLegacySDLEmptyFields`: every `{` that
/// is followed by whitespace only up to a `}` is dropped together with that
/// whitespace and the `}`.
pub open spec fn braces_rest(cs: Seq<char>, i: int) -> Seq<char>
    decreases cs.len() - i,
{
    if i < 0 || i >= cs.len() {
        seq![]
    } else {
        let j = skip_while(cs, white_pred(), i + 1);
        proof {
            lemma_skip_while(cs, white_pred(), i + 1);
        }
        if cs[i] == '{' && j < cs.len() && cs[j] == '}' {
            braces_rest(cs, j + 1)
        } else {
            seq![cs[i]] + braces_rest(cs, i + 1)
        }
    }
}

proof fn lemma_braces_rest_plain(cs: Seq<char>, i: int)
    requires
        0 <= i <= cs.len(),
        forall|k: int| i <= k < cs.len() ==> cs[k] != '{',
    ensures
        braces_rest(cs, i) == cs.subrange(i, cs.len() as int),
    decreases cs.len() - i,
{
    if i < cs.len() {
        lemma_braces_rest_plain(cs, i + 1);
        assert(cs.subrange(i, cs.len() as int) =~= seq![cs[i]] + cs.subrange(
            i + 1,
            cs.len() as int,
        ));
    } else {
        assert(cs.subrange(i, cs.len() as int) =~= Seq::<char>::empty());
    }
}

/// The rewrite of a suffix does not look at what stands before it.
proof fn lemma_braces_shift(a: Seq<char>, c: Seq<char>, i: int)
    requires
        0 <= i,
    ensures
        braces_rest(a + c, a.len() + i) == braces_rest(c, i),
    decreases c.len() - i,
{
    let s = a + c;
    let n = a.len() as int;
    if i < c.len() {
        assert(s[n + i] == c[i]);
        let jc = skip_while(c, white_pred(), i + 1);
        lemma_skip_while(c, white_pred(), i + 1);
        assert forall|k: int| n + i + 1 <= k < n + jc implies #[trigger] white_pred()(s[k]) by {
            assert(s[k] == c[k - n]);
            assert(white_pred()(c[k - n]));
        }
        if jc < c.len() {
            assert(s[n + jc] == c[jc]);
        }
        lemma_skip_while_at(s, white_pred(), n + i + 1, n + jc);
        if c[i] == '{' && jc < c.len() && c[jc] == '}' {
            lemma_braces_shift(a, c, jc + 1);
        } else {
            lemma_braces_shift(a, c, i + 1);
        }
    }
}

/// `a` does not end inside a `{` that only whitespace follows.
pub open spec fn braces_closed(a: Seq<char>) -> bool {
    forall|k: int|
        0 <= k < a.len() && a[k] == '{' ==> skip_while(a, white_pred(), k + 1) < a.len()
}

proof fn lemma_braces_concat_from(a: Seq<char>, c: Seq<char>, i: int)
    requires
        braces_closed(a),
        0 <= i <= a.len(),
    ensures
        braces_rest(a + c, i) == braces_rest(a, i) + braces_rest(c, 0),
    decreases a.len() - i,
{
    let s = a + c;
    let n = a.len() as int;
    if i == n {
        lemma_braces_shift(a, c, 0);
        assert(braces_rest(a, i) =~= Seq::<char>::empty());
    } else {
        assert(s[i] == a[i]);
        let ja = skip_while(a, white_pred(), i + 1);
        lemma_skip_while(a, white_pred(), i + 1);
        if a[i] == '{' {
            assert(ja < n);
            assert forall|k: int| i + 1 <= k < ja implies #[trigger] white_pred()(s[k]) by {
                assert(s[k] == a[k]);
                assert(white_pred()(a[k]));
            }
            assert(s[ja] == a[ja]);
            lemma_skip_while_at(s, white_pred(), i + 1, ja);
            if a[ja] == '}' {
                lemma_braces_concat_from(a, c, ja + 1);
            } else {
                lemma_braces_concat_from(a, c, i + 1);
            }
        } else {
            lemma_braces_concat_from(a, c, i + 1);
        }
    }
}

/// The rewrite works piece by piece: a text that does not end inside an
/// empty `{ }` and the text after it are rewritten each on its own.
pub proof fn law_empty_braces_concat(a: Seq<char>, c: Seq<char>)
    requires
        braces_closed(a),
    ensures
        braces_rest(a + c, 0) == braces_rest(a, 0) + braces_rest(c, 0),
{
    lemma_braces_concat_from(a, c, 0);
}

/// Every empty body is dropped: a `{`, whitespace only and a `}` vanish, and
/// the text after them is rewritten as on its own.
pub proof fn law_empty_braces_dropped(w: Seq<char>, c: Seq<char>)
    requires
        forall|k: int| 0 <= k < w.len() ==> is_white_space(#[trigger] w[k]),
    ensures
        braces_rest(seq!['{'] + w + seq!['}'] + c, 0) == braces_rest(c, 0),
{
    let g = seq!['{'] + w + seq!['}'];
    let s = g + c;
    let m = w.len() as int;
    assert(s[0] == '{');
    assert forall|k: int| 1 <= k < m + 1 implies #[trigger] white_pred()(s[k]) by {
        assert(s[k] == w[k - 1]);
    }
    assert(s[m + 1] == '}');
    lemma_skip_while_at(s, white_pred(), 1, m + 1);
    lemma_braces_shift(g, c, 0);
}

/// No `{` of `cs` from `i` on is followed by whitespace only up to a `}`.
pub open spec fn no_empty_braces(cs: Seq<char>, i: int) -> bool {
    forall|k: int|
        i <= k < cs.len() && #[trigger] cs[k] == '{' ==> !(skip_while(cs, white_pred(), k + 1) < cs.len()
            && cs[skip_while(cs, white_pred(), k + 1)] == '}')
}

proof fn lemma_braces_kept_from(cs: Seq<char>, i: int)
    requires
        0 <= i <= cs.len(),
        no_empty_braces(cs, i),
    ensures
        braces_rest(cs, i) == cs.subrange(i, cs.len() as int),
    decreases cs.len() - i,
{
    if i < cs.len() {
        lemma_braces_kept_from(cs, i + 1);
        assert(cs.subrange(i, cs.len() as int) =~= seq![cs[i]] + cs.subrange(
            i + 1,
            cs.len() as int,
        ));
    } else {
        assert(cs.subrange(i, cs.len() as int) =~= Seq::<char>::empty());
    }
}

/// Only empty bodies go: a text in which every `{` is followed by something
/// other than whitespace and a `}` comes back as it is.
pub proof fn law_braces_kept(cs: Seq<char>)
    requires
        no_empty_braces(cs, 0),
    ensures
        braces_rest(cs, 0) == cs,
{
    lemma_braces_kept_from(cs, 0);
    assert(cs.subrange(0, cs.len() as int) =~= cs);
}

/// Source preprocessor for `allowLegacySDLEmptyFields`: remove empty `{ }`
/// (and `{}`) bodies from type definitions so that the parser does not stop
/// on "expected a field definition". The lowering then supplies an empty
/// field list. A source without `{` is left as it is.
pub fn preprocess_empty_sdl_braces(body: &str) -> (r: String)
    ensures
        r@ == braces_rest(body@, 0),
        (forall|k: int| 0 <= k < body@.len() ==> body@[k] != '{') ==> r@ == body@,
{
    // Walk by chars to stay UTF-8-safe.
    let chars = chars_of(body);
    let n = chars.len();
    let mut out: Vec<char> = Vec::new();
    let mut i: usize = 0;
    while i < n
        invariant
            n == chars@.len(),
            i <= n,
            braces_rest(chars@, 0) == out@ + braces_rest(chars@, i as int),
        decreases n - i,
    {
        let c = chars[i];
        if c == '{' {
            let mut j = i + 1;
            while j < n && char_is_white_space(chars[j])
                invariant
                    n == chars@.len(),
                    i + 1 <= j <= n,
                    skip_while(chars@, white_pred(), i + 1) == skip_while(
                        chars@,
                        white_pred(),
                        j as int,
                    ),
                decreases n - j,
            {
                j += 1;
            }
            proof {
                lemma_skip_while(chars@, white_pred(), j as int);
            }
            if j < n && chars[j] == '}' {
                // Skip the `{ }` pair entirely.
                i = j + 1;
                continue;
            }
        }
        out.push(c);
        i += 1;
    }
    proof {
        if forall|k: int| 0 <= k < body@.len() ==> body@[k] != '{' {
            lemma_braces_rest_plain(chars@, 0);
            assert(chars@.subrange(0, n as int) =~= chars@);
        }
    }
    string_of(&out)
}

// --- `Parser::parse` up to the syntax tree ---------------------------------------------------

/// The source handed to the parser after the options' rewrites, with the
/// fragment variable definitions captured on the way.
pub struct PreparedSource {
    pub body: String,
    pub fragment_vars: Vec<(String, String)>,
}

/// The rewrites that the options select, in their order: empty braces,
/// legacy `implements`, fragment variables.
pub open spec fn prepared_spec(body: Seq<char>, opts: ParserOptions) -> (
    Seq<char>,
    Seq<(Seq<char>, Seq<char>)>,
) {
    let b1 = if opts.allow_legacy_sdl_empty_fields {
        braces_rest(body, 0)
    } else {
        body
    };
    let b2 = if opts.allow_legacy_sdl_implements_interfaces {
        implements_text(b1)
    } else {
        b1
    };
    if opts.experimental_fragment_variables {
        (fragments_text(b2), fragments_rest(encode_utf8(b2), 0).1)
    } else {
        (b2, seq![])
    }
}

/// Apply the source rewrites that the options ask for.
pub fn prepare_source(body: &str, opts: &ParserOptions) -> (r: PreparedSource)
    ensures
        (r.body@, pairs_view(r.fragment_vars@)) == prepared_spec(body@, *opts),
{
    let mut text = string_of(&chars_of(body));
    if opts.allow_legacy_sdl_empty_fields {
        text = preprocess_empty_sdl_braces(text.as_str());
    }
    if opts.allow_legacy_sdl_implements_interfaces {
        text = preprocess_legacy_implements(text.as_str());
    }
    // Capture fragment variable definitions when the user opts in via
    // `experimentalFragmentVariables`.
    if opts.experimental_fragment_variables {
        let (cleaned, vars) = extract_fragment_variables(text.as_str());
        PreparedSource { body: cleaned, fragment_vars: vars }
    } else {
        let vars: Vec<(String, String)> = Vec::new();
        assert(pairs_view(vars@) =~= Seq::<(Seq<char>, Seq<char>)>::empty());
        PreparedSource { body: text, fragment_vars: vars }
    }
}

/// A syntax error as PHP reports it: the byte position and the description
/// (without the `Syntax Error: ` prefix).
pub struct SyntaxErrorReport {
    pub position: usize,
    pub description: String,
}

pub open spec fn report_view(r: Option<SyntaxErrorReport>) -> Option<(int, Seq<char>)> {
    match r {
        Some(e) => Some((e.position as int, e.description@)),
        None => None,
    }
}

/// The report for the first parser error `err` (message, offset): the
/// offset less `prefix` (never below 0), or the offset that
/// [`override_spec`] gives when `with_override` is set; the description
/// is computed against `body`, the user's text, at the offset less `prefix`.
pub open spec fn report_spec(
    err: Option<(Seq<char>, usize)>,
    prefix: usize,
    with_override: bool,
    limit: usize,
    body: Seq<char>,
) -> Option<(int, Seq<char>)> {
    match err {
        None => None,
        Some((msg, idx)) => {
            let pos = if with_override && override_spec(msg, encode_utf8(body)) is Some {
                override_spec(msg, encode_utf8(body))->0
            } else if idx >= prefix {
                idx - prefix
            } else {
                0
            };
            let user_idx = if idx >= prefix {
                idx - prefix
            } else {
                0
            };
            Some((pos, describe_spec(msg, user_idx, limit as nat, encode_utf8(body))))
        },
    }
}

/// The report for the first error of a parse (`None` when there is none):
/// the position in the user's text (the error's offset less `prefix`, or
/// the `extend` override when `with_override` is set) and the description.
pub fn error_report(
    err: Option<SyntaxErrorInfo>,
    prefix: usize,
    with_override: bool,
    limit: usize,
    body: &str,
) -> (r: Option<SyntaxErrorReport>)
    ensures
        report_view(r) == report_spec(
            crate::apollo::error_view(err),
            prefix,
            with_override,
            limit,
            body@,
        ),
{
    match err {
        None => None,
        Some(e) => {
            let ov = if with_override {
                override_offset(&e, body)
            } else {
                None
            };
            let position = match ov {
                Some(o) => o,
                None => e.index.saturating_sub(prefix),
            };
            // The token at the error site is read in the user's text.
            let at_user = SyntaxErrorInfo {
                message: e.message.clone(),
                index: e.index.saturating_sub(prefix),
            };
            let description = first_error_description(&at_user, limit, body);
            Some(SyntaxErrorReport { position, description })
        },
    }
}

/// Parse a document and report its first error the way `Parser::parse`
/// does (with the offset overrides of [`override_offset`]).
pub fn check_document(body: &str, recursion_limit: usize) -> (r: Option<SyntaxErrorReport>)
    ensures
        report_view(r) == report_spec(
            apollo_document_error(body@, recursion_limit),
            0,
            true,
            recursion_limit,
            body@,
        ),
{
    let err = document_first_error(body, recursion_limit);
    error_report(err, 0, true, recursion_limit, body)
}

/// `Parser::parse` up to the syntax tree: apply the rewrites, parse, and
/// report the first syntax error if there is one.
pub fn parse_document_source(source: &str, opts: &ParserOptions) -> (r: Result<
    PreparedSource,
    SyntaxErrorReport,
>)
    ensures
        match r {
            Ok(p) => (p.body@, pairs_view(p.fragment_vars@)) == prepared_spec(source@, *opts)
                && apollo_document_error(p.body@, opts.recursion_limit) is None,
            Err(e) => report_spec(
                apollo_document_error(prepared_spec(source@, *opts).0, opts.recursion_limit),
                0,
                true,
                opts.recursion_limit,
                prepared_spec(source@, *opts).0,
            ) == Some((e.position as int, e.description@)),
        },
{
    let prepared = prepare_source(source, opts);
    match check_document(prepared.body.as_str(), opts.apollo_recursion_limit()) {
        Some(e) => Err(e),
        None => Ok(prepared),
    }
}

/// Parse the user's text as a type reference (`Parser::parseType`) and
/// report its first syntax error, if any.
pub fn check_type(body: &str, recursion_limit: usize) -> (r: Option<SyntaxErrorReport>)
    ensures
        report_view(r) == report_spec(
            apollo_type_error(body@, recursion_limit),
            0,
            false,
            recursion_limit,
            body@,
        ),
{
    let err = type_first_error(body, recursion_limit);
    error_report(err, 0, false, recursion_limit, body)
}

/// Parse the user's text as a whole document for the single-definition
/// partial parsers (no offset overrides) and report its first error.
pub fn check_definition(body: &str, recursion_limit: usize) -> (r: Option<SyntaxErrorReport>)
    ensures
        report_view(r) == report_spec(
            apollo_document_error(body@, recursion_limit),
            0,
            false,
            recursion_limit,
            body@,
        ),
{
    let err = document_first_error(body, recursion_limit);
    error_report(err, 0, false, recursion_limit, body)
}

// --- partial parsers ------------------------------------------------------------------

/// What a partial parser (`Parser::parseValue`, `Parser::name()`, …) parses.
#[derive(Debug, Clone, Copy, PartialEq, Eq)]
pub enum PartialKind {
    Value,
    Type,
    Name,
    Argument,
    Arguments,
    Directive,
    Directives,
    SelectionSet,
    ArgumentsDefinition,
    FieldsDefinition,
    DirectiveLocations,
    ImplementsInterfaces,
    UnionMemberTypes,
    /// A whole definition: the text is parsed as a document.
    Definition,
    Unsupported,
}

pub open spec fn is_definition_name(n: Seq<char>) -> bool {
    ||| n == "operationDefinition"@
    ||| n == "fragmentDefinition"@
    ||| n == "typeSystemDefinition"@
    ||| n == "schemaDefinition"@
    ||| n == "operationTypeDefinition"@
    ||| n == "scalarTypeDefinition"@
    ||| n == "objectTypeDefinition"@
    ||| n == "fieldDefinition"@
    ||| n == "inputValueDefinition"@
    ||| n == "interfaceTypeDefinition"@
    ||| n == "unionTypeDefinition"@
    ||| n == "enumTypeDefinition"@
    ||| n == "enumValueDefinition"@
    ||| n == "inputObjectTypeDefinition"@
    ||| n == "directiveDefinition"@
    ||| n == "typeSystemExtension"@
    ||| n == "schemaExtension"@
    ||| n == "scalarTypeExtension"@
    ||| n == "objectTypeExtension"@
    ||| n == "interfaceTypeExtension"@
    ||| n == "unionTypeExtension"@
    ||| n == "enumTypeExtension"@
    ||| n == "inputObjectTypeExtension"@
}

/// The partial parser that a `Parser::<name>()` call selects.
pub open spec fn partial_kind_spec(n: Seq<char>) -> PartialKind {
    if n == "valueLiteral"@ || n == "value"@ || n == "constValueLiteral"@ {
        PartialKind::Value
    } else if n == "typeReference"@ || n == "type"@ {
        PartialKind::Type
    } else if n == "name"@ {
        PartialKind::Name
    } else if n == "argument"@ || n == "constArgument"@ {
        PartialKind::Argument
    } else if n == "arguments"@ || n == "constArguments"@ {
        PartialKind::Arguments
    } else if n == "directive"@ || n == "constDirective"@ {
        PartialKind::Directive
    } else if n == "directives"@ || n == "constDirectives"@ {
        PartialKind::Directives
    } else if n == "selectionSet"@ {
        PartialKind::SelectionSet
    } else if n == "argumentsDefinition"@ {
        PartialKind::ArgumentsDefinition
    } else if n == "fieldsDefinition"@ {
        PartialKind::FieldsDefinition
    } else if n == "directiveLocations"@ {
        PartialKind::DirectiveLocations
    } else if n == "implementsInterfaces"@ {
        PartialKind::ImplementsInterfaces
    } else if n == "unionMemberTypes"@ {
        PartialKind::UnionMemberTypes
    } else if is_definition_name(n) {
        PartialKind::Definition
    } else {
        PartialKind::Unsupported
    }
}

fn is_definition(n: &Vec<char>) -> (r: bool)
    ensures
        r == is_definition_name(n@),
{
    crate::text::eq_lit(n, "operationDefinition") || crate::text::eq_lit(n, "fragmentDefinition")
        || crate::text::eq_lit(n, "typeSystemDefinition") || crate::text::eq_lit(
        n,
        "schemaDefinition",
    ) || crate::text::eq_lit(n, "operationTypeDefinition") || crate::text::eq_lit(
        n,
        "scalarTypeDefinition",
    ) || crate::text::eq_lit(n, "objectTypeDefinition") || crate::text::eq_lit(
        n,
        "fieldDefinition",
    ) || crate::text::eq_lit(n, "inputValueDefinition") || crate::text::eq_lit(
        n,
        "interfaceTypeDefinition",
    ) || crate::text::eq_lit(n, "unionTypeDefinition") || crate::text::eq_lit(
        n,
        "enumTypeDefinition",
    ) || crate::text::eq_lit(n, "enumValueDefinition") || crate::text::eq_lit(
        n,
        "inputObjectTypeDefinition",
    ) || crate::text::eq_lit(n, "directiveDefinition") || crate::text::eq_lit(
        n,
        "typeSystemExtension",
    ) || crate::text::eq_lit(n, "schemaExtension") || crate::text::eq_lit(
        n,
        "scalarTypeExtension",
    ) || crate::text::eq_lit(n, "objectTypeExtension") || crate::text::eq_lit(
        n,
        "interfaceTypeExtension",
    ) || crate::text::eq_lit(n, "unionTypeExtension") || crate::text::eq_lit(
        n,
        "enumTypeExtension",
    ) || crate::text::eq_lit(n, "inputObjectTypeExtension")
}

/// The partial parser that a `Parser::<name>()` call selects.
pub fn partial_kind(name: &str) -> (r: PartialKind)
    ensures
        r == partial_kind_spec(name@),
{
    let n = chars_of(name);
    let eq = |s: &str| -> (b: bool)
        ensures
            b == (n@ == s@),
        { crate::text::eq_lit(&n, s) };
    if eq("valueLiteral") || eq("value") || eq("constValueLiteral") {
        PartialKind::Value
    } else if eq("typeReference") || eq("type") {
        PartialKind::Type
    } else if eq("name") {
        PartialKind::Name
    } else if eq("argument") || eq("constArgument") {
        PartialKind::Argument
    } else if eq("arguments") || eq("constArguments") {
        PartialKind::Arguments
    } else if eq("directive") || eq("constDirective") {
        PartialKind::Directive
    } else if eq("directives") || eq("constDirectives") {
        PartialKind::Directives
    } else if eq("selectionSet") {
        PartialKind::SelectionSet
    } else if eq("argumentsDefinition") {
        PartialKind::ArgumentsDefinition
    } else if eq("fieldsDefinition") {
        PartialKind::FieldsDefinition
    } else if eq("directiveLocations") {
        PartialKind::DirectiveLocations
    } else if eq("implementsInterfaces") {
        PartialKind::ImplementsInterfaces
    } else if eq("unionMemberTypes") {
        PartialKind::UnionMemberTypes
    } else if is_definition(&n) {
        PartialKind::Definition
    } else {
        PartialKind::Unsupported
    }
}

/// The user's text wrapped into a document, and the length in bytes of the
/// text in front of it.
pub struct Wrapping {
    pub source: String,
    pub prefix_len: usize,
}

/// The text put before and after the user's text for each wrapped partial
/// parser.
pub open spec fn wrap_parts(k: PartialKind) -> Option<(Seq<char>, Seq<char>)> {
    match k {
        PartialKind::Value => Some(("query{__wrap(__a:"@, ")}"@)),
        PartialKind::Name => Some(("{ __wrap: "@, " }"@)),
        PartialKind::Argument => Some(("query{__wrap("@, ")}"@)),
        PartialKind::Arguments => Some(("query{__wrap"@, "}"@)),
        PartialKind::Directive => Some(("query "@, " {__typename}"@)),
        PartialKind::Directives => Some(("query "@, " {__typename}"@)),
        PartialKind::SelectionSet => Some(("query "@, ""@)),
        PartialKind::ArgumentsDefinition => Some(("directive @x"@, " on FIELD"@)),
        PartialKind::FieldsDefinition => Some(("type X "@, ""@)),
        PartialKind::DirectiveLocations => Some(("directive @x on "@, ""@)),
        PartialKind::ImplementsInterfaces => Some(("type X "@, " { f: T }"@)),
        PartialKind::UnionMemberTypes => Some(("union X "@, ""@)),
        _ => None,
    }
}

fn wrap(prefix: &str, body: &str, suffix: &str) -> (r: Wrapping)
    ensures
        r.source@ == prefix@ + body@ + suffix@,
        r.prefix_len == utf8_len(prefix@),
{
    let mut v = chars_of(prefix);
    push_str(&mut v, body);
    push_str(&mut v, suffix);
    Wrapping { source: string_of(&v), prefix_len: str_byte_len(prefix) }
}

/// The wrapped source of a partial parser; `None` for the kinds that parse
/// the text as it stands (or are not supported). The user's text stands in
/// the wrapped source right after `prefix_len` bytes, so that an offset in
/// the wrapped source less `prefix_len` is an offset in the user's text.
pub fn partial_wrapping(kind: PartialKind, body: &str) -> (r: Option<Wrapping>)
    ensures
        match (r, wrap_parts(kind)) {
            (Some(w), Some((p, s))) => w.source@ == p + body@ + s && w.prefix_len == utf8_len(p),
            (None, None) => true,
            _ => false,
        },
{
    match kind {
        PartialKind::Value => Some(wrap("query{__wrap(__a:", body, ")}")),
        PartialKind::Name => Some(wrap("{ __wrap: ", body, " }")),
        PartialKind::Argument => Some(wrap("query{__wrap(", body, ")}")),
        PartialKind::Arguments => Some(wrap("query{__wrap", body, "}")),
        PartialKind::Directive => Some(wrap("query ", body, " {__typename}")),
        PartialKind::Directives => Some(wrap("query ", body, " {__typename}")),
        PartialKind::SelectionSet => Some(wrap("query ", body, "")),
        PartialKind::ArgumentsDefinition => Some(wrap("directive @x", body, " on FIELD")),
        PartialKind::FieldsDefinition => Some(wrap("type X ", body, "")),
        PartialKind::DirectiveLocations => Some(wrap("directive @x on ", body, "")),
        PartialKind::ImplementsInterfaces => Some(wrap("type X ", body, " { f: T }")),
        PartialKind::UnionMemberTypes => Some(wrap("union X ", body, "")),
        _ => None,
    }
}

/// The user's text stands in a wrapped source right after the prefix: the
/// bytes of the wrapped source from `utf8_len(prefix)` on, for as many bytes
/// as the user's text has, are the user's text. So an offset into the
/// wrapped source less the prefix length is an offset into the user's text.
pub proof fn law_wrapped_offsets(kind: PartialKind, body: Seq<char>)
    requires
        wrap_parts(kind) is Some,
    ensures
        ({
            let (p, s) = wrap_parts(kind)->0;
            encode_utf8(p + body + s).subrange(
                utf8_len(p) as int,
                (utf8_len(p) + utf8_len(body)) as int,
            ) == encode_utf8(body)
        }),
{
    let (p, s) = wrap_parts(kind)->0;
    lemma_encode_concat(p + body, s);
    lemma_encode_concat(p, body);
    lemma_encode_len(p);
    lemma_encode_len(body);
    assert((encode_utf8(p) + encode_utf8(body) + encode_utf8(s)).subrange(
        utf8_len(p) as int,
        (utf8_len(p) + utf8_len(body)) as int,
    ) =~= encode_utf8(body));
}

/// Parse a wrapped source and report its first error in the user's
/// coordinates: the offset less the prefix (never below 0), the
/// description computed against the user's text.
pub fn check_wrapped(w: &Wrapping, body: &str, recursion_limit: usize) -> (r: Option<
    SyntaxErrorReport,
>)
    ensures
        report_view(r) == report_spec(
            apollo_document_error(w.source@, recursion_limit),
            w.prefix_len,
            false,
            recursion_limit,
            body@,
        ),
{
    let err = document_first_error(w.source.as_str(), recursion_limit);
    error_report(err, w.prefix_len, false, recursion_limit, body)
}

/// The first `$` of `b[i..]` that stands outside string literals, block
/// strings and comments: where a variable starts.
pub open spec fn variable_at(b: Seq<u8>, i: int) -> Option<int>
    decreases b.len() - i,
{
    if i < 0 || i >= b.len() {
        None
    } else if b[i] == 36 {
        Some(i)
    } else {
        proof {
            lemma_skip_token(b, i);
        }
        variable_at(b, skip_token(b, i))
    }
}

/// The `const*` partial parsers reject variables: the byte position of the
/// first `$` outside strings and comments when `name` starts with `const`.
pub open spec fn const_variable_spec(name: Seq<char>, body: Seq<char>) -> Option<int> {
    if starts_with(name, "const"@) {
        variable_at(encode_utf8(body), 0)
    } else {
        None
    }
}

/// Where a `const*` partial parser finds a variable (`Unexpected $`).
pub fn const_variable_position(name: &str, body: &str) -> (r: Option<usize>)
    ensures
        opt_int(r) == const_variable_spec(name@, body@),
{
    let n = chars_of(name);
    if !starts_with_str(&n, "const") {
        return None;
    }
    let bytes = body.as_bytes();
    let len = bytes.len();
    let mut q: usize = 0;
    assert(bytes@ == encode_utf8(body@));
    assert(starts_with(name@, "const"@));
    while q < len
        invariant
            len == bytes@.len(),
            q <= len,
            variable_at(bytes@, 0) == variable_at(bytes@, q as int),
            bytes@ == encode_utf8(body@),
            starts_with(name@, "const"@),
        decreases len - q,
    {
        if bytes[q] == 36 {
            assert(variable_at(bytes@, q as int) == Some(q as int));
            return Some(q);
        }
        assert(variable_at(bytes@, q as int) == variable_at(bytes@, skip_token(bytes@, q as int)));
        q = skip_token_at(bytes, q);
    }
    None
}

/// The syntax error of a `const*` partial parser whose text holds a
/// variable: `Unexpected $` at the first `$`.
pub fn const_variable_error(name: &str, body: &str) -> (r: Option<SyntaxErrorReport>)
    ensures
        report_view(r) == match const_variable_spec(name@, body@) {
            Some(p) => Some((p, "Unexpected $"@)),
            None => None,
        },
{
    match const_variable_position(name, body) {
        Some(p) => Some(SyntaxErrorReport { position: p, description: "Unexpected $".to_owned() }),
        None => None,
    }
}

/// `query (<vars>) { __t }`: the wrapping that parses captured fragment
/// variable definitions as those of an operation.
pub fn fragment_variables_wrapping(vars_text: &str) -> (r: Wrapping)
    ensures
        r.source@ == "query ("@ + vars_text@ + ") { __t }"@,
        r.prefix_len == utf8_len("query ("@),
{
    wrap("query (", vars_text, ") { __t }")
}

/// Whether captured fragment variable definitions parse (with the default
/// recursion limit); those that do not are left off the fragment.
pub fn fragment_variables_parse(w: &Wrapping) -> (r: bool)
    ensures
        r == (apollo_document_error(w.source@, DEFAULT_RECURSION_LIMIT) is None),
{
    document_first_error(w.source.as_str(), DEFAULT_RECURSION_LIMIT).is_none()
}

/// The captured variable definitions of the first pair named `name`.
pub open spec fn vars_for_spec(pairs: Seq<(Seq<char>, Seq<char>)>, name: Seq<char>) -> Option<
    Seq<char>,
>
    decreases pairs.len(),
{
    if pairs.len() == 0 {
        None
    } else if pairs[0].0 == name {
        Some(pairs[0].1)
    } else {
        vars_for_spec(pairs.drop_first(), name)
    }
}

/// The variable definitions captured for the fragment `name`, if any.
pub fn fragment_vars_for(vars: &Vec<(String, String)>, name: &str) -> (r: Option<String>)
    ensures
        match r {
            Some(v) => vars_for_spec(pairs_view(vars@), name@) == Some(v@),
            None => vars_for_spec(pairs_view(vars@), name@) is None,
        },
{
    let n = chars_of(name);
    let mut i: usize = 0;
    assert(pairs_view(vars@).skip(0) =~= pairs_view(vars@));
    while i < vars.len()
        invariant
            i <= vars@.len(),
            n@ == name@,
            vars_for_spec(pairs_view(vars@), name@) == vars_for_spec(
                pairs_view(vars@).skip(i as int),
                name@,
            ),
        decreases vars@.len() - i,
    {
        assert(pairs_view(vars@).skip(i as int).drop_first() =~= pairs_view(vars@).skip(i + 1));
        let k = chars_of(vars[i].0.as_str());
        if crate::text::eq_lit(&k, name) {
            return Some(vars[i].1.clone());
        }
        i += 1;
    }
    None
}

proof fn lemma_no_fragment_from(b: Seq<u8>, i: int)
    requires
        0 <= i <= b.len(),
        forall|k: int| 0 <= k < b.len() ==> !word_at(b, k, fragment_word()),
    ensures
        fragments_rest(b, i) == (b.subrange(i, b.len() as int), Seq::<
            (Seq<char>, Seq<char>),
        >::empty()),
    decreases b.len() - i,
{
    if i < b.len() {
        lemma_no_fragment_from(b, i + 1);
        assert(b.subrange(i, b.len() as int) =~= seq![b[i]] + b.subrange(i + 1, b.len() as int));
        assert(Seq::<(Seq<char>, Seq<char>)>::empty() + Seq::<(Seq<char>, Seq<char>)>::empty()
            =~= Seq::<(Seq<char>, Seq<char>)>::empty());
    } else {
        assert(b.subrange(i, b.len() as int) =~= Seq::<u8>::empty());
    }
}

/// Without the keyword `fragment` the rewrite gives the text back unchanged
/// and captures nothing.
pub proof fn law_no_fragment_keyword(b: Seq<u8>)
    requires
        forall|k: int| 0 <= k < b.len() ==> !word_at(b, k, fragment_word()),
    ensures
        fragments_rest(b, 0).0 == b,
        fragments_rest(b, 0).1.len() == 0,
{
    lemma_no_fragment_from(b, 0);
    assert(b.subrange(0, b.len() as int) =~= b);
}


/// Where `close_paren` finds the `)` in a suffix does not depend on what
/// stands before it.
proof fn lemma_close_paren_shift(a: Seq<u8>, c: Seq<u8>, k: int, d: i32)
    requires
        0 <= k,
    ensures
        close_paren(a + c, a.len() + k, d) == (match close_paren(c, k, d) {
            Some(x) => Some(a.len() + x),
            None => None,
        }),
    decreases c.len() - k,
{
    if k < c.len() {
        assert((a + c)[a.len() + k] == c[k]);
        let d2 = if c[k] == 40 {
            d.wrapping_add(1)
        } else if c[k] == 41 {
            d.wrapping_sub(1)
        } else {
            d
        };
        lemma_close_paren_shift(a, c, k + 1, d2);
    }
}

/// The fragment rewrite of a suffix that follows a byte outside any name
/// does not depend on what stands before it.
proof fn lemma_fragments_shift(a: Seq<u8>, c: Seq<u8>, i: int)
    requires
        0 <= i,
        a.len() == 0 || !is_name_byte(a.last()),
    ensures
        fragments_rest(a + c, a.len() + i) == fragments_rest(c, i),
    decreases c.len() - i,
{
    let s = a + c;
    let n = a.len() as int;
    let w = fragment_word();
    if i < c.len() {
        assert(s[n + i] == c[i]);
        if i + 8 <= c.len() {
            assert(s.subrange(n + i, n + i + 8) =~= c.subrange(i, i + 8));
        }
        if i + 8 < c.len() {
            assert(s[n + i + 8] == c[i + 8]);
        }
        if i > 0 {
            assert(s[n + i - 1] == c[i - 1]);
        } else if n > 0 {
            assert(s[n - 1] == a.last());
        }
        assert(word_at(s, n + i, w) == word_at(c, i, w));
        if word_at(c, i, w) {
            let j1 = skip_while(c, ascii_ws_pred(), i + 8);
            let j = skip_while(c, name_pred(), j1);
            let k = skip_while(c, ascii_ws_pred(), j);
            lemma_skip_while(c, ascii_ws_pred(), i + 8);
            lemma_skip_while(c, name_pred(), j1);
            lemma_skip_while(c, ascii_ws_pred(), j);
            lemma_skip_while_shift(a, c, ascii_ws_pred(), i + 8);
            lemma_skip_while_shift(a, c, name_pred(), j1);
            lemma_skip_while_shift(a, c, ascii_ws_pred(), j);
            lemma_close_paren_shift(a, c, k, 0);
            lemma_close_paren(c, k, 0);
            assert(s.subrange(n + i, n + j) =~= c.subrange(i, j));
            if k < c.len() {
                assert(s[n + k] == c[k]);
            }
            if k < c.len() && c[k] == 40 && close_paren(c, k, 0) is Some {
                let l = close_paren(c, k, 0)->0;
                assert(s.subrange(n + j1, n + j) =~= c.subrange(j1, j));
                assert(s.subrange(n + k + 1, n + l) =~= c.subrange(k + 1, l));
                lemma_fragments_shift(a, c, l + 1);
            } else {
                lemma_fragments_shift(a, c, j);
            }
        } else {
            lemma_fragments_shift(a, c, i + 1);
        }
    }
}

/// Bytes at which no `fragment` begins are copied.
proof fn lemma_fragments_copy(s: Seq<u8>, i: int, n: int)
    requires
        0 <= i <= n <= s.len(),
        forall|k: int| i <= k < n ==> !matches_at(s, k, fragment_word()),
    ensures
        fragments_rest(s, i) == (
            s.subrange(i, n) + fragments_rest(s, n).0,
            fragments_rest(s, n).1,
        ),
    decreases n - i,
{
    if i < n {
        assert(!matches_at(s, i, fragment_word()));
        lemma_fragments_copy(s, i + 1, n);
        assert(s.subrange(i, n) =~= seq![s[i]] + s.subrange(i + 1, n));
    } else {
        assert(s.subrange(i, n) =~= Seq::<u8>::empty());
    }
}

/// Text in which no `fragment` begins, up to a byte outside any name, is
/// copied as it is, and the text after it is rewritten as on its own.
pub proof fn law_fragments_prefix(a: Seq<u8>, c: Seq<u8>)
    requires
        a.len() == 0 || !is_name_byte(a.last()),
        forall|k: int| 0 <= k < a.len() ==> !matches_at(a + c, k, fragment_word()),
    ensures
        fragments_rest(a + c, 0) == (a + fragments_rest(c, 0).0, fragments_rest(c, 0).1),
{
    lemma_fragments_copy(a + c, 0, a.len() as int);
    lemma_fragments_shift(a, c, 0);
    assert((a + c).subrange(0, a.len() as int) =~= a);
}

/// Every `fragment <name> (<vars>)` is rewritten and captured: the
/// parenthesised group becomes one space, the pair (name, vars) is captured,
/// and the text after the group is rewritten as on its own (its groups are
/// captured after this one).
pub proof fn law_fragment_group(
    w1: Seq<u8>,
    name: Seq<u8>,
    w2: Seq<u8>,
    vars: Seq<u8>,
    c: Seq<u8>,
)
    requires
        w1.len() > 0,
        forall|k: int| 0 <= k < w1.len() ==> is_ascii_ws(#[trigger] w1[k]),
        name.len() > 0,
        forall|k: int| 0 <= k < name.len() ==> is_name_byte(#[trigger] name[k]),
        forall|k: int| 0 <= k < w2.len() ==> is_ascii_ws(#[trigger] w2[k]),
        forall|k: int| 0 <= k < vars.len() ==> #[trigger] vars[k] != 40 && vars[k] != 41,
    ensures
        fragments_rest(
            fragment_word() + w1 + name + w2 + seq![40u8] + vars + seq![41u8] + c,
            0,
        ) == (
            fragment_word() + w1 + name + seq![32u8] + fragments_rest(c, 0).0,
            seq![(bytes_as_chars(name), decode_utf8(vars))] + fragments_rest(c, 0).1,
        ),
{
    let g = fragment_word() + w1 + name + w2 + seq![40u8] + vars + seq![41u8];
    let s = g + c;
    let fw = fragment_word();
    let e1: int = 8 + w1.len() as int;
    let e2: int = e1 + name.len();
    let e3: int = e2 + w2.len();
    let e4: int = e3 + 1 + vars.len();
    assert(g.len() == e4 + 1);
    assert forall|k: int| 0 <= k < 8 implies s[k] == #[trigger] fw[k] by {}
    assert forall|k: int| 8 <= k < e1 implies s[k] == #[trigger] w1[k - 8] by {}
    assert forall|k: int| e1 <= k < e2 implies s[k] == #[trigger] name[k - e1] by {}
    assert forall|k: int| e2 <= k < e3 implies s[k] == #[trigger] w2[k - e2] by {}
    assert forall|k: int| e3 + 1 <= k < e4 implies s[k] == #[trigger] vars[k - e3 - 1] by {}
    assert(s[e3] == 40);
    assert(s[e4] == 41);
    // the keyword
    assert(s.subrange(0, 8) =~= fw);
    assert(s[8] == w1[0]);
    assert(word_at(s, 0, fw));
    // the name and the blanks around it
    assert forall|k: int| 8 <= k < e1 implies #[trigger] ascii_ws_pred()(s[k]) by {
        assert(s[k] == w1[k - 8]);
    }
    assert(s[e1] == name[0]);
    lemma_skip_while_at(s, ascii_ws_pred(), 8, e1);
    assert forall|k: int| e1 <= k < e2 implies #[trigger] name_pred()(s[k]) by {
        assert(s[k] == name[k - e1]);
    }
    if w2.len() > 0 {
        assert(s[e2] == w2[0]);
    }
    lemma_skip_while_at(s, name_pred(), e1, e2);
    assert forall|k: int| e2 <= k < e3 implies #[trigger] ascii_ws_pred()(s[k]) by {
        assert(s[k] == w2[k - e2]);
    }
    lemma_skip_while_at(s, ascii_ws_pred(), e2, e3);
    // the group
    assert(0i32.wrapping_add(1) == 1i32);
    assert(1i32.wrapping_sub(1) == 0i32);
    assert(close_paren(s, e3 + 1, 1) == close_paren(s, e4, 1)) by {
        lemma_close_paren_run(s, e3 + 1, e4);
    }
    assert(close_paren(s, e3, 0) == Some(e4));
    lemma_fragments_shift(g, c, 0);
    assert(s.subrange(0, e2) =~= fw + w1 + name);
    assert(s.subrange(e1, e2) =~= name);
    assert(s.subrange(e3 + 1, e4) =~= vars);
}

/// A `fragment <name>` that no parenthesised group follows is copied as it
/// is, and the text after it is rewritten as on its own.
pub proof fn law_fragment_without_group(w1: Seq<u8>, name: Seq<u8>, w2: Seq<u8>, c: Seq<u8>)
    requires
        w1.len() > 0,
        forall|k: int| 0 <= k < w1.len() ==> is_ascii_ws(#[trigger] w1[k]),
        name.len() > 0,
        forall|k: int| 0 <= k < name.len() ==> is_name_byte(#[trigger] name[k]),
        w2.len() > 0,
        forall|k: int| 0 <= k < w2.len() ==> is_ascii_ws(#[trigger] w2[k]),
        c.len() == 0 || (c[0] != 40 && !is_ascii_ws(c[0])),
    ensures
        fragments_rest(fragment_word() + w1 + name + w2 + c, 0) == (
            fragment_word() + w1 + name + w2 + fragments_rest(c, 0).0,
            fragments_rest(c, 0).1,
        ),
{
    let g = fragment_word() + w1 + name + w2;
    let s = g + c;
    let fw = fragment_word();
    let e1: int = 8 + w1.len() as int;
    let e2: int = e1 + name.len();
    let e3: int = e2 + w2.len();
    assert(g.len() == e3);
    assert forall|k: int| 0 <= k < 8 implies s[k] == #[trigger] fw[k] by {}
    assert forall|k: int| 8 <= k < e1 implies s[k] == #[trigger] w1[k - 8] by {}
    assert forall|k: int| e1 <= k < e2 implies s[k] == #[trigger] name[k - e1] by {}
    assert forall|k: int| e2 <= k < e3 implies s[k] == #[trigger] w2[k - e2] by {}
    assert(s.subrange(0, 8) =~= fw);
    assert(s[8] == w1[0]);
    assert(word_at(s, 0, fw));
    assert forall|k: int| 8 <= k < e1 implies #[trigger] ascii_ws_pred()(s[k]) by {
        assert(s[k] == w1[k - 8]);
    }
    assert(s[e1] == name[0]);
    lemma_skip_while_at(s, ascii_ws_pred(), 8, e1);
    assert forall|k: int| e1 <= k < e2 implies #[trigger] name_pred()(s[k]) by {
        assert(s[k] == name[k - e1]);
    }
    assert(s[e2] == w2[0]);
    lemma_skip_while_at(s, name_pred(), e1, e2);
    assert forall|k: int| e2 <= k < e3 implies #[trigger] ascii_ws_pred()(s[k]) by {
        assert(s[k] == w2[k - e2]);
    }
    if c.len() > 0 {
        assert(s[e3] == c[0]);
    }
    lemma_skip_while_at(s, ascii_ws_pred(), e2, e3);
    assert forall|k: int| e2 <= k < e3 implies !matches_at(s, k, fw) by {
        if matches_at(s, k, fw) {
            assert(s.subrange(k, k + 8)[0] == fw[0]);
            assert(s[k] == w2[k - e2]);
        }
    }
    lemma_fragments_copy(s, e2, e3);
    lemma_fragments_shift(g, c, 0);
    assert(s.subrange(0, e2) =~= fw + w1 + name);
    assert(s.subrange(e2, e3) =~= w2);
    assert(fw + w1 + name + w2 =~= g);
}

/// Bytes that are no parenthesis leave the depth unchanged.
proof fn lemma_close_paren_run(s: Seq<u8>, x: int, y: int)
    requires
        0 <= x <= y <= s.len(),
        forall|k: int| x <= k < y ==> #[trigger] s[k] != 40 && s[k] != 41,
    ensures
        close_paren(s, x, 1) == close_paren(s, y, 1),
    decreases y - x,
{
    if x < y {
        lemma_close_paren_run(s, x + 1, y);
    }
}

// --- the `implements` rewrite is idempotent ----------------------------------------

/// The blank test as a predicate on bytes.
spec fn blank_pred() -> spec_fn(u8) -> bool {
    |x: u8| is_blank(x)
}

/// A name may start here (a letter or `_`).
spec fn is_name_start(x: u8) -> bool {
    is_ascii_alpha(x) || x == 95
}

/// In a gap, blanks are skipped one by one.
proof fn lemma_gap_skip(c: Seq<u8>, e: int, p: int, r: int)
    requires
        0 <= p <= r <= c.len(),
        forall|k: int| p <= k < r ==> is_blank(#[trigger] c[k]),
    ensures
        implements_rest(c, ImplScan::Gap(e), p) == implements_rest(c, ImplScan::Gap(e), r),
    decreases r - p,
{
    if p < r {
        assert(is_blank(c[p]));
        lemma_gap_skip(c, e, p + 1, r);
    }
}

/// The first output byte of these states is the input byte.
proof fn lemma_first_byte(b: Seq<u8>, st: ImplScan, p: int)
    requires
        0 <= p < b.len(),
        st == ImplScan::Normal || st == ImplScan::AfterKeyword || st == ImplScan::AfterAmp || st
            == ImplScan::NameStart,
    ensures
        implements_rest(b, st, p).len() >= 1,
        implements_rest(b, st, p)[0] == b[p],
    decreases scan_rank(st),
{
    match st {
        ImplScan::Normal => {
            if word_at(b, p, implements_word()) {
                assert(b.subrange(p, p + 10)[0] == implements_word()[0]);
            }
        },
        ImplScan::AfterKeyword => {
            if !is_blank(b[p]) && b[p] != 38 {
                lemma_first_byte(b, ImplScan::NameStart, p);
            }
        },
        ImplScan::AfterAmp => {
            if !is_blank(b[p]) {
                lemma_first_byte(b, ImplScan::NameStart, p);
            }
        },
        ImplScan::NameStart => {
            if !is_name_byte(b[p]) {
                lemma_first_byte(b, ImplScan::Normal, p);
            }
        },
        _ => {},
    }
}

/// Two texts that agree from `lo` on and agree on which bytes before `lo`
/// are name bytes.
spec fn agree_from(c1: Seq<u8>, c2: Seq<u8>, lo: int) -> bool {
    &&& c1.len() == c2.len()
    &&& 0 <= lo
    &&& forall|k: int| lo <= k < c1.len() ==> c1[k] == c2[k]
    &&& forall|k: int| 0 <= k < lo && k < c1.len() ==> is_name_byte(c1[k]) == is_name_byte(c2[k])
}

/// The rewrite from a state reads nothing before `lo` but whether a byte
/// is a name byte.
proof fn lemma_local(c1: Seq<u8>, c2: Seq<u8>, st: ImplScan, p: int, lo: int)
    requires
        agree_from(c1, c2, lo),
        lo <= p,
        st matches ImplScan::Gap(e) ==> lo <= e <= p && (e == p ==> (p >= c1.len()
            || !is_name_byte(c1[p]))),
    ensures
        implements_rest(c1, st, p) == implements_rest(c2, st, p),
    decreases c1.len() - p, scan_rank(st),
{
    let n = c1.len() as int;
    if 0 <= p <= n {
        let here = p < n;
        match st {
            ImplScan::Normal => {
                if here {
                    if p + 10 <= n {
                        assert(c1.subrange(p, p + 10) =~= c2.subrange(p, p + 10));
                    }
                    if p > 0 && p - 1 >= lo {
                        assert(c1[p - 1] == c2[p - 1]);
                    }
                    assert(word_at(c1, p, implements_word()) == word_at(c2, p, implements_word()));
                    if word_at(c1, p, implements_word()) {
                        lemma_local(c1, c2, ImplScan::AfterKeyword, p + 10, lo);
                    } else {
                        lemma_local(c1, c2, ImplScan::Normal, p + 1, lo);
                    }
                }
            },
            ImplScan::AfterKeyword => {
                if here && is_blank(c1[p]) {
                    lemma_local(c1, c2, ImplScan::AfterKeyword, p + 1, lo);
                } else if here && c1[p] == 38 {
                    lemma_local(c1, c2, ImplScan::AfterAmp, p + 1, lo);
                } else {
                    lemma_local(c1, c2, ImplScan::NameStart, p, lo);
                }
            },
            ImplScan::AfterAmp => {
                if here && is_blank(c1[p]) {
                    lemma_local(c1, c2, ImplScan::AfterAmp, p + 1, lo);
                } else {
                    lemma_local(c1, c2, ImplScan::NameStart, p, lo);
                }
            },
            ImplScan::NameStart => {
                if here && is_name_byte(c1[p]) {
                    lemma_local(c1, c2, ImplScan::InName, p + 1, lo);
                } else {
                    lemma_local(c1, c2, ImplScan::Normal, p, lo);
                }
            },
            ImplScan::InName => {
                if here && is_name_byte(c1[p]) {
                    lemma_local(c1, c2, ImplScan::InName, p + 1, lo);
                } else {
                    lemma_local(c1, c2, ImplScan::Gap(p), p, lo);
                }
            },
            ImplScan::Gap(e) => {
                if here && is_blank(c1[p]) {
                    lemma_local(c1, c2, ImplScan::Gap(e), p + 1, lo);
                } else if here && is_name_start(c1[p]) {
                    assert(e < p);
                    assert(c1.subrange(e, p - 1) =~= c2.subrange(e, p - 1));
                    lemma_local(c1, c2, ImplScan::NameStart, p, lo);
                } else if here && c1[p] == 38 {
                    assert(c1.subrange(e, p) =~= c2.subrange(e, p));
                    lemma_local(c1, c2, ImplScan::NameStart, p + 1, lo);
                } else {
                    assert(c1.subrange(e, p) =~= c2.subrange(e, p));
                    lemma_local(c1, c2, ImplScan::Normal, p, lo);
                }
            },
        }
    }
}

/// A text that keeps the offsets of `b` has `implements` as a whole word
/// where `b` has it.
proof fn lemma_word_same(b: Seq<u8>, c: Seq<u8>, p: int)
    requires
        keeps_offsets(c, b),
    ensures
        word_at(c, p, implements_word()) == word_at(b, p, implements_word()),
{
    let w = implements_word();
    let n = b.len() as int;
    if 0 <= p && p + 10 <= n {
        if matches_at(b, p, w) {
            assert forall|k: int| 0 <= k < 10 implies c.subrange(p, p + 10)[k] == w[k] by {
                assert(b.subrange(p, p + 10)[k] == w[k]);
                assert(c[p + k] == b[p + k] || (c[p + k] == 38 && is_blank(b[p + k])));
            }
            assert(c.subrange(p, p + 10) =~= w);
        }
        if matches_at(c, p, w) {
            assert forall|k: int| 0 <= k < 10 implies b.subrange(p, p + 10)[k] == w[k] by {
                assert(c.subrange(p, p + 10)[k] == w[k]);
                assert(c[p + k] == b[p + k] || (c[p + k] == 38 && is_blank(b[p + k])));
            }
            assert(b.subrange(p, p + 10) =~= w);
        }
    }
    if p > 0 && p - 1 < n {
        assert(c[p - 1] == b[p - 1] || (c[p - 1] == 38 && is_blank(b[p - 1])));
    }
    if 0 <= p && p + 10 < n {
        assert(c[p + 10] == b[p + 10] || (c[p + 10] == 38 && is_blank(b[p + 10])));
    }
}

/// The output of the rewrite from a reachable state, with the input before
/// that state in front, is rewritten into itself from that state.
#[verifier::rlimit(100)]
#[verifier::spinoff_prover]
proof fn lemma_rewrite_fixed(b: Seq<u8>, st: ImplScan, p: int)
    requires
        scan_ok(b, st, p),
    ensures
        implements_rest(
            b.subrange(0, scan_from(st, p)) + implements_rest(b, st, p),
            st,
            p,
        ) == implements_rest(b, st, p),
    decreases b.len() - p, scan_rank(st),
{
    let n = b.len() as int;
    let sf = scan_from(st, p);
    let r = implements_rest(b, st, p);
    let c = b.subrange(0, sf) + r;
    lemma_implements_rest_offsets(b, st, p);
    lemma_keeps_offsets_copy(b.subrange(0, sf));
    lemma_keeps_offsets_concat(b.subrange(0, sf), b.subrange(0, sf), r, b.subrange(sf, n));
    assert(b.subrange(0, sf) + b.subrange(sf, n) =~= b);
    assert(keeps_offsets(c, b));
    assert(c.len() == n);
    let here = p < n;
    match st {
        ImplScan::Normal => {
            if !here {
            } else if word_at(b, p, implements_word()) {
                lemma_word_same(b, c, p);
                lemma_rewrite_fixed(b, ImplScan::AfterKeyword, p + 10);
                assert(b.subrange(p, p + 10) =~= implements_word());
                assert(c =~= b.subrange(0, p + 10) + implements_rest(
                    b,
                    ImplScan::AfterKeyword,
                    p + 10,
                ));
            } else {
                lemma_word_same(b, c, p);
                lemma_rewrite_fixed(b, ImplScan::Normal, p + 1);
                assert(c =~= b.subrange(0, p + 1) + implements_rest(b, ImplScan::Normal, p + 1));
            }
        },
        ImplScan::AfterKeyword => {
            if here && is_blank(b[p]) {
                lemma_rewrite_fixed(b, ImplScan::AfterKeyword, p + 1);
                assert(c =~= b.subrange(0, p + 1) + implements_rest(
                    b,
                    ImplScan::AfterKeyword,
                    p + 1,
                ));
            } else if here && b[p] == 38 {
                lemma_rewrite_fixed(b, ImplScan::AfterAmp, p + 1);
                assert(c =~= b.subrange(0, p + 1) + implements_rest(b, ImplScan::AfterAmp, p + 1));
            } else {
                if here {
                    lemma_first_byte(b, ImplScan::NameStart, p);
                    assert(c[p] == b[p]);
                }
                lemma_rewrite_fixed(b, ImplScan::NameStart, p);
            }
        },
        ImplScan::AfterAmp => {
            if here && is_blank(b[p]) {
                lemma_rewrite_fixed(b, ImplScan::AfterAmp, p + 1);
                assert(c =~= b.subrange(0, p + 1) + implements_rest(b, ImplScan::AfterAmp, p + 1));
            } else {
                if here {
                    lemma_first_byte(b, ImplScan::NameStart, p);
                    assert(c[p] == b[p]);
                }
                lemma_rewrite_fixed(b, ImplScan::NameStart, p);
            }
        },
        ImplScan::NameStart => {
            if here && is_name_byte(b[p]) {
                lemma_rewrite_fixed(b, ImplScan::InName, p + 1);
                assert(c =~= b.subrange(0, p + 1) + implements_rest(b, ImplScan::InName, p + 1));
            } else {
                if here {
                    lemma_first_byte(b, ImplScan::Normal, p);
                    assert(c[p] == b[p]);
                }
                lemma_rewrite_fixed(b, ImplScan::Normal, p);
            }
        },
        ImplScan::InName => {
            if here && is_name_byte(b[p]) {
                lemma_rewrite_fixed(b, ImplScan::InName, p + 1);
                assert(c =~= b.subrange(0, p + 1) + implements_rest(b, ImplScan::InName, p + 1));
            } else {
                if here {
                    assert(c[p] == b[p] || (c[p] == 38 && is_blank(b[p])));
                }
                lemma_rewrite_fixed(b, ImplScan::Gap(p), p);
            }
        },
        ImplScan::Gap(e) => {
            if here && is_blank(b[p]) {
                let q = skip_while(b, blank_pred(), p);
                lemma_skip_while(b, blank_pred(), p);
                assert(q > p);
                lemma_gap_skip(b, e, p, q);
                assert(forall|k: int| e <= k < q ==> is_blank(#[trigger] b[k])) by {
                    assert forall|k: int| e <= k < q implies is_blank(#[trigger] b[k]) by {
                        if k >= p {
                            assert(blank_pred()(b[k]));
                        }
                    }
                }
                assert(scan_ok(b, ImplScan::Gap(e), q));
                lemma_rewrite_fixed(b, ImplScan::Gap(e), q);
                // `c` is also the text made from the state at `q`.
                if q < n && is_name_start(b[q]) {
                    let r2 = implements_rest(b, ImplScan::NameStart, q);
                    lemma_first_byte(b, ImplScan::NameStart, q);
                    assert(r == b.subrange(e, q - 1) + seq![38u8] + r2);
                    assert forall|k: int| p <= k < q - 1 implies is_blank(#[trigger] c[k]) by {
                        assert(c[k] == b[k]);
                    }
                    lemma_gap_skip(c, e, p, q - 1);
                    assert(c[q - 1] == 38);
                    assert(c[q] == b[q]);
                    assert(c.subrange(e, q - 1) =~= b.subrange(e, q - 1));
                } else {
                    assert forall|k: int| p <= k < q implies is_blank(#[trigger] c[k]) by {
                        if q < n && b[q] == 38 {
                            assert(r == b.subrange(e, q) + seq![38u8] + implements_rest(
                                b,
                                ImplScan::NameStart,
                                q + 1,
                            ));
                        } else {
                            assert(r == b.subrange(e, q) + implements_rest(
                                b,
                                ImplScan::Normal,
                                q,
                            ));
                        }
                        assert(c[k] == b[k]);
                    }
                    lemma_gap_skip(c, e, p, q);
                }
            } else if here && is_name_start(b[p]) {
                let r2 = implements_rest(b, ImplScan::NameStart, p);
                lemma_first_byte(b, ImplScan::NameStart, p);
                assert(e < p);
                assert(c[p] == b[p]);
                assert(c.subrange(e, p - 1) =~= b.subrange(e, p - 1));
                lemma_rewrite_fixed(b, ImplScan::NameStart, p);
                let c2 = b.subrange(0, p) + r2;
                assert(c =~= b.subrange(0, p - 1) + seq![38u8] + r2);
                assert(agree_from(c, c2, p)) by {
                    assert forall|k: int| 0 <= k < p && k < c.len() implies is_name_byte(c[k])
                        == is_name_byte(c2[k]) by {
                        if k < p - 1 {
                            assert(c[k] == c2[k]);
                        } else {
                            assert(is_blank(b[p - 1]));
                        }
                    }
                }
                lemma_local(c, c2, ImplScan::NameStart, p, p);
            } else if here && b[p] == 38 {
                lemma_rewrite_fixed(b, ImplScan::NameStart, p + 1);
                assert(c =~= b.subrange(0, p + 1) + implements_rest(b, ImplScan::NameStart, p + 1));
                assert(c.subrange(e, p) =~= b.subrange(e, p));
            } else {
                if here {
                    lemma_first_byte(b, ImplScan::Normal, p);
                }
                lemma_rewrite_fixed(b, ImplScan::Normal, p);
                assert(c =~= b.subrange(0, p) + implements_rest(b, ImplScan::Normal, p));
                assert(c.subrange(e, p) =~= b.subrange(e, p));
            }
        },
    }
}

/// Rewriting `implements A B C` a second time changes nothing: the
/// rewrite of the rewritten text is the rewritten text.
pub proof fn law_implements_idempotent(b: Seq<u8>)
    ensures
        legacy_implements(legacy_implements(b)) == legacy_implements(b),
{
    lemma_rewrite_fixed(b, ImplScan::Normal, 0);
    assert(b.subrange(0, 0) + legacy_implements(b) =~= legacy_implements(b));
}

/// A text that keeps the offsets of valid UTF-8 is valid UTF-8: only ASCII
/// blanks became `&`. Shown for the first `k` bytes taken from `out`.
proof fn lemma_keeps_offsets_mix_valid(out: Seq<u8>, b: Seq<u8>, k: int)
    requires
        keeps_offsets(out, b),
        utf8_ok(b),
        0 <= k <= b.len(),
    ensures
        utf8_ok(out.subrange(0, k) + b.subrange(k, b.len() as int)),
    decreases k,
{
    let n = b.len() as int;
    if k == 0 {
        assert(out.subrange(0, 0) + b.subrange(0, n) =~= b);
    } else {
        lemma_keeps_offsets_mix_valid(out, b, k - 1);
        let prev = out.subrange(0, k - 1) + b.subrange(k - 1, n);
        let next = out.subrange(0, k) + b.subrange(k, n);
        assert(out[k - 1] == b[k - 1] || (out[k - 1] == 38 && is_blank(b[k - 1])));
        if out[k - 1] == b[k - 1] {
            assert(next =~= prev);
        } else {
            assert(prev[k - 1] == b[k - 1]);
            assert(next =~= prev.update(k - 1, 38u8));
            assert(utf8_ok(prev.update(k - 1, 38u8))) by {
                reveal(utf8_ok);
                lemma_ascii_update_valid(prev, k - 1, 38u8);
            }
        }
    }
}

/// The rewrite of valid UTF-8 is valid UTF-8.
proof fn lemma_implements_valid(b: Seq<u8>)
    requires
        valid_utf8(b),
    ensures
        valid_utf8(legacy_implements(b)),
{
    let out = legacy_implements(b);
    lemma_implements_rest_offsets(b, ImplScan::Normal, 0);
    assert(b.subrange(0, b.len() as int) =~= b);
    reveal(utf8_ok);
    lemma_keeps_offsets_mix_valid(out, b, b.len() as int);
    assert(out.subrange(0, b.len() as int) + b.subrange(b.len() as int, b.len() as int) =~= out);
}

/// On text, too, rewriting `implements A B C` a second time changes
/// nothing.
pub proof fn law_implements_text_idempotent(cs: Seq<char>)
    ensures
        implements_text(implements_text(cs)) == implements_text(cs),
{
    let b = encode_utf8(cs);
    encode_utf8_valid_utf8(cs);
    lemma_implements_valid(b);
    decode_utf8_encode_utf8(legacy_implements(b));
    law_implements_idempotent(b);
}

} // verus!
