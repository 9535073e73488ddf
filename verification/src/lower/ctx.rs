//! Per-parse lowering context: the source text, the options, the line table
//! and the length of any synthetic prefix wrapped around the user's text.

use vstd::prelude::*;
use vstd::utf8::encode_utf8;
use crate::options::ParserOptions;

verus! {

broadcast use vstd::seq_lib::group_seq_properties;

/// A line begins at byte `k`: the start of the text, or right after `\n`, or
/// right after a `\r` that is not followed by `\n`.
pub open spec fn is_line_start(b: Seq<u8>, k: int) -> bool {
    k == 0 || (1 <= k <= b.len() && (b[k - 1] == 10 || (b[k - 1] == 13 && (k == b.len() || b[k]
        != 10))))
}

/// Strictly increasing.
pub open spec fn increasing(s: Seq<usize>) -> bool {
    forall|i: int, j: int| 0 <= i < j < s.len() ==> s[i] < s[j]
}

/// `s` lists, in increasing order, exactly the byte offsets at which the
/// lines of `b` begin.
pub open spec fn line_starts_of(s: Seq<usize>, b: Seq<u8>) -> bool {
    &&& increasing(s)
    &&& forall|j: int| 0 <= j < s.len() ==> s[j] <= b.len() && is_line_start(b, #[trigger] s[j] as int)
    &&& forall|k: int| #[trigger] is_line_start(b, k) ==> exists|j: int| 0 <= j < s.len() && s[j] == k
}

/// The number of line breaks (`\r\n` counted once, a lone `\r`, `\n`) that
/// end at or before byte `k`.
pub open spec fn line_breaks(b: Seq<u8>, k: int) -> nat
    decreases k,
{
    if k <= 0 {
        0
    } else {
        line_breaks(b, k - 1) + if is_line_start(b, k) {
            1nat
        } else {
            0nat
        }
    }
}

/// The byte offset at which each line of `body` begins (`line_starts[i]` is
/// where line `i + 1` begins). `\r\n`, `\n` and a lone `\r` end a line.
pub fn build_line_starts(body: &str) -> (r: Vec<usize>)
    ensures
        line_starts_of(r@, encode_utf8(body@)),
        r@.len() >= 1 && r@[0] == 0,
        r@.len() == 1 + line_breaks(encode_utf8(body@), encode_utf8(body@).len() as int),
{
    let mut starts: Vec<usize> = vec![0usize];
    let bytes = body.as_bytes();
    let n = bytes.len();
    let mut i: usize = 0;
    assert(starts@[0] == 0);
    while i < n
        invariant
            n == bytes@.len(),
            bytes@ == encode_utf8(body@),
            i <= n,
            starts@.len() >= 1 && starts@[0] == 0,
            starts@.len() == 1 + line_breaks(bytes@, i as int),
            increasing(starts@),
            forall|j: int|
                0 <= j < starts@.len() ==> starts@[j] <= i && is_line_start(
                    bytes@,
                    #[trigger] starts@[j] as int,
                ),
            forall|k: int|
                0 <= k <= i && #[trigger] is_line_start(bytes@, k) ==> exists|j: int|
                    0 <= j < starts@.len() && starts@[j] == k,
        decreases n - i,
    {
        let ghost old_starts = starts@;
        let ghost i0 = i as int;
        if bytes[i] == 13 {
            let next = i + 1;
            if next < n && bytes[next] == 10 {
                assert(!is_line_start(bytes@, i0 + 1));
                assert(is_line_start(bytes@, i0 + 2));
                assert(line_breaks(bytes@, i0 + 1) == line_breaks(bytes@, i0));
                assert(line_breaks(bytes@, i0 + 2) == line_breaks(bytes@, i0 + 1) + 1);
                starts.push(next + 1);
                i = next + 1;
            } else {
                starts.push(next);
                i = next;
            }
        } else if bytes[i] == 10 {
            starts.push(i + 1);
            i += 1;
        } else {
            i += 1;
        }
        proof {
            assert(starts@.subrange(0, old_starts.len() as int) =~= old_starts);
            assert forall|k: int| 0 <= k <= i && #[trigger] is_line_start(bytes@, k) implies exists|
                j: int,
            | 0 <= j < starts@.len() && starts@[j] == k by {
                if k <= i0 {
                    let j0 = choose|j: int| 0 <= j < old_starts.len() && old_starts[j] == k;
                    assert(starts@[j0] == old_starts[j0]);
                } else {
                    let last = starts@.len() - 1;
                    assert(starts@[last] == k);
                }
            }
        }
    }
    starts
}

/// What a lowering pass needs besides the syntax tree.
pub struct LowerCtx {
    pub body: String,
    pub options: ParserOptions,
    /// Byte offset at which each line begins (`line_starts[i]` is where line
    /// `i + 1` begins).
    pub line_starts: Vec<usize>,
    /// Length of the synthetic text wrapped in front of the user's source for
    /// the partial parsers; subtracted from every emitted offset so that
    /// locations refer to the user's text.
    pub prefix_offset: u32,
}

/// `x - y`, or 0 when `y > x` (`u32::saturating_sub`).
pub open spec fn sat_sub(x: u32, y: u32) -> u32 {
    if x >= y {
        (x - y) as u32
    } else {
        0
    }
}

impl LowerCtx {
    /// The line table matches the body.
    pub open spec fn wf(&self) -> bool {
        line_starts_of(self.line_starts@, encode_utf8(self.body@))
    }

    pub fn new(body: String, options: ParserOptions) -> (r: Self)
        ensures
            r.body@ == body@,
            r.options == options,
            r.prefix_offset == 0,
            r.wf(),
    {
        let line_starts = build_line_starts(body.as_str());
        Self { body, options, line_starts, prefix_offset: 0 }
    }

    pub fn with_prefix_offset(self, prefix: u32) -> (r: Self)
        ensures
            r.body@ == self.body@,
            r.options == self.options,
            r.line_starts@ == self.line_starts@,
            r.prefix_offset == prefix,
    {
        let mut s = self;
        s.prefix_offset = prefix;
        s
    }

    /// The `(start, end)` of the `Location` emitted for a text range, in the
    /// user's coordinates; `None` when the `noLocation` option is set.
    pub fn location_span(&self, start: u32, end: u32) -> (r: Option<(u32, u32)>)
        ensures
            r == if self.options.no_location {
                None
            } else {
                Some((sat_sub(start, self.prefix_offset), sat_sub(end, self.prefix_offset)))
            },
    {
        if self.options.no_location {
            return None;
        }
        let start = start.saturating_sub(self.prefix_offset);
        let end = end.saturating_sub(self.prefix_offset);
        Some((start, end))
    }
}

/// The span of the `NameNode` of a variable: the variable's range without
/// its leading `$` (the addition wraps as in a release build).
pub fn variable_name_span(start: u32, end: u32) -> (r: (u32, u32))
    ensures
        r == (start.wrapping_add(1), end),
{
    (start.wrapping_add(1), end)
}

} // verus!
