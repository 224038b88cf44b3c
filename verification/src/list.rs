//! Comma-separated lists whose items may hold bracketed lists of their own.

use vstd::prelude::*;
use crate::ascii::COMMA;

verus! {

/// Where the first comma outside all brackets stands, at or after `from`,
/// when `from` is `depth` brackets deep; the length of the text where there
/// is none.
pub open spec fn top_comma(s: Seq<u8>, from: int, depth: int, open: u8, close: u8) -> int
    decreases s.len() - from,
{
    if from < 0 || from >= s.len() {
        s.len() as int
    } else if s[from] == COMMA && depth == 0 {
        from
    } else if s[from] == open {
        top_comma(s, from + 1, depth + 1, open, close)
    } else if s[from] == close {
        top_comma(s, from + 1, depth - 1, open, close)
    } else {
        top_comma(s, from + 1, depth, open, close)
    }
}

/// The items of a list: what stands before, between and after the commas
/// that are outside all brackets.
pub open spec fn split_list(s: Seq<u8>, open: u8, close: u8) -> Seq<Seq<u8>>
    decreases s.len(),
{
    let at = top_comma(s, 0, 0, open, close);
    if 0 <= at < s.len() {
        seq![s.subrange(0, at)] + split_list(s.skip(at + 1), open, close)
    } else {
        seq![s]
    }
}

/// The pieces of a text that index pairs cut out.
pub open spec fn pieces(s: Seq<u8>, ranges: Seq<(usize, usize)>) -> Seq<Seq<u8>> {
    Seq::new(ranges.len(), |k: int| s.subrange(ranges[k].0 as int, ranges[k].1 as int))
}

/// Whether every pair is a range inside a text of length `len`.
pub open spec fn ranges_within(ranges: Seq<(usize, usize)>, len: int) -> bool {
    forall|k: int| 0 <= k < ranges.len() ==> (#[trigger] ranges[k]).0 <= ranges[k].1 <= len
}

/// Searching in a text without its first `k` bytes is searching in the
/// text from `k` on.
pub proof fn lemma_top_comma_skip(s: Seq<u8>, k: int, from: int, depth: int, open: u8, close: u8)
    requires
        0 <= k <= s.len(),
        0 <= from,
    ensures
        top_comma(s.skip(k), from, depth, open, close) + k == top_comma(
            s,
            k + from,
            depth,
            open,
            close,
        ),
    decreases s.len() - k - from,
{
    let t = s.skip(k);
    if from < t.len() {
        assert(t[from] == s[k + from]);
        if !(t[from] == COMMA && depth == 0) {
            if t[from] == open {
                lemma_top_comma_skip(s, k, from + 1, depth + 1, open, close);
            } else if t[from] == close {
                lemma_top_comma_skip(s, k, from + 1, depth - 1, open, close);
            } else {
                lemma_top_comma_skip(s, k, from + 1, depth, open, close);
            }
        }
    }
}

/// Finds the first comma outside all brackets at or after `from`.
pub fn find_top_comma(text: &[u8], from: usize, open: u8, close: u8) -> (res: usize)
    requires
        from <= text.len(),
    ensures
        res == top_comma(text@, from as int, 0, open, close),
        from <= res <= text.len(),
{
    let mut i: usize = from;
    let mut opened: usize = 0;
    let mut closed: usize = 0;
    while i < text.len()
        invariant
            from <= i <= text.len(),
            opened <= i - from,
            closed <= i - from,
            top_comma(text@, from as int, 0, open, close) == top_comma(
                text@,
                i as int,
                opened - closed,
                open,
                close,
            ),
        decreases text.len() - i,
    {
        let c: u8 = text[i];
        if c == COMMA && opened == closed {
            return i;
        } else if c == open {
            opened = opened + 1;
        } else if c == close {
            closed = closed + 1;
        }
        i = i + 1;
    }
    text.len()
}

/// Cuts a list into its items: the index pairs of the items, in order.
pub fn split_ranges(text: &[u8], open: u8, close: u8) -> (res: Vec<(usize, usize)>)
    ensures
        pieces(text@, res@) == split_list(text@, open, close),
        ranges_within(res@, text@.len() as int),
        res@.len() >= 1,
{
    let ghost s = text@;
    let mut ranges: Vec<(usize, usize)> = Vec::new();
    let mut cur: usize = 0;
    let mut done: bool = false;
    assert(s.skip(0) =~= s);
    assert(pieces(s, ranges@) + split_list(s, open, close) =~= split_list(s, open, close));
    while !done
        invariant
            s == text@,
            cur <= text.len(),
            ranges_within(ranges@, s.len() as int),
            done ==> ranges@.len() >= 1,
            !done ==> split_list(s, open, close) == pieces(s, ranges@) + split_list(
                s.skip(cur as int),
                open,
                close,
            ),
            done ==> split_list(s, open, close) == pieces(s, ranges@),
        decreases text.len() - cur + (if done { 0int } else { 1int }),
    {
        let at: usize = find_top_comma(text, cur, open, close);
        let ghost before = pieces(s, ranges@);
        ranges.push((cur, at));
        proof {
            let rest = s.skip(cur as int);
            lemma_top_comma_skip(s, cur as int, 0, 0, open, close);
            assert(pieces(s, ranges@) =~= before.push(s.subrange(cur as int, at as int)));
            if at < text.len() {
                assert(rest.subrange(0, at - cur) =~= s.subrange(cur as int, at as int));
                assert(rest.skip(at - cur + 1) =~= s.skip(at + 1));
                assert(before.push(s.subrange(cur as int, at as int)) + split_list(
                    s.skip(at + 1),
                    open,
                    close,
                ) =~= before + (seq![s.subrange(cur as int, at as int)] + split_list(
                    s.skip(at + 1),
                    open,
                    close,
                )));
            } else {
                assert(rest =~= s.subrange(cur as int, at as int));
                assert(before.push(rest) =~= before + seq![rest]);
            }
        }
        if at >= text.len() {
            done = true;
        } else {
            cur = at + 1;
        }
    }
    ranges
}

} // verus!
