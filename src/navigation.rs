use crate::token::{spans_of, Span, Token};
use vstd::prelude::*;

verus! {

/// Where a jump one word to the left of `col` lands, looking at the spans
/// from `k` on with `last_end` the end of the one before: the end of the span
/// before the first one that reaches `col`, or `col` where none does.
pub open spec fn left_from(ss: Seq<Span>, col: int, k: int, last_end: int) -> int
    decreases ss.len() - k,
{
    if k < 0 || k >= ss.len() {
        col
    } else if ss[k].end > col - 1 {
        last_end
    } else {
        left_from(ss, col, k + 1, ss[k].end)
    }
}

/// Where a jump one word to the right of `col` lands, looking at the spans
/// from `k` on: the start of the first span that starts past `col + 1`, or
/// the end of the line, `len`, where none does.
pub open spec fn right_from(ss: Seq<Span>, col: int, len: int, k: int) -> int
    decreases ss.len() - k,
{
    if k < 0 || k >= ss.len() {
        len
    } else if ss[k].start > col + 1 {
        ss[k].start
    } else {
        right_from(ss, col, len, k + 1)
    }
}

/// The column that a jump one word to the left of `col` lands on, over the
/// spans `tokens` of the line. Without spans, or at the start of the line,
/// the column stays.
pub fn word_left(tokens: &Vec<Token>, col: usize) -> (c: usize)
    ensures
        c == if tokens@.len() == 0 || col == 0 {
            col as int
        } else {
            left_from(spans_of(tokens@), col as int, 0, 0)
        },
{
    if tokens.len() == 0 || col == 0 {
        return col;
    }
    let ghost ss = spans_of(tokens@);
    let mut last_end: usize = 0;
    let mut k: usize = 0;
    while k < tokens.len()
        invariant
            ss == spans_of(tokens@),
            col > 0,
            k <= tokens@.len(),
            left_from(ss, col as int, 0, 0) == left_from(ss, col as int, k as int, last_end as int),
        decreases tokens@.len() - k,
    {
        let e = tokens[k].end();
        assert(ss[k as int] == tokens@[k as int]@);
        if e > col - 1 {
            return last_end;
        }
        last_end = e;
        k += 1;
    }
    col
}

/// The column that a jump one word to the right of `col` lands on, over the
/// spans `tokens` of a line of `len` characters.
pub fn word_right(tokens: &Vec<Token>, col: usize, len: usize) -> (c: usize)
    ensures
        c == right_from(spans_of(tokens@), col as int, len as int, 0),
{
    let ghost ss = spans_of(tokens@);
    let mut k: usize = 0;
    while k < tokens.len()
        invariant
            ss == spans_of(tokens@),
            k <= tokens@.len(),
            right_from(ss, col as int, len as int, 0) == right_from(ss, col as int, len as int, k as int),
        decreases tokens@.len() - k,
    {
        let s = tokens[k].start();
        assert(ss[k as int] == tokens@[k as int]@);
        if s > col && s - col > 1 {
            return s;
        }
        k += 1;
    }
    len
}

} // verus!
