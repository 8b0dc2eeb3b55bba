use crate::token::{span, spans_of, Span, Tag, Token};
use vstd::prelude::*;

verus! {

/// The index of the span that wins position `i` among the first `k` spans:
/// the last of those covering `i` whose priority is the highest.
pub open spec fn winner_among(ss: Seq<Span>, k: int, i: int) -> Option<int>
    decreases k,
{
    if k <= 0 {
        None
    } else {
        let w = winner_among(ss, k - 1, i);
        if ss[k - 1].covers(i) && (w is None || ss[w->0].tag.priority() <= ss[k
            - 1].tag.priority()) {
            Some(k - 1)
        } else {
            w
        }
    }
}

/// The index of the span that wins position `i`.
pub open spec fn winner(ss: Seq<Span>, i: int) -> Option<int> {
    winner_among(ss, ss.len() as int, i)
}

/// Every position of `[0, n)` lies in some span.
pub open spec fn covered(ss: Seq<Span>, n: int) -> bool {
    forall|i: int| 0 <= i < n ==> #[trigger] covered_at(ss, i)
}

/// Some span covers position `i`.
pub open spec fn covered_at(ss: Seq<Span>, i: int) -> bool {
    exists|k: int| 0 <= k < ss.len() && #[trigger] ss[k].covers(i)
}

/// `out` is a list of non-empty, contiguous spans from 0 to `n`, in order.
pub open spec fn partitions(out: Seq<Span>, n: int) -> bool {
    &&& out.len() > 0
    &&& out[0].start == 0
    &&& out.last().end == n
    &&& forall|j: int| 0 <= j < out.len() ==> #[trigger] out[j].start < out[j].end
    &&& forall|j: int| 0 <= j < out.len() - 1 ==> #[trigger] out[j].end == out[j + 1].start
}

/// `s` is a run of positions that one span of `ss` wins, with that span's tag.
pub open spec fn is_run(ss: Seq<Span>, s: Span) -> bool {
    &&& s.start < s.end
    &&& winner(ss, s.start) is Some
    &&& s.tag == ss[winner(ss, s.start)->0].tag
    &&& forall|i: int| s.start <= i < s.end ==> #[trigger] winner(ss, i) == winner(ss, s.start)
}

/// `out` is what normalizing the spans `ss` over a line of length `n` gives:
/// the maximal runs of positions that one span wins, each with its tag.
pub open spec fn normalized(ss: Seq<Span>, n: int, out: Seq<Span>) -> bool {
    if n <= 0 || ss.len() == 0 {
        out.len() == 0
    } else {
        &&& partitions(out, n)
        &&& forall|j: int| 0 <= j < out.len() ==> is_run(ss, #[trigger] out[j])
        &&& forall|j: int|
            0 <= j < out.len() - 1 ==> winner(ss, #[trigger] out[j].start) != winner(
                ss,
                out[j + 1].start,
            )
    }
}

pub open spec fn as_index(o: Option<usize>) -> Option<int> {
    match o {
        Some(w) => Some(w as int),
        None => None,
    }
}

proof fn lemma_winner_bounds(ss: Seq<Span>, k: int, i: int)
    requires
        0 <= k <= ss.len(),
    ensures
        winner_among(ss, k, i) is Some ==> {
            let w = winner_among(ss, k, i)->0;
            0 <= w < k && ss[w].covers(i)
        },
    decreases k,
{
    if k > 0 {
        lemma_winner_bounds(ss, k - 1, i);
    }
}

proof fn lemma_winner_exists(ss: Seq<Span>, k: int, c: int, i: int)
    requires
        0 <= c < k <= ss.len(),
        ss[c].covers(i),
    ensures
        winner_among(ss, k, i) is Some,
    decreases k,
{
    if c < k - 1 {
        lemma_winner_exists(ss, k - 1, c, i);
    }
}

/// The winner of a position has the highest priority of the spans covering
/// it, and no later span covering it has that priority.
proof fn lemma_winner_highest(ss: Seq<Span>, k: int, c: int, i: int)
    requires
        0 <= c < k <= ss.len(),
        ss[c].covers(i),
    ensures
        winner_among(ss, k, i) is Some,
        ss[c].tag.priority() <= ss[winner_among(ss, k, i)->0].tag.priority(),
        c > winner_among(ss, k, i)->0 ==> ss[c].tag.priority() < ss[winner_among(
            ss,
            k,
            i,
        )->0].tag.priority(),
    decreases k,
{
    lemma_winner_exists(ss, k, c, i);
    if c < k - 1 {
        lemma_winner_highest(ss, k - 1, c, i);
        lemma_winner_bounds(ss, k - 1, i);
    } else {
        lemma_winner_bounds(ss, k - 1, i);
    }
}

proof fn lemma_partition_ordered(out: Seq<Span>, n: int, a: int, b: int)
    requires
        partitions(out, n),
        0 <= a < b < out.len(),
    ensures
        out[a].end <= out[b].start,
    decreases b - a,
{
    if a < b - 1 {
        lemma_partition_ordered(out, n, a, b - 1);
        assert(out[b - 1].start < out[b - 1].end);
    }
    assert(out[b - 1].end == out[b].start);
}

/// Each span of a partition of `[0, n)` lies inside it.
pub proof fn lemma_partition_bounds(out: Seq<Span>, n: int, j: int)
    requires
        partitions(out, n),
        0 <= j < out.len(),
    ensures
        0 <= out[j].start < out[j].end <= n,
{
    let last = out.len() - 1;
    assert(out[j].start < out[j].end);
    if j < last {
        lemma_partition_ordered(out, n, j, last);
        assert(out[last].start < out[last].end);
    }
    if j > 0 {
        lemma_partition_ordered(out, n, 0, j);
        assert(out[0].start < out[0].end);
    }
}

proof fn lemma_partition_reaches(out: Seq<Span>, n: int, m: int, i: int)
    requires
        partitions(out, n),
        0 <= m < out.len(),
        0 <= i < out[m].end,
    ensures
        exists|j: int| 0 <= j <= m && #[trigger] out[j].covers(i),
    decreases m,
{
    if i >= out[m].start {
        assert(out[m].covers(i));
    } else {
        assert(m > 0);
        assert(out[m - 1].end == out[m].start);
        lemma_partition_reaches(out, n, m - 1, i);
        let j = choose|j: int| 0 <= j <= m - 1 && #[trigger] out[j].covers(i);
        assert(out[j].covers(i));
    }
}

/// A partition of a line covers every position of it exactly once: the
/// normalized spans of a line of `n > 0` characters union to `[0, n)`, with
/// no gap and no overlap.
pub proof fn lemma_partition_covers_once(out: Seq<Span>, n: int, i: int)
    requires
        partitions(out, n),
        0 <= i < n,
    ensures
        exists|j: int| 0 <= j < out.len() && #[trigger] out[j].covers(i),
        forall|j1: int, j2: int|
            0 <= j1 < out.len() && 0 <= j2 < out.len() && #[trigger] out[j1].covers(i)
                && #[trigger] out[j2].covers(i) ==> j1 == j2,
{
    lemma_partition_reaches(out, n, out.len() - 1, i);
    let j = choose|j: int| 0 <= j <= out.len() - 1 && #[trigger] out[j].covers(i);
    assert(0 <= j < out.len() && out[j].covers(i));
    assert forall|j1: int, j2: int|
        0 <= j1 < out.len() && 0 <= j2 < out.len() && #[trigger] out[j1].covers(i)
            && #[trigger] out[j2].covers(i) implies j1 == j2 by {
        if j1 < j2 {
            lemma_partition_ordered(out, n, j1, j2);
        } else if j2 < j1 {
            lemma_partition_ordered(out, n, j2, j1);
        }
    }
}

/// Where a span `a` overlaps a span `b` of lower priority, the normalized
/// span over any position of the overlap has at least `a`'s priority, so it
/// never carries `b`'s tag; and where no other span covering that position
/// reaches `a`'s priority, it carries `a`'s tag.
pub proof fn lemma_priority_dominance(
    ss: Seq<Span>,
    n: int,
    out: Seq<Span>,
    a: int,
    b: int,
    i: int,
    j: int,
)
    requires
        normalized(ss, n, out),
        0 <= a < ss.len(),
        0 <= b < ss.len(),
        0 <= i < n,
        ss[a].covers(i),
        ss[b].covers(i),
        ss[a].tag.priority() > ss[b].tag.priority(),
        0 <= j < out.len(),
        out[j].covers(i),
    ensures
        out[j].tag.priority() >= ss[a].tag.priority(),
        out[j].tag != ss[b].tag,
        (forall|c: int|
            0 <= c < ss.len() && c != a && #[trigger] ss[c].covers(i) ==> ss[c].tag.priority()
                < ss[a].tag.priority()) ==> out[j].tag == ss[a].tag,
{
    let w = winner(ss, i)->0;
    assert(winner(ss, i) == winner(ss, out[j].start));
    lemma_winner_highest(ss, ss.len() as int, a, i);
    lemma_winner_bounds(ss, ss.len() as int, i);
    assert(out[j].tag == ss[w].tag);
}

/// A selection span, inserted last, wins every position that it covers: each
/// normalized span inside its range is tagged as the selection.
pub proof fn lemma_selection_wins(ss: Seq<Span>, n: int, out: Seq<Span>, j: int)
    requires
        normalized(ss, n, out),
        ss.len() > 0,
        ss.last().tag == Tag::Selection,
        0 <= j < out.len(),
        ss.last().start <= out[j].start,
        out[j].end <= ss.last().end,
    ensures
        out[j].tag == Tag::Selection,
{
    assert(out[j].start < out[j].end);
    assert(ss[ss.len() - 1].covers(out[j].start));
    assert(winner(ss, out[j].start) == Some(ss.len() - 1));
}

/// A selection span, inserted last, wins each position of the line that it
/// covers: the normalized span over that position is tagged as the selection.
pub proof fn lemma_selection_wins_positions(ss: Seq<Span>, n: int, out: Seq<Span>, i: int, j: int)
    requires
        normalized(ss, n, out),
        ss.len() > 0,
        ss.last().tag == Tag::Selection,
        ss.last().covers(i),
        0 <= j < out.len(),
        out[j].covers(i),
    ensures
        out[j].tag == Tag::Selection,
{
    assert(ss[ss.len() - 1].covers(i));
    assert(winner(ss, i) == Some(ss.len() - 1));
    assert(winner(ss, i) == winner(ss, out[j].start));
}

/// Where one span `c` covers `[j, n)` and every other span ends by `j`, the
/// normalized spans end in `c`'s span over `[j, n)`, and every other one ends
/// by `j`.
pub proof fn lemma_sole_tail_span(ss: Seq<Span>, n: int, out: Seq<Span>, c: int, j: int)
    requires
        normalized(ss, n, out),
        0 <= j < n,
        0 <= c < ss.len(),
        ss[c].start == j,
        ss[c].end == n,
        forall|k: int| 0 <= k < ss.len() && k != c ==> #[trigger] ss[k].end <= j,
    ensures
        out.len() > 0,
        out.last() == span(ss[c].tag, j, n),
        forall|k: int| 0 <= k < out.len() - 1 ==> #[trigger] out[k].end <= j,
{
    assert forall|x: int| j <= x < n implies #[trigger] winner(ss, x) == Some(c) by {
        lemma_winner_exists(ss, ss.len() as int, c, x);
        lemma_winner_bounds(ss, ss.len() as int, x);
        let w = winner(ss, x)->0;
        if w != c {
            assert(ss[w].end <= j);
        }
    }
    lemma_partition_covers_once(out, n, j);
    let m = choose|m: int| 0 <= m < out.len() && #[trigger] out[m].covers(j);
    lemma_partition_bounds(out, n, m);
    assert(is_run(ss, out[m]));
    if out[m].start < j {
        assert(winner(ss, j - 1) == winner(ss, out[m].start));
        assert(winner(ss, j) == winner(ss, out[m].start));
        lemma_winner_bounds(ss, ss.len() as int, j - 1);
        assert(!ss[c].covers(j - 1));
    }
    if m < out.len() - 1 {
        assert(out[m].end == out[m + 1].start);
        lemma_partition_bounds(out, n, m + 1);
        assert(winner(ss, out[m + 1].start) == Some(c));
        assert(winner(ss, out[m].start) == Some(c));
    }
    assert(m == out.len() - 1);
    assert forall|k: int| 0 <= k < out.len() - 1 implies #[trigger] out[k].end <= j by {
        lemma_partition_ordered(out, n, k, m);
    }
}

/// Cuts `[0, len)` into the maximal runs of positions with one winner, given
/// the winner of each position.
#[verifier::rlimit(40)]
fn runs_of(tokens: &Vec<Token>, win: &Vec<Option<usize>>, len: usize) -> (res: Vec<Token>)
    requires
        len > 0,
        tokens@.len() > 0,
        win@.len() == len,
        forall|y: int| 0 <= y < len ==> #[trigger] as_index(win@[y]) == winner(spans_of(tokens@), y),
        forall|y: int|
            0 <= y < len ==> #[trigger] winner(spans_of(tokens@), y) is Some && winner(
                spans_of(tokens@),
                y,
            )->0 < tokens@.len(),
    ensures
        normalized(spans_of(tokens@), len as int, spans_of(res@)),
        forall|j: int|
            0 <= j < res@.len() ==> #[trigger] res@[j] == tokens@[winner(
                spans_of(tokens@),
                res@[j]@.start,
            )->0].with_range_spec(res@[j].range_of()),
{
    let ghost ss = spans_of(tokens@);
    let mut res: Vec<Token> = Vec::new();
    let mut start: usize = 0;
    assert(as_index(win@[0]) == winner(ss, 0));
    let mut cur: usize = match win[0] {
        Some(w) => w,
        None => 0,
    };
    let mut i: usize = 1;
    while i < len
        invariant
            ss == spans_of(tokens@),
            ss.len() == tokens@.len(),
            win@.len() == len,
            forall|y: int| 0 <= y < len ==> #[trigger] as_index(win@[y]) == winner(ss, y),
            forall|y: int| 0 <= y < len ==> #[trigger] winner(ss, y) is Some && winner(ss, y)->0 < ss.len(),
            start < i <= len,
            winner(ss, start as int) == Some(cur as int),
            forall|y: int| start <= y < i ==> #[trigger] winner(ss, y) == Some(cur as int),
            res@.len() == 0 ==> start == 0,
            res@.len() > 0 ==> spans_of(res@)[0].start == 0 && spans_of(res@).last().end == start
                && winner(ss, spans_of(res@).last().start) != Some(cur as int),
            forall|j: int| 0 <= j < res@.len() ==> is_run(ss, #[trigger] spans_of(res@)[j]),
            forall|j: int|
                0 <= j < res@.len() - 1 ==> #[trigger] spans_of(res@)[j].end == spans_of(
                    res@,
                )[j + 1].start && winner(ss, spans_of(res@)[j].start) != winner(
                    ss,
                    spans_of(res@)[j + 1].start,
                ),
            forall|j: int|
                0 <= j < res@.len() ==> #[trigger] res@[j] == tokens@[winner(
                    ss,
                    res@[j]@.start,
                )->0].with_range_spec(res@[j].range_of()),
        decreases len - i,
    {
        assert(as_index(win@[i as int]) == winner(ss, i as int));
        let w = match win[i] {
            Some(w) => w,
            None => 0,
        };
        if w != cur {
            let t = tokens[cur].with_range(start, i);
            let ghost before = res@;
            res.push(t);
            proof {
                assert(ss[cur as int] == tokens@[cur as int]@);
                assert(spans_of(res@) =~= spans_of(before).push(t@));
                assert(res@[res@.len() - 1] == t);
                assert(is_run(ss, t@));
            }
            start = i;
            cur = w;
        }
        i += 1;
    }
    let t = tokens[cur].with_range(start, len);
    let ghost before = res@;
    res.push(t);
    proof {
        assert(ss[cur as int] == tokens@[cur as int]@);
        assert(spans_of(res@) =~= spans_of(before).push(t@));
        assert(res@[res@.len() - 1] == t);
    }
    res
}


impl Token {
    /// Normalizes `tokens`, the spans of a line of `len` characters, into the
    /// partition of the line that the renderer walks: each position goes to the
    /// last of the spans of highest priority that cover it, and each maximal run
    /// of positions won by one span becomes one token of that span's category.
    /// An empty list or an empty line gives an empty list.
    pub fn normalize(tokens: &mut Vec<Token>, len: usize)
        requires
            old(tokens)@.len() > 0 ==> covered(spans_of(old(tokens)@), len as int),
        ensures
            normalized(spans_of(old(tokens)@), len as int, spans_of(final(tokens)@)),
            forall|j: int|
                0 <= j < final(tokens)@.len() ==> #[trigger] final(tokens)@[j] == old(
                    tokens,
                )@[winner(spans_of(old(tokens)@), final(tokens)@[j]@.start)->0].with_range_spec(
                    final(tokens)@[j].range_of(),
                ),
    {
        let ghost ss = spans_of(tokens@);
        if tokens.len() == 0 || len == 0 {
            tokens.clear();
            return;
        }
        let mut win: Vec<Option<usize>> = Vec::new();
        let mut x: usize = 0;
        while x < len
            invariant
                x <= len,
                win@.len() == x,
                forall|y: int| 0 <= y < x ==> win@[y] is None,
            decreases len - x,
        {
            win.push(None);
            x += 1;
        }
        let mut k: usize = 0;
        while k < tokens.len()
            invariant
                ss == spans_of(tokens@),
                k <= tokens@.len(),
                win@.len() == len,
                forall|y: int| 0 <= y < len ==> #[trigger] as_index(win@[y]) == winner_among(ss, k as int, y),
            decreases tokens@.len() - k,
        {
            let p = tokens[k].priority();
            let s = tokens[k].start();
            let e = if tokens[k].end() < len {
                tokens[k].end()
            } else {
                len
            };
            assert(ss[k as int] == tokens@[k as int]@);
            let mut x: usize = s;
            while x < e
                invariant
                    ss == spans_of(tokens@),
                    k < tokens@.len(),
                    win@.len() == len,
                    s <= x,
                    x <= e || x == s,
                    e <= len,
                    s == ss[k as int].start,
                    e <= ss[k as int].end,
                    p == ss[k as int].tag.priority(),
                    forall|y: int|
                        0 <= y < len ==> #[trigger] as_index(win@[y]) == if s <= y < x {
                            winner_among(ss, k + 1, y)
                        } else {
                            winner_among(ss, k as int, y)
                        },
                decreases e - x,
            {
                assert(as_index(win@[x as int]) == winner_among(ss, k as int, x as int));
                proof {
                    lemma_winner_bounds(ss, k as int, x as int);
                }
                let take = match win[x] {
                    None => true,
                    Some(w) => {
                        assert(ss[w as int] == tokens@[w as int]@);
                        tokens[w].priority() <= p
                    },
                };
                if take {
                    win.set(x, Some(k));
                }
                x += 1;
            }
            k += 1;
        }
        assert(k == ss.len());
        proof {
            assert forall|y: int| 0 <= y < len implies #[trigger] winner(ss, y) is Some && winner(
                ss,
                y,
            )->0 < ss.len() by {
                assert(covered_at(ss, y));
                let c = choose|c: int| 0 <= c < ss.len() && #[trigger] ss[c].covers(y);
                lemma_winner_exists(ss, ss.len() as int, c, y);
                lemma_winner_bounds(ss, ss.len() as int, y);
            }
        }
        let res = runs_of(tokens, &win, len);
        *tokens = res;
    }
}

} // verus!
