use crate::config::FileConfig;
use crate::lexer::{
    chars_of, is_word_start, lemma_escapes_before_close, lemma_find_from, lemma_reached_comment_ends_line,
    lemma_scan_covers_line, lemma_string_close, lex_from, lex_line, line_spans, line_state, matches_at,
    numeric, reaches, scan_chars, scan_start, string_close, string_escapes, LexState,
};
use crate::style::string_escape_style;
use crate::normalize::{
    covered, covered_at, lemma_partition_covers_once, lemma_sole_tail_span, normalized, partitions,
    winner,
};
use crate::row::{HighlightingInfo, Row, Selection};
use crate::token::{span, spans_of, Span, Tag, Token};
use vstd::prelude::*;

verus! {

/// The selection with its start before its end.
pub open spec fn ordered(sel: Selection) -> Selection {
    if sel.is_ordered() {
        sel
    } else {
        sel.reversed()
    }
}

/// The span that the ordered selection `sel` lays over row `r`, of length `n`.
pub open spec fn selection_span(sel: Selection, r: int, n: int) -> Option<Span> {
    if sel.start_row <= r <= sel.end_row {
        if sel.start_row != sel.end_row {
            if r == sel.start_row {
                Some(span(Tag::Selection, sel.start_col as int, n))
            } else if r == sel.end_row {
                Some(span(Tag::Selection, 0, sel.end_col as int))
            } else {
                Some(span(Tag::Selection, 0, n))
            }
        } else {
            Some(span(Tag::Selection, sel.start_col as int, sel.end_col as int))
        }
    } else {
        None
    }
}

/// The lines of `rows`.
pub open spec fn lines_of(rows: Seq<Row>) -> Seq<Seq<char>> {
    rows.map_values(|row: Row| row.buf@)
}

/// The state in which line `r` is entered when scanning starts at line `from`.
pub open spec fn state_before(
    lines: Seq<Seq<char>>,
    cfg: FileConfig,
    esc: Seq<char>,
    from: int,
    r: int,
) -> LexState
    decreases r - from,
{
    if r <= from {
        LexState::Normal
    } else {
        line_state(lines[r - 1], cfg, esc, state_before(lines, cfg, esc, from, r - 1))
    }
}

/// The spans of line `r` before normalization: those of the lexer, with
/// `esc` the style of escape sequences, then the selection's, if it reaches
/// the line.
pub open spec fn row_spans(
    lines: Seq<Seq<char>>,
    cfg: FileConfig,
    esc: Seq<char>,
    sel: Option<Selection>,
    from: int,
    r: int,
) -> Seq<Span> {
    let ss = line_spans(lines[r], cfg, esc, state_before(lines, cfg, esc, from, r));
    match sel {
        Some(s) => match selection_span(ordered(s), r, lines[r].len() as int) {
            Some(x) => ss.push(x),
            None => ss,
        },
        None => ss,
    }
}

/// Each row of `before` from `from` on, `n` rows at most, has in `after` the
/// normalized spans of its line, with `esc` the style of escape sequences.
pub open spec fn tokenized(
    before: Seq<Row>,
    after: Seq<Row>,
    cfg: FileConfig,
    esc: Seq<char>,
    sel: Option<Selection>,
    from: int,
    n: int,
) -> bool {
    forall|r: int|
        0 <= r < before.len() && from <= r < from + n ==> normalized(
            row_spans(lines_of(before), cfg, esc, sel, from, r),
            before[r].buf@.len() as int,
            spans_of(#[trigger] after[r].tokens@),
        )
}

fn selection_token(sel: &Selection, r: usize, n: usize) -> (t: Option<Token>)
    ensures
        match selection_span(*sel, r as int, n as int) {
            Some(x) => t is Some && t->0@ == x,
            None => t is None,
        },
{
    if sel.start_row <= r && r <= sel.end_row {
        if sel.start_row != sel.end_row {
            if r == sel.start_row {
                Some(Token::Selection(sel.start_col..n))
            } else if r == sel.end_row {
                Some(Token::Selection(0..sel.end_col))
            } else {
                Some(Token::Selection(0..n))
            }
        } else {
            Some(Token::Selection(sel.start_col..sel.end_col))
        }
    } else {
        None
    }
}

proof fn lemma_push_covers(ss: Seq<Span>, x: Span, n: int)
    requires
        covered(ss, n),
    ensures
        covered(ss.push(x), n),
{
    assert forall|i: int| 0 <= i < n implies #[trigger] covered_at(ss.push(x), i) by {
        assert(covered_at(ss, i));
        let k = choose|k: int| 0 <= k < ss.len() && #[trigger] ss[k].covers(i);
        assert(ss.push(x)[k] == ss[k]);
    }
}

/// Whatever the configuration and the selection, the normalized spans of a
/// line of `n > 0` characters partition it: they cover each position of
/// `[0, n)` exactly once.
pub proof fn lemma_row_tokens_partition_line(
    lines: Seq<Seq<char>>,
    cfg: FileConfig,
    esc: Seq<char>,
    sel: Option<Selection>,
    from: int,
    r: int,
    out: Seq<Span>,
    i: int,
)
    requires
        0 <= r < lines.len(),
        normalized(row_spans(lines, cfg, esc, sel, from, r), lines[r].len() as int, out),
        0 <= i < lines[r].len(),
    ensures
        partitions(out, lines[r].len() as int),
        exists|j: int| 0 <= j < out.len() && #[trigger] out[j].covers(i),
        forall|j1: int, j2: int|
            0 <= j1 < out.len() && 0 <= j2 < out.len() && #[trigger] out[j1].covers(i)
                && #[trigger] out[j2].covers(i) ==> j1 == j2,
{
    let n = lines[r].len() as int;
    let ss = line_spans(lines[r], cfg, esc, state_before(lines, cfg, esc, from, r));
    lemma_scan_covers_line(lines[r], cfg, esc, state_before(lines, cfg, esc, from, r));
    assert(covered_at(ss, 0));
    assert(ss.len() > 0);
    assert(row_spans(lines, cfg, esc, sel, from, r).len() > 0);
    lemma_partition_covers_once(out, n, i);
}

/// A line comment ends its row: where scanning row `r`, with no selection,
/// comes to the line-comment prefix at `j`, with no word or number starting
/// there, the row's normalized spans end in one comment from `j` to the end of
/// the line, every other one ends by `j`, and the next row is entered outside
/// any string or comment, whatever follows the prefix.
pub proof fn lemma_line_comment_ends_row(
    lines: Seq<Seq<char>>,
    cfg: FileConfig,
    esc: Seq<char>,
    from: int,
    r: int,
    out: Seq<Span>,
    start: int,
    j: int,
)
    requires
        from <= r < lines.len(),
        !cfg.syntax_highlighting_disabled,
        scan_start(lines[r], cfg, state_before(lines, cfg, esc, from, r)) == Some(start),
        reaches(lines[r], cfg, start, j),
        0 <= j < lines[r].len(),
        matches_at(lines[r], j, cfg.line_comment_start@),
        !is_word_start(lines[r][j]),
        !numeric(lines[r][j]),
        normalized(row_spans(lines, cfg, esc, None, from, r), lines[r].len() as int, out),
    ensures
        out.len() > 0,
        out.last() == span(Tag::Comment, j, lines[r].len() as int),
        forall|k: int| 0 <= k < out.len() - 1 ==> #[trigger] out[k].end <= j,
        state_before(lines, cfg, esc, from, r + 1) == LexState::Normal,
{
    let s = lines[r];
    let n = s.len() as int;
    let carry = state_before(lines, cfg, esc, from, r);
    let l = lex_line(s, cfg, esc, carry);
    let rest = lex_from(s, cfg, esc, start);
    match carry {
        LexState::Normal => {
            lemma_reached_comment_ends_line(s, cfg, esc, 0, j);
        },
        LexState::InsideString(d) => {
            lemma_string_close(s, 0, d);
            lemma_escapes_before_close(s, 0, d, esc);
            lemma_reached_comment_ends_line(s, cfg, esc, start, j);
            let x = string_escapes(s, 0, d, esc);
            assert(l.0 == seq![span(Tag::Str, 0, start)] + rest.0);
            assert(l.1 == x + rest.1);
            assert forall|k: int| 0 <= k < l.1.len() implies #[trigger] l.1[k].end <= j by {
                if k < x.len() {
                    assert(l.1[k] == x[k]);
                } else {
                    assert(l.1[k] == rest.1[k - x.len()]);
                }
            }
            assert forall|k: int| 0 <= k < l.0.len() - 1 implies #[trigger] l.0[k].end <= j by {
                if k > 0 {
                    assert(l.0[k] == rest.0[k - 1]);
                }
            }
            assert(l.0.last() == rest.0.last());
        },
        LexState::InsideBlockComment => {
            lemma_find_from(s, 0, cfg.multi_line_comment.1@);
            lemma_reached_comment_ends_line(s, cfg, esc, start, j);
            assert(l.0 == seq![span(Tag::Comment, 0, start)] + rest.0);
            assert(l.1 == rest.1);
            assert forall|k: int| 0 <= k < l.0.len() - 1 implies #[trigger] l.0[k].end <= j by {
                if k > 0 {
                    assert(l.0[k] == rest.0[k - 1]);
                }
            }
            assert(l.0.last() == rest.0.last());
        },
    }
    let ss = row_spans(lines, cfg, esc, None, from, r);
    assert(ss == l.0 + l.1);
    let c = l.0.len() - 1;
    assert(ss[c] == l.0.last());
    assert forall|k: int| 0 <= k < ss.len() && k != c implies #[trigger] ss[k].end <= j by {
        if k < c {
            assert(ss[k] == l.0[k]);
        } else {
            assert(ss[k] == l.1[k - l.0.len()]);
        }
    }
    lemma_sole_tail_span(ss, n, out, c, j);
    assert(state_before(lines, cfg, esc, from, r + 1) == line_state(s, cfg, esc, carry));
}

/// With syntax highlighting disabled and no selection, each non-empty row is
/// tokenized into exactly one plain span over the whole line, whatever it holds.
pub proof fn lemma_disabled_gives_one_plain_span(
    lines: Seq<Seq<char>>,
    cfg: FileConfig,
    esc: Seq<char>,
    from: int,
    r: int,
    out: Seq<Span>,
)
    requires
        cfg.syntax_highlighting_disabled,
        0 <= r < lines.len(),
        lines[r].len() > 0,
        normalized(row_spans(lines, cfg, esc, None, from, r), lines[r].len() as int, out),
    ensures
        out == seq![span(Tag::Plain, 0, lines[r].len() as int)],
{
    let n = lines[r].len() as int;
    let ss = row_spans(lines, cfg, esc, None, from, r);
    assert(ss == seq![span(Tag::Plain, 0, n)]);
    assert forall|i: int| 0 <= i < n implies #[trigger] winner(ss, i) == Some(0int) by {
        reveal_with_fuel(crate::normalize::winner_among, 2);
        assert(ss[0].covers(i));
    }
    if out.len() > 1 {
        crate::normalize::lemma_partition_bounds(out, n, 0);
        crate::normalize::lemma_partition_bounds(out, n, 1);
        assert(winner(ss, out[0].start) == Some(0int));
        assert(winner(ss, out[1].start) == Some(0int));
    }
    assert(out.len() == 1);
    assert(out[0] == span(Tag::Plain, 0, n));
    assert(out =~= seq![span(Tag::Plain, 0, n)]);
}

impl Token {
    /// Tokenizes the rows `from .. from + num_lines` that exist, scanning them
    /// in order from a fresh state, with `escape_style` the style of escape
    /// sequences: each row gets the normalized spans of its line, with the
    /// selection of `info` laid over them. The lines and the other rows are
    /// left as they are.
    #[verifier::rlimit(30)]
    pub fn tokenize_styled(
        rows: &mut Vec<Row>,
        info: HighlightingInfo,
        from: usize,
        num_lines: usize,
        config: &FileConfig,
        escape_style: &String,
    )
        ensures
            final(rows)@.len() == old(rows)@.len(),
            lines_of(final(rows)@) == lines_of(old(rows)@),
            forall|r: int|
                0 <= r < old(rows)@.len() && !(from <= r < from + num_lines) ==> #[trigger] final(rows)@[r].tokens
                    == old(rows)@[r].tokens,
            forall|r: int|
                0 <= r < old(rows)@.len() && from <= r < from + num_lines ==> normalized(
                    row_spans(lines_of(old(rows)@), *config, escape_style@, info.selection, from as int, r),
                    old(rows)@[r].buf@.len() as int,
                    spans_of(#[trigger] final(rows)@[r].tokens@),
                ),
    {
        let ghost lines = lines_of(rows@);
        let ghost old_rows = rows@;
        let selection = match info.selection {
            Some(s) => {
                let mut s = s;
                s.normalize();
                Some(s)
            },
            None => None,
        };
        let mut carry = LexState::Normal;
        let mut k: usize = 0;
        let mut row_index = from;
        while row_index < rows.len() && k < num_lines
            invariant
                row_index == from + k,
                k <= num_lines,
                rows@.len() == old_rows.len(),
                lines_of(rows@) == lines,
                lines == lines_of(old_rows),
                carry == state_before(lines, *config, escape_style@, from as int, row_index as int),
                match info.selection {
                    Some(s) => selection == Some(ordered(s)),
                    None => selection is None,
                },
                forall|r: int|
                    0 <= r < old_rows.len() && !(from <= r < row_index) ==> #[trigger] rows@[r].tokens
                        == old_rows[r].tokens,
                forall|r: int|
                    0 <= r < old_rows.len() && from <= r < row_index ==> normalized(
                        row_spans(lines, *config, escape_style@, info.selection, from as int, r),
                        old_rows[r].buf@.len() as int,
                        spans_of(#[trigger] rows@[r].tokens@),
                    ),
            decreases num_lines - k,
        {
            let ghost r = row_index as int;
            assert(lines[r] == rows@[r].buf@);
            let line = chars_of(rows[row_index].buf.as_str());
            let (mut toks, next) = scan_chars(&line, carry, config, escape_style);
            let n = line.len();
            proof {
                lemma_scan_covers_line(lines[r], *config, escape_style@, carry);
            }
            match selection {
                Some(sel) => match selection_token(&sel, row_index, n) {
                    Some(t) => {
                        let ghost before = spans_of(toks@);
                        toks.push(t);
                        proof {
                            assert(spans_of(toks@) =~= before.push(t@));
                            lemma_push_covers(before, t@, n as int);
                        }
                    },
                    None => {},
                },
                None => {},
            }
            assert(spans_of(toks@) == row_spans(lines, *config, escape_style@, info.selection, from as int, r));
            Token::normalize(&mut toks, n);
            rows[row_index].tokens = toks;
            assert(lines_of(rows@) =~= lines);
            carry = next;
            row_index += 1;
            k += 1;
        }
    }

    /// Tokenizes the rows `from .. from + num_lines` that exist, as
    /// `tokenize_styled` does with the style that `string_escape_style` gives.
    pub fn tokenize(
        rows: &mut Vec<Row>,
        info: HighlightingInfo,
        from: usize,
        num_lines: usize,
        config: &FileConfig,
    )
        requires
            config.keys_unique(),
        ensures
            final(rows)@.len() == old(rows)@.len(),
            lines_of(final(rows)@) == lines_of(old(rows)@),
            forall|r: int|
                0 <= r < old(rows)@.len() && !(from <= r < from + num_lines) ==> #[trigger] final(rows)@[r].tokens
                    == old(rows)@[r].tokens,
            exists|esc: Seq<char>|
                #[trigger] tokenized(
                    old(rows)@,
                    final(rows)@,
                    *config,
                    esc,
                    info.selection,
                    from as int,
                    num_lines as int,
                ),
    {
        let escape_style = string_escape_style(config);
        let ghost sel = info.selection;
        Token::tokenize_styled(rows, info, from, num_lines, config, &escape_style);
        assert(tokenized(old(rows)@, rows@, *config, escape_style@, sel, from as int, num_lines as int));
    }
}

} // verus!
