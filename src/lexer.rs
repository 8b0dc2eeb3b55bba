use crate::config::FileConfig;
use crate::normalize::{covered, covered_at};
use crate::style::string_escape_style;
use crate::token::{span, spans_of, Span, Tag, Token};
use vstd::prelude::*;

verus! {

/// What the lexer is inside of when a line ends, carried to the next line.
#[derive(Debug, Clone, Copy, PartialEq, Eq, Structural)]
pub enum LexState {
    Normal,
    InsideString(char),
    InsideBlockComment,
}

/// Whether `char::is_alphabetic` holds of `c`.
pub uninterp spec fn alphabetic(c: char) -> bool;

/// Whether `char::is_numeric` holds of `c`.
pub uninterp spec fn numeric(c: char) -> bool;

/// Relies on `char::is_alphabetic`: whether `c` has the Unicode Alphabetic property.
#[verifier::external_body]
fn is_alphabetic(c: char) -> (r: bool)
    ensures
        r == alphabetic(c),
{
    c.is_alphabetic()
}

/// Relies on `char::is_numeric`: whether `c` is in a Unicode numeric category.
#[verifier::external_body]
fn is_numeric(c: char) -> (r: bool)
    ensures
        r == numeric(c),
{
    c.is_numeric()
}

/// Relies on `char::is_alphanumeric`, documented as `is_alphabetic() || is_numeric()`.
#[verifier::external_body]
fn is_alphanumeric(c: char) -> (r: bool)
    ensures
        r == (alphabetic(c) || numeric(c)),
{
    c.is_alphanumeric()
}

pub open spec fn is_word_start(c: char) -> bool {
    alphabetic(c) || c == '_'
}

pub open spec fn is_word_char(c: char) -> bool {
    alphabetic(c) || numeric(c) || c == '_'
}

pub open spec fn is_quote(c: char) -> bool {
    c == '"' || c == '\'' || c == '`'
}

/// The end of the run of word characters that starts at `i`.
pub open spec fn word_end(s: Seq<char>, i: int) -> int
    decreases s.len() - i,
{
    if 0 <= i < s.len() && is_word_char(s[i]) {
        word_end(s, i + 1)
    } else {
        i
    }
}

/// The end of the run of numeric characters that starts at `i`.
pub open spec fn number_end(s: Seq<char>, i: int) -> int
    decreases s.len() - i,
{
    if 0 <= i < s.len() && numeric(s[i]) {
        number_end(s, i + 1)
    } else {
        i
    }
}

/// The non-empty pattern `p` occurs in `s` at `i`.
pub open spec fn matches_at(s: Seq<char>, i: int, p: Seq<char>) -> bool {
    &&& p.len() > 0
    &&& 0 <= i
    &&& i + p.len() <= s.len()
    &&& s.subrange(i, i + p.len()) == p
}

/// The first position from `i` on where `p` occurs.
pub open spec fn find_from(s: Seq<char>, i: int, p: Seq<char>) -> Option<int>
    decreases s.len() - i,
{
    if i < 0 || i >= s.len() {
        None
    } else if matches_at(s, i, p) {
        Some(i)
    } else {
        find_from(s, i + 1, p)
    }
}

/// Inside a string from `i` on: the position of the closing delimiter `d`,
/// where a backslash escapes the character after it.
pub open spec fn string_close(s: Seq<char>, i: int, d: char) -> Option<int>
    decreases s.len() - i,
{
    if i < 0 || i >= s.len() {
        None
    } else if s[i] == '\\' {
        if i + 2 <= s.len() {
            string_close(s, i + 2, d)
        } else {
            None
        }
    } else if s[i] == d {
        Some(i)
    } else {
        string_close(s, i + 1, d)
    }
}

/// The two-character escape sequences of a string from `i` on, each tagged
/// with the style `esc`.
pub open spec fn string_escapes(s: Seq<char>, i: int, d: char, esc: Seq<char>) -> Seq<Span>
    decreases s.len() - i,
{
    if i < 0 || i >= s.len() {
        seq![]
    } else if s[i] == '\\' {
        if i + 2 <= s.len() {
            seq![span(Tag::CustomStyle(esc), i, i + 2)] + string_escapes(s, i + 2, d, esc)
        } else {
            seq![]
        }
    } else if s[i] == d {
        seq![]
    } else {
        string_escapes(s, i + 1, d, esc)
    }
}

pub open spec fn is_keyword(cfg: FileConfig, w: Seq<char>) -> bool {
    exists|k: int| 0 <= k < cfg.keywords@.len() && #[trigger] cfg.keywords@[k]@ == w
}

/// A token of another kind than plain text starts at `i`.
pub open spec fn starts_token(s: Seq<char>, cfg: FileConfig, i: int) -> bool {
    ||| is_word_start(s[i])
    ||| numeric(s[i])
    ||| matches_at(s, i, cfg.line_comment_start@)
    ||| matches_at(s, i, cfg.multi_line_comment.0@)
    ||| is_quote(s[i])
}

/// The end of the run of plain text that goes on at `i`.
pub open spec fn plain_end(s: Seq<char>, cfg: FileConfig, i: int) -> int
    decreases s.len() - i,
{
    if 0 <= i < s.len() && !starts_token(s, cfg, i) {
        plain_end(s, cfg, i + 1)
    } else {
        i
    }
}

/// The tag of the word `s[i..e]`, by what follows it and by the keywords.
pub open spec fn word_tag(s: Seq<char>, cfg: FileConfig, i: int, e: int) -> Tag {
    if e < s.len() && s[e] == '(' {
        Tag::FnCall
    } else if e < s.len() && s[e] == '!' {
        Tag::Macro
    } else if is_keyword(cfg, s.subrange(i, e)) {
        Tag::Keyword
    } else {
        Tag::Identifier
    }
}

/// What scanning `s` from `i` on, outside any string or comment, gives: the
/// spans that cover `[i, s.len())`, the escape spans inside its strings, and
/// the state at the end of the line.
pub open spec fn lex_from(s: Seq<char>, cfg: FileConfig, esc: Seq<char>, i: int) -> (
    Seq<Span>,
    Seq<Span>,
    LexState,
)
    decreases s.len() - i,
{
    if i < 0 || i >= s.len() {
        (seq![], seq![], LexState::Normal)
    } else if is_word_start(s[i]) {
        let e = word_end(s, i);
        if i < e <= s.len() {
            let r = lex_from(s, cfg, esc, e);
            (seq![span(word_tag(s, cfg, i, e), i, e)] + r.0, r.1, r.2)
        } else {
            (seq![], seq![], LexState::Normal)
        }
    } else if numeric(s[i]) {
        let e = number_end(s, i);
        if i < e <= s.len() {
            let r = lex_from(s, cfg, esc, e);
            (seq![span(Tag::Number, i, e)] + r.0, r.1, r.2)
        } else {
            (seq![], seq![], LexState::Normal)
        }
    } else if matches_at(s, i, cfg.line_comment_start@) {
        (seq![span(Tag::Comment, i, s.len() as int)], seq![], LexState::Normal)
    } else if matches_at(s, i, cfg.multi_line_comment.0@) {
        let close = cfg.multi_line_comment.1@;
        match find_from(s, i + cfg.multi_line_comment.0@.len(), close) {
            Some(p) => {
                let e = p + close.len();
                if i < e <= s.len() {
                    let r = lex_from(s, cfg, esc, e);
                    (seq![span(Tag::Comment, i, e)] + r.0, r.1, r.2)
                } else {
                    (seq![], seq![], LexState::Normal)
                }
            },
            None => (
                seq![span(Tag::Comment, i, s.len() as int)],
                seq![],
                LexState::InsideBlockComment,
            ),
        }
    } else if is_quote(s[i]) {
        let d = s[i];
        let escapes = string_escapes(s, i + 1, d, esc);
        match string_close(s, i + 1, d) {
            Some(q) => {
                if i < q < s.len() {
                    let r = lex_from(s, cfg, esc, q + 1);
                    (seq![span(Tag::Str, i, q + 1)] + r.0, escapes + r.1, r.2)
                } else {
                    (seq![], seq![], LexState::Normal)
                }
            },
            None => (
                seq![span(Tag::Str, i, s.len() as int)],
                escapes,
                LexState::InsideString(d),
            ),
        }
    } else {
        let e = plain_end(s, cfg, i + 1);
        if i < e <= s.len() {
            let r = lex_from(s, cfg, esc, e);
            (seq![span(Tag::Plain, i, e)] + r.0, r.1, r.2)
        } else {
            (seq![], seq![], LexState::Normal)
        }
    }
}

/// What scanning the line `s` entered in state `carry` gives: the spans that
/// cover the line, the escape spans inside its strings, and the state at its end.
/// An empty line gives no span and keeps the state; with highlighting
/// disabled the whole line is one plain span.
pub open spec fn lex_line(s: Seq<char>, cfg: FileConfig, esc: Seq<char>, carry: LexState) -> (
    Seq<Span>,
    Seq<Span>,
    LexState,
) {
    if s.len() == 0 {
        (seq![], seq![], carry)
    } else if cfg.syntax_highlighting_disabled {
        (seq![span(Tag::Plain, 0, s.len() as int)], seq![], carry)
    } else {
        match carry {
            LexState::Normal => lex_from(s, cfg, esc, 0),
            LexState::InsideString(d) => {
                let escapes = string_escapes(s, 0, d, esc);
                match string_close(s, 0, d) {
                    Some(q) => {
                        let r = lex_from(s, cfg, esc, q + 1);
                        (seq![span(Tag::Str, 0, q + 1)] + r.0, escapes + r.1, r.2)
                    },
                    None => (seq![span(Tag::Str, 0, s.len() as int)], escapes, carry),
                }
            },
            LexState::InsideBlockComment => {
                let close = cfg.multi_line_comment.1@;
                match find_from(s, 0, close) {
                    Some(p) => {
                        let r = lex_from(s, cfg, esc, p + close.len());
                        (seq![span(Tag::Comment, 0, p + close.len())] + r.0, r.1, r.2)
                    },
                    None => (seq![span(Tag::Comment, 0, s.len() as int)], seq![], carry),
                }
            },
        }
    }
}

/// The characters of `s`, one by one.
pub fn chars_of(s: &str) -> (v: Vec<char>)
    ensures
        v@ == s@,
{
    let n = s.unicode_len();
    let mut v: Vec<char> = Vec::new();
    let mut i: usize = 0;
    while i < n
        invariant
            n == s@.len(),
            i <= n,
            v@ == s@.subrange(0, i as int),
        decreases n - i,
    {
        v.push(s.get_char(i));
        i += 1;
        assert(v@ =~= s@.subrange(0, i as int));
    }
    assert(v@ =~= s@);
    v
}

fn word_end_at(s: &Vec<char>, i: usize) -> (e: usize)
    requires
        i <= s@.len(),
    ensures
        e == word_end(s@, i as int),
        i <= e <= s@.len(),
{
    let mut j = i;
    while j < s.len()
        invariant
            i <= j <= s@.len(),
            word_end(s@, i as int) == word_end(s@, j as int),
        decreases s@.len() - j,
    {
        let c = s[j];
        if !(is_alphanumeric(c) || c == '_') {
            return j;
        }
        j += 1;
    }
    j
}

fn number_end_at(s: &Vec<char>, i: usize) -> (e: usize)
    requires
        i <= s@.len(),
    ensures
        e == number_end(s@, i as int),
        i <= e <= s@.len(),
{
    let mut j = i;
    while j < s.len()
        invariant
            i <= j <= s@.len(),
            number_end(s@, i as int) == number_end(s@, j as int),
        decreases s@.len() - j,
    {
        if !is_numeric(s[j]) {
            return j;
        }
        j += 1;
    }
    j
}

fn matches_at_exec(s: &Vec<char>, i: usize, p: &Vec<char>) -> (r: bool)
    ensures
        r == matches_at(s@, i as int, p@),
{
    if p.len() == 0 || i > s.len() || p.len() > s.len() - i {
        return false;
    }
    let sl = s.len();
    let mut k: usize = 0;
    while k < p.len()
        invariant
            sl == s@.len(),
            i + p@.len() <= s@.len(),
            k <= p@.len(),
            forall|t: int| 0 <= t < k ==> s@[i + t] == p@[t],
        decreases p@.len() - k,
    {
        assert(i + k < s@.len());
        if s[i + k] != p[k] {
            assert(s@.subrange(i as int, i + p@.len())[k as int] != p@[k as int]);
            return false;
        }
        k += 1;
    }
    assert(s@.subrange(i as int, i + p@.len()) =~= p@);
    true
}

fn find_from_exec(s: &Vec<char>, i: usize, p: &Vec<char>) -> (r: Option<usize>)
    ensures
        crate::normalize::as_index(r) == find_from(s@, i as int, p@),
        r is Some ==> i <= r->0 && matches_at(s@, r->0 as int, p@),
{
    let mut j = i;
    while j < s.len()
        invariant
            i <= j,
            find_from(s@, i as int, p@) == find_from(s@, j as int, p@),
        decreases s@.len() - j,
    {
        if matches_at_exec(s, j, p) {
            return Some(j);
        }
        j += 1;
    }
    None
}

/// Scans a string from `i` on for its closing delimiter `d`, adding to
/// `escs` a span over each escape sequence on the way.
fn scan_string(s: &Vec<char>, i: usize, d: char, esc: &String, escs: &mut Vec<Token>) -> (r:
    Option<usize>)
    requires
        i <= s@.len(),
    ensures
        crate::normalize::as_index(r) == string_close(s@, i as int, d),
        r is Some ==> i <= r->0 < s@.len(),
        spans_of(final(escs)@) == spans_of(old(escs)@) + string_escapes(s@, i as int, d, esc@),
{
    let mut j = i;
    while j < s.len()
        invariant
            i <= j <= s@.len(),
            string_close(s@, i as int, d) == string_close(s@, j as int, d),
            spans_of(escs@) + string_escapes(s@, j as int, d, esc@) == spans_of(old(escs)@)
                + string_escapes(s@, i as int, d, esc@),
        decreases s@.len() - j,
    {
        let c = s[j];
        if c == '\\' {
            if j + 1 < s.len() {
                let t = Token::CustomStyle(j..j + 2, esc.clone());
                let ghost before = spans_of(escs@);
                escs.push(t);
                assert(spans_of(escs@) =~= before.push(t@));
                assert(before.push(t@) + string_escapes(s@, j + 2, d, esc@) =~= before + (seq![
                    t@,
                ] + string_escapes(s@, j + 2, d, esc@)));
                j += 2;
            } else {
                assert(string_escapes(s@, j as int, d, esc@) =~= seq![]);
                assert(spans_of(escs@) + seq![] =~= spans_of(escs@));
                return None;
            }
        } else if c == d {
            assert(spans_of(escs@) + seq![] =~= spans_of(escs@));
            return Some(j);
        } else {
            j += 1;
        }
    }
    assert(spans_of(escs@) + seq![] =~= spans_of(escs@));
    None
}

/// Whether the word `w` is the text `s[i..e]`.
fn word_is(s: &Vec<char>, i: usize, e: usize, w: &String) -> (r: bool)
    requires
        i <= e <= s@.len(),
    ensures
        r == (w@ == s@.subrange(i as int, e as int)),
{
    let ws = w.as_str();
    let n = ws.unicode_len();
    if n != e - i {
        return false;
    }
    let mut k: usize = 0;
    while k < n
        invariant
            ws@ == w@,
            n == w@.len(),
            n == e - i,
            e <= s@.len(),
            k <= n,
            forall|t: int| 0 <= t < k ==> s@[i + t] == w@[t],
        decreases n - k,
    {
        if ws.get_char(k) != s[i + k] {
            assert(s@.subrange(i as int, e as int)[k as int] != w@[k as int]);
            return false;
        }
        k += 1;
    }
    assert(s@.subrange(i as int, e as int) =~= w@);
    true
}

fn is_keyword_exec(cfg: &FileConfig, s: &Vec<char>, i: usize, e: usize) -> (r: bool)
    requires
        i <= e <= s@.len(),
    ensures
        r == is_keyword(*cfg, s@.subrange(i as int, e as int)),
{
    let mut k: usize = 0;
    while k < cfg.keywords.len()
        invariant
            i <= e <= s@.len(),
            k <= cfg.keywords@.len(),
            forall|t: int| 0 <= t < k ==> cfg.keywords@[t]@ != s@.subrange(i as int, e as int),
        decreases cfg.keywords@.len() - k,
    {
        if word_is(s, i, e, &cfg.keywords[k]) {
            return true;
        }
        k += 1;
    }
    false
}

/// The rules of a configuration, as characters.
struct Delims {
    prefix: Vec<char>,
    open: Vec<char>,
    close: Vec<char>,
}

impl Delims {
    spec fn of(self, cfg: FileConfig) -> bool {
        &&& self.prefix@ == cfg.line_comment_start@
        &&& self.open@ == cfg.multi_line_comment.0@
        &&& self.close@ == cfg.multi_line_comment.1@
    }
}

fn plain_end_at(s: &Vec<char>, cfg: &FileConfig, dl: &Delims, i: usize) -> (e: usize)
    requires
        i <= s@.len(),
        dl.of(*cfg),
    ensures
        e == plain_end(s@, *cfg, i as int),
        i <= e <= s@.len(),
{
    let mut j = i;
    while j < s.len()
        invariant
            i <= j <= s@.len(),
            dl.of(*cfg),
            plain_end(s@, *cfg, i as int) == plain_end(s@, *cfg, j as int),
        decreases s@.len() - j,
    {
        let c = s[j];
        let word = is_alphabetic(c) || c == '_';
        let num = is_numeric(c);
        let line_comment = matches_at_exec(s, j, &dl.prefix);
        let block_comment = matches_at_exec(s, j, &dl.open);
        let quote = c == '"' || c == '\'' || c == '`';
        assert(c == s@[j as int]);
        assert(starts_token(s@, *cfg, j as int) == (word || num || line_comment || block_comment
            || quote));
        if word || num || line_comment || block_comment || quote {
            return j;
        }
        j += 1;
    }
    j
}

/// Pushing a span and then appending the rest appends the span and the rest.
proof fn lemma_step(before: Seq<Span>, t: Span, rest: Seq<Span>)
    ensures
        before.push(t) + rest == before + (seq![t] + rest),
{
    assert(before.push(t) + rest =~= before + (seq![t] + rest));
}

/// Scans `s` from `start` on outside any string or comment, adding the spans
/// to `main` and the escape spans to `escs`; returns the state at the end.
fn scan_from(
    s: &Vec<char>,
    cfg: &FileConfig,
    dl: &Delims,
    esc: &String,
    start: usize,
    main: &mut Vec<Token>,
    escs: &mut Vec<Token>,
) -> (st: LexState)
    requires
        start <= s@.len(),
        dl.of(*cfg),
    ensures
        spans_of(final(main)@) == spans_of(old(main)@) + lex_from(s@, *cfg, esc@, start as int).0,
        spans_of(final(escs)@) == spans_of(old(escs)@) + lex_from(s@, *cfg, esc@, start as int).1,
        st == lex_from(s@, *cfg, esc@, start as int).2,
{
    let ghost m0 = spans_of(main@);
    let ghost e0 = spans_of(escs@);
    let ghost target = lex_from(s@, *cfg, esc@, start as int);
    let n = s.len();
    let mut i = start;
    let mut done = false;
    let mut st = LexState::Normal;
    while i < n
        invariant
            n == s@.len(),
            start <= i <= n,
            dl.of(*cfg),
            done ==> i == n,
            !done ==> st == LexState::Normal,
            !done ==> spans_of(main@) + lex_from(s@, *cfg, esc@, i as int).0 == m0 + target.0
                && spans_of(escs@) + lex_from(s@, *cfg, esc@, i as int).1 == e0 + target.1
                && lex_from(s@, *cfg, esc@, i as int).2 == target.2,
            done ==> spans_of(main@) == m0 + target.0 && spans_of(escs@) == e0 + target.1 && st
                == target.2,
        decreases n - i,
    {
        let ghost here = lex_from(s@, *cfg, esc@, i as int);
        let ghost mb = spans_of(main@);
        let c = s[i];
        if is_alphabetic(c) || c == '_' {
            let e = word_end_at(s, i + 1);
            assert(word_end(s@, i as int) == e);
            let t = if e < n && s[e] == '(' {
                Token::FnCall(i..e)
            } else if e < n && s[e] == '!' {
                Token::Macro(i..e)
            } else if is_keyword_exec(cfg, s, i, e) {
                Token::Keyword(i..e)
            } else {
                Token::Identifier(i..e)
            };
            assert(t@ == span(word_tag(s@, *cfg, i as int, e as int), i as int, e as int));
            main.push(t);
            proof {
                assert(spans_of(main@) =~= mb.push(t@));
                lemma_step(mb, t@, lex_from(s@, *cfg, esc@, e as int).0);
            }
            i = e;
        } else if is_numeric(c) {
            let e = number_end_at(s, i + 1);
            assert(number_end(s@, i as int) == e);
            let t = Token::Number(i..e);
            main.push(t);
            proof {
                assert(spans_of(main@) =~= mb.push(t@));
                lemma_step(mb, t@, lex_from(s@, *cfg, esc@, e as int).0);
            }
            i = e;
        } else if matches_at_exec(s, i, &dl.prefix) {
            let t = Token::Comment(i..n);
            main.push(t);
            proof {
                assert(spans_of(main@) =~= mb.push(t@));
                assert(mb.push(t@) =~= mb + here.0);
                assert(spans_of(escs@) + here.1 =~= spans_of(escs@));
            }
            i = n;
            done = true;
        } else if matches_at_exec(s, i, &dl.open) {
            let from = i + dl.open.len();
            match find_from_exec(s, from, &dl.close) {
                Some(p) => {
                    let e = p + dl.close.len();
                    let t = Token::Comment(i..e);
                    main.push(t);
                    proof {
                        assert(spans_of(main@) =~= mb.push(t@));
                        lemma_step(mb, t@, lex_from(s@, *cfg, esc@, e as int).0);
                    }
                    i = e;
                },
                None => {
                    let t = Token::Comment(i..n);
                    main.push(t);
                    proof {
                        assert(spans_of(main@) =~= mb.push(t@));
                        assert(mb.push(t@) =~= mb + here.0);
                        assert(spans_of(escs@) + here.1 =~= spans_of(escs@));
                    }
                    st = LexState::InsideBlockComment;
                    i = n;
                    done = true;
                },
            }
        } else if c == '"' || c == '\'' || c == '`' {
            let ghost eb = spans_of(escs@);
            match scan_string(s, i + 1, c, esc, escs) {
                Some(q) => {
                    let t = Token::String(i..q + 1);
                    main.push(t);
                    proof {
                        assert(spans_of(main@) =~= mb.push(t@));
                        lemma_step(mb, t@, lex_from(s@, *cfg, esc@, q + 1).0);
                        let rest = lex_from(s@, *cfg, esc@, q + 1);
                        assert(spans_of(escs@) + rest.1 =~= eb + (string_escapes(
                            s@,
                            i + 1,
                            c,
                            esc@,
                        ) + rest.1));
                    }
                    i = q + 1;
                },
                None => {
                    let t = Token::String(i..n);
                    main.push(t);
                    proof {
                        assert(spans_of(main@) =~= mb.push(t@));
                        assert(mb.push(t@) =~= mb + here.0);
                    }
                    st = LexState::InsideString(c);
                    i = n;
                    done = true;
                },
            }
        } else {
            let e = plain_end_at(s, cfg, dl, i + 1);
            let t = Token::Plain(i..e);
            main.push(t);
            proof {
                assert(spans_of(main@) =~= mb.push(t@));
                lemma_step(mb, t@, lex_from(s@, *cfg, esc@, e as int).0);
            }
            i = e;
        }
    }
    proof {
        if !done {
            assert(spans_of(main@) + seq![] =~= spans_of(main@));
            assert(spans_of(escs@) + seq![] =~= spans_of(escs@));
        }
    }
    if !done {
        st = LexState::Normal;
    }
    st
}

/// The spans and the escape spans that `lex_line` gives, in one list.
pub open spec fn line_spans(s: Seq<char>, cfg: FileConfig, esc: Seq<char>, carry: LexState) -> Seq<
    Span,
> {
    let r = lex_line(s, cfg, esc, carry);
    r.0 + r.1
}

/// The state that `lex_line` leaves at the end of the line.
pub open spec fn line_state(s: Seq<char>, cfg: FileConfig, esc: Seq<char>, carry: LexState) -> LexState {
    lex_line(s, cfg, esc, carry).2
}

/// Scans one line entered in state `carry`. Returns the spans of the line,
/// which cover each of its characters, followed by a span over each escape
/// sequence inside its strings, styled as `string_escape_style` gives, and
/// the state at the end of the line.
pub fn scan_line(line: &str, carry: LexState, config: &FileConfig) -> (r: (Vec<Token>, LexState))
    requires
        config.keys_unique(),
    ensures
        exists|esc: Seq<char>|
            spans_of(r.0@) == #[trigger] line_spans(line@, *config, esc, carry) && r.1
                == line_state(line@, *config, esc, carry),
{
    let s = chars_of(line);
    let esc = string_escape_style(config);
    let r = scan_chars(&s, carry, config, &esc);
    assert(spans_of(r.0@) == line_spans(line@, *config, esc@, carry));
    r
}

/// Scans the characters `s` of a line entered in state `carry`, with `esc`
/// the style of escape sequences.
pub fn scan_chars(s: &Vec<char>, carry: LexState, config: &FileConfig, esc: &String) -> (r: (
    Vec<Token>,
    LexState,
))
    ensures
        spans_of(r.0@) == lex_line(s@, *config, esc@, carry).0 + lex_line(
            s@,
            *config,
            esc@,
            carry,
        ).1,
        r.1 == lex_line(s@, *config, esc@, carry).2,
{
    let ghost target = lex_line(s@, *config, esc@, carry);
    let mut main: Vec<Token> = Vec::new();
    let mut escs: Vec<Token> = Vec::new();
    let n = s.len();
    if n == 0 {
        assert(spans_of(main@) =~= target.0 + target.1);
        return (main, carry);
    }
    if config.syntax_highlighting_disabled {
        main.push(Token::Plain(0..n));
        assert(spans_of(main@) =~= target.0 + target.1);
        return (main, carry);
    }
    let dl = Delims {
        prefix: chars_of(config.line_comment_start.as_str()),
        open: chars_of(config.multi_line_comment.0.as_str()),
        close: chars_of(config.multi_line_comment.1.as_str()),
    };
    let st = match carry {
        LexState::Normal => scan_from(s, config, &dl, esc, 0, &mut main, &mut escs),
        LexState::InsideString(d) => match scan_string(s, 0, d, esc, &mut escs) {
            Some(q) => {
                main.push(Token::String(0..q + 1));
                scan_from(s, config, &dl, esc, q + 1, &mut main, &mut escs)
            },
            None => {
                main.push(Token::String(0..n));
                carry
            },
        },
        LexState::InsideBlockComment => match find_from_exec(s, 0, &dl.close) {
            Some(p) => {
                let e = p + dl.close.len();
                main.push(Token::Comment(0..e));
                scan_from(s, config, &dl, esc, e, &mut main, &mut escs)
            },
            None => {
                main.push(Token::Comment(0..n));
                carry
            },
        },
    };
    let ghost m = spans_of(main@);
    let ghost e = spans_of(escs@);
    assert(m =~= target.0);
    assert(e =~= target.1);
    main.append(&mut escs);
    assert(spans_of(main@) =~= m + e);
    (main, st)
}

proof fn lemma_word_end(s: Seq<char>, j: int)
    requires
        0 <= j <= s.len(),
    ensures
        j <= word_end(s, j) <= s.len(),
    decreases s.len() - j,
{
    if j < s.len() {
        lemma_word_end(s, j + 1);
    }
}

proof fn lemma_number_end(s: Seq<char>, j: int)
    requires
        0 <= j <= s.len(),
    ensures
        j <= number_end(s, j) <= s.len(),
    decreases s.len() - j,
{
    if j < s.len() {
        lemma_number_end(s, j + 1);
    }
}

proof fn lemma_plain_end(s: Seq<char>, cfg: FileConfig, j: int)
    requires
        0 <= j <= s.len(),
    ensures
        j <= plain_end(s, cfg, j) <= s.len(),
    decreases s.len() - j,
{
    if j < s.len() {
        lemma_plain_end(s, cfg, j + 1);
    }
}

pub(crate) proof fn lemma_find_from(s: Seq<char>, j: int, p: Seq<char>)
    ensures
        find_from(s, j, p) is Some ==> j <= find_from(s, j, p)->0 && matches_at(
            s,
            find_from(s, j, p)->0,
            p,
        ),
    decreases s.len() - j,
{
    if 0 <= j < s.len() && !matches_at(s, j, p) {
        lemma_find_from(s, j + 1, p);
    }
}

pub(crate) proof fn lemma_string_close(s: Seq<char>, j: int, d: char)
    ensures
        string_close(s, j, d) is Some ==> j <= string_close(s, j, d)->0 < s.len(),
    decreases s.len() - j,
{
    if 0 <= j < s.len() {
        if s[j] == '\\' {
            if j + 2 <= s.len() {
                lemma_string_close(s, j + 2, d);
            }
        } else if s[j] != d {
            lemma_string_close(s, j + 1, d);
        }
    }
}

/// The first span `t` covers `[i, e)`, and the rest covers the positions from `e` on.
proof fn lemma_cons_covers(t: Span, rest: Seq<Span>, i: int, e: int, n: int)
    requires
        t.start == i,
        t.end == e,
        forall|x: int| e <= x < n ==> #[trigger] covered_at(rest, x),
    ensures
        forall|x: int| i <= x < n ==> #[trigger] covered_at(seq![t] + rest, x),
{
    let all = seq![t] + rest;
    assert forall|x: int| i <= x < n implies #[trigger] covered_at(all, x) by {
        if x < e {
            assert(all[0].covers(x));
        } else {
            assert(covered_at(rest, x));
            let k = choose|k: int| 0 <= k < rest.len() && #[trigger] rest[k].covers(x);
            assert(all[k + 1] == rest[k]);
            assert(all[k + 1].covers(x));
        }
    }
}

/// The spans that scanning from `i` gives cover every position from `i` on.
proof fn lemma_lex_from_covers(s: Seq<char>, cfg: FileConfig, esc: Seq<char>, i: int)
    requires
        0 <= i,
    ensures
        forall|x: int| i <= x < s.len() ==> #[trigger] covered_at(lex_from(s, cfg, esc, i).0, x),
    decreases s.len() - i,
{
    let n = s.len() as int;
    if i < n {
        let r = lex_from(s, cfg, esc, i);
        if is_word_start(s[i]) {
            lemma_word_end(s, i + 1);
            let e = word_end(s, i);
            lemma_lex_from_covers(s, cfg, esc, e);
            lemma_cons_covers(r.0[0], lex_from(s, cfg, esc, e).0, i, e, n);
            assert(r.0 == seq![r.0[0]] + lex_from(s, cfg, esc, e).0);
        } else if numeric(s[i]) {
            lemma_number_end(s, i + 1);
            let e = number_end(s, i);
            lemma_lex_from_covers(s, cfg, esc, e);
            lemma_cons_covers(r.0[0], lex_from(s, cfg, esc, e).0, i, e, n);
            assert(r.0 == seq![r.0[0]] + lex_from(s, cfg, esc, e).0);
        } else if matches_at(s, i, cfg.line_comment_start@) {
            assert forall|x: int| i <= x < n implies #[trigger] covered_at(r.0, x) by {
                assert(r.0[0].covers(x));
            }
        } else if matches_at(s, i, cfg.multi_line_comment.0@) {
            let close = cfg.multi_line_comment.1@;
            let from = i + cfg.multi_line_comment.0@.len();
            lemma_find_from(s, from, close);
            match find_from(s, from, close) {
                Some(p) => {
                    let e = p + close.len();
                    lemma_lex_from_covers(s, cfg, esc, e);
                    lemma_cons_covers(r.0[0], lex_from(s, cfg, esc, e).0, i, e, n);
                    assert(r.0 == seq![r.0[0]] + lex_from(s, cfg, esc, e).0);
                },
                None => {
                    assert forall|x: int| i <= x < n implies #[trigger] covered_at(r.0, x) by {
                        assert(r.0[0].covers(x));
                    }
                },
            }
        } else if is_quote(s[i]) {
            lemma_string_close(s, i + 1, s[i]);
            match string_close(s, i + 1, s[i]) {
                Some(q) => {
                    lemma_lex_from_covers(s, cfg, esc, q + 1);
                    lemma_cons_covers(r.0[0], lex_from(s, cfg, esc, q + 1).0, i, q + 1, n);
                    assert(r.0 == seq![r.0[0]] + lex_from(s, cfg, esc, q + 1).0);
                },
                None => {
                    assert forall|x: int| i <= x < n implies #[trigger] covered_at(r.0, x) by {
                        assert(r.0[0].covers(x));
                    }
                },
            }
        } else {
            lemma_plain_end(s, cfg, i + 1);
            let e = plain_end(s, cfg, i + 1);
            lemma_lex_from_covers(s, cfg, esc, e);
            lemma_cons_covers(r.0[0], lex_from(s, cfg, esc, e).0, i, e, n);
            assert(r.0 == seq![r.0[0]] + lex_from(s, cfg, esc, e).0);
        }
    }
}

/// Where scanning reaches the line-comment prefix at `j`, with no word or
/// number starting there, the rest of the line is one comment span, with no
/// span and no escape after it, and the next line starts outside any string or
/// comment, whatever follows the prefix.
pub proof fn lemma_line_comment_ends_line(s: Seq<char>, cfg: FileConfig, esc: Seq<char>, j: int)
    requires
        0 <= j < s.len(),
        matches_at(s, j, cfg.line_comment_start@),
        !is_word_start(s[j]),
        !numeric(s[j]),
    ensures
        lex_from(s, cfg, esc, j) == (
            seq![span(Tag::Comment, j, s.len() as int)],
            Seq::<Span>::empty(),
            LexState::Normal,
        ),
{
}

/// The prefix `a` of a list covers what it covers in the whole list.
proof fn lemma_prefix_covers(a: Seq<Span>, b: Seq<Span>, n: int)
    requires
        forall|x: int| 0 <= x < n ==> #[trigger] covered_at(a, x),
    ensures
        covered(a + b, n),
{
    assert forall|x: int| 0 <= x < n implies #[trigger] covered_at(a + b, x) by {
        assert(covered_at(a, x));
        let k = choose|k: int| 0 <= k < a.len() && #[trigger] a[k].covers(x);
        assert((a + b)[k] == a[k]);
    }
}

/// Every character of a line lies in one of the spans that scanning it gives,
/// whatever the state it was entered in.
pub proof fn lemma_scan_covers_line(s: Seq<char>, cfg: FileConfig, esc: Seq<char>, carry: LexState)
    ensures
        covered(line_spans(s, cfg, esc, carry), s.len() as int),
{
    let r = lex_line(s, cfg, esc, carry);
    let n = s.len() as int;
    if n > 0 {
        if cfg.syntax_highlighting_disabled {
            assert forall|x: int| 0 <= x < n implies #[trigger] covered_at(r.0, x) by {
                assert(r.0[0].covers(x));
            }
        } else {
            match carry {
                LexState::Normal => {
                    lemma_lex_from_covers(s, cfg, esc, 0);
                },
                LexState::InsideString(d) => {
                    lemma_string_close(s, 0, d);
                    match string_close(s, 0, d) {
                        Some(q) => {
                            lemma_lex_from_covers(s, cfg, esc, q + 1);
                            lemma_cons_covers(r.0[0], lex_from(s, cfg, esc, q + 1).0, 0, q + 1, n);
                            assert(r.0 == seq![r.0[0]] + lex_from(s, cfg, esc, q + 1).0);
                        },
                        None => {
                            assert forall|x: int| 0 <= x < n implies #[trigger] covered_at(
                                r.0,
                                x,
                            ) by {
                                assert(r.0[0].covers(x));
                            }
                        },
                    }
                },
                LexState::InsideBlockComment => {
                    let close = cfg.multi_line_comment.1@;
                    lemma_find_from(s, 0, close);
                    match find_from(s, 0, close) {
                        Some(p) => {
                            let e = p + close.len();
                            lemma_lex_from_covers(s, cfg, esc, e);
                            lemma_cons_covers(r.0[0], lex_from(s, cfg, esc, e).0, 0, e, n);
                            assert(r.0 == seq![r.0[0]] + lex_from(s, cfg, esc, e).0);
                        },
                        None => {
                            assert forall|x: int| 0 <= x < n implies #[trigger] covered_at(
                                r.0,
                                x,
                            ) by {
                                assert(r.0[0].covers(x));
                            }
                        },
                    }
                },
            }
        }
        lemma_prefix_covers(r.0, r.1, n);
    }
}

/// Where scanning outside any string or comment goes on after the token that
/// starts at `i`; `None` where the line ends in that token.
pub open spec fn next_stop(s: Seq<char>, cfg: FileConfig, i: int) -> Option<int> {
    if i < 0 || i >= s.len() {
        None
    } else if is_word_start(s[i]) {
        Some(word_end(s, i))
    } else if numeric(s[i]) {
        Some(number_end(s, i))
    } else if matches_at(s, i, cfg.line_comment_start@) {
        None
    } else if matches_at(s, i, cfg.multi_line_comment.0@) {
        match find_from(s, i + cfg.multi_line_comment.0@.len(), cfg.multi_line_comment.1@) {
            Some(p) => Some(p + cfg.multi_line_comment.1@.len()),
            None => None,
        }
    } else if is_quote(s[i]) {
        match string_close(s, i + 1, s[i]) {
            Some(q) => Some(q + 1),
            None => None,
        }
    } else {
        Some(plain_end(s, cfg, i + 1))
    }
}

/// Scanning outside any string or comment from `i` comes to a token that
/// starts at `j`.
pub open spec fn reaches(s: Seq<char>, cfg: FileConfig, i: int, j: int) -> bool
    decreases s.len() - i,
{
    if i == j {
        true
    } else {
        match next_stop(s, cfg, i) {
            Some(e) => if i < e <= s.len() {
                reaches(s, cfg, e, j)
            } else {
                false
            },
            None => false,
        }
    }
}

/// Where scanning a line entered in state `carry` starts outside any string or
/// comment; `None` where the carried string or comment does not close on it.
pub open spec fn scan_start(s: Seq<char>, cfg: FileConfig, carry: LexState) -> Option<int> {
    match carry {
        LexState::Normal => Some(0),
        LexState::InsideString(d) => match string_close(s, 0, d) {
            Some(q) => Some(q + 1),
            None => None,
        },
        LexState::InsideBlockComment => match find_from(s, 0, cfg.multi_line_comment.1@) {
            Some(p) => Some(p + cfg.multi_line_comment.1@.len()),
            None => None,
        },
    }
}

pub(crate) proof fn lemma_escapes_before_close(s: Seq<char>, i: int, d: char, esc: Seq<char>)
    requires
        string_close(s, i, d) is Some,
    ensures
        forall|k: int|
            0 <= k < string_escapes(s, i, d, esc).len() ==> #[trigger] string_escapes(s, i, d, esc)[k].end
                <= string_close(s, i, d)->0,
    decreases s.len() - i,
{
    if 0 <= i < s.len() {
        if s[i] == '\\' {
            if i + 2 <= s.len() {
                lemma_escapes_before_close(s, i + 2, d, esc);
                lemma_string_close(s, i + 2, d);
                let rest = string_escapes(s, i + 2, d, esc);
                let all = string_escapes(s, i, d, esc);
                assert forall|k: int| 0 <= k < all.len() implies #[trigger] all[k].end
                    <= string_close(s, i, d)->0 by {
                    if k > 0 {
                        assert(all[k] == rest[k - 1]);
                    }
                }
            }
        } else if s[i] != d {
            lemma_escapes_before_close(s, i + 1, d, esc);
        }
    }
}

/// Where scanning from `i` comes to the line-comment prefix at `j`, with no
/// word or number starting there, the spans end in one comment from `j` to the
/// end of the line, every other span and every escape span ends by `j`, and
/// the next line starts outside any string or comment.
pub proof fn lemma_reached_comment_ends_line(s: Seq<char>, cfg: FileConfig, esc: Seq<char>, i: int, j: int)
    requires
        0 <= i,
        reaches(s, cfg, i, j),
        0 <= j < s.len(),
        matches_at(s, j, cfg.line_comment_start@),
        !is_word_start(s[j]),
        !numeric(s[j]),
    ensures
        i <= j,
        lex_from(s, cfg, esc, i).0.len() > 0,
        lex_from(s, cfg, esc, i).0.last() == span(Tag::Comment, j, s.len() as int),
        lex_from(s, cfg, esc, i).2 == LexState::Normal,
        forall|k: int|
            0 <= k < lex_from(s, cfg, esc, i).0.len() - 1 ==> #[trigger] lex_from(s, cfg, esc, i).0[k].end <= j,
        forall|k: int|
            0 <= k < lex_from(s, cfg, esc, i).1.len() ==> #[trigger] lex_from(s, cfg, esc, i).1[k].end <= j,
    decreases s.len() - i,
{
    if i == j {
        lemma_line_comment_ends_line(s, cfg, esc, j);
    } else {
        assert(next_stop(s, cfg, i) is Some);
        let e = next_stop(s, cfg, i)->0;
        assert(i < e <= s.len());
        assert(!matches_at(s, i, cfg.line_comment_start@) || is_word_start(s[i]) || numeric(s[i]));
        lemma_reached_comment_ends_line(s, cfg, esc, e, j);
        let r = lex_from(s, cfg, esc, e);
        let all = lex_from(s, cfg, esc, i);
        if is_word_start(s[i]) {
            lemma_word_end(s, i + 1);
        } else if numeric(s[i]) {
            lemma_number_end(s, i + 1);
        } else if matches_at(s, i, cfg.multi_line_comment.0@) {
            lemma_find_from(s, i + cfg.multi_line_comment.0@.len(), cfg.multi_line_comment.1@);
        } else if is_quote(s[i]) {
            lemma_string_close(s, i + 1, s[i]);
            lemma_escapes_before_close(s, i + 1, s[i], esc);
        } else {
            lemma_plain_end(s, cfg, i + 1);
        }
        assert(all.0 == seq![all.0[0]] + r.0);
        assert(all.0[0].end == e);
        assert forall|k: int| 0 <= k < all.0.len() - 1 implies #[trigger] all.0[k].end <= j by {
            if k > 0 {
                assert(all.0[k] == r.0[k - 1]);
            }
        }
        assert(all.0.last() == r.0.last());
        if !is_word_start(s[i]) && !numeric(s[i]) && !matches_at(s, i, cfg.multi_line_comment.0@)
            && is_quote(s[i]) {
            let x = string_escapes(s, i + 1, s[i], esc);
            assert(all.1 =~= x + r.1);
            assert forall|k: int| 0 <= k < all.1.len() implies #[trigger] all.1[k].end <= j by {
                if k < x.len() {
                    assert(all.1[k] == x[k]);
                } else {
                    assert(all.1[k] == r.1[k - x.len()]);
                }
            }
        } else {
            assert(all.1 == r.1);
        }
    }
}

} // verus!
