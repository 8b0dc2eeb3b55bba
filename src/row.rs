use crate::config::{FileConfig, Theme};
use crate::lexer::chars_of;
use crate::style::{background, foreground};
use crate::token::Token;
use vstd::prelude::*;

verus! {

/// A selection from `(start_row, start_col)` to `(end_row, end_col)`, the end
/// excluded.
#[derive(Debug, Clone, Copy, PartialEq, Eq, Structural)]
pub struct Selection {
    pub start_row: usize,
    pub start_col: usize,
    pub end_row: usize,
    pub end_col: usize,
}

impl Selection {
    /// The start does not come after the end.
    pub open spec fn is_ordered(self) -> bool {
        self.start_row < self.end_row || (self.start_row == self.end_row && self.start_col
            <= self.end_col)
    }

    /// The same selection with its two ends exchanged.
    pub open spec fn reversed(self) -> Selection {
        Selection {
            start_row: self.end_row,
            start_col: self.end_col,
            end_row: self.start_row,
            end_col: self.start_col,
        }
    }

    pub fn new(start_row: usize, start_col: usize, end_row: usize, end_col: usize) -> (s: Self)
        ensures
            s == (Selection { start_row, start_col, end_row, end_col }),
    {
        Self { start_col, start_row, end_row, end_col }
    }

    /// Exchanges the two ends where the start comes after the end.
    pub fn normalize(&mut self)
        ensures
            *final(self) == if old(self).is_ordered() {
                *old(self)
            } else {
                old(self).reversed()
            },
            final(self).is_ordered(),
    {
        if self.end_row < self.start_row || (self.end_row == self.start_row && self.end_col
            < self.start_col) {
            *self = Selection {
                start_row: self.end_row,
                start_col: self.end_col,
                end_row: self.start_row,
                end_col: self.start_col,
            };
        }
    }
}

/// What is highlighted beside the syntax.
pub struct HighlightingInfo {
    pub selection: Option<Selection>,
}

/// One line of a document and, once tokenized, its spans.
pub struct Row {
    pub buf: String,
    pub tokens: Vec<Token>,
}

/// Relies on `String::push`: appends `c` to `s`.
#[verifier::external_body]
pub(crate) fn push_char(s: &mut String, c: char)
    ensures
        final(s)@ == old(s)@.push(c),
{
    s.push(c)
}

/// The number of columns that `s` takes on a terminal.
pub uninterp spec fn str_width(s: Seq<char>) -> usize;

/// Relies on `UnicodeWidthStr::width`: the width depends on the characters alone.
#[verifier::external_body]
fn width_of(s: &str) -> (w: usize)
    ensures
        w == str_width(s@),
{
    unicode_width::UnicodeWidthStr::width(s)
}

/// The number of tab characters in `s`.
pub open spec fn tab_count(s: Seq<char>) -> nat
    decreases s.len(),
{
    if s.len() == 0 {
        0
    } else {
        tab_count(s.drop_last()) + if s.last() == '\t' {
            1nat
        } else {
            0nat
        }
    }
}

fn count_tabs(s: &str) -> (n: usize)
    ensures
        n == tab_count(s@),
{
    let len = s.unicode_len();
    let mut n: usize = 0;
    let mut i: usize = 0;
    while i < len
        invariant
            len == s@.len(),
            i <= len,
            n <= i,
            n == tab_count(s@.subrange(0, i as int)),
        decreases len - i,
    {
        assert(s@.subrange(0, i + 1).drop_last() =~= s@.subrange(0, i as int));
        if s.get_char(i) == '\t' {
            n += 1;
        }
        i += 1;
    }
    assert(s@.subrange(0, len as int) =~= s@);
    n
}

/// The number of bytes of the tab string of `cfg`.
pub open spec fn tab_bytes(cfg: FileConfig) -> nat {
    (crate::utils::byte_len(cfg.tab_str@) as usize) as nat
}

/// How many columns a line takes with each tab drawn as `tab_len` columns,
/// for an ASCII line, and with the terminal width of the rest otherwise.
pub open spec fn width_spec(s: Seq<char>, ascii: bool, tab_len: nat) -> int {
    if ascii {
        s.len() + (tab_len - 1) * tab_count(s)
    } else {
        str_width(s) + tab_len * tab_count(s)
    }
}


/// `s` with each tab replaced by `tab`.
pub open spec fn expand_tabs(s: Seq<char>, tab: Seq<char>) -> Seq<char>
    decreases s.len(),
{
    if s.len() == 0 {
        seq![]
    } else {
        expand_tabs(s.drop_last(), tab) + if s.last() == '\t' {
            tab
        } else {
            seq![s.last()]
        }
    }
}

/// The text of the first `k` tokens of a row, each after `colors` and its
/// style in `styles`, and followed by a reset.
pub open spec fn styled_tokens(row: Row, colors: Seq<char>, styles: Seq<String>, k: int) -> Seq<char>
    decreases k,
{
    if k <= 0 || k > row.tokens@.len() {
        seq![]
    } else {
        let t = row.tokens@[k - 1]@;
        styled_tokens(row, colors, styles, k - 1) + colors + styles[k - 1]@ + row.buf@.subrange(
            t.start,
            t.end,
        ) + "\x1B[0m"@
    }
}

/// The tokens of `row` lie inside its line.
pub open spec fn tokens_inside(row: Row) -> bool {
    forall|k: int|
        0 <= k < row.tokens@.len() ==> #[trigger] row.tokens@[k]@.start <= row.tokens@[k]@.end
            <= row.buf@.len()
}

fn expand_tabs_exec(s: &String, tab: &String) -> (r: String)
    ensures
        r@ == expand_tabs(s@, tab@),
{
    let cs = chars_of(s.as_str());
    let mut r = String::new();
    let mut i: usize = 0;
    while i < cs.len()
        invariant
            cs@ == s@,
            i <= cs@.len(),
            r@ == expand_tabs(cs@.subrange(0, i as int), tab@),
        decreases cs@.len() - i,
    {
        assert(cs@.subrange(0, i + 1).drop_last() =~= cs@.subrange(0, i as int));
        if cs[i] == '\t' {
            r.append(tab.as_str());
        } else {
            push_char(&mut r, cs[i]);
        }
        i += 1;
    }
    assert(cs@.subrange(0, cs@.len() as int) =~= cs@);
    r
}

/// A line's width can be computed: a tab string is there where an ASCII line
/// holds tabs, and the width fits in a `usize`.
pub open spec fn width_fits(s: Seq<char>, ascii: bool, tab_len: nat) -> bool {
    &&& (ascii && tab_count(s) > 0 ==> tab_len > 0)
    &&& width_spec(s, ascii, tab_len) <= usize::MAX
}

impl Row {
    pub fn empty() -> (r: Self)
        ensures
            r.buf@ == Seq::<char>::empty(),
            r.tokens@.len() == 0,
    {
        Self { buf: String::new(), tokens: Vec::new() }
    }

    pub fn from_string(line: String) -> (r: Self)
        ensures
            r.buf == line,
            r.tokens@.len() == 0,
    {
        Self { buf: line, tokens: Vec::new() }
    }

    pub fn char_at(&self, index: usize) -> (c: char)
        requires
            index < self.buf@.len(),
        ensures
            c == self.buf@[index as int],
    {
        self.buf.as_str().get_char(index)
    }

    /// The number of characters of the line.
    pub fn len(&self) -> (n: usize)
        ensures
            n == self.buf@.len(),
    {
        self.buf.as_str().unicode_len()
    }

    /// How many columns the line takes with each tab drawn as many columns as
    /// `file_config.tab_str` has bytes.
    pub fn line_width(&self, file_config: &FileConfig) -> (w: usize)
        requires
            self.buf.is_ascii() && tab_count(self.buf@) > 0 ==> tab_bytes(*file_config) > 0,
            width_spec(
                self.buf@,
                self.buf.is_ascii(),
                tab_bytes(*file_config),
            ) <= usize::MAX,
        ensures
            w == width_spec(self.buf@, self.buf.is_ascii(), tab_bytes(*file_config)),
    {
        let tabs = count_tabs(self.buf.as_str());
        let tab_len = file_config.tab_str.as_str().len();
        assert(tab_len == tab_bytes(*file_config));
        let n = self.len();
        if self.buf.is_ascii() {
            if tabs == 0 {
                assert((tab_len - 1) * tabs == 0) by (nonlinear_arith)
                    requires
                        tabs == 0,
                ;
                n
            } else {
                assert((tab_len - 1) * tabs <= width_spec(self.buf@, true, tab_len as nat)) by (nonlinear_arith)
                    requires
                        tab_len >= 1,
                        n + (tab_len - 1) * tabs == width_spec(self.buf@, true, tab_len as nat),
                ;
                n + (tab_len - 1) * tabs
            }
        } else {
            let w = width_of(self.buf.as_str());
            assert(tab_len * tabs <= width_spec(self.buf@, false, tab_len as nat)) by (nonlinear_arith)
                requires
                    w + tab_len * tabs == width_spec(self.buf@, false, tab_len as nat),
                    w >= 0,
            ;
            assert(self.buf@.len() >= 0);
            w + tab_len * tabs
        }
    }

    /// The line as the terminal shows it, with tabs drawn as `tab_str`: the
    /// bare line where it has no tokens, else each token after `colors` and
    /// its style in `styles`, and followed by a reset.
    pub fn compose_display(&self, colors: &String, styles: &Vec<String>, tab_str: &String) -> (r: String)
        requires
            tokens_inside(*self),
            styles@.len() == self.tokens@.len(),
        ensures
            r@ == expand_tabs(
                if self.tokens@.len() == 0 {
                    self.buf@
                } else {
                    styled_tokens(*self, colors@, styles@, self.tokens@.len() as int)
                },
                tab_str@,
            ),
    {
        if self.tokens.len() == 0 {
            return expand_tabs_exec(&self.buf, tab_str);
        }
        let reset = String::from_str("\x1B[0m");
        let mut res = String::new();
        let mut k: usize = 0;
        while k < self.tokens.len()
            invariant
                k <= self.tokens@.len(),
                styles@.len() == self.tokens@.len(),
                reset@ == "\x1B[0m"@,
                tokens_inside(*self),
                res@ == styled_tokens(*self, colors@, styles@, k as int),
            decreases self.tokens@.len() - k,
        {
            let t = &self.tokens[k];
            assert(self.tokens@[k as int]@.start <= self.tokens@[k as int]@.end);
            res.append(colors.as_str());
            res.append(styles[k].as_str());
            res.append(self.buf.as_str().substring_char(t.start(), t.end()));
            res.append(reset.as_str());
            k += 1;
        }
        expand_tabs_exec(&res, tab_str)
    }

    /// The line as the terminal shows it: each token in its style on the
    /// theme's colours, or the bare line where it has no tokens, with tabs
    /// drawn as `file_config.tab_str`.
    pub fn display_buf(&mut self, file_config: &FileConfig, theme: &Theme) -> (r: String)
        requires
            tokens_inside(*old(self)),
            file_config.keys_unique(),
        ensures
            *final(self) == *old(self),
            old(self).tokens@.len() == 0 ==> r@ == expand_tabs(old(self).buf@, file_config.tab_str@),
            old(self).tokens@.len() > 0 ==> exists|colors: Seq<char>, styles: Seq<String>|
                styles.len() == old(self).tokens@.len() && r@ == expand_tabs(
                    #[trigger] styled_tokens(*old(self), colors, styles, old(self).tokens@.len() as int),
                    file_config.tab_str@,
                ),
    {
        let mut colors = foreground(theme.foreground_color);
        let b_color = background(theme.background_color);
        colors.append(b_color.as_str());
        let mut styles: Vec<String> = Vec::new();
        let mut k: usize = 0;
        while k < self.tokens.len()
            invariant
                *self == *old(self),
                file_config.keys_unique(),
                k <= self.tokens@.len(),
                styles@.len() == k,
            decreases self.tokens@.len() - k,
        {
            styles.push(self.tokens[k].get_style(file_config));
            k += 1;
        }
        let r = self.compose_display(&colors, &styles, &file_config.tab_str);
        assert(self.tokens@.len() == 0 || r@ == expand_tabs(
            styled_tokens(*self, colors@, styles@, self.tokens@.len() as int),
            file_config.tab_str@,
        ));
        r
    }

    /// The width of the line as `line_width` gives it, or `None` where it
    /// cannot be computed: an ASCII line with tabs and an empty tab string, or
    /// a width that does not fit in a `usize`.
    pub fn checked_line_width(&self, file_config: &FileConfig) -> (r: Option<usize>)
        ensures
            r == if width_fits(self.buf@, self.buf.is_ascii(), tab_bytes(*file_config)) {
                Some(width_spec(self.buf@, self.buf.is_ascii(), tab_bytes(*file_config)) as usize)
            } else {
                None::<usize>
            },
    {
        let tabs = count_tabs(self.buf.as_str());
        let tab_len = file_config.tab_str.as_str().len();
        assert(tab_len == tab_bytes(*file_config));
        let ghost t = tab_count(self.buf@);
        if self.buf.is_ascii() {
            let n = self.len();
            if tabs == 0 {
                assert((tab_len - 1) * t == 0) by (nonlinear_arith)
                    requires
                        t == 0,
                ;
                return Some(n);
            }
            if tab_len == 0 {
                return None;
            }
            assert((tab_len - 1) * tabs >= 0) by (nonlinear_arith)
                requires
                    tab_len >= 1,
            ;
            match (tab_len - 1).checked_mul(tabs) {
                Some(p) => n.checked_add(p),
                None => None,
            }
        } else {
            let w = width_of(self.buf.as_str());
            assert(tab_len * tabs >= 0) by (nonlinear_arith);
            match tab_len.checked_mul(tabs) {
                Some(p) => w.checked_add(p),
                None => None,
            }
        }
    }

    /// Inserts `chr` before the character at `idx`.
    pub fn insert_char(&mut self, idx: usize, chr: char)
        requires
            idx <= old(self).buf@.len(),
        ensures
            final(self).buf@ == old(self).buf@.insert(idx as int, chr),
            final(self).tokens == old(self).tokens,
    {
        let n = self.len();
        let mut s = String::from_str(self.buf.as_str().substring_char(0, idx));
        push_char(&mut s, chr);
        s.append(self.buf.as_str().substring_char(idx, n));
        assert(s@ =~= self.buf@.insert(idx as int, chr));
        self.buf = s;
    }

    /// Removes the character at `idx` and returns it.
    pub fn remove_at(&mut self, idx: usize) -> (c: char)
        requires
            idx < old(self).buf@.len(),
        ensures
            c == old(self).buf@[idx as int],
            final(self).buf@ == old(self).buf@.remove(idx as int),
            final(self).tokens == old(self).tokens,
    {
        let n = self.len();
        let c = self.char_at(idx);
        let mut s = String::from_str(self.buf.as_str().substring_char(0, idx));
        s.append(self.buf.as_str().substring_char(idx + 1, n));
        assert(s@ =~= self.buf@.remove(idx as int));
        self.buf = s;
        c
    }

    /// The line cut before the character at `idx`.
    pub fn split_at(&mut self, idx: usize) -> (r: (String, String))
        requires
            idx <= old(self).buf@.len(),
        ensures
            *final(self) == *old(self),
            r.0@ == old(self).buf@.subrange(0, idx as int),
            r.1@ == old(self).buf@.subrange(idx as int, old(self).buf@.len() as int),
    {
        let n = self.len();
        let left = String::from_str(self.buf.as_str().substring_char(0, idx));
        let right = String::from_str(self.buf.as_str().substring_char(idx, n));
        (left, right)
    }

    /// The characters from `start` to `end`, `end` excluded.
    pub fn substring(&self, start: usize, end: usize) -> (r: &str)
        requires
            start <= end <= self.buf@.len(),
        ensures
            r@ == self.buf@.subrange(start as int, end as int),
    {
        self.buf.as_str().substring_char(start, end)
    }
}

} // verus!
