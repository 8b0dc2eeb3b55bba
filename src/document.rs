use crate::config::FileConfig;
use crate::highlight::{lines_of, tokenized};
use crate::history::{applied, EditDiff, UndoRedo};
use crate::row::{tab_bytes, width_fits, width_spec, HighlightingInfo, Row, Selection};
use crate::token::{spans_of, Token};
use vstd::prelude::*;

verus! {

/// An open text document.
pub struct Document {
    pub filename: String,
    pub cursor_row: usize,
    pub cursor_col: usize,
    pub line_start: usize,
    pub rows: Vec<Row>,
    pub selection: Option<Selection>,
    pub dirty: usize,
    pub show_close: bool,
    pub history: Vec<EditDiff>,
    pub history_index: Option<usize>,
    pub to_auto_close: bool,
}

impl Document {
    /// `self` and `o` differ at most in their history and its index.
    pub open spec fn same_but_history(self, o: Document) -> bool {
        &&& self.filename == o.filename
        &&& self.cursor_row == o.cursor_row
        &&& self.cursor_col == o.cursor_col
        &&& self.line_start == o.line_start
        &&& self.rows == o.rows
        &&& self.selection == o.selection
        &&& self.dirty == o.dirty
        &&& self.show_close == o.show_close
        &&& self.to_auto_close == o.to_auto_close
    }

    /// `self` and `o` differ at most in their rows, cursor and history index.
    pub open spec fn same_but_replay(self, o: Document) -> bool {
        &&& self.filename == o.filename
        &&& self.line_start == o.line_start
        &&& self.selection == o.selection
        &&& self.dirty == o.dirty
        &&& self.show_close == o.show_close
        &&& self.history == o.history
        &&& self.to_auto_close == o.to_auto_close
    }

    /// After replaying the edit `i` of the history in direction `which`:
    /// `Done` with the lines that it gives and the cursor where it leaves it,
    /// or `Failed` where it does not apply.
    pub open spec fn replayed(self, o: Document, i: int, which: UndoRedo, r: Replay) -> bool {
        match applied(o.history@[i], which, crate::highlight::lines_of(o.rows@)) {
            Some(a) => r == Replay::Done && crate::highlight::lines_of(self.rows@) == a.0 && (
            self.cursor_col as int, self.cursor_row as int) == a.1,
            None => r == Replay::Failed,
        }
    }

    /// `self` and `o` differ at most in their rows.
    pub open spec fn same_but_rows(self, o: Document) -> bool {
        &&& self.filename == o.filename
        &&& self.cursor_row == o.cursor_row
        &&& self.cursor_col == o.cursor_col
        &&& self.line_start == o.line_start
        &&& self.selection == o.selection
        &&& self.dirty == o.dirty
        &&& self.show_close == o.show_close
        &&& self.history == o.history
        &&& self.history_index == o.history_index
        &&& self.to_auto_close == o.to_auto_close
    }
}


/// What replaying an edit of the history did.
#[derive(Debug, Clone, Copy, PartialEq, Eq, Structural)]
pub enum Replay {
    /// There was no edit to replay; nothing changed.
    Nothing,
    /// The edit was replayed.
    Done,
    /// The edit reaches a row or a column that is not there.
    Failed,
}

/// The history that remains when an edit is added after the one at `index`:
/// the edits up to it, or none where there is no current edit.
pub open spec fn kept_history(h: Seq<EditDiff>, index: Option<usize>) -> Seq<EditDiff> {
    match index {
        Some(i) => if i + 1 < h.len() {
            h.subrange(0, i + 1)
        } else {
            h
        },
        None => seq![],
    }
}

/// How many screen rows the lines `rows[0..k]` take on a screen `width`
/// columns wide, each line taking at least one.
pub open spec fn screen_rows(rows: Seq<Row>, tab_len: nat, width: int, k: int) -> int
    decreases k,
{
    if k <= 0 || k > rows.len() {
        0
    } else {
        screen_rows(rows, tab_len, width, k - 1) + width_spec(
            rows[k - 1].buf@,
            rows[k - 1].buf.is_ascii(),
            tab_len,
        ) / width + 1
    }
}

/// Each of the lines `rows[0..k]` has a width that can be computed.
pub open spec fn widths_fit(rows: Seq<Row>, tab_len: nat, k: int) -> bool {
    forall|i: int| 0 <= i < k ==> width_fits(#[trigger] rows[i].buf@, rows[i].buf.is_ascii(), tab_len)
}

/// `r` is a run of consecutive characters of `p`.
pub open spec fn is_piece_of(r: Seq<char>, p: Seq<char>) -> bool {
    exists|i: int| 0 <= i && i + r.len() <= p.len() && #[trigger] p.subrange(i, i + r.len()) == r
}

/// Relies on `Path::file_name`, turned into a `String` (empty where there is
/// none, or where it is not valid Unicode). The name is a slice of the path,
/// on every platform; where it ends differs between platforms, so no more is
/// stated.
#[verifier::external_body]
fn file_name_of(path: &String) -> (r: String)
    ensures
        is_piece_of(r@, path@),
{
    std::path::Path::new(path).file_name().unwrap_or_default().to_str().unwrap_or_default().to_owned()
}

/// Relies on `Path::extension`, turned into a `String` (empty where there is
/// none, or where it is not valid Unicode). The extension is a slice of the
/// path, on every platform.
#[verifier::external_body]
fn extension_of(path: &String) -> (r: String)
    ensures
        is_piece_of(r@, path@),
{
    std::path::Path::new(path).extension().unwrap_or_default().to_str().unwrap_or_default().to_owned()
}

impl Document {
    /// An empty, clean document named `filename`, with no history.
    pub fn new(filename: String) -> (d: Self)
        ensures
            d.filename == filename,
            d.rows@.len() == 0,
            d.history@.len() == 0,
            d.history_index is None,
            d.selection is None,
            d.cursor_row == 0 && d.cursor_col == 0 && d.line_start == 0,
            d.dirty == 0,
            !d.show_close && !d.to_auto_close,
    {
        Self {
            filename,
            cursor_row: 0,
            cursor_col: 0,
            line_start: 0,
            rows: Vec::new(),
            selection: None,
            dirty: 0,
            show_close: false,
            history: Vec::new(),
            history_index: None,
            to_auto_close: false,
        }
    }

    /// Records `diff` as the current edit: the edits after the current one are
    /// dropped, and `diff` follows the rest.
    pub fn add_diff(&mut self, diff: EditDiff)
        ensures
            final(self).history@ == kept_history(old(self).history@, old(self).history_index).push(diff),
            final(self).history_index == Some((final(self).history@.len() - 1) as usize),
            final(self).same_but_history(*old(self)),
    {
        match self.history_index {
            Some(history_index) => {
                if self.history.len() > 0 && history_index < self.history.len() - 1 {
                    self.history.truncate(history_index + 2);
                    self.history.set(history_index + 1, diff);
                    self.history_index = Some(history_index + 1);
                    assert(self.history@ =~= kept_history(old(self).history@, old(self).history_index).push(diff));
                } else {
                    self.history.push(diff);
                    self.history_index = Some(self.history.len() - 1);
                }
            },
            None => {
                self.history.clear();
                self.history.push(diff);
                self.history_index = Some(self.history.len() - 1);
                assert(self.history@ =~= seq![diff]);
            },
        }
    }

    /// Undoes the current edit, and makes the one before it current; the
    /// cursor goes where the edit leaves it.
    pub fn undo(&mut self) -> (r: Replay)
        ensures
            final(self).same_but_replay(*old(self)),
            match old(self).history_index {
                Some(i) if i < old(self).history@.len() => {
                    &&& final(self).replayed(*old(self), i as int, UndoRedo::Undo, r)
                    &&& r == Replay::Done ==> final(self).history_index == if i == 0 {
                        None
                    } else {
                        Some((i - 1) as usize)
                    }
                },
                _ => r == Replay::Nothing && *final(self) == *old(self),
            },
    {
        match self.history_index {
            Some(i) => {
                if i < self.history.len() {
                    match self.history[i].try_apply(UndoRedo::Undo, &mut self.rows) {
                        Some((x, y)) => {
                            self.history_index = if i == 0 {
                                None
                            } else {
                                Some(i - 1)
                            };
                            self.cursor_col = x;
                            self.cursor_row = y;
                            Replay::Done
                        },
                        None => Replay::Failed,
                    }
                } else {
                    Replay::Nothing
                }
            },
            None => Replay::Nothing,
        }
    }

    /// Redoes the edit after the current one, or the first where none is
    /// current, and makes it current; the cursor goes where it leaves it.
    pub fn redo(&mut self) -> (r: Replay)
        ensures
            final(self).same_but_replay(*old(self)),
            ({
                let next = match old(self).history_index {
                    Some(i) => i + 1,
                    None => 0,
                };
                if next < old(self).history@.len() {
                    &&& final(self).replayed(*old(self), next, UndoRedo::Redo, r)
                    &&& r == Replay::Done ==> final(self).history_index == Some(next as usize)
                } else {
                    r == Replay::Nothing && *final(self) == *old(self)
                }
            }),
    {
        let next = match self.history_index {
            Some(i) => {
                if i >= self.history.len() || i == self.history.len() - 1 {
                    return Replay::Nothing;
                }
                i + 1
            },
            None => {
                if self.history.len() == 0 {
                    return Replay::Nothing;
                }
                0
            },
        };
        match self.history[next].try_apply(UndoRedo::Redo, &mut self.rows) {
            Some((x, y)) => {
                self.history_index = Some(next);
                self.cursor_col = x;
                self.cursor_row = y;
                Replay::Done
            },
            None => Replay::Failed,
        }
    }

    /// The last component of the file name, or an empty string.
    pub fn display_name(&self) -> (r: String)
        ensures
            is_piece_of(r@, self.filename@),
    {
        file_name_of(&self.filename)
    }

    /// The extension of the file name, or an empty string.
    pub fn extension(&self) -> (r: String)
        ensures
            is_piece_of(r@, self.filename@),
    {
        extension_of(&self.filename)
    }

    /// How many screen rows the lines before `row_index` take on a screen
    /// `width` columns wide.
    pub fn visual_rows_to(&self, width: usize, row_index: usize, file_config: &FileConfig) -> (n: usize)
        requires
            width > 0,
            forall|i: int|
                0 <= i < self.rows@.len() && #[trigger] self.rows@[i].buf.is_ascii() && crate::row::tab_count(self.rows@[i].buf@) > 0
                    ==> tab_bytes(*file_config) > 0,
            forall|i: int|
                0 <= i < self.rows@.len() ==> width_spec(
                    #[trigger] self.rows@[i].buf@,
                    self.rows@[i].buf.is_ascii(),
                    tab_bytes(*file_config),
                ) <= usize::MAX,
            screen_rows(
                self.rows@,
                tab_bytes(*file_config),
                width as int,
                if row_index < self.rows@.len() { row_index as int } else { self.rows@.len() as int },
            ) <= usize::MAX,
        ensures
            n == screen_rows(
                self.rows@,
                tab_bytes(*file_config),
                width as int,
                if row_index < self.rows@.len() { row_index as int } else { self.rows@.len() as int },
            ),
    {
        let ghost tl = tab_bytes(*file_config);
        let ghost last = if row_index < self.rows@.len() { row_index as int } else { self.rows@.len() as int };
        let mut rows: usize = 0;
        let mut i: usize = 0;
        while i < self.rows.len() && i != row_index
            invariant
                i <= self.rows@.len(),
                i <= last,
                tl == tab_bytes(*file_config),
                last == if row_index < self.rows@.len() {
                    row_index as int
                } else {
                    self.rows@.len() as int
                },
                width > 0,
                rows == screen_rows(self.rows@, tl, width as int, i as int),
                screen_rows(self.rows@, tl, width as int, last) <= usize::MAX,
                forall|j: int|
                    0 <= j < self.rows@.len() && #[trigger] self.rows@[j].buf.is_ascii() && crate::row::tab_count(self.rows@[j].buf@) > 0
                        ==> tab_bytes(*file_config) > 0,
                forall|j: int|
                    0 <= j < self.rows@.len() ==> width_spec(
                        #[trigger] self.rows@[j].buf@,
                        self.rows@[j].buf.is_ascii(),
                        tab_bytes(*file_config),
                    ) <= usize::MAX,
            decreases self.rows@.len() - i,
        {
            assert(self.rows@[i as int] == self.rows[i as int]);
            let w = self.rows[i].line_width(file_config);
            proof {
                lemma_screen_rows_grow(self.rows@, tl, width as int, i + 1, last);
            }
            rows = rows + w / width + 1;
            i += 1;
        }
        rows
    }

    /// The screen rows that `visual_rows_to` gives, or `None` where they
    /// cannot be computed: a zero width, a line before `row_index` whose width
    /// cannot be computed, or a total that does not fit in a `usize`.
    pub fn checked_visual_rows_to(&self, width: usize, row_index: usize, file_config: &FileConfig) -> (r: Option<usize>)
        ensures
            ({
                let last = if row_index < self.rows@.len() { row_index as int } else { self.rows@.len() as int };
                let tl = tab_bytes(*file_config);
                r == if width > 0 && widths_fit(self.rows@, tl, last)
                    && screen_rows(self.rows@, tl, width as int, last) <= usize::MAX {
                    Some(screen_rows(self.rows@, tl, width as int, last) as usize)
                } else {
                    None::<usize>
                }
            }),
    {
        let ghost tl = tab_bytes(*file_config);
        let ghost last = if row_index < self.rows@.len() { row_index as int } else { self.rows@.len() as int };
        if width == 0 {
            return None;
        }
        let mut rows: usize = 0;
        let mut i: usize = 0;
        while i < self.rows.len() && i != row_index
            invariant
                i <= self.rows@.len(),
                i <= last,
                tl == tab_bytes(*file_config),
                last == if row_index < self.rows@.len() {
                    row_index as int
                } else {
                    self.rows@.len() as int
                },
                width > 0,
                widths_fit(self.rows@, tl, i as int),
                rows == screen_rows(self.rows@, tl, width as int, i as int),
            decreases self.rows@.len() - i,
        {
            assert(self.rows@[i as int] == self.rows[i as int]);
            let w = match self.rows[i].checked_line_width(file_config) {
                Some(w) => w,
                None => {
                    assert(!width_fits(self.rows@[i as int].buf@, self.rows@[i as int].buf.is_ascii(), tl));
                    return None;
                },
            };
            assert(w / width <= w) by (nonlinear_arith)
                requires
                    width > 0,
            ;
            proof {
                lemma_width_nonneg(self.rows@[i as int].buf@, self.rows@[i as int].buf.is_ascii(), tl);
                lemma_widths_fit_tabs(self.rows@, tl, last);
            }
            match rows.checked_add(w / width) {
                Some(sum) => match sum.checked_add(1) {
                    Some(next) => rows = next,
                    None => {
                        proof {
                            if widths_fit(self.rows@, tl, last) {
                                lemma_screen_rows_grow(self.rows@, tl, width as int, i + 1, last);
                            }
                        }
                        return None;
                    },
                },
                None => {
                    proof {
                        if widths_fit(self.rows@, tl, last) {
                            lemma_screen_rows_grow(self.rows@, tl, width as int, i + 1, last);
                        }
                    }
                    return None;
                },
            }
            i += 1;
            assert(widths_fit(self.rows@, tl, i as int));
        }
        Some(rows)
    }

    /// Tokenizes the rows `start .. end`, with the document's selection.
    pub fn tokenize(&mut self, start: usize, end: usize, config: &FileConfig)
        requires
            start <= end,
            config.keys_unique(),
        ensures
            final(self).same_but_rows(*old(self)),
            final(self).rows@.len() == old(self).rows@.len(),
            lines_of(final(self).rows@) == lines_of(old(self).rows@),
            forall|r: int|
                0 <= r < old(self).rows@.len() && !(start <= r < end) ==> #[trigger] final(self).rows@[r].tokens
                    == old(self).rows@[r].tokens,
            exists|esc: Seq<char>|
                #[trigger] tokenized(
                    old(self).rows@,
                    final(self).rows@,
                    *config,
                    esc,
                    old(self).selection,
                    start as int,
                    end - start,
                ),
    {
        let n = end - start;
        Token::tokenize(&mut self.rows, HighlightingInfo { selection: self.selection }, start, n, config);
        proof {
            let esc = choose|esc: Seq<char>|
                #[trigger] tokenized(
                    old(self).rows@,
                    self.rows@,
                    *config,
                    esc,
                    old(self).selection,
                    start as int,
                    n as int,
                );
            assert(tokenized(
                old(self).rows@,
                self.rows@,
                *config,
                esc,
                old(self).selection,
                start as int,
                end - start,
            ));
        }
    }
}

proof fn lemma_widths_fit_tabs(rows: Seq<Row>, tab_len: nat, k: int)
    ensures
        widths_fit(rows, tab_len, k) ==> forall|j: int|
            0 <= j < k && #[trigger] rows[j].buf.is_ascii() && crate::row::tab_count(rows[j].buf@) > 0
                ==> tab_len > 0,
{
    if widths_fit(rows, tab_len, k) {
        assert forall|j: int|
            0 <= j < k && #[trigger] rows[j].buf.is_ascii() && crate::row::tab_count(rows[j].buf@) > 0
                implies tab_len > 0 by {
            assert(width_fits(rows[j].buf@, rows[j].buf.is_ascii(), tab_len));
        }
    }
}

proof fn lemma_width_nonneg(s: Seq<char>, ascii: bool, tab_len: nat)
    requires
        ascii && crate::row::tab_count(s) > 0 ==> tab_len > 0,
    ensures
        width_spec(s, ascii, tab_len) >= 0,
{
    let t = crate::row::tab_count(s);
    if ascii {
        if t > 0 {
            assert((tab_len - 1) * t >= 0) by (nonlinear_arith)
                requires
                    tab_len >= 1,
                    t >= 0,
            ;
        } else {
            assert((tab_len - 1) * t == 0) by (nonlinear_arith)
                requires
                    t == 0,
            ;
        }
    } else {
        assert(tab_len * t >= 0) by (nonlinear_arith)
            requires
                tab_len >= 0,
                t >= 0,
        ;
    }
}

proof fn lemma_screen_rows_grow(rows: Seq<Row>, tab_len: nat, width: int, a: int, b: int)
    requires
        0 <= a <= b <= rows.len(),
        width > 0,
        forall|j: int|
            0 <= j < b && #[trigger] rows[j].buf.is_ascii() && crate::row::tab_count(
                rows[j].buf@,
            ) > 0 ==> tab_len > 0,
    ensures
        screen_rows(rows, tab_len, width, a) <= screen_rows(rows, tab_len, width, b),
    decreases b - a,
{
    if a < b {
        lemma_screen_rows_grow(rows, tab_len, width, a, b - 1);
        let w = width_spec(rows[b - 1].buf@, rows[b - 1].buf.is_ascii(), tab_len);
        lemma_width_nonneg(rows[b - 1].buf@, rows[b - 1].buf.is_ascii(), tab_len);
        assert(w / width >= 0) by (nonlinear_arith)
            requires
                width > 0,
                w >= 0,
        ;
    }
}

} // verus!
