use crate::document::Document;
use crate::highlight::lines_of;
use crate::row::Row;
use vstd::prelude::*;

verus! {

/// Which way an edit is replayed.
#[derive(Debug, Clone, Copy, PartialEq, Eq, Structural)]
pub enum UndoRedo {
    Undo,
    Redo,
}

/// An edit of a document, at column `x` and row `y`, that can be undone and redone.
#[derive(Debug)]
pub enum EditDiff {
    InsertChar(usize, usize, char),
    /// The last field tells a backspace from a delete.
    DeleteChar(usize, usize, char, bool),
    Compound(Vec<EditDiff>),
    NewLine(usize),
    DeleteLine(usize, String, LineDeleteMode),
    SplitLine(usize, usize),
}

/// How a line was deleted: joined to the line above it, or as a whole.
#[derive(Debug, Clone, Copy, PartialEq, Eq, Structural)]
pub enum LineDeleteMode {
    Joined,
    WholeLine,
}

/// Lines after an edit, with the cursor position `(column, row)` it leaves.
pub type Applied = Option<(Seq<Seq<char>>, (int, int))>;

/// What replaying `d` in direction `which` does to `lines`; `None` where it
/// reaches a row or a column that is not there.
pub open spec fn applied(d: EditDiff, which: UndoRedo, lines: Seq<Seq<char>>) -> Applied
    decreases d, 1nat, 0int,
{
    let n = lines.len();
    match d {
        EditDiff::InsertChar(x, y, c) => match which {
            UndoRedo::Undo => if y < n && x < lines[y as int].len() {
                Some((lines.update(y as int, lines[y as int].remove(x as int)), (x as int, y as int)))
            } else {
                None
            },
            UndoRedo::Redo => if y < n && x <= lines[y as int].len() && x < usize::MAX {
                Some((lines.update(y as int, lines[y as int].insert(x as int, c)), (x + 1, y as int)))
            } else {
                None
            },
        },
        EditDiff::DeleteChar(x, y, c, backspace) => match which {
            UndoRedo::Undo => if y < n && 1 <= x && x - 1 <= lines[y as int].len() {
                Some((
                    lines.update(y as int, lines[y as int].insert(x - 1, c)),
                    (if backspace { x as int } else { x - 1 }, y as int),
                ))
            } else {
                None
            },
            UndoRedo::Redo => if y < n && 1 <= x && x - 1 < lines[y as int].len() {
                Some((lines.update(y as int, lines[y as int].remove(x - 1)), (x - 1, y as int)))
            } else {
                None
            },
        },
        EditDiff::Compound(ds) => applied_run(ds, which, lines, 0, (0, 0)),
        EditDiff::DeleteLine(y, s, mode) => match which {
            UndoRedo::Undo => {
                let joined = y != 0 && mode == LineDeleteMode::Joined;
                if y <= n && (joined ==> s@.len() <= lines[y - 1].len()) {
                    let above = if joined {
                        lines.update(y - 1, lines[y - 1].subrange(0, lines[y - 1].len() - s@.len()))
                    } else {
                        lines
                    };
                    Some((above.insert(y as int, s@), (0, y as int)))
                } else {
                    None
                }
            },
            UndoRedo::Redo => if 1 <= y < n {
                let rest = lines.remove(y as int);
                Some((rest, (rest[y - 1].len() as int, y - 1)))
            } else {
                None
            },
        },
        EditDiff::NewLine(y) => match which {
            UndoRedo::Undo => if 1 <= y < n {
                let at = if lines[y as int].len() == 0 && y + 1 < n {
                    (0, y as int)
                } else {
                    (lines[y - 1].len() as int, y - 1)
                };
                Some((lines.remove(y as int), at))
            } else {
                None
            },
            UndoRedo::Redo => if y <= n {
                Some((lines.insert(y as int, seq![]), (0, y as int)))
            } else {
                None
            },
        },
        EditDiff::SplitLine(x, y) => match which {
            UndoRedo::Undo => if y + 1 < n {
                Some((
                    lines.update(y as int, lines[y as int] + lines[y + 1]).remove(y + 1),
                    (lines[y as int].len() as int, y as int),
                ))
            } else {
                None
            },
            UndoRedo::Redo => if y < n && x <= lines[y as int].len() && y + 1 <= usize::MAX {
                let line = lines[y as int];
                Some((
                    lines.update(y as int, line.subrange(0, x as int)).insert(
                        y + 1,
                        line.subrange(x as int, line.len() as int),
                    ),
                    (0, y + 1),
                ))
            } else {
                None
            },
        },
    }
}

/// The index of the `k`-th edit of a compound edit of `len` edits replayed in
/// direction `which`: undone from the last, redone from the first.
pub open spec fn step_index(which: UndoRedo, len: int, k: int) -> int {
    match which {
        UndoRedo::Undo => len - 1 - k,
        UndoRedo::Redo => k,
    }
}

/// Replaying the edits of `ds` from the `k`-th on, `at` being the position
/// that the last one left.
pub open spec fn applied_run(
    ds: Vec<EditDiff>,
    which: UndoRedo,
    lines: Seq<Seq<char>>,
    k: int,
    at: (int, int),
) -> Applied
    decreases ds, 0nat, ds@.len() - k,
{
    if k < 0 || k >= ds@.len() {
        Some((lines, at))
    } else {
        let i = step_index(which, ds@.len() as int, k);
        match applied(ds[i], which, lines) {
            Some(r) => applied_run(ds, which, r.0, k + 1, r.1),
            None => None,
        }
    }
}

impl EditDiff {
    /// Replays this edit on `doc` in direction `which` and returns the cursor
    /// position `(column, row)` that it leaves.
    pub fn apply(&self, which: UndoRedo, doc: &mut Document) -> (r: (usize, usize))
        requires
            applied(*self, which, lines_of(old(doc).rows@)) is Some,
        ensures
            lines_of(final(doc).rows@) == (applied(*self, which, lines_of(old(doc).rows@))->0).0,
            (r.0 as int, r.1 as int) == (applied(*self, which, lines_of(old(doc).rows@))->0).1,
            final(doc).same_but_rows(*old(doc)),
    {
        match self.try_apply(which, &mut doc.rows) {
            Some(at) => at,
            None => (0, 0),
        }
    }

    /// Replays this edit on `rows` in direction `which` where it applies, and
    /// returns the cursor position `(column, row)` that it leaves; `None`
    /// where it reaches a row or a column that is not there. A single edit
    /// that does not apply leaves `rows` as they are; a compound one may have
    /// replayed some of its edits.
    pub fn try_apply(&self, which: UndoRedo, rows: &mut Vec<Row>) -> (r: Option<(usize, usize)>)
        ensures
            match applied(*self, which, lines_of(old(rows)@)) {
                Some(a) => r is Some && lines_of(final(rows)@) == a.0 && ((r->0).0 as int, (r->0).1 as int) == a.1,
                None => r is None,
            },
            !(self is Compound) && r is None ==> *final(rows) == *old(rows),
        decreases self,
    {
        let ghost lines = lines_of(rows@);
        match self {
            EditDiff::Compound(d) => {
                let mut at: (usize, usize) = (0, 0);
                let mut k: usize = 0;
                while k < d.len()
                    invariant
                        *self == EditDiff::Compound(*d),
                        lines == lines_of(old(rows)@),
                        k <= d@.len(),
                        applied(*self, which, lines) == applied_run(
                            *d,
                            which,
                            lines_of(rows@),
                            k as int,
                            (at.0 as int, at.1 as int),
                        ),
                    decreases d@.len() - k,
                {
                    let i = match which {
                        UndoRedo::Undo => d.len() - 1 - k,
                        UndoRedo::Redo => k,
                    };
                    assert(i == step_index(which, d@.len() as int, k as int));
                    proof {
                        assert(decreases_to!(*d => d[i as int]));
                        assert(decreases_to!(*self => d[i as int]));
                    }
                    let ghost before = lines_of(rows@);
                    match d[i].try_apply(which, rows) {
                        Some(next) => at = next,
                        None => {
                            assert(applied_run(
                                *d,
                                which,
                                before,
                                k as int,
                                (at.0 as int, at.1 as int),
                            ) is None);
                            return None;
                        },
                    }
                    k += 1;
                }
                Some(at)
            },
            EditDiff::InsertChar(..) | EditDiff::DeleteChar(..) => self.apply_to_chars(which, rows),
            _ => self.apply_to_lines(which, rows),
        }
    }

    fn apply_to_chars(&self, which: UndoRedo, rows: &mut Vec<Row>) -> (r: Option<(usize, usize)>)
        requires
            self is InsertChar || self is DeleteChar,
        ensures
            match applied(*self, which, lines_of(old(rows)@)) {
                Some(a) => r is Some && lines_of(final(rows)@) == a.0 && ((r->0).0 as int, (r->0).1 as int) == a.1,
                None => r is None,
            },
            r is None ==> *final(rows) == *old(rows),
    {
        let ghost lines = lines_of(rows@);
        let n = rows.len();
        match self {
            EditDiff::InsertChar(x, y, c) => match which {
                UndoRedo::Undo => {
                    if !(*y < n && *x < rows[*y].len()) {
                        return None;
                    }
                    assert(lines[*y as int] == rows@[*y as int].buf@);
                    rows[*y].remove_at(*x);
                    assert(lines_of(rows@) =~= (applied(*self, which, lines)->0).0);
                    Some((*x, *y))
                },
                UndoRedo::Redo => {
                    if !(*y < n && *x <= rows[*y].len() && *x < usize::MAX) {
                        return None;
                    }
                    assert(lines[*y as int] == rows@[*y as int].buf@);
                    rows[*y].insert_char(*x, *c);
                    assert(lines_of(rows@) =~= (applied(*self, which, lines)->0).0);
                    Some((*x + 1, *y))
                },
            },
            EditDiff::DeleteChar(x, y, c, backspace) => match which {
                UndoRedo::Undo => {
                    if !(*y < n && *x >= 1 && *x - 1 <= rows[*y].len()) {
                        return None;
                    }
                    assert(lines[*y as int] == rows@[*y as int].buf@);
                    rows[*y].insert_char(*x - 1, *c);
                    assert(lines_of(rows@) =~= (applied(*self, which, lines)->0).0);
                    Some((*x - if *backspace {
                        0
                    } else {
                        1
                    }, *y))
                },
                UndoRedo::Redo => {
                    if !(*y < n && *x >= 1 && *x - 1 < rows[*y].len()) {
                        return None;
                    }
                    assert(lines[*y as int] == rows@[*y as int].buf@);
                    rows[*y].remove_at(*x - 1);
                    assert(lines_of(rows@) =~= (applied(*self, which, lines)->0).0);
                    Some((*x - 1, *y))
                },
            },
            _ => None,
        }
    }

    fn apply_to_lines(&self, which: UndoRedo, rows: &mut Vec<Row>) -> (r: Option<(usize, usize)>)
        requires
            !(self is InsertChar || self is DeleteChar || self is Compound),
        ensures
            match applied(*self, which, lines_of(old(rows)@)) {
                Some(a) => r is Some && lines_of(final(rows)@) == a.0 && ((r->0).0 as int, (r->0).1 as int) == a.1,
                None => r is None,
            },
            r is None ==> *final(rows) == *old(rows),
    {
        let ghost lines = lines_of(rows@);
        let n = rows.len();
        assert(lines.len() == n);
        match self {
            EditDiff::DeleteLine(y, s, mode) => match which {
                UndoRedo::Undo => {
                    let joined = *y != 0 && match mode {
                        LineDeleteMode::Joined => true,
                        LineDeleteMode::WholeLine => false,
                    };
                    if *y > n {
                        return None;
                    }
                    let k = s.as_str().unicode_len();
                    if joined {
                        let l = rows[*y - 1].len();
                        if k > l {
                            return None;
                        }
                        assert(lines[*y - 1] == rows@[*y - 1].buf@);
                        let kept = String::from_str(rows[*y - 1].substring(0, l - k));
                        rows[*y - 1].buf = kept;
                    }
                    rows.insert(*y, Row::from_string(s.clone()));
                    assert(lines_of(rows@) =~= (applied(*self, which, lines)->0).0);
                    Some((0, *y))
                },
                UndoRedo::Redo => {
                    if !(1 <= *y && *y < n) {
                        return None;
                    }
                    rows.remove(*y);
                    assert(lines_of(rows@) =~= (applied(*self, which, lines)->0).0);
                    Some((rows[*y - 1].len(), *y - 1))
                },
            },
            EditDiff::NewLine(y) => match which {
                UndoRedo::Undo => {
                    if !(1 <= *y && *y < n) {
                        return None;
                    }
                    let mut cx = rows[*y - 1].len();
                    let mut cy = *y - 1;
                    if rows[*y].len() == 0 && *y + 1 < n {
                        cy = *y;
                        cx = 0;
                    }
                    rows.remove(*y);
                    assert(lines_of(rows@) =~= (applied(*self, which, lines)->0).0);
                    Some((cx, cy))
                },
                UndoRedo::Redo => {
                    if *y > n {
                        return None;
                    }
                    rows.insert(*y, Row::empty());
                    assert(lines_of(rows@) =~= (applied(*self, which, lines)->0).0);
                    Some((0, *y))
                },
            },
            EditDiff::SplitLine(x, y) => match which {
                UndoRedo::Undo => {
                    if !(n > 0 && *y < n - 1) {
                        return None;
                    }
                    let col = rows[*y].len();
                    let joined = rows[*y].buf.clone().concat(rows[*y + 1].buf.as_str());
                    rows[*y] = Row::from_string(joined);
                    rows.remove(*y + 1);
                    assert(lines_of(rows@) =~= (applied(*self, which, lines)->0).0);
                    Some((col, *y))
                },
                UndoRedo::Redo => {
                    if !(*y < n && *x <= rows[*y].len() && *y < usize::MAX) {
                        return None;
                    }
                    let (left, right) = rows[*y].split_at(*x);
                    rows[*y] = Row::from_string(left);
                    rows.insert(*y + 1, Row::from_string(right));
                    assert(lines_of(rows@) =~= (applied(*self, which, lines)->0).0);
                    Some((0, *y + 1))
                },
            },
            _ => None,
        }
    }
}

} // verus!
