//! Edit operations, the undo/redo engine and the editing session that ties the
//! document, the cursor and the selection anchor together.

use vstd::prelude::*;
use crate::buffer::{
    Buffer, clamp, end_of_insert, insert_parts, lemma_delete_then_reinsert_restores,
    lemma_insert_then_delete_restores, lines_wf, ordered_end, ordered_start, range_crlf_free,
    range_text, remove_between, search_result, splice, valid_pos,
};
use crate::pos::{LineEnding, Pos, pos_le, pos_lt};
use crate::text::string_from_str;

verus! {

/// An atomic, self-describing edit.
#[derive(Clone, Debug)]
pub enum EditOperation {
    /// `text` was inserted at `pos`.
    Insert { pos: Pos, text: String },
    /// The text between `start` and `end` was deleted; it was `deleted_text`.
    Delete { start: Pos, end: Pos, deleted_text: String },
}

/// One entry of the undo or redo stack.
#[derive(Clone, Debug)]
pub struct UndoEntry {
    pub op: EditOperation,
    /// Cursor to restore when the entry is taken back.
    pub cursor_before: Pos,
    /// Selection anchor to restore when the entry is taken back.
    pub anchor_before: Option<Pos>,
}

/// The edit that takes `op` back.
pub open spec fn inverse_of(op: EditOperation) -> EditOperation {
    match op {
        EditOperation::Insert { pos, text } => EditOperation::Delete {
            start: pos,
            end: end_of_insert(pos, insert_parts(text@)),
            deleted_text: text,
        },
        EditOperation::Delete { start, end, deleted_text } => EditOperation::Insert {
            pos: start,
            text: deleted_text,
        },
    }
}

/// The document after taking `op` back: an insertion is deleted again from its
/// position to its predicted end; a deletion has its text inserted again.
pub open spec fn apply_inverse(doc: Seq<Seq<char>>, op: EditOperation) -> Seq<Seq<char>> {
    match op {
        EditOperation::Insert { pos, text } => {
            let e = end_of_insert(pos, insert_parts(text@));
            remove_between(doc, ordered_start(doc, pos, e), ordered_end(doc, pos, e))
        },
        EditOperation::Delete { start, end, deleted_text } => splice(
            doc,
            clamp(doc, start),
            insert_parts(deleted_text@),
        ),
    }
}

/// The state the undo engine works on.
pub struct History {
    pub doc: Seq<Seq<char>>,
    pub cursor: Pos,
    pub anchor: Option<Pos>,
    pub undo: Seq<UndoEntry>,
    pub redo: Seq<UndoEntry>,
}

/// Taking back the newest entry of `undo`; nothing happens when it is empty.
pub open spec fn undo_model(h: History) -> History {
    if h.undo.len() == 0 {
        h
    } else {
        let e = h.undo.last();
        History {
            doc: apply_inverse(h.doc, e.op),
            cursor: e.cursor_before,
            anchor: e.anchor_before,
            undo: h.undo.drop_last(),
            redo: h.redo.push(
                UndoEntry { op: inverse_of(e.op), cursor_before: h.cursor, anchor_before: h.anchor },
            ),
        }
    }
}

/// Replaying the newest entry of `redo`; nothing happens when it is empty.
pub open spec fn redo_model(h: History) -> History {
    if h.redo.len() == 0 {
        h
    } else {
        let e = h.redo.last();
        History {
            doc: apply_inverse(h.doc, e.op),
            cursor: e.cursor_before,
            anchor: e.anchor_before,
            undo: h.undo.push(
                UndoEntry { op: inverse_of(e.op), cursor_before: h.cursor, anchor_before: h.anchor },
            ),
            redo: h.redo.drop_last(),
        }
    }
}

/// `s` with its oldest entries dropped so that at most `cap` remain.
pub open spec fn keep_newest(s: Seq<UndoEntry>, cap: nat) -> Seq<UndoEntry> {
    if s.len() > cap { s.skip(s.len() - cap) } else { s }
}

/// `op`, as it stands on the undo stack of `doc`, can be taken back and replayed:
/// an insertion was made at a valid position of the document it came from; a
/// deletion starts at a valid position of `doc`.
pub open spec fn reversible(doc: Seq<Seq<char>>, op: EditOperation) -> bool {
    match op {
        EditOperation::Insert { pos, text } => exists|base: Seq<Seq<char>>|
            {
                &&& lines_wf(base)
                &&& valid_pos(base, pos)
                &&& base.len() + text@.len() <= usize::MAX
                &&& base[pos.y as int].len() + text@.len() <= usize::MAX
                &&& #[trigger] splice(base, pos, insert_parts(text@)) == doc
            },
        EditOperation::Delete { start, end, deleted_text } => {
            &&& lines_wf(doc)
            &&& valid_pos(doc, start)
            &&& doc.len() + deleted_text@.len() <= usize::MAX
            &&& doc[start.y as int].len() + deleted_text@.len() <= usize::MAX
        },
    }
}

/// Taking back a reversible edit and then taking back its inverse restores the
/// document.
pub proof fn lemma_inverse_twice(doc: Seq<Seq<char>>, op: EditOperation)
    requires
        reversible(doc, op),
    ensures
        apply_inverse(apply_inverse(doc, op), inverse_of(op)) == doc,
{
    match op {
        EditOperation::Insert { pos, text } => {
            let base = choose|base: Seq<Seq<char>>|
                {
                    &&& lines_wf(base)
                    &&& valid_pos(base, pos)
                    &&& base.len() + text@.len() <= usize::MAX
                    &&& base[pos.y as int].len() + text@.len() <= usize::MAX
                    &&& #[trigger] splice(base, pos, insert_parts(text@)) == doc
                };
            lemma_insert_then_delete_restores(base, pos, text@);
            assert(apply_inverse(doc, op) == base);
            assert(clamp(base, pos) == pos);
        },
        EditOperation::Delete { start, end, deleted_text } => {
            assert(clamp(doc, start) == start);
            lemma_insert_then_delete_restores(doc, start, deleted_text@);
        },
    }
}

/// `n` undo steps in a row.
pub open spec fn undo_n(h: History, n: nat) -> History
    decreases n,
{
    if n == 0 {
        h
    } else {
        undo_n(undo_model(h), (n - 1) as nat)
    }
}

/// `n` redo steps in a row.
pub open spec fn redo_n(h: History, n: nat) -> History
    decreases n,
{
    if n == 0 {
        h
    } else {
        redo_model(redo_n(h, (n - 1) as nat))
    }
}

/// The newest `n` entries of the undo stack can each be taken back and replayed.
pub open spec fn undoable(h: History, n: nat) -> bool
    decreases n,
{
    n == 0 || (h.undo.len() > 0 && reversible(h.doc, h.undo.last().op) && undoable(
        undo_model(h),
        (n - 1) as nat,
    ))
}

/// Undo and redo are inverses: `n` undo steps followed by `n` redo steps restore
/// the document, the cursor, the anchor and the redo stack.
pub proof fn lemma_undo_redo_restores(h: History, n: nat)
    requires
        undoable(h, n),
    ensures
        redo_n(undo_n(h, n), n).doc == h.doc,
        redo_n(undo_n(h, n), n).cursor == h.cursor,
        redo_n(undo_n(h, n), n).anchor == h.anchor,
        redo_n(undo_n(h, n), n).redo == h.redo,
    decreases n,
{
    if n > 0 {
        let h1 = undo_model(h);
        lemma_undo_redo_restores(h1, (n - 1) as nat);
        let s = redo_n(undo_n(h1, (n - 1) as nat), (n - 1) as nat);
        assert(undo_n(h, n) == undo_n(h1, (n - 1) as nat));
        assert(redo_n(undo_n(h, n), n) == redo_model(s));
        assert(s.redo.last() == h1.redo.last());
        lemma_inverse_twice(h.doc, h.undo.last().op);
        assert(s.redo.drop_last() =~= h.redo);
    }
}

/// Each entry of `s` (newest last) was recorded for the document it meets when
/// the entries after it have been taken back: it is reversible there.
pub open spec fn history_consistent(doc: Seq<Seq<char>>, s: Seq<UndoEntry>) -> bool
    decreases s.len(),
{
    s.len() == 0 || (reversible(doc, s.last().op) && history_consistent(
        apply_inverse(doc, s.last().op),
        s.drop_last(),
    ))
}

proof fn lemma_consistent_undoable(h: History, n: nat)
    requires
        history_consistent(h.doc, h.undo),
        n <= h.undo.len(),
    ensures
        undoable(h, n),
    decreases n,
{
    if n > 0 {
        lemma_consistent_undoable(undo_model(h), (n - 1) as nat);
    }
}

/// Undo and redo are inverses on a consistent history: for every `n` up to the
/// number of recorded entries, `n` undo steps followed by `n` redo steps restore
/// the document, the cursor, the anchor and the redo stack.
pub proof fn lemma_consistent_undo_redo_restores(h: History, n: nat)
    requires
        history_consistent(h.doc, h.undo),
        n <= h.undo.len(),
    ensures
        redo_n(undo_n(h, n), n).doc == h.doc,
        redo_n(undo_n(h, n), n).cursor == h.cursor,
        redo_n(undo_n(h, n), n).anchor == h.anchor,
        redo_n(undo_n(h, n), n).redo == h.redo,
{
    lemma_consistent_undoable(h, n);
    lemma_undo_redo_restores(h, n);
}

/// The inverse of a reversible edit is reversible where it applies.
proof fn lemma_inverse_reversible(doc: Seq<Seq<char>>, op: EditOperation)
    requires
        reversible(doc, op),
    ensures
        reversible(apply_inverse(doc, op), inverse_of(op)),
{
    match op {
        EditOperation::Insert { pos, text } => {
            let base = choose|base: Seq<Seq<char>>|
                {
                    &&& lines_wf(base)
                    &&& valid_pos(base, pos)
                    &&& base.len() + text@.len() <= usize::MAX
                    &&& base[pos.y as int].len() + text@.len() <= usize::MAX
                    &&& #[trigger] splice(base, pos, insert_parts(text@)) == doc
                };
            lemma_insert_then_delete_restores(base, pos, text@);
            assert(apply_inverse(doc, op) == base);
            let inv = EditOperation::Delete {
                start: pos,
                end: end_of_insert(pos, insert_parts(text@)),
                deleted_text: text,
            };
            assert(inverse_of(op) == inv);
            assert(reversible(base, inv));
        },
        EditOperation::Delete { start, end, deleted_text } => {
            assert(clamp(doc, start) == start);
            let after = apply_inverse(doc, op);
            assert(splice(doc, start, insert_parts(deleted_text@)) == after);
            let inv = EditOperation::Insert { pos: start, text: deleted_text };
            assert(inverse_of(op) == inv);
            assert(exists|base: Seq<Seq<char>>|
                {
                    &&& lines_wf(base)
                    &&& valid_pos(base, start)
                    &&& base.len() + deleted_text@.len() <= usize::MAX
                    &&& base[start.y as int].len() + deleted_text@.len() <= usize::MAX
                    &&& #[trigger] splice(base, start, insert_parts(deleted_text@)) == after
                });
            assert(inv->Insert_pos == start);
            assert(inv->Insert_text == deleted_text);
            assert(reversible(after, inv));
        },
    }
}

/// Dropping the oldest entry keeps a history consistent.
proof fn lemma_consistent_drop_oldest(doc: Seq<Seq<char>>, s: Seq<UndoEntry>)
    requires
        history_consistent(doc, s),
        s.len() > 0,
    ensures
        history_consistent(doc, s.skip(1)),
    decreases s.len(),
{
    if s.len() > 1 {
        let d1 = apply_inverse(doc, s.last().op);
        lemma_consistent_drop_oldest(d1, s.drop_last());
        assert(s.skip(1).last() == s.last());
        assert(s.skip(1).drop_last() =~= s.drop_last().skip(1));
    } else {
        assert(s.skip(1).len() == 0);
    }
}

/// Recording the deletion of the text between the valid positions `a <= b` of
/// `doc` keeps a history consistent: no line break inside follows a carriage
/// return, and the document with the text put back fits in memory sizes.
pub open spec fn deletion_recordable(doc: Seq<Seq<char>>, a: Pos, b: Pos) -> bool {
    let d = remove_between(doc, a, b);
    let t = range_text(doc, a, b);
    &&& range_crlf_free(doc, a, b)
    &&& d.len() + t.len() <= usize::MAX
    &&& d[a.y as int].len() + t.len() <= usize::MAX
}

/// Recording the insertion of `t` at `p` in `doc` keeps a history consistent:
/// the sizes fit.
pub open spec fn insertion_recordable(doc: Seq<Seq<char>>, p: Pos, t: Seq<char>) -> bool {
    doc.len() + t.len() <= usize::MAX && doc[p.y as int].len() + t.len() <= usize::MAX
}

/// Pushing an entry that takes the new document back to the old one keeps the
/// history consistent, also when the oldest entry is dropped for capacity.
proof fn lemma_record_applied(
    d0: Seq<Seq<char>>,
    u: Seq<UndoEntry>,
    e: UndoEntry,
    d1: Seq<Seq<char>>,
    cap: nat,
)
    requires
        history_consistent(d0, u),
        u.len() <= cap,
        cap >= 1,
        reversible(d1, e.op),
        apply_inverse(d1, e.op) == d0,
    ensures
        history_consistent(d1, keep_newest(u.push(e), cap)),
{
    let s = u.push(e);
    assert(s.drop_last() =~= u);
    assert(s.last() == e);
    assert(history_consistent(d1, s));
    if s.len() > cap {
        lemma_consistent_drop_oldest(d1, s);
    }
}

/// An insertion made at a valid position is reversible in the result and taking
/// it back gives the document it was made in.
proof fn lemma_insert_recorded(d0: Seq<Seq<char>>, p: Pos, op: EditOperation)
    requires
        lines_wf(d0),
        valid_pos(d0, p),
        op is Insert,
        op->Insert_pos == p,
        insertion_recordable(d0, p, op->Insert_text@),
    ensures
        reversible(splice(d0, p, insert_parts(op->Insert_text@)), op),
        apply_inverse(splice(d0, p, insert_parts(op->Insert_text@)), op) == d0,
{
    let t = op->Insert_text;
    lemma_insert_then_delete_restores(d0, p, t@);
    let d1 = splice(d0, p, insert_parts(t@));
    assert(exists|base: Seq<Seq<char>>|
        {
            &&& lines_wf(base)
            &&& valid_pos(base, p)
            &&& base.len() + t@.len() <= usize::MAX
            &&& base[p.y as int].len() + t@.len() <= usize::MAX
            &&& #[trigger] splice(base, p, insert_parts(t@)) == d1
        });
}

/// A deletion recorded with the deleted text is reversible in the result and
/// taking it back gives the document it was made in.
proof fn lemma_delete_recorded(d0: Seq<Seq<char>>, a: Pos, b: Pos, op: EditOperation)
    requires
        lines_wf(d0),
        lines_wf(remove_between(d0, a, b)),
        valid_pos(d0, a),
        valid_pos(d0, b),
        pos_le(a, b),
        op is Delete,
        op->Delete_start == a,
        op->Delete_deleted_text@ == range_text(d0, a, b),
        deletion_recordable(d0, a, b),
    ensures
        reversible(remove_between(d0, a, b), op),
        apply_inverse(remove_between(d0, a, b), op) == d0,
{
    lemma_delete_then_reinsert_restores(d0, a, b);
}

/// An editing session: the document with its cursor, selection anchor, scroll
/// state and undo history.
pub struct Editor {
    pub buf: Buffer,
    pub cursor: Pos,
    pub anchor: Option<Pos>,
    pub scroll_y: usize,
    pub scroll_x: usize,
    pub dirty: bool,
    pub word_wrap: bool,
    pub undo: Vec<UndoEntry>,
    pub redo: Vec<UndoEntry>,
    pub undo_capacity: usize,
}

/// The number of undo entries a session keeps by default.
pub const UNDO_CAPACITY: usize = 1000;

impl Editor {
    pub open spec fn wf(&self) -> bool {
        &&& self.buf.wf()
        &&& self.undo_capacity >= 1
        &&& self.undo@.len() + self.redo@.len() <= self.undo_capacity
    }

    /// Both stacks hold entries recorded for the documents they meet.
    pub open spec fn history_ok(&self) -> bool {
        history_consistent(self.buf@, self.undo@) && history_consistent(self.buf@, self.redo@)
    }

    pub open spec fn model(&self) -> History {
        History {
            doc: self.buf@,
            cursor: self.cursor,
            anchor: self.anchor,
            undo: self.undo@,
            redo: self.redo@,
        }
    }

    /// A session on `buf` with the cursor at the start and empty history.
    pub fn with_buffer(buf: Buffer, undo_capacity: usize) -> (r: Editor)
        requires
            buf.wf(),
            undo_capacity >= 1,
        ensures
            r.wf(),
            r.history_ok(),
            r.buf == buf,
            r.cursor == (Pos { y: 0, x: 0 }),
            r.anchor is None,
            r.undo@.len() == 0,
            r.redo@.len() == 0,
            r.undo_capacity == undo_capacity,
            r.scroll_y == 0,
            r.scroll_x == 0,
            !r.dirty,
            !r.word_wrap,
    {
        Editor {
            buf,
            cursor: Pos { y: 0, x: 0 },
            anchor: None,
            scroll_y: 0,
            scroll_x: 0,
            dirty: false,
            word_wrap: false,
            undo: Vec::new(),
            redo: Vec::new(),
            undo_capacity,
        }
    }

    /// A session on an empty document keeping the default number of undo entries.
    pub fn new() -> (r: Editor)
        ensures
            r.wf(),
            r.history_ok(),
            r.buf@ == seq![Seq::<char>::empty()],
            r.cursor == (Pos { y: 0, x: 0 }),
            r.anchor is None,
            r.undo@.len() == 0,
            r.redo@.len() == 0,
            r.undo_capacity == UNDO_CAPACITY,
    {
        Editor::with_buffer(Buffer::new(), UNDO_CAPACITY)
    }

    /// Records `op` before it is applied: pushes it with the current cursor and
    /// anchor, drops the oldest entries beyond the capacity and clears the redo
    /// stack.
    pub fn record_edit(&mut self, op: EditOperation)
        requires
            old(self).wf(),
        ensures
            final(self).wf(),
            final(self).undo@ == keep_newest(
                old(self).undo@.push(
                    UndoEntry { op, cursor_before: old(self).cursor, anchor_before: old(self).anchor },
                ),
                old(self).undo_capacity as nat,
            ),
            final(self).undo@.len() <= final(self).undo_capacity,
            final(self).redo@.len() == 0,
            final(self).buf == old(self).buf,
            final(self).cursor == old(self).cursor,
            final(self).anchor == old(self).anchor,
            final(self).undo_capacity == old(self).undo_capacity,
            final(self).scroll_y == old(self).scroll_y,
            final(self).scroll_x == old(self).scroll_x,
            final(self).word_wrap == old(self).word_wrap,
            final(self).dirty == old(self).dirty,
    {
        let entry = UndoEntry { op, cursor_before: self.cursor, anchor_before: self.anchor };
        let ghost pushed = self.undo@.push(entry);
        self.undo.push(entry);
        self.redo.clear();
        if self.undo.len() > self.undo_capacity {
            self.undo.remove(0);
            assert(self.undo@ =~= pushed.skip(pushed.len() - self.undo_capacity));
        }
        assert(self.undo@.last() == entry);
    }

    /// Takes back the newest recorded edit, if any: applies its inverse, pushes
    /// that inverse (with the current cursor and anchor) onto the redo stack, and
    /// restores the cursor and anchor saved with the entry.
    pub fn undo(&mut self)
        requires
            old(self).wf(),
        ensures
            final(self).wf(),
            final(self).model() == undo_model(old(self).model()),
            final(self).undo_capacity == old(self).undo_capacity,
            final(self).scroll_y == old(self).scroll_y,
            final(self).scroll_x == old(self).scroll_x,
            final(self).word_wrap == old(self).word_wrap,
            final(self).dirty == (old(self).dirty || old(self).undo@.len() > 0),
            old(self).history_ok() ==> final(self).history_ok(),
    {
        let ghost h = self.model();
        match self.undo.pop() {
            None => {},
            Some(entry) => {
                let UndoEntry { op, cursor_before, anchor_before } = entry;
                proof {
                    if history_consistent(h.doc, h.undo) {
                        assert(h.undo.last().op == op);
                        lemma_inverse_twice(h.doc, op);
                        lemma_inverse_reversible(h.doc, op);
                    }
                }
                let inv = apply_inverse_to(&mut self.buf, op);
                self.redo.push(
                    UndoEntry { op: inv, cursor_before: self.cursor, anchor_before: self.anchor },
                );
                self.cursor = cursor_before;
                self.anchor = anchor_before;
                self.dirty = true;
                assert(self.model() == undo_model(h));
                proof {
                    assert(self.redo@.drop_last() =~= h.redo);
                    assert(self.undo@ =~= h.undo.drop_last());
                }
            },
        }
    }

    /// Replays the newest undone edit, if any; the mirror image of `undo`.
    pub fn redo(&mut self)
        requires
            old(self).wf(),
        ensures
            final(self).wf(),
            final(self).model() == redo_model(old(self).model()),
            final(self).undo_capacity == old(self).undo_capacity,
            final(self).scroll_y == old(self).scroll_y,
            final(self).scroll_x == old(self).scroll_x,
            final(self).word_wrap == old(self).word_wrap,
            final(self).dirty == (old(self).dirty || old(self).redo@.len() > 0),
            old(self).history_ok() ==> final(self).history_ok(),
    {
        let ghost h = self.model();
        match self.redo.pop() {
            None => {},
            Some(entry) => {
                let UndoEntry { op, cursor_before, anchor_before } = entry;
                proof {
                    if history_consistent(h.doc, h.redo) {
                        assert(h.redo.last().op == op);
                        lemma_inverse_twice(h.doc, op);
                        lemma_inverse_reversible(h.doc, op);
                    }
                }
                let inv = apply_inverse_to(&mut self.buf, op);
                self.undo.push(
                    UndoEntry { op: inv, cursor_before: self.cursor, anchor_before: self.anchor },
                );
                self.cursor = cursor_before;
                self.anchor = anchor_before;
                self.dirty = true;
                assert(self.model() == redo_model(h));
                proof {
                    assert(self.undo@.drop_last() =~= h.undo);
                    assert(self.redo@ =~= h.redo.drop_last());
                }
            },
        }
    }
}

/// The selection as an ordered pair, or `None` when there is no anchor or the
/// anchor sits on the cursor.
pub open spec fn spec_selection(cursor: Pos, anchor: Option<Pos>) -> Option<(Pos, Pos)> {
    match anchor {
        None => None,
        Some(a) => if a == cursor {
            None
        } else if pos_le(a, cursor) {
            Some((a, cursor))
        } else {
            Some((cursor, a))
        },
    }
}

/// Whether the character at column `x` of line `y` lies in the ordered
/// selection `sel` (start inclusive, end exclusive).
pub open spec fn spec_char_selected(sel: Option<(Pos, Pos)>, y: usize, x: usize) -> bool {
    match sel {
        None => false,
        Some((a, b)) => pos_le(a, Pos { y, x }) && pos_lt(Pos { y, x }, b),
    }
}

/// Whether the character at column `x` of line `y` lies in the ordered selection
/// `sel` (start inclusive, end exclusive).
pub fn is_char_selected(sel: Option<(Pos, Pos)>, y: usize, x: usize) -> (r: bool)
    ensures
        r == spec_char_selected(sel, y, x),
{
    match sel {
        None => false,
        Some((a, b)) => {
            if y < a.y || y > b.y {
                false
            } else if y == a.y && y == b.y {
                x >= a.x && x < b.x
            } else if y == a.y {
                x >= a.x
            } else if y == b.y {
                x < b.x
            } else {
                true
            }
        },
    }
}

impl Editor {
    /// The selection, ordered, or `None`.
    pub fn selection_range(&self) -> (r: Option<(Pos, Pos)>)
        ensures
            r == spec_selection(self.cursor, self.anchor),
    {
        match self.anchor {
            None => None,
            Some(a) => {
                if a == self.cursor {
                    None
                } else if a.le(&self.cursor) {
                    Some((a, self.cursor))
                } else {
                    Some((self.cursor, a))
                }
            },
        }
    }

    /// Drops the selection.
    pub fn clear_selection(&mut self)
        ensures
            final(self).anchor is None,
            final(self).buf == old(self).buf,
            final(self).cursor == old(self).cursor,
            final(self).undo == old(self).undo,
            final(self).redo == old(self).redo,
            final(self).undo_capacity == old(self).undo_capacity,
    {
        self.anchor = None;
    }

    /// Selects the whole document: the anchor at the start, the cursor at the end.
    pub fn select_all(&mut self)
        requires
            old(self).wf(),
        ensures
            final(self).wf(),
            final(self).anchor == Some(Pos { y: 0, x: 0 }),
            final(self).cursor.y == old(self).buf@.len() - 1,
            final(self).cursor.x == old(self).buf@[old(self).buf@.len() - 1].len(),
            final(self).buf == old(self).buf,
            final(self).undo == old(self).undo,
            final(self).redo == old(self).redo,
            final(self).undo_capacity == old(self).undo_capacity,
    {
        self.anchor = Some(Pos { y: 0, x: 0 });
        let last_y = self.buf.line_count() - 1;
        let last_x = self.buf.line_len_chars(last_y);
        self.cursor = Pos { y: last_y, x: last_x };
    }

    /// The selected text, lines joined by `\n`; empty without a selection.
    pub fn selected_text(&self) -> (r: String)
        requires
            self.wf(),
        ensures
            match spec_selection(self.cursor, self.anchor) {
                None => r@.len() == 0,
                Some((a, b)) => r@ == range_text(
                    self.buf@,
                    ordered_start(self.buf@, a, b),
                    ordered_end(self.buf@, a, b),
                ),
            },
    {
        match self.selection_range() {
            None => String::new(),
            Some((a, b)) => self.buf.get_range(a, b),
        }
    }

    /// Deletes the selected text, if any, and leaves the cursor where it started.
    /// Nothing is recorded for undo.
    pub fn delete_selection(&mut self)
        requires
            old(self).wf(),
        ensures
            final(self).wf(),
            final(self).undo == old(self).undo,
            final(self).redo == old(self).redo,
            final(self).undo_capacity == old(self).undo_capacity,
            match spec_selection(old(self).cursor, old(self).anchor) {
                None => final(self).buf@ == old(self).buf@ && final(self).cursor == old(self).cursor
                    && final(self).anchor == old(self).anchor,
                Some((a, b)) => {
                    &&& final(self).buf@ == remove_between(
                        old(self).buf@,
                        ordered_start(old(self).buf@, a, b),
                        ordered_end(old(self).buf@, a, b),
                    )
                    &&& final(self).cursor == ordered_start(old(self).buf@, a, b)
                    &&& final(self).anchor is None
                    &&& final(self).dirty
                },
            },
    {
        match self.selection_range() {
            None => {},
            Some((a, b)) => {
                self.cursor = self.buf.delete_range(a, b);
                self.anchor = None;
                self.dirty = true;
            },
        }
    }

    /// Replaces the selection with `text`, or inserts `text` at the cursor when
    /// nothing is selected. Nothing is recorded for undo.
    pub fn replace_selection_or_insert(&mut self, text: &str)
        requires
            old(self).wf(),
        ensures
            final(self).wf(),
            final(self).undo == old(self).undo,
            final(self).redo == old(self).redo,
            final(self).undo_capacity == old(self).undo_capacity,
            final(self).anchor is None || (spec_selection(old(self).cursor, old(self).anchor) is None
                && final(self).anchor == old(self).anchor),
            final(self).dirty,
            ({
                let (mid, at) = match spec_selection(old(self).cursor, old(self).anchor) {
                    None => (old(self).buf@, old(self).cursor),
                    Some((a, b)) => (
                        remove_between(
                            old(self).buf@,
                            ordered_start(old(self).buf@, a, b),
                            ordered_end(old(self).buf@, a, b),
                        ),
                        ordered_start(old(self).buf@, a, b),
                    ),
                };
                &&& final(self).buf@ == splice(mid, clamp(mid, at), insert_parts(text@))
                &&& final(self).cursor == end_of_insert(clamp(mid, at), insert_parts(text@))
            }),
    {
        self.delete_selection();
        self.cursor = self.buf.insert_str(self.cursor, text);
        self.dirty = true;
    }

    /// Moves the cursor to `p`, clamped to the document.
    pub fn set_cursor(&mut self, p: Pos)
        requires
            old(self).wf(),
        ensures
            final(self).wf(),
            final(self).cursor == clamp(old(self).buf@, p),
            final(self).buf == old(self).buf,
            final(self).anchor == old(self).anchor,
            final(self).undo == old(self).undo,
            final(self).redo == old(self).redo,
            final(self).undo_capacity == old(self).undo_capacity,
    {
        self.cursor = self.buf.clamp_pos(p);
    }

    /// Switches word wrap on or off; with wrap on there is no horizontal scroll.
    pub fn toggle_word_wrap(&mut self)
        ensures
            final(self).word_wrap == !old(self).word_wrap,
            final(self).word_wrap ==> final(self).scroll_x == 0,
            !final(self).word_wrap ==> final(self).scroll_x == old(self).scroll_x,
            final(self).buf == old(self).buf,
            final(self).cursor == old(self).cursor,
            final(self).anchor == old(self).anchor,
            final(self).undo == old(self).undo,
            final(self).redo == old(self).redo,
            final(self).undo_capacity == old(self).undo_capacity,
    {
        self.word_wrap = !self.word_wrap;
        if self.word_wrap {
            self.scroll_x = 0;
        }
    }

    /// Switches the line ending style used for saving; the document counts as
    /// changed.
    pub fn toggle_line_ending(&mut self)
        requires
            old(self).wf(),
        ensures
            final(self).wf(),
            final(self).buf@ == old(self).buf@,
            old(self).buf.spec_line_ending() == LineEnding::LF ==> final(self).buf.spec_line_ending() == LineEnding::CRLF,
            old(self).buf.spec_line_ending() == LineEnding::CRLF ==> final(self).buf.spec_line_ending() == LineEnding::LF,
            final(self).dirty,
            final(self).cursor == old(self).cursor,
            final(self).anchor == old(self).anchor,
            final(self).undo == old(self).undo,
            final(self).redo == old(self).redo,
            final(self).undo_capacity == old(self).undo_capacity,
    {
        let e = self.buf.line_ending().toggled();
        self.buf.set_line_ending(e);
        self.dirty = true;
    }

    /// The first match of `query` at or after `from`, wrapping to the top when
    /// `wrap` is set (see `Buffer::search_forward`).
    pub fn search_forward(&self, query: &str, from: Pos, wrap: bool) -> (r: Option<Pos>)
        requires
            self.wf(),
        ensures
            search_result(self.buf@, query@, from, wrap, r),
    {
        self.buf.search_forward(query, from, wrap)
    }

    /// Moves the cursor to the next match of `query` after it, wrapping to the
    /// top, and drops the selection. Returns whether a match was found; an empty
    /// query finds nothing.
    pub fn find_next(&mut self, query: &str) -> (r: bool)
        requires
            old(self).wf(),
        ensures
            final(self).wf(),
            final(self).buf == old(self).buf,
            final(self).undo == old(self).undo,
            final(self).redo == old(self).redo,
            final(self).undo_capacity == old(self).undo_capacity,
            r ==> search_result(old(self).buf@, query@, old(self).cursor, true, Some(final(self).cursor))
                && final(self).anchor is None,
            !r ==> search_result(old(self).buf@, query@, old(self).cursor, true, None)
                && final(self).cursor == old(self).cursor && final(self).anchor == old(self).anchor,
    {
        match self.buf.search_forward(query, self.cursor, true) {
            Some(p) => {
                self.cursor = p;
                self.anchor = None;
                true
            },
            None => false,
        }
    }

    /// Types `text`: a selection is first deleted and recorded as a deletion, then
    /// the insertion is recorded and applied at the cursor.
    pub fn insert_text(&mut self, text: &str)
        requires
            old(self).wf(),
        ensures
            final(self).wf(),
            final(self).undo_capacity == old(self).undo_capacity,
            final(self).redo@.len() == 0,
            final(self).anchor is None || (spec_selection(old(self).cursor, old(self).anchor) is None
                && final(self).anchor == old(self).anchor),
            ({
                let (mid, at) = match spec_selection(old(self).cursor, old(self).anchor) {
                    None => (old(self).buf@, old(self).cursor),
                    Some((a, b)) => (
                        remove_between(
                            old(self).buf@,
                            ordered_start(old(self).buf@, a, b),
                            ordered_end(old(self).buf@, a, b),
                        ),
                        ordered_start(old(self).buf@, a, b),
                    ),
                };
                let p = clamp(mid, at);
                &&& final(self).buf@ == splice(mid, p, insert_parts(text@))
                &&& final(self).cursor == end_of_insert(p, insert_parts(text@))
                &&& final(self).undo@.len() > 0
                &&& final(self).undo@.last().op == (EditOperation::Insert { pos: p, text: final(self).undo@.last().op->Insert_text })
                &&& final(self).undo@.last().op->Insert_text@ == text@
                &&& (old(self).history_ok() && (spec_selection(old(self).cursor, old(self).anchor) matches Some(
                    (a, b),
                ) ==> deletion_recordable(
                    old(self).buf@,
                    ordered_start(old(self).buf@, a, b),
                    ordered_end(old(self).buf@, a, b),
                )) && insertion_recordable(mid, p, text@) ==> final(self).history_ok())
            }),
    {
        self.delete_selection_recorded();
        let ghost d_mid = self.buf@;
        let ghost u_mid = self.undo@;
        let ghost ok_mid = self.history_ok();
        let p = self.buf.clamp_pos(self.cursor);
        self.cursor = p;
        let op = EditOperation::Insert { pos: p, text: string_from_str(text) };
        let ghost gop = op;
        let ghost entry = UndoEntry { op: gop, cursor_before: self.cursor, anchor_before: self.anchor };
        self.record_edit(op);
        self.cursor = self.buf.insert_str(p, text);
        self.dirty = true;
        proof {
            assert(clamp(d_mid, p) == p);
            if ok_mid && insertion_recordable(d_mid, p, text@) {
                lemma_insert_recorded(d_mid, p, gop);
                lemma_record_applied(d_mid, u_mid, entry, self.buf@, self.undo_capacity as nat);
            }
        }
    }

    /// Deletes the selection, if any, recording the deletion for undo.
    pub fn delete_selection_recorded(&mut self)
        requires
            old(self).wf(),
        ensures
            final(self).wf(),
            final(self).undo_capacity == old(self).undo_capacity,
            match spec_selection(old(self).cursor, old(self).anchor) {
                None => final(self).buf@ == old(self).buf@ && final(self).cursor == old(self).cursor
                    && final(self).anchor == old(self).anchor && final(self).undo == old(self).undo
                    && final(self).redo == old(self).redo,
                Some((a, b)) => {
                    let s = ordered_start(old(self).buf@, a, b);
                    let e = ordered_end(old(self).buf@, a, b);
                    &&& final(self).buf@ == remove_between(old(self).buf@, s, e)
                    &&& final(self).cursor == s
                    &&& final(self).anchor is None
                    &&& final(self).redo@.len() == 0
                    &&& final(self).undo@.len() > 0
                    &&& final(self).undo@.last().op == (EditOperation::Delete {
                        start: s,
                        end: e,
                        deleted_text: final(self).undo@.last().op->Delete_deleted_text,
                    })
                    &&& final(self).undo@.last().op->Delete_deleted_text@ == range_text(old(self).buf@, s, e)
                },
            },
            old(self).history_ok() && (spec_selection(old(self).cursor, old(self).anchor) matches Some(
                (a, b),
            ) ==> deletion_recordable(
                old(self).buf@,
                ordered_start(old(self).buf@, a, b),
                ordered_end(old(self).buf@, a, b),
            )) ==> final(self).history_ok(),
    {
        let ghost d0 = self.buf@;
        let ghost u0 = self.undo@;
        let ghost ok0 = self.history_ok();
        match self.selection_range() {
            None => {},
            Some((a, b)) => {
                let s = self.buf.clamp_pos(a);
                let e = self.buf.clamp_pos(b);
                let (s, e) = Pos::ordered(s, e);
                let deleted_text = self.buf.get_range(a, b);
                let op = EditOperation::Delete { start: s, end: e, deleted_text };
                let ghost gop = op;
                let ghost entry = UndoEntry { op: gop, cursor_before: self.cursor, anchor_before: self.anchor };
                self.record_edit(op);
                self.cursor = self.buf.delete_range(a, b);
                self.anchor = None;
                self.dirty = true;
                proof {
                    if ok0 && deletion_recordable(d0, s, e) {
                        lemma_delete_recorded(d0, s, e, gop);
                        lemma_record_applied(d0, u0, entry, self.buf@, self.undo_capacity as nat);
                    }
                }
            },
        }
    }

    /// Backspace: deletes the selection, or else the character before the cursor
    /// (joining lines at a line start), recording the deletion for undo. Nothing
    /// happens at the start of the document.
    pub fn backspace(&mut self)
        requires
            old(self).wf(),
        ensures
            final(self).wf(),
            final(self).undo_capacity == old(self).undo_capacity,
            spec_selection(old(self).cursor, old(self).anchor) is None ==> ({
                let q = clamp(old(self).buf@, old(self).cursor);
                if q.x > 0 || q.y > 0 {
                    let s = if q.x > 0 {
                        Pos { y: q.y, x: (q.x - 1) as usize }
                    } else {
                        Pos { y: (q.y - 1) as usize, x: old(self).buf@[q.y - 1].len() as usize }
                    };
                    &&& final(self).buf@ == remove_between(old(self).buf@, s, q)
                    &&& final(self).cursor == s
                    &&& final(self).undo@.len() > 0
                    &&& final(self).undo@.last().op == (EditOperation::Delete {
                        start: s,
                        end: q,
                        deleted_text: final(self).undo@.last().op->Delete_deleted_text,
                    })
                    &&& final(self).undo@.last().op->Delete_deleted_text@ == range_text(old(self).buf@, s, q)
                    &&& (old(self).history_ok() && deletion_recordable(old(self).buf@, s, q) ==> final(self).history_ok())
                } else {
                    &&& final(self).buf@ == old(self).buf@
                    &&& final(self).undo == old(self).undo
                    &&& final(self).redo == old(self).redo
                }
            }),
            spec_selection(old(self).cursor, old(self).anchor) is Some ==> ({
                let (a, b) = spec_selection(old(self).cursor, old(self).anchor)->0;
                &&& final(self).buf@ == remove_between(
                    old(self).buf@,
                    ordered_start(old(self).buf@, a, b),
                    ordered_end(old(self).buf@, a, b),
                )
                &&& final(self).cursor == ordered_start(old(self).buf@, a, b)
                &&& (old(self).history_ok() && deletion_recordable(
                    old(self).buf@,
                    ordered_start(old(self).buf@, a, b),
                    ordered_end(old(self).buf@, a, b),
                ) ==> final(self).history_ok())
            }),
    {
        if self.selection_range().is_some() {
            self.delete_selection_recorded();
            return;
        }
        let q = self.buf.clamp_pos(self.cursor);
        if q.x == 0 && q.y == 0 {
            return;
        }
        let s = if q.x > 0 {
            Pos { y: q.y, x: q.x - 1 }
        } else {
            Pos { y: q.y - 1, x: self.buf.line_len_chars(q.y - 1) }
        };
        let ghost d0 = self.buf@;
        let ghost u0 = self.undo@;
        let ghost ok0 = self.history_ok();
        let deleted_text = self.buf.get_range(s, q);
        let op = EditOperation::Delete { start: s, end: q, deleted_text };
        let ghost gop = op;
        let ghost entry = UndoEntry { op: gop, cursor_before: self.cursor, anchor_before: self.anchor };
        self.record_edit(op);
        self.cursor = self.buf.delete_backspace(q);
        self.dirty = true;
        proof {
            assert(clamp(d0, s) == s);
            assert(clamp(d0, q) == q);
            if ok0 && deletion_recordable(d0, s, q) {
                lemma_delete_recorded(d0, s, q, gop);
                lemma_record_applied(d0, u0, entry, self.buf@, self.undo_capacity as nat);
            }
        }
    }

    /// Delete key: deletes the selection, or else the character at the cursor
    /// (joining the next line at a line end), recording the deletion for undo.
    /// Nothing happens at the end of the document.
    pub fn delete_forward(&mut self)
        requires
            old(self).wf(),
        ensures
            final(self).wf(),
            final(self).undo_capacity == old(self).undo_capacity,
            spec_selection(old(self).cursor, old(self).anchor) is None ==> ({
                let ls = old(self).buf@;
                let q = clamp(ls, old(self).cursor);
                if q.x < ls[q.y as int].len() || q.y + 1 < ls.len() {
                    let e = if q.x < ls[q.y as int].len() {
                        Pos { y: q.y, x: (q.x + 1) as usize }
                    } else {
                        Pos { y: (q.y + 1) as usize, x: 0 }
                    };
                    &&& final(self).buf@ == remove_between(ls, q, e)
                    &&& final(self).cursor == q
                    &&& final(self).undo@.len() > 0
                    &&& final(self).undo@.last().op == (EditOperation::Delete {
                        start: q,
                        end: e,
                        deleted_text: final(self).undo@.last().op->Delete_deleted_text,
                    })
                    &&& final(self).undo@.last().op->Delete_deleted_text@ == range_text(ls, q, e)
                    &&& (old(self).history_ok() && deletion_recordable(ls, q, e) ==> final(self).history_ok())
                } else {
                    &&& final(self).buf@ == ls
                    &&& final(self).undo == old(self).undo
                    &&& final(self).redo == old(self).redo
                }
            }),
            spec_selection(old(self).cursor, old(self).anchor) is Some ==> ({
                let (a, b) = spec_selection(old(self).cursor, old(self).anchor)->0;
                &&& final(self).buf@ == remove_between(
                    old(self).buf@,
                    ordered_start(old(self).buf@, a, b),
                    ordered_end(old(self).buf@, a, b),
                )
                &&& final(self).cursor == ordered_start(old(self).buf@, a, b)
                &&& (old(self).history_ok() && deletion_recordable(
                    old(self).buf@,
                    ordered_start(old(self).buf@, a, b),
                    ordered_end(old(self).buf@, a, b),
                ) ==> final(self).history_ok())
            }),
    {
        if self.selection_range().is_some() {
            self.delete_selection_recorded();
            return;
        }
        let q = self.buf.clamp_pos(self.cursor);
        let len = self.buf.line_len_chars(q.y);
        let n = self.buf.line_count();
        let e = if q.x < len {
            Pos { y: q.y, x: q.x + 1 }
        } else if q.y < n - 1 {
            Pos { y: q.y + 1, x: 0 }
        } else {
            return;
        };
        let ghost d0 = self.buf@;
        let ghost u0 = self.undo@;
        let ghost ok0 = self.history_ok();
        let deleted_text = self.buf.get_range(q, e);
        let op = EditOperation::Delete { start: q, end: e, deleted_text };
        let ghost gop = op;
        let ghost entry = UndoEntry { op: gop, cursor_before: self.cursor, anchor_before: self.anchor };
        self.record_edit(op);
        self.cursor = self.buf.delete_delete(q);
        self.dirty = true;
        proof {
            assert(clamp(d0, q) == q);
            assert(clamp(d0, e) == e);
            if ok0 && deletion_recordable(d0, q, e) {
                lemma_delete_recorded(d0, q, e, gop);
                lemma_record_applied(d0, u0, entry, self.buf@, self.undo_capacity as nat);
            }
        }
    }
}

/// Applies the inverse of `op` to `buf` and returns that inverse.
fn apply_inverse_to(buf: &mut Buffer, op: EditOperation) -> (r: EditOperation)
    requires
        old(buf).wf(),
    ensures
        final(buf).wf(),
        final(buf)@ == apply_inverse(old(buf)@, op),
        r == inverse_of(op),
{
    match op {
        EditOperation::Insert { pos, text } => {
            let end = buf.calc_end_pos(pos, text.as_str());
            buf.delete_range(pos, end);
            EditOperation::Delete { start: pos, end, deleted_text: text }
        },
        EditOperation::Delete { start, end, deleted_text } => {
            buf.insert_str(start, deleted_text.as_str());
            EditOperation::Insert { pos: start, text: deleted_text }
        },
    }
}

} // verus!
