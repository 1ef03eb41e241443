//! Cursor motions: character, line, page and word steps, with selection extension.

use vstd::prelude::*;
use crate::boundary::{next_boundary_of, prev_boundary_of, skip_class, WHITESPACE};
use crate::buffer::{clamp, valid_pos};
use crate::edit::Editor;
use crate::pos::Pos;

verus! {

/// A cursor motion, independent of the keys that trigger it.
#[derive(Clone, Copy, Debug, PartialEq, Eq, Structural)]
pub enum Motion {
    Left,
    Right,
    Up,
    Down,
    WordLeft,
    WordRight,
    /// To the first non-blank column of the previous line.
    LineBoundaryUp,
    /// To the first non-blank column of the next line.
    LineBoundaryDown,
    /// To the start of the document.
    Home,
    /// To the end of the document.
    End,
    PageUp,
    PageDown,
    /// One column left, staying on the line.
    ColumnLeft,
    /// One column right, staying on the line.
    ColumnRight,
}

pub open spec fn min_int(a: int, b: int) -> int {
    if a <= b { a } else { b }
}

/// Where `m` takes the valid position `p` in `ls`; a page is `page` rows.
pub open spec fn motion_target(ls: Seq<Seq<char>>, p: Pos, m: Motion, page: nat) -> Pos {
    let n = ls.len();
    let len = ls[p.y as int].len();
    let jump: int = if page >= 1 { page - 1 } else { 0 };
    match m {
        Motion::Left => if p.x > 0 {
            Pos { y: p.y, x: (p.x - 1) as usize }
        } else if p.y > 0 {
            Pos { y: (p.y - 1) as usize, x: ls[p.y - 1].len() as usize }
        } else {
            p
        },
        Motion::Right => if p.x < len {
            Pos { y: p.y, x: (p.x + 1) as usize }
        } else if p.y + 1 < n {
            Pos { y: (p.y + 1) as usize, x: 0 }
        } else {
            p
        },
        Motion::Up => if p.y > 0 {
            Pos { y: (p.y - 1) as usize, x: min_int(p.x as int, ls[p.y - 1].len() as int) as usize }
        } else {
            p
        },
        Motion::Down => if p.y + 1 < n {
            Pos { y: (p.y + 1) as usize, x: min_int(p.x as int, ls[p.y + 1].len() as int) as usize }
        } else {
            p
        },
        Motion::WordLeft => prev_boundary_of(ls, p),
        Motion::WordRight => next_boundary_of(ls, p),
        Motion::LineBoundaryUp => if p.y > 0 {
            Pos { y: (p.y - 1) as usize, x: skip_class(ls[p.y - 1], 0, WHITESPACE) as usize }
        } else {
            Pos { y: 0, x: 0 }
        },
        Motion::LineBoundaryDown => if p.y + 1 < n {
            Pos { y: (p.y + 1) as usize, x: skip_class(ls[p.y + 1], 0, WHITESPACE) as usize }
        } else {
            Pos { y: p.y, x: len as usize }
        },
        Motion::Home => Pos { y: 0, x: 0 },
        Motion::End => Pos { y: (n - 1) as usize, x: ls[n - 1].len() as usize },
        Motion::PageUp => {
            let y = if p.y >= jump { p.y - jump } else { 0 };
            Pos { y: y as usize, x: min_int(p.x as int, ls[y].len() as int) as usize }
        },
        Motion::PageDown => {
            let y = min_int(p.y + jump, n - 1);
            Pos { y: y as usize, x: min_int(p.x as int, ls[y].len() as int) as usize }
        },
        Motion::ColumnLeft => Pos { y: p.y, x: if p.x > 0 { (p.x - 1) as usize } else { 0 } },
        Motion::ColumnRight => Pos { y: p.y, x: min_int(p.x + 1, len as int) as usize },
    }
}

impl Editor {
    /// Moves the cursor by `m` from its clamped position, in a view `page` rows
    /// high. With `selecting`, a selection starts at the old cursor unless one is
    /// under way; without it the selection is dropped.
    pub fn move_cursor(&mut self, m: Motion, selecting: bool, page: usize)
        requires
            old(self).wf(),
        ensures
            final(self).wf(),
            final(self).buf == old(self).buf,
            final(self).undo == old(self).undo,
            final(self).redo == old(self).redo,
            final(self).undo_capacity == old(self).undo_capacity,
            final(self).cursor == clamp(
                old(self).buf@,
                motion_target(old(self).buf@, clamp(old(self).buf@, old(self).cursor), m, page as nat),
            ),
            valid_pos(final(self).buf@, final(self).cursor),
            selecting && old(self).anchor is None ==> final(self).anchor == Some(old(self).cursor),
            selecting && old(self).anchor is Some ==> final(self).anchor == old(self).anchor,
            !selecting ==> final(self).anchor is None,
    {
        if selecting {
            if self.anchor.is_none() {
                self.anchor = Some(self.cursor);
            }
        } else {
            self.anchor = None;
        }
        let p = self.buf.clamp_pos(self.cursor);
        let n = self.buf.line_count();
        let len = self.buf.line_len_chars(p.y);
        let jump = if page >= 1 { page - 1 } else { 0 };
        let t = match m {
            Motion::Left => {
                if p.x > 0 {
                    Pos { y: p.y, x: p.x - 1 }
                } else if p.y > 0 {
                    Pos { y: p.y - 1, x: self.buf.line_len_chars(p.y - 1) }
                } else {
                    p
                }
            },
            Motion::Right => {
                if p.x < len {
                    Pos { y: p.y, x: p.x + 1 }
                } else if p.y < n - 1 {
                    Pos { y: p.y + 1, x: 0 }
                } else {
                    p
                }
            },
            Motion::Up => {
                if p.y > 0 {
                    let l = self.buf.line_len_chars(p.y - 1);
                    Pos { y: p.y - 1, x: if p.x <= l { p.x } else { l } }
                } else {
                    p
                }
            },
            Motion::Down => {
                if p.y < n - 1 {
                    let l = self.buf.line_len_chars(p.y + 1);
                    Pos { y: p.y + 1, x: if p.x <= l { p.x } else { l } }
                } else {
                    p
                }
            },
            Motion::WordLeft => self.buf.prev_boundary(p),
            Motion::WordRight => self.buf.next_boundary(p),
            Motion::LineBoundaryUp => self.buf.prev_line_boundary(p),
            Motion::LineBoundaryDown => self.buf.next_line_boundary(p),
            Motion::Home => Pos { y: 0, x: 0 },
            Motion::End => Pos { y: n - 1, x: self.buf.line_len_chars(n - 1) },
            Motion::PageUp => {
                let y = if p.y >= jump { p.y - jump } else { 0 };
                let l = self.buf.line_len_chars(y);
                Pos { y, x: if p.x <= l { p.x } else { l } }
            },
            Motion::PageDown => {
                let y = if jump <= n - 1 - p.y { p.y + jump } else { n - 1 };
                let l = self.buf.line_len_chars(y);
                Pos { y, x: if p.x <= l { p.x } else { l } }
            },
            Motion::ColumnLeft => Pos { y: p.y, x: if p.x > 0 { p.x - 1 } else { 0 } },
            Motion::ColumnRight => Pos { y: p.y, x: if p.x < len { p.x + 1 } else { len } },
        };
        self.cursor = self.buf.clamp_pos(t);
    }
}

} // verus!
