//! Positions in a document and small value types shared by the editor.

use vstd::prelude::*;

verus! {

/// A location in the document: `y` is the line index, `x` the column counted in
/// Unicode scalar values from the start of the line.
#[derive(Clone, Copy, Debug, PartialEq, Eq, Structural)]
pub struct Pos {
    pub y: usize,
    pub x: usize,
}

/// The total order on positions: by line, then by column.
pub open spec fn pos_le(a: Pos, b: Pos) -> bool {
    a.y < b.y || (a.y == b.y && a.x <= b.x)
}

pub open spec fn pos_lt(a: Pos, b: Pos) -> bool {
    a.y < b.y || (a.y == b.y && a.x < b.x)
}

impl Pos {
    pub fn new(y: usize, x: usize) -> (r: Pos)
        ensures
            r.y == y,
            r.x == x,
    {
        Pos { y, x }
    }

    /// `self <= other` in document order.
    pub fn le(&self, other: &Pos) -> (r: bool)
        ensures
            r == pos_le(*self, *other),
    {
        self.y < other.y || (self.y == other.y && self.x <= other.x)
    }

    /// The two positions in document order.
    pub fn ordered(a: Pos, b: Pos) -> (r: (Pos, Pos))
        ensures
            pos_le(a, b) ==> r == (a, b),
            !pos_le(a, b) ==> r == (b, a),
    {
        if a.le(&b) {
            (a, b)
        } else {
            (b, a)
        }
    }
}

/// The character sequence that separates lines in the file on disk.
#[derive(Clone, Copy, Debug, PartialEq, Eq, Structural)]
pub enum LineEnding {
    /// `\n`
    LF,
    /// `\r\n`
    CRLF,
}

impl LineEnding {
    pub open spec fn spec_chars(self) -> Seq<char> {
        match self {
            LineEnding::LF => seq!['\n'],
            LineEnding::CRLF => seq!['\r', '\n'],
        }
    }

    /// The separator as text.
    pub fn as_str(&self) -> (r: &'static str)
        ensures
            r@ == self.spec_chars(),
    {
        match self {
            LineEnding::LF => {
                let s = "\n";
                proof { reveal_strlit("\n"); }
                s
            },
            LineEnding::CRLF => {
                let s = "\r\n";
                proof { reveal_strlit("\r\n"); }
                s
            },
        }
    }

    /// A human-readable name of the style.
    pub fn name(&self) -> (r: &'static str)
        ensures
            *self == LineEnding::LF ==> r@ == "Unix (LF)"@,
            *self == LineEnding::CRLF ==> r@ == "Windows (CRLF)"@,
    {
        match self {
            LineEnding::LF => "Unix (LF)",
            LineEnding::CRLF => "Windows (CRLF)",
        }
    }

    /// The other style.
    pub fn toggled(&self) -> (r: LineEnding)
        ensures
            *self == LineEnding::LF ==> r == LineEnding::CRLF,
            *self == LineEnding::CRLF ==> r == LineEnding::LF,
    {
        match self {
            LineEnding::LF => LineEnding::CRLF,
            LineEnding::CRLF => LineEnding::LF,
        }
    }
}

} // verus!
