//! Small value types shared with the editor's front end: prompts, plugin hooks
//! and syntax-highlight colours, rules and spans.

use vstd::prelude::*;
use crate::text::chars_eq_str;
use crate::utils::chars_of;

verus! {

/// The kinds of bottom-line prompt.
#[derive(Clone, Copy, Debug, PartialEq, Eq, Structural)]
pub enum PromptKind {
    Open,
    SaveAs,
    Find,
    Command,
    GotoLine,
}

/// What the user is typing in the bottom line.
#[derive(Clone, Debug)]
pub struct Prompt {
    pub kind: PromptKind,
    pub input: String,
    /// Cursor within `input`, in characters.
    pub cursor: usize,
}

impl Prompt {
    /// A prompt pre-filled with `initial`, the cursor after its last character.
    pub fn new(kind: PromptKind, initial: &str) -> (r: Prompt)
        ensures
            r.kind == kind,
            r.input@ == initial@,
            r.cursor == initial@.len(),
    {
        let cs = chars_of(initial);
        Prompt { kind, input: crate::text::string_from_str(initial), cursor: cs.len() }
    }
}

/// Lifecycle events that plugins may react to.
#[derive(Clone, Copy, Debug, PartialEq, Eq, Structural)]
pub enum Hook {
    OnOpen,
    OnSave,
}

/// Colours available for syntax highlighting.
#[derive(Clone, Copy, Debug, PartialEq, Eq, Structural)]
pub enum HighlightColor {
    Red,
    Green,
    Yellow,
    Blue,
    Magenta,
    Cyan,
    White,
    Grey,
    BrightRed,
    BrightGreen,
    BrightYellow,
    BrightBlue,
    BrightMagenta,
    BrightCyan,
}

/// The lower-case form of `s` as Unicode case mapping gives it.
pub uninterp spec fn lowercase_of(s: Seq<char>) -> Seq<char>;

/// Relies on `str::to_lowercase`: the Unicode lower-case mapping of `s`, which
/// depends on the characters alone.
#[verifier::external_body]
pub(crate) fn to_lowercase(s: &str) -> (r: String)
    ensures
        r@ == lowercase_of(s@),
{
    s.to_lowercase()
}

/// The colour a lower-case name stands for.
pub open spec fn color_named(n: Seq<char>) -> Option<HighlightColor> {
    if n == "red"@ {
        Some(HighlightColor::Red)
    } else if n == "green"@ {
        Some(HighlightColor::Green)
    } else if n == "yellow"@ {
        Some(HighlightColor::Yellow)
    } else if n == "blue"@ {
        Some(HighlightColor::Blue)
    } else if n == "magenta"@ || n == "purple"@ {
        Some(HighlightColor::Magenta)
    } else if n == "cyan"@ {
        Some(HighlightColor::Cyan)
    } else if n == "white"@ {
        Some(HighlightColor::White)
    } else if n == "grey"@ || n == "gray"@ {
        Some(HighlightColor::Grey)
    } else if n == "bright_red"@ || n == "brightred"@ {
        Some(HighlightColor::BrightRed)
    } else if n == "bright_green"@ || n == "brightgreen"@ {
        Some(HighlightColor::BrightGreen)
    } else if n == "bright_yellow"@ || n == "brightyellow"@ {
        Some(HighlightColor::BrightYellow)
    } else if n == "bright_blue"@ || n == "brightblue"@ {
        Some(HighlightColor::BrightBlue)
    } else if n == "bright_magenta"@ || n == "brightmagenta"@ {
        Some(HighlightColor::BrightMagenta)
    } else if n == "bright_cyan"@ || n == "brightcyan"@ {
        Some(HighlightColor::BrightCyan)
    } else {
        None
    }
}

impl HighlightColor {
    /// The colour for a name already in lower case.
    pub fn from_lowercase_name(name: &str) -> (r: Option<HighlightColor>)
        ensures
            r == color_named(name@),
    {
        let n = chars_of(name);
        if chars_eq_str(&n, "red") {
            Some(HighlightColor::Red)
        } else if chars_eq_str(&n, "green") {
            Some(HighlightColor::Green)
        } else if chars_eq_str(&n, "yellow") {
            Some(HighlightColor::Yellow)
        } else if chars_eq_str(&n, "blue") {
            Some(HighlightColor::Blue)
        } else if chars_eq_str(&n, "magenta") || chars_eq_str(&n, "purple") {
            Some(HighlightColor::Magenta)
        } else if chars_eq_str(&n, "cyan") {
            Some(HighlightColor::Cyan)
        } else if chars_eq_str(&n, "white") {
            Some(HighlightColor::White)
        } else if chars_eq_str(&n, "grey") || chars_eq_str(&n, "gray") {
            Some(HighlightColor::Grey)
        } else if chars_eq_str(&n, "bright_red") || chars_eq_str(&n, "brightred") {
            Some(HighlightColor::BrightRed)
        } else if chars_eq_str(&n, "bright_green") || chars_eq_str(&n, "brightgreen") {
            Some(HighlightColor::BrightGreen)
        } else if chars_eq_str(&n, "bright_yellow") || chars_eq_str(&n, "brightyellow") {
            Some(HighlightColor::BrightYellow)
        } else if chars_eq_str(&n, "bright_blue") || chars_eq_str(&n, "brightblue") {
            Some(HighlightColor::BrightBlue)
        } else if chars_eq_str(&n, "bright_magenta") || chars_eq_str(&n, "brightmagenta") {
            Some(HighlightColor::BrightMagenta)
        } else if chars_eq_str(&n, "bright_cyan") || chars_eq_str(&n, "brightcyan") {
            Some(HighlightColor::BrightCyan)
        } else {
            None
        }
    }

    /// The colour for a name in any letter case (for plugins).
    pub fn from_str(s: &str) -> (r: Option<HighlightColor>)
        ensures
            r == color_named(lowercase_of(s@)),
    {
        let lower = to_lowercase(s);
        HighlightColor::from_lowercase_name(lower.as_str())
    }
}

/// A highlighting rule registered by a plugin.
#[derive(Clone, Debug)]
pub struct HighlightRule {
    /// Pattern to match.
    pub pattern: String,
    pub color: HighlightColor,
    /// Higher priority rules win over lower ones.
    pub priority: i32,
    /// Which capture group to colour (0 = the whole match).
    pub group: usize,
}

/// A coloured span of one line, in characters.
#[derive(Clone, Copy, Debug, PartialEq, Eq, Structural)]
pub struct HighlightSpan {
    /// First character (inclusive).
    pub start: usize,
    /// Last character (exclusive).
    pub end: usize,
    pub color: HighlightColor,
    pub priority: i32,
}

} // verus!
