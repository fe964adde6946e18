//! The terminal: its size, and the sequences that control it.
use crate::strings;
use crate::util::Rect;
use vstd::prelude::*;

verus! {

/// `ansi_control_codes::control_sequences::CUP`, written out: the sequence that
/// moves the cursor to a line and a column.
#[verifier::external_body]
pub(crate) fn cursor_position(line: u32, column: u32) -> (r: String)
    ensures
        r@ == "\u{1b}["@ + strings::decimal(line as int) + ";"@ + strings::decimal(column as int)
            + "H"@,
{
    ansi_control_codes::control_sequences::CUP(Some(line), Some(column)).to_string()
}

/// `ansi_control_codes::control_sequences::ED`, written out with its default:
/// the sequence that erases everything from the cursor on.
#[verifier::external_body]
pub(crate) fn erase_display() -> (r: String)
    ensures
        r@ == "\u{1b}[0J"@,
{
    ansi_control_codes::control_sequences::ED(None).to_string()
}

/// `ansi_control_codes::control_sequences::CPL`, written out: the sequence that
/// moves the cursor to the start of the line that many lines up.
#[verifier::external_body]
pub(crate) fn previous_line(lines: u32) -> (r: String)
    ensures
        r@ == "\u{1b}["@ + strings::decimal(lines as int) + "F"@,
{
    ansi_control_codes::control_sequences::CPL(Some(lines)).to_string()
}

/// Keeps track of the size of the terminal.
#[derive(Debug)]
pub struct TerminalSizeWatcher {
    size: Rect,
}

impl TerminalSizeWatcher {
    /// The size as far as it is known.
    pub closed spec fn current(&self) -> Rect {
        self.size
    }

    /// Starts with the size of the terminal, in columns and rows. `None` means
    /// that the output is not a terminal; then there is no room at all.
    pub fn new(terminal: Option<(u16, u16)>) -> (r: Self)
        ensures
            r.current() == match terminal {
                Some((cols, rows)) => Rect { cols: cols as usize, rows: rows as usize },
                None => Rect { cols: 0, rows: 0 },
            },
    {
        let size = match terminal {
            Some((cols, rows)) => Rect { cols: cols as usize, rows: rows as usize },
            None => Rect { cols: 0, rows: 0 },
        };
        TerminalSizeWatcher { size }
    }

    /// Takes note of a new size, in columns and rows.
    pub fn resize(&mut self, cols: u16, rows: u16)
        ensures
            final(self).current() == (Rect { cols: cols as usize, rows: rows as usize }),
    {
        self.size = Rect { cols: cols as usize, rows: rows as usize };
    }

    /// Get the current size of the terminal
    pub fn size(&self) -> (r: Rect)
        ensures
            r == self.current(),
    {
        self.size
    }
}

} // verus!
