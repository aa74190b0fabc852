//! What is put on the screen around the rows: its size, the cell of the
//! cursor and the line of welcome.

use crate::text::{chars_of, string_of};
use crate::Position;
use vstd::prelude::*;

verus! {

/// The part of the terminal that shows rows, in cells.
pub struct Size {
    pub width: u16,
    pub height: u16,
}

/// The rows of the terminal that are kept free below the rows of text.
pub const RESERVED_ROWS: u16 = 2;

impl Size {
    /// The part that shows rows of a terminal of `columns` by `rows` cells:
    /// all columns, and all rows but those kept free, as far as there are
    /// that many.
    pub fn of_terminal(columns: u16, rows: u16) -> (size: Size)
        ensures
            size.width == columns,
            size.height == if rows >= RESERVED_ROWS {
                rows - RESERVED_ROWS
            } else {
                0
            },
    {
        Size { width: columns, height: rows.saturating_sub(RESERVED_ROWS) }
    }
}

/// The cell, counted from one, of a position counted from zero; nothing
/// where a coordinate of the cell does not fit in 16 bits.
pub open spec fn cell_of(position: Position) -> Option<(u16, u16)> {
    if position.x < u16::MAX && position.y < u16::MAX {
        Some(((position.x + 1) as u16, (position.y + 1) as u16))
    } else {
        None
    }
}

/// The cell of the terminal at which the cursor stands for `position`.
pub fn cursor_cell(position: &Position) -> (cell: Option<(u16, u16)>)
    ensures
        cell == cell_of(*position),
{
    if position.x < 0xffff && position.y < 0xffff {
        Some(((position.x + 1) as u16, (position.y + 1) as u16))
    } else {
        None
    }
}

/// The words of welcome for a version of the editor.
pub open spec fn welcome_message(version: Seq<char>) -> Seq<char> {
    "Hector editor -- version "@ + version
}

/// The number of spaces before the words of welcome on a line of `width`
/// cells: one less than half of what the words leave free, and none where
/// that is less than one.
pub open spec fn welcome_padding(length: nat, width: nat) -> nat {
    let free = if width >= length {
        width - length
    } else {
        0
    };
    if free / 2 >= 1 {
        (free / 2 - 1) as nat
    } else {
        0
    }
}

/// The line of welcome on a screen of `width` cells: a tilde, the padding
/// and the words, cut off after `width` characters.
pub open spec fn welcome_line(version: Seq<char>, width: nat) -> Seq<char> {
    let message = welcome_message(version);
    let line = seq!['~'] + Seq::new(welcome_padding(message.len(), width), |i: int| ' ') + message;
    if line.len() > width {
        line.take(width as int)
    } else {
        line
    }
}

/// The line that greets the user on an empty screen of the given size.
pub fn welcome(version: &str, size: &Size) -> (line: String)
    ensures
        line@ == welcome_line(version@, size.width as nat),
{
    let width: usize = size.width as usize;
    let mut message = String::from_str("Hector editor -- version ");
    message.append(version);
    let words = chars_of(message.as_str());
    let len = words.len();
    let free: usize = if width >= len {
        width - len
    } else {
        0
    };
    let padding: usize = if free / 2 >= 1 {
        free / 2 - 1
    } else {
        0
    };
    let mut line: Vec<char> = Vec::new();
    line.push('~');
    let mut i: usize = 0;
    while i < padding
        invariant
            i <= padding,
            line@ == seq!['~'] + Seq::new(i as nat, |k: int| ' '),
        decreases padding - i,
    {
        line.push(' ');
        i += 1;
    }
    let mut j: usize = 0;
    while j < len && line.len() < width
        invariant
            j <= len == words@.len(),
            line@ == seq!['~'] + Seq::new(padding as nat, |k: int| ' ') + words@.take(j as int),
            line@.len() <= width || j == 0,
        decreases len - j,
    {
        line.push(words[j]);
        j += 1;
    }
    let shown: usize = if line.len() > width {
        width
    } else {
        line.len()
    };
    let ghost whole = seq!['~'] + Seq::new(padding as nat, |k: int| ' ') + words@;
    assert(line@.take(shown as int) =~= if whole.len() > width {
        whole.take(width as int)
    } else {
        whole
    });
    string_of(line.as_slice(), 0, shown)
}

} // verus!
