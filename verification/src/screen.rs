//! What the text menu makes of the user's input, and where it puts its texts.

use vstd::prelude::*;
use vstd::string::*;

verus! {

/// What the user picked in the main menu.
#[derive(Clone, Copy, Debug, PartialEq, Eq, Structural)]
pub enum MenuChoice {
    /// Scan a range of ports of one host.
    ScanHost,
    /// Scan a range of ports of a range of hosts.
    ScanRange,
    /// Leave the program.
    Quit,
    /// Anything else.
    Invalid,
}

/// The menu entry that the line `s` picks: `1`, `2` or `3`, and nothing
/// around it.
pub open spec fn menu_choice_of(s: Seq<char>) -> MenuChoice {
    if s == seq!['1'] {
        MenuChoice::ScanHost
    } else if s == seq!['2'] {
        MenuChoice::ScanRange
    } else if s == seq!['3'] {
        MenuChoice::Quit
    } else {
        MenuChoice::Invalid
    }
}

/// Whether `s` holds the character `c` and nothing else.
fn is_single_char(text: &str, c: char) -> (same: bool)
    ensures
        same == (text@ == seq![c]),
{
    let same = text.unicode_len() == 1 && text.get_char(0) == c;
    assert(same == (text@ =~= seq![c]));
    same
}

/// Reads the user's pick in the main menu.
pub fn menu_choice(line: &str) -> (choice: MenuChoice)
    ensures
        choice == menu_choice_of(line@),
{
    if is_single_char(line, '1') {
        MenuChoice::ScanHost
    } else if is_single_char(line, '2') {
        MenuChoice::ScanRange
    } else if is_single_char(line, '3') {
        MenuChoice::Quit
    } else {
        MenuChoice::Invalid
    }
}

/// Whether the answer to the question for a log file is a yes: a single `y`,
/// small or capital.
pub fn wants_log(answer: &str) -> (yes: bool)
    ensures
        yes == (answer@ == seq!['y'] || answer@ == seq!['Y']),
{
    is_single_char(answer, 'y') || is_single_char(answer, 'Y')
}

/// Whether `key` is the key that leads back to the menu: `r`, small or
/// capital.
pub fn is_return_key(key: char) -> (back: bool)
    ensures
        back == (key == 'r' || key == 'R'),
{
    key == 'r' || key == 'R'
}

/// The column at which a text of `text_len` characters starts so that it
/// stands in the middle of a line of `columns` columns. Columns count from 1;
/// a text wider than the line starts at column 1.
pub open spec fn centered_column_of(columns: nat, text_len: nat) -> nat {
    if columns < text_len + 2 {
        1
    } else {
        ((columns - text_len) / 2) as nat
    }
}

/// The column at which a text starts so that it stands centred.
pub fn centered_column(columns: u16, text_len: u16) -> (column: u16)
    ensures
        column == centered_column_of(columns as nat, text_len as nat),
        1 <= column,
{
    if columns < text_len {
        1
    } else {
        let half: u16 = (columns - text_len) / 2;
        if half < 1 {
            1
        } else {
            half
        }
    }
}

/// Number of columns between the two side lines of a border drawn around a
/// screen of `columns` columns.
pub fn inner_width(columns: u16) -> (width: u16)
    ensures
        width == if columns >= 2 { columns - 2 } else { 0 },
{
    if columns >= 2 {
        columns - 2
    } else {
        0
    }
}

} // verus!
