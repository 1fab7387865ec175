//! The menu vocabulary: mapping a line of user text to a menu action, an
//! edit choice, or a yes/no confirmation.

use vstd::prelude::*;

verus! {

/// One of the five top-level menu actions.
#[derive(Clone, Copy, Debug, PartialEq, Eq, Structural)]
pub enum MenuOption {
    Add,
    View,
    Remove,
    Edit,
    Exit,
}

/// Which fields of a bill an edit touches.
#[derive(Clone, Copy, Debug, PartialEq, Eq, Structural)]
pub enum EditField {
    Name,
    Amount,
    Both,
}

/// The menu action selected by a line of input: the single digits "1" to "5",
/// anything else selects nothing.
pub open spec fn spec_menu_option(s: Seq<char>) -> Option<MenuOption> {
    if s.len() != 1 {
        None
    } else if s[0] == '1' {
        Some(MenuOption::Add)
    } else if s[0] == '2' {
        Some(MenuOption::View)
    } else if s[0] == '3' {
        Some(MenuOption::Remove)
    } else if s[0] == '4' {
        Some(MenuOption::Edit)
    } else if s[0] == '5' {
        Some(MenuOption::Exit)
    } else {
        None
    }
}

/// Maps a line of input to a menu action, or to `None` when the line is not
/// one of the options "1" to "5".
pub fn choose_menu_option(input: &str) -> (r: Option<MenuOption>)
    ensures
        r == spec_menu_option(input@),
{
    if input.unicode_len() != 1 {
        return None;
    }
    let c = input.get_char(0);
    match c {
        '1' => Some(MenuOption::Add),
        '2' => Some(MenuOption::View),
        '3' => Some(MenuOption::Remove),
        '4' => Some(MenuOption::Edit),
        '5' => Some(MenuOption::Exit),
        _ => None,
    }
}

/// The edit choice selected by a line of input: "1" edits the name, "2" the
/// amount, "3" both; anything else selects nothing.
pub open spec fn spec_edit_field(s: Seq<char>) -> Option<EditField> {
    if s.len() != 1 {
        None
    } else if s[0] == '1' {
        Some(EditField::Name)
    } else if s[0] == '2' {
        Some(EditField::Amount)
    } else if s[0] == '3' {
        Some(EditField::Both)
    } else {
        None
    }
}

/// Maps a line of input to an edit choice, or to `None` when the line is not
/// one of the options "1" to "3".
pub fn choose_edit_field(input: &str) -> (r: Option<EditField>)
    ensures
        r == spec_edit_field(input@),
{
    if input.unicode_len() != 1 {
        return None;
    }
    let c = input.get_char(0);
    match c {
        '1' => Some(EditField::Name),
        '2' => Some(EditField::Amount),
        '3' => Some(EditField::Both),
        _ => None,
    }
}

/// Whether a line of input is the word "yes", compared without regard to
/// ASCII letter case. Any other line, "no" included, declines.
pub open spec fn spec_is_yes(s: Seq<char>) -> bool {
    &&& s.len() == 3
    &&& (s[0] == 'y' || s[0] == 'Y')
    &&& (s[1] == 'e' || s[1] == 'E')
    &&& (s[2] == 's' || s[2] == 'S')
}

/// Reads a confirmation line: true exactly when the line is "yes" up to
/// ASCII letter case.
pub fn confirmation_is_yes(input: &str) -> (r: bool)
    ensures
        r == spec_is_yes(input@),
{
    if input.unicode_len() != 3 {
        return false;
    }
    let c0 = input.get_char(0);
    let c1 = input.get_char(1);
    let c2 = input.get_char(2);
    (c0 == 'y' || c0 == 'Y') && (c1 == 'e' || c1 == 'E') && (c2 == 's' || c2 == 'S')
}

} // verus!
