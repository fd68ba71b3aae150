//! Presentation state the renderer reads: the color class derived from a
//! status code, the cursor of the status panel, and the modal descriptors.

use vstd::prelude::*;
use vstd::string::StringExecFns;

verus! {

/// The color class a status code is painted with.
#[derive(Clone, Copy, PartialEq, Eq, Structural, Debug)]
pub enum StatusColor {
    Blue,
    Green,
    Red,
    LightRed,
    Yellow,
    DarkGray,
    Cyan,
    Magenta,
    LightMagenta,
    Plain,
}

/// The color class of a single status character.
pub open spec fn char_color(c: char) -> StatusColor {
    if c == 'M' {
        StatusColor::Blue
    } else if c == 'A' {
        StatusColor::Green
    } else if c == 'D' {
        StatusColor::Red
    } else if c == 'C' {
        StatusColor::LightRed
    } else if c == '?' {
        StatusColor::Yellow
    } else if c == '!' {
        StatusColor::LightRed
    } else if c == 'I' {
        StatusColor::DarkGray
    } else if c == 'R' {
        StatusColor::Cyan
    } else if c == 'X' {
        StatusColor::Magenta
    } else if c == '~' {
        StatusColor::LightMagenta
    } else {
        StatusColor::Plain
    }
}

/// The color class of a state token: one-character tokens get their
/// character's color, anything else the plain style.
pub open spec fn color_of(state: Seq<char>) -> StatusColor {
    if state.len() == 1 {
        char_color(state[0])
    } else {
        StatusColor::Plain
    }
}

/// Maps a state token to the color class its row is painted with.
pub fn style_for_status(state: &Vec<char>) -> (c: StatusColor)
    ensures
        c == color_of(state@),
{
    if state.len() != 1 {
        return StatusColor::Plain;
    }
    let ch = state[0];
    if ch == 'M' {
        StatusColor::Blue
    } else if ch == 'A' {
        StatusColor::Green
    } else if ch == 'D' {
        StatusColor::Red
    } else if ch == 'C' {
        StatusColor::LightRed
    } else if ch == '?' {
        StatusColor::Yellow
    } else if ch == '!' {
        StatusColor::LightRed
    } else if ch == 'I' {
        StatusColor::DarkGray
    } else if ch == 'R' {
        StatusColor::Cyan
    } else if ch == 'X' {
        StatusColor::Magenta
    } else if ch == '~' {
        StatusColor::LightMagenta
    } else {
        StatusColor::Plain
    }
}

/// Cursor and error flag of the status panel.
#[derive(Clone, Copy, PartialEq, Eq, Structural, Debug)]
pub struct BlockRenderStatus {
    pub idx_selected: usize,
    pub error: bool,
}

impl BlockRenderStatus {
    pub fn new() -> (s: Self)
        ensures
            s.idx_selected == 0,
            !s.error,
    {
        BlockRenderStatus { idx_selected: 0, error: false }
    }
}

/// The project path shown in the header.
pub struct ProjectInfo {
    pub path: String,
}

impl ProjectInfo {
    pub fn new(path: String) -> (p: Self)
        ensures
            p.path@ == path@,
    {
        ProjectInfo { path }
    }
}

/// Title and body of the modal dialog.
pub struct ModalInfo {
    pub title: String,
    pub message: String,
}

impl ModalInfo {
    pub fn new() -> (m: Self)
        ensures
            m.title@ == "Void"@,
            m.message@ == Seq::<char>::empty(),
    {
        ModalInfo { title: String::from_str("Void"), message: String::new() }
    }
}

/// How the modal dialog is styled, or that none is shown.
#[derive(Clone, Copy, PartialEq, Eq, Structural, Debug)]
pub enum ModalType {
    Info,
    Warning,
    Error,
    Hidden,
}

impl Default for ModalType {
    fn default() -> (m: Self)
        ensures
            m == ModalType::Info,
    {
        ModalType::Info
    }
}

} // verus!
