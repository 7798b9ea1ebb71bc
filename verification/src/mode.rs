//! Editor modes.

use vstd::prelude::*;

verus! {

#[derive(Copy, Clone, Debug, PartialEq, Eq, Structural)]
pub enum Mode {
    Normal,
    Insert,
    /// Like Insert, but typed characters overwrite the one under the cursor.
    Replace,
    /// The `:` command line.
    Command,
    /// Visual by character (`v`).
    Visual,
    /// Visual by line (`V`).
    VisualLine,
    /// Visual by block (`Ctrl-v`).
    VisualBlock,
}

/// Label of a mode in the status line.
pub open spec fn label_of(m: Mode) -> Seq<char> {
    match m {
        Mode::Normal => " NORMAL "@,
        Mode::Insert => " INSERT "@,
        Mode::Replace => " REPLACE "@,
        Mode::Command => " COMMAND "@,
        Mode::Visual => " VISUAL "@,
        Mode::VisualLine => " V-LINE "@,
        Mode::VisualBlock => " V-BLOCK "@,
    }
}

/// Colour of a mode's label, in the 256-colour palette.
pub open spec fn color_of(m: Mode) -> u8 {
    match m {
        Mode::Normal => 33,
        Mode::Insert => 46,
        Mode::Replace => 196,
        Mode::Command => 208,
        Mode::Visual | Mode::VisualLine | Mode::VisualBlock => 165,
    }
}

pub open spec fn visual(m: Mode) -> bool {
    m is Visual || m is VisualLine || m is VisualBlock
}

impl Mode {
    pub fn label(&self) -> (s: &'static str)
        ensures
            s@ == label_of(*self),
    {
        match self {
            Mode::Normal => " NORMAL ",
            Mode::Insert => " INSERT ",
            Mode::Replace => " REPLACE ",
            Mode::Command => " COMMAND ",
            Mode::Visual => " VISUAL ",
            Mode::VisualLine => " V-LINE ",
            Mode::VisualBlock => " V-BLOCK ",
        }
    }

    pub fn color(&self) -> (c: u8)
        ensures
            c == color_of(*self),
    {
        match self {
            Mode::Normal => 33,
            Mode::Insert => 46,
            Mode::Replace => 196,
            Mode::Command => 208,
            Mode::Visual | Mode::VisualLine | Mode::VisualBlock => 165,
        }
    }

    pub fn is_visual(&self) -> (r: bool)
        ensures
            r == visual(*self),
    {
        match self {
            Mode::Visual | Mode::VisualLine | Mode::VisualBlock => true,
            _ => false,
        }
    }
}

} // verus!
