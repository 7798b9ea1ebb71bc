//! A modal text editor core: text, undo tree, motions, operators and the
//! editor state machine.

pub mod buffer;
pub mod calendar;
pub mod chars;
pub mod cols;
pub mod config;
pub mod dates;
pub mod editor;
pub mod export;
pub mod fold;
pub mod help;
pub mod keys;
pub mod layout;
pub mod lines;
pub mod marks;
pub mod mode;
pub mod motion;
pub mod number;
pub mod pattern;
pub mod picker;
pub mod popup;
pub mod preferences;
pub mod refill;
pub mod register;
pub mod render;
pub mod rope;
pub mod search;
pub mod spell;
pub mod start;
pub mod strs;
pub mod text;
pub mod textobj;
pub mod wrap;
