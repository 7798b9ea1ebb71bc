//! The editor: its state, and what each key does to it.

pub mod state;
pub mod cursor;
pub mod ops;
pub mod motions;
pub mod visual;
pub mod blocks;
pub mod items;
pub mod refs;
pub mod sorting;
pub mod typed;
pub mod typing;
pub mod spelling;
pub mod repeat;
pub mod rows;
pub mod paint;
pub mod stats;
pub mod popups;
pub mod markup;
pub mod assist;
pub mod laws;
pub mod screen;
pub mod actions;
pub mod again;
pub mod leader;
pub mod normal;
pub mod pressed;
pub mod select;
pub mod selections;
pub mod substitute;
pub mod command;
pub mod edits;
pub mod feed;
pub mod following;
