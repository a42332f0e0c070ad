//! A scrollback engine for a line-oriented terminal client: a greedy word
//! wrapper, a wrapped view over an append-only history, a damage-tracked
//! character grid, and a single-line input editor.

pub mod chars;
pub mod wrap;
pub mod cache;
pub mod view;
pub mod damage;
pub mod escape;
pub mod input;
pub mod events;
