//! Rebuilds the nesting of files that a C preprocessor pulled in, from the
//! line markers it leaves in its output.
//!
//! A line marker such as `# 12 "dir/a.h" 1 3` gives a line number, a path and
//! some flags. Flag `1` enters a file, flag `2` returns to the enclosing one;
//! every other marker only moves the line counter. The tree has one node for
//! each file entered, labelled with the line of the enclosing file at which it
//! was entered and with its path.
//!
//! - [`flags`]: the flags and sets of them.
//! - [`text`]: characters, prefixes and decimal numbers.
//! - [`pattern`]: what is asked of the `regex` crate.
//! - [`directive`]: from one line to one event.
//! - [`tree`]: the tree and its transitions, with what holds of every state.
//! - [`trace`]: from a whole input to the tree.
//! - [`render`]: the tree as an item that the `ptree` crate prints.

pub mod directive;
pub mod flags;
pub mod pattern;
pub mod render;
pub mod text;
pub mod trace;
pub mod tree;
