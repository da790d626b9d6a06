//! The model of a file tree explorer: which entries of a directory tree are shown, in
//! which order, with which marks, and what each key does to that state.
//!
//! The library performs no input or output. What is read from the disk or printed by
//! `git` comes in as plain values, and what has to be done outside goes out as plain
//! values too.

pub mod distinct;
pub mod entries;
pub mod explorer;
pub mod git;
pub mod guides;
pub mod icon;
pub mod listing;
pub mod marks;
pub mod node;
pub mod order;
pub mod path;
pub mod path_map;
pub mod refresh;
pub mod shape;
pub mod shown;
pub mod spelling;
pub mod steady;
pub mod text;
pub mod tree;
pub mod width;
