//! Fuzzy directory finder: narrows a set of candidate directories level by
//! level, scoring the names of directory entries against one pattern per
//! level, ranking the matches and keeping the best ones.
//!
//! The library never touches the filesystem itself. Directory listings are
//! handed to it as plain values, either one directory at a time (see
//! [`traversal::Traversal`]) or recorded beforehand (see
//! [`traversal::traverse_patterns`]).
//!
//! - [`matcher`] scores one name against one pattern.
//! - [`ranking`] sorts the candidates of a level and cuts them to the cap.
//! - [`traversal`] is the engine itself, [`laws`] what holds of it.
//! - [`selection`] decides which match is emitted.
//! - [`settings`] reads the settings given on the command line.

pub mod candidate;
pub mod laws;
pub mod matcher;
pub mod ranking;
pub mod selection;
pub mod settings;
pub mod text;
pub mod traversal;
