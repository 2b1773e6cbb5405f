//! A solver for word games: a dictionary of upper-case words, held as a
//! prefix tree, that lists the words a rack of letters can spell.
//!
//! - [`alphabet`]: the letters, and what counts as a word.
//! - [`trie`]: the prefix tree as a mathematical value, and insertion.
//! - [`dictionnary`]: the tree in memory.
//! - [`solver`]: the words that a rack can spell.
//! - [`codec`]: the binary file format.
//! - [`files`]: which kind of file a path names.
//! - [`text`]: strings from letters.
//! - [`error`]: the errors.

pub mod alphabet;
pub mod codec;
pub mod dictionnary;
pub mod error;
pub mod files;
pub mod solver;
pub mod text;
pub mod trie;
