//! The errors that the library reports.

use vstd::prelude::*;

verus! {

/// Why an input was turned down.
#[derive(Debug, Clone, Copy, PartialEq, Eq, Structural)]
pub enum Error {
    /// A line of a word list holds no word: it is empty, or holds a
    /// character that is no letter.
    InvalidInput,
    /// A binary file cannot be read: the bytes end too early, a header byte
    /// has a reserved bit set, a node announces more children than there are
    /// letters, or a child stands under a byte that is no letter.
    MalformedInput,
}

} // verus!
