//! Error values reported by the storage core and the statement parser.
//!
//! The core never builds display text itself; callers that print format
//! these values, using the fields that carry the offending index or tag.

use vstd::prelude::*;

verus! {

/// A failure of the storage core: bounds, capacity, cache consistency or
/// a corrupt page image.
#[derive(Clone, Copy, Debug, PartialEq, Eq, Structural)]
pub enum DbError {
    /// A page index at or beyond the page-table capacity was requested.
    PageOutOfBounds { page_num: usize, limit: usize },
    /// A flush was asked of a page that was never cached.
    NullPage { page_num: usize },
    /// The leaf node has no room for another cell.
    NodeFull,
    /// The page exists on disk but its bytes were not handed to the cache
    /// yet; the caller must read them and install them first.
    PageNotLoaded { page_num: usize },
    /// A page image carries a node-type tag that maps to no known variant.
    UnknownNodeType { tag: u8 },
    /// A page image claims more cells than a leaf can hold.
    CellCountTooLarge { num_cells: u32 },
    /// A row's text field holds bytes that are not valid text.
    InvalidRowText,
}

/// A failure to turn an input line into a statement.
#[derive(Clone, Copy, Debug, PartialEq, Eq, Structural)]
pub enum PrepareError {
    /// The line starts with neither `insert` nor `select`.
    Unrecognized,
    /// The line holds no word at all.
    NoTokens,
    /// The first word is not exactly `insert`.
    FirstWordNotInsert,
    /// No word follows `insert`.
    MissingId,
    /// No username word follows the id.
    MissingUsername,
    /// No email word follows the username.
    MissingEmail,
    /// The id word is empty or holds a character that is no digit.
    IdNotANumber,
    /// The id word names a number too large for 32 bits.
    IdTooLarge,
    /// A fifth word follows the email.
    ExtraWord,
    /// The username or the email exceeds its column width.
    StringTooLong,
    /// A word's bytes are not valid text.
    BadTokenText,
}

} // verus!
