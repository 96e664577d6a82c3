//! A minimal single-table record store backed by fixed-size pages.
//!
//! The crate verifies the storage core: the fixed-width row codec, the
//! page/node binary format, the page cache (pager), and the table/cursor
//! walk over a node's cells.  File handling itself is left to the caller:
//! the pager hands out the byte images to write and the offsets to read,
//! and accepts the bytes read back.

pub mod error;
pub mod node;
pub mod pager;
pub mod row;
pub mod statement;
pub mod table;
pub mod util;
