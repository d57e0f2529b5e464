//! A single-table store: a B+ tree of fixed-width rows, kept in pages of
//! 4096 bytes behind a pager with a bounded cache.
//!
//! The rows are keyed by a 32-bit id. A leaf holds up to thirteen rows, an
//! internal node up to three keys, and the root stays on page 0 whatever
//! becomes of it. The library works on the bytes of the backing file, which
//! its caller reads and writes.
//!
//! - [`layout`]: the bytes of a page, and the accessors that read and write
//!   them.
//! - [`node`]: a page read as a node, and the operations on one node.
//! - [`pager`]: the cache of pages in front of the file.
//! - [`tree`], [`rows`]: what it means for the pages to form a tree, and the
//!   rows that the tree holds.
//! - [`table`]: the table, the search for a key, and the cursor.
//! - [`grow`], [`insert`]: insertion, with the splits of leaves, of internal
//!   nodes and of the root.
//! - [`store`]: opening, closing, and the full scan.
//! - [`inspect`]: whether the pages of a file form a tree.
//! - [`row`], [`text`], [`statement`], [`printer`]: rows, statements, and
//!   what the command line shows.
//! - [`laws`]: what holds of every table.

pub mod grow;
pub mod insert;
pub mod inspect;
pub mod laws;
pub mod layout;
pub mod node;
pub mod pager;
pub mod printer;
pub mod row;
pub mod rows;
pub mod statement;
pub mod store;
pub mod table;
pub mod text;
pub mod tree;
