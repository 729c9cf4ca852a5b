//! Storage core of a Lehman–Yao B-link tree.
//!
//! - `ptr`: page references.
//! - `node`: tree nodes, with the search step, sorted insertion and the split that keep
//!   high keys and right links in order.
//! - `codec`: the page image of a node, and decoding it back.
//! - `page_table`: which frame holds which resident page.
//! - `buffer_pool`: frames with pin counts and dirty flags over a `PagedFile`, with
//!   eviction that never takes a pinned frame.
//! - `btree`: search and insert over the pool, moving right along links and propagating
//!   splits upwards one level at a time.

pub mod btree;
pub mod buffer_pool;
pub mod codec;
pub mod node;
pub mod page_table;
pub mod ptr;
