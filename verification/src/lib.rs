//! An in-memory, multi-source, time-ordered feed index with paginated
//! newest-first queries over a chosen set of sources.
//!
//! - [`order`]: posts, their order, and counting over listings of posts.
//! - [`tree`]: the per-day counters of a source, kept in a Fenwick tree.
//! - [`idx`]: the index of one source.
//! - [`feed`]: what the merged feed of several sources is, and the merge
//!   that produces it.
//! - [`heap`]: the max-heap that the merge keeps its heads in.
//! - [`reader`]: the merge as a reader that yields one post after another.
//! - [`query`]: paginated queries: the jump to a day near the offset, then the
//!   merge from there.
//! - [`registry`]: the named sources of a process and the operations on them.

pub mod feed;
pub mod heap;
pub mod idx;
pub mod order;
pub mod query;
pub mod reader;
pub mod registry;
pub mod tree;
