//! Disk usage inspection: a size-annotated tree of a directory subtree, its
//! ordering and aggregation rules, a compact binary format to persist it, and
//! a cursor to browse it.
//!
//! - [`tree`] holds the mathematical model, [`item`] the entries themselves.
//! - [`order`] puts the children of a directory in display order.
//! - [`crawl`] builds the tree from what a caller finds on disk, and
//!   [`walk`] says which tree belongs to what is found.
//! - [`format`] describes the persisted form, [`codec`] writes and reads it,
//!   and [`inverse`] shows that reading undoes writing.
//! - [`navigator`] is the cursor, with what there is to show at each stop.
//! - [`human`] writes sizes and shares as text.
//! - [`text`] tells the bytes that are text from those that are not.

pub mod codec;
pub mod crawl;
pub mod format;
pub mod human;
pub mod inverse;
pub mod item;
pub mod navigator;
pub mod order;
pub mod text;
pub mod tree;
pub mod walk;
