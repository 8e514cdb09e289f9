//! An in-memory, single-table data store with secondary-index lookups and
//! composable, bitmap-backed filtering.
//!
//! A [`table::Table`] owns an append-only sequence of records together with a
//! composite index supplied by the host. Every insert and in-place update is
//! routed through that index, so index state always reflects the current
//! records. Queries start from the full row set and narrow it with boolean
//! algebra over [`selection::Selection`] values.

pub mod index;
pub mod selection;
pub mod table;
