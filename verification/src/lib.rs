//! Catalog synchronization library.
//!
//! Synchronizes the table contents of a target data catalog with a pinned
//! reference catalog: an in-memory catalog tree is built from crawl results,
//! two trees are compared by a recursive diff engine, and the resulting
//! operation tree is rendered into a sequence of SQL statements.

pub mod model;
pub mod api;
pub mod crawler;
pub mod config;
pub mod diff;
pub mod querygen;
