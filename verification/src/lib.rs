//! A single-file, page-based relational storage engine.
//!
//! A database is one file of 4096-byte pages. Page 0 is the header directory
//! that names every table; each table owns a definition page (its columns), a
//! meta page (where its rows live) and any number of data pages of fixed-width
//! rows. The engine works on the file's bytes held in memory; reading the file
//! and writing it back is left to the caller.
//!
//! - [`layout`], [`store`], [`allocator`]: pages and records as bytes, the
//!   page store, the pages in use.
//! - [`catalog`], [`database`]: what the three directories say, what makes a
//!   file a valid database, and the handle that mirrors it.
//! - [`create`], [`schema`], [`insert`], [`rows`], [`update`], [`delete`]:
//!   the operations, each with the file that it leaves.
//! - [`laws`], [`row_laws`], [`change_laws`], [`frame_laws`]: what holds
//!   across operations.

pub mod allocator;
pub mod catalog;
pub mod change_laws;
pub mod create;
pub mod database;
pub mod delete;
pub mod frame_laws;
pub mod insert;
pub mod laws;
pub mod layout;
pub mod row_laws;
pub mod rows;
pub mod schema;
pub mod store;
pub mod table;
pub mod update;

pub use allocator::{find_spare_page, PageAllocator};
pub use database::{check_table_exists, Database, HeaderMeta};
pub use store::PageStore;
pub use table::{ColumnDef, Condition, CreateTableError};
