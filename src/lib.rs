//! A read-only decoder and B-tree navigator for the SQLite database file format.
//!
//! `codec` decodes varints and big-endian integers, `record` the serial-type
//! record format, `page` one B-tree page, and `database` walks table and index
//! B-trees over the bytes of a whole file. `table_order` and `index_order`
//! state what a B-tree whose keys are in order guarantees of those walks.
//! `catalog` and `query` read the catalog rows and the `WHERE` filter that a
//! query names.
use vstd::prelude::*;

pub mod catalog;
pub mod codec;
pub mod database;
pub mod error;
pub mod index_order;
pub mod page;
pub mod query;
pub mod record;
pub mod table_order;

pub use database::Database;
pub use error::DbError;
pub use page::{Page, PageType};
pub use record::{Record, RecordValue};

verus! {

} // verus!
