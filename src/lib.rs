use vstd::prelude::*;

pub mod btree;
pub mod cursor;
pub mod error;
pub mod pager;
pub mod payload;
pub mod record;
pub mod tree;
pub mod varint;

pub use cursor::BtreeContext;
pub use cursor::BtreeCursor;
pub use error::Error;
pub use pager::PageId;
pub use pager::Pager;
pub use payload::BtreePayload;
pub use record::parse_record;
pub use record::parse_record_payload;
pub use record::Collation;
pub use record::Columns;
pub use record::Row;
pub use record::Value;
pub use record::ValueCmp;

verus! {

} // verus!
