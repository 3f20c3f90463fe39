//! Reading rows whose layout a schema of column types describes, and the
//! interfaces of what can be persisted.

pub mod data;
pub mod index;
pub mod table;

pub use index::PersistableIndex;
pub use table::PersistableTable;
