//! The interface of a table that can be persisted.

use vstd::prelude::*;

verus! {

/// A table that can be turned into a space: the pages of its file.
pub trait PersistableTable {
    /// The name of the table.
    const TABLE_NAME: &'static str;

    /// The space of the table.
    type Space;

    /// Returns the space of the table.
    fn get_space(&self) -> Self::Space;
}

} // verus!
