//! The interface of an index that can be persisted.

use vstd::prelude::*;

verus! {

/// An index that can be turned into a form that is written to the file,
/// and built from it again.
pub trait PersistableIndex: Sized {
    /// The form of the index that is written to the file.
    type PersistedIndex;

    /// Returns the form of the index that is written to the file.
    fn get_persisted_index(&self) -> Self::PersistedIndex;

    /// Builds the index from the form that was read from the file.
    fn from_persisted(persisted: Self::PersistedIndex) -> Self;
}

} // verus!
