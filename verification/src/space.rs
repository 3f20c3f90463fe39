//! The identifier of a space and the space as a sequence of pages.

use crate::page::page::Page;
use vstd::prelude::*;

verus! {

/// A space: the pages of one table's file, in their order.
#[derive(Clone, Debug, Default)]
pub struct Space {
    pub pages: Vec<Page>,
}

/// The identifier of a space: one table's file.
#[derive(Clone, Copy, Debug, PartialEq, Eq, Structural, Hash, PartialOrd, Ord)]
pub struct Id(pub u32);

impl From<u32> for Id {
    fn from(value: u32) -> (r: Id) {
        Id(value)
    }
}

impl vstd::std_specs::convert::FromSpecImpl<u32> for Id {
    open spec fn obeys_from_spec() -> bool {
        true
    }

    open spec fn from_spec(value: u32) -> Id {
        Id(value)
    }
}

} // verus!
