//! The kinds of page.

use vstd::prelude::*;

verus! {

/// What a page holds. On the wire it is a 16-bit number.
#[derive(Clone, Copy, Debug, PartialEq, Eq, Structural, Hash, PartialOrd, Ord)]
pub enum PageType {
    /// A page that was allocated and holds nothing yet.
    Empty,
    /// The page that describes the space.
    SpaceInfo,
    /// A page of row data.
    Data,
    /// A page of an index.
    Index,
    /// A page of an index's table of contents.
    IndexTableOfContents,
}

impl PageType {
    /// The number that stands for the page type on the wire.
    pub open spec fn spec_code(self) -> u16 {
        match self {
            PageType::Empty => 0,
            PageType::SpaceInfo => 1,
            PageType::Data => 2,
            PageType::Index => 3,
            PageType::IndexTableOfContents => 31,
        }
    }

    /// Returns the number that stands for the page type on the wire.
    pub fn code(self) -> (c: u16)
        ensures
            c == self.spec_code(),
    {
        match self {
            PageType::Empty => 0,
            PageType::SpaceInfo => 1,
            PageType::Data => 2,
            PageType::Index => 3,
            PageType::IndexTableOfContents => 31,
        }
    }

    /// Returns the page type that `code` stands for, if it stands for one.
    pub fn from_code(code: u16) -> (r: Option<PageType>)
        ensures
            match r {
                Some(t) => t.spec_code() == code,
                None => forall|t: PageType| #[trigger] t.spec_code() != code,
            },
    {
        if code == 0 {
            Some(PageType::Empty)
        } else if code == 1 {
            Some(PageType::SpaceInfo)
        } else if code == 2 {
            Some(PageType::Data)
        } else if code == 3 {
            Some(PageType::Index)
        } else if code == 31 {
            Some(PageType::IndexTableOfContents)
        } else {
            None
        }
    }
}

} // verus!
