//! Pages: the fixed-size blocks that a space's file is made of.

pub mod data;
pub mod header;
pub mod index;
pub mod iterators;
pub mod page;
pub mod space_info;
pub mod space_info_bytes;
pub mod ty;
pub mod util;

use crate::util::sized::{DefaultSizeMeasurable, SizeMeasurable};
use vstd::prelude::*;

pub use data::DataPage;
pub use header::{GeneralHeader, DATA_VERSION};
pub use index::{
    get_index_page_size_from_data_length, map_tree_index, ChangeEvent, IndexPage,
    IndexPageUtility, IndexValue, NewIndexPage, TableOfContentsPage, UnsizedIndexPage,
    UnsizedIndexPageUtility,
};
pub use iterators::PageIterator;
pub use page::Page;
pub use space_info::{Interval, SpaceInfoPage};
pub use ty::PageType;
pub use util::{
    check_update, frame_page, link_offset, map_data_pages_to_general, page_offset, parse_data_page,
    parse_general_header_by_index, parse_page, persist_page, unframe_page, update_at,
};

verus! {

/// The size of a page in bytes, header included.
pub const PAGE_SIZE: usize = 16384;

/// The number of bytes of the header that every page starts with.
pub const GENERAL_HEADER_SIZE: usize = 28;

/// The number of bytes of a page that are left for its inner part.
pub const INNER_PAGE_SIZE: usize = 16356;

/// The identifier of a page, unique within a space. Page 0 holds the
/// space's description.
#[derive(Clone, Copy, Debug, PartialEq, Eq, Structural, Hash, PartialOrd, Ord)]
pub struct PageId(pub u32);

impl View for PageId {
    type V = PageId;

    open spec fn view(&self) -> PageId {
        *self
    }
}

impl PageId {
    /// Returns the identifier that follows this one.
    pub fn next(self) -> (r: PageId)
        requires
            self.0 < u32::MAX,
        ensures
            r.0 == self.0 + 1,
    {
        PageId(self.0 + 1)
    }

    /// Tells whether this is the identifier 0.
    pub fn is_empty(&self) -> (r: bool)
        ensures
            r == (self.0 == 0),
    {
        self.0 == 0
    }
}

impl Default for PageId {
    fn default() -> (r: PageId)
        ensures
            r == PageId(0),
    {
        PageId(0)
    }
}

impl From<u32> for PageId {
    fn from(value: u32) -> (r: PageId) {
        PageId(value)
    }
}

impl vstd::std_specs::convert::FromSpecImpl<u32> for PageId {
    open spec fn obeys_from_spec() -> bool {
        true
    }

    open spec fn from_spec(value: u32) -> PageId {
        PageId(value)
    }
}

impl From<PageId> for u32 {
    fn from(value: PageId) -> (r: u32) {
        value.0
    }
}

impl vstd::std_specs::convert::FromSpecImpl<PageId> for u32 {
    open spec fn obeys_from_spec() -> bool {
        true
    }

    open spec fn from_spec(value: PageId) -> u32 {
        value.0
    }
}

/// A page as it lies in the file: the header, then the inner part.
#[derive(Clone, Debug, PartialEq, Eq, Hash, PartialOrd, Ord)]
pub struct GeneralPage<Inner> {
    pub header: GeneralHeader,
    pub inner: Inner,
}

impl SizeMeasurable for PageId {
    open spec fn size(&self) -> nat {
        4
    }

    open spec fn alignment() -> Option<usize> {
        None
    }

    fn aligned_size(&self) -> (r: usize) {
        4
    }

    fn align() -> (r: Option<usize>) {
        None
    }
}

impl DefaultSizeMeasurable for PageId {
    open spec fn default_size() -> nat {
        4
    }

    proof fn lemma_default_size(&self) {
    }

    proof fn lemma_default_size_fits() {
    }

    fn default_aligned_size() -> (r: usize) {
        4
    }
}

} // verus!
