//! On-disk storage engine for a single-table space: a paged file format,
//! size arithmetic that predicts the archived footprint of values, slotted
//! index pages that are edited in place, and a table of contents that maps
//! node identifiers to pages.

pub mod error;
pub mod link;
pub mod page;
pub mod persistence;
pub mod space;
pub mod util;

pub use error::{Error, ErrorKind};
pub use link::Link;
pub use page::{
    frame_page, get_index_page_size_from_data_length, link_offset, map_data_pages_to_general,
    page_offset, parse_data_page, parse_general_header_by_index, parse_page, persist_page,
    unframe_page, update_at, ChangeEvent, DataPage, GeneralHeader, GeneralPage, IndexPage,
    IndexPageUtility, IndexValue, Interval, NewIndexPage, PageId, PageIterator, PageType,
    SpaceInfoPage, TableOfContentsPage, UnsizedIndexPage, UnsizedIndexPageUtility, DATA_VERSION,
    GENERAL_HEADER_SIZE, INNER_PAGE_SIZE, PAGE_SIZE,
};
pub use persistence::{PersistableIndex, PersistableTable};
pub use space::Id as SpaceId;
pub use util::{
    align, align8, align_vec, struct_aligned_size, DefaultSizeMeasurable, FixedKey, IndexKey,
    Persistable, SizeMeasurable, VariableSizeMeasurable,
};
