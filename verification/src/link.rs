//! [`Link`]: the on-disk pointer to a run of bytes inside a page.

use crate::error::Error;
use crate::page::PageId;
use crate::util::persistable::{lemma_u32_bytes, lemma_u32_of_bytes, Persistable};
use crate::util::key::{FixedKey, IndexKey};
use crate::util::sized::{DefaultSizeMeasurable, SizeMeasurable};
use vstd::bytes::*;
use vstd::prelude::*;
use vstd::slice::slice_subrange;

verus! {

/// The number of bytes of an archived [`Link`].
pub const LINK_LENGTH: usize = 12;

/// A pointer to `length` bytes that start `offset` bytes into the data of
/// the page `page_id`.
#[derive(Clone, Copy, Debug, PartialEq, Eq, Structural, Hash, PartialOrd, Ord)]
pub struct Link {
    pub page_id: PageId,
    pub offset: u32,
    pub length: u32,
}

impl View for Link {
    type V = Link;

    open spec fn view(&self) -> Link {
        *self
    }
}

impl Default for Link {
    fn default() -> (r: Link)
        ensures
            r == Link::zero(),
    {
        Link { page_id: PageId(0), offset: 0, length: 0 }
    }
}

impl Link {
    /// The link of all zeroes, which marks an empty slot.
    pub open spec fn zero() -> Link {
        Link { page_id: PageId(0), offset: 0, length: 0 }
    }

    /// Whether `other` starts where `self` ends, on the same page.
    pub open spec fn unitable(self, other: Link) -> bool {
        self.page_id == other.page_id && self.offset + self.length == other.offset
    }

    /// The link that covers `self` and the `other` behind it.
    pub open spec fn union(self, other: Link) -> Link {
        Link {
            page_id: self.page_id,
            offset: self.offset,
            length: (self.length + other.length) as u32,
        }
    }

    /// Unites two links into one if the second starts where the first ends
    /// on the same page, and returns `None` if they do not touch that way.
    pub fn unite(self, other: Link) -> (r: Option<Link>)
        requires
            self.unitable(other) ==> self.length + other.length <= u32::MAX,
        ensures
            r == if self.unitable(other) {
                Some(self.union(other))
            } else {
                None::<Link>
            },
    {
        let end: u64 = self.offset as u64 + self.length as u64;
        if end != other.offset as u64 || self.page_id.0 != other.page_id.0 {
            None
        } else {
            Some(
                Link {
                    page_id: self.page_id,
                    offset: self.offset,
                    length: self.length + other.length,
                },
            )
        }
    }
}

impl SizeMeasurable for Link {
    open spec fn size(&self) -> nat {
        LINK_LENGTH as nat
    }

    open spec fn alignment() -> Option<usize> {
        None
    }

    fn aligned_size(&self) -> (r: usize) {
        LINK_LENGTH
    }

    fn align() -> (r: Option<usize>) {
        None
    }
}

impl DefaultSizeMeasurable for Link {
    open spec fn default_size() -> nat {
        LINK_LENGTH as nat
    }

    proof fn lemma_default_size(&self) {
    }

    proof fn lemma_default_size_fits() {
    }

    fn default_aligned_size() -> (r: usize) {
        LINK_LENGTH
    }
}

/// The 12 bytes of a link: page, offset and length, each as 4 bytes with
/// the low byte first.
pub open spec fn link_bytes(link: Link) -> Seq<u8> {
    spec_u32_to_le_bytes(link.page_id.0) + spec_u32_to_le_bytes(link.offset)
        + spec_u32_to_le_bytes(link.length)
}

/// Where each field stands among the 12 bytes of a link.
pub proof fn lemma_link_layout(link: Link)
    ensures
        link_bytes(link).len() == LINK_LENGTH,
        link_bytes(link).subrange(0, 4) == spec_u32_to_le_bytes(link.page_id.0),
        link_bytes(link).subrange(4, 8) == spec_u32_to_le_bytes(link.offset),
        link_bytes(link).subrange(8, 12) == spec_u32_to_le_bytes(link.length),
{
    lemma_u32_bytes(link.page_id.0);
    lemma_u32_bytes(link.offset);
    lemma_u32_bytes(link.length);
    let b = link_bytes(link);
    assert(b.subrange(0, 4) =~= spec_u32_to_le_bytes(link.page_id.0));
    assert(b.subrange(4, 8) =~= spec_u32_to_le_bytes(link.offset));
    assert(b.subrange(8, 12) =~= spec_u32_to_le_bytes(link.length));
}

/// The byte form of a link has 12 bytes.
pub proof fn lemma_link_bytes_len(link: Link)
    ensures
        link_bytes(link).len() == LINK_LENGTH,
{
    lemma_link_layout(link);
}

impl Persistable for Link {
    open spec fn storable(v: Link) -> bool {
        true
    }

    open spec fn encoding(v: Link) -> Seq<u8> {
        link_bytes(v)
    }

    proof fn lemma_encoding_injective(a: Link, b: Link) {
        lemma_link_layout(a);
        lemma_link_layout(b);
        lemma_u32_bytes(a.page_id.0);
        lemma_u32_bytes(b.page_id.0);
        lemma_u32_bytes(a.offset);
        lemma_u32_bytes(b.offset);
        lemma_u32_bytes(a.length);
        lemma_u32_bytes(b.length);
        let e = link_bytes(a);
        assert(Self::encoding(a) == link_bytes(a));
        assert(Self::encoding(b) == link_bytes(b));
        assert(link_bytes(b) == e);
        assert(spec_u32_to_le_bytes(a.page_id.0) == e.subrange(0, 4));
        assert(spec_u32_to_le_bytes(b.page_id.0) == e.subrange(0, 4));
        assert(spec_u32_to_le_bytes(a.offset) == e.subrange(4, 8));
        assert(spec_u32_to_le_bytes(b.offset) == e.subrange(4, 8));
        assert(spec_u32_to_le_bytes(a.length) == e.subrange(8, 12));
        assert(spec_u32_to_le_bytes(b.length) == e.subrange(8, 12));
        assert(a.page_id.0 == b.page_id.0);
        assert(a.offset == b.offset);
        assert(a.length == b.length);
    }

    fn is_storable(&self) -> (r: bool) {
        true
    }

    fn as_bytes(&self) -> (bytes: Vec<u8>) {
        let mut bytes: Vec<u8> = u32_to_le_bytes(self.page_id.0);
        let mut offset: Vec<u8> = u32_to_le_bytes(self.offset);
        let mut length: Vec<u8> = u32_to_le_bytes(self.length);
        bytes.append(&mut offset);
        bytes.append(&mut length);
        bytes
    }

    fn from_bytes(bytes: &[u8]) -> (r: Result<Self, Error>) {
        if bytes.len() != LINK_LENGTH {
            proof {
                assert forall|v: Link| Self::storable(v) implies #[trigger] Self::encoding(v)
                    != bytes@ by {
                    lemma_link_bytes_len(v);
                }
            }
            return Err(Error::Decode);
        }
        let page_id: u32 = u32_from_le_bytes(slice_subrange(bytes, 0, 4));
        let offset: u32 = u32_from_le_bytes(slice_subrange(bytes, 4, 8));
        let length: u32 = u32_from_le_bytes(slice_subrange(bytes, 8, 12));
        let link = Link { page_id: PageId(page_id), offset, length };
        proof {
            lemma_u32_of_bytes(bytes@.subrange(0, 4));
            lemma_u32_of_bytes(bytes@.subrange(4, 8));
            lemma_u32_of_bytes(bytes@.subrange(8, 12));
            lemma_u32_bytes(page_id);
            lemma_u32_bytes(offset);
            lemma_u32_bytes(length);
            assert(link_bytes(link) =~= bytes@);
        }
        Ok(link)
    }
}

/// The order of links: by page, then by offset, then by length.
pub open spec fn link_le(a: Link, b: Link) -> bool {
    if a.page_id.0 != b.page_id.0 {
        a.page_id.0 < b.page_id.0
    } else if a.offset != b.offset {
        a.offset < b.offset
    } else {
        a.length <= b.length
    }
}

impl IndexKey for Link {
    open spec fn le(a: Link, b: Link) -> bool {
        link_le(a, b)
    }

    open spec fn zero() -> Link {
        Link::zero()
    }

    proof fn lemma_le_total(a: Link, b: Link) {
    }

    proof fn lemma_le_transitive(a: Link, b: Link, c: Link) {
    }

    proof fn lemma_le_antisymmetric(a: Link, b: Link) {
    }

    proof fn lemma_zero_storable() {
    }

    proof fn lemma_size_is_encoding_length(&self) {
        lemma_link_bytes_len(*self);
    }

    proof fn lemma_length_by_entry(a: Link, b: Link) {
        lemma_link_bytes_len(a);
        lemma_link_bytes_len(b);
    }

    fn key_le(&self, other: &Self) -> (r: bool) {
        if self.page_id.0 != other.page_id.0 {
            self.page_id.0 < other.page_id.0
        } else if self.offset != other.offset {
            self.offset < other.offset
        } else {
            self.length <= other.length
        }
    }

    fn key_eq(&self, other: &Self) -> (r: bool) {
        self.page_id.0 == other.page_id.0 && self.offset == other.offset && self.length
            == other.length
    }

    fn key_clone(&self) -> (r: Self) {
        *self
    }

    fn key_zero() -> (r: Self) {
        Link { page_id: PageId(0), offset: 0, length: 0 }
    }
}

impl FixedKey for Link {
    proof fn lemma_fixed_length(v: Link) {
        lemma_link_bytes_len(v);
    }

    proof fn lemma_view_injective(a: Link, b: Link) {
    }
}

} // verus!
