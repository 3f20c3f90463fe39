//! [`GeneralHeader`]: the 28 bytes that every page starts with.

use crate::error::Error;
use crate::page::ty::PageType;
use crate::page::{PageId, GENERAL_HEADER_SIZE, PAGE_SIZE};
use crate::space;
use crate::util::persistable::Persistable;
use vstd::bytes::*;
use vstd::prelude::*;
use vstd::slice::slice_subrange;

verus! {

/// The version of the page format that this library writes.
pub const DATA_VERSION: u32 = 1u32;

/// The header that stands before the inner part of every page.
#[derive(Clone, Copy, Debug, PartialEq, Eq, Structural, Hash, PartialOrd, Ord)]
pub struct GeneralHeader {
    pub data_version: u32,
    pub space_id: space::Id,
    pub page_id: PageId,
    pub previous_id: PageId,
    pub next_id: PageId,
    pub page_type: PageType,
    pub data_length: u32,
}

impl View for GeneralHeader {
    type V = GeneralHeader;

    open spec fn view(&self) -> GeneralHeader {
        *self
    }
}

impl GeneralHeader {
    /// The header of a page that stands alone: no page before it, none
    /// behind it.
    pub open spec fn fresh(page_id: PageId, page_type: PageType, space_id: space::Id) -> Self {
        GeneralHeader {
            data_version: DATA_VERSION,
            space_id,
            page_id,
            previous_id: PageId(0),
            next_id: PageId(0),
            page_type,
            data_length: PAGE_SIZE as u32,
        }
    }

    /// The header of the page that follows the page with this header.
    pub open spec fn successor(self, page_type: PageType) -> Self {
        GeneralHeader {
            data_version: DATA_VERSION,
            space_id: self.space_id,
            page_id: PageId((self.page_id.0 + 1) as u32),
            previous_id: self.page_id,
            next_id: PageId(0),
            page_type,
            data_length: PAGE_SIZE as u32,
        }
    }

    /// This header once the page behind it exists.
    pub open spec fn linked(self) -> Self {
        GeneralHeader { next_id: PageId((self.page_id.0 + 1) as u32), ..self }
    }

    /// Creates the header of a page that stands alone.
    pub fn new(page_id: PageId, type_: PageType, space_id: space::Id) -> (header: Self)
        ensures
            header == Self::fresh(page_id, type_, space_id),
    {
        Self {
            data_version: DATA_VERSION,
            page_id,
            previous_id: PageId(0),
            next_id: PageId(0),
            page_type: type_,
            space_id,
            data_length: PAGE_SIZE as u32,
        }
    }

    /// Creates the header of the page that follows this one, of the same
    /// type and in the same space, and records it as the next page.
    pub fn follow(&mut self) -> (header: Self)
        requires
            old(self).page_id.0 < u32::MAX,
        ensures
            *final(self) == old(self).linked(),
            header == old(self).successor(old(self).page_type),
    {
        self.next_id = self.page_id.next();
        Self {
            data_version: DATA_VERSION,
            page_id: self.next_id,
            previous_id: self.page_id,
            next_id: PageId(0),
            page_type: self.page_type,
            space_id: self.space_id,
            data_length: PAGE_SIZE as u32,
        }
    }

    /// Creates the header of the page that follows this one in the same
    /// space, of the type given, and records it as the next page.
    pub fn follow_with(&mut self, page_type: PageType) -> (header: Self)
        requires
            old(self).page_id.0 < u32::MAX,
        ensures
            *final(self) == old(self).linked(),
            header == old(self).successor(page_type),
    {
        self.next_id = self.page_id.next();
        Self {
            data_version: DATA_VERSION,
            page_id: self.next_id,
            previous_id: self.page_id,
            next_id: PageId(0),
            page_type,
            space_id: self.space_id,
            data_length: PAGE_SIZE as u32,
        }
    }

    /// Tells whether the header was written by this version of the format.
    pub fn check_version(&self) -> (r: Result<(), Error>)
        ensures
            r == if self.data_version == DATA_VERSION {
                Ok::<(), Error>(())
            } else {
                Err::<(), Error>(Error::VersionMismatch { found: self.data_version })
            },
    {
        if self.data_version == DATA_VERSION {
            Ok(())
        } else {
            Err(Error::VersionMismatch { found: self.data_version })
        }
    }
}

/// The 28 bytes of a header. Each number has its low byte first.
///
/// | at | bytes | field |
/// |---|---|---|
/// | 0 | 4 | `data_version` |
/// | 4 | 4 | `space_id` |
/// | 8 | 4 | `page_id` |
/// | 12 | 4 | `previous_id` |
/// | 16 | 4 | `next_id` |
/// | 20 | 2 | `page_type` |
/// | 22 | 4 | `data_length` |
/// | 26 | 2 | zeroes |
pub open spec fn header_bytes(h: GeneralHeader) -> Seq<u8> {
    spec_u32_to_le_bytes(h.data_version) + spec_u32_to_le_bytes(h.space_id.0)
        + spec_u32_to_le_bytes(h.page_id.0) + spec_u32_to_le_bytes(h.previous_id.0)
        + spec_u32_to_le_bytes(h.next_id.0) + spec_u16_to_le_bytes(h.page_type.spec_code())
        + spec_u32_to_le_bytes(h.data_length) + seq![0u8, 0u8]
}

/// Where each field stands among the 28 bytes of a header.
pub proof fn lemma_header_layout(h: GeneralHeader)
    ensures
        header_bytes(h).len() == GENERAL_HEADER_SIZE,
        header_bytes(h).subrange(0, 4) == spec_u32_to_le_bytes(h.data_version),
        header_bytes(h).subrange(4, 8) == spec_u32_to_le_bytes(h.space_id.0),
        header_bytes(h).subrange(8, 12) == spec_u32_to_le_bytes(h.page_id.0),
        header_bytes(h).subrange(12, 16) == spec_u32_to_le_bytes(h.previous_id.0),
        header_bytes(h).subrange(16, 20) == spec_u32_to_le_bytes(h.next_id.0),
        header_bytes(h).subrange(20, 22) == spec_u16_to_le_bytes(h.page_type.spec_code()),
        header_bytes(h).subrange(22, 26) == spec_u32_to_le_bytes(h.data_length),
        header_bytes(h).subrange(26, 28) == seq![0u8, 0u8],
{
    lemma_auto_spec_u32_to_from_le_bytes();
    lemma_auto_spec_u16_to_from_le_bytes();
    let b = header_bytes(h);
    assert(spec_u32_to_le_bytes(h.data_version).len() == 4);
    assert(spec_u32_to_le_bytes(h.space_id.0).len() == 4);
    assert(spec_u32_to_le_bytes(h.page_id.0).len() == 4);
    assert(spec_u32_to_le_bytes(h.previous_id.0).len() == 4);
    assert(spec_u32_to_le_bytes(h.next_id.0).len() == 4);
    assert(spec_u16_to_le_bytes(h.page_type.spec_code()).len() == 2);
    assert(spec_u32_to_le_bytes(h.data_length).len() == 4);
    assert(b.subrange(0, 4) =~= spec_u32_to_le_bytes(h.data_version));
    assert(b.subrange(4, 8) =~= spec_u32_to_le_bytes(h.space_id.0));
    assert(b.subrange(8, 12) =~= spec_u32_to_le_bytes(h.page_id.0));
    assert(b.subrange(12, 16) =~= spec_u32_to_le_bytes(h.previous_id.0));
    assert(b.subrange(16, 20) =~= spec_u32_to_le_bytes(h.next_id.0));
    assert(b.subrange(20, 22) =~= spec_u16_to_le_bytes(h.page_type.spec_code()));
    assert(b.subrange(22, 26) =~= spec_u32_to_le_bytes(h.data_length));
    assert(b.subrange(26, 28) =~= seq![0u8, 0u8]);
}

impl Persistable for GeneralHeader {
    open spec fn storable(v: GeneralHeader) -> bool {
        true
    }

    open spec fn encoding(v: GeneralHeader) -> Seq<u8> {
        header_bytes(v)
    }

    proof fn lemma_encoding_injective(a: GeneralHeader, b: GeneralHeader) {
        lemma_header_layout(a);
        lemma_header_layout(b);
        u32::lemma_encoding_injective(a.data_version, b.data_version);
        u32::lemma_encoding_injective(a.space_id.0, b.space_id.0);
        u32::lemma_encoding_injective(a.page_id.0, b.page_id.0);
        u32::lemma_encoding_injective(a.previous_id.0, b.previous_id.0);
        u32::lemma_encoding_injective(a.next_id.0, b.next_id.0);
        u16::lemma_encoding_injective(a.page_type.spec_code(), b.page_type.spec_code());
        u32::lemma_encoding_injective(a.data_length, b.data_length);
    }

    fn is_storable(&self) -> (r: bool) {
        true
    }

    fn as_bytes(&self) -> (bytes: Vec<u8>) {
        let mut bytes: Vec<u8> = u32_to_le_bytes(self.data_version);
        let mut part: Vec<u8> = u32_to_le_bytes(self.space_id.0);
        bytes.append(&mut part);
        let mut part: Vec<u8> = u32_to_le_bytes(self.page_id.0);
        bytes.append(&mut part);
        let mut part: Vec<u8> = u32_to_le_bytes(self.previous_id.0);
        bytes.append(&mut part);
        let mut part: Vec<u8> = u32_to_le_bytes(self.next_id.0);
        bytes.append(&mut part);
        let mut part: Vec<u8> = u16_to_le_bytes(self.page_type.code());
        bytes.append(&mut part);
        let mut part: Vec<u8> = u32_to_le_bytes(self.data_length);
        bytes.append(&mut part);
        bytes.push(0);
        bytes.push(0);
        assert(bytes@ =~= header_bytes(*self));
        bytes
    }

    fn from_bytes(bytes: &[u8]) -> (r: Result<Self, Error>) {
        proof {
            lemma_auto_spec_u32_to_from_le_bytes();
            lemma_auto_spec_u16_to_from_le_bytes();
            assert forall|v: GeneralHeader| bytes@ == #[trigger] Self::encoding(v) implies {
                &&& bytes@.len() == GENERAL_HEADER_SIZE
                &&& bytes@.subrange(20, 22) == spec_u16_to_le_bytes(v.page_type.spec_code())
                &&& bytes@.subrange(26, 28) == seq![0u8, 0u8]
            } by {
                lemma_header_layout(v);
            }
        }
        if bytes.len() != GENERAL_HEADER_SIZE {
            return Err(Error::Decode);
        }
        let data_version: u32 = u32_from_le_bytes(slice_subrange(bytes, 0, 4));
        let space_id: u32 = u32_from_le_bytes(slice_subrange(bytes, 4, 8));
        let page_id: u32 = u32_from_le_bytes(slice_subrange(bytes, 8, 12));
        let previous_id: u32 = u32_from_le_bytes(slice_subrange(bytes, 12, 16));
        let next_id: u32 = u32_from_le_bytes(slice_subrange(bytes, 16, 20));
        let code: u16 = u16_from_le_bytes(slice_subrange(bytes, 20, 22));
        let data_length: u32 = u32_from_le_bytes(slice_subrange(bytes, 22, 26));
        let page_type = match PageType::from_code(code) {
            Some(t) => t,
            None => {
                proof {
                    assert forall|v: GeneralHeader| Self::storable(v) implies #[trigger] Self::encoding(
                        v,
                    ) != bytes@ by {
                        if Self::encoding(v) == bytes@ {
                            assert(spec_u16_to_le_bytes(v.page_type.spec_code()) == bytes@.subrange(
                                20,
                                22,
                            ));
                            assert(spec_u16_to_le_bytes(v.page_type.spec_code()).len() == 2);
                            assert(spec_u16_from_le_bytes(
                                spec_u16_to_le_bytes(v.page_type.spec_code()),
                            ) == v.page_type.spec_code());
                            assert(v.page_type.spec_code() == code);
                        }
                    }
                }
                return Err(Error::Decode);
            },
        };
        if bytes[26] != 0 || bytes[27] != 0 {
            proof {
                assert forall|v: GeneralHeader| Self::storable(v) implies #[trigger] Self::encoding(
                    v,
                ) != bytes@ by {
                    if Self::encoding(v) == bytes@ {
                        assert(bytes@.subrange(26, 28)[0] == 0u8);
                        assert(bytes@.subrange(26, 28)[1] == 0u8);
                    }
                }
            }
            return Err(Error::Decode);
        }
        let header = GeneralHeader {
            data_version,
            space_id: space::Id(space_id),
            page_id: PageId(page_id),
            previous_id: PageId(previous_id),
            next_id: PageId(next_id),
            page_type,
            data_length,
        };
        proof {
            assert(spec_u32_to_le_bytes(data_version) == bytes@.subrange(0, 4));
            assert(spec_u32_to_le_bytes(space_id) == bytes@.subrange(4, 8));
            assert(spec_u32_to_le_bytes(page_id) == bytes@.subrange(8, 12));
            assert(spec_u32_to_le_bytes(previous_id) == bytes@.subrange(12, 16));
            assert(spec_u32_to_le_bytes(next_id) == bytes@.subrange(16, 20));
            assert(spec_u16_to_le_bytes(code) == bytes@.subrange(20, 22));
            assert(spec_u32_to_le_bytes(data_length) == bytes@.subrange(22, 26));
            assert(header_bytes(header) =~= bytes@);
        }
        Ok(header)
    }
}

} // verus!
