//! [`Page`]: the bytes of one page of the file.

use crate::error::Error;
use crate::page::data::overwritten;
use crate::page::header::{header_bytes, lemma_header_layout, GeneralHeader};
use crate::page::{GENERAL_HEADER_SIZE, PAGE_SIZE};
use crate::util::persistable::{decode, decoding, Persistable};
use vstd::prelude::*;
use vstd::slice::slice_subrange;

verus! {

/// The bytes of one page as they lie in the file.
#[derive(Clone, Debug, PartialEq, Eq)]
pub struct Page {
    pub raw_data: [u8; 16384],
}

impl Page {
    /// Returns the page that holds the bytes.
    pub fn from_bytes(bytes: &[u8]) -> (page: Page)
        requires
            bytes@.len() == PAGE_SIZE,
        ensures
            page.raw_data@ == bytes@,
    {
        let mut raw_data: [u8; 16384] = [0u8;16384];
        let mut i: usize = 0;
        while i < PAGE_SIZE
            invariant
                i <= PAGE_SIZE,
                bytes@.len() == PAGE_SIZE,
                forall|k: int| 0 <= k < i ==> raw_data@[k] == bytes@[k],
            decreases PAGE_SIZE - i,
        {
            raw_data[i] = bytes[i];
            i += 1;
        }
        assert(raw_data@ =~= bytes@);
        Page { raw_data }
    }

    /// Reads the header of the page from its first 28 bytes. Fails with
    /// `Error::Decode` if they are no header.
    pub fn header(&self) -> (r: Result<GeneralHeader, Error>)
        ensures
            match r {
                Ok(header) => decoding::<GeneralHeader>(
                    self.raw_data@.subrange(0, GENERAL_HEADER_SIZE as int),
                ) == Some(header),
                Err(e) => e == Error::Decode && decoding::<GeneralHeader>(
                    self.raw_data@.subrange(0, GENERAL_HEADER_SIZE as int),
                ) is None,
            },
    {
        decode::<GeneralHeader>(slice_subrange(self.raw_data.as_slice(), 0, GENERAL_HEADER_SIZE))
    }

    /// Returns the bytes of the page behind its header.
    pub fn body(&self) -> (body: &[u8])
        ensures
            body@ == self.raw_data@.subrange(GENERAL_HEADER_SIZE as int, PAGE_SIZE as int),
    {
        slice_subrange(self.raw_data.as_slice(), GENERAL_HEADER_SIZE, PAGE_SIZE)
    }

    /// Writes the header into the first 28 bytes of the page. The bytes
    /// behind them stay.
    pub fn set_header(&mut self, header: &GeneralHeader)
        ensures
            final(self).raw_data@ == overwritten(old(self).raw_data@, 0, header_bytes(*header)),
            final(self).raw_data@.subrange(0, GENERAL_HEADER_SIZE as int) == header_bytes(*header),
    {
        let bytes: Vec<u8> = header.as_bytes();
        proof {
            lemma_header_layout(*header);
        }
        self.write(0, bytes.as_slice());
        assert(self.raw_data@.subrange(0, GENERAL_HEADER_SIZE as int) =~= header_bytes(*header));
    }

    /// Writes `bytes` into the page from the place `offset` behind the
    /// header on. The other bytes stay.
    pub fn set_body(&mut self, offset: usize, bytes: &[u8])
        requires
            offset + bytes@.len() <= PAGE_SIZE - GENERAL_HEADER_SIZE,
        ensures
            final(self).raw_data@ == overwritten(
                old(self).raw_data@,
                GENERAL_HEADER_SIZE + offset,
                bytes@,
            ),
    {
        self.write(GENERAL_HEADER_SIZE + offset, bytes);
    }

    /// Writes `bytes` over the bytes of the page from `at` on.
    fn write(&mut self, at: usize, bytes: &[u8])
        requires
            at + bytes@.len() <= PAGE_SIZE,
        ensures
            final(self).raw_data@ == overwritten(old(self).raw_data@, at as int, bytes@),
    {
        let ghost before = self.raw_data@;
        let mut i: usize = 0;
        assert(self.raw_data@ =~= overwritten(before, at as int, bytes@.subrange(0, 0)));
        while i < bytes.len()
            invariant
                i <= bytes@.len(),
                at + bytes@.len() <= PAGE_SIZE,
                self.raw_data@ == overwritten(before, at as int, bytes@.subrange(0, i as int)),
            decreases bytes@.len() - i,
        {
            self.raw_data[at + i] = bytes[i];
            i += 1;
            assert(self.raw_data@ =~= overwritten(before, at as int, bytes@.subrange(0, i as int)));
        }
        assert(bytes@.subrange(0, bytes@.len() as int) =~= bytes@);
    }
}

impl Default for Page {
    fn default() -> (page: Page)
        ensures
            forall|i: int| 0 <= i < PAGE_SIZE ==> page.raw_data@[i] == 0,
    {
        Page { raw_data: [0u8;16384] }
    }
}

} // verus!
