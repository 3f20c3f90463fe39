//! [`DataPage`]: a buffer of row bytes that links point into.

use crate::error::Error;
use crate::link::Link;
use crate::util::persistable::Persistable;
use vstd::prelude::*;
use vstd::slice::slice_subrange;

verus! {

/// `DATA_LENGTH` bytes of row data, of which the first `length` are in use.
#[derive(Debug)]
pub struct DataPage<const DATA_LENGTH: usize> {
    pub length: u32,
    pub data: [u8; DATA_LENGTH],
}

/// `data` with `bytes` written over it from `offset` on.
pub open spec fn overwritten(data: Seq<u8>, offset: int, bytes: Seq<u8>) -> Seq<u8> {
    Seq::new(
        data.len(),
        |i: int|
            if offset <= i < offset + bytes.len() {
                bytes[i - offset]
            } else {
                data[i]
            },
    )
}

impl<const DATA_LENGTH: usize> View for DataPage<DATA_LENGTH> {
    type V = (u32, Seq<u8>);

    open spec fn view(&self) -> (u32, Seq<u8>) {
        (self.length, self.data@)
    }
}

impl<const DATA_LENGTH: usize> DataPage<DATA_LENGTH> {
    /// Whether the link ends inside the page, at a place that a 32-bit
    /// length in use can name.
    pub open spec fn in_bounds(link: Link) -> bool {
        link.offset + link.length <= DATA_LENGTH && link.offset + link.length <= u32::MAX
    }

    /// What `update_at` answers to a link and data of `data_length` bytes:
    /// the data must be as long as the link says, and the link must end
    /// inside the page.
    pub open spec fn link_check(link: Link, data_length: usize) -> Result<(), Error> {
        if data_length != link.length {
            Err(Error::LengthMismatch { data_length, link_length: link.length })
        } else if !Self::in_bounds(link) {
            Err(Error::OutOfBounds { offset: link.offset, length: link.length, bound: DATA_LENGTH })
        } else {
            Ok(())
        }
    }

    /// Writes `new_data` at the place that `link` points to and raises the
    /// length in use to the end of the link if it was below it. Fails, and
    /// leaves the page as it was, if the data are not as long as the link
    /// says or the link ends outside the page.
    pub fn update_at(&mut self, link: Link, new_data: &[u8]) -> (r: Result<(), Error>)
        ensures
            r == Self::link_check(link, new_data@.len() as usize),
            r is Err ==> *final(self) == *old(self),
            r is Ok ==> final(self).data@ == overwritten(
                old(self).data@,
                link.offset as int,
                new_data@,
            ),
            r is Ok ==> final(self).length == if old(self).length >= link.offset + link.length {
                old(self).length
            } else {
                (link.offset + link.length) as u32
            },
    {
        if new_data.len() != link.length as usize {
            return Err(
                Error::LengthMismatch { data_length: new_data.len(), link_length: link.length },
            );
        }
        let end: u64 = link.offset as u64 + link.length as u64;
        if end > DATA_LENGTH as u64 || end > u32::MAX as u64 {
            return Err(
                Error::OutOfBounds {
                    offset: link.offset,
                    length: link.length,
                    bound: DATA_LENGTH,
                },
            );
        }
        let start: usize = link.offset as usize;
        let count: usize = new_data.len();
        let mut i: usize = 0;
        while i < count
            invariant
                i <= count,
                count == new_data@.len(),
                start + count <= DATA_LENGTH,
                self.length == old(self).length,
                self.data@ == overwritten(
                    old(self).data@,
                    start as int,
                    new_data@.subrange(0, i as int),
                ),
            decreases count - i,
        {
            self.data[start + i] = new_data[i];
            i += 1;
            assert(self.data@ =~= overwritten(
                old(self).data@,
                start as int,
                new_data@.subrange(0, i as int),
            ));
        }
        assert(new_data@.subrange(0, count as int) =~= new_data@);
        if self.length < link.offset + link.length {
            self.length = link.offset + link.length;
        }
        Ok(())
    }

    /// Returns the bytes that `link` points to, or fails if the link ends
    /// outside the page.
    pub fn get_at(&self, link: Link) -> (r: Result<&[u8], Error>)
        ensures
            match r {
                Ok(bytes) => Self::in_bounds(link) && bytes@ == self.data@.subrange(
                    link.offset as int,
                    link.offset + link.length,
                ),
                Err(e) => !Self::in_bounds(link) && e == (Error::OutOfBounds {
                    offset: link.offset,
                    length: link.length,
                    bound: DATA_LENGTH,
                }),
            },
    {
        let end: u64 = link.offset as u64 + link.length as u64;
        if end > DATA_LENGTH as u64 || end > u32::MAX as u64 {
            return Err(
                Error::OutOfBounds {
                    offset: link.offset,
                    length: link.length,
                    bound: DATA_LENGTH,
                },
            );
        }
        let start: usize = link.offset as usize;
        Ok(slice_subrange(self.data.as_slice(), start, end as usize))
    }
}

/// The byte form of a data page is its bytes in use. A page has one if the
/// bytes beyond those are zero, so that the bytes in use tell the page.
impl<const DATA_LENGTH: usize> Persistable for DataPage<DATA_LENGTH> {
    open spec fn storable(v: (u32, Seq<u8>)) -> bool {
        &&& v.1.len() == DATA_LENGTH
        &&& v.0 <= DATA_LENGTH
        &&& forall|i: int| v.0 <= i < DATA_LENGTH ==> v.1[i] == 0
    }

    open spec fn encoding(v: (u32, Seq<u8>)) -> Seq<u8> {
        v.1.subrange(0, v.0 as int)
    }

    proof fn lemma_encoding_injective(a: (u32, Seq<u8>), b: (u32, Seq<u8>)) {
        assert(Self::encoding(a).len() == a.0);
        assert(Self::encoding(b).len() == b.0);
        assert forall|i: int| 0 <= i < DATA_LENGTH implies a.1[i] == b.1[i] by {
            if i < a.0 {
                assert(Self::encoding(a)[i] == a.1[i]);
                assert(Self::encoding(b)[i] == b.1[i]);
            }
        }
        assert(a.1 =~= b.1);
    }

    fn is_storable(&self) -> (r: bool) {
        if self.length as u64 > DATA_LENGTH as u64 {
            return false;
        }
        let mut i: usize = self.length as usize;
        while i < DATA_LENGTH
            invariant
                self.length <= i <= DATA_LENGTH,
                forall|j: int| self.length <= j < i ==> self.data@[j] == 0,
            decreases DATA_LENGTH - i,
        {
            if self.data[i] != 0 {
                return false;
            }
            i += 1;
        }
        true
    }

    fn as_bytes(&self) -> (bytes: Vec<u8>) {
        let mut bytes: Vec<u8> = Vec::new();
        let count: usize = self.length as usize;
        let mut i: usize = 0;
        while i < count
            invariant
                i <= count,
                count <= DATA_LENGTH,
                bytes@ == self.data@.subrange(0, i as int),
            decreases count - i,
        {
            bytes.push(self.data[i]);
            i += 1;
            assert(bytes@ =~= self.data@.subrange(0, i as int));
        }
        bytes
    }

    fn from_bytes(bytes: &[u8]) -> (r: Result<Self, Error>) {
        if bytes.len() > DATA_LENGTH || bytes.len() > u32::MAX as usize {
            proof {
                assert forall|v: (u32, Seq<u8>)| Self::storable(v) implies #[trigger] Self::encoding(
                    v,
                ) != bytes@ by {
                    assert(Self::encoding(v).len() == v.0);
                }
            }
            return Err(Error::Decode);
        }
        let mut data: [u8; DATA_LENGTH] = [0u8;DATA_LENGTH];
        let count: usize = bytes.len();
        let mut i: usize = 0;
        while i < count
            invariant
                i <= count,
                count == bytes@.len(),
                count <= DATA_LENGTH,
                forall|j: int| 0 <= j < i ==> data@[j] == bytes@[j],
                forall|j: int| i <= j < DATA_LENGTH ==> data@[j] == 0,
            decreases count - i,
        {
            data[i] = bytes[i];
            i += 1;
        }
        let page = DataPage { length: count as u32, data };
        assert(Self::encoding(page@) =~= bytes@);
        Ok(page)
    }
}

} // verus!
