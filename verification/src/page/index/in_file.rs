//! Reading and changing an index page where it lies in the file, without
//! reading or writing the page as a whole.

use crate::error::Error;
use crate::page::data::overwritten;
use crate::page::index::cells::{
    decode_slots, encode_slots, entry_width, lemma_slot_cells, lemma_value_cell, slot_cells,
    value_cell, value_cell_size, value_stride,
};
use crate::page::index::new_page::NewIndexPage;
use crate::page::index::page::IndexPage;
use crate::page::index::page_bytes::{
    parse_utility, starts_with, utility_bytes, utility_size, IndexPageUtility, IndexUtilityView,
};
use crate::page::index::page_for_unsized::{
    UnsizedIndexPage, UnsizedIndexPageUtility, UnsizedUtilityView,
};
use crate::page::index::unsized_bytes::{
    parse_unsized_utility, unsized_utility_bytes, unsized_utility_storable,
};
use crate::page::index::{zero_value, IndexValue};
use crate::page::util::page_start;
use crate::page::{PageId, GENERAL_HEADER_SIZE, PAGE_SIZE};
use crate::util::key::{entry_size, FixedKey, IndexKey};
use crate::util::persistable::{decode, decoding, lemma_u16_bytes, lemma_u16_of_bytes, Persistable};
use crate::util::vector::{lemma_vector_layout, vector_bytes, vector_ok, vector_size};
use vstd::bytes::*;
use crate::util::sized::lemma_round_up;
use crate::util::text::same_bytes;
use vstd::prelude::*;
use vstd::slice::slice_subrange;

verus! {

/// The inner part of the page `page_id` of a file: all of the page but
/// its header.
pub open spec fn inner_of(file: Seq<u8>, page_id: PageId) -> Seq<u8> {
    file.subrange(page_start(page_id.0) + GENERAL_HEADER_SIZE, page_start(page_id.0) + PAGE_SIZE)
}

/// Whether the file holds the page `page_id` whole.
pub open spec fn has_page(file: Seq<u8>, page_id: PageId) -> bool {
    page_start(page_id.0) + PAGE_SIZE <= file.len()
}

/// Returns the place in the file where the inner part of the page starts,
/// or `None` if the file does not hold the page whole.
fn inner_start(file_length: usize, page_id: PageId) -> (r: Option<usize>)
    ensures
        match r {
            Some(start) => page_start(page_id.0) + PAGE_SIZE <= file_length && start
                == page_start(page_id.0) + GENERAL_HEADER_SIZE,
            None => page_start(page_id.0) + PAGE_SIZE > file_length,
        },
{
    let start: u64 = crate::page::util::page_offset(page_id.0);
    if start + PAGE_SIZE as u64 > file_length as u64 {
        None
    } else {
        Some(start as usize + GENERAL_HEADER_SIZE)
    }
}

/// Writes `bytes` over the file from `at` on.
fn write_over(file: &mut Vec<u8>, at: usize, bytes: &[u8])
    requires
        at + bytes@.len() <= old(file)@.len(),
    ensures
        final(file)@ == overwritten(old(file)@, at as int, bytes@),
{
    let ghost before = file@;
    let total: usize = file.len();
    let mut i: usize = 0;
    assert(file@ =~= overwritten(before, at as int, bytes@.subrange(0, 0)));
    while i < bytes.len()
        invariant
            i <= bytes@.len(),
            at + bytes@.len() <= total,
            total == file@.len(),
            file@.len() == before.len(),
            file@ == overwritten(before, at as int, bytes@.subrange(0, i as int)),
        decreases bytes@.len() - i,
    {
        file[at + i] = bytes[i];
        i += 1;
        assert(file@ =~= overwritten(before, at as int, bytes@.subrange(0, i as int)));
    }
    assert(bytes@.subrange(0, bytes@.len() as int) =~= bytes@);
}

/// Where the cell of the entry `index` starts in the inner part of a page
/// with room for `size` entries.
pub open spec fn cell_start<T: FixedKey>(size: nat, index: int) -> int {
    utility_size::<T>(size) + index * value_stride(T::default_size())
}

/// The bytes of the cell of the entry `index` of the page `page_id`, which
/// has room for `size` entries.
pub open spec fn cell_of<T: FixedKey>(file: Seq<u8>, page_id: PageId, size: nat, index: int) -> Seq<
    u8,
> {
    inner_of(file, page_id).subrange(
        cell_start::<T>(size, index),
        cell_start::<T>(size, index) + value_stride(T::default_size()),
    )
}

/// Whether the cells of a page with room for `size` entries lie inside a
/// page.
pub open spec fn cells_fit<T: FixedKey>(size: nat) -> bool {
    cell_start::<T>(size, size as int) <= PAGE_SIZE - GENERAL_HEADER_SIZE
}

impl<T: FixedKey> IndexPage<T> {
    /// Returns the place in the inner part of a page where the cell of the
    /// entry `index` starts, if the cells of the page lie inside a page.
    fn cell_place(size: usize, index: usize) -> (r: Option<usize>)
        requires
            index < size <= u16::MAX,
        ensures
            match r {
                Some(at) => cells_fit::<T>(size as nat) && at == cell_start::<T>(
                    size as nat,
                    index as int,
                ),
                None => !cells_fit::<T>(size as nat),
            },
    {
        let stride: usize = value_cell_size::<T>();
        proof {
            T::lemma_default_size_fits();
            lemma_round_up(size as nat * 2, 4);
            assert(size * stride <= 0x1_0000 * 0x2_0000) by (nonlinear_arith)
                requires
                    size <= 0x1_0000,
                    stride <= 0x2_0000,
            ;
            assert(index * stride + stride <= size * stride) by (nonlinear_arith)
                requires
                    index < size,
            ;
            assert(0 <= index * stride) by (nonlinear_arith)
                requires
                    0 <= index,
            ;
        }
        let head: u64 = IndexPageUtility::<T>::persisted_size(size) as u64;
        let end: u64 = head + size as u64 * stride as u64;
        if end > (PAGE_SIZE - GENERAL_HEADER_SIZE) as u64 {
            None
        } else {
            Some((head + index as u64 * stride as u64) as usize)
        }
    }

    /// Reads the head of the page `page_id` from the file. Fails with
    /// `Error::Io` if the file does not hold the page whole, and with
    /// `Error::Decode` if the page does not begin with a head.
    pub fn parse_index_page_utility(file: &[u8], page_id: PageId) -> (r: Result<
        IndexPageUtility<T>,
        Error,
    >)
        ensures
            match r {
                Ok(utility) => has_page(file@, page_id) && utility@.slots.len() == utility@.size
                    && starts_with(inner_of(file@, page_id), utility_bytes::<T>(utility@)),
                Err(e) => if has_page(file@, page_id) {
                    e == Error::Decode && forall|u: IndexUtilityView<T::V>|
                        u.slots.len() == u.size ==> !starts_with(
                            inner_of(file@, page_id),
                            #[trigger] utility_bytes::<T>(u),
                        )
                } else {
                    e == Error::Io
                },
            },
    {
        let start = match inner_start(file.len(), page_id) {
            Some(start) => start,
            None => {
                return Err(Error::Io);
            },
        };
        let inner: &[u8] = slice_subrange(
            file,
            start,
            start + (PAGE_SIZE - GENERAL_HEADER_SIZE),
        );
        match parse_utility::<T>(inner) {
            Some((utility, used)) => Ok(utility),
            None => Err(Error::Decode),
        }
    }

    /// Writes the head of the page `page_id` into the file, over the head
    /// that lies there. Fails with `Error::Io`, and writes nothing, if the
    /// file does not hold the page whole, and with `Error::PageFull` if the
    /// head is too long for a page.
    pub fn persist_index_page_utility(
        file: &mut Vec<u8>,
        page_id: PageId,
        utility: &IndexPageUtility<T>,
    ) -> (r: Result<(), Error>)
        requires
            utility@.slots.len() == utility@.size,
        ensures
            match r {
                Ok(()) => has_page(old(file)@, page_id) && final(file)@ == overwritten(
                    old(file)@,
                    page_start(page_id.0) + GENERAL_HEADER_SIZE,
                    utility_bytes::<T>(utility@),
                ),
                Err(e) => final(file)@ == old(file)@ && e == if has_page(old(file)@, page_id) {
                    Error::PageFull
                } else {
                    Error::Io
                },
            },
            r is Err <==> !has_page(old(file)@, page_id) || utility_bytes::<T>(utility@).len()
                > PAGE_SIZE - GENERAL_HEADER_SIZE,
    {
        let start = match inner_start(file.len(), page_id) {
            Some(start) => start,
            None => {
                return Err(Error::Io);
            },
        };
        let bytes: Vec<u8> = utility.as_bytes();
        if bytes.len() > PAGE_SIZE - GENERAL_HEADER_SIZE {
            return Err(Error::PageFull);
        }
        write_over(file, start, bytes.as_slice());
        Ok(())
    }

    /// Reads the entry `index` of the page `page_id`, which has room for
    /// `size` entries, from its cell in the file. Fails with `Error::Io` if
    /// the file does not hold the page whole, and with `Error::Decode` if
    /// the cells do not lie inside a page or the cell holds no entry.
    pub fn read_value_with_index(file: &[u8], page_id: PageId, size: usize, index: usize) -> (r:
        Result<IndexValue<T>, Error>)
        requires
            index < size <= u16::MAX,
        ensures
            match r {
                Ok(value) => has_page(file@, page_id) && cells_fit::<T>(size as nat)
                    && value_cell::<T>(value@) == cell_of::<T>(
                    file@,
                    page_id,
                    size as nat,
                    index as int,
                ),
                Err(e) => if !has_page(file@, page_id) {
                    e == Error::Io
                } else {
                    e == Error::Decode && (cells_fit::<T>(size as nat) ==> forall|
                        value: IndexValue<T::V>,
                    |
                        #[trigger] value_cell::<T>(value) != cell_of::<T>(
                            file@,
                            page_id,
                            size as nat,
                            index as int,
                        ))
                },
            },
    {
        let start = match inner_start(file.len(), page_id) {
            Some(start) => start,
            None => {
                return Err(Error::Io);
            },
        };
        let at = match Self::cell_place(size, index) {
            Some(at) => at,
            None => {
                return Err(Error::Decode);
            },
        };
        let stride: usize = value_cell_size::<T>();
        let inner_len: usize = entry_width::<T>();
        proof {
            assert(index * stride + stride <= size * stride) by (nonlinear_arith)
                requires
                    index < size,
            ;
        }
        let cell: &[u8] = slice_subrange(file, start + at, start + at + stride);
        assert(cell@ =~= cell_of::<T>(file@, page_id, size as nat, index as int));
        let value = match IndexValue::<T>::from_bytes(slice_subrange(cell, 0, inner_len)) {
            Ok(value) => value,
            Err(_) => {
                proof {
                    assert forall|value: IndexValue<T::V>| #[trigger] value_cell::<T>(value)
                        != cell@ by {
                        lemma_value_cell::<T>(value);
                        if value_cell::<T>(value) == cell@ {
                            assert(IndexValue::<T>::encoding(value) == cell@.subrange(
                                0,
                                inner_len as int,
                            ));
                        }
                    }
                }
                return Err(Error::Decode);
            },
        };
        let mut k: usize = inner_len;
        while k < stride
            invariant
                inner_len <= k <= stride,
                cell@.len() == stride,
                stride == value_stride(T::default_size()),
                inner_len == entry_size::<T>(T::default_size()),
                has_page(file@, page_id),
                cells_fit::<T>(size as nat),
                cell@ == cell_of::<T>(file@, page_id, size as nat, index as int),
                forall|j: int| inner_len <= j < k ==> cell@[j] == 0,
            decreases stride - k,
        {
            if cell[k] != 0 {
                proof {
                    assert forall|value: IndexValue<T::V>| #[trigger] value_cell::<T>(value)
                        != cell@ by {
                        lemma_value_cell::<T>(value);
                    }
                }
                return Err(Error::Decode);
            }
            k += 1;
        }
        proof {
            lemma_value_cell::<T>(value@);
            assert(value_cell::<T>(value@) =~= cell@);
        }
        Ok(value)
    }

    /// Writes `value` into the cell of the entry `value_index` of the page
    /// `page_id`, which has room for `size` entries, and looks for the
    /// next entry behind it whose cell holds the zero entry. Returns the
    /// place of that entry, or `None` if every cell behind holds an
    /// entry: the page is then full from there on. Fails with `Error::Io`,
    /// and writes nothing, if the file does not hold the page whole, and
    /// with `Error::PageFull` if the cells do not lie inside a page.
    pub fn persist_value(
        file: &mut Vec<u8>,
        page_id: PageId,
        size: usize,
        value: &IndexValue<T>,
        value_index: u16,
    ) -> (r: Result<Option<u16>, Error>)
        requires
            value_index < size <= u16::MAX,
        ensures
            match r {
                Ok(next) => {
                    &&& has_page(old(file)@, page_id)
                    &&& cells_fit::<T>(size as nat)
                    &&& final(file)@ == overwritten(
                        old(file)@,
                        page_start(page_id.0) + GENERAL_HEADER_SIZE + cell_start::<T>(
                            size as nat,
                            value_index as int,
                        ),
                        value_cell::<T>(value@),
                    )
                    &&& match next {
                        Some(free) => value_index < free < size && cell_of::<T>(
                            final(file)@,
                            page_id,
                            size as nat,
                            free as int,
                        ) == value_cell::<T>(zero_value::<T>()) && forall|j: int|
                            value_index < j < free ==> #[trigger] cell_of::<T>(
                                final(file)@,
                                page_id,
                                size as nat,
                                j,
                            ) != value_cell::<T>(zero_value::<T>()),
                        None => forall|j: int|
                            value_index < j < size ==> #[trigger] cell_of::<T>(
                                final(file)@,
                                page_id,
                                size as nat,
                                j,
                            ) != value_cell::<T>(zero_value::<T>()),
                    }
                },
                Err(e) => final(file)@ == old(file)@ && e == if has_page(old(file)@, page_id) {
                    Error::PageFull
                } else {
                    Error::Io
                },
            },
            r is Err <==> !has_page(old(file)@, page_id) || !cells_fit::<T>(size as nat),
    {
        let start = match inner_start(file.len(), page_id) {
            Some(start) => start,
            None => {
                return Err(Error::Io);
            },
        };
        let at = match Self::cell_place(size, value_index as usize) {
            Some(at) => at,
            None => {
                return Err(Error::PageFull);
            },
        };
        let stride: usize = value_cell_size::<T>();
        proof {
            assert(value_index * stride + stride <= size * stride) by (nonlinear_arith)
                requires
                    value_index < size,
            ;
        }
        let cell: Vec<u8> = cell_bytes::<T>(value);
        let ghost before = file@;
        write_over(file, start + at, cell.as_slice());
        let zero: Vec<u8> = cell_bytes::<T>(&IndexValue::<T>::zero());
        let first: usize = at - value_index as usize * stride;
        let mut next: usize = value_index as usize + 1;
        let total: usize = file.len();
        while next < size
            invariant
                value_index < next <= size,
                size <= u16::MAX,
                total == file@.len(),
                before == old(file)@,
                has_page(before, page_id),
                file@.len() == before.len(),
                file@ == overwritten(
                    before,
                    page_start(page_id.0) + GENERAL_HEADER_SIZE + cell_start::<T>(
                        size as nat,
                        value_index as int,
                    ),
                    value_cell::<T>(value@),
                ),
                stride == value_stride(T::default_size()),
                0 < stride,
                cells_fit::<T>(size as nat),
                first == utility_size::<T>(size as nat),
                start == page_start(page_id.0) + GENERAL_HEADER_SIZE,
                has_page(file@, page_id),
                zero@ == value_cell::<T>(zero_value::<T>()),
                forall|j: int|
                    value_index < j < next ==> #[trigger] cell_of::<T>(
                        file@,
                        page_id,
                        size as nat,
                        j,
                    ) != value_cell::<T>(zero_value::<T>()),
            decreases size - next,
        {
            proof {
                assert(next * stride + stride <= size * stride) by (nonlinear_arith)
                    requires
                        next < size,
                ;
                assert(0 <= next * stride) by (nonlinear_arith)
                    requires
                        0 <= next,
                ;
            }
            assert(start + first + size * stride <= total);
            let place: usize = start + first + next * stride;
            let other: &[u8] = slice_subrange(file.as_slice(), place, place + stride);
            assert(other@ =~= cell_of::<T>(file@, page_id, size as nat, next as int));
            if same_bytes(other, zero.as_slice()) {
                return Ok(Some(next as u16));
            }
            next += 1;
        }
        Ok(None)
    }

    /// Writes the zero entry into the cell of the entry `value_index` of
    /// the page `page_id`, which has room for `size` entries. Fails with
    /// `Error::Io`, and writes nothing, if the file does not hold the page
    /// whole, and with `Error::PageFull` if the cells do not lie inside a
    /// page.
    pub fn remove_value(file: &mut Vec<u8>, page_id: PageId, size: usize, value_index: u16) -> (r:
        Result<(), Error>)
        requires
            value_index < size <= u16::MAX,
        ensures
            match r {
                Ok(()) => has_page(old(file)@, page_id) && cells_fit::<T>(size as nat) && final(file)@ == overwritten(
                    old(file)@,
                    page_start(page_id.0) + GENERAL_HEADER_SIZE + cell_start::<T>(
                        size as nat,
                        value_index as int,
                    ),
                    value_cell::<T>(zero_value::<T>()),
                ),
                Err(e) => final(file)@ == old(file)@ && e == if has_page(old(file)@, page_id) {
                    Error::PageFull
                } else {
                    Error::Io
                },
            },
            r is Err <==> !has_page(old(file)@, page_id) || !cells_fit::<T>(size as nat),
    {
        let start = match inner_start(file.len(), page_id) {
            Some(start) => start,
            None => {
                return Err(Error::Io);
            },
        };
        let at = match Self::cell_place(size, value_index as usize) {
            Some(at) => at,
            None => {
                return Err(Error::PageFull);
            },
        };
        proof {
            let stride = value_stride(T::default_size());
            assert(value_index * stride + stride <= size * stride) by (nonlinear_arith)
                requires
                    value_index < size,
            ;
        }
        let zero: Vec<u8> = cell_bytes::<T>(&IndexValue::<T>::zero());
        write_over(file, start + at, zero.as_slice());
        Ok(())
    }
}

/// Returns the cell of an entry: its byte form, and zeroes up to the size
/// of a cell.
pub fn cell_bytes<T: FixedKey>(value: &IndexValue<T>) -> (cell: Vec<u8>)
    ensures
        cell@ == value_cell::<T>(value@),
        cell@.len() == value_stride(T::default_size()),
{
    let stride: usize = value_cell_size::<T>();
    proof {
        lemma_value_cell::<T>(value@);
    }
    let mut cell: Vec<u8> = value.as_bytes();
    let ghost start = cell@;
    let first: usize = cell.len();
    let mut k: usize = cell.len();
    assert(cell@ =~= start + crate::util::text::filler(0, 0));
    while k < stride
        invariant
            first <= k <= stride,
            cell@ == start + crate::util::text::filler(k - first, 0),
        decreases stride - k,
    {
        cell.push(0);
        k += 1;
        assert(cell@ =~= start + crate::util::text::filler(k - first, 0));
    }
    cell
}

impl<T: IndexKey, const DATA_LENGTH: u32> UnsizedIndexPage<T, DATA_LENGTH> {
    /// Reads the head of the page `page_id` from the file. Fails with
    /// `Error::Io` if the file does not hold the page whole, and with
    /// `Error::Decode` if the page does not begin with a head.
    pub fn parse_index_page_utility(file: &[u8], page_id: PageId) -> (r: Result<
        UnsizedIndexPageUtility<T>,
        Error,
    >)
        ensures
            match r {
                Ok(utility) => has_page(file@, page_id) && unsized_utility_storable::<T>(utility@)
                    && starts_with(inner_of(file@, page_id), unsized_utility_bytes::<T>(utility@)),
                Err(e) => if has_page(file@, page_id) {
                    e == Error::Decode && forall|u: UnsizedUtilityView<T::V>|
                        unsized_utility_storable::<T>(u) ==> !starts_with(
                            inner_of(file@, page_id),
                            #[trigger] unsized_utility_bytes::<T>(u),
                        )
                } else {
                    e == Error::Io
                },
            },
    {
        let start = match inner_start(file.len(), page_id) {
            Some(start) => start,
            None => {
                return Err(Error::Io);
            },
        };
        let inner: &[u8] = slice_subrange(
            file,
            start,
            start + (PAGE_SIZE - GENERAL_HEADER_SIZE),
        );
        match parse_unsized_utility::<T>(inner) {
            Some((utility, used)) => Ok(utility),
            None => Err(Error::Decode),
        }
    }

    /// Writes the entry `value` into the page `page_id` below the entries
    /// that reach `current_offset` bytes from the end of the page, and
    /// returns how far the entries reach then. Fails with `Error::Io`, and
    /// writes nothing, if the file does not hold the page whole, and with
    /// `Error::PageFull` if the page has no room for the entry.
    pub fn persist_value(
        file: &mut Vec<u8>,
        page_id: PageId,
        current_offset: u32,
        value: &IndexValue<T>,
    ) -> (r: Result<u32, Error>)
        requires
            T::storable(value@.key),
        ensures
            match r {
                Ok(offset) => has_page(old(file)@, page_id) && offset == current_offset
                    + IndexValue::<T>::encoding(value@).len() && offset <= PAGE_SIZE
                    - GENERAL_HEADER_SIZE && final(file)@ == overwritten(
                    old(file)@,
                    page_start(page_id.0) + PAGE_SIZE - offset,
                    IndexValue::<T>::encoding(value@),
                ),
                Err(e) => final(file)@ == old(file)@ && e == if has_page(old(file)@, page_id) {
                    Error::PageFull
                } else {
                    Error::Io
                },
            },
            r is Err <==> !has_page(old(file)@, page_id) || current_offset
                + IndexValue::<T>::encoding(value@).len() > PAGE_SIZE - GENERAL_HEADER_SIZE,
    {
        let start = match inner_start(file.len(), page_id) {
            Some(start) => start,
            None => {
                return Err(Error::Io);
            },
        };
        let bytes: Vec<u8> = value.as_bytes();
        let offset: u128 = current_offset as u128 + bytes.len() as u128;
        if offset > (PAGE_SIZE - GENERAL_HEADER_SIZE) as u128 {
            return Err(Error::PageFull);
        }
        let end: usize = start + (PAGE_SIZE - GENERAL_HEADER_SIZE);
        write_over(file, end - offset as usize, bytes.as_slice());
        Ok(offset as u32)
    }

    /// Reads the entry of `len` bytes that starts `offset` bytes before the
    /// end of the page `page_id`. Fails with `Error::Io` if the file does
    /// not hold the page whole, and with `Error::Decode` if the bytes lie
    /// outside the inner part of the page or hold no entry.
    pub fn read_value_with_offset(file: &[u8], page_id: PageId, offset: u32, len: u16) -> (r:
        Result<IndexValue<T>, Error>)
        ensures
            match r {
                Ok(value) => has_page(file@, page_id) && len <= offset <= PAGE_SIZE
                    - GENERAL_HEADER_SIZE && decoding::<IndexValue<T>>(
                    file@.subrange(
                        page_start(page_id.0) + PAGE_SIZE - offset,
                        page_start(page_id.0) + PAGE_SIZE - offset + len,
                    ),
                ) == Some(value@),
                Err(e) => if has_page(file@, page_id) {
                    e == Error::Decode && (!(len <= offset <= PAGE_SIZE - GENERAL_HEADER_SIZE)
                        || decoding::<IndexValue<T>>(
                        file@.subrange(
                            page_start(page_id.0) + PAGE_SIZE - offset,
                            page_start(page_id.0) + PAGE_SIZE - offset + len,
                        ),
                    ) is None)
                } else {
                    e == Error::Io
                },
            },
    {
        let start = match inner_start(file.len(), page_id) {
            Some(start) => start,
            None => {
                return Err(Error::Io);
            },
        };
        if offset as usize > PAGE_SIZE - GENERAL_HEADER_SIZE || len as u32 > offset {
            return Err(Error::Decode);
        }
        let end: usize = start + (PAGE_SIZE - GENERAL_HEADER_SIZE);
        let from: usize = end - offset as usize;
        decode::<IndexValue<T>>(slice_subrange(file, from, from + len as usize))
    }
}

/// Where the count of the entries of a page with keys of `T` lies, counted
/// from the start of the page in the file: behind the header, the size
/// and the `node_id`.
pub open spec fn count_place<T: FixedKey>() -> int {
    GENERAL_HEADER_SIZE + T::default_size() + 2
}

/// Where the cell of the entry `index` lies in a page that counts its
/// entries in one field and has room for `size` entries, counted from the
/// start of the page in the file.
pub open spec fn counted_cell_place<T: FixedKey>(size: nat, index: nat) -> int {
    count_place::<T>() + 2 + vector_size(size, 2) + index * value_stride(T::default_size())
}

impl<T: FixedKey> NewIndexPage<T> {
    /// Reads the slots and the count of the entries of the page `page_id`,
    /// which has room for `size` entries. Fails with `Error::Io` if the
    /// file does not hold the page whole, and with `Error::Decode` if the
    /// slots do not lie inside the page or the bytes are no vector of
    /// slots.
    pub fn parse_slots_and_values_count(file: &[u8], page_id: PageId, size: usize) -> (r: Result<
        (Vec<u16>, u16),
        Error,
    >)
        requires
            size <= u16::MAX,
        ensures
            match r {
                Ok((slots, count)) => {
                    let at = page_start(page_id.0) + count_place::<T>();
                    &&& has_page(file@, page_id)
                    &&& count_place::<T>() + 2 + vector_size(size as nat, 2) <= PAGE_SIZE
                    &&& spec_u16_to_le_bytes(count) == file@.subrange(at, at + 2)
                    &&& vector_ok(slot_cells(slots@), 2)
                    &&& vector_bytes(slot_cells(slots@), 2) == file@.subrange(
                        at + 2,
                        at + 2 + vector_size(size as nat, 2),
                    )
                },
                Err(e) => if !has_page(file@, page_id) {
                    e == Error::Io
                } else {
                    let at = page_start(page_id.0) + count_place::<T>();
                    e == Error::Decode && (count_place::<T>() + 2 + vector_size(size as nat, 2)
                        <= PAGE_SIZE ==> forall|slots: Seq<u16>|
                        vector_ok(#[trigger] slot_cells(slots), 2) ==> vector_bytes(
                            slot_cells(slots),
                            2,
                        ) != file@.subrange(at + 2, at + 2 + vector_size(size as nat, 2)))
                },
            },
    {
        let start = match inner_start(file.len(), page_id) {
            Some(start) => start,
            None => {
                return Err(Error::Io);
            },
        };
        let offset: usize = Self::values_count_offset();
        let length: usize = Self::slots_length(size);
        proof {
            T::lemma_default_size_fits();
            lemma_round_up(size as nat * 2, 4);
        }
        if offset + 2 + length > PAGE_SIZE {
            return Err(Error::Decode);
        }
        let at: usize = start - GENERAL_HEADER_SIZE + offset;
        let count_bytes: &[u8] = slice_subrange(file, at, at + 2);
        let count: u16 = u16_from_le_bytes(count_bytes);
        proof {
            lemma_u16_of_bytes(count_bytes@);
        }
        match decode_slots(slice_subrange(file, at + 2, at + 2 + length)) {
            Some(slots) => Ok((slots, count)),
            None => Err(Error::Decode),
        }
    }

    /// Writes the count of the entries and the slots into the page
    /// `page_id`, over what lies there. Fails with `Error::Io` if the file
    /// does not hold the page whole, and with `Error::PageFull` if the
    /// slots do not end inside the page; nothing is written then.
    pub fn persist_slots(
        file: &mut Vec<u8>,
        page_id: PageId,
        slots: &Vec<u16>,
        values_count: u16,
    ) -> (r: Result<(), Error>)
        requires
            slots@.len() <= u16::MAX,
        ensures
            match r {
                Ok(()) => has_page(old(file)@, page_id) && final(file)@ == overwritten(
                    old(file)@,
                    page_start(page_id.0) + count_place::<T>(),
                    spec_u16_to_le_bytes(values_count) + vector_bytes(slot_cells(slots@), 2),
                ),
                Err(e) => final(file)@ == old(file)@ && e == if has_page(old(file)@, page_id) {
                    Error::PageFull
                } else {
                    Error::Io
                },
            },
            r is Err <==> !has_page(old(file)@, page_id) || count_place::<T>() + 2 + vector_size(
                slots@.len(),
                2,
            ) > PAGE_SIZE,
    {
        let start = match inner_start(file.len(), page_id) {
            Some(start) => start,
            None => {
                return Err(Error::Io);
            },
        };
        let offset: usize = Self::values_count_offset();
        let mut bytes: Vec<u8> = u16_to_le_bytes(values_count);
        let mut tail: Vec<u8> = encode_slots(slots);
        proof {
            T::lemma_default_size_fits();
            lemma_round_up(slots@.len() * 2, 4);
            lemma_u16_bytes(values_count);
            lemma_slot_cells(slots@, slots@);
            lemma_vector_layout(slot_cells(slots@), 2);
        }
        bytes.append(&mut tail);
        if offset + bytes.len() > PAGE_SIZE {
            return Err(Error::PageFull);
        }
        write_over(file, start - GENERAL_HEADER_SIZE + offset, bytes.as_slice());
        Ok(())
    }

    /// Writes the entry `value` into the cell `value_index` of the page
    /// `page_id`, which has room for `size` entries. Fails with
    /// `Error::Io` if the file does not hold the page whole, and with
    /// `Error::PageFull` if the cell does not end inside the page; nothing
    /// is written then.
    pub fn persist_value(
        file: &mut Vec<u8>,
        page_id: PageId,
        size: usize,
        value: &IndexValue<T>,
        value_index: u16,
    ) -> (r: Result<(), Error>)
        requires
            size <= u16::MAX,
        ensures
            match r {
                Ok(()) => has_page(old(file)@, page_id) && final(file)@ == overwritten(
                    old(file)@,
                    page_start(page_id.0) + counted_cell_place::<T>(
                        size as nat,
                        value_index as nat,
                    ),
                    IndexValue::<T>::encoding(value@),
                ),
                Err(e) => final(file)@ == old(file)@ && e == if has_page(old(file)@, page_id) {
                    Error::PageFull
                } else {
                    Error::Io
                },
            },
            r is Err <==> !has_page(old(file)@, page_id) || counted_cell_place::<T>(
                size as nat,
                value_index as nat,
            ) + value_stride(T::default_size()) > PAGE_SIZE,
    {
        let start = match inner_start(file.len(), page_id) {
            Some(start) => start,
            None => {
                return Err(Error::Io);
            },
        };
        let stride: u64 = value_cell_size::<T>() as u64;
        proof {
            T::lemma_default_size_fits();
            lemma_round_up(size as nat * 2, 4);
            assert(0 <= value_index * stride <= 0xffff * 0x2_0000) by (nonlinear_arith)
                requires
                    0 <= value_index <= 0xffff,
                    0 <= stride <= 0x2_0000,
            ;
            lemma_value_cell::<T>(value@);
        }
        let place: u64 = Self::values_count_offset() as u64 + 2 + Self::slots_length(size) as u64
            + value_index as u64 * stride;
        if place + stride > PAGE_SIZE as u64 {
            return Err(Error::PageFull);
        }
        let bytes: Vec<u8> = value.as_bytes();
        write_over(file, start - GENERAL_HEADER_SIZE + place as usize, bytes.as_slice());
        Ok(())
    }
}

} // verus!
