//! Where pages and links lie in the file, and how data pages are chained.

use crate::error::Error;
use crate::link::Link;
use crate::page::data::DataPage;
use crate::page::header::{GeneralHeader, DATA_VERSION};
use crate::page::ty::PageType;
use crate::page::{GeneralPage, PageId, GENERAL_HEADER_SIZE, PAGE_SIZE};
use crate::page::header::{header_bytes, lemma_header_layout};
use crate::page::INNER_PAGE_SIZE;
use crate::space;
use crate::util::persistable::{
    decode, decoding, lemma_decoding_is, lemma_round_trip, Persistable,
};
use crate::util::text::filler;
use vstd::prelude::*;
use vstd::slice::slice_subrange;

verus! {

/// The header of the `i`-th of `count` data pages that are chained from
/// page 1 on in the space 0: each page names the page before it and the
/// page behind it, and the last page names none behind it.
pub open spec fn chained_header(i: int, count: int) -> GeneralHeader {
    GeneralHeader {
        data_version: DATA_VERSION,
        space_id: space::Id(0),
        page_id: PageId((i + 1) as u32),
        previous_id: PageId(i as u32),
        next_id: if i + 1 < count {
            PageId((i + 2) as u32)
        } else {
            PageId(0)
        },
        page_type: PageType::Data,
        data_length: PAGE_SIZE as u32,
    }
}

/// Gives each data page its header: the pages are numbered from 1 on,
/// page 0 being the space's description, and chained in their order.
pub fn map_data_pages_to_general<const DATA_LENGTH: usize>(pages: Vec<DataPage<DATA_LENGTH>>) -> (r:
    Vec<GeneralPage<DataPage<DATA_LENGTH>>>)
    requires
        pages@.len() < u32::MAX,
    ensures
        r@.len() == pages@.len(),
        forall|i: int| 0 <= i < r@.len() ==> (#[trigger] r@[i]).inner == pages@[i],
        forall|i: int|
            0 <= i < r@.len() ==> (#[trigger] r@[i]).header == chained_header(i, r@.len() as int),
{
    let count: usize = pages.len();
    let mut pages = pages;
    let ghost all = pages@;
    let mut reversed: Vec<DataPage<DATA_LENGTH>> = Vec::new();
    while pages.len() > 0
        invariant
            pages@.len() + reversed@.len() == count,
            all.len() == count,
            forall|i: int| 0 <= i < pages@.len() ==> pages@[i] == all[i],
            forall|i: int| 0 <= i < reversed@.len() ==> reversed@[i] == all[count - 1 - i],
        decreases pages@.len(),
    {
        match pages.pop() {
            Some(page) => {
                reversed.push(page);
            },
            None => {},
        }
    }
    let mut general_pages: Vec<GeneralPage<DataPage<DATA_LENGTH>>> = Vec::new();
    let mut i: usize = 0;
    while i < count
        invariant
            i <= count,
            count < u32::MAX,
            all.len() == count,
            reversed@.len() == count - i,
            forall|j: int| 0 <= j < reversed@.len() ==> reversed@[j] == all[count - 1 - j],
            general_pages@.len() == i,
            forall|j: int| 0 <= j < i ==> (#[trigger] general_pages@[j]).inner == all[j],
            forall|j: int|
                0 <= j < i ==> (#[trigger] general_pages@[j]).header == chained_header(
                    j,
                    count as int,
                ),
        decreases count - i,
    {
        match reversed.pop() {
            Some(page) => {
                let mut header = GeneralHeader::new(
                    PageId((i + 1) as u32),
                    PageType::Data,
                    space::Id(0),
                );
                header.previous_id = PageId(i as u32);
                if i + 1 < count {
                    header.next_id = PageId((i + 2) as u32);
                }
                general_pages.push(GeneralPage { header, inner: page });
            },
            None => {},
        }
        i += 1;
    }
    general_pages
}

/// The place in the file where the page `index` starts.
pub open spec fn page_start(index: u32) -> int {
    index * PAGE_SIZE
}

/// Returns the place in the file where the page `index` starts.
pub fn page_offset(index: u32) -> (offset: u64)
    ensures
        offset == page_start(index),
{
    let size: u64 = PAGE_SIZE as u64;
    assert(index * size <= 0xffff_ffff * 16384) by (nonlinear_arith)
        requires
            index <= 0xffff_ffff,
            size == 16384,
    ;
    index as u64 * size
}

/// Returns the place in the file of the first byte that `link` points to:
/// behind the header of the link's page, `offset` bytes into its data.
pub fn link_offset(link: Link) -> (offset: u64)
    ensures
        offset == page_start(link.page_id.0) + GENERAL_HEADER_SIZE + link.offset,
{
    let size: u64 = PAGE_SIZE as u64;
    assert(link.page_id.0 * size <= 0xffff_ffff * 16384) by (nonlinear_arith)
        requires
            link.page_id.0 <= 0xffff_ffff,
            size == 16384,
    ;
    link.page_id.0 as u64 * size + GENERAL_HEADER_SIZE as u64 + link.offset as u64
}

/// Returns how far to move from `position` to the start of the page
/// `index`: forwards if the result is positive, backwards if not.
pub fn page_offset_from(position: u64, index: u32) -> (step: i128)
    ensures
        step == page_start(index) - position,
{
    let size: u64 = PAGE_SIZE as u64;
    assert(index * size <= 0xffff_ffff * 16384) by (nonlinear_arith)
        requires
            index <= 0xffff_ffff,
            size == 16384,
    ;
    (index as u64 * size) as i128 - position as i128
}

/// A page as it lies in the file: the header, which holds the length of
/// the inner part, the inner part, and zeroes up to the size of a page.
pub open spec fn page_image(header: GeneralHeader, inner: Seq<u8>) -> Seq<u8> {
    header_bytes(GeneralHeader { data_length: inner.len() as u32, ..header }) + inner + filler(
        INNER_PAGE_SIZE - inner.len(),
        0,
    )
}

/// The bytes of the inner part of a page in the file, as its header tells
/// their number; a header that tells 0 stands for a full page.
pub open spec fn inner_bytes(image: Seq<u8>, header: GeneralHeader) -> Seq<u8> {
    if header.data_length == 0 {
        image.subrange(GENERAL_HEADER_SIZE as int, PAGE_SIZE as int)
    } else {
        image.subrange(GENERAL_HEADER_SIZE as int, GENERAL_HEADER_SIZE + header.data_length)
    }
}

/// What a page in the file reads as: its header and its inner part, if
/// the bytes are a page and both can be read.
pub open spec fn page_of_image<T: Persistable>(image: Seq<u8>) -> Option<(GeneralHeader, T::V)> {
    if image.len() != PAGE_SIZE {
        None
    } else {
        match decoding::<GeneralHeader>(image.subrange(0, GENERAL_HEADER_SIZE as int)) {
            None => None,
            Some(header) => if header.data_length > INNER_PAGE_SIZE {
                None
            } else {
                match decoding::<T>(inner_bytes(image, header)) {
                    None => None,
                    Some(inner) => Some((header, inner)),
                }
            },
        }
    }
}

/// A page that was written reads as itself, with the length of its inner
/// part in the header, if its inner part has a byte form that is not
/// empty and fits a page.
pub proof fn lemma_page_round_trip<T: Persistable>(header: GeneralHeader, inner: T::V)
    requires
        T::storable(inner),
        0 < T::encoding(inner).len() <= INNER_PAGE_SIZE,
    ensures
        page_image(header, T::encoding(inner)).len() == PAGE_SIZE,
        page_of_image::<T>(page_image(header, T::encoding(inner))) == Some(
            (GeneralHeader { data_length: T::encoding(inner).len() as u32, ..header }, inner),
        ),
{
    let bytes = T::encoding(inner);
    let written = GeneralHeader { data_length: bytes.len() as u32, ..header };
    let image = page_image(header, bytes);
    lemma_header_layout(written);
    assert(image.subrange(0, GENERAL_HEADER_SIZE as int) =~= header_bytes(written));
    lemma_decoding_is::<GeneralHeader>(header_bytes(written), written);
    assert(inner_bytes(image, written) =~= bytes);
    lemma_round_trip::<T>(inner);
}

/// Returns the page as it lies in the file and puts the length of its
/// inner part into its header; returns `None`, and leaves the header as it
/// was, if the inner part does not fit a page.
pub fn frame_page<T: Persistable>(page: &mut GeneralPage<T>) -> (r: Option<Vec<u8>>)
    requires
        T::storable(old(page).inner@),
    ensures
        final(page).inner == old(page).inner,
        match r {
            Some(image) => T::encoding(old(page).inner@).len() <= INNER_PAGE_SIZE && final(page).header == (GeneralHeader {
                data_length: T::encoding(old(page).inner@).len() as u32,
                ..old(page).header
            }) && image@ == page_image(old(page).header, T::encoding(old(page).inner@)),
            None => T::encoding(old(page).inner@).len() > INNER_PAGE_SIZE && final(page).header
                == old(page).header,
        },
{
    let inner: Vec<u8> = page.inner.as_bytes();
    if inner.len() > INNER_PAGE_SIZE {
        return None;
    }
    page.header.data_length = inner.len() as u32;
    let mut image: Vec<u8> = page.header.as_bytes();
    let ghost head = image@;
    proof {
        lemma_header_layout(page.header);
    }
    let mut i: usize = 0;
    while i < inner.len()
        invariant
            i <= inner@.len(),
            image@ == head + inner@.subrange(0, i as int),
        decreases inner@.len() - i,
    {
        image.push(inner[i]);
        i += 1;
        assert(image@ =~= head + inner@.subrange(0, i as int));
    }
    assert(inner@.subrange(0, inner@.len() as int) =~= inner@);
    let ghost body = image@;
    let first: usize = image.len();
    let mut k: usize = image.len();
    while k < PAGE_SIZE
        invariant
            first <= k <= PAGE_SIZE,
            first == GENERAL_HEADER_SIZE + inner@.len(),
            image@ == body + filler(k - first, 0),
        decreases PAGE_SIZE - k,
    {
        image.push(0);
        k += 1;
        assert(image@ =~= body + filler(k - first, 0));
    }
    Some(image)
}

/// Reads a page as it lies in the file: the header from its first 28
/// bytes, and the inner part from as many bytes behind it as the header
/// tells.
pub fn unframe_page<T: Persistable>(image: &[u8]) -> (r: Result<GeneralPage<T>, Error>)
    ensures
        match r {
            Ok(page) => page_of_image::<T>(image@) == Some((page.header, page.inner@)),
            Err(e) => e == Error::Decode && page_of_image::<T>(image@) is None,
        },
{
    if image.len() != PAGE_SIZE {
        return Err(Error::Decode);
    }
    let header = match decode::<GeneralHeader>(slice_subrange(image, 0, GENERAL_HEADER_SIZE)) {
        Ok(header) => header,
        Err(e) => {
            return Err(e);
        },
    };
    if header.data_length as usize > INNER_PAGE_SIZE {
        return Err(Error::Decode);
    }
    let end: usize = if header.data_length == 0 {
        PAGE_SIZE
    } else {
        GENERAL_HEADER_SIZE + header.data_length as usize
    };
    match decode::<T>(slice_subrange(image, GENERAL_HEADER_SIZE, end)) {
        Ok(inner) => Ok(GeneralPage { header, inner }),
        Err(e) => Err(e),
    }
}

/// Whether a file is made of whole pages.
pub open spec fn whole_pages(file: Seq<u8>) -> bool {
    file.len() % PAGE_SIZE as nat == 0
}

/// The file with the page `index` written: the file grows by zeroes to
/// hold the page if it did not reach that far, and the page lies at
/// `index` times the size of a page.
pub open spec fn with_page(file: Seq<u8>, index: u32, image: Seq<u8>) -> Seq<u8> {
    Seq::new(
        if file.len() >= page_start(index) + PAGE_SIZE {
            file.len()
        } else {
            (page_start(index) + PAGE_SIZE) as nat
        },
        |i: int|
            if page_start(index) <= i < page_start(index) + PAGE_SIZE {
                image[i - page_start(index)]
            } else if i < file.len() {
                file[i]
            } else {
                0u8
            },
    )
}

/// The bytes of the page `index` of a file.
pub open spec fn page_at(file: Seq<u8>, index: u32) -> Seq<u8> {
    file.subrange(page_start(index), page_start(index) + PAGE_SIZE)
}

/// A file of whole pages stays one when a page is written, and the page
/// then lies where it is looked for.
pub proof fn lemma_with_page(file: Seq<u8>, index: u32, image: Seq<u8>)
    requires
        whole_pages(file),
        image.len() == PAGE_SIZE,
    ensures
        whole_pages(with_page(file, index, image)),
        with_page(file, index, image).len() >= page_start(index) + PAGE_SIZE,
        page_at(with_page(file, index, image), index) == image,
{
    let after = with_page(file, index, image);
    assert((page_start(index) + PAGE_SIZE) % PAGE_SIZE as int == 0) by {
        assert(((index + 1) * 16384) % 16384 == 0) by (nonlinear_arith);
    }
    assert(page_at(after, index) =~= image);
}

/// A page that was written into a file of whole pages reads from there as
/// itself, with the length of its inner part in the header, if its inner
/// part has a byte form that is not empty and fits a page.
pub proof fn lemma_persist_then_parse<T: Persistable>(
    file: Seq<u8>,
    header: GeneralHeader,
    inner: T::V,
)
    requires
        whole_pages(file),
        T::storable(inner),
        0 < T::encoding(inner).len() <= INNER_PAGE_SIZE,
    ensures
        whole_pages(with_page(file, header.page_id.0, page_image(header, T::encoding(inner)))),
        page_of_image::<T>(
            page_at(
                with_page(file, header.page_id.0, page_image(header, T::encoding(inner))),
                header.page_id.0,
            ),
        ) == Some((GeneralHeader { data_length: T::encoding(inner).len() as u32, ..header }, inner)),
{
    lemma_page_round_trip::<T>(header, inner);
    lemma_with_page(file, header.page_id.0, page_image(header, T::encoding(inner)));
}

/// Writes the page as it lies in the file at its place, which its
/// `page_id` gives, and puts the length of its inner part into its header.
/// The file grows to hold the page; it stays made of whole pages. Fails
/// with `Error::PageFull`, and writes nothing, if the inner part does not
/// fit a page.
pub fn persist_page<T: Persistable>(page: &mut GeneralPage<T>, file: &mut Vec<u8>) -> (r: Result<
    (),
    Error,
>)
    requires
        T::storable(old(page).inner@),
        whole_pages(old(file)@),
        page_start(old(page).header.page_id.0) + PAGE_SIZE <= usize::MAX,
    ensures
        final(page).inner == old(page).inner,
        whole_pages(final(file)@),
        match r {
            Ok(()) => T::encoding(old(page).inner@).len() <= INNER_PAGE_SIZE && final(page).header
                == (GeneralHeader {
                data_length: T::encoding(old(page).inner@).len() as u32,
                ..old(page).header
            }) && final(file)@ == with_page(
                old(file)@,
                old(page).header.page_id.0,
                page_image(old(page).header, T::encoding(old(page).inner@)),
            ),
            Err(e) => e == Error::PageFull && T::encoding(old(page).inner@).len()
                > INNER_PAGE_SIZE && final(page).header == old(page).header && final(file)@
                == old(file)@,
        },
{
    let image = match frame_page(page) {
        Some(image) => image,
        None => {
            return Err(Error::PageFull);
        },
    };
    let ghost before = file@;
    let index: u32 = page.header.page_id.0;
    proof {
        lemma_header_layout(page.header);
        lemma_with_page(before, index, image@);
    }
    let start: usize = page_offset(index) as usize;
    while file.len() < start + PAGE_SIZE
        invariant
            start + PAGE_SIZE <= usize::MAX,
            before.len() <= file@.len(),
            file@.len() <= start + PAGE_SIZE || file@.len() == before.len(),
            forall|i: int| 0 <= i < before.len() ==> file@[i] == before[i],
            forall|i: int| before.len() <= i < file@.len() ==> file@[i] == 0,
        decreases start + PAGE_SIZE - file@.len(),
    {
        file.push(0);
    }
    let ghost grown = file@;
    let mut i: usize = 0;
    while i < PAGE_SIZE
        invariant
            i <= PAGE_SIZE,
            image@.len() == PAGE_SIZE,
            start + PAGE_SIZE <= usize::MAX,
            start + PAGE_SIZE <= file@.len(),
            file@.len() == grown.len(),
            forall|k: int| 0 <= k < i ==> file@[start + k] == image@[k],
            forall|k: int|
                0 <= k < file@.len() && !(start <= k < start + i) ==> file@[k] == grown[k],
        decreases PAGE_SIZE - i,
    {
        file[start + i] = image[i];
        i += 1;
    }
    proof {
        let after = with_page(before, index, image@);
        assert(file@.len() == after.len());
        assert forall|k: int| 0 <= k < file@.len() implies file@[k] == after[k] by {
            if start <= k < start + PAGE_SIZE {
                assert(file@[start + (k - start)] == image@[k - start]);
            } else {
                assert(file@[k] == grown[k]);
            }
        }
        assert(file@ =~= after);
    }
    Ok(())
}

/// Reads the page `index` of the file. Fails with `Error::Io` if the file
/// ends before the end of the page, and with `Error::Decode` if the bytes
/// do not read as a page, or as a page of another number.
pub fn parse_page<T: Persistable>(file: &[u8], index: u32) -> (r: Result<GeneralPage<T>, Error>)
    ensures
        match r {
            Ok(page) => file@.len() >= page_start(index) + PAGE_SIZE && page_of_image::<T>(
                page_at(file@, index),
            ) == Some((page.header, page.inner@)) && page.header.page_id.0 == index,
            Err(e) => if file@.len() < page_start(index) + PAGE_SIZE {
                e == Error::Io
            } else {
                e == Error::Decode && match page_of_image::<T>(page_at(file@, index)) {
                    Some(read) => read.0.page_id.0 != index,
                    None => true,
                }
            },
        },
{
    let start: u64 = page_offset(index);
    if (file.len() as u64) < start + PAGE_SIZE as u64 {
        return Err(Error::Io);
    }
    unframe_numbered_page::<T>(
        slice_subrange(file, start as usize, start as usize + PAGE_SIZE),
        index,
    )
}

/// Reads the page `index` from the bytes of one page as they lie in the
/// file. Fails with `Error::Decode` if the bytes do not read as a page, or
/// as a page of another number.
pub fn unframe_numbered_page<T: Persistable>(image: &[u8], index: u32) -> (r: Result<
    GeneralPage<T>,
    Error,
>)
    ensures
        match r {
            Ok(page) => page_of_image::<T>(image@) == Some((page.header, page.inner@))
                && page.header.page_id.0 == index,
            Err(e) => e == Error::Decode && match page_of_image::<T>(image@) {
                Some(read) => read.0.page_id.0 != index,
                None => true,
            },
        },
{
    match unframe_page::<T>(image) {
        Ok(page) => {
            if page.header.page_id.0 != index {
                return Err(Error::Decode);
            }
            Ok(page)
        },
        Err(e) => Err(e),
    }
}

/// Reads the header of the page `index` of the file. Fails with
/// `Error::Io` if the file ends before the end of the page, and with
/// `Error::Decode` if its first 28 bytes are no header.
pub fn parse_general_header_by_index(file: &[u8], index: u32) -> (r: Result<GeneralHeader, Error>)
    ensures
        match r {
            Ok(header) => file@.len() >= page_start(index) + PAGE_SIZE && decoding::<
                GeneralHeader,
            >(page_at(file@, index).subrange(0, GENERAL_HEADER_SIZE as int)) == Some(header),
            Err(e) => if file@.len() < page_start(index) + PAGE_SIZE {
                e == Error::Io
            } else {
                e == Error::Decode && decoding::<GeneralHeader>(
                    page_at(file@, index).subrange(0, GENERAL_HEADER_SIZE as int),
                ) is None
            },
        },
{
    let start: u64 = page_offset(index);
    if (file.len() as u64) < start + PAGE_SIZE as u64 {
        return Err(Error::Io);
    }
    let image: &[u8] = slice_subrange(file, start as usize, start as usize + PAGE_SIZE);
    decode::<GeneralHeader>(slice_subrange(image, 0, GENERAL_HEADER_SIZE))
}

/// Reads the data page `index` of the file: its header, and the
/// `DATA_LENGTH` bytes behind it as the page's data, of which the header
/// tells how many are in use. Fails with `Error::Io` if the file ends
/// before the end of those bytes, and with `Error::Decode` if its first 28
/// bytes are no header.
pub fn parse_data_page<const DATA_LENGTH: usize>(file: &[u8], index: u32) -> (r: Result<
    GeneralPage<DataPage<DATA_LENGTH>>,
    Error,
>)
    ensures
        match r {
            Ok(page) => {
                let start = page_start(index) + GENERAL_HEADER_SIZE;
                &&& file@.len() >= start + DATA_LENGTH
                &&& decoding::<GeneralHeader>(
                    file@.subrange(page_start(index), start),
                ) == Some(page.header)
                &&& page.inner.length == page.header.data_length
                &&& page.inner.data@ == file@.subrange(start, start + DATA_LENGTH)
            },
            Err(e) => if file@.len() < page_start(index) + GENERAL_HEADER_SIZE + DATA_LENGTH {
                e == Error::Io
            } else {
                e == Error::Decode && decoding::<GeneralHeader>(
                    file@.subrange(
                        page_start(index) as int,
                        page_start(index) + GENERAL_HEADER_SIZE,
                    ),
                ) is None
            },
        },
        r is Ok <==> file@.len() >= page_start(index) + GENERAL_HEADER_SIZE + DATA_LENGTH
            && decoding::<GeneralHeader>(
            file@.subrange(page_start(index) as int, page_start(index) + GENERAL_HEADER_SIZE),
        ) is Some,
{
    let start: u64 = page_offset(index);
    let need: u128 = start as u128 + GENERAL_HEADER_SIZE as u128 + DATA_LENGTH as u128;
    if (file.len() as u128) < need {
        return Err(Error::Io);
    }
    let begin: usize = start as usize;
    let header = match decode::<GeneralHeader>(
        slice_subrange(file, begin, begin + GENERAL_HEADER_SIZE),
    ) {
        Ok(header) => header,
        Err(e) => {
            return Err(e);
        },
    };
    let from: usize = begin + GENERAL_HEADER_SIZE;
    let mut data: [u8; DATA_LENGTH] = [0u8;DATA_LENGTH];
    let mut i: usize = 0;
    while i < DATA_LENGTH
        invariant
            i <= DATA_LENGTH,
            from + DATA_LENGTH <= usize::MAX,
            from + DATA_LENGTH <= file@.len(),
            forall|k: int| 0 <= k < i ==> data@[k] == file@[from + k],
        decreases DATA_LENGTH - i,
    {
        data[i] = file[from + i];
        i += 1;
    }
    assert(data@ =~= file@.subrange(from as int, from + DATA_LENGTH));
    Ok(GeneralPage { header, inner: DataPage { length: header.data_length, data } })
}

/// Tells where in the file data of `data_length` bytes go that `link`
/// points to. Fails with an error of the kind `InvalidLink` if the data
/// are not as long as the link says or the link ends outside the
/// `DATA_LENGTH` bytes of a page's data.
pub fn check_update<const DATA_LENGTH: u32>(link: Link, data_length: usize) -> (r: Result<
    u64,
    Error,
>)
    ensures
        r == if data_length != link.length {
            Err::<u64, Error>(Error::LengthMismatch { data_length, link_length: link.length })
        } else if link.offset + link.length > DATA_LENGTH {
            Err::<u64, Error>(
                Error::OutOfBounds {
                    offset: link.offset,
                    length: link.length,
                    bound: DATA_LENGTH as usize,
                },
            )
        } else {
            Ok::<u64, Error>(
                (page_start(link.page_id.0) + GENERAL_HEADER_SIZE + link.offset) as u64,
            )
        },
{
    if data_length != link.length as usize {
        return Err(Error::LengthMismatch { data_length, link_length: link.length });
    }
    if link.offset as u64 + link.length as u64 > DATA_LENGTH as u64 {
        return Err(
            Error::OutOfBounds {
                offset: link.offset,
                length: link.length,
                bound: DATA_LENGTH as usize,
            },
        );
    }
    Ok(link_offset(link))
}

/// Writes `new_data` into the file at the place that `link` points to.
/// Fails with an error of the kind `InvalidLink`, and writes nothing, if
/// the data are not as long as the link says or the link ends outside the
/// `DATA_LENGTH` bytes of a page's data; and with `Error::Io` if the file
/// ends before the end of the link.
pub fn update_at<const DATA_LENGTH: u32>(file: &mut Vec<u8>, link: Link, new_data: &[u8]) -> (r:
    Result<(), Error>)
    ensures
        final(file)@.len() == old(file)@.len(),
        match r {
            Ok(()) => new_data@.len() == link.length && link.offset + link.length <= DATA_LENGTH
                && final(file)@ == crate::page::data::overwritten(
                old(file)@,
                page_start(link.page_id.0) + GENERAL_HEADER_SIZE + link.offset,
                new_data@,
            ),
            Err(e) => final(file)@ == old(file)@ && e == if new_data@.len() != link.length {
                Error::LengthMismatch {
                    data_length: new_data@.len() as usize,
                    link_length: link.length,
                }
            } else if link.offset + link.length > DATA_LENGTH {
                Error::OutOfBounds {
                    offset: link.offset,
                    length: link.length,
                    bound: DATA_LENGTH as usize,
                }
            } else {
                Error::Io
            },
        },
        r is Err <==> new_data@.len() != link.length || link.offset + link.length > DATA_LENGTH
            || page_start(link.page_id.0) + GENERAL_HEADER_SIZE + link.offset + link.length
            > old(file)@.len(),
{
    let start: u64 = match check_update::<DATA_LENGTH>(link, new_data.len()) {
        Ok(start) => start,
        Err(e) => {
            return Err(e);
        },
    };
    if start + link.length as u64 > file.len() as u64 {
        return Err(Error::Io);
    }
    let start: usize = start as usize;
    let ghost before = file@;
    let mut i: usize = 0;
    while i < new_data.len()
        invariant
            i <= new_data@.len(),
            start + new_data@.len() <= usize::MAX,
            start + new_data@.len() <= file@.len(),
            file@.len() == before.len(),
            file@ == crate::page::data::overwritten(
                before,
                start as int,
                new_data@.subrange(0, i as int),
            ),
        decreases new_data@.len() - i,
    {
        file[start + i] = new_data[i];
        i += 1;
        assert(file@ =~= crate::page::data::overwritten(
            before,
            start as int,
            new_data@.subrange(0, i as int),
        ));
    }
    assert(new_data@.subrange(0, new_data@.len() as int) =~= new_data@);
    Ok(())
}

} // verus!
