//! The byte form of a [`TableOfContentsPage`]: the archive of its records,
//! its free pages and its `estimated_size`. The cells of the records come
//! first, then the 4 bytes of each free page, and last the fields: 8
//! bytes that stand for the records, 8 that stand for the free pages, and
//! the 4 bytes of `estimated_size`.

use crate::error::Error;
use crate::page::index::table_of_contents_page::{
    freed_size, has_key, put, record_size, records_ordered, without, TableOfContentsPage,
    TableView, EMPTY_TABLE_SIZE,
};
use crate::page::PageId;
use crate::util::archive::{
    distance32, le32, le32_at, le32_bytes, le32_value, lemma_le32, lemma_vector_ref,
    vector_ref, vector_ref_bytes,
};
use crate::util::key::{FixedKey, IndexKey};
use crate::util::persistable::{lemma_u32_bytes, lemma_u32_of_bytes, Persistable};
use crate::util::sized::{
    align, align8, forces_eight, is_eight_aligned, lemma_round_up, lemma_round_up_least,
    round_up,
};
use crate::util::text::{filler, same_bytes};
use vstd::bytes::*;
use vstd::prelude::*;
use vstd::slice::slice_subrange;

verus! {

/// The number of bytes of the cell of a record with a key of `T`.
pub open spec fn record_stride<T: FixedKey>() -> nat {
    record_size::<T>(T::default_size())
}

/// Where the page of a record lies in its cell: behind the key, at the
/// next multiple of 4.
pub open spec fn page_place<T: FixedKey>() -> nat {
    round_up(T::default_size(), 4)
}

/// The cell of a record: the byte form of the key, zeroes up to a multiple
/// of 4, the 4 bytes of the page, and zeroes up to the size of a cell.
pub open spec fn record_cell<T: FixedKey>(record: (T::V, PageId)) -> Seq<u8> {
    T::encoding(record.0) + filler(page_place::<T>() - T::default_size(), 0)
        + spec_u32_to_le_bytes(record.1.0) + filler(
        record_stride::<T>() - page_place::<T>() - 4,
        0,
    )
}

/// How the cell of a record is laid out.
pub proof fn lemma_record_cell<T: FixedKey>(record: (T::V, PageId))
    ensures
        record_cell::<T>(record).len() == record_stride::<T>(),
        T::default_size() + 4 <= record_stride::<T>() < T::default_size() + 12,
        record_stride::<T>() % 4 == 0,
        T::default_size() <= page_place::<T>() < T::default_size() + 4,
        page_place::<T>() + 4 <= record_stride::<T>(),
        record_cell::<T>(record).subrange(0, T::default_size() as int) == T::encoding(record.0),
        record_cell::<T>(record).subrange(page_place::<T>() as int, page_place::<T>() as int + 4)
            == spec_u32_to_le_bytes(record.1.0),
        forall|i: int|
            T::default_size() <= i < page_place::<T>() ==> record_cell::<T>(record)[i] == 0,
        forall|i: int|
            page_place::<T>() + 4 <= i < record_stride::<T>() ==> record_cell::<T>(record)[i] == 0,
{
    T::lemma_fixed_length(record.0);
    lemma_u32_bytes(record.1.0);
    lemma_record_stride::<T>();
    let k = T::default_size() as int;
    let p = page_place::<T>() as int;
    let c = record_cell::<T>(record);
    assert(c.subrange(0, k) =~= T::encoding(record.0));
    assert(c.subrange(p, p + 4) =~= spec_u32_to_le_bytes(record.1.0));
}

/// The size of the cell of a record is a multiple of 4 that holds the key
/// and the page.
pub proof fn lemma_record_stride<T: FixedKey>()
    ensures
        record_stride::<T>() % 4 == 0,
        T::default_size() + 4 <= record_stride::<T>() < T::default_size() + 12,
        T::default_size() <= page_place::<T>() < T::default_size() + 4,
        page_place::<T>() % 4 == 0,
        page_place::<T>() + 4 <= record_stride::<T>(),
{
    lemma_round_up(T::default_size() + 4, 4);
    lemma_round_up(T::default_size() + 4, 8);
    lemma_round_up(T::default_size(), 4);
    let s = round_up(T::default_size() + 4, 8);
    assert(s % 8 == 0 ==> s % 4 == 0);
    let stride = record_stride::<T>();
    assert((stride - 4) % 4 == 0);
    lemma_round_up_least(T::default_size(), 4, (stride - 4) as nat);
}

/// A record is told by its cell.
pub proof fn lemma_record_cell_tells<T: FixedKey>(a: (T::V, PageId), b: (T::V, PageId))
    requires
        record_cell::<T>(a) == record_cell::<T>(b),
    ensures
        a == b,
{
    lemma_record_cell::<T>(a);
    lemma_record_cell::<T>(b);
    T::lemma_fixed_length(a.0);
    T::lemma_fixed_length(b.0);
    T::lemma_encoding_injective(a.0, b.0);
    lemma_u32_bytes(a.1.0);
    lemma_u32_bytes(b.1.0);
    assert(a.1.0 == b.1.0);
}

/// The record whose cell the bytes are, if they are the cell of one.
pub open spec fn record_read<T: FixedKey>(cell: Seq<u8>) -> Option<(T::V, PageId)> {
    if exists|r: (T::V, PageId)| #[trigger] record_cell::<T>(r) == cell {
        Some(choose|r: (T::V, PageId)| #[trigger] record_cell::<T>(r) == cell)
    } else {
        None
    }
}

/// The cell of a record reads as the record.
pub proof fn lemma_record_read<T: FixedKey>(record: (T::V, PageId))
    ensures
        record_read::<T>(record_cell::<T>(record)) == Some(record),
{
    let cell = record_cell::<T>(record);
    let found = choose|r: (T::V, PageId)| #[trigger] record_cell::<T>(r) == cell;
    lemma_record_cell_tells::<T>(found, record);
}

/// The cells of the first `count` records, one after another.
pub open spec fn records_run<T: FixedKey>(records: Seq<(T::V, PageId)>, count: int) -> Seq<u8>
    decreases count,
{
    if count <= 0 {
        Seq::empty()
    } else {
        records_run::<T>(records, count - 1) + record_cell::<T>(records[count - 1])
    }
}

/// The 4 bytes of each of the first `count` pages, one after another.
pub open spec fn pages_run(pages: Seq<PageId>, count: int) -> Seq<u8>
    decreases count,
{
    if count <= 0 {
        Seq::empty()
    } else {
        pages_run(pages, count - 1) + le32(pages[count - 1].0)
    }
}

/// The cells of `count` records are `count` times the size of a cell.
pub proof fn lemma_records_length<T: FixedKey>(records: Seq<(T::V, PageId)>, count: int)
    requires
        0 <= count <= records.len(),
    ensures
        records_run::<T>(records, count).len() == count * record_stride::<T>(),
    decreases count,
{
    let stride = record_stride::<T>();
    if count > 0 {
        lemma_records_length::<T>(records, count - 1);
        lemma_record_cell::<T>(records[count - 1]);
        assert((count - 1) * stride + stride == count * stride) by (nonlinear_arith);
    } else {
        assert(0 * stride == 0) by (nonlinear_arith);
    }
}

/// The cells of the records lie one after another.
pub proof fn lemma_records_run<T: FixedKey>(records: Seq<(T::V, PageId)>, count: int, i: int)
    requires
        0 <= i < count <= records.len(),
    ensures
        0 <= i * record_stride::<T>(),
        i * record_stride::<T>() + record_stride::<T>() <= count * record_stride::<T>(),
        records_run::<T>(records, count).len() == count * record_stride::<T>(),
        records_run::<T>(records, count).subrange(
            i * record_stride::<T>(),
            i * record_stride::<T>() + record_stride::<T>(),
        ) == record_cell::<T>(records[i]),
    decreases count,
{
    let stride = record_stride::<T>() as int;
    lemma_records_length::<T>(records, count);
    lemma_records_length::<T>(records, count - 1);
    lemma_record_cell::<T>(records[count - 1]);
    assert(0 <= i * stride && i * stride + stride <= count * stride) by (nonlinear_arith)
        requires
            0 <= i < count,
            0 <= stride,
    ;
    assert((count - 1) * stride + stride == count * stride) by (nonlinear_arith);
    if i == count - 1 {
        assert(records_run::<T>(records, count).subrange(i * stride, i * stride + stride)
            =~= record_cell::<T>(records[i]));
    } else {
        lemma_records_run::<T>(records, count - 1, i);
        assert(records_run::<T>(records, count).subrange(i * stride, i * stride + stride)
            =~= records_run::<T>(records, count - 1).subrange(i * stride, i * stride + stride));
    }
}

/// The pages lie one after another, 4 bytes each.
pub proof fn lemma_pages_run(pages: Seq<PageId>, count: int, i: int)
    requires
        0 <= i < count <= pages.len(),
    ensures
        pages_run(pages, count).len() == 4 * count,
        pages_run(pages, count).subrange(4 * i, 4 * i + 4) == le32(pages[i].0),
    decreases count,
{
    lemma_pages_length(pages, count);
    lemma_pages_length(pages, count - 1);
    lemma_le32(pages[count - 1].0);
    if i == count - 1 {
        assert(pages_run(pages, count).subrange(4 * i, 4 * i + 4) =~= le32(pages[i].0));
    } else {
        lemma_pages_run(pages, count - 1, i);
        assert(pages_run(pages, count).subrange(4 * i, 4 * i + 4) =~= pages_run(
            pages,
            count - 1,
        ).subrange(4 * i, 4 * i + 4));
    }
}

/// `count` pages are 4 times `count` bytes.
pub proof fn lemma_pages_length(pages: Seq<PageId>, count: int)
    requires
        0 <= count <= pages.len(),
    ensures
        pages_run(pages, count).len() == 4 * count,
    decreases count,
{
    if count > 0 {
        lemma_pages_length(pages, count - 1);
        lemma_le32(pages[count - 1].0);
    }
}

/// The greatest number of bytes of the byte form of a table.
pub const MAX_TABLE_LENGTH: usize = 0x7fff_ffff;

/// The byte form of a table.
pub open spec fn table_bytes<T: FixedKey>(v: TableView<T::V>) -> Seq<u8> {
    let cells = (v.records.len() * record_stride::<T>()) as int;
    let pages = 4 * v.empty_pages.len() as int;
    records_run::<T>(v.records, v.records.len() as int) + pages_run(
        v.empty_pages,
        v.empty_pages.len() as int,
    ) + vector_ref(cells + pages, v.records.len()) + vector_ref(pages + 8, v.empty_pages.len())
        + le32(v.estimated_size as u32)
}

/// The number of bytes of the byte form of a table.
pub open spec fn table_size<T: FixedKey>(v: TableView<T::V>) -> nat {
    EMPTY_TABLE_SIZE as nat + v.records.len() * record_stride::<T>() + v.empty_pages.len() * 4
}

/// Whether `estimated_size` is the number of bytes of the table's byte
/// form.
pub open spec fn size_exact<T: FixedKey>(v: TableView<T::V>) -> bool {
    v.estimated_size == table_size::<T>(v)
}

/// Whether a table has a byte form: the keys of its records rise, the
/// whole is short enough for every distance to fit its 4 bytes, and so is
/// `estimated_size`.
pub open spec fn table_storable<T: FixedKey>(v: TableView<T::V>) -> bool {
    &&& records_ordered::<T>(v.records)
    &&& table_size::<T>(v) <= MAX_TABLE_LENGTH
    &&& v.estimated_size <= u32::MAX
}

/// The records that lie from `at` on, a cell each.
pub open spec fn records_at<T: FixedKey>(bytes: Seq<u8>, at: int, count: nat) -> Option<
    Seq<(T::V, PageId)>,
> {
    let stride = record_stride::<T>() as int;
    if at < 0 || at + count * stride > bytes.len() {
        None
    } else if forall|i: int|
        0 <= i < count ==> (#[trigger] record_read::<T>(
            bytes.subrange(at + i * stride, at + i * stride + stride),
        )) is Some {
        Some(
            Seq::new(
                count,
                |i: int|
                    record_read::<T>(
                        bytes.subrange(at + i * stride, at + i * stride + stride),
                    ).unwrap(),
            ),
        )
    } else {
        None
    }
}

/// The pages that lie from `at` on, 4 bytes each.
pub open spec fn pages_at(bytes: Seq<u8>, at: int, count: nat) -> Option<Seq<PageId>> {
    if at < 0 || at + 4 * count > bytes.len() {
        None
    } else {
        Some(Seq::new(count, |i: int| PageId(le32_value(bytes.subrange(at + 4 * i, at + 4 * i + 4)))))
    }
}

/// The table that the bytes spell, read from the fields at their end, if
/// they spell one.
pub open spec fn table_read<T: FixedKey>(bytes: Seq<u8>) -> Option<TableView<T::V>> {
    let fields = bytes.len() - 20;
    if fields < 0 || bytes.len() > MAX_TABLE_LENGTH {
        None
    } else {
        let first = distance32(le32_value(bytes.subrange(fields, fields + 4)));
        let records = le32_value(bytes.subrange(fields + 4, fields + 8));
        let second = distance32(le32_value(bytes.subrange(fields + 8, fields + 12)));
        let pages = le32_value(bytes.subrange(fields + 12, fields + 16));
        let size = le32_value(bytes.subrange(fields + 16, fields + 20));
        if first > fields || second > fields + 8 {
            None
        } else {
            let held = records_at::<T>(bytes, fields - first, records as nat);
            let free = pages_at(bytes, fields + 8 - second, pages as nat);
            if held is Some && free is Some {
                Some(
                    TableView {
                        records: held.unwrap(),
                        empty_pages: free.unwrap(),
                        estimated_size: size as usize,
                    },
                )
            } else {
                None
            }
        }
    }
}

/// How the byte form of a table is laid out.
pub proof fn lemma_table_layout<T: FixedKey>(v: TableView<T::V>)
    ensures
        table_bytes::<T>(v).len() == table_size::<T>(v),
        ({
            let e = table_bytes::<T>(v);
            let cells = (v.records.len() * record_stride::<T>()) as int;
            let fields = cells + 4 * v.empty_pages.len() as int;
            &&& 0 <= cells
            &&& e.subrange(0, cells as int) == records_run::<T>(
                v.records,
                v.records.len() as int,
            )
            &&& e.subrange(cells as int, fields as int) == pages_run(
                v.empty_pages,
                v.empty_pages.len() as int,
            )
            &&& e.subrange(fields as int, fields + 8) == vector_ref(fields as int, v.records.len())
            &&& e.subrange(fields + 8, fields + 16) == vector_ref(
                4 * v.empty_pages.len() as int + 8,
                v.empty_pages.len(),
            )
            &&& e.subrange(fields + 16, fields + 20) == le32(v.estimated_size as u32)
        }),
{
    let e = table_bytes::<T>(v);
    let cells = (v.records.len() * record_stride::<T>()) as int;
    let pages = 4 * v.empty_pages.len() as int;
    let fields = cells + pages;
    lemma_records_length::<T>(v.records, v.records.len() as int);
    lemma_pages_length(v.empty_pages, v.empty_pages.len() as int);
    lemma_vector_ref((cells + pages) as int, v.records.len());
    lemma_vector_ref(pages + 8, v.empty_pages.len());
    lemma_le32(v.estimated_size as u32);
    assert(e.subrange(0, cells as int) =~= records_run::<T>(v.records, v.records.len() as int));
    assert(e.subrange(cells as int, fields as int) =~= pages_run(
        v.empty_pages,
        v.empty_pages.len() as int,
    ));
    assert(e.subrange(fields as int, fields + 8) =~= vector_ref(
        fields as int,
        v.records.len(),
    ));
    assert(e.subrange(fields + 8, fields + 16) =~= vector_ref(pages + 8, v.empty_pages.len()));
    assert(e.subrange(fields + 16, fields + 20) =~= le32(v.estimated_size as u32));
}

/// The byte form of a table reads as the table.
pub proof fn lemma_table_read<T: FixedKey>(v: TableView<T::V>)
    requires
        table_storable::<T>(v),
    ensures
        table_read::<T>(table_bytes::<T>(v)) == Some(v),
{
    let e = table_bytes::<T>(v);
    let stride = record_stride::<T>() as int;
    let n = v.records.len() as int;
    let m = v.empty_pages.len() as int;
    let cells = n * stride;
    let fields = cells + 4 * m;
    lemma_table_layout::<T>(v);
    lemma_record_stride::<T>();
    assert(n <= n * stride) by (nonlinear_arith)
        requires
            0 <= n,
            1 <= stride,
    ;
    lemma_vector_ref(fields, v.records.len());
    lemma_vector_ref(4 * m + 8, v.empty_pages.len());
    lemma_le32(v.estimated_size as u32);
    let first = e.subrange(fields, fields + 8);
    let second = e.subrange(fields + 8, fields + 16);
    assert(e.subrange(fields, fields + 4) =~= first.subrange(0, 4));
    assert(e.subrange(fields + 4, fields + 8) =~= first.subrange(4, 8));
    assert(e.subrange(fields + 8, fields + 12) =~= second.subrange(0, 4));
    assert(e.subrange(fields + 12, fields + 16) =~= second.subrange(4, 8));
    let run = records_run::<T>(v.records, n);
    assert forall|i: int| 0 <= i < n implies #[trigger] record_read::<T>(
        e.subrange(0 + i * stride, 0 + i * stride + stride),
    ) == Some(v.records[i]) by {
        lemma_records_run::<T>(v.records, n, i);
        assert(e.subrange(0 + i * stride, 0 + i * stride + stride) =~= run.subrange(
            i * stride,
            i * stride + stride,
        ));
        lemma_record_read::<T>(v.records[i]);
    }
    assert(records_at::<T>(e, 0, v.records.len()).unwrap() =~= v.records);
    let free = pages_run(v.empty_pages, m);
    assert forall|i: int| 0 <= i < m implies PageId(
        le32_value(#[trigger] e.subrange(cells + 4 * i, cells + 4 * i + 4)),
    ) == v.empty_pages[i] by {
        lemma_pages_run(v.empty_pages, m, i);
        assert(e.subrange(cells + 4 * i, cells + 4 * i + 4) =~= free.subrange(4 * i, 4 * i + 4));
        lemma_le32(v.empty_pages[i].0);
    }
    assert(pages_at(e, cells, v.empty_pages.len()).unwrap() =~= v.empty_pages);
}

/// The byte form of a table is unique to it.
pub proof fn lemma_table_unique<T: FixedKey>(a: TableView<T::V>, b: TableView<T::V>)
    requires
        table_storable::<T>(a),
        table_storable::<T>(b),
        table_bytes::<T>(a) == table_bytes::<T>(b),
    ensures
        a == b,
{
    lemma_table_read::<T>(a);
    lemma_table_read::<T>(b);
}

/// A table that holds nothing, with 20 as its `estimated_size`, has that
/// many bytes once written.
pub proof fn lemma_empty_table_exact<T: FixedKey>(v: TableView<T::V>)
    requires
        v.records.len() == 0,
        v.empty_pages.len() == 0,
        v.estimated_size == EMPTY_TABLE_SIZE,
    ensures
        size_exact::<T>(v),
        table_storable::<T>(v),
{
    assert(v.records.len() * record_stride::<T>() == 0) by (nonlinear_arith)
        requires
            v.records.len() == 0,
    ;
}

/// The size oracle holds across an insert: if `estimated_size` was the
/// size of the byte form before, it is so after, whether the table held
/// the node or not.
pub proof fn lemma_insert_keeps_size<T: FixedKey>(
    before: TableView<T::V>,
    after: TableView<T::V>,
    key: T::V,
    page_id: PageId,
)
    requires
        records_ordered::<T>(before.records),
        size_exact::<T>(before),
        after.records == put::<T>(before.records, key, page_id),
        after.empty_pages == before.empty_pages,
        after.estimated_size == before.estimated_size + if has_key(before.records, key) {
            0
        } else {
            record_size::<T>(T::encoding(key).len())
        },
    ensures
        size_exact::<T>(after),
{
    crate::page::index::table_of_contents_page::lemma_put::<T>(before.records, key, page_id);
    T::lemma_fixed_length(key);
    let s = record_stride::<T>();
    assert((before.records.len() + 1) * s == before.records.len() * s + s) by (nonlinear_arith);
}

/// The size oracle holds across giving a node another key, whether
/// another node had that key or not.
pub proof fn lemma_update_key_keeps_size<T: FixedKey>(
    before: TableView<T::V>,
    after: TableView<T::V>,
    old_key: T::V,
    new_key: T::V,
    id: PageId,
)
    requires
        records_ordered::<T>(before.records),
        size_exact::<T>(before),
        has_key(before.records, old_key),
        after.records == put::<T>(without::<T>(before.records, old_key), new_key, id),
        after.empty_pages == before.empty_pages,
        after.estimated_size == before.estimated_size - if has_key(
            without::<T>(before.records, old_key),
            new_key,
        ) {
            record_size::<T>(T::encoding(new_key).len())
        } else {
            0
        },
    ensures
        size_exact::<T>(after),
{
    let middle = without::<T>(before.records, old_key);
    crate::page::index::table_of_contents_page::lemma_without::<T>(before.records, old_key);
    crate::page::index::table_of_contents_page::lemma_put::<T>(middle, new_key, id);
    T::lemma_fixed_length(new_key);
    let s = record_stride::<T>();
    assert((middle.len() + 1) * s == middle.len() * s + s) by (nonlinear_arith);
    assert((after.records.len() + 1) * s == after.records.len() * s + s) by (nonlinear_arith);
}

/// The size oracle holds across taking a free page off the list.
pub proof fn lemma_pop_keeps_size<T: FixedKey>(before: TableView<T::V>, after: TableView<T::V>)
    requires
        size_exact::<T>(before),
        before.empty_pages.len() > 0,
        after.records == before.records,
        after.empty_pages == before.empty_pages.drop_last(),
        after.estimated_size == before.estimated_size - 4,
    ensures
        size_exact::<T>(after),
{
}

/// The size oracle holds across a remove that records the freed page, if
/// a record takes as many bytes as a remove takes off: that is, if the
/// key and the page rounded up to a multiple of 4 fill the cell.
pub proof fn lemma_remove_keeps_size<T: FixedKey>(
    before: TableView<T::V>,
    after: TableView<T::V>,
    key: T::V,
    id: PageId,
)
    requires
        records_ordered::<T>(before.records),
        size_exact::<T>(before),
        has_key(before.records, key),
        freed_size(T::default_size()) == record_stride::<T>(),
        after.records == without::<T>(before.records, key),
        after.empty_pages == before.empty_pages.push(id),
        after.estimated_size == before.estimated_size - freed_size(T::encoding(key).len()) + 4,
    ensures
        size_exact::<T>(after),
{
    crate::page::index::table_of_contents_page::lemma_without::<T>(before.records, key);
    T::lemma_fixed_length(key);
    let s = record_stride::<T>();
    assert((after.records.len() + 1) * s == after.records.len() * s + s) by (nonlinear_arith);
}

/// The size oracle holds across a remove that does not record the freed
/// page.
pub proof fn lemma_remove_without_record_keeps_size<T: FixedKey>(
    before: TableView<T::V>,
    after: TableView<T::V>,
    key: T::V,
)
    requires
        records_ordered::<T>(before.records),
        size_exact::<T>(before),
        has_key(before.records, key),
        after.records == without::<T>(before.records, key),
        after.empty_pages == before.empty_pages,
        after.estimated_size == before.estimated_size - record_size::<T>(T::encoding(key).len()),
    ensures
        size_exact::<T>(after),
{
    crate::page::index::table_of_contents_page::lemma_without::<T>(before.records, key);
    T::lemma_fixed_length(key);
    let s = record_stride::<T>();
    assert((after.records.len() + 1) * s == after.records.len() * s + s) by (nonlinear_arith);
}

/// A key whose type does not force a multiple of 8 meets the condition of
/// the law of the remove that records the page.
pub proof fn lemma_freed_is_stride<T: FixedKey>()
    requires
        !forces_eight(T::alignment()),
    ensures
        freed_size(T::default_size()) == record_stride::<T>(),
{
}

/// Returns the cell of the record of the key and the page.
fn cell_of_record<T: FixedKey>(key: &T, page: PageId) -> (cell: Vec<u8>)
    ensures
        cell@ == record_cell::<T>((key@, page)),
{
    let stride: usize = record_cell_size::<T>();
    proof {
        lemma_record_stride::<T>();
        lemma_record_cell::<T>((key@, page));
        T::lemma_fixed_length(key@);
        T::lemma_default_size_fits();
    }
    let place: usize = align(T::default_aligned_size());
    let mut cell: Vec<u8> = key.as_bytes();
    let mut part: Vec<u8> = u32_to_le_bytes(page.0);
    let ghost head = cell@;
    while cell.len() < place
        invariant
            head.len() <= cell@.len() <= place,
            cell@ == head + filler(cell@.len() - head.len(), 0),
        decreases place - cell@.len(),
    {
        cell.push(0);
        assert(cell@ =~= head + filler(cell@.len() - head.len(), 0));
    }
    cell.append(&mut part);
    let ghost start = cell@;
    let first: usize = cell.len();
    let mut k: usize = cell.len();
    while k < stride
        invariant
            first <= k <= stride,
            cell@ == start + filler(k - first, 0),
        decreases stride - k,
    {
        cell.push(0);
        k += 1;
        assert(cell@ =~= start + filler(k - first, 0));
    }
    assert(cell@ =~= record_cell::<T>((key@, page)));
    cell
}

/// Tells whether the bytes of the cell from `from` up to `to` are zeroes.
fn gap_is_zero(cell: &[u8], from: usize, to: usize) -> (r: bool)
    requires
        from <= to <= cell@.len(),
    ensures
        r == forall|k: int| from <= k < to ==> cell@[k] == 0,
{
    let mut i: usize = from;
    while i < to
        invariant
            from <= i <= to <= cell@.len(),
            forall|k: int| from <= k < i ==> cell@[k] == 0,
        decreases to - i,
    {
        if cell[i] != 0 {
            return false;
        }
        i += 1;
    }
    true
}

/// Returns the number of bytes of the cell of a record with a key of `T`.
pub fn record_cell_size<T: FixedKey>() -> (r: usize)
    ensures
        r == record_stride::<T>(),
        0 < r <= 0x2_0000,
{
    proof {
        T::lemma_default_size_fits();
        lemma_round_up(T::default_size() + 4, 4);
        lemma_round_up(T::default_size() + 4, 8);
    }
    let sum: usize = T::default_aligned_size() + 4;
    if is_eight_aligned(T::align()) {
        align8(sum)
    } else {
        align(sum)
    }
}

/// Reads the record of a cell. Returns `None` if the bytes are the cell of
/// no record.
fn read_record<T: FixedKey>(cell: &[u8]) -> (r: Option<(T, PageId)>)
    requires
        cell@.len() == record_stride::<T>(),
    ensures
        match r {
            Some(record) => record_read::<T>(cell@) == Some((record.0@, record.1)),
            None => record_read::<T>(cell@) is None,
        },
{
    let width: usize = T::default_aligned_size();
    let stride: usize = cell.len();
    proof {
        lemma_record_stride::<T>();
        T::lemma_default_size_fits();
        assert forall|r: (T::V, PageId)| #[trigger] record_cell::<T>(r) == cell@ implies {
            &&& cell@.subrange(0, width as int) == T::encoding(r.0)
            &&& T::storable(r.0)
            &&& forall|i: int| width <= i < page_place::<T>() ==> cell@[i] == 0
            &&& forall|i: int| page_place::<T>() + 4 <= i < stride ==> cell@[i] == 0
        } by {
            lemma_record_cell::<T>(r);
            T::lemma_fixed_length(r.0);
        }
    }
    let place: usize = align(width);
    if !gap_is_zero(cell, width, place) || !gap_is_zero(cell, place + 4, stride) {
        return None;
    }
    let key = match T::from_bytes(slice_subrange(cell, 0, width)) {
        Ok(key) => key,
        Err(_) => {
            return None;
        },
    };
    let id: u32 = u32_from_le_bytes(slice_subrange(cell, place, place + 4));
    proof {
        let record = (key@, PageId(id));
        lemma_record_cell::<T>(record);
        lemma_u32_of_bytes(cell@.subrange(place as int, place + 4));
        T::lemma_fixed_length(key@);
        assert(record_cell::<T>(record) =~= cell@);
        lemma_record_read::<T>(record);
    }
    Some((key, PageId(id)))
}

/// Returns the pages, 4 bytes each, one after another.
pub(crate) fn pages_bytes(pages: &Vec<PageId>) -> (bytes: Vec<u8>)
    ensures
        bytes@ == pages_run(pages@, pages@.len() as int),
{
    let mut bytes: Vec<u8> = Vec::new();
    let mut i: usize = 0;
    assert(bytes@ =~= pages_run(pages@, 0));
    while i < pages.len()
        invariant
            i <= pages@.len(),
            bytes@ == pages_run(pages@, i as int),
        decreases pages@.len() - i,
    {
        let mut part: Vec<u8> = le32_bytes(pages[i].0);
        bytes.append(&mut part);
        i += 1;
        assert(bytes@ =~= pages_run(pages@, i as int));
    }
    bytes
}

/// Returns five runs of bytes as one.
pub(crate) fn join_five(a: Vec<u8>, b: Vec<u8>, c: Vec<u8>, d: Vec<u8>, e: Vec<u8>) -> (bytes: Vec<u8>)
    ensures
        bytes@ == a@ + b@ + c@ + d@ + e@,
{
    let mut bytes: Vec<u8> = a;
    let mut b = b;
    let mut c = c;
    let mut d = d;
    let mut e = e;
    bytes.append(&mut b);
    bytes.append(&mut c);
    bytes.append(&mut d);
    bytes.append(&mut e);
    bytes
}

/// Reads the `count` records that lie from `at` on, a cell each. Returns
/// `None` if they do not lie in the bytes or one is the cell of no
/// record.
fn read_records<T: FixedKey>(bytes: &[u8], at: usize, count: u32) -> (r: Option<
    Vec<(T, PageId)>,
>)
    ensures
        match r {
            Some(records) => records_at::<T>(bytes@, at as int, count as nat) == Some(
                Seq::new(records@.len(), |i: int| (records@[i].0@, records@[i].1)),
            ),
            None => records_at::<T>(bytes@, at as int, count as nat) is None,
        },
{
    let total: usize = bytes.len();
    let stride: usize = record_cell_size::<T>();
    proof {
        assert(0 <= count as nat * stride as nat <= 0xffff_ffff * 0x2_0000) by (nonlinear_arith)
            requires
                count <= 0xffff_ffff,
                stride <= 0x2_0000,
        ;
    }
    let span: u64 = count as u64 * stride as u64;
    if at > total || span > (total - at) as u64 {
        return None;
    }
    let mut records: Vec<(T, PageId)> = Vec::new();
    let mut i: usize = 0;
    while i < count as usize
        invariant
            i <= count,
            total == bytes@.len(),
            stride == record_stride::<T>(),
            0 < stride <= 0x2_0000,
            at + count * stride <= total,
            records@.len() == i,
            forall|j: int|
                0 <= j < i ==> #[trigger] record_read::<T>(
                    bytes@.subrange(at + j * stride, at + j * stride + stride),
                ) == Some((records@[j].0@, records@[j].1)),
        decreases count - i,
    {
        proof {
            assert(0 <= i * stride && i * stride + stride <= count * stride) by (nonlinear_arith)
                requires
                    0 <= i < count,
                    0 <= stride,
            ;
        }
        let from: usize = at + i * stride;
        match read_record::<T>(slice_subrange(bytes, from, from + stride)) {
            Some(record) => {
                records.push(record);
            },
            None => {
                assert(record_read::<T>(
                    bytes@.subrange(at + i * stride, at + i * stride + stride),
                ) is None);
                return None;
            },
        }
        i += 1;
    }
    assert(records_at::<T>(bytes@, at as int, count as nat).unwrap() =~= Seq::new(
        records@.len(),
        |i: int| (records@[i].0@, records@[i].1),
    ));
    Some(records)
}

/// Reads the `count` pages that lie from `at` on, 4 bytes each. Returns
/// `None` if they do not lie in the bytes.
pub(crate) fn read_pages(bytes: &[u8], at: usize, count: u32) -> (r: Option<Vec<PageId>>)
    ensures
        match r {
            Some(pages) => pages_at(bytes@, at as int, count as nat) == Some(pages@),
            None => pages_at(bytes@, at as int, count as nat) is None,
        },
{
    let total: usize = bytes.len();
    if at > total || count as u64 > ((total - at) as u64) / 4 {
        return None;
    }
    let mut pages: Vec<PageId> = Vec::new();
    let mut i: usize = 0;
    while i < count as usize
        invariant
            i <= count,
            total == bytes@.len(),
            at + 4 * count <= total,
            pages@.len() == i,
            forall|j: int|
                0 <= j < i ==> #[trigger] pages@[j] == PageId(
                    le32_value(bytes@.subrange(at + 4 * j, at + 4 * j + 4)),
                ),
        decreases count - i,
    {
        let id: u32 = le32_at(bytes, at + 4 * i);
        pages.push(PageId(id));
        i += 1;
    }
    assert(pages_at(bytes@, at as int, count as nat).unwrap() =~= pages@);
    Some(pages)
}

impl<T: FixedKey> TableOfContentsPage<T> {
    /// Writes the cells of the records, one after another.
    fn encode_records(&self) -> (bytes: Vec<u8>)
        ensures
            bytes@ == records_run::<T>(self@.records, self@.records.len() as int),
    {
        let ghost v = self@;
        let mut bytes: Vec<u8> = Vec::new();
        let mut i: usize = 0;
        assert(bytes@ =~= records_run::<T>(v.records, 0));
        while i < self.records.len()
            invariant
                i <= self.records@.len(),
                v == self@,
                bytes@ == records_run::<T>(v.records, i as int),
            decreases self.records@.len() - i,
        {
            proof {
                assert(v.records[i as int] == (
                    self.records@[i as int].0@,
                    self.records@[i as int].1,
                ));
            }
            let mut cell: Vec<u8> = cell_of_record::<T>(&self.records[i].0, self.records[i].1);
            bytes.append(&mut cell);
            i += 1;
            assert(bytes@ =~= records_run::<T>(v.records, i as int));
        }
        bytes
    }

    /// Writes the free pages, 4 bytes each, one after another.
    fn encode_pages(&self) -> (bytes: Vec<u8>)
        ensures
            bytes@ == pages_run(self@.empty_pages, self@.empty_pages.len() as int),
    {
        pages_bytes(&self.empty_pages)
    }

    /// Writes the byte form of the table.
    fn encode(&self) -> (bytes: Vec<u8>)
        requires
            self@.records.len() <= u32::MAX,
            self@.empty_pages.len() <= u32::MAX,
            self@.estimated_size <= u32::MAX,
        ensures
            bytes@ == table_bytes::<T>(self@),
    {
        let ghost v = self@;
        let records: Vec<u8> = self.encode_records();
        let pages: Vec<u8> = self.encode_pages();
        proof {
            lemma_records_length::<T>(v.records, v.records.len() as int);
            lemma_pages_length(v.empty_pages, v.empty_pages.len() as int);
        }
        let cells: usize = records.len();
        let span: usize = pages.len();
        let first: Vec<u8> = vector_ref_bytes(cells as u128 + span as u128, self.records.len());
        let second: Vec<u8> = vector_ref_bytes(span as u128 + 8, self.empty_pages.len());
        let size: Vec<u8> = le32_bytes(self.estimated_size as u32);
        proof {
            assert(cells as int == (v.records.len() * record_stride::<T>()) as int);
            assert(span as int == 4 * v.empty_pages.len() as int);
            assert(first@ == vector_ref(
                (v.records.len() * record_stride::<T>()) as int + 4 * v.empty_pages.len() as int,
                v.records.len(),
            ));
            assert(second@ == vector_ref(4 * v.empty_pages.len() as int + 8, v.empty_pages.len()));
            assert(size@ == le32(v.estimated_size as u32));
        }
        join_five(records, pages, first, second, size)
    }

    /// Reads the table that the bytes spell, from the fields at their
    /// end. Returns `None` if they spell none.
    fn read(bytes: &[u8]) -> (r: Option<Self>)
        ensures
            match r {
                Some(table) => table_read::<T>(bytes@) == Some(table@),
                None => table_read::<T>(bytes@) is None,
            },
    {
        let total: usize = bytes.len();
        if total < 20 || total > MAX_TABLE_LENGTH {
            return None;
        }
        let fields: usize = total - 20;
        let back: u32 = le32_at(bytes, fields);
        let held: u32 = le32_at(bytes, fields + 4);
        let first: u64 = (0x1_0000_0000u64 - back as u64) % 0x1_0000_0000;
        let back: u32 = le32_at(bytes, fields + 8);
        let free: u32 = le32_at(bytes, fields + 12);
        let second: u64 = (0x1_0000_0000u64 - back as u64) % 0x1_0000_0000;
        let size: u32 = le32_at(bytes, fields + 16);
        if first > fields as u64 || second > fields as u64 + 8 {
            return None;
        }
        let records = match read_records::<T>(bytes, fields - first as usize, held) {
            Some(records) => records,
            None => {
                return None;
            },
        };
        let empty_pages = match read_pages(bytes, (fields as u64 + 8 - second) as usize, free) {
            Some(pages) => pages,
            None => {
                return None;
            },
        };
        let table = TableOfContentsPage { records, empty_pages, estimated_size: size as usize };
        proof {
            assert(table@.records =~= Seq::new(
                table.records@.len(),
                |i: int| (table.records@[i].0@, table.records@[i].1),
            ));
        }
        Some(table)
    }
}

impl<T: FixedKey> Persistable for TableOfContentsPage<T> {
    open spec fn storable(v: TableView<T::V>) -> bool {
        table_storable::<T>(v)
    }

    open spec fn encoding(v: TableView<T::V>) -> Seq<u8> {
        table_bytes::<T>(v)
    }

    proof fn lemma_encoding_injective(a: TableView<T::V>, b: TableView<T::V>) {
        lemma_table_unique::<T>(a, b);
    }

    fn is_storable(&self) -> (r: bool) {
        let stride: usize = record_cell_size::<T>();
        if !self.keys_rise() {
            return false;
        }
        let count: usize = self.records.len();
        assert(count * stride <= usize::MAX * 0x2_0000) by (nonlinear_arith)
            requires
                count <= usize::MAX,
                stride <= 0x2_0000,
        ;
        EMPTY_TABLE_SIZE as u128 + count as u128 * stride as u128 + self.empty_pages.len() as u128
            * 4 <= MAX_TABLE_LENGTH as u128 && self.estimated_size as u128 <= u32::MAX as u128
    }

    fn as_bytes(&self) -> (bytes: Vec<u8>) {
        proof {
            lemma_record_stride::<T>();
            let n = self@.records.len();
            let stride = record_stride::<T>();
            assert(n <= n * stride) by (nonlinear_arith)
                requires
                    1 <= stride,
            ;
        }
        self.encode()
    }

    fn from_bytes(bytes: &[u8]) -> (r: Result<Self, Error>) {
        proof {
            assert forall|v: TableView<T::V>|
                Self::storable(v) && bytes@ == #[trigger] Self::encoding(v) implies table_read::<T>(
                bytes@,
            ) == Some(v) by {
                lemma_table_read::<T>(v);
            }
        }
        let table = match Self::read(bytes) {
            Some(table) => table,
            None => {
                return Err(Error::Decode);
            },
        };
        if !table.is_storable() {
            return Err(Error::Decode);
        }
        let again: Vec<u8> = table.as_bytes();
        if !same_bytes(again.as_slice(), bytes) {
            return Err(Error::Decode);
        }
        Ok(table)
    }
}

} // verus!
