//! The byte form of a [`TableOfContentsPage`] whose keys are strings: the
//! archive of its records, its free pages and its `estimated_size`. The
//! texts of the long keys come first, then, at a multiple of 4, the 12
//! bytes of each record: 8 that stand for the key and the 4 of the page.
//! Behind them lie the 4 bytes of each free page, and last the fields, as
//! in a table with keys of one size.

use crate::error::Error;
use crate::page::index::table_bytes::{
    join_five, lemma_pages_length, lemma_pages_run, pages_at, pages_bytes, pages_run, read_pages,
    MAX_TABLE_LENGTH,
};
use crate::page::index::table_of_contents_page::{
    records_ordered, TableOfContentsPage, TableView,
};
use crate::page::PageId;
use crate::util::archive::{
    distance32, gap, le32, le32_at, le32_bytes, le32_value, lemma_le32, lemma_repr_length,
    lemma_string_at, lemma_vector_ref, read_string_at, repr_bytes, string_at, string_data,
    string_repr, vector_ref, vector_ref_bytes,
};
use crate::util::persistable::Persistable;
use crate::util::sized::{lemma_round_up, round_up};
use crate::util::text::{filler, same_bytes, text_bytes, MAX_STRING_LENGTH};
use vstd::prelude::*;

verus! {

/// What the keys of the first `count` records put out of line, one text
/// after another.
pub open spec fn key_texts(records: Seq<(Seq<char>, PageId)>, count: int) -> Seq<u8>
    decreases count,
{
    if count <= 0 {
        Seq::empty()
    } else {
        key_texts(records, count - 1) + string_data(records[count - 1].0)
    }
}

/// How far the text of the key of the record `i` lies before the record,
/// where the records start `reach` bytes behind the first text.
pub open spec fn key_distance(records: Seq<(Seq<char>, PageId)>, reach: nat, i: int) -> nat {
    (reach + 12 * i - key_texts(records, i).len()) as nat
}

/// The first `count` records, 12 bytes each, where they start `reach`
/// bytes behind the first text.
pub open spec fn text_records(records: Seq<(Seq<char>, PageId)>, count: int, reach: nat) -> Seq<
    u8,
>
    decreases count,
{
    if count <= 0 {
        Seq::empty()
    } else {
        text_records(records, count - 1, reach) + string_repr(
            records[count - 1].0,
            key_distance(records, reach, count - 1),
        ) + le32(records[count - 1].1.0)
    }
}

/// How far behind the first text the records start: behind the texts, at
/// the next multiple of 4.
pub open spec fn records_reach(records: Seq<(Seq<char>, PageId)>) -> nat {
    round_up(key_texts(records, records.len() as int).len(), 4)
}

/// The byte form of a table whose keys are strings.
pub open spec fn text_table_bytes(v: TableView<Seq<char>>) -> Seq<u8> {
    let n = v.records.len() as int;
    let m = v.empty_pages.len() as int;
    let reach = records_reach(v.records);
    let length = key_texts(v.records, n).len();
    key_texts(v.records, n) + filler(reach - length, 0) + text_records(v.records, n, reach)
        + pages_run(v.empty_pages, m) + vector_ref(12 * n + 4 * m, v.records.len()) + vector_ref(
        4 * m + 8,
        v.empty_pages.len(),
    ) + le32(v.estimated_size as u32)
}

/// The number of bytes of the byte form of a table whose keys are
/// strings.
pub open spec fn text_table_size(v: TableView<Seq<char>>) -> nat {
    records_reach(v.records) + 12 * v.records.len() + 4 * v.empty_pages.len() + 20
}

/// Whether a table whose keys are strings has a byte form: the keys rise
/// and have texts of a length that a reference holds, and the whole is
/// short enough for every distance to fit its 4 bytes, as is
/// `estimated_size`.
pub open spec fn text_table_storable(v: TableView<Seq<char>>) -> bool {
    &&& records_ordered::<String>(v.records)
    &&& forall|i: int|
        0 <= i < v.records.len() ==> text_bytes((#[trigger] v.records[i]).0).len()
            <= MAX_STRING_LENGTH
    &&& text_table_size(v) <= MAX_TABLE_LENGTH
    &&& v.estimated_size <= u32::MAX
}

/// The texts of the keys lie one after another.
pub proof fn lemma_key_texts(records: Seq<(Seq<char>, PageId)>, count: int, i: int)
    requires
        0 <= i < count <= records.len(),
    ensures
        key_texts(records, i).len() + string_data(records[i].0).len() == key_texts(
            records,
            i + 1,
        ).len(),
        key_texts(records, i + 1).len() <= key_texts(records, count).len(),
        key_texts(records, count).subrange(
            key_texts(records, i).len() as int,
            key_texts(records, i + 1).len() as int,
        ) == string_data(records[i].0),
    decreases count,
{
    if i == count - 1 {
        assert(key_texts(records, count).subrange(
            key_texts(records, i).len() as int,
            key_texts(records, i + 1).len() as int,
        ) =~= string_data(records[i].0));
    } else {
        lemma_key_texts(records, count - 1, i);
        assert(key_texts(records, count).subrange(
            key_texts(records, i).len() as int,
            key_texts(records, i + 1).len() as int,
        ) =~= key_texts(records, count - 1).subrange(
            key_texts(records, i).len() as int,
            key_texts(records, i + 1).len() as int,
        ));
    }
}

/// `count` records are 12 times `count` bytes.
pub proof fn lemma_text_records_length(
    records: Seq<(Seq<char>, PageId)>,
    count: int,
    reach: nat,
)
    requires
        0 <= count <= records.len(),
    ensures
        text_records(records, count, reach).len() == 12 * count,
    decreases count,
{
    if count > 0 {
        lemma_text_records_length(records, count - 1, reach);
        lemma_repr_length(records[count - 1].0, key_distance(records, reach, count - 1));
        lemma_le32(records[count - 1].1.0);
    }
}

/// The records lie one after another, 12 bytes each: 8 that stand for
/// the key, and the 4 of the page.
pub proof fn lemma_text_records(
    records: Seq<(Seq<char>, PageId)>,
    count: int,
    reach: nat,
    i: int,
)
    requires
        0 <= i < count <= records.len(),
    ensures
        text_records(records, count, reach).len() == 12 * count,
        text_records(records, count, reach).subrange(12 * i, 12 * i + 8) == string_repr(
            records[i].0,
            key_distance(records, reach, i),
        ),
        text_records(records, count, reach).subrange(12 * i + 8, 12 * i + 12) == le32(
            records[i].1.0,
        ),
    decreases count,
{
    lemma_text_records_length(records, count, reach);
    lemma_text_records_length(records, count - 1, reach);
    lemma_repr_length(records[count - 1].0, key_distance(records, reach, count - 1));
    lemma_le32(records[count - 1].1.0);
    let run = text_records(records, count, reach);
    if i == count - 1 {
        assert(run.subrange(12 * i, 12 * i + 8) =~= string_repr(
            records[i].0,
            key_distance(records, reach, i),
        ));
        assert(run.subrange(12 * i + 8, 12 * i + 12) =~= le32(records[i].1.0));
    } else {
        lemma_text_records(records, count - 1, reach, i);
        let before = text_records(records, count - 1, reach);
        assert(run.subrange(12 * i, 12 * i + 8) =~= before.subrange(12 * i, 12 * i + 8));
        assert(run.subrange(12 * i + 8, 12 * i + 12) =~= before.subrange(
            12 * i + 8,
            12 * i + 12,
        ));
    }
}

/// The record that lies at `at`: the key that its first 8 bytes stand
/// for, and the page of its last 4.
pub open spec fn text_record_at(bytes: Seq<u8>, at: int) -> Option<(Seq<char>, PageId)> {
    if at < 0 || at + 12 > bytes.len() {
        None
    } else {
        match string_at(bytes, at) {
            Some(key) => Some((key, PageId(le32_value(bytes.subrange(at + 8, at + 12))))),
            None => None,
        }
    }
}

/// The records that lie from `at` on, 12 bytes each.
pub open spec fn text_records_at(bytes: Seq<u8>, at: int, count: nat) -> Option<
    Seq<(Seq<char>, PageId)>,
> {
    if forall|i: int| 0 <= i < count ==> (#[trigger] text_record_at(bytes, at + 12 * i)) is Some {
        Some(Seq::new(count, |i: int| text_record_at(bytes, at + 12 * i).unwrap()))
    } else {
        None
    }
}

/// The table that the bytes spell, read from the fields at their end, if
/// they spell one.
pub open spec fn text_table_read(bytes: Seq<u8>) -> Option<TableView<Seq<char>>> {
    let fields = bytes.len() - 20;
    if fields < 0 || bytes.len() > MAX_TABLE_LENGTH {
        None
    } else {
        let first = distance32(le32_value(bytes.subrange(fields, fields + 4)));
        let records = le32_value(bytes.subrange(fields + 4, fields + 8));
        let second = distance32(le32_value(bytes.subrange(fields + 8, fields + 12)));
        let pages = le32_value(bytes.subrange(fields + 12, fields + 16));
        let size = le32_value(bytes.subrange(fields + 16, fields + 20));
        if first > fields || second > fields + 8 {
            None
        } else {
            let held = text_records_at(bytes, fields - first, records as nat);
            let free = pages_at(bytes, fields + 8 - second, pages as nat);
            if held is Some && free is Some {
                Some(
                    TableView {
                        records: held.unwrap(),
                        empty_pages: free.unwrap(),
                        estimated_size: size as usize,
                    },
                )
            } else {
                None
            }
        }
    }
}

/// How the byte form of a table whose keys are strings is laid out.
pub proof fn lemma_text_table_layout(v: TableView<Seq<char>>)
    ensures
        text_table_bytes(v).len() == text_table_size(v),
        ({
            let e = text_table_bytes(v);
            let n = v.records.len() as int;
            let m = v.empty_pages.len() as int;
            let reach = records_reach(v.records) as int;
            let length = key_texts(v.records, n).len() as int;
            let fields = reach + 12 * n + 4 * m;
            &&& length <= reach
            &&& reach % 4 == 0
            &&& e.subrange(0, length) == key_texts(v.records, n)
            &&& e.subrange(reach, reach + 12 * n) == text_records(v.records, n, reach as nat)
            &&& e.subrange(reach + 12 * n, fields) == pages_run(v.empty_pages, m)
            &&& e.subrange(fields, fields + 8) == vector_ref(12 * n + 4 * m, v.records.len())
            &&& e.subrange(fields + 8, fields + 16) == vector_ref(4 * m + 8, v.empty_pages.len())
            &&& e.subrange(fields + 16, fields + 20) == le32(v.estimated_size as u32)
        }),
{
    let e = text_table_bytes(v);
    let n = v.records.len() as int;
    let m = v.empty_pages.len() as int;
    let reach = records_reach(v.records) as int;
    let length = key_texts(v.records, n).len() as int;
    let fields = reach + 12 * n + 4 * m;
    lemma_round_up(length as nat, 4);
    lemma_text_records_length(v.records, n, reach as nat);
    lemma_pages_length(v.empty_pages, m);
    lemma_vector_ref(12 * n + 4 * m, v.records.len());
    lemma_vector_ref(4 * m + 8, v.empty_pages.len());
    lemma_le32(v.estimated_size as u32);
    assert(e.subrange(0, length) =~= key_texts(v.records, n));
    assert(e.subrange(reach, reach + 12 * n) =~= text_records(v.records, n, reach as nat));
    assert(e.subrange(reach + 12 * n, fields) =~= pages_run(v.empty_pages, m));
    assert(e.subrange(fields, fields + 8) =~= vector_ref(12 * n + 4 * m, v.records.len()));
    assert(e.subrange(fields + 8, fields + 16) =~= vector_ref(4 * m + 8, v.empty_pages.len()));
    assert(e.subrange(fields + 16, fields + 20) =~= le32(v.estimated_size as u32));
}

/// The record `i` of a table whose keys are strings is read back from
/// its byte form.
#[verifier::rlimit(60)]
pub proof fn lemma_text_record_read(v: TableView<Seq<char>>, i: int)
    requires
        text_table_storable(v),
        0 <= i < v.records.len(),
    ensures
        text_record_at(text_table_bytes(v), records_reach(v.records) + 12 * i) == Some(
            v.records[i],
        ),
{
    let e = text_table_bytes(v);
    let n = v.records.len() as int;
    let reach = records_reach(v.records) as int;
    let all = key_texts(v.records, n);
    let run = text_records(v.records, n, reach as nat);
    let at = reach + 12 * i;
    lemma_text_table_layout(v);
    lemma_key_texts(v.records, n, i);
    lemma_text_records(v.records, n, reach as nat, i);
    let distance = key_distance(v.records, reach as nat, i);
    let from = key_texts(v.records, i).len() as int;
    assert(distance == reach + 12 * i - from);
    assert(e.subrange(at, at + 8) =~= run.subrange(12 * i, 12 * i + 8));
    assert(e.subrange(at + 8, at + 12) =~= run.subrange(12 * i + 8, 12 * i + 12));
    if text_bytes(v.records[i].0).len() > 8 {
        let length = text_bytes(v.records[i].0).len() as int;
        assert(string_data(v.records[i].0) == text_bytes(v.records[i].0));
        assert(e.subrange(from, from + length) =~= all.subrange(from, from + length));
        assert(at - distance == from);
    }
    lemma_string_at(e, at, v.records[i].0, distance);
    lemma_le32(v.records[i].1.0);
}

/// The fields of a table whose keys are strings are read back from its
/// byte form.
pub proof fn lemma_text_fields(v: TableView<Seq<char>>)
    requires
        text_table_storable(v),
    ensures
        ({
            let e = text_table_bytes(v);
            let n = v.records.len() as int;
            let m = v.empty_pages.len() as int;
            let fields = e.len() - 20;
            &&& fields == records_reach(v.records) + 12 * n + 4 * m
            &&& distance32(le32_value(e.subrange(fields, fields + 4))) == 12 * n + 4 * m
            &&& le32_value(e.subrange(fields + 4, fields + 8)) == n
            &&& distance32(le32_value(e.subrange(fields + 8, fields + 12))) == 4 * m + 8
            &&& le32_value(e.subrange(fields + 12, fields + 16)) == m
            &&& le32_value(e.subrange(fields + 16, fields + 20)) == v.estimated_size
        }),
{
    let e = text_table_bytes(v);
    let n = v.records.len() as int;
    let m = v.empty_pages.len() as int;
    let reach = records_reach(v.records) as int;
    let fields = reach + 12 * n + 4 * m;
    lemma_text_table_layout(v);
    lemma_vector_ref(12 * n + 4 * m, v.records.len());
    lemma_vector_ref(4 * m + 8, v.empty_pages.len());
    lemma_le32(v.estimated_size as u32);
    let first = e.subrange(fields, fields + 8);
    let second = e.subrange(fields + 8, fields + 16);
    assert(e.subrange(fields, fields + 4) =~= first.subrange(0, 4));
    assert(e.subrange(fields + 4, fields + 8) =~= first.subrange(4, 8));
    assert(e.subrange(fields + 8, fields + 12) =~= second.subrange(0, 4));
    assert(e.subrange(fields + 12, fields + 16) =~= second.subrange(4, 8));
}

/// The records of a table whose keys are strings are read back from its
/// byte form.
pub proof fn lemma_text_held(v: TableView<Seq<char>>)
    requires
        text_table_storable(v),
    ensures
        text_records_at(
            text_table_bytes(v),
            records_reach(v.records) as int,
            v.records.len(),
        ) == Some(v.records),
{
    let e = text_table_bytes(v);
    let reach = records_reach(v.records) as int;
    assert forall|i: int| 0 <= i < v.records.len() implies #[trigger] text_record_at(
        e,
        reach + 12 * i,
    ) == Some(v.records[i]) by {
        lemma_text_record_read(v, i);
    }
    assert(text_records_at(e, reach, v.records.len()).unwrap() =~= v.records);
}

/// The free pages of a table whose keys are strings are read back from
/// its byte form.
pub proof fn lemma_text_free(v: TableView<Seq<char>>)
    requires
        text_table_storable(v),
    ensures
        pages_at(
            text_table_bytes(v),
            (records_reach(v.records) + 12 * v.records.len()) as int,
            v.empty_pages.len(),
        ) == Some(v.empty_pages),
{
    let e = text_table_bytes(v);
    let n = v.records.len() as int;
    let m = v.empty_pages.len() as int;
    let reach = records_reach(v.records) as int;
    lemma_text_table_layout(v);
    let free = pages_run(v.empty_pages, m);
    let start = reach + 12 * n;
    assert forall|i: int| 0 <= i < m implies PageId(
        le32_value(#[trigger] e.subrange(start + 4 * i, start + 4 * i + 4)),
    ) == v.empty_pages[i] by {
        lemma_pages_run(v.empty_pages, m, i);
        assert(e.subrange(start + 4 * i, start + 4 * i + 4) =~= free.subrange(4 * i, 4 * i + 4));
        lemma_le32(v.empty_pages[i].0);
    }
    assert(pages_at(e, start, v.empty_pages.len()).unwrap() =~= v.empty_pages);
}

/// The byte form of a table whose keys are strings reads as the table.
pub proof fn lemma_text_table_read(v: TableView<Seq<char>>)
    requires
        text_table_storable(v),
    ensures
        text_table_read(text_table_bytes(v)) == Some(v),
{
    lemma_text_fields(v);
    lemma_text_held(v);
    lemma_text_free(v);
    let e = text_table_bytes(v);
    let n = v.records.len() as int;
    let m = v.empty_pages.len() as int;
    let fields = e.len() - 20;
    assert(fields - (12 * n + 4 * m) == records_reach(v.records));
    assert(fields + 8 - (4 * m + 8) == records_reach(v.records) + 12 * n);
    assert(e.len() == text_table_size(v)) by {
        lemma_text_table_layout(v);
    }
}

/// Whether the parts of a table whose keys are strings have byte forms.
pub open spec fn text_table_fits(v: TableView<Seq<char>>) -> bool {
    &&& records_ordered::<String>(v.records)
    &&& forall|i: int|
        0 <= i < v.records.len() ==> text_bytes((#[trigger] v.records[i]).0).len()
            <= MAX_STRING_LENGTH
    &&& v.records.len() <= u32::MAX
    &&& v.empty_pages.len() <= u32::MAX
    &&& v.estimated_size <= u32::MAX
}

/// Reads the `count` records that lie from `at` on, 12 bytes each.
/// Returns `None` if one of them is no record.
fn read_text_records(bytes: &[u8], at: usize, count: u32) -> (r: Option<Vec<(String, PageId)>>)
    ensures
        match r {
            Some(records) => text_records_at(bytes@, at as int, count as nat) == Some(
                Seq::new(records@.len(), |i: int| (records@[i].0@, records@[i].1)),
            ),
            None => text_records_at(bytes@, at as int, count as nat) is None,
        },
{
    let total: usize = bytes.len();
    if count > 0 && (at > total || count as u64 > ((total - at) as u64) / 12) {
        proof {
            let last = count as int - 1;
            assert(at + 12 * last + 12 > total);
            assert(text_record_at(bytes@, at + 12 * last) is None);
        }
        return None;
    }
    let mut records: Vec<(String, PageId)> = Vec::new();
    let mut i: usize = 0;
    while i < count as usize
        invariant
            i <= count,
            total == bytes@.len(),
            count > 0 ==> at + 12 * count <= total,
            records@.len() == i,
            forall|j: int|
                0 <= j < i ==> #[trigger] text_record_at(bytes@, at + 12 * j) == Some(
                    (records@[j].0@, records@[j].1),
                ),
        decreases count - i,
    {
        let from: usize = at + 12 * i;
        match read_string_at(bytes, from) {
            Some(key) => {
                let page: u32 = le32_at(bytes, from + 8);
                records.push((key, PageId(page)));
            },
            None => {
                assert(text_record_at(bytes@, at + 12 * i) is None);
                return None;
            },
        }
        i += 1;
    }
    assert(text_records_at(bytes@, at as int, count as nat).unwrap() =~= Seq::new(
        records@.len(),
        |i: int| (records@[i].0@, records@[i].1),
    ));
    Some(records)
}

impl TableOfContentsPage<String> {
    /// Tells whether the parts of the table have byte forms.
    fn text_fits(&self) -> (r: bool)
        ensures
            r == text_table_fits(self@),
    {
        if !self.keys_rise() {
            return false;
        }
        let mut i: usize = 0;
        while i < self.records.len()
            invariant
                i <= self.records@.len(),
                forall|j: int|
                    0 <= j < i ==> text_bytes((#[trigger] self@.records[j]).0).len()
                        <= MAX_STRING_LENGTH,
            decreases self.records@.len() - i,
        {
            assert(self@.records[i as int].0 == self.records@[i as int].0@);
            if self.records[i].0.as_str().as_bytes().len() > MAX_STRING_LENGTH {
                return false;
            }
            i += 1;
        }
        self.records.len() <= u32::MAX as usize && self.empty_pages.len() <= u32::MAX as usize
            && self.estimated_size <= u32::MAX as usize
    }

    /// Writes the texts of the long keys, one after another, and zeroes
    /// up to a multiple of 4. Returns with them the place of each text.
    fn encode_texts(&self) -> (r: (Vec<u8>, Vec<usize>))
        ensures
            r.0@ == key_texts(self@.records, self@.records.len() as int) + filler(
                records_reach(self@.records) - key_texts(
                    self@.records,
                    self@.records.len() as int,
                ).len(),
                0,
            ),
            r.0@.len() == records_reach(self@.records),
            r.1@.len() == self@.records.len(),
            forall|j: int|
                0 <= j < self@.records.len() ==> #[trigger] r.1@[j] == key_texts(
                    self@.records,
                    j,
                ).len(),
    {
        let ghost v = self@;
        let mut bytes: Vec<u8> = Vec::new();
        let mut places: Vec<usize> = Vec::new();
        let mut i: usize = 0;
        assert(bytes@ =~= key_texts(v.records, 0));
        while i < self.records.len()
            invariant
                i <= self.records@.len(),
                v == self@,
                bytes@ == key_texts(v.records, i as int),
                places@.len() == i,
                forall|j: int| 0 <= j < i ==> #[trigger] places@[j] == key_texts(v.records, j).len(),
            decreases self.records@.len() - i,
        {
            assert(v.records[i as int].0 == self.records@[i as int].0@);
            places.push(bytes.len());
            let text: &[u8] = self.records[i].0.as_str().as_bytes();
            if text.len() > 8 {
                let mut part: Vec<u8> = vstd::slice::slice_to_vec(text);
                bytes.append(&mut part);
            }
            i += 1;
            assert(bytes@ =~= key_texts(v.records, i as int));
        }
        let ghost all = bytes@;
        proof {
            lemma_round_up(all.len(), 4);
        }
        assert(bytes@ =~= all + filler(0, 0));
        while bytes.len() % 4 != 0
            invariant
                all.len() <= bytes@.len() <= round_up(all.len(), 4),
                round_up(all.len(), 4) % 4 == 0,
                bytes@ == all + filler(bytes@.len() - all.len(), 0),
            decreases round_up(all.len(), 4) - bytes@.len(),
        {
            bytes.push(0);
            assert(bytes@ =~= all + filler(bytes@.len() - all.len(), 0));
        }
        (bytes, places)
    }

    /// Writes the records, 12 bytes each, which start `reach` bytes
    /// behind the first text.
    fn encode_text_records(&self, reach: usize, places: &Vec<usize>) -> (bytes: Vec<u8>)
        requires
            text_table_fits(self@),
            reach == records_reach(self@.records),
            places@.len() == self@.records.len(),
            forall|j: int|
                0 <= j < self@.records.len() ==> #[trigger] places@[j] == key_texts(
                    self@.records,
                    j,
                ).len(),
        ensures
            bytes@ == text_records(
                self@.records,
                self@.records.len() as int,
                records_reach(self@.records),
            ),
    {
        let ghost v = self@;
        let mut bytes: Vec<u8> = Vec::new();
        let mut i: usize = 0;
        assert(bytes@ =~= text_records(v.records, 0, reach as nat));
        proof {
            lemma_round_up(key_texts(v.records, v.records.len() as int).len(), 4);
        }
        while i < self.records.len()
            invariant
                i <= self.records@.len(),
                v == self@,
                text_table_fits(v),
                reach == records_reach(v.records),
                key_texts(v.records, v.records.len() as int).len() <= reach,
                places@.len() == v.records.len(),
                forall|j: int|
                    0 <= j < v.records.len() ==> #[trigger] places@[j] == key_texts(
                        v.records,
                        j,
                    ).len(),
                bytes@ == text_records(v.records, i as int, reach as nat),
                bytes@.len() == 12 * i,
            decreases self.records@.len() - i,
        {
            proof {
                assert(v.records[i as int] == (
                    self.records@[i as int].0@,
                    self.records@[i as int].1,
                ));
                lemma_key_texts(v.records, v.records.len() as int, i as int);
                lemma_repr_length(v.records[i as int].0, key_distance(v.records, reach as nat, i as int));
                lemma_le32(v.records[i as int].1.0);
            }
            let distance: u128 = reach as u128 + 12 * i as u128 - places[i] as u128;
            let mut part: Vec<u8> = repr_bytes(&self.records[i].0, distance);
            bytes.append(&mut part);
            let mut part: Vec<u8> = le32_bytes(self.records[i].1.0);
            bytes.append(&mut part);
            i += 1;
            assert(bytes@ =~= text_records(v.records, i as int, reach as nat));
        }
        bytes
    }

    /// Writes the byte form of a table whose parts have byte forms.
    fn encode_text(&self) -> (bytes: Vec<u8>)
        requires
            text_table_fits(self@),
        ensures
            bytes@ == text_table_bytes(self@),
    {
        let ghost v = self@;
        let (texts, places) = self.encode_texts();
        let records: Vec<u8> = self.encode_text_records(texts.len(), &places);
        let pages: Vec<u8> = pages_bytes(&self.empty_pages);
        proof {
            lemma_text_records_length(
                v.records,
                v.records.len() as int,
                records_reach(v.records),
            );
            lemma_pages_length(v.empty_pages, v.empty_pages.len() as int);
            assert(pages@ == pages_run(v.empty_pages, v.empty_pages.len() as int));
        }
        let first: Vec<u8> = vector_ref_bytes(
            records.len() as u128 + pages.len() as u128,
            self.records.len(),
        );
        let second: Vec<u8> = vector_ref_bytes(pages.len() as u128 + 8, self.empty_pages.len());
        let size: Vec<u8> = le32_bytes(self.estimated_size as u32);
        let mut bytes: Vec<u8> = texts;
        let mut records = records;
        bytes.append(&mut records);
        let rest: Vec<u8> = join_five(bytes, pages, first, second, size);
        assert(rest@ =~= text_table_bytes(v));
        rest
    }

    /// Reads the table that the bytes spell, from the fields at their
    /// end. Returns `None` if they spell none.
    fn read_text(bytes: &[u8]) -> (r: Option<Self>)
        ensures
            match r {
                Some(table) => text_table_read(bytes@) == Some(table@),
                None => text_table_read(bytes@) is None,
            },
    {
        let total: usize = bytes.len();
        if total < 20 || total > MAX_TABLE_LENGTH {
            return None;
        }
        let fields: usize = total - 20;
        let back: u32 = le32_at(bytes, fields);
        let held: u32 = le32_at(bytes, fields + 4);
        let first: u64 = (0x1_0000_0000u64 - back as u64) % 0x1_0000_0000;
        let back: u32 = le32_at(bytes, fields + 8);
        let free: u32 = le32_at(bytes, fields + 12);
        let second: u64 = (0x1_0000_0000u64 - back as u64) % 0x1_0000_0000;
        let size: u32 = le32_at(bytes, fields + 16);
        if first > fields as u64 || second > fields as u64 + 8 {
            return None;
        }
        let records = match read_text_records(bytes, fields - first as usize, held) {
            Some(records) => records,
            None => {
                return None;
            },
        };
        let empty_pages = match read_pages(bytes, (fields as u64 + 8 - second) as usize, free) {
            Some(pages) => pages,
            None => {
                return None;
            },
        };
        let table = TableOfContentsPage { records, empty_pages, estimated_size: size as usize };
        proof {
            assert(table@.records =~= Seq::new(
                table.records@.len(),
                |i: int| (table.records@[i].0@, table.records@[i].1),
            ));
        }
        Some(table)
    }
}

/// The byte form of a table whose keys are strings.
impl Persistable for TableOfContentsPage<String> {
    open spec fn storable(v: TableView<Seq<char>>) -> bool {
        text_table_storable(v)
    }

    open spec fn encoding(v: TableView<Seq<char>>) -> Seq<u8> {
        text_table_bytes(v)
    }

    proof fn lemma_encoding_injective(a: TableView<Seq<char>>, b: TableView<Seq<char>>) {
        lemma_text_table_read(a);
        lemma_text_table_read(b);
    }

    fn is_storable(&self) -> (r: bool) {
        if !self.text_fits() {
            return false;
        }
        proof {
            lemma_text_table_layout(self@);
        }
        self.encode_text().len() <= MAX_TABLE_LENGTH
    }

    fn as_bytes(&self) -> (bytes: Vec<u8>) {
        self.encode_text()
    }

    fn from_bytes(bytes: &[u8]) -> (r: Result<Self, Error>) {
        proof {
            assert forall|v: TableView<Seq<char>>|
                Self::storable(v) && bytes@ == #[trigger] Self::encoding(v) implies text_table_read(
                bytes@,
            ) == Some(v) by {
                lemma_text_table_read(v);
            }
        }
        let table = match Self::read_text(bytes) {
            Some(table) => table,
            None => {
                return Err(Error::Decode);
            },
        };
        if !table.is_storable() {
            return Err(Error::Decode);
        }
        let again: Vec<u8> = table.encode_text();
        if !same_bytes(again.as_slice(), bytes) {
            return Err(Error::Decode);
        }
        Ok(table)
    }
}

} // verus!
