//! [`TableOfContentsPage`]: which page holds which node of an index.

use crate::page::PageId;
use crate::util::key::IndexKey;
use crate::util::persistable::Persistable;
use crate::util::sized::{
    align, align8, forces_eight, is_eight_aligned, lemma_round_up, round_up, SizeMeasurable,
};
use vstd::prelude::*;

verus! {

/// The number of bytes of a table of contents that holds nothing.
pub const EMPTY_TABLE_SIZE: usize = 20;

/// The table of contents of an index: for each node, named by its greatest
/// key, the page that holds it; and the pages that came free and can be
/// used again. The records are kept in the order of their keys.
///
/// `estimated_size` counts the bytes that the table takes once written.
/// Every change moves it by the measured size of what the change adds or
/// takes off. For keys of one size that is the number of bytes of the
/// record, with one exception: `remove` takes off the key and the page
/// rounded up to a multiple of 4, so after a `remove` of a key whose type
/// forces a multiple of 8 the count is 4 above the bytes of the table.
/// The measured size of a string counts its text rounded up to a multiple
/// of 4, while the texts of the keys lie one after another in the byte
/// form: with strings as keys the count can be above the bytes of the
/// table.
#[derive(Clone, Debug)]
pub struct TableOfContentsPage<T> {
    pub(crate) records: Vec<(T, PageId)>,
    pub(crate) empty_pages: Vec<PageId>,
    pub(crate) estimated_size: usize,
}

/// A table of contents as a mathematical value.
pub struct TableView<K> {
    pub records: Seq<(K, PageId)>,
    pub empty_pages: Seq<PageId>,
    pub estimated_size: usize,
}

impl<T: View> View for TableOfContentsPage<T> {
    type V = TableView<T::V>;

    open(crate) spec fn view(&self) -> TableView<T::V> {
        TableView {
            records: Seq::new(self.records@.len(), |i: int| (self.records@[i].0@, self.records@[i].1)),
            empty_pages: self.empty_pages@,
            estimated_size: self.estimated_size,
        }
    }
}

/// The table that holds nothing: no record, no free page, and the 20
/// bytes that such a table takes as its `estimated_size`.
pub open spec fn empty_table<K>() -> TableView<K> {
    TableView {
        records: Seq::empty(),
        empty_pages: Seq::empty(),
        estimated_size: EMPTY_TABLE_SIZE,
    }
}

/// Whether the keys of the records rise from each record to the next.
pub open spec fn records_ordered<T: IndexKey>(records: Seq<(T::V, PageId)>) -> bool {
    forall|i: int, j: int|
        0 <= i < j < records.len() ==> T::le((#[trigger] records[i]).0, (#[trigger] records[j]).0)
            && records[i].0 != records[j].0
}

/// The place of the first record whose key is not below `key`, from `from`
/// on; the number of records if there is none.
pub open spec fn lower_bound<T: IndexKey>(
    records: Seq<(T::V, PageId)>,
    key: T::V,
    from: int,
) -> int
    decreases records.len() - from,
{
    if from >= records.len() {
        records.len() as int
    } else if T::le(key, records[from].0) {
        from
    } else {
        lower_bound::<T>(records, key, from + 1)
    }
}

/// Whether a record has the key.
pub open spec fn has_key<K>(records: Seq<(K, PageId)>, key: K) -> bool {
    exists|i: int| 0 <= i < records.len() && (#[trigger] records[i]).0 == key
}

/// The page that the records give for the key, if they hold it.
pub open spec fn page_of<K>(records: Seq<(K, PageId)>, key: K) -> Option<PageId> {
    if has_key(records, key) {
        Some(records[choose|i: int| 0 <= i < records.len() && (#[trigger] records[i]).0 == key].1)
    } else {
        None
    }
}

/// The records with `key` pointing to `page_id`: in place of the record
/// with that key if there is one, else at the key's place in the order.
pub open spec fn put<T: IndexKey>(
    records: Seq<(T::V, PageId)>,
    key: T::V,
    page_id: PageId,
) -> Seq<(T::V, PageId)> {
    let at = lower_bound::<T>(records, key, 0);
    if at < records.len() && records[at].0 == key {
        records.update(at, (key, page_id))
    } else {
        records.insert(at, (key, page_id))
    }
}

/// The records without the record of `key`.
pub open spec fn without<T: IndexKey>(records: Seq<(T::V, PageId)>, key: T::V) -> Seq<
    (T::V, PageId),
> {
    let at = lower_bound::<T>(records, key, 0);
    if at < records.len() && records[at].0 == key {
        records.remove(at)
    } else {
        records
    }
}

/// Where `lower_bound` points: the records before that place have keys
/// below `key`, and the record there, if there is one, has not.
pub proof fn lemma_lower_bound<T: IndexKey>(records: Seq<(T::V, PageId)>, key: T::V, from: int)
    requires
        0 <= from <= records.len(),
    ensures
        from <= lower_bound::<T>(records, key, from) <= records.len(),
        forall|i: int|
            from <= i < lower_bound::<T>(records, key, from) ==> !T::le(
                key,
                (#[trigger] records[i]).0,
            ),
        lower_bound::<T>(records, key, from) < records.len() ==> T::le(
            key,
            records[lower_bound::<T>(records, key, from)].0,
        ),
    decreases records.len() - from,
{
    if from < records.len() && !T::le(key, records[from].0) {
        lemma_lower_bound::<T>(records, key, from + 1);
    }
}

/// In ordered records a key is held at the place that `lower_bound` gives,
/// or nowhere.
pub proof fn lemma_key_place<T: IndexKey>(records: Seq<(T::V, PageId)>, key: T::V)
    requires
        records_ordered::<T>(records),
    ensures
        ({
            let at = lower_bound::<T>(records, key, 0);
            &&& 0 <= at <= records.len()
            &&& has_key(records, key) <==> at < records.len() && records[at].0 == key
            &&& has_key(records, key) ==> page_of(records, key) == Some(records[at].1)
            &&& forall|i: int| 0 <= i < at ==> !T::le(key, (#[trigger] records[i]).0)
            &&& forall|i: int|
                at <= i < records.len() ==> T::le(key, (#[trigger] records[i]).0)
        }),
{
    let at = lower_bound::<T>(records, key, 0);
    lemma_lower_bound::<T>(records, key, 0);
    assert forall|i: int| at <= i < records.len() implies T::le(key, (#[trigger] records[i]).0) by {
        if i > at {
            assert(T::le(records[at].0, records[i].0));
            T::lemma_le_transitive(key, records[at].0, records[i].0);
        }
    }
    if has_key(records, key) {
        let k = choose|i: int| 0 <= i < records.len() && (#[trigger] records[i]).0 == key;
        T::lemma_le_total(key, key);
        assert(T::le(key, records[k].0));
        assert(k >= at);
        if k > at {
            assert(T::le(records[at].0, records[k].0));
            T::lemma_le_antisymmetric(key, records[at].0);
            assert(records[at].0 != records[k].0);
        }
        assert(k == at);
    }
}

/// Putting a key into ordered records leaves them ordered; the key then
/// points to the page, and every other key to what it pointed to.
pub proof fn lemma_put<T: IndexKey>(records: Seq<(T::V, PageId)>, key: T::V, page_id: PageId)
    requires
        records_ordered::<T>(records),
    ensures
        records_ordered::<T>(put::<T>(records, key, page_id)),
        page_of(put::<T>(records, key, page_id), key) == Some(page_id),
        forall|other: T::V|
            other != key ==> page_of(put::<T>(records, key, page_id), other) == page_of(
                records,
                other,
            ),
        put::<T>(records, key, page_id).len() == if has_key(records, key) {
            records.len()
        } else {
            records.len() + 1
        },
{
    let at = lower_bound::<T>(records, key, 0);
    let after = put::<T>(records, key, page_id);
    lemma_key_place::<T>(records, key);
    let replace = at < records.len() && records[at].0 == key;
    assert forall|i: int, j: int| 0 <= i < j < after.len() implies T::le(
        (#[trigger] after[i]).0,
        (#[trigger] after[j]).0,
    ) && after[i].0 != after[j].0 by {
        if replace {
            assert(after[i].0 == records[i].0);
            assert(after[j].0 == records[j].0);
            assert(T::le(records[i].0, records[j].0) && records[i].0 != records[j].0);
        } else {
            let a = if i < at {
                i
            } else {
                i - 1
            };
            let b = if j < at {
                j
            } else {
                j - 1
            };
            if i != at && j != at {
                assert(T::le(records[a].0, records[b].0) && records[a].0 != records[b].0);
            } else if j == at {
                assert(!T::le(key, records[i].0));
                T::lemma_le_total(key, records[i].0);
            } else {
                assert(T::le(key, records[b].0));
                if key == records[b].0 {
                    assert(has_key(records, key));
                }
            }
        }
    }
    assert(after[at] == (key, page_id));
    assert(has_key(after, key));
    lemma_key_place::<T>(after, key);
    assert(page_of(after, key) == Some(page_id)) by {
        let k = lower_bound::<T>(after, key, 0);
        if k != at {
            if k < at {
                assert(T::le(after[k].0, after[at].0) && after[k].0 != after[at].0);
            } else {
                assert(T::le(after[at].0, after[k].0) && after[at].0 != after[k].0);
            }
        }
    }
    assert forall|other: T::V| other != key implies page_of(after, other) == page_of(
        records,
        other,
    ) by {
        lemma_record_kept::<T>(records, after, other, at, replace);
    }
}

/// A key keeps its page when a record of another key is put in at `at`,
/// be it in place of a record or between two.
proof fn lemma_record_kept<T: IndexKey>(
    records: Seq<(T::V, PageId)>,
    after: Seq<(T::V, PageId)>,
    other: T::V,
    at: int,
    replace: bool,
)
    requires
        records_ordered::<T>(records),
        records_ordered::<T>(after),
        0 <= at <= records.len(),
        replace ==> at < records.len() && after.len() == records.len() && after[at].0
            == records[at].0,
        replace ==> forall|i: int| 0 <= i < records.len() && i != at ==> after[i] == records[i],
        !replace ==> after.len() == records.len() + 1,
        !replace ==> forall|i: int| 0 <= i < at ==> after[i] == records[i],
        !replace ==> forall|i: int| at < i < after.len() ==> after[i] == records[i - 1],
        after[at].0 != other,
    ensures
        page_of(after, other) == page_of(records, other),
{
    lemma_key_place::<T>(records, other);
    lemma_key_place::<T>(after, other);
    if has_key(records, other) {
        let k = choose|i: int| 0 <= i < records.len() && (#[trigger] records[i]).0 == other;
        let m = if replace || k < at {
            k
        } else {
            k + 1
        };
        assert(after[m] == records[k]);
        assert(has_key(after, other));
        lemma_unique_key::<T>(after, other, m);
        lemma_unique_key::<T>(records, other, k);
    }
    if has_key(after, other) {
        let m = choose|i: int| 0 <= i < after.len() && (#[trigger] after[i]).0 == other;
        let k = if replace || m < at {
            m
        } else {
            m - 1
        };
        assert(records[k] == after[m]);
        assert(has_key(records, other));
    }
}

/// In ordered records the page of a key is that of the record that has
/// the key.
pub proof fn lemma_unique_key<T: IndexKey>(records: Seq<(T::V, PageId)>, key: T::V, at: int)
    requires
        records_ordered::<T>(records),
        0 <= at < records.len(),
        records[at].0 == key,
    ensures
        page_of(records, key) == Some(records[at].1),
        lower_bound::<T>(records, key, 0) == at,
{
    assert(has_key(records, key));
    lemma_key_place::<T>(records, key);
    let k = lower_bound::<T>(records, key, 0);
    if k != at {
        if k < at {
            assert(T::le(records[k].0, records[at].0) && records[k].0 != records[at].0);
        } else {
            assert(T::le(records[at].0, records[k].0) && records[at].0 != records[k].0);
        }
    }
}

/// Taking a key out of ordered records leaves them ordered and without
/// the key; every other key points to what it pointed to.
pub proof fn lemma_without<T: IndexKey>(records: Seq<(T::V, PageId)>, key: T::V)
    requires
        records_ordered::<T>(records),
    ensures
        records_ordered::<T>(without::<T>(records, key)),
        !has_key(without::<T>(records, key), key),
        forall|other: T::V|
            other != key ==> page_of(without::<T>(records, key), other) == page_of(
                records,
                other,
            ),
        has_key(records, key) ==> without::<T>(records, key).len() == records.len() - 1,
{
    let at = lower_bound::<T>(records, key, 0);
    let after = without::<T>(records, key);
    lemma_key_place::<T>(records, key);
    if at < records.len() && records[at].0 == key {
        assert forall|i: int, j: int| 0 <= i < j < after.len() implies T::le(
            (#[trigger] after[i]).0,
            (#[trigger] after[j]).0,
        ) && after[i].0 != after[j].0 by {
            let a = if i < at {
                i
            } else {
                i + 1
            };
            let b = if j < at {
                j
            } else {
                j + 1
            };
            assert(T::le(records[a].0, records[b].0) && records[a].0 != records[b].0);
        }
        if has_key(after, key) {
            let m = choose|i: int| 0 <= i < after.len() && (#[trigger] after[i]).0 == key;
            let k = if m < at {
                m
            } else {
                m + 1
            };
            assert(records[k] == after[m]);
            if k < at {
                assert(T::le(records[k].0, records[at].0) && records[k].0 != records[at].0);
            } else {
                assert(T::le(records[at].0, records[k].0) && records[at].0 != records[k].0);
            }
        }
        assert forall|other: T::V| other != key implies page_of(after, other) == page_of(
            records,
            other,
        ) by {
            lemma_key_place::<T>(after, other);
            lemma_key_place::<T>(records, other);
            if has_key(records, other) {
                let k = choose|i: int| 0 <= i < records.len() && (#[trigger] records[i]).0 == other;
                let m = if k < at {
                    k
                } else {
                    k - 1
                };
                assert(after[m] == records[k]);
                assert(has_key(after, other));
                lemma_unique_key::<T>(after, other, m);
                lemma_unique_key::<T>(records, other, k);
            }
            if has_key(after, other) {
                let m = choose|i: int| 0 <= i < after.len() && (#[trigger] after[i]).0 == other;
                let k = if m < at {
                    m
                } else {
                    m + 1
                };
                assert(records[k] == after[m]);
                assert(has_key(records, other));
            }
        }
    }
}

/// Records of which each key is below the key of the next are ordered.
pub proof fn lemma_rising<T: IndexKey>(records: Seq<(T::V, PageId)>, i: int, j: int)
    requires
        forall|k: int|
            0 <= k && k + 1 < records.len() ==> T::le((#[trigger] records[k]).0, records[k + 1].0)
                && records[k].0 != records[k + 1].0,
        0 <= i < j < records.len(),
    ensures
        T::le(records[i].0, records[j].0),
        records[i].0 != records[j].0,
    decreases j - i,
{
    if j > i + 1 {
        lemma_rising::<T>(records, i, j - 1);
        assert(T::le(records[j - 1].0, records[j].0) && records[j - 1].0 != records[j].0);
        T::lemma_le_transitive(records[i].0, records[j - 1].0, records[j].0);
        if records[i].0 == records[j].0 {
            T::lemma_le_antisymmetric(records[j - 1].0, records[j].0);
        }
    }
}

/// Whether the table keeps its pages apart: no two records point to the
/// same page, and no page that is recorded as free is the page of a
/// record.
pub open spec fn pages_apart<K>(v: TableView<K>) -> bool {
    &&& forall|i: int, j: int|
        0 <= i < j < v.records.len() ==> (#[trigger] v.records[i]).1 != (#[trigger] v.records[j]).1
    &&& forall|i: int, j: int|
        0 <= i < v.empty_pages.len() && 0 <= j < v.records.len() ==> #[trigger] v.empty_pages[i]
            != (#[trigger] v.records[j]).1
}

/// Whether the table knows the page: a record points to it, or it is
/// recorded as free.
pub open spec fn knows_page<K>(v: TableView<K>, id: PageId) -> bool {
    (exists|j: int| 0 <= j < v.records.len() && (#[trigger] v.records[j]).1 == id) || (exists|
        i: int,
    | 0 <= i < v.empty_pages.len() && #[trigger] v.empty_pages[i] == id)
}

/// Each record after a key was taken out is a record from before, and the
/// record of the key is none of them.
pub proof fn lemma_without_records<T: IndexKey>(records: Seq<(T::V, PageId)>, key: T::V, i: int)
    requires
        records_ordered::<T>(records),
        has_key(records, key),
        0 <= i < without::<T>(records, key).len(),
    ensures
        ({
            let at = lower_bound::<T>(records, key, 0);
            let k = if i < at {
                i
            } else {
                i + 1
            };
            &&& 0 <= at < records.len()
            &&& records[at].0 == key
            &&& page_of(records, key) == Some(records[at].1)
            &&& k != at
            &&& 0 <= k < records.len()
            &&& records[k] == without::<T>(records, key)[i]
        }),
{
    lemma_key_place::<T>(records, key);
}

/// A table keeps its pages apart across an insert of a page that it did
/// not know.
pub proof fn lemma_insert_keeps_pages_apart<T: IndexKey>(
    before: TableView<T::V>,
    after: TableView<T::V>,
    key: T::V,
    page_id: PageId,
)
    requires
        records_ordered::<T>(before.records),
        pages_apart(before),
        !knows_page(before, page_id),
        after.records == put::<T>(before.records, key, page_id),
        after.empty_pages == before.empty_pages,
    ensures
        pages_apart(after),
{
    let at = lower_bound::<T>(before.records, key, 0);
    lemma_lower_bound::<T>(before.records, key, 0);
    let replace = at < before.records.len() && before.records[at].0 == key;
    assert forall|i: int, j: int| 0 <= i < j < after.records.len() implies (
    #[trigger] after.records[i]).1 != (#[trigger] after.records[j]).1 by {
        let a = if replace || i < at {
            i
        } else {
            i - 1
        };
        let b = if replace || j < at {
            j
        } else {
            j - 1
        };
        if i != at && j != at {
            assert(before.records[a] == after.records[i]);
            assert(before.records[b] == after.records[j]);
            assert(before.records[a].1 != before.records[b].1);
        } else if i == at {
            assert(before.records[b] == after.records[j]);
        } else {
            assert(before.records[a] == after.records[i]);
        }
    }
    assert forall|i: int, j: int|
        0 <= i < after.empty_pages.len() && 0 <= j < after.records.len() implies #[trigger] after.empty_pages[i]
        != (#[trigger] after.records[j]).1 by {
        let b = if replace || j < at {
            j
        } else {
            j - 1
        };
        if j != at {
            assert(before.records[b] == after.records[j]);
        }
    }
}

/// A table keeps its pages apart across a remove that records the freed
/// page, and across one that does not.
pub proof fn lemma_remove_keeps_pages_apart<T: IndexKey>(
    before: TableView<T::V>,
    after: TableView<T::V>,
    key: T::V,
    id: PageId,
    recorded: bool,
)
    requires
        records_ordered::<T>(before.records),
        pages_apart(before),
        has_key(before.records, key),
        Some(id) == page_of(before.records, key),
        after.records == without::<T>(before.records, key),
        after.empty_pages == if recorded {
            before.empty_pages.push(id)
        } else {
            before.empty_pages
        },
    ensures
        pages_apart(after),
{
    let at = lower_bound::<T>(before.records, key, 0);
    lemma_key_place::<T>(before.records, key);
    assert forall|i: int, j: int| 0 <= i < j < after.records.len() implies (
    #[trigger] after.records[i]).1 != (#[trigger] after.records[j]).1 by {
        lemma_without_records::<T>(before.records, key, i);
        lemma_without_records::<T>(before.records, key, j);
        let a = if i < at {
            i
        } else {
            i + 1
        };
        let b = if j < at {
            j
        } else {
            j + 1
        };
        assert(before.records[a].1 != before.records[b].1);
    }
    assert forall|i: int, j: int|
        0 <= i < after.empty_pages.len() && 0 <= j < after.records.len() implies #[trigger] after.empty_pages[i]
        != (#[trigger] after.records[j]).1 by {
        lemma_without_records::<T>(before.records, key, j);
        let b = if j < at {
            j
        } else {
            j + 1
        };
        if i < before.empty_pages.len() {
            assert(after.empty_pages[i] == before.empty_pages[i]);
            assert(before.empty_pages[i] != before.records[b].1);
        } else {
            if b < at {
                assert(before.records[b].1 != before.records[at].1);
            } else {
                assert(before.records[at].1 != before.records[b].1);
            }
        }
    }
}

/// The number of bytes that a record whose key has `key_size` bytes adds
/// to a table: the key and the 4 bytes of the page, rounded up to a
/// multiple of 8 if the key's type forces that, else of 4.
pub open spec fn record_size<T: IndexKey>(key_size: nat) -> nat {
    if forces_eight(T::alignment()) {
        round_up(key_size + 4, 8)
    } else {
        round_up(key_size + 4, 4)
    }
}

/// The number of bytes that taking out a record whose key has `key_size`
/// bytes takes off a table: the key and the 4 bytes of the page, rounded
/// up to a multiple of 4.
pub open spec fn freed_size(key_size: nat) -> nat {
    round_up(key_size + 4, 4)
}

impl<T: IndexKey> TableOfContentsPage<T> {
    /// The table is sound: the keys of its records rise and have byte
    /// forms.
    pub open(crate) spec fn wf(&self) -> bool {
        &&& records_ordered::<T>(self@.records)
        &&& forall|i: int|
            0 <= i < self.records@.len() ==> T::storable((#[trigger] self.records@[i]).0@)
    }

    /// Tells whether the keys of the records rise from each record to the
    /// next.
    pub fn keys_rise(&self) -> (r: bool)
        ensures
            r == records_ordered::<T>(self@.records),
    {
        let ghost model = self@.records;
        let mut i: usize = 1;
        while i < self.records.len()
            invariant
                1 <= i,
                model == self@.records,
                model.len() == self.records@.len(),
                forall|j: int|
                    0 <= j && j + 1 < i ==> T::le((#[trigger] model[j]).0, model[j + 1].0)
                        && model[j].0 != model[j + 1].0,
            decreases self.records@.len() - i,
        {
            assert(model[i - 1] == (self.records@[i - 1].0@, self.records@[i - 1].1));
            assert(model[i as int] == (self.records@[i as int].0@, self.records@[i as int].1));
            if !self.records[i - 1].0.key_le(&self.records[i].0) || self.records[i - 1].0.key_eq(
                &self.records[i].0,
            ) {
                assert(!(T::le(model[i - 1].0, model[i as int].0) && model[i - 1].0
                    != model[i as int].0));
                return false;
            }
            i += 1;
        }
        proof {
            assert forall|a: int, b: int| 0 <= a < b < model.len() implies T::le(
                (#[trigger] model[a]).0,
                (#[trigger] model[b]).0,
            ) && model[a].0 != model[b].0 by {
                lemma_rising::<T>(model, a, b);
            }
        }
        true
    }

    /// Tells whether the table is sound.
    pub fn is_well_formed(&self) -> (r: bool)
        ensures
            r == self.wf(),
    {
        if !self.keys_rise() {
            return false;
        }
        let mut i: usize = 0;
        while i < self.records.len()
            invariant
                i <= self.records@.len(),
                forall|j: int| 0 <= j < i ==> T::storable((#[trigger] self.records@[j]).0@),
            decreases self.records@.len() - i,
        {
            if !self.records[i].0.is_storable() {
                return false;
            }
            i += 1;
        }
        true
    }

    /// Creates the table that holds nothing.
    pub fn new() -> (table: Self)
        ensures
            table.wf(),
            table@ == empty_table::<T::V>(),
    {
        let table = TableOfContentsPage {
            records: Vec::new(),
            empty_pages: Vec::new(),
            estimated_size: EMPTY_TABLE_SIZE,
        };
        assert(table@.records =~= Seq::<(T::V, PageId)>::empty());
        table
    }

    /// Returns the number of bytes that the table takes once written.
    pub fn estimated_size(&self) -> (size: usize)
        ensures
            size == self@.estimated_size,
    {
        self.estimated_size
    }

    /// Returns the place of the first record whose key is not below
    /// `val`.
    fn position(&self, val: &T) -> (at: usize)
        requires
            self.wf(),
        ensures
            at == lower_bound::<T>(self@.records, val@, 0),
            at <= self.records@.len(),
    {
        let mut at: usize = 0;
        proof {
            lemma_lower_bound::<T>(self@.records, val@, 0);
        }
        while at < self.records.len() && !val.key_le(&self.records[at].0)
            invariant
                at <= self.records@.len(),
                lower_bound::<T>(self@.records, val@, 0) == lower_bound::<T>(
                    self@.records,
                    val@,
                    at as int,
                ),
            decreases self.records@.len() - at,
        {
            assert(self@.records[at as int].0 == self.records@[at as int].0@);
            at += 1;
        }
        proof {
            if at < self.records@.len() {
                assert(self@.records[at as int].0 == self.records@[at as int].0@);
            }
        }
        at
    }

    /// Returns the page of the node `val`, if the table holds it.
    pub fn get(&self, val: &T) -> (r: Option<PageId>)
        requires
            self.wf(),
        ensures
            r == page_of(self@.records, val@),
    {
        let at: usize = self.position(val);
        proof {
            lemma_key_place::<T>(self@.records, val@);
            if at < self.records@.len() {
                assert(self@.records[at as int] == (
                    self.records@[at as int].0@,
                    self.records@[at as int].1,
                ));
            }
        }
        if at < self.records.len() && self.records[at].0.key_eq(val) {
            Some(self.records[at].1)
        } else {
            None
        }
    }

    /// Tells whether the table holds the node `val`.
    pub fn contains(&self, val: &T) -> (r: bool)
        requires
            self.wf(),
        ensures
            r == has_key(self@.records, val@),
    {
        let at: usize = self.position(val);
        proof {
            lemma_key_place::<T>(self@.records, val@);
            if at < self.records@.len() {
                assert(self@.records[at as int] == (
                    self.records@[at as int].0@,
                    self.records@[at as int].1,
                ));
            }
        }
        at < self.records.len() && self.records[at].0.key_eq(val)
    }

    /// Returns the records in the order of their keys.
    pub fn iter(&self) -> (records: &[(T, PageId)])
        ensures
            Seq::new(records@.len(), |i: int| (records@[i].0@, records@[i].1)) == self@.records,
    {
        let records = self.records.as_slice();
        assert(Seq::new(records@.len(), |i: int| (records@[i].0@, records@[i].1))
            =~= self@.records);
        records
    }

    /// Returns the pages that came free, the one that is used next last.
    pub fn empty_pages(&self) -> (pages: &[PageId])
        ensures
            pages@ == self@.empty_pages,
    {
        self.empty_pages.as_slice()
    }

    /// Makes the node `val` point to the page `page_id`.
    fn put_record(&mut self, val: T, page_id: PageId)
        requires
            old(self).wf(),
            T::storable(val@),
        ensures
            final(self).wf(),
            final(self)@.records == put::<T>(old(self)@.records, val@, page_id),
            final(self)@.empty_pages == old(self)@.empty_pages,
            final(self)@.estimated_size == old(self)@.estimated_size,
    {
        let ghost before = self@;
        proof {
            lemma_put::<T>(before.records, val@, page_id);
            lemma_key_place::<T>(before.records, val@);
        }
        let at: usize = self.position(&val);
        proof {
            if at < self.records@.len() {
                assert(before.records[at as int] == (
                    self.records@[at as int].0@,
                    self.records@[at as int].1,
                ));
            }
        }
        if at < self.records.len() && self.records[at].0.key_eq(&val) {
            self.records[at] = (val, page_id);
        } else {
            self.records.insert(at, (val, page_id));
        }
        proof {
            assert(self@.records =~= put::<T>(before.records, val@, page_id));
            assert forall|i: int| 0 <= i < self.records@.len() implies T::storable(
                (#[trigger] self.records@[i]).0@,
            ) by {
                if i != at {
                    let k = if i < at || old(self).records@.len() == self.records@.len() {
                        i
                    } else {
                        i - 1
                    };
                    assert(self.records@[i] == old(self).records@[k]);
                }
            }
        }
    }

    /// Takes the record at the place `at` out of the table.
    fn take_record(&mut self, at: usize) -> (record: (T, PageId))
        requires
            old(self).wf(),
            at < old(self)@.records.len(),
        ensures
            final(self).wf(),
            final(self)@.records == old(self)@.records.remove(at as int),
            final(self)@.empty_pages == old(self)@.empty_pages,
            final(self)@.estimated_size == old(self)@.estimated_size,
            (record.0@, record.1) == old(self)@.records[at as int],
            T::storable(record.0@),
    {
        let ghost before = self@;
        assert(T::storable(self.records@[at as int].0@));
        let record: (T, PageId) = self.records.remove(at);
        proof {
            assert(self@.records =~= before.records.remove(at as int));
            assert forall|i: int| 0 <= i < self.records@.len() implies T::storable(
                (#[trigger] self.records@[i]).0@,
            ) by {
                let k = if i < at {
                    i
                } else {
                    i + 1
                };
                assert(self.records@[i] == old(self).records@[k]);
            }
            assert forall|i: int, j: int| 0 <= i < j < self@.records.len() implies T::le(
                (#[trigger] self@.records[i]).0,
                (#[trigger] self@.records[j]).0,
            ) && self@.records[i].0 != self@.records[j].0 by {
                let a = if i < at {
                    i
                } else {
                    i + 1
                };
                let b = if j < at {
                    j
                } else {
                    j + 1
                };
                assert(T::le(before.records[a].0, before.records[b].0) && before.records[a].0
                    != before.records[b].0);
            }
        }
        record
    }

    /// Makes the node `val` point to the page `page_id`. A node that the
    /// table did not hold adds a record, and the count of bytes rises by
    /// the size of one; a node that it held keeps its record, with the new
    /// page in it, and the count stays.
    pub fn insert(&mut self, val: T, page_id: PageId)
        requires
            old(self).wf(),
            T::storable(val@),
            !has_key(old(self)@.records, val@) ==> old(self)@.estimated_size + record_size::<T>(
                val.size(),
            ) <= usize::MAX,
        ensures
            final(self).wf(),
            final(self)@.records == put::<T>(old(self)@.records, val@, page_id),
            final(self)@.empty_pages == old(self)@.empty_pages,
            final(self)@.estimated_size == old(self)@.estimated_size + if has_key(
                old(self)@.records,
                val@,
            ) {
                0
            } else {
                record_size::<T>(T::encoding(val@).len())
            },
            val.size() == T::encoding(val@).len(),
    {
        proof {
            val.lemma_size_is_encoding_length();
        }
        if !self.contains(&val) {
            self.estimated_size += Self::record_bytes(&val);
        }
        self.put_record(val, page_id);
    }

    /// Returns the number of bytes that a record with the key `val` takes
    /// in the table.
    fn record_bytes(val: &T) -> (r: usize)
        requires
            T::storable(val@),
            record_size::<T>(val.size()) <= usize::MAX,
        ensures
            r == record_size::<T>(T::encoding(val@).len()),
            r == record_size::<T>(val.size()),
    {
        proof {
            val.lemma_size_is_encoding_length();
            lemma_round_up(val.size() + 4, 4);
            lemma_round_up(val.size() + 4, 8);
        }
        let sum: usize = val.aligned_size() + 4;
        if is_eight_aligned(T::align()) {
            align8(sum)
        } else {
            align(sum)
        }
    }

    /// Takes the node `val` out of the table and returns its page, without
    /// recording the page as free. The count of bytes falls by the size
    /// of the record.
    pub fn remove_without_record(&mut self, val: &T) -> (id: PageId)
        requires
            old(self).wf(),
            has_key(old(self)@.records, val@),
            T::storable(val@),
            old(self)@.estimated_size >= record_size::<T>(val.size()),
        ensures
            final(self).wf(),
            Some(id) == page_of(old(self)@.records, val@),
            final(self)@.records == without::<T>(old(self)@.records, val@),
            final(self)@.empty_pages == old(self)@.empty_pages,
            final(self)@.estimated_size == old(self)@.estimated_size - record_size::<T>(
                T::encoding(val@).len(),
            ),
    {
        let ghost before = self@;
        let at: usize = self.position(val);
        proof {
            val.lemma_size_is_encoding_length();
            lemma_key_place::<T>(before.records, val@);
        }
        let record: (T, PageId) = self.take_record(at);
        proof {
            record.0.lemma_size_is_encoding_length();
        }
        self.estimated_size -= Self::record_bytes(&record.0);
        record.1
    }

    /// Takes the node `val` out of the table, records its page as free,
    /// and returns the page. The count of bytes falls by the record's key
    /// and page rounded up to a multiple of 4, and rises by the 4 bytes
    /// of the page on the list.
    pub fn remove(&mut self, val: &T) -> (id: PageId)
        requires
            old(self).wf(),
            has_key(old(self)@.records, val@),
            T::storable(val@),
            old(self)@.estimated_size >= freed_size(val.size()),
        ensures
            final(self).wf(),
            Some(id) == page_of(old(self)@.records, val@),
            final(self)@.records == without::<T>(old(self)@.records, val@),
            final(self)@.empty_pages == old(self)@.empty_pages.push(id),
            final(self)@.estimated_size == old(self)@.estimated_size - freed_size(
                T::encoding(val@).len(),
            ) + 4,
    {
        let ghost before = self@;
        let at: usize = self.position(val);
        proof {
            val.lemma_size_is_encoding_length();
            lemma_key_place::<T>(before.records, val@);
            lemma_round_up(T::encoding(val@).len() + 4, 4);
        }
        let record: (T, PageId) = self.take_record(at);
        proof {
            record.0.lemma_size_is_encoding_length();
        }
        let size: usize = record.0.aligned_size();
        self.estimated_size -= align(size + 4);
        self.estimated_size += 4;
        self.empty_pages.push(record.1);
        record.1
    }

    /// Takes the free page that was recorded last off the list and returns
    /// it, or returns `None` if no page is free.
    pub fn pop_empty_page(&mut self) -> (r: Option<PageId>)
        requires
            old(self).wf(),
            old(self)@.empty_pages.len() > 0 ==> old(self)@.estimated_size >= 4,
        ensures
            final(self).wf(),
            final(self)@.records == old(self)@.records,
            match r {
                Some(id) => old(self)@.empty_pages.len() > 0 && id == old(self)@.empty_pages.last()
                    && final(self)@.empty_pages == old(self)@.empty_pages.drop_last()
                    && final(self)@.estimated_size == old(self)@.estimated_size - 4,
                None => old(self)@.empty_pages.len() == 0 && final(self)@ == old(self)@,
            },
    {
        match self.empty_pages.pop() {
            Some(id) => {
                self.estimated_size -= 4;
                Some(id)
            },
            None => None,
        }
    }

    /// Gives the node `old_key` the key `new_key`. Returns `None`, and
    /// leaves the table as it was, if the table does not hold `old_key`.
    /// If another node had the key `new_key`, its record goes, and the
    /// count of bytes falls by the size of one record.
    pub fn update_key(&mut self, old_key: &T, new_key: T) -> (r: Option<()>)
        requires
            old(self).wf(),
            T::storable(new_key@),
            has_key(old(self)@.records, old_key@) && has_key(
                without::<T>(old(self)@.records, old_key@),
                new_key@,
            ) ==> old(self)@.estimated_size >= record_size::<T>(new_key.size()),
        ensures
            final(self).wf(),
            final(self)@.empty_pages == old(self)@.empty_pages,
            match page_of(old(self)@.records, old_key@) {
                Some(id) => r is Some && final(self)@.records == put::<T>(
                    without::<T>(old(self)@.records, old_key@),
                    new_key@,
                    id,
                ) && final(self)@.estimated_size == old(self)@.estimated_size - if has_key(
                    without::<T>(old(self)@.records, old_key@),
                    new_key@,
                ) {
                    record_size::<T>(T::encoding(new_key@).len())
                } else {
                    0
                },
                None => r is None && final(self)@ == old(self)@,
            },
    {
        let ghost before = self@;
        let at: usize = self.position(old_key);
        proof {
            lemma_key_place::<T>(before.records, old_key@);
            if at < self.records@.len() {
                assert(before.records[at as int] == (
                    self.records@[at as int].0@,
                    self.records@[at as int].1,
                ));
            }
        }
        if at < self.records.len() && self.records[at].0.key_eq(old_key) {
            let record: (T, PageId) = self.take_record(at);
            if self.contains(&new_key) {
                self.estimated_size -= Self::record_bytes(&new_key);
            }
            self.put_record(new_key, record.1);
            Some(())
        } else {
            None
        }
    }
}

impl<T: IndexKey> Default for TableOfContentsPage<T> {
    fn default() -> (table: Self)
        ensures
            table.wf(),
            table@ == empty_table::<T::V>(),
    {
        TableOfContentsPage::new()
    }
}

} // verus!
