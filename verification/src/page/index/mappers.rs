//! Sharing the entries of an index out among pages.

use crate::link::Link;
use crate::page::index::page_for_unsized::{entries_len, entry_len};
use crate::page::index::IndexValue;
use crate::util::key::IndexKey;
use crate::util::sized::{is_eight_aligned, SizeMeasurable};
use vstd::prelude::*;

verus! {

/// The number of bytes that a page takes apart from its entries.
pub const PAGE_OVERHEAD: usize = 8;

/// The lists one after another.
pub open spec fn flat<A>(lists: Seq<Seq<A>>) -> Seq<A>
    decreases lists.len(),
{
    if lists.len() == 0 {
        Seq::empty()
    } else {
        flat(lists.drop_last()) + lists.last()
    }
}

/// The number of bytes of a page that holds the entries.
pub open spec fn mapped_size<T: IndexKey>(page: Seq<IndexValue<T::V>>) -> nat {
    PAGE_OVERHEAD as nat + entries_len::<T>(page, page.len() as int)
}

/// Whether the entries are shared out among the pages the way that fills
/// each page as far as it goes: a page holds more than `page_size` bytes
/// only if it holds no more than one entry, a page but the first holds an
/// entry,
/// and the first entry of a page would not have fitted the page before.
pub open spec fn filled<T: IndexKey>(pages: Seq<Seq<IndexValue<T::V>>>, page_size: nat) -> bool {
    &&& pages.len() > 0
    &&& forall|i: int|
        0 <= i < pages.len() ==> mapped_size::<T>(#[trigger] pages[i]) <= page_size
            || pages[i].len() <= 1
    &&& forall|i: int| 0 < i < pages.len() ==> (#[trigger] pages[i]).len() > 0
    &&& forall|i: int|
        0 < i < pages.len() ==> mapped_size::<T>(#[trigger] pages[i - 1]) + entry_len::<T>(
            pages[i][0],
        ) > page_size
}

/// Returns the length of the entry's byte form.
fn wide_size<T: IndexKey>(value: &IndexValue<T>) -> (r: u128)
    requires
        T::storable(value@.key),
    ensures
        r == entry_len::<T>(value@),
        r <= 0x1_0000_0010,
{
    proof {
        value.key.lemma_size_is_encoding_length();
        crate::page::index::lemma_entry_layout::<T>(value@);
    }
    let sum: u128 = value.key.aligned_size() as u128 + 12;
    let unit: u128 = if is_eight_aligned(T::align()) {
        8
    } else {
        4
    };
    if sum % unit == 0 {
        sum
    } else {
        (sum / unit + 1) * unit
    }
}

/// The entries of the pages as mathematical values.
pub open spec fn page_models<T: View>(pages: Seq<Vec<IndexValue<T>>>) -> Seq<Seq<IndexValue<T::V>>> {
    Seq::new(pages.len(), |i: int| Seq::new(pages[i]@.len(), |j: int| pages[i]@[j]@))
}

/// The entries of the index as mathematical values.
pub open spec fn index_models<T: View>(index: Seq<(T, Link)>) -> Seq<IndexValue<T::V>> {
    Seq::new(index.len(), |i: int| IndexValue { key: index[i].0@, link: index[i].1 })
}

/// Shares the entries of an index, which come in the order of their keys,
/// out among pages of `PAGE_SIZE` bytes: each page is filled as far as it
/// goes, and an entry that alone is too long for a page gets a page of its
/// own. There is always a page, though the index be empty.
#[verifier::rlimit(40)]
pub fn map_tree_index<T: IndexKey, const PAGE_SIZE: usize>(index: &[(T, Link)]) -> (pages: Vec<
    Vec<IndexValue<T>>,
>)
    requires
        forall|i: int| 0 <= i < index@.len() ==> T::storable((#[trigger] index@[i]).0@),
    ensures
        flat(page_models(pages@)) == index_models(index@),
        filled::<T>(page_models(pages@), PAGE_SIZE as nat),
{
    let ghost all = index_models(index@);
    let mut pages: Vec<Vec<IndexValue<T>>> = Vec::new();
    let mut current_page: Vec<IndexValue<T>> = Vec::new();
    let mut current_size: u128 = PAGE_OVERHEAD as u128;
    let mut i: usize = 0;
    proof {
        assert(page_models(pages@) =~= Seq::<Seq<IndexValue<T::V>>>::empty());
        assert(flat(page_models(pages@)) + Seq::<IndexValue<T::V>>::empty() =~= all.subrange(0, 0));
    }
    while i < index.len()
        invariant
            i <= index@.len(),
            all == index_models(index@),
            forall|k: int| 0 <= k < index@.len() ==> T::storable((#[trigger] index@[k]).0@),
            flat(page_models(pages@)) + Seq::new(
                current_page@.len(),
                |j: int| current_page@[j]@,
            ) == all.subrange(0, i as int),
            current_size == mapped_size::<T>(
                Seq::new(current_page@.len(), |j: int| current_page@[j]@),
            ),
            current_size <= PAGE_SIZE || current_page@.len() <= 1,
            current_size <= (i + 1) * 0x1_0000_0010,
            pages@.len() > 0 ==> current_page@.len() > 0,
            pages@.len() > 0 ==> filled::<T>(page_models(pages@), PAGE_SIZE as nat),
            pages@.len() > 0 ==> mapped_size::<T>(page_models(pages@).last()) + entry_len::<T>(
                current_page@[0]@,
            ) > PAGE_SIZE,
        decreases index@.len() - i,
    {
        let ghost held = Seq::new(current_page@.len(), |j: int| current_page@[j]@);
        let ghost done = page_models(pages@);
        let index_value = IndexValue { key: index[i].0.key_clone(), link: index[i].1 };
        proof {
            assert(T::storable(index@[i as int].0@));
            assert(all[i as int] == index_value@);
        }
        let size: u128 = wide_size(&index_value);
        if current_size + size > PAGE_SIZE as u128 && !(pages.len() == 0 && current_page.len()
            == 0) {
            pages.push(current_page);
            current_page = Vec::new();
            current_size = PAGE_OVERHEAD as u128;
            proof {
                let now = page_models(pages@);
                assert(now.drop_last() =~= done);
                assert(now.last() =~= held);
                assert(flat(now) == flat(done) + held);
                assert forall|k: int| 0 <= k < now.len() implies mapped_size::<T>(
                    #[trigger] now[k],
                ) <= PAGE_SIZE || now[k].len() <= 1 by {
                    if k < done.len() {
                        assert(now[k] == done[k]);
                    }
                }
                assert forall|k: int| 0 < k < now.len() implies (#[trigger] now[k]).len() > 0 by {
                    if k < done.len() {
                        assert(now[k] == done[k]);
                    }
                }
                assert forall|k: int| 0 < k < now.len() implies mapped_size::<T>(
                    #[trigger] now[k - 1],
                ) + entry_len::<T>(now[k][0]) > PAGE_SIZE by {
                    if k < done.len() {
                        assert(now[k] == done[k]);
                        assert(now[k - 1] == done[k - 1]);
                    } else {
                        assert(now[k - 1] == done.last());
                    }
                }
                assert(entries_len::<T>(Seq::<IndexValue<T::V>>::empty(), 0) == 0);
            }
        }
        let ghost before = Seq::new(current_page@.len(), |j: int| current_page@[j]@);
        proof {
            if before.len() == 0 {
                assert(before =~= Seq::<IndexValue<T::V>>::empty());
            }
            assert(flat(page_models(pages@)) + before =~= all.subrange(0, i as int));
        }
        current_size += size;
        current_page.push(index_value);
        i += 1;
        proof {
            let after = Seq::new(current_page@.len(), |j: int| current_page@[j]@);
            assert(after =~= before.push(index_value@));
            crate::page::index::page_for_unsized::lemma_entries_len_prefix::<T>(
                after,
                before,
                before.len() as int,
            );
            assert(all.subrange(0, i as int) =~= all.subrange(0, i - 1).push(index_value@));
            assert(flat(page_models(pages@)) + after =~= (flat(page_models(pages@))
                + before).push(index_value@));
            if before.len() == 0 {
                assert(entries_len::<T>(after, 0) == 0);
            }
        }
    }
    let ghost held = Seq::new(current_page@.len(), |j: int| current_page@[j]@);
    let ghost done = page_models(pages@);
    pages.push(current_page);
    proof {
        let now = page_models(pages@);
        assert(now.drop_last() =~= done);
        assert(now.last() =~= held);
        assert(all.subrange(0, index@.len() as int) =~= all);
        assert forall|k: int| 0 <= k < now.len() implies mapped_size::<T>(#[trigger] now[k])
            <= PAGE_SIZE || now[k].len() <= 1 by {
            if k < done.len() {
                assert(now[k] == done[k]);
            } else {
                if held.len() == 0 {
                    assert(entries_len::<T>(held, 0) == 0);
                }
            }
        }
        assert forall|k: int| 0 < k < now.len() implies (#[trigger] now[k]).len() > 0 by {
            if k < done.len() {
                assert(now[k] == done[k]);
            }
        }
        assert forall|k: int| 0 < k < now.len() implies mapped_size::<T>(#[trigger] now[k - 1])
            + entry_len::<T>(now[k][0]) > PAGE_SIZE by {
            if k < done.len() {
                assert(now[k] == done[k]);
                assert(now[k - 1] == done[k - 1]);
            } else {
                assert(now[k - 1] == done.last());
            }
        }
    }
    pages
}

} // verus!
