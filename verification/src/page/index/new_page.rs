//! [`NewIndexPage`]: an index page that counts its entries in one field.

use crate::error::Error;
use crate::page::index::page::{empty_page, IndexPage, IndexPageView};
use crate::page::index::page_bytes::{
    key_width, lemma_page_layout, lemma_page_unique, lemma_utility_layout, page_bytes,
    page_size, page_storable, utility_bytes,
};
use crate::page::index::{zero_value, IndexValue};
use crate::page::GENERAL_HEADER_SIZE;
use crate::util::key::FixedKey;
use crate::util::persistable::{lemma_u16_bytes, Persistable};
use crate::util::sized::{align, lemma_round_up, round_up};
use vstd::bytes::*;
use vstd::prelude::*;

verus! {

/// A node of an index with room for `size` entries, of which the first
/// `values_count` places hold entries.
#[derive(Clone, Debug, PartialEq, Eq, Hash, PartialOrd, Ord)]
pub struct NewIndexPage<T> {
    pub size: u16,
    pub node_id: T,
    pub values_count: u16,
    pub slots: Vec<u16>,
    pub index_values: Vec<IndexValue<T>>,
}

/// The page as a mathematical value.
pub struct NewIndexPageView<K> {
    pub size: u16,
    pub node_id: K,
    pub values_count: u16,
    pub slots: Seq<u16>,
    pub index_values: Seq<IndexValue<K>>,
}

impl<T: View> View for NewIndexPage<T> {
    type V = NewIndexPageView<T::V>;

    open spec fn view(&self) -> NewIndexPageView<T::V> {
        NewIndexPageView {
            size: self.size,
            node_id: self.node_id@,
            values_count: self.values_count,
            slots: self.slots@,
            index_values: Seq::new(self.index_values@.len(), |i: int| self.index_values@[i]@),
        }
    }
}

impl<K> NewIndexPageView<K> {
    /// The slotted page with the same content, whose place for the next
    /// entry is the count of the entries and which lists no entry as live.
    pub open spec fn slotted(self) -> IndexPageView<K> {
        IndexPageView {
            size: self.size,
            node_id: self.node_id,
            current_index: self.values_count,
            current_length: 0,
            slots: self.slots,
            index_values: self.index_values,
        }
    }
}

/// The byte form of the page: that of the slotted page with the same
/// content, without the 2 bytes of the count of live entries.
pub open spec fn new_page_bytes<T: FixedKey>(v: NewIndexPageView<T::V>) -> Seq<u8> {
    let whole = page_bytes::<T>(v.slotted());
    whole.subrange(0, 4 + key_width::<T>()) + whole.subrange(
        6 + key_width::<T>(),
        whole.len() as int,
    )
}

/// The byte form of the slotted page is the byte form of the page with the
/// 2 bytes of a count of 0 put in.
pub proof fn lemma_new_page_bytes<T: FixedKey>(v: NewIndexPageView<T::V>)
    requires
        page_storable::<T>(v.slotted()),
    ensures
        new_page_bytes::<T>(v).len() + 2 == page_size::<T>(v.size as nat),
        page_bytes::<T>(v.slotted()) == new_page_bytes::<T>(v).subrange(0, 4 + key_width::<T>())
            + spec_u16_to_le_bytes(0) + new_page_bytes::<T>(v).subrange(
            4 + key_width::<T>(),
            new_page_bytes::<T>(v).len() as int,
        ),
{
    let p = v.slotted();
    let whole = page_bytes::<T>(p);
    lemma_page_layout::<T>(p);
    lemma_utility_layout::<T>(p.utility(), whole);
    lemma_round_up(v.size as nat * 2, 4);
    lemma_u16_bytes(0);
    let k = key_width::<T>();
    let cut = new_page_bytes::<T>(v);
    assert(whole.subrange(4 + k, 6 + k) == spec_u16_to_le_bytes(0));
    assert(whole =~= cut.subrange(0, 4 + k) + spec_u16_to_le_bytes(0) + cut.subrange(
        4 + k,
        cut.len() as int,
    ));
}

impl<T: FixedKey> NewIndexPage<T> {
    /// Creates a page with room for `size` entries that holds none.
    pub fn new(node_id: T, size: usize) -> (page: Self)
        requires
            size <= u16::MAX,
        ensures
            page@.slotted() == empty_page::<T>(node_id@, size as u16),
    {
        let slotted = IndexPage::new(node_id, size);
        let page = NewIndexPage {
            size: slotted.size,
            node_id: slotted.node_id,
            values_count: 0,
            slots: slotted.slots,
            index_values: slotted.index_values,
        };
        proof {
            let e = empty_page::<T>(page.node_id@, size as u16);
            assert(page@.slotted().slots =~= e.slots);
            assert(page@.slotted().index_values =~= e.index_values);
        }
        page
    }

    /// Returns the place of the count of the entries, counted from the
    /// start of the page in the file.
    pub fn values_count_offset() -> (r: usize)
        ensures
            r == GENERAL_HEADER_SIZE + T::default_size() + 2,
    {
        proof {
            T::lemma_default_size_fits();
        }
        GENERAL_HEADER_SIZE + T::default_aligned_size() + 2
    }

    /// Returns the number of bytes of the vector of `size` slots.
    pub fn slots_length(size: usize) -> (r: usize)
        requires
            size <= u16::MAX,
        ensures
            r == round_up(size as nat * 2, 4) + 8,
    {
        proof {
            lemma_round_up(size as nat * 2, 4);
        }
        align(size * 2) + 8
    }
}

impl<T: FixedKey> Persistable for NewIndexPage<T> {
    open spec fn storable(v: NewIndexPageView<T::V>) -> bool {
        page_storable::<T>(v.slotted())
    }

    open spec fn encoding(v: NewIndexPageView<T::V>) -> Seq<u8> {
        new_page_bytes::<T>(v)
    }

    proof fn lemma_encoding_injective(a: NewIndexPageView<T::V>, b: NewIndexPageView<T::V>) {
        lemma_new_page_bytes::<T>(a);
        lemma_new_page_bytes::<T>(b);
        lemma_page_unique::<T>(a.slotted(), b.slotted());
    }

    fn is_storable(&self) -> (r: bool) {
        let stride: usize = crate::page::index::cells::value_cell_size::<T>();
        let size: usize = self.size as usize;
        assert(size * stride <= 0x1_0000 * 0x2_0000) by (nonlinear_arith)
            requires
                size <= 0x1_0000,
                stride <= 0x2_0000,
        ;
        self.slots.len() == size && self.index_values.len() == size && size as u64
            * stride as u64 <= 0xffff_fff0
    }

    fn as_bytes(&self) -> (bytes: Vec<u8>) {
        let slotted = IndexPage {
            size: self.size,
            node_id: self.node_id.key_clone(),
            current_index: self.values_count,
            current_length: 0,
            slots: copy_slots(&self.slots),
            index_values: copy_values(&self.index_values),
        };
        proof {
            assert(slotted@.index_values =~= self@.slotted().index_values);
            assert(slotted@ == self@.slotted());
            lemma_page_layout::<T>(slotted@);
            lemma_utility_layout::<T>(slotted@.utility(), page_bytes::<T>(slotted@));
            T::lemma_default_size_fits();
            lemma_round_up(self.size as nat * 2, 4);
        }
        let whole: Vec<u8> = slotted.as_bytes();
        let cut: usize = 4 + T::default_aligned_size();
        let mut bytes: Vec<u8> = Vec::new();
        let mut i: usize = 0;
        while i < whole.len()
            invariant
                i <= whole@.len(),
                cut + 2 <= whole@.len(),
                bytes@ == if i <= cut {
                    whole@.subrange(0, i as int)
                } else if i <= cut + 2 {
                    whole@.subrange(0, cut as int)
                } else {
                    whole@.subrange(0, cut as int) + whole@.subrange(cut + 2, i as int)
                },
            decreases whole@.len() - i,
        {
            if i < cut || i >= cut + 2 {
                bytes.push(whole[i]);
            }
            i += 1;
            proof {
                if i <= cut {
                    assert(bytes@ =~= whole@.subrange(0, i as int));
                } else if i <= cut + 2 {
                    assert(bytes@ =~= whole@.subrange(0, cut as int));
                } else {
                    assert(bytes@ =~= whole@.subrange(0, cut as int) + whole@.subrange(
                        cut + 2,
                        i as int,
                    ));
                }
            }
        }
        bytes
    }

    fn from_bytes(bytes: &[u8]) -> (r: Result<Self, Error>) {
        proof {
            T::lemma_default_size_fits();
        }
        let cut: usize = 4 + T::default_aligned_size();
        proof {
            assert forall|v: NewIndexPageView<T::V>|
                Self::storable(v) && bytes@ == #[trigger] Self::encoding(v) implies bytes@.len()
                >= cut && page_bytes::<T>(v.slotted()) == bytes@.subrange(0, cut as int)
                + spec_u16_to_le_bytes(0) + bytes@.subrange(cut as int, bytes@.len() as int) by {
                lemma_new_page_bytes::<T>(v);
                lemma_round_up(v.size as nat * 2, 4);
            }
        }
        if bytes.len() < cut {
            return Err(Error::Decode);
        }
        let mut whole: Vec<u8> = vstd::slice::slice_to_vec(
            vstd::slice::slice_subrange(bytes, 0, cut),
        );
        let mut count: Vec<u8> = u16_to_le_bytes(0);
        whole.append(&mut count);
        let mut rest: Vec<u8> = vstd::slice::slice_to_vec(
            vstd::slice::slice_subrange(bytes, cut, bytes.len()),
        );
        whole.append(&mut rest);
        match IndexPage::<T>::from_bytes(whole.as_slice()) {
            Ok(page) => {
                if page.current_length != 0 {
                    proof {
                        assert forall|v: NewIndexPageView<T::V>|
                            Self::storable(v) implies #[trigger] Self::encoding(v) != bytes@ by {
                            if Self::encoding(v) == bytes@ {
                                lemma_page_unique::<T>(v.slotted(), page@);
                            }
                        }
                    }
                    return Err(Error::Decode);
                }
                let ghost slotted = page@;
                let back = NewIndexPage {
                    size: page.size,
                    node_id: page.node_id,
                    values_count: page.current_index,
                    slots: page.slots,
                    index_values: page.index_values,
                };
                proof {
                    assert(back@.slotted().index_values =~= slotted.index_values);
                    assert(back@.slotted() == slotted);
                    lemma_new_page_bytes::<T>(back@);
                    lemma_u16_bytes(0);
                    let e = new_page_bytes::<T>(back@);
                    lemma_round_up(back.size as nat * 2, 4);
                    assert(e.len() == bytes@.len());
                    assert(e.subrange(0, cut as int) =~= whole@.subrange(0, cut as int));
                    assert(e.subrange(cut as int, e.len() as int) =~= whole@.subrange(
                        cut + 2,
                        whole@.len() as int,
                    ));
                    assert(e =~= bytes@);
                }
                Ok(back)
            },
            Err(_) => {
                proof {
                    assert forall|v: NewIndexPageView<T::V>|
                        Self::storable(v) implies #[trigger] Self::encoding(v) != bytes@ by {
                        if Self::encoding(v) == bytes@ {
                            assert(IndexPage::<T>::storable(v.slotted()));
                            assert(whole@ =~= bytes@.subrange(0, cut as int)
                                + spec_u16_to_le_bytes(0) + bytes@.subrange(
                                cut as int,
                                bytes@.len() as int,
                            ));
                            assert(IndexPage::<T>::encoding(v.slotted()) == whole@);
                        }
                    }
                }
                Err(Error::Decode)
            },
        }
    }
}

/// Returns a copy of the slots.
fn copy_slots(slots: &Vec<u16>) -> (copy: Vec<u16>)
    ensures
        copy@ == slots@,
{
    let mut copy: Vec<u16> = Vec::new();
    let mut i: usize = 0;
    while i < slots.len()
        invariant
            i <= slots@.len(),
            copy@ == slots@.subrange(0, i as int),
        decreases slots@.len() - i,
    {
        copy.push(slots[i]);
        i += 1;
        assert(copy@ =~= slots@.subrange(0, i as int));
    }
    assert(copy@ =~= slots@);
    copy
}

/// Returns a copy of the entries.
fn copy_values<T: FixedKey>(values: &Vec<IndexValue<T>>) -> (copy: Vec<IndexValue<T>>)
    ensures
        copy@.len() == values@.len(),
        forall|i: int| 0 <= i < copy@.len() ==> (#[trigger] copy@[i])@ == values@[i]@,
{
    let mut copy: Vec<IndexValue<T>> = Vec::new();
    let mut i: usize = 0;
    while i < values.len()
        invariant
            i <= values@.len(),
            copy@.len() == i,
            forall|j: int| 0 <= j < i ==> (#[trigger] copy@[j])@ == values@[j]@,
        decreases values@.len() - i,
    {
        copy.push(values[i].duplicate());
        i += 1;
    }
    copy
}

} // verus!
