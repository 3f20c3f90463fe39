//! [`IndexPage`]: a slotted node page for keys of one fixed size.

use crate::page::index::{zero_value, IndexValue};
use crate::page::GENERAL_HEADER_SIZE;
use crate::util::key::{FixedKey, IndexKey};
use crate::util::sized::{align, align8, lemma_round_up, round_up, DefaultSizeMeasurable};
use vstd::prelude::*;
use vstd::seq_lib::seq_to_set_is_finite;
use vstd::set_lib::{lemma_int_range, lemma_len_subset, lemma_subset_equality, set_int_range};

verus! {

/// A node of an index with room for `size` entries.
///
/// The entries lie in `index_values` wherever a place was free; `slots`
/// lists the places of the `current_length` live entries in the order of
/// their keys. `node_id` is the greatest key of the node and
/// `current_index` the place that the next entry goes to.
#[derive(Clone, Debug, PartialEq, Eq, Hash, PartialOrd, Ord)]
pub struct IndexPage<T> {
    pub size: u16,
    pub node_id: T,
    pub current_index: u16,
    pub current_length: u16,
    pub slots: Vec<u16>,
    pub index_values: Vec<IndexValue<T>>,
}

/// An index page as a mathematical value.
pub struct IndexPageView<K> {
    pub size: u16,
    pub node_id: K,
    pub current_index: u16,
    pub current_length: u16,
    pub slots: Seq<u16>,
    pub index_values: Seq<IndexValue<K>>,
}

impl<T: View> View for IndexPage<T> {
    type V = IndexPageView<T::V>;

    open spec fn view(&self) -> IndexPageView<T::V> {
        IndexPageView {
            size: self.size,
            node_id: self.node_id@,
            current_index: self.current_index,
            current_length: self.current_length,
            slots: self.slots@,
            index_values: Seq::new(self.index_values@.len(), |i: int| self.index_values@[i]@),
        }
    }
}

impl<K> IndexPageView<K> {
    /// The entry at the logical position `i`.
    pub open spec fn entry(self, i: int) -> IndexValue<K> {
        self.index_values[self.slots[i] as int]
    }

    /// The live entries in the order of their keys.
    pub open spec fn node(self) -> Seq<IndexValue<K>> {
        Seq::new(self.current_length as nat, |i: int| self.entry(i))
    }

    /// Whether a live slot names the place `pos`.
    pub open spec fn is_taken(self, pos: int) -> bool {
        exists|i: int| 0 <= i < self.current_length && #[trigger] self.slots[i] == pos
    }

    /// The page's structure is sound: both tables have `size` places, and
    /// the live slots name places of the page, no two the same place.
    pub open spec fn wf(self) -> bool {
        &&& self.slots.len() == self.size
        &&& self.index_values.len() == self.size
        &&& self.current_length <= self.size
        &&& self.current_index <= self.size
        &&& forall|i: int| 0 <= i < self.current_length ==> #[trigger] self.slots[i] < self.size
        &&& forall|i: int, j: int|
            0 <= i < j < self.current_length ==> #[trigger] self.slots[i] != #[trigger] self.slots[j]
    }

    /// The least of the places that the slots from `from` up to `to` name.
    pub open spec fn least_slot(self, from: int, to: int) -> u16
        decreases to - from,
    {
        if from >= to {
            u16::MAX
        } else {
            let rest = self.least_slot(from, to - 1);
            if self.slots[to - 1] < rest {
                self.slots[to - 1]
            } else {
                rest
            }
        }
    }

    /// The least slot of a range that is not empty is one of its slots, and
    /// none of them is below it.
    pub proof fn lemma_least_slot(self, from: int, to: int)
        requires
            0 <= from < to <= self.slots.len(),
        ensures
            exists|i: int| from <= i < to && #[trigger] self.slots[i] == self.least_slot(from, to),
            forall|i: int| from <= i < to ==> self.least_slot(from, to) <= #[trigger] self.slots[i],
        decreases to - from,
    {
        if from < to - 1 {
            self.lemma_least_slot(from, to - 1);
            let w = choose|i: int|
                from <= i < to - 1 && #[trigger] self.slots[i] == self.least_slot(from, to - 1);
            if self.slots[to - 1] < self.least_slot(from, to - 1) {
                assert(self.slots[to - 1] == self.least_slot(from, to));
            } else {
                assert(self.slots[w] == self.least_slot(from, to));
            }
        } else {
            assert(self.least_slot(from, to - 1) == u16::MAX);
            assert(self.slots[to - 1] == self.least_slot(from, to));
        }
    }

    /// The page that stays when the entries from the logical position
    /// `index` on are taken out and `zero` is put in their places.
    pub open spec fn lower_half(self, index: int, zero: IndexValue<K>) -> IndexPageView<K> {
        IndexPageView {
            size: self.size,
            node_id: self.entry(index - 1).key,
            current_index: self.least_slot(index, self.current_length as int),
            current_length: index as u16,
            slots: Seq::new(
                self.slots.len(),
                |i: int|
                    if i < index {
                        self.slots[i]
                    } else {
                        0u16
                    },
            ),
            index_values: Seq::new(
                self.index_values.len(),
                |pos: int|
                    if exists|i: int|
                        index <= i < self.current_length && #[trigger] self.slots[i] == pos {
                        zero
                    } else {
                        self.index_values[pos]
                    },
            ),
        }
    }

    /// The page made of the entries from the logical position `index` on,
    /// packed at the front in their order.
    pub open spec fn upper_half(self, index: int, zero: IndexValue<K>) -> IndexPageView<K> {
        let count = self.current_length - index;
        IndexPageView {
            size: self.size,
            node_id: self.node_id,
            current_index: count as u16,
            current_length: count as u16,
            slots: Seq::new(
                self.slots.len(),
                |i: int|
                    if i < count {
                        i as u16
                    } else {
                        0u16
                    },
            ),
            index_values: Seq::new(
                self.index_values.len(),
                |i: int|
                    if i < count {
                        self.entry(index + i)
                    } else {
                        zero
                    },
            ),
        }
    }
}

/// The page with room for `size` entries that holds none.
pub open spec fn empty_page<T: IndexKey>(node_id: T::V, size: u16) -> IndexPageView<T::V> {
    IndexPageView {
        size,
        node_id,
        current_index: 0,
        current_length: 0,
        slots: Seq::new(size as nat, |i: int| 0u16),
        index_values: Seq::new(size as nat, |i: int| zero_value::<T>()),
    }
}

/// The page with room for `size` entries that holds the entries of `node`
/// at the front, in their order.
pub open spec fn page_of_node<T: IndexKey>(node: Seq<IndexValue<T::V>>, size: u16) -> IndexPageView<
    T::V,
> {
    IndexPageView {
        size,
        node_id: node.last().key,
        current_index: node.len() as u16,
        current_length: node.len() as u16,
        slots: Seq::new(
            size as nat,
            |i: int|
                if i < node.len() {
                    i as u16
                } else {
                    0u16
                },
        ),
        index_values: Seq::new(
            size as nat,
            |i: int|
                if i < node.len() {
                    node[i]
                } else {
                    zero_value::<T>()
                },
        ),
    }
}

/// Whether the entries of a node are in the order of their keys and none
/// of them is the zero entry.
pub open spec fn node_in_order<T: IndexKey>(node: Seq<IndexValue<T::V>>) -> bool {
    &&& forall|i: int| 0 <= i < node.len() ==> #[trigger] node[i] != zero_value::<T>()
    &&& forall|i: int, j: int|
        0 <= i < j < node.len() ==> T::le((#[trigger] node[i]).key, (#[trigger] node[j]).key)
}

/// The page of a node is sound and hands the node back; it meets the page
/// invariant if the node is in order.
pub proof fn lemma_page_of_node<T: IndexKey>(node: Seq<IndexValue<T::V>>, size: u16)
    requires
        0 < node.len() <= size,
    ensures
        page_of_node::<T>(node, size).wf(),
        page_of_node::<T>(node, size).node() == node,
        node_in_order::<T>(node) ==> page_inv::<T>(page_of_node::<T>(node, size)),
{
    let p = page_of_node::<T>(node, size);
    assert(p.wf());
    assert forall|i: int| 0 <= i < p.current_length implies #[trigger] p.entry(i) == node[i] by {
        assert(p.slots[i] == i);
    }
    assert(p.node() =~= node);
    if node_in_order::<T>(node) {
        assert forall|pos: int| 0 <= pos < p.size && !p.is_taken(pos) implies #[trigger] p.index_values[pos]
            == zero_value::<T>() by {
            if pos < node.len() {
                assert(p.slots[pos] == pos);
                assert(p.is_taken(pos));
            }
        }
        assert(keys_ordered::<T>(p)) by {
            assert forall|i: int, j: int| 0 <= i < j < p.current_length implies T::le(
                (#[trigger] p.entry(i)).key,
                (#[trigger] p.entry(j)).key,
            ) by {
                assert(p.entry(i) == node[i]);
                assert(p.entry(j) == node[j]);
            }
        }
        assert(p.entry(p.current_length - 1) == node.last());
        assert(names_lowest_free::<T>(p)) by {
            assert forall|pos: int| 0 <= pos < p.size && pos < node.len() implies #[trigger] p.index_values[pos]
                != zero_value::<T>() by {
                assert(p.index_values[pos] == node[pos]);
            }
        }
    }
}

/// Whether the keys of the live entries do not fall from one logical
/// position to the next.
pub open spec fn keys_ordered<T: IndexKey>(p: IndexPageView<T::V>) -> bool {
    forall|i: int, j: int|
        0 <= i < j < p.current_length ==> T::le(
            (#[trigger] p.entry(i)).key,
            (#[trigger] p.entry(j)).key,
        )
}

/// The number of the first `count` logical positions whose entry is not
/// the zero entry.
pub open spec fn live_count<T: IndexKey>(p: IndexPageView<T::V>, count: int) -> int
    decreases count,
{
    if count <= 0 {
        0
    } else {
        live_count::<T>(p, count - 1) + if p.entry(count - 1) != zero_value::<T>() {
            1int
        } else {
            0int
        }
    }
}

/// In a page that meets the page invariant, `current_length` is the
/// number of slots that name an entry other than the zero entry.
pub proof fn lemma_live_count<T: IndexKey>(p: IndexPageView<T::V>, count: int)
    requires
        page_inv::<T>(p),
        0 <= count <= p.current_length,
    ensures
        live_count::<T>(p, count) == count,
    decreases count,
{
    if count > 0 {
        lemma_live_count::<T>(p, count - 1);
        assert(p.entry(count - 1) != zero_value::<T>());
    }
}

/// Whether `current_index` names the lowest free place: every place before
/// it holds an entry and the place itself holds none. In a page without a
/// free place it names the last place or the one behind it.
pub open spec fn names_lowest_free<T: IndexKey>(p: IndexPageView<T::V>) -> bool {
    &&& forall|pos: int|
        0 <= pos < p.current_index && pos < p.size ==> #[trigger] p.index_values[pos]
            != zero_value::<T>()
    &&& (p.current_index < p.size && p.index_values[p.current_index as int] == zero_value::<T>())
        || (p.current_index + 1 >= p.size && forall|pos: int|
            0 <= pos < p.size ==> #[trigger] p.index_values[pos] != zero_value::<T>())
}

/// In a sound page with fewer live entries than places some place is
/// named by no live slot, and in one with as many every place is named.
pub proof fn lemma_taken_places<K>(p: IndexPageView<K>)
    requires
        p.wf(),
    ensures
        p.current_length < p.size ==> exists|pos: int| 0 <= pos < p.size && !p.is_taken(pos),
        p.current_length == p.size ==> forall|pos: int| 0 <= pos < p.size ==> p.is_taken(pos),
{
    let places = Seq::new(p.current_length as nat, |i: int| p.slots[i] as int);
    let all = set_int_range(0, p.size as int);
    assert(places.no_duplicates()) by {
        assert forall|i: int, j: int|
            0 <= i < places.len() && 0 <= j < places.len() && i != j implies places[i]
            != places[j] by {
            if i < j {
                assert(p.slots[i] != p.slots[j]);
            } else {
                assert(p.slots[j] != p.slots[i]);
            }
        }
    }
    places.unique_seq_to_set();
    seq_to_set_is_finite(places);
    lemma_int_range(0, p.size as int);
    assert(places.to_set().subset_of(all)) by {
        assert forall|pos: int| places.to_set().contains(pos) implies all.contains(pos) by {
            let i = choose|i: int| 0 <= i < places.len() && places[i] == pos;
            assert(p.slots[i] < p.size);
        }
    }
    assert forall|pos: int| 0 <= pos < p.size && places.to_set().contains(pos) implies p.is_taken(
        pos,
    ) by {
        let i = choose|i: int| 0 <= i < places.len() && places[i] == pos;
        assert(p.slots[i] == pos);
    }
    if p.current_length == p.size {
        lemma_subset_equality(places.to_set(), all);
        assert forall|pos: int| 0 <= pos < p.size implies p.is_taken(pos) by {
            assert(all.contains(pos));
        }
    } else {
        if forall|pos: int| 0 <= pos < p.size ==> p.is_taken(pos) {
            assert(all.subset_of(places.to_set())) by {
                assert forall|pos: int| all.contains(pos) implies places.to_set().contains(
                    pos,
                ) by {
                    assert(p.is_taken(pos));
                    let i = choose|i: int| 0 <= i < p.current_length && #[trigger] p.slots[i] == pos;
                    assert(places[i] == pos);
                }
            }
            lemma_len_subset(all, places.to_set());
        }
    }
}

/// What holds of an index page between any two events: its structure is
/// sound, the live entries are not the zero entry and every other place
/// holds it, the keys are in order, `node_id` is the last of them, and
/// `current_index` names the lowest free place.
pub open spec fn page_inv<T: IndexKey>(p: IndexPageView<T::V>) -> bool {
    &&& p.wf()
    &&& names_lowest_free::<T>(p)
    &&& forall|i: int| 0 <= i < p.current_length ==> #[trigger] p.entry(i) != zero_value::<T>()
    &&& forall|pos: int|
        0 <= pos < p.size && !p.is_taken(pos) ==> #[trigger] p.index_values[pos] == zero_value::<
            T,
        >()
    &&& keys_ordered::<T>(p)
    &&& p.current_length > 0 ==> p.node_id == p.entry(p.current_length - 1).key
}

impl<T: IndexKey> IndexPage<T> {
    /// Creates a page with room for `size` entries that holds none.
    pub fn new(node_id: T, size: usize) -> (page: Self)
        requires
            size <= u16::MAX,
        ensures
            page@ == empty_page::<T>(node_id@, size as u16),
            page@.wf(),
            page_inv::<T>(page@),
    {
        let mut slots: Vec<u16> = Vec::new();
        let mut index_values: Vec<IndexValue<T>> = Vec::new();
        let mut i: usize = 0;
        while i < size
            invariant
                i <= size,
                slots@.len() == i,
                index_values@.len() == i,
                forall|j: int| 0 <= j < i ==> slots@[j] == 0,
                forall|j: int| 0 <= j < i ==> (#[trigger] index_values@[j])@ == zero_value::<T>(),
            decreases size - i,
        {
            slots.push(0);
            index_values.push(IndexValue::zero());
            i += 1;
        }
        let page = Self {
            size: size as u16,
            node_id,
            current_index: 0,
            current_length: 0,
            slots,
            index_values,
        };
        proof {
            let e = empty_page::<T>(node_id@, size as u16);
            assert(page@.slots =~= e.slots);
            assert(page@.index_values =~= e.index_values);
        }
        page
    }

    /// Tells whether the page's structure is sound.
    pub fn is_well_formed(&self) -> (r: bool)
        ensures
            r == self@.wf(),
    {
        let size: usize = self.size as usize;
        let live: usize = self.current_length as usize;
        if self.slots.len() != size || self.index_values.len() != size || live > size {
            return false;
        }
        if self.current_index > self.size {
            return false;
        }
        let mut taken: Vec<bool> = Vec::new();
        let mut k: usize = 0;
        while k < size
            invariant
                k <= size,
                taken@.len() == k,
                forall|j: int| 0 <= j < k ==> !taken@[j],
            decreases size - k,
        {
            taken.push(false);
            k += 1;
        }
        let mut i: usize = 0;
        while i < live
            invariant
                i <= live <= size,
                size == self.size,
                live == self.current_length,
                self.slots@.len() == size,
                taken@.len() == size,
                forall|j: int| 0 <= j < i ==> #[trigger] self.slots@[j] < size,
                forall|a: int, b: int|
                    0 <= a < b < i ==> #[trigger] self.slots@[a] != #[trigger] self.slots@[b],
                forall|place: int|
                    0 <= place < size ==> (#[trigger] taken@[place] <==> exists|j: int|
                        0 <= j < i && #[trigger] self.slots@[j] == place),
            decreases live - i,
        {
            let slot: usize = self.slots[i] as usize;
            if slot >= size {
                assert(!(self@.slots[i as int] < self@.size));
                return false;
            }
            if taken[slot] {
                proof {
                    let j = choose|j: int| 0 <= j < i && #[trigger] self.slots@[j] == slot;
                    assert(self@.slots[j] == self@.slots[i as int]);
                }
                return false;
            }
            let ghost before = taken@;
            taken[slot] = true;
            proof {
                assert forall|place: int| 0 <= place < size implies (#[trigger] taken@[place]
                    <==> exists|j: int| 0 <= j < i + 1 && #[trigger] self.slots@[j] == place) by {
                    if place == slot {
                        assert(self.slots@[i as int] == place);
                    } else {
                        assert(taken@[place] == before[place]);
                        if before[place] {
                            let j = choose|j: int| 0 <= j < i && #[trigger] self.slots@[j] == place;
                            assert(0 <= j < i + 1 && self.slots@[j] == place);
                        }
                        if exists|j: int| 0 <= j < i + 1 && #[trigger] self.slots@[j] == place {
                            let j = choose|j: int|
                                0 <= j < i + 1 && #[trigger] self.slots@[j] == place;
                            assert(j < i);
                        }
                    }
                }
                assert forall|a: int, b: int| 0 <= a < b < i + 1 implies #[trigger] self.slots@[a]
                    != #[trigger] self.slots@[b] by {
                    if b == i {
                        if self.slots@[a] == slot {
                            assert(before[slot as int]);
                        }
                    }
                }
            }
            i += 1;
        }
        true
    }

    /// Returns the live entries in the order of their keys.
    pub fn get_node(&self) -> (node: Vec<IndexValue<T>>)
        requires
            self@.wf(),
        ensures
            node@.len() == self.current_length,
            Seq::new(node@.len(), |i: int| node@[i]@) == self@.node(),
    {
        let mut node: Vec<IndexValue<T>> = Vec::new();
        let count: usize = self.current_length as usize;
        let mut i: usize = 0;
        while i < count
            invariant
                i <= count,
                count == self.current_length,
                self@.wf(),
                node@.len() == i,
                forall|j: int| 0 <= j < i ==> (#[trigger] node@[j])@ == self@.entry(j),
            decreases count - i,
        {
            let slot: usize = self.slots[i] as usize;
            assert(self@.slots[i as int] < self@.size);
            node.push(self.index_values[slot].duplicate());
            i += 1;
        }
        assert(Seq::new(node@.len(), |i: int| node@[i]@) =~= self@.node());
        node
    }

    /// Builds the page with room for `size` entries that holds the entries
    /// of `node`, which are in the order of their keys.
    pub fn from_node(node: &[IndexValue<T>], size: usize) -> (page: Self)
        requires
            0 < node@.len() <= size <= u16::MAX,
        ensures
            page@ == page_of_node::<T>(Seq::new(node@.len(), |i: int| node@[i]@), size as u16),
            page@.node() == Seq::new(node@.len(), |i: int| node@[i]@),
            page@.wf(),
            node_in_order::<T>(Seq::new(node@.len(), |i: int| node@[i]@)) ==> page_inv::<T>(page@),
    {
        let last: usize = node.len() - 1;
        let mut page = IndexPage::new(node[last].key.key_clone(), size);
        let ghost model = Seq::new(node@.len(), |i: int| node@[i]@);
        proof {
            let e = empty_page::<T>(page.node_id@, size as u16);
            assert forall|j: int| 0 <= j < size implies (#[trigger] page.index_values@[j])@
                == zero_value::<T>() by {
                assert(page@.index_values[j] == e.index_values[j]);
            }
            assert forall|j: int| 0 <= j < size implies page.slots@[j] == 0 by {
                assert(page@.slots[j] == e.slots[j]);
            }
        }
        let mut i: usize = 0;
        while i < node.len()
            invariant
                i <= node@.len() <= size,
                size <= u16::MAX,
                page.size == size,
                page.node_id@ == node@[last as int].key@,
                page.current_index == 0,
                page.current_length == 0,
                page.slots@.len() == size,
                page.index_values@.len() == size,
                forall|j: int| 0 <= j < i ==> page.slots@[j] == j,
                forall|j: int| i <= j < size ==> page.slots@[j] == 0,
                forall|j: int| 0 <= j < i ==> (#[trigger] page.index_values@[j])@ == node@[j]@,
                forall|j: int|
                    i <= j < size ==> (#[trigger] page.index_values@[j])@ == zero_value::<T>(),
            decreases node@.len() - i,
        {
            page.index_values[i] = node[i].duplicate();
            page.slots[i] = i as u16;
            i += 1;
        }
        page.current_index = node.len() as u16;
        page.current_length = node.len() as u16;
        proof {
            let e = page_of_node::<T>(model, size as u16);
            assert(page@.slots =~= e.slots);
            assert(page@.index_values =~= e.index_values);
            assert(model.last() == node@[last as int]@);
            assert(page@.node() =~= model);
            lemma_page_of_node::<T>(model, size as u16);
        }
        page
    }

    /// Splits the page at the logical position `index`: the entries from
    /// there on move to a new page, which is returned, packed at its front;
    /// this page keeps the entries before `index`, takes the last of them
    /// as its `node_id`, and will fill the lowest place that came free
    /// first.
    pub fn split(&mut self, index: usize) -> (new_page: IndexPage<T>)
        requires
            old(self)@.wf(),
            0 < index < old(self).current_length,
        ensures
            final(self)@ == old(self)@.lower_half(index as int, zero_value::<T>()),
            new_page@ == old(self)@.upper_half(index as int, zero_value::<T>()),
            final(self)@.wf(),
            new_page@.wf(),
            page_inv::<T>(old(self)@) ==> page_inv::<T>(new_page@),
            page_inv::<T>(old(self)@) && packed_before_split::<T>(old(self)@, index as int)
                ==> page_inv::<T>(final(self)@),
            page_inv::<T>(old(self)@) && old(self).current_length == old(self).size
                ==> page_inv::<T>(final(self)@),
    {
        let ghost before = self@;
        let count: usize = self.current_length as usize;
        let size: usize = self.size as usize;
        let mut new_page = IndexPage::new(self.node_id.key_clone(), size);
        proof {
            let e = empty_page::<T>(self.node_id@, size as u16);
            assert forall|j: int| 0 <= j < size implies (#[trigger] new_page.index_values@[j])@
                == zero_value::<T>() by {
                assert(new_page@.index_values[j] == e.index_values[j]);
            }
            assert forall|j: int| 0 <= j < size implies new_page.slots@[j] == 0 by {
                assert(new_page@.slots[j] == e.slots[j]);
            }
        }
        let mut first_empty_value: u16 = u16::MAX;
        let mut i: usize = index;
        while i < count
            invariant
                index <= i <= count,
                count == before.current_length,
                size == before.size,
                before.wf(),
                self.size == before.size,
                self.node_id@ == before.node_id,
                self.current_index == before.current_index,
                self.current_length == before.current_length,
                self.slots@ == before.slots,
                self.index_values@.len() == size,
                first_empty_value == before.least_slot(index as int, i as int),
                forall|pos: int|
                    0 <= pos < size ==> (#[trigger] self.index_values@[pos])@ == if exists|k: int|
                        index <= k < i && #[trigger] before.slots[k] == pos {
                        zero_value::<T>()
                    } else {
                        before.index_values[pos]
                    },
                new_page.size == before.size,
                new_page.node_id@ == before.node_id,
                new_page.current_index == 0,
                new_page.current_length == 0,
                new_page.slots@.len() == size,
                new_page.index_values@.len() == size,
                forall|j: int| 0 <= j < i - index ==> new_page.slots@[j] == j,
                forall|j: int| i - index <= j < size ==> new_page.slots@[j] == 0,
                forall|j: int|
                    0 <= j < i - index ==> (#[trigger] new_page.index_values@[j])@ == before.entry(
                        index + j,
                    ),
                forall|j: int|
                    i - index <= j < size ==> (#[trigger] new_page.index_values@[j])@
                        == zero_value::<T>(),
            decreases count - i,
        {
            let slot: u16 = self.slots[i];
            assert(before.slots[i as int] < before.size);
            if first_empty_value > slot {
                first_empty_value = slot;
            }
            let place: usize = slot as usize;
            assert(!(exists|k: int| index <= k < i && #[trigger] before.slots[k] == place as int));
            let index_value = self.index_values[place].duplicate();
            self.index_values[place] = IndexValue::zero();
            let target: usize = i - index;
            new_page.index_values[target] = index_value;
            new_page.slots[target] = target as u16;
            proof {
                assert forall|pos: int| 0 <= pos < size implies (#[trigger] self.index_values@[pos])@
                    == if exists|k: int| index <= k < i + 1 && #[trigger] before.slots[k] == pos {
                    zero_value::<T>()
                } else {
                    before.index_values[pos]
                } by {
                    if pos == place as int {
                        assert(before.slots[i as int] == pos);
                    } else {
                        if exists|k: int| index <= k < i + 1 && #[trigger] before.slots[k] == pos {
                            let k = choose|k: int|
                                index <= k < i + 1 && #[trigger] before.slots[k] == pos;
                            assert(k < i);
                        }
                    }
                }
            }
            i += 1;
        }
        new_page.current_index = (count - index) as u16;
        new_page.current_length = (count - index) as u16;
        let mut k: usize = index;
        while k < size
            invariant
                index <= k <= size,
                self.slots@.len() == size,
                self.size == before.size,
                self.node_id@ == before.node_id,
                self.current_index == before.current_index,
                self.current_length == before.current_length,
                self.index_values@.len() == size,
                forall|pos: int|
                    0 <= pos < size ==> (#[trigger] self.index_values@[pos])@ == if exists|k: int|
                        index <= k < count && #[trigger] before.slots[k] == pos {
                        zero_value::<T>()
                    } else {
                        before.index_values[pos]
                    },
                forall|j: int| 0 <= j < index ==> self.slots@[j] == before.slots[j],
                forall|j: int| index <= j < k ==> self.slots@[j] == 0,
            decreases size - k,
        {
            self.slots[k] = 0;
            k += 1;
        }
        self.current_index = first_empty_value;
        let previous: usize = self.slots[index - 1] as usize;
        assert(before.slots[index - 1] < before.size);
        assert(!(exists|k: int|
            index <= k < count && #[trigger] before.slots[k] == previous as int));
        self.node_id = self.index_values[previous].key.key_clone();
        self.current_length = index as u16;
        proof {
            let zero = zero_value::<T>();
            let low = before.lower_half(index as int, zero);
            let up = before.upper_half(index as int, zero);
            assert(self@.slots =~= low.slots);
            assert(self@.index_values =~= low.index_values);
            assert(self@ == low);
            assert(new_page@.slots =~= up.slots);
            assert(new_page@.index_values =~= up.index_values);
            assert(new_page@ == up);
            before.lemma_least_slot(index as int, count as int);
            lemma_split_keeps_inv::<T>(before, index as int);
        }
        new_page
    }
}

/// Whether every place before the places that a split at `index` frees
/// holds an entry, so that the lowest of them is the lowest free place of
/// the page that stays.
pub open spec fn packed_before_split<T: IndexKey>(p: IndexPageView<T::V>, index: int) -> bool {
    forall|pos: int|
        0 <= pos < p.least_slot(index, p.current_length as int) && pos < p.size
            ==> #[trigger] p.index_values[pos] != zero_value::<T>()
}

/// In a page that meets the page invariant and has as many live entries
/// as places, every place holds an entry.
pub proof fn lemma_full_page<T: IndexKey>(p: IndexPageView<T::V>)
    requires
        page_inv::<T>(p),
        p.current_length == p.size,
    ensures
        forall|pos: int| 0 <= pos < p.size ==> #[trigger] p.index_values[pos] != zero_value::<T>(),
{
    lemma_taken_places(p);
    assert forall|pos: int| 0 <= pos < p.size implies #[trigger] p.index_values[pos]
        != zero_value::<T>() by {
        assert(p.is_taken(pos));
        let i = choose|i: int| 0 <= i < p.current_length && #[trigger] p.slots[i] == pos;
        assert(p.entry(i) != zero_value::<T>());
    }
}

/// A page that meets the page invariant and has fewer live entries than
/// places has room for another entry at the place that `current_index`
/// names.
pub proof fn lemma_room_left<T: IndexKey>(p: IndexPageView<T::V>)
    requires
        page_inv::<T>(p),
        p.current_length < p.size,
    ensures
        p.current_index < p.size,
        p.index_values[p.current_index as int] == zero_value::<T>(),
{
    lemma_taken_places(p);
    let pos = choose|pos: int| 0 <= pos < p.size && !p.is_taken(pos);
    assert(p.index_values[pos] == zero_value::<T>());
}

/// Both halves of a split are sound pages. The page returned meets the
/// page invariant if the page did that was split, and so does the page
/// that stays if no place before those that the split frees was free: in
/// a page without a free place none was.
pub proof fn lemma_split_keeps_inv<T: IndexKey>(p: IndexPageView<T::V>, index: int)
    requires
        p.wf(),
        0 < index < p.current_length,
    ensures
        p.lower_half(index, zero_value::<T>()).wf(),
        p.upper_half(index, zero_value::<T>()).wf(),
        page_inv::<T>(p) && packed_before_split::<T>(p, index) ==> page_inv::<T>(
            p.lower_half(index, zero_value::<T>()),
        ),
        page_inv::<T>(p) && p.current_length == p.size ==> packed_before_split::<T>(p, index),
        page_inv::<T>(p) ==> page_inv::<T>(p.upper_half(index, zero_value::<T>())),
{
    let zero = zero_value::<T>();
    let low = p.lower_half(index, zero);
    let up = p.upper_half(index, zero);
    p.lemma_least_slot(index, p.current_length as int);
    assert(low.wf()) by {
        let w = choose|i: int|
            index <= i < p.current_length && #[trigger] p.slots[i] == p.least_slot(
                index,
                p.current_length as int,
            );
        assert(p.slots[w] < p.size);
    }
    assert(up.wf());
    if page_inv::<T>(p) && p.current_length == p.size {
        lemma_full_page::<T>(p);
    }
    if page_inv::<T>(p) && packed_before_split::<T>(p, index) {
        let least = p.least_slot(index, p.current_length as int);
        let w = choose|i: int| index <= i < p.current_length && #[trigger] p.slots[i] == least;
        assert(p.slots[w] < p.size);
        assert(low.index_values[least as int] == zero);
        assert forall|pos: int| 0 <= pos < low.current_index && pos < low.size implies #[trigger] low.index_values[pos]
            != zero by {
            if exists|i: int| index <= i < p.current_length && #[trigger] p.slots[i] == pos {
                let i = choose|i: int| index <= i < p.current_length && #[trigger] p.slots[i] == pos;
                assert(least <= p.slots[i]);
            }
            assert(p.index_values[pos] != zero);
        }
        assert(names_lowest_free::<T>(low));
    }
    if page_inv::<T>(p) {
        assert forall|pos: int| 0 <= pos < up.current_index && pos < up.size implies #[trigger] up.index_values[pos]
            != zero by {
            assert(up.index_values[pos] == p.entry(index + pos));
            assert(p.entry(index + pos) != zero);
        }
        assert(up.index_values[up.current_index as int] == zero);
        assert(names_lowest_free::<T>(up));
    }
    if page_inv::<T>(p) {
        assert forall|i: int| 0 <= i < low.current_length implies #[trigger] low.entry(i)
            == p.entry(i) by {
            assert(low.slots[i] == p.slots[i]);
            assert(p.slots[i] < p.size);
            if exists|k: int| index <= k < p.current_length && #[trigger] p.slots[k] == p.slots[i] {
                let k = choose|k: int|
                    index <= k < p.current_length && #[trigger] p.slots[k] == p.slots[i];
                assert(p.slots[i] != p.slots[k]);
            }
        }
        assert forall|pos: int| 0 <= pos < low.size && !low.is_taken(pos) implies #[trigger] low.index_values[pos]
            == zero by {
            if p.is_taken(pos) {
                let k = choose|k: int| 0 <= k < p.current_length && #[trigger] p.slots[k] == pos;
                if k < index {
                    assert(low.slots[k] == pos);
                    assert(low.is_taken(pos));
                }
            } else {
                assert(p.index_values[pos] == zero);
            }
        }
        assert(keys_ordered::<T>(low)) by {
            assert forall|i: int, j: int| 0 <= i < j < low.current_length implies T::le(
                (#[trigger] low.entry(i)).key,
                (#[trigger] low.entry(j)).key,
            ) by {
                assert(low.entry(i) == p.entry(i));
                assert(low.entry(j) == p.entry(j));
            }
        }
        assert(low.entry(index - 1) == p.entry(index - 1));
        if packed_before_split::<T>(p, index) {
            assert(page_inv::<T>(low));
        }
        assert forall|i: int| 0 <= i < up.current_length implies #[trigger] up.entry(i) == p.entry(
            index + i,
        ) by {
            assert(up.slots[i] == i);
        }
        assert forall|pos: int| 0 <= pos < up.size && !up.is_taken(pos) implies #[trigger] up.index_values[pos]
            == zero by {
            if pos < up.current_length {
                assert(up.slots[pos] == pos);
                assert(up.is_taken(pos));
            }
        }
        assert(keys_ordered::<T>(up)) by {
            assert forall|i: int, j: int| 0 <= i < j < up.current_length implies T::le(
                (#[trigger] up.entry(i)).key,
                (#[trigger] up.entry(j)).key,
            ) by {
                assert(up.entry(i) == p.entry(index + i));
                assert(up.entry(j) == p.entry(index + j));
            }
        }
        assert(up.entry(up.current_length - 1) == p.entry(p.current_length - 1));
        assert(page_inv::<T>(up));
    }
}

} // verus!
