//! [`UnsizedIndexPage`]: a node page for keys of varying size.
//!
//! The head of the page holds the slots; the entries are written from the
//! end of the page towards the head. A slot names the distance of its
//! entry's first byte from the end of the page, and the entry's length.

use crate::error::Error;
use crate::page::index::{lemma_entry_layout, lemma_index_value_size, IndexValue};
use crate::util::key::{entry_size, IndexKey};
use crate::util::persistable::Persistable;
use crate::util::sized::SizeMeasurable;
use vstd::prelude::*;

verus! {

/// The number of bytes that one slot takes in the head of the page.
pub const SLOT_SIZE: usize = 8;

/// A node of an index whose keys vary in size, in a page of `DATA_LENGTH`
/// bytes.
///
/// `slots` and `index_values` run in the order of the keys. `node_id` is
/// the entry with the greatest key and `node_id_size` its length;
/// `last_value_offset` is how far the entries reach from the end of the
/// page. `removed_len` counts the bytes that removals left behind; it is
/// not written to the file.
#[derive(Clone, Debug, PartialEq, Eq, Hash, PartialOrd, Ord)]
pub struct UnsizedIndexPage<T, const DATA_LENGTH: u32> {
    pub slots_size: u16,
    pub node_id_size: u16,
    pub node_id: IndexValue<T>,
    pub last_value_offset: u32,
    pub slots: Vec<(u32, u16)>,
    pub index_values: Vec<IndexValue<T>>,
    pub removed_len: u32,
}

/// The head of an [`UnsizedIndexPage`]: all of it but the entries.
#[derive(Clone, Debug, PartialEq, Eq, Hash, PartialOrd, Ord)]
pub struct UnsizedIndexPageUtility<T> {
    pub slots_size: u16,
    pub node_id_size: u16,
    pub node_id: IndexValue<T>,
    pub last_value_offset: u32,
    pub slots: Vec<(u32, u16)>,
}

/// The head of a page as a mathematical value.
pub struct UnsizedUtilityView<K> {
    pub slots_size: u16,
    pub node_id_size: u16,
    pub node_id: IndexValue<K>,
    pub last_value_offset: u32,
    pub slots: Seq<(u32, u16)>,
}

/// A page for keys of varying size as a mathematical value: what is
/// written to the file.
pub struct UnsizedPageView<K> {
    pub slots_size: u16,
    pub node_id_size: u16,
    pub node_id: IndexValue<K>,
    pub last_value_offset: u32,
    pub slots: Seq<(u32, u16)>,
    pub index_values: Seq<IndexValue<K>>,
}

impl<T: View> View for UnsizedIndexPageUtility<T> {
    type V = UnsizedUtilityView<T::V>;

    open spec fn view(&self) -> UnsizedUtilityView<T::V> {
        UnsizedUtilityView {
            slots_size: self.slots_size,
            node_id_size: self.node_id_size,
            node_id: self.node_id@,
            last_value_offset: self.last_value_offset,
            slots: self.slots@,
        }
    }
}

impl<T: View, const DATA_LENGTH: u32> View for UnsizedIndexPage<T, DATA_LENGTH> {
    type V = UnsizedPageView<T::V>;

    open spec fn view(&self) -> UnsizedPageView<T::V> {
        UnsizedPageView {
            slots_size: self.slots_size,
            node_id_size: self.node_id_size,
            node_id: self.node_id@,
            last_value_offset: self.last_value_offset,
            slots: self.slots@,
            index_values: Seq::new(self.index_values@.len(), |i: int| self.index_values@[i]@),
        }
    }
}

/// The length of the byte form of an entry.
pub open spec fn entry_len<T: IndexKey>(value: IndexValue<T::V>) -> nat {
    entry_size::<T>(T::encoding(value.key).len())
}

/// The lengths of the byte forms of the first `count` entries, summed.
pub open spec fn entries_len<T: IndexKey>(values: Seq<IndexValue<T::V>>, count: int) -> nat
    decreases count,
{
    if count <= 0 {
        0
    } else {
        entries_len::<T>(values, count - 1) + entry_len::<T>(values[count - 1])
    }
}

/// The lengths that the first `count` slots record, summed.
pub open spec fn slots_len(slots: Seq<(u32, u16)>, count: int) -> nat
    decreases count,
{
    if count <= 0 {
        0
    } else {
        slots_len(slots, count - 1) + slots[count - 1].1 as nat
    }
}

/// The number of bytes of the head of a page with `slots_size` slots and a
/// node id of `node_id_size` bytes: the two sizes, the node id, the
/// 4 bytes of `last_value_offset`, and the slots with their 8-byte
/// reference.
pub open spec fn head_size(slots_size: nat, node_id_size: nat) -> nat {
    2 + 2 + node_id_size + 4 + slots_size * SLOT_SIZE as nat + 8
}

/// The slots of entries that are packed from the end of the page in their
/// order: each names the sum of the lengths up to its own.
pub open spec fn packed_slots<T: IndexKey>(values: Seq<IndexValue<T::V>>) -> Seq<(u32, u16)> {
    Seq::new(
        values.len(),
        |i: int| (entries_len::<T>(values, i + 1) as u32, entry_len::<T>(values[i]) as u16),
    )
}

/// The page of the entries `values`, packed from the end of the page.
pub open spec fn packed_page<T: IndexKey>(values: Seq<IndexValue<T::V>>) -> UnsizedPageView<T::V> {
    UnsizedPageView {
        slots_size: values.len() as u16,
        node_id_size: entry_len::<T>(values.last()) as u16,
        node_id: values.last(),
        last_value_offset: entries_len::<T>(values, values.len() as int) as u32,
        slots: packed_slots::<T>(values),
        index_values: values,
    }
}

/// Whether entries can be packed into a page: there is at least one, no
/// more than a 16-bit count holds, each has a byte form of a length that
/// a 16-bit field holds, and all lengths summed fit 32 bits.
pub open spec fn packable<T: IndexKey>(values: Seq<IndexValue<T::V>>) -> bool {
    &&& 0 < values.len() <= u16::MAX
    &&& forall|i: int|
        0 <= i < values.len() ==> T::storable((#[trigger] values[i]).key) && entry_len::<T>(
            values[i],
        ) <= u16::MAX
    &&& entries_len::<T>(values, values.len() as int) <= u32::MAX
}

/// The sum of the lengths grows with the number of entries.
pub proof fn lemma_entries_len_grows<T: IndexKey>(
    values: Seq<IndexValue<T::V>>,
    i: int,
    j: int,
)
    requires
        0 <= i <= j,
    ensures
        entries_len::<T>(values, i) <= entries_len::<T>(values, j),
    decreases j - i,
{
    if i < j {
        lemma_entries_len_grows::<T>(values, i, j - 1);
    }
}

/// The sum of the lengths that slots record grows with their number.
pub proof fn lemma_slots_len_grows(slots: Seq<(u32, u16)>, i: int, j: int)
    requires
        0 <= i <= j,
    ensures
        slots_len(slots, i) <= slots_len(slots, j),
    decreases j - i,
{
    if i < j {
        lemma_slots_len_grows(slots, i, j - 1);
    }
}

/// The sum of the lengths looks only at the entries that it counts.
pub proof fn lemma_entries_len_prefix<T: IndexKey>(
    a: Seq<IndexValue<T::V>>,
    b: Seq<IndexValue<T::V>>,
    count: int,
)
    requires
        count <= a.len(),
        count <= b.len(),
        forall|i: int| 0 <= i < count ==> a[i] == b[i],
    ensures
        entries_len::<T>(a, count) == entries_len::<T>(b, count),
    decreases count,
{
    if count > 0 {
        lemma_entries_len_prefix::<T>(a, b, count - 1);
    }
}

impl<K> UnsizedPageView<K> {
    /// The head of the page.
    pub open spec fn utility(self) -> UnsizedUtilityView<K> {
        UnsizedUtilityView {
            slots_size: self.slots_size,
            node_id_size: self.node_id_size,
            node_id: self.node_id,
            last_value_offset: self.last_value_offset,
            slots: self.slots,
        }
    }

    /// Whether the entries of the slots `i` and `j` share no byte.
    pub open spec fn apart(self, i: int, j: int) -> bool {
        self.slots[i].0 + self.slots[j].1 <= self.slots[j].0 || self.slots[j].0 + self.slots[i].1
            <= self.slots[i].0
    }
}

/// The page's structure is sound: there is a slot for each entry, which
/// records the entry's length and a place inside the reach of the
/// entries, no two entries share a byte, the lengths summed are within
/// that reach, and `node_id_size` is the length of `node_id`.
pub open spec fn unsized_wf<T: IndexKey>(p: UnsizedPageView<T::V>) -> bool {
    &&& p.slots.len() == p.slots_size
    &&& p.index_values.len() == p.slots_size
    &&& T::storable(p.node_id.key)
    &&& p.node_id_size == entry_len::<T>(p.node_id)
    &&& forall|i: int|
        0 <= i < p.slots_size ==> T::storable((#[trigger] p.index_values[i]).key)
            && p.slots[i].1 == entry_len::<T>(p.index_values[i])
    &&& forall|i: int|
        0 <= i < p.slots_size ==> (#[trigger] p.slots[i]).1 <= p.slots[i].0
            <= p.last_value_offset
    &&& forall|i: int, j: int| 0 <= i < j < p.slots_size ==> p.apart(i, j)
    &&& slots_len(p.slots, p.slots_size as int) <= p.last_value_offset
}

/// Whether the page fits its `data_length` bytes: the head, the entries
/// and the bytes that removals left behind have room, and the entries
/// reach no further from the end than the entries and those bytes make up.
pub open spec fn unsized_fits<T: IndexKey>(
    p: UnsizedPageView<T::V>,
    removed_len: u32,
    data_length: u32,
) -> bool {
    &&& head_size(p.slots_size as nat, p.node_id_size as nat) + slots_len(
        p.slots,
        p.slots_size as int,
    ) + removed_len <= data_length
    &&& p.last_value_offset <= slots_len(p.slots, p.slots_size as int) + removed_len
}

/// Whether the keys do not fall from one entry to the next, and `node_id`
/// is the last entry.
pub open spec fn unsized_ordered<T: IndexKey>(p: UnsizedPageView<T::V>) -> bool {
    &&& forall|i: int, j: int|
        0 <= i < j < p.index_values.len() ==> T::le(
            (#[trigger] p.index_values[i]).key,
            (#[trigger] p.index_values[j]).key,
        )
    &&& p.index_values.len() > 0 ==> p.node_id == p.index_values.last()
}

/// Packed entries make a sound page, in which the entries reach as far as
/// their lengths sum up to.
pub proof fn lemma_packed_page_wf<T: IndexKey>(values: Seq<IndexValue<T::V>>)
    requires
        packable::<T>(values),
    ensures
        unsized_wf::<T>(packed_page::<T>(values)),
        slots_len(packed_page::<T>(values).slots, values.len() as int) == entries_len::<T>(
            values,
            values.len() as int,
        ),
{
    let p = packed_page::<T>(values);
    let n = values.len() as int;
    assert forall|i: int| 0 <= i < n implies (#[trigger] p.slots[i]).0 == entries_len::<T>(
        values,
        i + 1,
    ) && p.slots[i].1 == entry_len::<T>(values[i]) by {
        lemma_entries_len_grows::<T>(values, i + 1, n);
        assert(T::storable(values[i].key));
    }
    assert forall|i: int, j: int| 0 <= i < j < p.slots_size implies p.apart(i, j) by {
        lemma_entries_len_grows::<T>(values, i + 1, j);
        assert(T::storable(values[i].key));
        assert(T::storable(values[j].key));
        assert(p.slots[i].0 == entries_len::<T>(values, i + 1));
        assert(p.slots[j].0 == entries_len::<T>(values, j + 1));
    }
    assert(T::storable(values[n - 1].key));
    assert forall|i: int| 0 <= i < p.slots_size implies (#[trigger] p.slots[i]).1 <= p.slots[i].0
        <= p.last_value_offset by {
        lemma_entries_len_grows::<T>(values, i + 1, n);
    }
    lemma_packed_slots_len::<T>(values, n);
}

/// The lengths that the slots of packed entries record sum up as the
/// lengths of the entries do.
pub proof fn lemma_packed_slots_len<T: IndexKey>(values: Seq<IndexValue<T::V>>, count: int)
    requires
        packable::<T>(values),
        0 <= count <= values.len(),
    ensures
        slots_len(packed_slots::<T>(values), count) == entries_len::<T>(values, count),
    decreases count,
{
    if count > 0 {
        lemma_packed_slots_len::<T>(values, count - 1);
        assert(T::storable(values[count - 1].key));
    }
}

impl<T: IndexKey> UnsizedIndexPageUtility<T> {
    /// Puts `node_id` into the head, with its length. Fails with
    /// `Error::PageFull`, and leaves the head as it was, if the entry has
    /// no byte form of a length that the 16-bit size field holds.
    pub fn update_node_id(&mut self, node_id: IndexValue<T>) -> (r: Result<(), Error>)
        ensures
            T::storable(node_id@.key) && entry_len::<T>(node_id@) <= u16::MAX ==> r is Ok
                && final(self)@ == (UnsizedUtilityView {
                node_id_size: entry_len::<T>(node_id@) as u16,
                node_id: node_id@,
                ..old(self)@
            }),
            !(T::storable(node_id@.key) && entry_len::<T>(node_id@) <= u16::MAX) ==> r == Err::<
                (),
                Error,
            >(Error::PageFull) && final(self)@ == old(self)@,
    {
        match measured(&node_id) {
            Some(size) => {
                self.node_id_size = size;
                self.node_id = node_id;
                Ok(())
            },
            None => Err(Error::PageFull),
        }
    }
}

/// Returns the length of the entry's byte form, if it has one of a length
/// that a 16-bit field holds.
pub fn measured<T: IndexKey>(value: &IndexValue<T>) -> (r: Option<u16>)
    ensures
        match r {
            Some(size) => T::storable(value@.key) && size == entry_len::<T>(value@),
            None => !(T::storable(value@.key) && entry_len::<T>(value@) <= u16::MAX),
        },
{
    if !value.key.is_storable() {
        return None;
    }
    proof {
        value.key.lemma_size_is_encoding_length();
        lemma_index_value_size::<T>(value);
        lemma_entry_layout::<T>(value@);
    }
    let key_size: usize = value.key.aligned_size();
    if key_size > u16::MAX as usize {
        return None;
    }
    let size: usize = value.aligned_size();
    if size > u16::MAX as usize {
        return None;
    }
    Some(size as u16)
}

/// Tells whether entries can be packed into a page.
pub fn can_pack<T: IndexKey>(values: &[IndexValue<T>]) -> (r: bool)
    ensures
        r == packable::<T>(Seq::new(values@.len(), |i: int| values@[i]@)),
{
    let ghost model = Seq::new(values@.len(), |i: int| values@[i]@);
    if values.len() == 0 || values.len() > u16::MAX as usize {
        return false;
    }
    let mut total: u64 = 0;
    let mut i: usize = 0;
    while i < values.len()
        invariant
            i <= values@.len() <= u16::MAX,
            model == Seq::new(values@.len(), |i: int| values@[i]@),
            total == entries_len::<T>(model, i as int),
            total <= i * u16::MAX,
            forall|j: int|
                0 <= j < i ==> T::storable((#[trigger] model[j]).key) && entry_len::<T>(model[j])
                    <= u16::MAX,
        decreases values@.len() - i,
    {
        assert(model[i as int] == values@[i as int]@);
        match measured(&values[i]) {
            Some(size) => {
                assert(i * u16::MAX + u16::MAX <= u16::MAX * u16::MAX) by (nonlinear_arith)
                    requires
                        i < u16::MAX,
                ;
                total += size as u64;
            },
            None => {
                return false;
            },
        }
        i += 1;
        assert((i - 1) * u16::MAX + u16::MAX == i * u16::MAX) by (nonlinear_arith);
    }
    total <= u32::MAX as u64
}

impl<T: IndexKey, const DATA_LENGTH: u32> UnsizedIndexPage<T, DATA_LENGTH> {
    /// Creates the page whose one entry is `node_id`. Fails with
    /// `Error::PageFull` if the entry has no byte form of a length that a
    /// 16-bit field holds, or if the page has no room for it.
    pub fn new(node_id: IndexValue<T>) -> (r: Result<Self, Error>)
        ensures
            match r {
                Ok(page) => page@ == packed_page::<T>(seq![node_id@]) && page.removed_len == 0
                    && unsized_wf::<T>(page@) && unsized_fits::<T>(page@, 0, DATA_LENGTH),
                Err(e) => e == Error::PageFull,
            },
            r is Ok <==> packable::<T>(seq![node_id@]) && head_size(
                1,
                entry_len::<T>(node_id@),
            ) + entry_len::<T>(node_id@) <= DATA_LENGTH,
    {
        let ghost values = seq![node_id@];
        proof {
            assert(entries_len::<T>(values, 0) == 0);
            assert(entries_len::<T>(values, 1) == entry_len::<T>(node_id@));
            assert(values.last() == node_id@);
        }
        match measured(&node_id) {
            Some(size) => {
                let len: u32 = size as u32;
                if 2 + 2 + size as u64 + 4 + 8 + 8 + size as u64 > DATA_LENGTH as u64 {
                    return Err(Error::PageFull);
                }
                let mut slots: Vec<(u32, u16)> = Vec::new();
                slots.push((len, size));
                let mut index_values: Vec<IndexValue<T>> = Vec::new();
                let copy = node_id.duplicate();
                index_values.push(node_id);
                let page = Self {
                    slots_size: 1,
                    node_id_size: size,
                    node_id: copy,
                    last_value_offset: len,
                    slots,
                    index_values,
                    removed_len: 0,
                };
                proof {
                    let p = packed_page::<T>(values);
                    assert(page@.slots =~= p.slots);
                    assert(page@.index_values =~= p.index_values);
                    lemma_packed_page_wf::<T>(values);
                    assert(slots_len(page@.slots, 0) == 0);
                    assert(slots_len(page@.slots, 1) == size);
                }
                Ok(page)
            },
            None => {
                assert(!(T::storable(values[0].key) && entry_len::<T>(values[0]) <= u16::MAX));
                Err(Error::PageFull)
            },
        }
    }

    /// Builds the page of the entries `values`, packed from the end of the
    /// page in their order.
    pub fn new_with_values(values: Vec<IndexValue<T>>) -> (page: Self)
        requires
            packable::<T>(Seq::new(values@.len(), |i: int| values@[i]@)),
        ensures
            page@ == packed_page::<T>(Seq::new(values@.len(), |i: int| values@[i]@)),
            page.removed_len == 0,
            unsized_wf::<T>(page@),
    {
        let ghost model = Seq::new(values@.len(), |i: int| values@[i]@);
        let count: usize = values.len();
        let node_id = values[count - 1].duplicate();
        proof {
            assert(model[count - 1] == values@[count - 1]@);
            assert(T::storable(model[count - 1].key));
            node_id.key.lemma_size_is_encoding_length();
            lemma_index_value_size::<T>(&node_id);
        }
        let node_id_size: u16 = node_id.aligned_size() as u16;
        let mut last_value_offset: u32 = 0;
        let mut slots: Vec<(u32, u16)> = Vec::new();
        let mut i: usize = 0;
        while i < count
            invariant
                i <= count,
                count == values@.len(),
                model == Seq::new(values@.len(), |i: int| values@[i]@),
                packable::<T>(model),
                slots@.len() == i,
                last_value_offset == entries_len::<T>(model, i as int),
                forall|j: int| 0 <= j < i ==> slots@[j] == packed_slots::<T>(model)[j],
            decreases count - i,
        {
            proof {
                assert(model[i as int] == values@[i as int]@);
                assert(T::storable(model[i as int].key));
                values@[i as int].key.lemma_size_is_encoding_length();
                lemma_index_value_size::<T>(&values@[i as int]);
                lemma_entries_len_grows::<T>(model, i + 1, count as int);
            }
            let len: usize = values[i].aligned_size();
            last_value_offset += len as u32;
            slots.push((last_value_offset, len as u16));
            i += 1;
        }
        let page = Self {
            slots_size: count as u16,
            node_id_size,
            node_id,
            last_value_offset,
            slots,
            index_values: values,
            removed_len: 0,
        };
        proof {
            let p = packed_page::<T>(model);
            assert(page@.slots =~= p.slots);
            assert(page@.index_values =~= p.index_values);
            assert(model.last() == model[count - 1]);
            lemma_packed_page_wf::<T>(model);
        }
        page
    }

    /// Packs the entries anew from the end of the page, makes the last of
    /// them the `node_id`, and forgets the bytes that removals left
    /// behind. A page without entries keeps its `node_id`.
    pub fn rebuild(&mut self)
        requires
            unsized_wf::<T>(old(self)@),
        ensures
            final(self).removed_len == 0,
            final(self)@.index_values == old(self)@.index_values,
            old(self)@.index_values.len() > 0 ==> final(self)@ == packed_page::<T>(
                old(self)@.index_values,
            ),
            old(self)@.index_values.len() == 0 ==> final(self)@ == (UnsizedPageView {
                last_value_offset: 0,
                ..old(self)@
            }),
            unsized_wf::<T>(final(self)@),
            unsized_ordered::<T>(old(self)@) && unsized_fits::<T>(
                old(self)@,
                old(self).removed_len,
                DATA_LENGTH,
            ) ==> unsized_fits::<T>(final(self)@, 0, DATA_LENGTH),
    {
        let ghost before = self@;
        let ghost model = before.index_values;
        let count: usize = self.index_values.len();
        proof {
            lemma_wf_packable::<T>(before);
        }
        self.removed_len = 0;
        if count == 0 {
            self.last_value_offset = 0;
            assert(self@.index_values =~= before.index_values);
            assert(slots_len(before.slots, 0) == 0);
            return ;
        }
        let node_id = self.index_values[count - 1].duplicate();
        proof {
            assert(model[count - 1] == self.index_values@[count - 1]@);
        }
        let node_id_size: u16 = self.slots[count - 1].1;
        let mut last_value_offset: u32 = 0;
        let mut slots: Vec<(u32, u16)> = Vec::new();
        let mut i: usize = 0;
        while i < count
            invariant
                i <= count,
                count == self.index_values@.len(),
                self@ == before,
                model == before.index_values,
                unsized_wf::<T>(before),
                packable::<T>(model),
                slots@.len() == i,
                last_value_offset == entries_len::<T>(model, i as int),
                forall|j: int| 0 <= j < i ==> slots@[j] == packed_slots::<T>(model)[j],
            decreases count - i,
        {
            proof {
                assert(T::storable(model[i as int].key));
                lemma_entries_len_grows::<T>(model, i + 1, count as int);
            }
            let len: u16 = self.slots[i].1;
            last_value_offset += len as u32;
            slots.push((last_value_offset, len));
            i += 1;
        }
        self.node_id = node_id;
        self.node_id_size = node_id_size;
        self.last_value_offset = last_value_offset;
        self.slots = slots;
        self.slots_size = count as u16;
        proof {
            let p = packed_page::<T>(model);
            assert(self@.slots =~= p.slots);
            assert(self@.index_values =~= p.index_values);
            assert(model.last() == model[count - 1]);
            lemma_packed_page_wf::<T>(model);
            lemma_wf_lengths::<T>(before, count as int);
        }
    }

    /// Returns the entries in the order of their keys.
    pub fn get_node(&self) -> (node: Vec<IndexValue<T>>)
        ensures
            Seq::new(node@.len(), |i: int| node@[i]@) == self@.index_values,
    {
        let mut node: Vec<IndexValue<T>> = Vec::new();
        let mut i: usize = 0;
        while i < self.index_values.len()
            invariant
                i <= self.index_values@.len(),
                node@.len() == i,
                forall|j: int| 0 <= j < i ==> (#[trigger] node@[j])@ == self.index_values@[j]@,
            decreases self.index_values@.len() - i,
        {
            node.push(self.index_values[i].duplicate());
            i += 1;
        }
        assert(Seq::new(node@.len(), |i: int| node@[i]@) =~= self@.index_values);
        node
    }

    /// Builds the page of the entries of `node`, which are in the order of
    /// their keys.
    pub fn from_node(node: &[IndexValue<T>]) -> (page: Self)
        requires
            packable::<T>(Seq::new(node@.len(), |i: int| node@[i]@)),
        ensures
            page@ == packed_page::<T>(Seq::new(node@.len(), |i: int| node@[i]@)),
            page.removed_len == 0,
            unsized_wf::<T>(page@),
    {
        let ghost model = Seq::new(node@.len(), |i: int| node@[i]@);
        let mut values: Vec<IndexValue<T>> = Vec::new();
        let mut i: usize = 0;
        while i < node.len()
            invariant
                i <= node@.len(),
                values@.len() == i,
                forall|j: int| 0 <= j < i ==> (#[trigger] values@[j])@ == node@[j]@,
            decreases node@.len() - i,
        {
            values.push(node[i].duplicate());
            i += 1;
        }
        assert(Seq::new(values@.len(), |i: int| values@[i]@) =~= model);
        Self::new_with_values(values)
    }

    /// Splits the page before the entry `index`: the entries from there on
    /// move to a new page, which is returned; both pages are packed anew.
    pub fn split(&mut self, index: usize) -> (new_page: UnsizedIndexPage<T, DATA_LENGTH>)
        requires
            unsized_wf::<T>(old(self)@),
            0 < index < old(self)@.index_values.len(),
        ensures
            final(self)@ == packed_page::<T>(old(self)@.index_values.subrange(0, index as int)),
            new_page@ == packed_page::<T>(
                old(self)@.index_values.subrange(
                    index as int,
                    old(self)@.index_values.len() as int,
                ),
            ),
            final(self).removed_len == 0,
            new_page.removed_len == 0,
            unsized_wf::<T>(final(self)@),
            unsized_wf::<T>(new_page@),
            unsized_ordered::<T>(old(self)@) ==> unsized_ordered::<T>(final(self)@)
                && unsized_ordered::<T>(new_page@),
    {
        let ghost before = self@;
        let ghost model = before.index_values;
        let ghost low = model.subrange(0, index as int);
        let ghost up = model.subrange(index as int, model.len() as int);
        proof {
            lemma_wf_packable::<T>(before);
            lemma_packable_part::<T>(model, 0, index as int);
            lemma_packable_part::<T>(model, index as int, model.len() as int);
        }
        let mut upper: Vec<IndexValue<T>> = self.index_values.split_off(index);
        let _ = self.slots.split_off(index);
        self.slots_size = index as u16;
        proof {
            assert(Seq::new(upper@.len(), |i: int| upper@[i]@) =~= up);
            assert(self@.index_values =~= low);
            assert(unsized_wf::<T>(self@)) by {
                assert forall|i: int| 0 <= i < self@.slots_size implies T::storable(
                    (#[trigger] self@.index_values[i]).key,
                ) && self@.slots[i].1 == entry_len::<T>(self@.index_values[i]) by {
                    assert(self@.index_values[i] == before.index_values[i]);
                    assert(self@.slots[i] == before.slots[i]);
                }
                assert forall|i: int| 0 <= i < self@.slots_size implies (#[trigger] self@.slots[i]).1
                    <= self@.slots[i].0 <= self@.last_value_offset by {
                    assert(self@.slots[i] == before.slots[i]);
                }
                assert forall|i: int, j: int| 0 <= i < j < self@.slots_size implies self@.apart(
                    i,
                    j,
                ) by {
                    assert(before.apart(i, j));
                }
                lemma_slots_len_prefix(self@.slots, before.slots, index as int);
                lemma_slots_len_grows(before.slots, index as int, before.slots_size as int);
            }
        }
        let new_page = UnsizedIndexPage::new_with_values(upper);
        self.rebuild();
        proof {
            assert(low.last() == model[index - 1]);
            assert(up.last() == model.last());
            if unsized_ordered::<T>(before) {
                assert forall|i: int, j: int| 0 <= i < j < low.len() implies T::le(
                    (#[trigger] low[i]).key,
                    (#[trigger] low[j]).key,
                ) by {
                    assert(T::le(model[i].key, model[j].key));
                }
                assert forall|i: int, j: int| 0 <= i < j < up.len() implies T::le(
                    (#[trigger] up[i]).key,
                    (#[trigger] up[j]).key,
                ) by {
                    assert(T::le(model[index + i].key, model[index + j].key));
                }
            }
        }
        new_page
    }
}

/// The lengths that the slots record, summed, look only at the slots that
/// are counted.
pub proof fn lemma_slots_len_prefix(a: Seq<(u32, u16)>, b: Seq<(u32, u16)>, count: int)
    requires
        count <= a.len(),
        count <= b.len(),
        forall|i: int| 0 <= i < count ==> a[i] == b[i],
    ensures
        slots_len(a, count) == slots_len(b, count),
    decreases count,
{
    if count > 0 {
        lemma_slots_len_prefix(a, b, count - 1);
    }
}

/// The sum of the lengths of a run of entries is the sum up to its end
/// less the sum up to its start.
pub proof fn lemma_entries_len_part<T: IndexKey>(
    values: Seq<IndexValue<T::V>>,
    from: int,
    count: int,
)
    requires
        0 <= from,
        0 <= count,
        from + count <= values.len(),
    ensures
        entries_len::<T>(values.subrange(from, values.len() as int), count) + entries_len::<T>(
            values,
            from,
        ) == entries_len::<T>(values, from + count),
    decreases count,
{
    if count > 0 {
        lemma_entries_len_part::<T>(values, from, count - 1);
        assert(values.subrange(from, values.len() as int)[count - 1] == values[from + count - 1]);
    }
}

/// A run of entries that can be packed can be packed, if it is not empty.
pub proof fn lemma_packable_part<T: IndexKey>(values: Seq<IndexValue<T::V>>, from: int, to: int)
    requires
        packable::<T>(values),
        0 <= from < to <= values.len(),
    ensures
        packable::<T>(values.subrange(from, to)),
{
    let part = values.subrange(from, to);
    assert forall|i: int| 0 <= i < part.len() implies T::storable((#[trigger] part[i]).key)
        && entry_len::<T>(part[i]) <= u16::MAX by {
        assert(part[i] == values[from + i]);
    }
    lemma_entries_len_part::<T>(values, from, to - from);
    lemma_entries_len_prefix::<T>(part, values.subrange(from, values.len() as int), to - from);
    lemma_entries_len_grows::<T>(values, to, values.len() as int);
}

/// The entries of a sound page that holds any can be packed.
pub proof fn lemma_wf_packable<T: IndexKey>(p: UnsizedPageView<T::V>)
    requires
        unsized_wf::<T>(p),
    ensures
        p.index_values.len() > 0 ==> packable::<T>(p.index_values),
        entries_len::<T>(p.index_values, p.index_values.len() as int) == slots_len(
            p.slots,
            p.slots.len() as int,
        ),
{
    lemma_wf_lengths::<T>(p, p.slots_size as int);
    assert forall|i: int| 0 <= i < p.index_values.len() implies T::storable(
        (#[trigger] p.index_values[i]).key,
    ) && entry_len::<T>(p.index_values[i]) <= u16::MAX by {
        assert(p.slots[i].1 == entry_len::<T>(p.index_values[i]));
    }
}

/// In a sound page the lengths of the entries sum up as the lengths that
/// the slots record.
pub proof fn lemma_wf_lengths<T: IndexKey>(p: UnsizedPageView<T::V>, count: int)
    requires
        unsized_wf::<T>(p),
        0 <= count <= p.slots_size,
    ensures
        entries_len::<T>(p.index_values, count) == slots_len(p.slots, count),
    decreases count,
{
    if count > 0 {
        lemma_wf_lengths::<T>(p, count - 1);
        assert(p.slots[count - 1].1 == entry_len::<T>(p.index_values[count - 1]));
    }
}

} // verus!
