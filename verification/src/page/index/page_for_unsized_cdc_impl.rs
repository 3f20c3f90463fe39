//! How an [`UnsizedIndexPage`] follows the change events of its node.

use crate::error::Error;
use crate::page::index::change_event::ChangeEvent;
use crate::page::index::page_for_unsized::{
    entries_len, entry_len, head_size, lemma_entries_len_grows, lemma_packed_page_wf,
    lemma_slots_len_grows, lemma_slots_len_prefix, lemma_wf_packable, measured, packed_page,
    slots_len, unsized_fits, unsized_ordered, unsized_wf, UnsizedIndexPage, UnsizedPageView,
    SLOT_SIZE,
};
use crate::page::index::IndexValue;
use crate::util::key::IndexKey;
use vstd::prelude::*;

verus! {

/// The page after `value` became its entry `index`: the entry lies below
/// all that the page holds, and becomes the `node_id` if its key is above
/// the `node_id` or if it is the last entry.
pub open spec fn unsized_inserted<T: IndexKey>(
    p: UnsizedPageView<T::V>,
    value: IndexValue<T::V>,
    index: int,
) -> UnsizedPageView<T::V> {
    let len = entry_len::<T>(value);
    let raise = !T::le(value.key, p.node_id.key) || index == p.slots_size;
    UnsizedPageView {
        slots_size: (p.slots_size + 1) as u16,
        node_id_size: if raise {
            len as u16
        } else {
            p.node_id_size
        },
        node_id: if raise {
            value
        } else {
            p.node_id
        },
        last_value_offset: (p.last_value_offset + len) as u32,
        slots: p.slots.insert(index, ((p.last_value_offset + len) as u32, len as u16)),
        index_values: p.index_values.insert(index, value),
    }
}

/// Whether `value` can become the entry `index` of the page: it has a byte
/// form of a length that a 16-bit field holds, the page can count one
/// entry more, and the page that comes of it fits its bytes.
pub open spec fn unsized_has_room<T: IndexKey>(
    p: UnsizedPageView<T::V>,
    removed_len: u32,
    value: IndexValue<T::V>,
    index: int,
    data_length: u32,
) -> bool {
    &&& T::storable(value.key)
    &&& entry_len::<T>(value) <= u16::MAX
    &&& p.slots_size < u16::MAX
    &&& head_size(
        (p.slots_size + 1) as nat,
        unsized_inserted::<T>(p, value, index).node_id_size as nat,
    ) + slots_len(p.slots, p.slots_size as int) + entry_len::<T>(value) + removed_len
        <= data_length
}

/// The page packed anew: the entries lie from the end of the page in
/// their order and the last of them is the `node_id`.
pub open spec fn rebuilt<T: IndexKey>(p: UnsizedPageView<T::V>) -> UnsizedPageView<T::V> {
    if p.index_values.len() > 0 {
        packed_page::<T>(p.index_values)
    } else {
        UnsizedPageView { last_value_offset: 0, ..p }
    }
}

/// The page, and the count of bytes that removals left behind, after the
/// entry `index` went out. The count grows by the entry and its slot; if
/// it is then above half the page, the page is packed anew and the count
/// starts again. `node_id` follows to the entry before the one that went
/// if the event says that the greatest key went.
pub open spec fn unsized_removed<T: IndexKey>(
    p: UnsizedPageView<T::V>,
    removed_len: u32,
    max_value: IndexValue<T::V>,
    value: IndexValue<T::V>,
    index: int,
    data_length: u32,
) -> (UnsizedPageView<T::V>, u32) {
    let cut = UnsizedPageView {
        slots_size: (p.slots_size - 1) as u16,
        slots: p.slots.remove(index),
        index_values: p.index_values.remove(index),
        ..p
    };
    let grown = (removed_len + p.slots[index].1 + SLOT_SIZE) as u32;
    let packed = if grown > data_length / 2 {
        rebuilt::<T>(cut)
    } else {
        cut
    };
    let left = if grown > data_length / 2 {
        0u32
    } else {
        grown
    };
    let page = if value.key == max_value.key && index != 0 {
        UnsizedPageView {
            node_id: packed.index_values[index - 1],
            node_id_size: packed.slots[index - 1].1,
            ..packed
        }
    } else {
        packed
    };
    (page, left)
}

/// What a page answers to an event, and what becomes of it and of its
/// count of bytes that removals left behind.
pub open spec fn unsized_applied<T: IndexKey>(
    p: UnsizedPageView<T::V>,
    removed_len: u32,
    event: ChangeEvent<T::V>,
    data_length: u32,
) -> Result<(UnsizedPageView<T::V>, u32), Error> {
    match event {
        ChangeEvent::InsertAt { max_value, value, index } => {
            if index > p.slots_size {
                Err(Error::MisplacedEvent { index, entries: p.slots_size })
            } else if !unsized_has_room::<T>(p, removed_len, value, index as int, data_length) {
                Err(Error::PageFull)
            } else {
                Ok((unsized_inserted::<T>(p, value, index as int), removed_len))
            }
        },
        ChangeEvent::RemoveAt { max_value, value, index } => {
            if index >= p.slots_size {
                Err(Error::MisplacedEvent { index, entries: p.slots_size })
            } else {
                Ok(unsized_removed::<T>(p, removed_len, max_value, value, index as int, data_length))
            }
        },
        _ => Err(Error::NodeEvent),
    }
}

/// Whether an event keeps the keys in order: an insert names the position
/// between a key that is not above and a key that is not below, and a
/// remove tells truly if the greatest key goes.
pub open spec fn unsized_event_fits<T: IndexKey>(
    p: UnsizedPageView<T::V>,
    event: ChangeEvent<T::V>,
) -> bool {
    match event {
        ChangeEvent::InsertAt { max_value, value, index } => {
            &&& index <= p.index_values.len()
            &&& index > 0 ==> T::le(p.index_values[index - 1].key, value.key)
            &&& index < p.index_values.len() ==> T::le(value.key, p.index_values[index as int].key)
        },
        ChangeEvent::RemoveAt { max_value, value, index } => {
            &&& index < p.index_values.len()
            &&& index == p.index_values.len() - 1 ==> value.key == max_value.key
            &&& 0 < index < p.index_values.len() - 1 ==> value.key != max_value.key
        },
        _ => true,
    }
}

/// The sum of the lengths that the slots record, with one slot put in.
pub proof fn lemma_slots_len_insert(slots: Seq<(u32, u16)>, index: int, slot: (u32, u16), count: int)
    requires
        0 <= index <= slots.len(),
        0 <= count <= slots.len(),
    ensures
        slots_len(slots.insert(index, slot), count + 1) == if index <= count {
            slots_len(slots, count) + slot.1
        } else {
            slots_len(slots, count + 1) as int
        },
    decreases count,
{
    let s = slots.insert(index, slot);
    if index > count {
        lemma_slots_len_prefix(s, slots, count + 1);
    } else if index == count {
        lemma_slots_len_prefix(s, slots, count);
        assert(s[count] == slot);
    } else {
        lemma_slots_len_insert(slots, index, slot, count - 1);
        assert(s[count] == slots[count - 1]);
    }
}

/// The sum of the lengths that the slots record, with one slot taken out.
pub proof fn lemma_slots_len_remove(slots: Seq<(u32, u16)>, index: int, count: int)
    requires
        0 <= index < slots.len(),
        0 <= count < slots.len(),
    ensures
        slots_len(slots.remove(index), count) == if index <= count {
            slots_len(slots, count + 1) - slots[index].1
        } else {
            slots_len(slots, count) as int
        },
    decreases count,
{
    let s = slots.remove(index);
    if index >= count {
        lemma_slots_len_prefix(s, slots, count);
        if index == count {
        }
    } else {
        lemma_slots_len_remove(slots, index, count - 1);
        assert(s[count - 1] == slots[count]);
    }
}

/// An insert into a sound page that has room leaves a sound page that
/// fits its bytes; it keeps the keys in order if it names the position
/// that does.
pub proof fn lemma_unsized_insert<T: IndexKey>(
    p: UnsizedPageView<T::V>,
    removed_len: u32,
    value: IndexValue<T::V>,
    index: int,
    data_length: u32,
)
    requires
        unsized_wf::<T>(p),
        unsized_fits::<T>(p, removed_len, data_length),
        0 <= index <= p.slots_size,
        unsized_has_room::<T>(p, removed_len, value, index, data_length),
    ensures
        unsized_wf::<T>(unsized_inserted::<T>(p, value, index)),
        unsized_fits::<T>(unsized_inserted::<T>(p, value, index), removed_len, data_length),
        unsized_ordered::<T>(p) && unsized_event_fits::<T>(
            p,
            ChangeEvent::InsertAt { max_value: value, value, index: index as usize },
        ) ==> unsized_ordered::<T>(unsized_inserted::<T>(p, value, index)),
{
    let q = unsized_inserted::<T>(p, value, index);
    let n = p.slots_size as int;
    let len = entry_len::<T>(value);
    lemma_slots_len_insert(p.slots, index, ((p.last_value_offset + len) as u32, len as u16), n);
    assert forall|i: int| 0 <= i < q.slots_size implies T::storable(
        (#[trigger] q.index_values[i]).key,
    ) && q.slots[i].1 == entry_len::<T>(q.index_values[i]) by {
        if i < index {
            assert(q.index_values[i] == p.index_values[i]);
            assert(T::storable(p.index_values[i].key));
        } else if i > index {
            assert(q.index_values[i] == p.index_values[i - 1]);
            assert(T::storable(p.index_values[i - 1].key));
        }
    }
    assert forall|i: int| 0 <= i < q.slots_size implies (#[trigger] q.slots[i]).1 <= q.slots[i].0
        <= q.last_value_offset by {
        if i < index {
            assert(q.slots[i] == p.slots[i]);
        } else if i > index {
            assert(q.slots[i] == p.slots[i - 1]);
        }
    }
    assert forall|i: int, j: int| 0 <= i < j < q.slots_size implies q.apart(i, j) by {
        let a = if i < index {
            i
        } else {
            i - 1
        };
        let b = if j < index {
            j
        } else {
            j - 1
        };
        if i != index && j != index {
            assert(p.apart(a, b));
            assert(q.slots[i] == p.slots[a]);
            assert(q.slots[j] == p.slots[b]);
        } else if i == index {
            assert(q.slots[j] == p.slots[b]);
            assert(p.slots[b].1 <= p.slots[b].0 <= p.last_value_offset);
        } else {
            assert(q.slots[i] == p.slots[a]);
            assert(p.slots[a].1 <= p.slots[a].0 <= p.last_value_offset);
        }
    }
    assert(unsized_wf::<T>(q));
    if unsized_ordered::<T>(p) && unsized_event_fits::<T>(
        p,
        ChangeEvent::InsertAt { max_value: value, value, index: index as usize },
    ) {
        assert forall|i: int, j: int| 0 <= i < j < q.index_values.len() implies T::le(
            (#[trigger] q.index_values[i]).key,
            (#[trigger] q.index_values[j]).key,
        ) by {
            let v = p.index_values;
            if j < index {
                assert(T::le(v[i].key, v[j].key));
            } else if j == index {
                if i < index - 1 {
                    assert(T::le(v[i].key, v[index - 1].key));
                    T::lemma_le_transitive(v[i].key, v[index - 1].key, value.key);
                }
            } else if i == index {
                if j - 1 > index {
                    assert(T::le(v[index].key, v[j - 1].key));
                    T::lemma_le_transitive(value.key, v[index].key, v[j - 1].key);
                }
            } else if i < index {
                assert(T::le(v[i].key, v[j - 1].key));
            } else {
                assert(T::le(v[i - 1].key, v[j - 1].key));
            }
        }
        if index < n {
            assert(q.index_values.last() == p.index_values.last());
            if index < n - 1 {
                assert(T::le(p.index_values[index].key, p.index_values[n - 1].key));
                T::lemma_le_transitive(
                    value.key,
                    p.index_values[index].key,
                    p.index_values[n - 1].key,
                );
            }
        } else {
            assert(q.index_values.last() == value);
        }
    }
}

/// A remove from a sound page that fits its bytes leaves a sound page,
/// which fits its bytes if its `node_id` did not grow; it keeps the keys
/// in order if it tells truly that the greatest key goes.
pub proof fn lemma_unsized_remove<T: IndexKey>(
    p: UnsizedPageView<T::V>,
    removed_len: u32,
    max_value: IndexValue<T::V>,
    value: IndexValue<T::V>,
    index: int,
    data_length: u32,
)
    requires
        unsized_wf::<T>(p),
        unsized_fits::<T>(p, removed_len, data_length),
        0 <= index < p.slots_size,
    ensures
        removed_len + p.slots[index].1 + SLOT_SIZE <= data_length,
        unsized_wf::<T>(cut_page::<T>(p, index)),
        unsized_wf::<T>(
            unsized_removed::<T>(p, removed_len, max_value, value, index, data_length).0,
        ),
        ({
            let after = unsized_removed::<T>(p, removed_len, max_value, value, index, data_length);
            after.0.node_id_size <= p.node_id_size ==> unsized_fits::<T>(
                after.0,
                after.1,
                data_length,
            )
        }),
        unsized_ordered::<T>(p) && unsized_event_fits::<T>(
            p,
            ChangeEvent::RemoveAt { max_value, value, index: index as usize },
        ) ==> unsized_ordered::<T>(
            unsized_removed::<T>(p, removed_len, max_value, value, index, data_length).0,
        ),
{
    let n = p.slots_size as int;
    let cut = cut_page::<T>(p, index);
    let after = unsized_removed::<T>(p, removed_len, max_value, value, index, data_length);
    lemma_slots_len_remove(p.slots, index, n - 1);
    lemma_slots_len_grows(p.slots, index + 1, n);
    assert(slots_len(p.slots, index + 1) == slots_len(p.slots, index) + p.slots[index].1);
    assert forall|i: int| 0 <= i < cut.slots_size implies T::storable(
        (#[trigger] cut.index_values[i]).key,
    ) && cut.slots[i].1 == entry_len::<T>(cut.index_values[i]) by {
        let k = if i < index {
            i
        } else {
            i + 1
        };
        assert(cut.index_values[i] == p.index_values[k]);
        assert(T::storable(p.index_values[k].key));
    }
    assert forall|i: int| 0 <= i < cut.slots_size implies (#[trigger] cut.slots[i]).1
        <= cut.slots[i].0 <= cut.last_value_offset by {
        let k = if i < index {
            i
        } else {
            i + 1
        };
        assert(cut.slots[i] == p.slots[k]);
    }
    assert forall|i: int, j: int| 0 <= i < j < cut.slots_size implies cut.apart(i, j) by {
        let a = if i < index {
            i
        } else {
            i + 1
        };
        let b = if j < index {
            j
        } else {
            j + 1
        };
        assert(p.apart(a, b));
    }
    assert(unsized_wf::<T>(cut));
    lemma_wf_packable::<T>(cut);
    let grown = (removed_len + p.slots[index].1 + SLOT_SIZE) as u32;
    let packed = if grown > data_length / 2 {
        rebuilt::<T>(cut)
    } else {
        cut
    };
    if cut.index_values.len() > 0 {
        lemma_packed_page_wf::<T>(cut.index_values);
    }
    assert(unsized_wf::<T>(packed));
    assert(packed.index_values == cut.index_values);
    if value.key == max_value.key && index != 0 {
        assert(T::storable(packed.index_values[index - 1].key));
        assert(packed.slots[index - 1].1 == entry_len::<T>(packed.index_values[index - 1]));
    }
    assert(after.0.slots == packed.slots);
    assert(after.0.index_values == packed.index_values);
    assert(after.0.slots_size == packed.slots_size);
    assert(after.0.last_value_offset == packed.last_value_offset);
    assert forall|i: int, j: int| 0 <= i < j < after.0.slots_size implies after.0.apart(i, j) by {
        assert(packed.apart(i, j));
    }
    assert(unsized_wf::<T>(after.0));
    assert(slots_len(packed.slots, n - 1) == slots_len(cut.slots, n - 1)) by {
        lemma_wf_packable::<T>(packed);
    }
    if unsized_ordered::<T>(p) && unsized_event_fits::<T>(
        p,
        ChangeEvent::RemoveAt { max_value, value, index: index as usize },
    ) {
        let v = p.index_values;
        let w = after.0.index_values;
        assert forall|i: int, j: int| 0 <= i < j < w.len() implies T::le(
            (#[trigger] w[i]).key,
            (#[trigger] w[j]).key,
        ) by {
            let a = if i < index {
                i
            } else {
                i + 1
            };
            let b = if j < index {
                j
            } else {
                j + 1
            };
            assert(T::le(v[a].key, v[b].key));
        }
        if w.len() > 0 {
            if index == n - 1 {
                assert(w.last() == v[index - 1]);
            } else {
                assert(w.last() == v.last());
            }
        }
    }
}

/// The page with the entry `index` and its slot taken out.
pub open spec fn cut_page<T: IndexKey>(p: UnsizedPageView<T::V>, index: int) -> UnsizedPageView<
    T::V,
> {
    UnsizedPageView {
        slots_size: (p.slots_size - 1) as u16,
        slots: p.slots.remove(index),
        index_values: p.index_values.remove(index),
        ..p
    }
}

impl<T: IndexKey, const DATA_LENGTH: u32> UnsizedIndexPage<T, DATA_LENGTH> {
    /// Returns the lengths that the slots record, summed.
    pub fn slots_total(&self) -> (total: u64)
        requires
            self.slots@.len() <= u16::MAX,
        ensures
            total == slots_len(self.slots@, self.slots@.len() as int),
            total <= self.slots@.len() * u16::MAX,
    {
        let mut total: u64 = 0;
        let mut i: usize = 0;
        while i < self.slots.len()
            invariant
                i <= self.slots@.len() <= u16::MAX,
                total == slots_len(self.slots@, i as int),
                total <= i * u16::MAX,
            decreases self.slots@.len() - i,
        {
            assert(i * u16::MAX + u16::MAX <= u16::MAX * u16::MAX) by (nonlinear_arith)
                requires
                    i < u16::MAX,
            ;
            total += self.slots[i].1 as u64;
            i += 1;
            assert((i - 1) * u16::MAX + u16::MAX == i * u16::MAX) by (nonlinear_arith);
        }
        total
    }

    /// Applies an event of the page's node to the page.
    ///
    /// An insert writes the entry below all that the page holds and puts
    /// it and its slot at the position `index`; a remove takes the entry
    /// and its slot out and counts the bytes left behind, and packs the
    /// page anew once that count is above half the page. An insert for
    /// which the page has no room fails with `Error::PageFull`, an event
    /// whose position lies outside the page with `Error::MisplacedEvent`,
    /// and an event of a node as a whole with `Error::NodeEvent`; the page
    /// then stays as it was.
    pub fn apply_change_event(&mut self, event: ChangeEvent<T>) -> (r: Result<(), Error>)
        requires
            unsized_wf::<T>(old(self)@),
            unsized_fits::<T>(old(self)@, old(self).removed_len, DATA_LENGTH),
        ensures
            match unsized_applied::<T>(old(self)@, old(self).removed_len, event@, DATA_LENGTH) {
                Ok(page) => r is Ok && final(self)@ == page.0 && final(self).removed_len == page.1,
                Err(e) => r == Err::<(), Error>(e) && final(self)@ == old(self)@ && final(self).removed_len == old(self).removed_len,
            },
            unsized_wf::<T>(final(self)@),
            event@ is RemoveAt && final(self).node_id_size > old(self).node_id_size
                || unsized_fits::<T>(final(self)@, final(self).removed_len, DATA_LENGTH),
            r is Ok && unsized_ordered::<T>(old(self)@) && unsized_event_fits::<T>(
                old(self)@,
                event@,
            ) ==> unsized_ordered::<T>(final(self)@),
    {
        match event {
            ChangeEvent::InsertAt { max_value, value, index } => {
                proof {
                    if index <= self@.slots_size && unsized_has_room::<T>(
                        self@,
                        self.removed_len,
                        value@,
                        index as int,
                        DATA_LENGTH,
                    ) {
                        lemma_unsized_insert::<T>(
                            self@,
                            self.removed_len,
                            value@,
                            index as int,
                            DATA_LENGTH,
                        );
                    }
                }
                self.apply_insert_at(index, value)
            },
            ChangeEvent::RemoveAt { max_value, value, index } => {
                proof {
                    if index < self@.slots_size {
                        lemma_unsized_remove::<T>(
                            self@,
                            self.removed_len,
                            max_value@,
                            value@,
                            index as int,
                            DATA_LENGTH,
                        );
                    }
                }
                self.apply_remove_at(index, &max_value, &value)
            },
            ChangeEvent::SplitNode { .. } => Err(Error::NodeEvent),
            ChangeEvent::CreateNode { .. } => Err(Error::NodeEvent),
            ChangeEvent::RemoveNode { .. } => Err(Error::NodeEvent),
        }
    }

    fn apply_insert_at(&mut self, index: usize, value: IndexValue<T>) -> (r: Result<(), Error>)
        requires
            unsized_wf::<T>(old(self)@),
            unsized_fits::<T>(old(self)@, old(self).removed_len, DATA_LENGTH),
        ensures
            final(self).removed_len == old(self).removed_len,
            match unsized_applied::<T>(
                old(self)@,
                old(self).removed_len,
                ChangeEvent::InsertAt { max_value: value@, value: value@, index },
                DATA_LENGTH,
            ) {
                Ok(page) => r is Ok && final(self)@ == page.0,
                Err(e) => r == Err::<(), Error>(e) && final(self)@ == old(self)@,
            },
    {
        let ghost before = self@;
        if index > self.slots_size as usize {
            return Err(Error::MisplacedEvent { index, entries: self.slots_size });
        }
        let size: u16 = match measured(&value) {
            Some(size) => size,
            None => {
                return Err(Error::PageFull);
            },
        };
        if self.slots_size == u16::MAX {
            return Err(Error::PageFull);
        }
        let raise: bool = !value.key.key_le(&self.node_id.key) || index
            == self.slots_size as usize;
        let node_size: u16 = if raise {
            size
        } else {
            self.node_id_size
        };
        let total: u64 = self.slots_total();
        let head: u64 = 2 + 2 + node_size as u64 + 4 + (self.slots_size as u64 + 1) * 8 + 8;
        if head + total + size as u64 + self.removed_len as u64 > DATA_LENGTH as u64 {
            return Err(Error::PageFull);
        }
        if raise {
            self.node_id = value.duplicate();
            self.node_id_size = size;
        }
        self.last_value_offset += size as u32;
        self.index_values.insert(index, value);
        self.slots.insert(index, (self.last_value_offset, size));
        self.slots_size += 1;
        proof {
            let after = unsized_inserted::<T>(before, value@, index as int);
            assert(self@.slots =~= after.slots);
            assert(self@.index_values =~= after.index_values);
        }
        Ok(())
    }

    fn apply_remove_at(
        &mut self,
        index: usize,
        max_value: &IndexValue<T>,
        value: &IndexValue<T>,
    ) -> (r: Result<(), Error>)
        requires
            unsized_wf::<T>(old(self)@),
            unsized_fits::<T>(old(self)@, old(self).removed_len, DATA_LENGTH),
        ensures
            match unsized_applied::<T>(
                old(self)@,
                old(self).removed_len,
                ChangeEvent::RemoveAt { max_value: max_value@, value: value@, index },
                DATA_LENGTH,
            ) {
                Ok(page) => r is Ok && final(self)@ == page.0 && final(self).removed_len == page.1,
                Err(e) => r == Err::<(), Error>(e) && final(self)@ == old(self)@ && final(self).removed_len == old(self).removed_len,
            },
    {
        let ghost before = self@;
        if index >= self.slots_size as usize {
            return Err(Error::MisplacedEvent { index, entries: self.slots_size });
        }
        proof {
            lemma_unsized_remove::<T>(
                before,
                self.removed_len,
                max_value@,
                value@,
                index as int,
                DATA_LENGTH,
            );
        }
        let slot: (u32, u16) = self.slots.remove(index);
        self.slots_size -= 1;
        let _ = self.index_values.remove(index);
        self.removed_len += slot.1 as u32 + SLOT_SIZE as u32;
        proof {
            let cut = cut_page::<T>(before, index as int);
            assert(self@.slots =~= cut.slots);
            assert(self@.index_values =~= cut.index_values);
            assert(self@ == cut);
        }
        if self.removed_len > DATA_LENGTH / 2 {
            self.rebuild();
        }
        if value.key.key_eq(&max_value.key) && index != 0 {
            self.node_id = self.index_values[index - 1].duplicate();
            self.node_id_size = self.slots[index - 1].1;
        }
        proof {
            let after = unsized_removed::<T>(
                before,
                old(self).removed_len,
                max_value@,
                value@,
                index as int,
                DATA_LENGTH,
            );
            assert(self@.slots =~= after.0.slots);
            assert(self@.index_values =~= after.0.index_values);
        }
        Ok(())
    }
}

} // verus!
