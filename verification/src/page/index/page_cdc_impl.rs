//! How an [`IndexPage`] follows the change events of its node.

use crate::error::Error;
use crate::page::index::change_event::ChangeEvent;
use crate::page::index::page::{
    keys_ordered, lemma_room_left, names_lowest_free, page_inv, IndexPage, IndexPageView,
};
use crate::page::index::{zero_value, IndexValue};
use crate::util::key::IndexKey;
use vstd::prelude::*;

verus! {

/// The first place from `from` on that holds `zero`, or the last place of
/// the page if there is none before it.
pub open spec fn next_free<K>(values: Seq<IndexValue<K>>, from: int, zero: IndexValue<K>) -> int
    decreases values.len() - from,
{
    if from >= values.len() - 1 {
        from
    } else if values[from] == zero {
        from
    } else {
        next_free(values, from + 1, zero)
    }
}

/// `next_free` stays inside the page, passes no place that holds `zero`,
/// and stops at one that does or at the last place.
pub proof fn lemma_next_free_in_page<K>(values: Seq<IndexValue<K>>, from: int, zero: IndexValue<K>)
    requires
        0 <= from < values.len(),
    ensures
        from <= next_free(values, from, zero) < values.len(),
        forall|pos: int| from <= pos < next_free(values, from, zero) ==> values[pos] != zero,
        values[next_free(values, from, zero)] == zero || next_free(values, from, zero)
            == values.len() - 1,
    decreases values.len() - from,
{
    if from < values.len() - 1 && values[from] != zero {
        lemma_next_free_in_page(values, from + 1, zero);
    }
}

/// Whether the page has no place for another entry: every logical
/// position is taken, or the place that the next entry would go to lies
/// behind the last place or holds an entry.
pub open spec fn is_full<T: IndexKey>(p: IndexPageView<T::V>) -> bool {
    p.current_length == p.size || p.current_index >= p.size || p.index_values[p.current_index as int]
        != zero_value::<T>()
}

/// The page after `value` went in at the logical position `index`.
pub open spec fn inserted<T: IndexKey>(
    p: IndexPageView<T::V>,
    value: IndexValue<T::V>,
    index: int,
) -> IndexPageView<T::V> {
    let place = p.current_index;
    let values = p.index_values.update(place as int, value);
    IndexPageView {
        size: p.size,
        node_id: if T::le(value.key, p.node_id) {
            p.node_id
        } else {
            value.key
        },
        current_index: if place == p.size - 1 {
            place
        } else {
            next_free(values, place + 1, zero_value::<T>()) as u16
        },
        current_length: (p.current_length + 1) as u16,
        slots: p.slots.insert(index, place).take(p.size as int),
        index_values: values,
    }
}

/// The page after the entry at the logical position `index` went out.
/// `node_id` follows to the entry before it if the event says that the
/// greatest key went.
pub open spec fn removed<T: IndexKey>(
    p: IndexPageView<T::V>,
    max_value: IndexValue<T::V>,
    value: IndexValue<T::V>,
    index: int,
) -> IndexPageView<T::V> {
    let place = p.slots[index];
    IndexPageView {
        size: p.size,
        node_id: if value.key == max_value.key && p.current_length > 1 && index > 0 {
            p.entry(index - 1).key
        } else {
            p.node_id
        },
        current_index: if place < p.current_index {
            place
        } else {
            p.current_index
        },
        current_length: (p.current_length - 1) as u16,
        slots: p.slots.remove(index).push(0u16),
        index_values: p.index_values.update(place as int, zero_value::<T>()),
    }
}

/// What a page answers to an event, and what becomes of it.
pub open spec fn applied<T: IndexKey>(p: IndexPageView<T::V>, event: ChangeEvent<T::V>) -> Result<
    IndexPageView<T::V>,
    Error,
> {
    match event {
        ChangeEvent::InsertAt { max_value, value, index } => {
            if is_full::<T>(p) {
                Err(Error::PageFull)
            } else if index > p.current_length {
                Err(Error::MisplacedEvent { index, entries: p.current_length })
            } else {
                Ok(inserted::<T>(p, value, index as int))
            }
        },
        ChangeEvent::RemoveAt { max_value, value, index } => {
            if index >= p.current_length {
                Err(Error::MisplacedEvent { index, entries: p.current_length })
            } else {
                Ok(removed::<T>(p, max_value, value, index as int))
            }
        },
        _ => Err(Error::NodeEvent),
    }
}

/// Whether an insert names the position that keeps the keys in order: the
/// key is not below the entry before it nor above the entry behind it,
/// and not below the `node_id` of a page that is still empty.
pub open spec fn insert_in_order<T: IndexKey>(
    p: IndexPageView<T::V>,
    value: IndexValue<T::V>,
    index: int,
) -> bool {
    &&& 0 <= index <= p.current_length
    &&& index > 0 ==> T::le(p.entry(index - 1).key, value.key)
    &&& index < p.current_length ==> T::le(value.key, p.entry(index).key)
    &&& p.current_length == 0 ==> T::le(p.node_id, value.key)
}

/// Whether a remove tells truly if the greatest key goes: it says so if it
/// takes the last entry, and does not if it takes one between the first
/// and the last.
pub open spec fn remove_in_order<T: IndexKey>(
    p: IndexPageView<T::V>,
    max_value: IndexValue<T::V>,
    value: IndexValue<T::V>,
    index: int,
) -> bool {
    &&& 0 <= index < p.current_length
    &&& index == p.current_length - 1 ==> value.key == max_value.key
    &&& 0 < index < p.current_length - 1 ==> value.key != max_value.key
}

/// Whether an event fits the page: an insert brings an entry that is not
/// the zero entry to the position that keeps the keys in order, and a
/// remove tells truly if the greatest key goes.
pub open spec fn event_fits<T: IndexKey>(p: IndexPageView<T::V>, event: ChangeEvent<T::V>) -> bool {
    match event {
        ChangeEvent::InsertAt { max_value, value, index } => value != zero_value::<T>()
            && insert_in_order::<T>(p, value, index as int),
        ChangeEvent::RemoveAt { max_value, value, index } => remove_in_order::<T>(
            p,
            max_value,
            value,
            index as int,
        ),
        _ => true,
    }
}

/// An insert of an entry that is not the zero entry, at the position that
/// keeps the keys in order, into a page with a free place, keeps the page
/// invariant, and the live entries are those of before with the entry put
/// in at the position.
pub proof fn lemma_insert_keeps_inv<T: IndexKey>(
    p: IndexPageView<T::V>,
    value: IndexValue<T::V>,
    index: int,
)
    requires
        page_inv::<T>(p),
        !is_full::<T>(p),
        value != zero_value::<T>(),
        insert_in_order::<T>(p, value, index),
    ensures
        page_inv::<T>(inserted::<T>(p, value, index)),
        inserted::<T>(p, value, index).node() == p.node().insert(index, value),
{
    let zero = zero_value::<T>();
    let q = inserted::<T>(p, value, index);
    let place = p.current_index as int;
    if place != p.size - 1 {
        lemma_next_free_in_page(q.index_values, place + 1, zero);
    }
    assert(!p.is_taken(place)) by {
        if p.is_taken(place) {
            let k = choose|k: int| 0 <= k < p.current_length && #[trigger] p.slots[k] == place;
            assert(p.entry(k) != zero);
        }
    }
    assert forall|i: int| 0 <= i < q.current_length implies #[trigger] q.slots[i] == if i < index {
        p.slots[i]
    } else if i == index {
        place as u16
    } else {
        p.slots[i - 1]
    } by {}
    assert forall|i: int| 0 <= i < q.current_length implies #[trigger] q.slots[i] < q.size by {
        if i < index {
            assert(p.slots[i] < p.size);
        } else if i > index {
            assert(p.slots[i - 1] < p.size);
        }
    }
    assert forall|i: int, j: int| 0 <= i < j < q.current_length implies #[trigger] q.slots[i]
        != #[trigger] q.slots[j] by {
        let a = if i < index {
            i
        } else {
            i - 1
        };
        let b = if j < index {
            j
        } else {
            j - 1
        };
        if i != index && j != index {
            assert(p.slots[a] != p.slots[b]);
        } else if i == index {
            assert(p.slots[b] == q.slots[j]);
        } else {
            assert(p.slots[a] == q.slots[i]);
        }
    }
    assert(q.wf());
    assert(names_lowest_free::<T>(q)) by {
        assert forall|pos: int| 0 <= pos <= place implies q.index_values[pos] != zero by {
            if pos < place {
                assert(p.index_values[pos] != zero);
            }
        }
    }
    assert forall|i: int| 0 <= i < q.current_length implies #[trigger] q.entry(i) == if i < index {
        p.entry(i)
    } else if i == index {
        value
    } else {
        p.entry(i - 1)
    } by {
        if i < index {
            assert(p.slots[i] < p.size);
            assert(p.slots[i] == q.slots[i]);
        } else if i > index {
            assert(p.slots[i - 1] < p.size);
            assert(p.slots[i - 1] == q.slots[i]);
        }
    }
    assert(q.node() =~= p.node().insert(index, value));
    assert forall|i: int| 0 <= i < q.current_length implies #[trigger] q.entry(i) != zero by {
        if i < index {
            assert(p.entry(i) != zero);
        } else if i > index {
            assert(p.entry(i - 1) != zero);
        }
    }
    assert forall|pos: int| 0 <= pos < q.size && !q.is_taken(pos) implies #[trigger] q.index_values[pos]
        == zero by {
        if pos == place {
            assert(q.slots[index] == pos);
            assert(q.is_taken(pos));
        } else {
            if p.is_taken(pos) {
                let k = choose|k: int| 0 <= k < p.current_length && #[trigger] p.slots[k] == pos;
                if k < index {
                    assert(q.slots[k] == pos);
                } else {
                    assert(q.slots[k + 1] == pos);
                }
                assert(q.is_taken(pos));
            }
        }
    }
    assert(keys_ordered::<T>(q)) by {
        assert forall|i: int, j: int| 0 <= i < j < q.current_length implies T::le(
            (#[trigger] q.entry(i)).key,
            (#[trigger] q.entry(j)).key,
        ) by {
            if j < index {
                assert(T::le(p.entry(i).key, p.entry(j).key));
            } else if j == index {
                if i < index - 1 {
                    assert(T::le(p.entry(i).key, p.entry(index - 1).key));
                    T::lemma_le_transitive(p.entry(i).key, p.entry(index - 1).key, value.key);
                }
            } else if i == index {
                if j - 1 > index {
                    assert(T::le(p.entry(index).key, p.entry(j - 1).key));
                    T::lemma_le_transitive(value.key, p.entry(index).key, p.entry(j - 1).key);
                }
            } else if i < index {
                assert(T::le(p.entry(i).key, p.entry(j - 1).key));
            } else {
                assert(T::le(p.entry(i - 1).key, p.entry(j - 1).key));
            }
        }
    }
    let last = q.current_length - 1;
    if index == p.current_length {
        assert(q.entry(last) == value);
        if T::le(value.key, p.node_id) {
            if p.current_length > 0 {
                assert(p.node_id == p.entry(p.current_length - 1).key);
            }
            T::lemma_le_antisymmetric(value.key, p.node_id);
        }
    } else {
        assert(q.entry(last) == p.entry(last - 1));
        if index < p.current_length - 1 {
            assert(T::le(p.entry(index).key, p.entry(p.current_length - 1).key));
            T::lemma_le_transitive(value.key, p.entry(index).key, p.node_id);
        }
    }
}

/// A remove that tells truly if the greatest key goes keeps the page
/// invariant, and the live entries are those of before without the entry
/// at the position.
pub proof fn lemma_remove_keeps_inv<T: IndexKey>(
    p: IndexPageView<T::V>,
    max_value: IndexValue<T::V>,
    value: IndexValue<T::V>,
    index: int,
)
    requires
        page_inv::<T>(p),
        remove_in_order::<T>(p, max_value, value, index),
    ensures
        page_inv::<T>(removed::<T>(p, max_value, value, index)),
        removed::<T>(p, max_value, value, index).node() == p.node().remove(index),
{
    let zero = zero_value::<T>();
    let q = removed::<T>(p, max_value, value, index);
    let place = p.slots[index] as int;
    assert(p.slots[index] < p.size);
    assert forall|i: int| 0 <= i < q.current_length implies #[trigger] q.slots[i] == if i < index {
        p.slots[i]
    } else {
        p.slots[i + 1]
    } by {}
    assert forall|i: int| 0 <= i < q.current_length implies #[trigger] q.slots[i] < q.size
        && q.slots[i] != place by {
        if i < index {
            assert(p.slots[i] < p.size);
            assert(p.slots[i] != p.slots[index]);
        } else {
            assert(p.slots[i + 1] < p.size);
            assert(p.slots[index] != p.slots[i + 1]);
        }
    }
    assert forall|i: int, j: int| 0 <= i < j < q.current_length implies #[trigger] q.slots[i]
        != #[trigger] q.slots[j] by {
        let a = if i < index {
            i
        } else {
            i + 1
        };
        let b = if j < index {
            j
        } else {
            j + 1
        };
        assert(p.slots[a] != p.slots[b]);
    }
    assert(q.wf());
    assert(names_lowest_free::<T>(q)) by {
        assert forall|pos: int| 0 <= pos < q.current_index && pos < q.size implies #[trigger] q.index_values[pos]
            != zero by {
            assert(p.index_values[pos] != zero);
        }
        assert(q.index_values[place] == zero);
    }
    assert forall|i: int| 0 <= i < q.current_length implies #[trigger] q.entry(i) == if i < index {
        p.entry(i)
    } else {
        p.entry(i + 1)
    } by {
        assert(q.slots[i] != place);
    }
    assert(q.node() =~= p.node().remove(index));
    assert forall|i: int| 0 <= i < q.current_length implies #[trigger] q.entry(i) != zero by {
        if i < index {
            assert(p.entry(i) != zero);
        } else {
            assert(p.entry(i + 1) != zero);
        }
    }
    assert forall|pos: int| 0 <= pos < q.size && !q.is_taken(pos) implies #[trigger] q.index_values[pos]
        == zero by {
        if pos != place {
            if p.is_taken(pos) {
                let k = choose|k: int| 0 <= k < p.current_length && #[trigger] p.slots[k] == pos;
                if k < index {
                    assert(q.slots[k] == pos);
                } else {
                    assert(q.slots[k - 1] == pos);
                }
                assert(q.is_taken(pos));
            }
        }
    }
    assert(keys_ordered::<T>(q)) by {
        assert forall|i: int, j: int| 0 <= i < j < q.current_length implies T::le(
            (#[trigger] q.entry(i)).key,
            (#[trigger] q.entry(j)).key,
        ) by {
            let a = if i < index {
                i
            } else {
                i + 1
            };
            let b = if j < index {
                j
            } else {
                j + 1
            };
            assert(T::le(p.entry(a).key, p.entry(b).key));
        }
    }
    if q.current_length > 0 {
        let last = q.current_length - 1;
        if index == p.current_length - 1 {
            assert(q.entry(last) == p.entry(index - 1));
        } else {
            assert(q.entry(last) == p.entry(p.current_length - 1));
        }
    }
}

impl<T: IndexKey> IndexPage<T> {
    /// Applies an event of the page's node to the page.
    ///
    /// An insert puts the entry at the place that `current_index` names,
    /// lists that place at the logical position `index`, raises `node_id`
    /// to the key if the key is above it, and moves `current_index` on to
    /// the next place that holds the zero entry. A remove puts the zero
    /// entry where the entry was, takes the place off the list, and lets
    /// `current_index` fall back to it. An insert into a page without a
    /// free place fails with `Error::PageFull`, an event whose position
    /// lies outside the page with `Error::MisplacedEvent`, and an event of
    /// a node as a whole with `Error::NodeEvent`; the page then stays as
    /// it was.
    pub fn apply_change_event(&mut self, event: ChangeEvent<T>) -> (r: Result<(), Error>)
        requires
            old(self)@.wf(),
        ensures
            match applied::<T>(old(self)@, event@) {
                Ok(page) => r is Ok && final(self)@ == page,
                Err(e) => r == Err::<(), Error>(e) && final(self)@ == old(self)@,
            },
            r is Ok && page_inv::<T>(old(self)@) && event_fits::<T>(old(self)@, event@)
                ==> page_inv::<T>(final(self)@),
            page_inv::<T>(old(self)@) && old(self).current_length < old(self).size
                ==> r != Err::<(), Error>(Error::PageFull),
            r is Ok && page_inv::<T>(old(self)@) && event_fits::<T>(old(self)@, event@) ==> (
            match event@ {
                ChangeEvent::InsertAt { max_value, value, index } => final(self)@.node() == old(
                    self,
                )@.node().insert(index as int, value),
                ChangeEvent::RemoveAt { max_value, value, index } => final(self)@.node() == old(
                    self,
                )@.node().remove(index as int),
                _ => true,
            }),
    {
        proof {
            if page_inv::<T>(self@) && self.current_length < self.size {
                lemma_room_left::<T>(self@);
            }
        }
        match event {
            ChangeEvent::InsertAt { max_value, value, index } => {
                proof {
                    if !is_full::<T>(self@) && page_inv::<T>(self@) && event_fits::<T>(
                        self@,
                        event@,
                    ) {
                        lemma_insert_keeps_inv::<T>(self@, value@, index as int);
                    }
                }
                self.apply_insert_at(index, value)
            },
            ChangeEvent::RemoveAt { max_value, value, index } => {
                proof {
                    if page_inv::<T>(self@) && event_fits::<T>(self@, event@) {
                        lemma_remove_keeps_inv::<T>(self@, max_value@, value@, index as int);
                    }
                }
                self.apply_remove_at(index, &max_value, &value)
            },
            ChangeEvent::SplitNode { .. } => Err(Error::NodeEvent),
            ChangeEvent::CreateNode { .. } => Err(Error::NodeEvent),
            ChangeEvent::RemoveNode { .. } => Err(Error::NodeEvent),
        }
    }

    fn apply_insert_at(&mut self, index: usize, value: IndexValue<T>) -> (r: Result<(), Error>)
        requires
            old(self)@.wf(),
        ensures
            match applied::<T>(
                old(self)@,
                ChangeEvent::InsertAt { max_value: value@, value: value@, index },
            ) {
                Ok(page) => r is Ok && final(self)@ == page,
                Err(e) => r == Err::<(), Error>(e) && final(self)@ == old(self)@,
            },
    {
        let ghost before = self@;
        if self.current_length == self.size || self.current_index >= self.size {
            return Err(Error::PageFull);
        }
        let place: usize = self.current_index as usize;
        assert(before.index_values[place as int] == self.index_values@[place as int]@);
        if !self.index_values[place].is_zero() {
            return Err(Error::PageFull);
        }
        if index > self.current_length as usize {
            return Err(Error::MisplacedEvent { index, entries: self.current_length });
        }
        if !value.key.key_le(&self.node_id) {
            self.node_id = value.key.key_clone();
        }
        self.slots.insert(index, self.current_index);
        self.slots.remove(self.size as usize);
        self.current_length += 1;
        self.index_values[place] = value;
        let ghost values = before.index_values.update(place as int, value@);
        assert(Seq::new(self.index_values@.len(), |i: int| self.index_values@[i]@) =~= values);
        let last: usize = (self.size - 1) as usize;
        if place != last {
            let mut position: usize = place + 1;
            while position != last && !self.index_values[position].is_zero()
                invariant
                    place < position <= last,
                    last == self.index_values@.len() - 1,
                    values == Seq::new(self.index_values@.len(), |i: int| self.index_values@[i]@),
                    next_free(values, place + 1, zero_value::<T>()) == next_free(
                        values,
                        position as int,
                        zero_value::<T>(),
                    ),
                decreases last - position,
            {
                assert(values[position as int] == self.index_values@[position as int]@);
                position += 1;
            }
            assert(values[position as int] == self.index_values@[position as int]@);
            self.current_index = position as u16;
        }
        proof {
            let after = inserted::<T>(before, value@, index as int);
            assert(self@.slots =~= after.slots);
            assert(self@.index_values =~= after.index_values);
        }
        Ok(())
    }

    fn apply_remove_at(
        &mut self,
        index: usize,
        max_value: &IndexValue<T>,
        value: &IndexValue<T>,
    ) -> (r: Result<(), Error>)
        requires
            old(self)@.wf(),
        ensures
            match applied::<T>(
                old(self)@,
                ChangeEvent::RemoveAt { max_value: max_value@, value: value@, index },
            ) {
                Ok(page) => r is Ok && final(self)@ == page,
                Err(e) => r == Err::<(), Error>(e) && final(self)@ == old(self)@,
            },
    {
        let ghost before = self@;
        if index >= self.current_length as usize {
            return Err(Error::MisplacedEvent { index, entries: self.current_length });
        }
        if value.key.key_eq(&max_value.key) && self.current_length != 1 && index > 0 {
            let previous: usize = self.slots[index - 1] as usize;
            assert(before.slots[index - 1] < before.size);
            self.node_id = self.index_values[previous].key.key_clone();
        }
        assert(before.slots[index as int] < before.size);
        let value_position: u16 = self.slots.remove(index);
        self.slots.push(0);
        self.current_length -= 1;
        if value_position < self.current_index {
            self.current_index = value_position;
        }
        self.index_values[value_position as usize] = IndexValue::zero();
        proof {
            let after = removed::<T>(before, max_value@, value@, index as int);
            assert(self@.slots =~= after.slots);
            assert(self@.index_values =~= after.index_values);
        }
        Ok(())
    }
}

} // verus!
