//! The byte form of an [`UnsizedIndexPage`]: as many bytes as the page
//! has, with the head at the start, each entry where its slot says,
//! counted from the end, and zeroes wherever neither lies.

use crate::error::Error;
use crate::page::data::overwritten;
use crate::page::index::page_bytes::starts_with;
use crate::page::index::page_for_unsized::{
    entry_len, head_size, slots_len, unsized_wf, UnsizedIndexPage, UnsizedIndexPageUtility,
    UnsizedPageView,
};
use crate::page::index::unsized_bytes::{
    lemma_unsized_utility_layout, lemma_unsized_utility_unique, parse_unsized_utility,
    unsized_utility_bytes, unsized_utility_storable,
};
use crate::page::index::IndexValue;
use crate::util::key::IndexKey;
use crate::util::persistable::Persistable;
use crate::util::text::{filler, same_bytes};
use vstd::prelude::*;
use vstd::slice::slice_subrange;

verus! {

/// The page of `data_length` bytes that holds the head and no entry.
pub open spec fn blank_image<T: IndexKey>(p: UnsizedPageView<T::V>, data_length: nat) -> Seq<u8> {
    unsized_utility_bytes::<T>(p.utility()) + filler(
        data_length - unsized_utility_bytes::<T>(p.utility()).len(),
        0,
    )
}

/// The page of `data_length` bytes that holds the head and the first
/// `count` entries.
pub open spec fn written<T: IndexKey>(
    p: UnsizedPageView<T::V>,
    data_length: nat,
    count: int,
) -> Seq<u8>
    decreases count,
{
    if count <= 0 {
        blank_image::<T>(p, data_length)
    } else {
        overwritten(
            written::<T>(p, data_length, count - 1),
            data_length - p.slots[count - 1].0,
            IndexValue::<T>::encoding(p.index_values[count - 1]),
        )
    }
}

/// The byte form of a page of `data_length` bytes.
pub open spec fn unsized_page_bytes<T: IndexKey>(
    p: UnsizedPageView<T::V>,
    data_length: nat,
) -> Seq<u8> {
    written::<T>(p, data_length, p.slots_size as int)
}

/// Whether a page has a byte form of `data_length` bytes: its structure is
/// sound, and the head and the reach of the entries fit the page.
pub open spec fn unsized_page_storable<T: IndexKey>(
    p: UnsizedPageView<T::V>,
    data_length: nat,
) -> bool {
    &&& unsized_wf::<T>(p)
    &&& head_size(p.slots_size as nat, p.node_id_size as nat) + p.last_value_offset
        <= data_length
}

/// Whether the byte `pos` of a page belongs to one of its first `count`
/// entries.
pub open spec fn in_entry<K>(p: UnsizedPageView<K>, data_length: nat, count: int, pos: int) -> bool {
    exists|i: int|
        0 <= i < count && data_length - (#[trigger] p.slots[i]).0 <= pos < data_length
            - p.slots[i].0 + p.slots[i].1
}

/// The page with the first `count` entries written holds the head at its
/// start, each of those entries where its slot says, and zeroes elsewhere.
pub proof fn lemma_written<T: IndexKey>(p: UnsizedPageView<T::V>, data_length: nat, count: int)
    requires
        unsized_page_storable::<T>(p, data_length),
        0 <= count <= p.slots_size,
    ensures
        written::<T>(p, data_length, count).len() == data_length,
        starts_with(written::<T>(p, data_length, count), unsized_utility_bytes::<T>(p.utility())),
        forall|i: int|
            0 <= i < count ==> written::<T>(p, data_length, count).subrange(
                data_length - (#[trigger] p.slots[i]).0,
                data_length - p.slots[i].0 + p.slots[i].1,
            ) == IndexValue::<T>::encoding(p.index_values[i]),
        forall|pos: int|
            head_size(p.slots_size as nat, p.node_id_size as nat) <= pos < data_length && !in_entry(
                p,
                data_length,
                count,
                pos,
            ) ==> #[trigger] written::<T>(p, data_length, count)[pos] == 0,
    decreases count,
{
    let head = unsized_utility_bytes::<T>(p.utility());
    let h = head_size(p.slots_size as nat, p.node_id_size as nat) as int;
    assert(unsized_utility_storable::<T>(p.utility()));
    assert(head.subrange(0, head.len() as int) =~= head);
    lemma_unsized_utility_layout::<T>(p.utility(), head);
    let w = written::<T>(p, data_length, count);
    if count == 0 {
        assert(w.subrange(0, h) =~= head);
    } else {
        lemma_written::<T>(p, data_length, count - 1);
        let before = written::<T>(p, data_length, count - 1);
        let k = count - 1;
        let value = IndexValue::<T>::encoding(p.index_values[k]);
        let start = data_length - p.slots[k].0;
        crate::link::lemma_link_bytes_len(p.index_values[k].link);
        crate::page::index::lemma_entry_layout::<T>(p.index_values[k]);
        assert(value.len() == p.slots[k].1);
        assert(p.slots[k].1 <= p.slots[k].0 <= p.last_value_offset);
        assert(w.subrange(0, h) =~= before.subrange(0, h));
        assert forall|i: int| 0 <= i < count implies w.subrange(
            data_length - (#[trigger] p.slots[i]).0,
            data_length - p.slots[i].0 + p.slots[i].1,
        ) == IndexValue::<T>::encoding(p.index_values[i]) by {
            if i < k {
                assert(p.apart(i, k));
                assert(p.slots[i].1 <= p.slots[i].0 <= p.last_value_offset);
                assert(w.subrange(
                    data_length - p.slots[i].0,
                    data_length - p.slots[i].0 + p.slots[i].1,
                ) =~= before.subrange(
                    data_length - p.slots[i].0,
                    data_length - p.slots[i].0 + p.slots[i].1,
                ));
            } else {
                assert(w.subrange(start, start + p.slots[k].1) =~= value);
            }
        }
        assert forall|pos: int|
            h <= pos < data_length && !in_entry(p, data_length, count, pos) implies #[trigger] w[pos]
            == 0 by {
            if in_entry(p, data_length, count - 1, pos) {
                let i = choose|i: int|
                    0 <= i < count - 1 && data_length - (#[trigger] p.slots[i]).0 <= pos
                        < data_length - p.slots[i].0 + p.slots[i].1;
                assert(data_length - p.slots[i].0 <= pos < data_length - p.slots[i].0
                    + p.slots[i].1);
                assert(in_entry(p, data_length, count, pos));
            }
            if start <= pos < start + p.slots[k].1 {
                assert(data_length - p.slots[k].0 <= pos < data_length - p.slots[k].0
                    + p.slots[k].1);
                assert(in_entry(p, data_length, count, pos));
            }
            assert(w[pos] == before[pos]);
        }
    }
}

/// The byte form of a page is unique to it.
pub proof fn lemma_unsized_page_unique<T: IndexKey>(
    a: UnsizedPageView<T::V>,
    b: UnsizedPageView<T::V>,
    data_length: nat,
)
    requires
        unsized_page_storable::<T>(a, data_length),
        unsized_page_storable::<T>(b, data_length),
        unsized_page_bytes::<T>(a, data_length) == unsized_page_bytes::<T>(b, data_length),
    ensures
        a == b,
{
    let e = unsized_page_bytes::<T>(a, data_length);
    lemma_written::<T>(a, data_length, a.slots_size as int);
    lemma_written::<T>(b, data_length, b.slots_size as int);
    lemma_unsized_utility_unique::<T>(a.utility(), b.utility(), e);
    assert forall|i: int| 0 <= i < a.index_values.len() implies a.index_values[i]
        == b.index_values[i] by {
        assert(e.subrange(
            data_length - a.slots[i].0,
            data_length - a.slots[i].0 + a.slots[i].1,
        ) == IndexValue::<T>::encoding(a.index_values[i]));
        assert(e.subrange(
            data_length - b.slots[i].0,
            data_length - b.slots[i].0 + b.slots[i].1,
        ) == IndexValue::<T>::encoding(b.index_values[i]));
        IndexValue::<T>::lemma_encoding_injective(a.index_values[i], b.index_values[i]);
    }
    assert(a.index_values =~= b.index_values);
}

/// Whether slots can be the slots of a sound page whose entries reach
/// `reach` bytes from the end: each lies within that reach, no two share a
/// byte, and their lengths sum up to no more than the reach.
pub open spec fn slots_sound(slots: Seq<(u32, u16)>, reach: u32) -> bool {
    &&& forall|i: int| 0 <= i < slots.len() ==> (#[trigger] slots[i]).1 <= slots[i].0 <= reach
    &&& forall|i: int, j: int|
        0 <= i < j < slots.len() ==> (#[trigger] slots[i]).0 + (#[trigger] slots[j]).1
            <= slots[j].0 || slots[j].0 + slots[i].1 <= slots[i].0
    &&& slots_len(slots, slots.len() as int) <= reach
}

/// Tells whether slots can be the slots of a sound page whose entries
/// reach `reach` bytes from the end.
pub fn check_slots(slots: &Vec<(u32, u16)>, reach: u32) -> (r: bool)
    requires
        slots@.len() <= u16::MAX,
    ensures
        r == slots_sound(slots@, reach),
{
    let count: usize = slots.len();
    let mut total: u64 = 0;
    let mut i: usize = 0;
    while i < count
        invariant
            i <= count,
            count == slots@.len(),
            count <= u16::MAX,
            total == slots_len(slots@, i as int),
            total <= i * u16::MAX,
            forall|a: int| 0 <= a < i ==> (#[trigger] slots@[a]).1 <= slots@[a].0 <= reach,
            forall|a: int, b: int|
                0 <= a < b < i ==> (#[trigger] slots@[a]).0 + (#[trigger] slots@[b]).1
                    <= slots@[b].0 || slots@[b].0 + slots@[a].1 <= slots@[a].0,
        decreases count - i,
    {
        let slot: (u32, u16) = slots[i];
        if slot.1 as u32 > slot.0 || slot.0 > reach {
            return false;
        }
        let mut j: usize = 0;
        while j < i
            invariant
                j <= i < count,
                count == slots@.len(),
                slot == slots@[i as int],
                forall|a: int|
                    0 <= a < j ==> (#[trigger] slots@[a]).0 + slot.1 <= slot.0 || slot.0
                        + slots@[a].1 <= slots@[a].0,
            decreases i - j,
        {
            let other: (u32, u16) = slots[j];
            if !(other.0 as u64 + slot.1 as u64 <= slot.0 as u64 || slot.0 as u64
                + other.1 as u64 <= other.0 as u64) {
                return false;
            }
            j += 1;
        }
        assert(i * u16::MAX + u16::MAX <= u16::MAX * u16::MAX) by (nonlinear_arith)
            requires
                i < u16::MAX,
        ;
        total += slot.1 as u64;
        i += 1;
        assert((i - 1) * u16::MAX + u16::MAX == i * u16::MAX) by (nonlinear_arith);
    }
    total <= reach as u64
}

/// Slots that can be the slots of a sound page are apart from each other,
/// and those that are apart and within reach can be such slots.
pub proof fn lemma_slots_sound<T: IndexKey>(p: UnsizedPageView<T::V>)
    requires
        p.slots.len() == p.slots_size,
    ensures
        slots_sound(p.slots, p.last_value_offset) <==> {
            &&& forall|i: int|
                0 <= i < p.slots_size ==> (#[trigger] p.slots[i]).1 <= p.slots[i].0
                    <= p.last_value_offset
            &&& forall|i: int, j: int| 0 <= i < j < p.slots_size ==> p.apart(i, j)
            &&& slots_len(p.slots, p.slots_size as int) <= p.last_value_offset
        },
{
    if slots_sound(p.slots, p.last_value_offset) {
        assert forall|i: int, j: int| 0 <= i < j < p.slots_size implies p.apart(i, j) by {
            assert(p.slots[i].0 + p.slots[j].1 <= p.slots[j].0 || p.slots[j].0 + p.slots[i].1
                <= p.slots[i].0);
        }
    }
    if forall|i: int, j: int| 0 <= i < j < p.slots_size ==> p.apart(i, j) {
        assert forall|i: int, j: int| 0 <= i < j < p.slots.len() implies (#[trigger] p.slots[i]).0
            + (#[trigger] p.slots[j]).1 <= p.slots[j].0 || p.slots[j].0 + p.slots[i].1
            <= p.slots[i].0 by {
            assert(p.apart(i, j));
        }
    }
}

impl<T: IndexKey, const DATA_LENGTH: u32> UnsizedIndexPage<T, DATA_LENGTH> {
    /// Tells whether the page's structure is sound.
    pub fn is_well_formed(&self) -> (r: bool)
        ensures
            r == unsized_wf::<T>(self@),
    {
        let count: usize = self.slots_size as usize;
        if self.slots.len() != count || self.index_values.len() != count {
            return false;
        }
        match crate::page::index::page_for_unsized::measured(&self.node_id) {
            Some(size) => {
                if size != self.node_id_size {
                    return false;
                }
            },
            None => {
                return false;
            },
        }
        let mut i: usize = 0;
        while i < count
            invariant
                i <= count,
                count == self.slots_size,
                self.slots@.len() == count,
                self.index_values@.len() == count,
                forall|j: int|
                    0 <= j < i ==> T::storable((#[trigger] self@.index_values[j]).key)
                        && self@.slots[j].1 == entry_len::<T>(self@.index_values[j]),
            decreases count - i,
        {
            assert(self@.index_values[i as int] == self.index_values@[i as int]@);
            match crate::page::index::page_for_unsized::measured(&self.index_values[i]) {
                Some(size) => {
                    if size != self.slots[i].1 {
                        return false;
                    }
                },
                None => {
                    return false;
                },
            }
            i += 1;
        }
        proof {
            lemma_slots_sound::<T>(self@);
        }
        check_slots(&self.slots, self.last_value_offset)
    }

    /// Tells whether the page's structure is sound and the page fits its
    /// bytes, with the bytes that removals left behind: what an event asks
    /// of the page.
    pub fn is_ready(&self) -> (r: bool)
        ensures
            r == (unsized_wf::<T>(self@) && crate::page::index::page_for_unsized::unsized_fits::<T>(
                self@,
                self.removed_len,
                DATA_LENGTH,
            )),
    {
        if !self.is_well_formed() {
            return false;
        }
        let total: u64 = self.slots_total();
        let head: u64 = 2 + 2 + self.node_id_size as u64 + 4 + self.slots_size as u64 * 8 + 8;
        head + total + self.removed_len as u64 <= DATA_LENGTH as u64
            && self.last_value_offset as u64 <= total + self.removed_len as u64
    }

    /// Reads the page whose byte form `bytes` is, and counts as left behind
    /// by removals the bytes within the reach of the entries that belong
    /// to none: the page is then ready for events.
    pub fn decode(bytes: &[u8]) -> (r: Result<Self, Error>)
        ensures
            match r {
                Ok(page) => unsized_page_storable::<T>(page@, DATA_LENGTH as nat)
                    && unsized_page_bytes::<T>(page@, DATA_LENGTH as nat) == bytes@
                    && page.removed_len == page.last_value_offset - slots_len(
                    page@.slots,
                    page@.slots_size as int,
                ) && crate::page::index::page_for_unsized::unsized_fits::<T>(
                    page@,
                    page.removed_len,
                    DATA_LENGTH,
                ),
                Err(e) => e == Error::Decode && forall|v: UnsizedPageView<T::V>|
                    unsized_page_storable::<T>(v, DATA_LENGTH as nat)
                        ==> #[trigger] unsized_page_bytes::<T>(v, DATA_LENGTH as nat) != bytes@,
            },
    {
        match <Self as Persistable>::from_bytes(bytes) {
            Ok(page) => {
                let mut page = page;
                let total: u64 = page.slots_total();
                page.removed_len = (page.last_value_offset as u64 - total) as u32;
                Ok(page)
            },
            Err(e) => {
                proof {
                    assert forall|v: UnsizedPageView<T::V>|
                        unsized_page_storable::<T>(
                            v,
                            DATA_LENGTH as nat,
                        ) implies #[trigger] unsized_page_bytes::<T>(v, DATA_LENGTH as nat)
                        != bytes@ by {
                        assert(<Self as Persistable>::storable(v));
                        assert(<Self as Persistable>::encoding(v) != bytes@);
                    }
                }
                Err(e)
            },
        }
    }

    /// Returns the head of the page.
    pub fn utility(&self) -> (utility: UnsizedIndexPageUtility<T>)
        ensures
            utility@ == self@.utility(),
    {
        let mut slots: Vec<(u32, u16)> = Vec::new();
        let mut i: usize = 0;
        while i < self.slots.len()
            invariant
                i <= self.slots@.len(),
                slots@ == self.slots@.subrange(0, i as int),
            decreases self.slots@.len() - i,
        {
            slots.push(self.slots[i]);
            i += 1;
            assert(slots@ =~= self.slots@.subrange(0, i as int));
        }
        assert(slots@ =~= self.slots@);
        UnsizedIndexPageUtility {
            slots_size: self.slots_size,
            node_id_size: self.node_id_size,
            node_id: self.node_id.duplicate(),
            last_value_offset: self.last_value_offset,
            slots,
        }
    }
}

impl<T: IndexKey, const DATA_LENGTH: u32> Persistable for UnsizedIndexPage<T, DATA_LENGTH> {
    open spec fn storable(v: UnsizedPageView<T::V>) -> bool {
        unsized_page_storable::<T>(v, DATA_LENGTH as nat)
    }

    open spec fn encoding(v: UnsizedPageView<T::V>) -> Seq<u8> {
        unsized_page_bytes::<T>(v, DATA_LENGTH as nat)
    }

    proof fn lemma_encoding_injective(a: UnsizedPageView<T::V>, b: UnsizedPageView<T::V>) {
        lemma_unsized_page_unique::<T>(a, b, DATA_LENGTH as nat);
    }

    fn is_storable(&self) -> (r: bool) {
        if !self.is_well_formed() {
            return false;
        }
        let head: u64 = 2 + 2 + self.node_id_size as u64 + 4 + self.slots_size as u64 * 8 + 8;
        head + self.last_value_offset as u64 <= DATA_LENGTH as u64
    }

    fn as_bytes(&self) -> (bytes: Vec<u8>) {
        let ghost p = self@;
        let ghost d = DATA_LENGTH as nat;
        let data_length: usize = DATA_LENGTH as usize;
        let utility = self.utility();
        proof {
            let head = unsized_utility_bytes::<T>(p.utility());
            assert(head.subrange(0, head.len() as int) =~= head);
            lemma_unsized_utility_layout::<T>(p.utility(), head);
        }
        let mut bytes: Vec<u8> = utility.as_bytes();
        let ghost head = bytes@;
        let mut k: usize = bytes.len();
        let first: usize = bytes.len();
        while k < data_length
            invariant
                first <= k <= data_length,
                bytes@ == head + filler(k - first, 0),
            decreases data_length - k,
        {
            bytes.push(0);
            k += 1;
            assert(bytes@ =~= head + filler(k - first, 0));
        }
        let mut i: usize = 0;
        while i < self.index_values.len()
            invariant
                i <= self.index_values@.len(),
                p == self@,
                d == DATA_LENGTH,
                data_length == DATA_LENGTH,
                unsized_page_storable::<T>(p, d),
                bytes@ == written::<T>(p, d, i as int),
            decreases self.index_values@.len() - i,
        {
            proof {
                lemma_written::<T>(p, d, i as int);
                assert(T::storable(p.index_values[i as int].key));
                assert(p.index_values[i as int] == self.index_values@[i as int]@);
                assert(p.slots[i as int].1 <= p.slots[i as int].0 <= p.last_value_offset);
                crate::link::lemma_link_bytes_len(p.index_values[i as int].link);
                crate::page::index::lemma_entry_layout::<T>(p.index_values[i as int]);
            }
            let value: Vec<u8> = self.index_values[i].as_bytes();
            let start: usize = data_length - self.slots[i].0 as usize;
            let ghost base = bytes@;
            let mut j: usize = 0;
            while j < value.len()
                invariant
                    j <= value@.len(),
                    start + value@.len() <= data_length,
                    base.len() == data_length,
                    bytes@ == overwritten(base, start as int, value@.subrange(0, j as int)),
                decreases value@.len() - j,
            {
                bytes[start + j] = value[j];
                j += 1;
                assert(bytes@ =~= overwritten(base, start as int, value@.subrange(0, j as int)));
            }
            assert(value@.subrange(0, value@.len() as int) =~= value@);
            i += 1;
        }
        bytes
    }

    fn from_bytes(bytes: &[u8]) -> (r: Result<Self, Error>) {
        let ghost d = DATA_LENGTH as nat;
        let data_length: usize = DATA_LENGTH as usize;
        proof {
            assert forall|v: UnsizedPageView<T::V>|
                Self::storable(v) && bytes@ == #[trigger] Self::encoding(v) implies {
                &&& bytes@.len() == d
                &&& starts_with(bytes@, unsized_utility_bytes::<T>(v.utility()))
                &&& unsized_utility_storable::<T>(v.utility())
            } by {
                lemma_written::<T>(v, d, v.slots_size as int);
            }
        }
        if bytes.len() != data_length {
            return Err(Error::Decode);
        }
        let (utility, used) = match parse_unsized_utility::<T>(bytes) {
            Some(parsed) => parsed,
            None => {
                return Err(Error::Decode);
            },
        };
        proof {
            assert forall|v: UnsizedPageView<T::V>|
                Self::storable(v) && bytes@ == #[trigger] Self::encoding(v) implies v.utility()
                == utility@ by {
                lemma_unsized_utility_unique::<T>(v.utility(), utility@, bytes@);
            }
            lemma_unsized_utility_layout::<T>(utility@, bytes@);
        }
        if used as u64 + utility.last_value_offset as u64 > DATA_LENGTH as u64 || !check_slots(
            &utility.slots,
            utility.last_value_offset,
        ) {
            proof {
                assert forall|v: UnsizedPageView<T::V>|
                    Self::storable(v) implies #[trigger] Self::encoding(v) != bytes@ by {
                    if Self::encoding(v) == bytes@ {
                        assert(v.utility() == utility@);
                        assert forall|i: int, j: int| 0 <= i < j < v.slots.len() implies (
                        #[trigger] v.slots[i]).0 + (#[trigger] v.slots[j]).1 <= v.slots[j].0
                            || v.slots[j].0 + v.slots[i].1 <= v.slots[i].0 by {
                            assert(v.apart(i, j));
                        }
                    }
                }
            }
            return Err(Error::Decode);
        }
        let count: usize = utility.slots.len();
        let mut index_values: Vec<IndexValue<T>> = Vec::new();
        let mut i: usize = 0;
        while i < count
            invariant
                i <= count,
                count == utility.slots@.len(),
                bytes@.len() == data_length,
                data_length == DATA_LENGTH,
                d == DATA_LENGTH,
                slots_sound(utility.slots@, utility.last_value_offset),
                utility.last_value_offset <= data_length,
                index_values@.len() == i,
                forall|v: UnsizedPageView<T::V>|
                    Self::storable(v) && bytes@ == #[trigger] Self::encoding(v) ==> v.utility()
                        == utility@,
                forall|j: int|
                    0 <= j < i ==> T::storable((#[trigger] index_values@[j])@.key)
                        && IndexValue::<T>::encoding(index_values@[j]@) == bytes@.subrange(
                        data_length - utility.slots@[j].0,
                        data_length - utility.slots@[j].0 + utility.slots@[j].1,
                    ),
            decreases count - i,
        {
            let slot: (u32, u16) = utility.slots[i];
            assert(utility.slots@[i as int].1 <= utility.slots@[i as int].0
                <= utility.last_value_offset);
            let start: usize = data_length - slot.0 as usize;
            let value = match IndexValue::<T>::from_bytes(
                slice_subrange(bytes, start, start + slot.1 as usize),
            ) {
                Ok(value) => value,
                Err(_) => {
                    proof {
                        assert forall|v: UnsizedPageView<T::V>|
                            Self::storable(v) implies #[trigger] Self::encoding(v) != bytes@ by {
                            if Self::encoding(v) == bytes@ {
                                assert(v.utility() == utility@);
                                lemma_written::<T>(v, d, v.slots_size as int);
                                assert(T::storable(v.index_values[i as int].key));
                                assert(IndexValue::<T>::encoding(v.index_values[i as int])
                                    == bytes@.subrange(
                                    d - v.slots[i as int].0,
                                    d - v.slots[i as int].0 + v.slots[i as int].1,
                                ));
                            }
                        }
                    }
                    return Err(Error::Decode);
                },
            };
            index_values.push(value);
            i += 1;
        }
        let page = UnsizedIndexPage {
            slots_size: utility.slots_size,
            node_id_size: utility.node_id_size,
            node_id: utility.node_id,
            last_value_offset: utility.last_value_offset,
            slots: utility.slots,
            index_values,
            removed_len: 0,
        };
        proof {
            let p = page@;
            assert(p.utility() == utility@);
            assert forall|j: int| 0 <= j < p.slots_size implies T::storable(
                (#[trigger] p.index_values[j]).key,
            ) && p.slots[j].1 == entry_len::<T>(p.index_values[j]) by {
                assert(p.index_values[j] == page.index_values@[j]@);
                crate::link::lemma_link_bytes_len(p.index_values[j].link);
                crate::page::index::lemma_entry_layout::<T>(p.index_values[j]);
            }
            assert forall|a: int, b: int| 0 <= a < b < p.slots_size implies p.apart(a, b) by {
                assert(p.slots[a].0 + p.slots[b].1 <= p.slots[b].0 || p.slots[b].0 + p.slots[a].1
                    <= p.slots[a].0);
            }
            assert(unsized_wf::<T>(p));
        }
        let again: Vec<u8> = page.as_bytes();
        if !same_bytes(again.as_slice(), bytes) {
            proof {
                let p = page@;
                assert forall|v: UnsizedPageView<T::V>|
                    Self::storable(v) implies #[trigger] Self::encoding(v) != bytes@ by {
                    if Self::encoding(v) == bytes@ {
                        assert(v.utility() == p.utility());
                        lemma_written::<T>(v, d, v.slots_size as int);
                        assert forall|j: int| 0 <= j < v.index_values.len() implies v.index_values[j]
                            == p.index_values[j] by {
                            assert(T::storable(v.index_values[j].key));
                            assert(p.index_values[j] == page.index_values@[j]@);
                            assert(IndexValue::<T>::encoding(v.index_values[j])
                                == bytes@.subrange(
                                d - v.slots[j].0,
                                d - v.slots[j].0 + v.slots[j].1,
                            ));
                            IndexValue::<T>::lemma_encoding_injective(
                                v.index_values[j],
                                p.index_values[j],
                            );
                        }
                        assert(v.index_values =~= p.index_values);
                        assert(v == p);
                    }
                }
            }
            return Err(Error::Decode);
        }
        Ok(page)
    }
}

} // verus!
