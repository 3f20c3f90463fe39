//! The byte form of the head of an [`UnsizedIndexPage`].
//!
//! | part | bytes |
//! |---|---|
//! | `slots_size` | 2 |
//! | `node_id_size` | 2 |
//! | `node_id` | `node_id_size` |
//! | `last_value_offset` | 4 |
//! | `slots` | 8 for each slot, and 8 |

use crate::error::Error;
use crate::page::index::page_bytes::starts_with;
use crate::page::index::page_for_unsized::{
    entry_len, head_size, UnsizedIndexPageUtility, UnsizedUtilityView, SLOT_SIZE,
};
use crate::page::index::IndexValue;
use crate::util::key::IndexKey;
use crate::util::persistable::{
    lemma_u16_bytes, lemma_u16_of_bytes, lemma_u32_bytes, lemma_u32_of_bytes, Persistable,
};
use crate::util::sized::lemma_round_up;
use crate::util::vector::{
    cells_of, cells_view, decode_vector, encode_vector, lemma_vector_injective,
    lemma_vector_layout, vector_bytes, vector_ok, vector_size,
};
use vstd::bytes::*;
use vstd::prelude::*;
use vstd::slice::slice_subrange;

verus! {

/// The cell of a slot: the distance from the end of the page as 4 bytes,
/// the length as 2 bytes, and 2 zeroes.
pub open spec fn pair_cell(slot: (u32, u16)) -> Seq<u8> {
    spec_u32_to_le_bytes(slot.0) + spec_u16_to_le_bytes(slot.1) + seq![0u8, 0u8]
}

/// The cells of a vector of slots.
pub open spec fn pair_cells(slots: Seq<(u32, u16)>) -> Seq<Seq<u8>> {
    Seq::new(slots.len(), |i: int| pair_cell(slots[i]))
}

/// How the cell of a slot is laid out.
pub proof fn lemma_pair_cell(slot: (u32, u16))
    ensures
        pair_cell(slot).len() == 8,
        pair_cell(slot).subrange(0, 4) == spec_u32_to_le_bytes(slot.0),
        pair_cell(slot).subrange(4, 6) == spec_u16_to_le_bytes(slot.1),
        pair_cell(slot)[6] == 0,
        pair_cell(slot)[7] == 0,
{
    lemma_u32_bytes(slot.0);
    lemma_u16_bytes(slot.1);
    assert(pair_cell(slot).subrange(0, 4) =~= spec_u32_to_le_bytes(slot.0));
    assert(pair_cell(slot).subrange(4, 6) =~= spec_u16_to_le_bytes(slot.1));
}

/// The cells of slots have 8 bytes each, and tell the slots.
pub proof fn lemma_pair_cells(a: Seq<(u32, u16)>, b: Seq<(u32, u16)>)
    ensures
        cells_of(pair_cells(a), 8),
        pair_cells(a) == pair_cells(b) ==> a == b,
{
    assert forall|i: int| 0 <= i < a.len() implies (#[trigger] pair_cells(a)[i]).len() == 8 by {
        lemma_pair_cell(a[i]);
    }
    if pair_cells(a) == pair_cells(b) {
        assert(a.len() == pair_cells(a).len());
        assert(b.len() == pair_cells(b).len());
        assert forall|i: int| 0 <= i < a.len() implies a[i] == b[i] by {
            assert(pair_cells(a)[i] == pair_cell(a[i]));
            assert(pair_cells(b)[i] == pair_cell(b[i]));
            lemma_pair_cell(a[i]);
            lemma_pair_cell(b[i]);
            lemma_u32_bytes(a[i].0);
            lemma_u32_bytes(b[i].0);
            lemma_u16_bytes(a[i].1);
            lemma_u16_bytes(b[i].1);
            assert(a[i].0 == b[i].0);
            assert(a[i].1 == b[i].1);
        }
        assert(a =~= b);
    }
}

/// Returns the byte form of a vector of slots.
pub fn encode_pairs(slots: &Vec<(u32, u16)>) -> (bytes: Vec<u8>)
    requires
        slots@.len() <= u16::MAX,
    ensures
        bytes@ == vector_bytes(pair_cells(slots@), 8),
{
    let mut cells: Vec<Vec<u8>> = Vec::new();
    let mut i: usize = 0;
    while i < slots.len()
        invariant
            i <= slots@.len(),
            cells@.len() == i,
            forall|j: int| 0 <= j < i ==> (#[trigger] cells@[j])@ == pair_cell(slots@[j]),
        decreases slots@.len() - i,
    {
        let mut cell: Vec<u8> = u32_to_le_bytes(slots[i].0);
        let mut part: Vec<u8> = u16_to_le_bytes(slots[i].1);
        cell.append(&mut part);
        cell.push(0);
        cell.push(0);
        assert(cell@ =~= pair_cell(slots@[i as int]));
        cells.push(cell);
        i += 1;
    }
    proof {
        assert(cells_view(cells@) =~= pair_cells(slots@));
        lemma_pair_cells(slots@, slots@);
    }
    encode_vector(&cells, 8)
}

/// Returns the slots of the vector whose byte form `bytes` is, or `None`
/// if it is the byte form of no vector of slots.
pub fn decode_pairs(bytes: &[u8]) -> (r: Option<Vec<(u32, u16)>>)
    ensures
        match r {
            Some(slots) => vector_ok(pair_cells(slots@), 8) && vector_bytes(pair_cells(slots@), 8)
                == bytes@,
            None => forall|slots: Seq<(u32, u16)>|
                vector_ok(#[trigger] pair_cells(slots), 8) ==> vector_bytes(pair_cells(slots), 8)
                    != bytes@,
        },
{
    let cells = match decode_vector(bytes, 8) {
        Some(cells) => cells,
        None => {
            return None;
        },
    };
    let mut slots: Vec<(u32, u16)> = Vec::new();
    let mut i: usize = 0;
    while i < cells.len()
        invariant
            i <= cells@.len(),
            vector_ok(cells_view(cells@), 8),
            vector_bytes(cells_view(cells@), 8) == bytes@,
            slots@.len() == i,
            forall|j: int| 0 <= j < i ==> pair_cell(#[trigger] slots@[j]) == cells@[j]@,
        decreases cells@.len() - i,
    {
        assert(cells_view(cells@)[i as int].len() == 8);
        let cell: &[u8] = cells[i].as_slice();
        let offset: u32 = u32_from_le_bytes(slice_subrange(cell, 0, 4));
        let length: u16 = u16_from_le_bytes(slice_subrange(cell, 4, 6));
        if cell[6] != 0 || cell[7] != 0 {
            proof {
                assert forall|s: Seq<(u32, u16)>| vector_ok(#[trigger] pair_cells(s), 8) implies vector_bytes(
                    pair_cells(s),
                    8,
                ) != bytes@ by {
                    if vector_bytes(pair_cells(s), 8) == bytes@ {
                        lemma_vector_injective(pair_cells(s), cells_view(cells@), 8);
                        assert(pair_cells(s)[i as int] == pair_cell(s[i as int]));
                        lemma_pair_cell(s[i as int]);
                    }
                }
            }
            return None;
        }
        proof {
            lemma_u32_of_bytes(cell@.subrange(0, 4));
            lemma_u16_of_bytes(cell@.subrange(4, 6));
            lemma_pair_cell((offset, length));
            assert(pair_cell((offset, length)) =~= cell@);
        }
        slots.push((offset, length));
        i += 1;
    }
    assert(pair_cells(slots@) =~= cells_view(cells@));
    Some(slots)
}

/// The byte form of the head of a page.
pub open spec fn unsized_utility_bytes<T: IndexKey>(u: UnsizedUtilityView<T::V>) -> Seq<u8> {
    spec_u16_to_le_bytes(u.slots_size) + spec_u16_to_le_bytes(u.node_id_size)
        + IndexValue::<T>::encoding(u.node_id) + spec_u32_to_le_bytes(u.last_value_offset)
        + vector_bytes(pair_cells(u.slots), 8)
}

/// Whether the head of a page has a byte form: there are `slots_size`
/// slots, and `node_id` has a byte form of `node_id_size` bytes.
pub open spec fn unsized_utility_storable<T: IndexKey>(u: UnsizedUtilityView<T::V>) -> bool {
    &&& u.slots.len() == u.slots_size
    &&& T::storable(u.node_id.key)
    &&& u.node_id_size == entry_len::<T>(u.node_id)
}

/// Where the parts of the head lie in bytes that begin with its byte form.
pub proof fn lemma_unsized_utility_layout<T: IndexKey>(
    u: UnsizedUtilityView<T::V>,
    bytes: Seq<u8>,
)
    requires
        unsized_utility_storable::<T>(u),
        starts_with(bytes, unsized_utility_bytes::<T>(u)),
    ensures
        unsized_utility_bytes::<T>(u).len() == head_size(
            u.slots_size as nat,
            u.node_id_size as nat,
        ),
        bytes.subrange(0, 2) == spec_u16_to_le_bytes(u.slots_size),
        bytes.subrange(2, 4) == spec_u16_to_le_bytes(u.node_id_size),
        bytes.subrange(4, 4 + u.node_id_size) == IndexValue::<T>::encoding(u.node_id),
        bytes.subrange(4 + u.node_id_size, 8 + u.node_id_size) == spec_u32_to_le_bytes(
            u.last_value_offset,
        ),
        bytes.subrange(
            8 + u.node_id_size,
            head_size(u.slots_size as nat, u.node_id_size as nat) as int,
        ) == vector_bytes(pair_cells(u.slots), 8),
        vector_ok(pair_cells(u.slots), 8),
{
    let k = u.node_id_size as int;
    let e = unsized_utility_bytes::<T>(u);
    lemma_u16_bytes(u.slots_size);
    lemma_u16_bytes(u.node_id_size);
    lemma_u32_bytes(u.last_value_offset);
    crate::link::lemma_link_bytes_len(u.node_id.link);
    crate::page::index::lemma_entry_layout::<T>(u.node_id);
    lemma_pair_cells(u.slots, u.slots);
    assert(pair_cells(u.slots).len() == u.slots_size);
    assert(pair_cells(u.slots).len() * 8 <= 0xffff_fff0);
    lemma_vector_layout(pair_cells(u.slots), 8);
    lemma_round_up(pair_cells(u.slots).len() * 8, 4);
    let v = vector_bytes(pair_cells(u.slots), 8);
    assert(IndexValue::<T>::encoding(u.node_id).len() == k);
    assert(e.len() == 8 + k + v.len());
    assert(e.subrange(0, 2) =~= spec_u16_to_le_bytes(u.slots_size));
    assert(e.subrange(2, 4) =~= spec_u16_to_le_bytes(u.node_id_size));
    assert(e.subrange(4, 4 + k) =~= IndexValue::<T>::encoding(u.node_id));
    assert(e.subrange(4 + k, 8 + k) =~= spec_u32_to_le_bytes(u.last_value_offset));
    assert(e.subrange(8 + k, e.len() as int) =~= v);
    assert(bytes.subrange(0, 2) =~= e.subrange(0, 2));
    assert(bytes.subrange(2, 4) =~= e.subrange(2, 4));
    assert(bytes.subrange(4, 4 + k) =~= e.subrange(4, 4 + k));
    assert(bytes.subrange(4 + k, 8 + k) =~= e.subrange(4 + k, 8 + k));
    assert(bytes.subrange(8 + k, e.len() as int) =~= e.subrange(8 + k, e.len() as int));
}

/// Bytes begin with the byte form of at most one head.
pub proof fn lemma_unsized_utility_unique<T: IndexKey>(
    a: UnsizedUtilityView<T::V>,
    b: UnsizedUtilityView<T::V>,
    bytes: Seq<u8>,
)
    requires
        unsized_utility_storable::<T>(a),
        unsized_utility_storable::<T>(b),
        starts_with(bytes, unsized_utility_bytes::<T>(a)),
        starts_with(bytes, unsized_utility_bytes::<T>(b)),
    ensures
        a == b,
{
    lemma_unsized_utility_layout::<T>(a, bytes);
    lemma_unsized_utility_layout::<T>(b, bytes);
    lemma_u16_bytes(a.slots_size);
    lemma_u16_bytes(b.slots_size);
    lemma_u16_bytes(a.node_id_size);
    lemma_u16_bytes(b.node_id_size);
    lemma_u32_bytes(a.last_value_offset);
    lemma_u32_bytes(b.last_value_offset);
    assert(a.slots_size == b.slots_size);
    assert(a.node_id_size == b.node_id_size);
    IndexValue::<T>::lemma_encoding_injective(a.node_id, b.node_id);
    assert(a.last_value_offset == b.last_value_offset);
    lemma_vector_injective(pair_cells(a.slots), pair_cells(b.slots), 8);
    lemma_pair_cells(a.slots, b.slots);
}

/// Reads the head that `bytes` begin with. Returns it with the number of
/// its bytes, or `None` if the bytes begin with the byte form of no head.
pub fn parse_unsized_utility<T: IndexKey>(bytes: &[u8]) -> (r: Option<
    (UnsizedIndexPageUtility<T>, usize),
>)
    ensures
        match r {
            Some((utility, used)) => {
                &&& unsized_utility_storable::<T>(utility@)
                &&& used == head_size(utility.slots_size as nat, utility.node_id_size as nat)
                &&& starts_with(bytes@, unsized_utility_bytes::<T>(utility@))
            },
            None => forall|u: UnsizedUtilityView<T::V>|
                unsized_utility_storable::<T>(u) ==> !starts_with(
                    bytes@,
                    #[trigger] unsized_utility_bytes::<T>(u),
                ),
        },
{
    if bytes.len() < 4 {
        proof {
            assert forall|u: UnsizedUtilityView<T::V>|
                unsized_utility_storable::<T>(u) implies !starts_with(
                bytes@,
                #[trigger] unsized_utility_bytes::<T>(u),
            ) by {
                if starts_with(bytes@, unsized_utility_bytes::<T>(u)) {
                    lemma_unsized_utility_layout::<T>(u, bytes@);
                }
            }
        }
        return None;
    }
    let slots_size: u16 = u16_from_le_bytes(slice_subrange(bytes, 0, 2));
    let node_id_size: u16 = u16_from_le_bytes(slice_subrange(bytes, 2, 4));
    proof {
        lemma_u16_of_bytes(bytes@.subrange(0, 2));
        lemma_u16_of_bytes(bytes@.subrange(2, 4));
        lemma_u16_bytes(slots_size);
        lemma_u16_bytes(node_id_size);
        assert forall|u: UnsizedUtilityView<T::V>|
            unsized_utility_storable::<T>(u) && starts_with(
                bytes@,
                #[trigger] unsized_utility_bytes::<T>(u),
            ) implies u.slots_size == slots_size && u.node_id_size == node_id_size by {
            lemma_unsized_utility_layout::<T>(u, bytes@);
            lemma_u16_bytes(u.slots_size);
            lemma_u16_bytes(u.node_id_size);
        }
    }
    let id_size: usize = node_id_size as usize;
    let used: usize = 2 + 2 + id_size + 4 + slots_size as usize * SLOT_SIZE + 8;
    if bytes.len() < used {
        proof {
            assert forall|u: UnsizedUtilityView<T::V>|
                unsized_utility_storable::<T>(u) implies !starts_with(
                bytes@,
                #[trigger] unsized_utility_bytes::<T>(u),
            ) by {
                if starts_with(bytes@, unsized_utility_bytes::<T>(u)) {
                    lemma_unsized_utility_layout::<T>(u, bytes@);
                }
            }
        }
        return None;
    }
    let node_id = match IndexValue::<T>::from_bytes(slice_subrange(bytes, 4, 4 + id_size)) {
        Ok(node_id) => node_id,
        Err(_) => {
            proof {
                assert forall|u: UnsizedUtilityView<T::V>|
                    unsized_utility_storable::<T>(u) implies !starts_with(
                    bytes@,
                    #[trigger] unsized_utility_bytes::<T>(u),
                ) by {
                    if starts_with(bytes@, unsized_utility_bytes::<T>(u)) {
                        lemma_unsized_utility_layout::<T>(u, bytes@);
                    }
                }
            }
            return None;
        },
    };
    let last_value_offset: u32 = u32_from_le_bytes(
        slice_subrange(bytes, 4 + id_size, 8 + id_size),
    );
    let slots = match decode_pairs(slice_subrange(bytes, 8 + id_size, used)) {
        Some(slots) => slots,
        None => {
            proof {
                assert forall|u: UnsizedUtilityView<T::V>|
                    unsized_utility_storable::<T>(u) implies !starts_with(
                    bytes@,
                    #[trigger] unsized_utility_bytes::<T>(u),
                ) by {
                    if starts_with(bytes@, unsized_utility_bytes::<T>(u)) {
                        lemma_unsized_utility_layout::<T>(u, bytes@);
                    }
                }
            }
            return None;
        },
    };
    proof {
        lemma_pair_cells(slots@, slots@);
        lemma_vector_layout(pair_cells(slots@), 8);
        lemma_round_up(slots@.len() * 8, 4);
    }
    if slots.len() != slots_size as usize {
        proof {
            assert forall|u: UnsizedUtilityView<T::V>|
                unsized_utility_storable::<T>(u) implies !starts_with(
                bytes@,
                #[trigger] unsized_utility_bytes::<T>(u),
            ) by {
                if starts_with(bytes@, unsized_utility_bytes::<T>(u)) {
                    lemma_unsized_utility_layout::<T>(u, bytes@);
                    lemma_vector_injective(pair_cells(u.slots), pair_cells(slots@), 8);
                    lemma_pair_cells(u.slots, slots@);
                }
            }
        }
        return None;
    }
    let utility = UnsizedIndexPageUtility {
        slots_size,
        node_id_size,
        node_id,
        last_value_offset,
        slots,
    };
    proof {
        lemma_u32_of_bytes(bytes@.subrange(4 + id_size, 8 + id_size));
        lemma_u32_bytes(last_value_offset);
        crate::link::lemma_link_bytes_len(node_id@.link);
        crate::page::index::lemma_entry_layout::<T>(node_id@);
        let e = unsized_utility_bytes::<T>(utility@);
        let k = id_size as int;
        assert(IndexValue::<T>::encoding(node_id@).len() == k);
        assert(e.len() == used);
        assert(e =~= bytes@.subrange(0, 2) + bytes@.subrange(2, 4) + bytes@.subrange(4, 4 + k)
            + bytes@.subrange(4 + k, 8 + k) + bytes@.subrange(8 + k, used as int));
        assert(bytes@.subrange(0, used as int) =~= e);
    }
    Some((utility, used))
}

impl<T: IndexKey> UnsizedIndexPageUtility<T> {
    /// Returns the number of bytes of the field `slots_size`.
    pub fn slots_size_size() -> (r: usize)
        ensures
            r == 2,
    {
        2
    }

    /// Returns the number of bytes of the field `node_id_size`.
    pub fn node_id_size_size() -> (r: usize)
        ensures
            r == 2,
    {
        2
    }

    /// Returns the number of bytes of one slot.
    pub fn slots_value_size() -> (r: usize)
        ensures
            r == SLOT_SIZE,
    {
        SLOT_SIZE
    }

    /// Returns the number of bytes of the head of a page with `slots_size`
    /// slots and a node id of `node_id_size` bytes.
    pub fn persisted_size(slots_size: usize, node_id_size: usize) -> (r: usize)
        requires
            slots_size <= u16::MAX,
            node_id_size <= u16::MAX,
        ensures
            r == head_size(slots_size as nat, node_id_size as nat),
    {
        2 + 2 + node_id_size + 4 + slots_size * SLOT_SIZE + 8
    }
}

impl<T: IndexKey> Persistable for UnsizedIndexPageUtility<T> {
    open spec fn storable(v: UnsizedUtilityView<T::V>) -> bool {
        unsized_utility_storable::<T>(v)
    }

    open spec fn encoding(v: UnsizedUtilityView<T::V>) -> Seq<u8> {
        unsized_utility_bytes::<T>(v)
    }

    proof fn lemma_encoding_injective(a: UnsizedUtilityView<T::V>, b: UnsizedUtilityView<T::V>) {
        let e = unsized_utility_bytes::<T>(a);
        assert(e.subrange(0, e.len() as int) =~= e);
        lemma_unsized_utility_unique::<T>(a, b, e);
    }

    fn is_storable(&self) -> (r: bool) {
        if self.slots.len() != self.slots_size as usize {
            return false;
        }
        match crate::page::index::page_for_unsized::measured(&self.node_id) {
            Some(size) => size == self.node_id_size,
            None => false,
        }
    }

    fn as_bytes(&self) -> (bytes: Vec<u8>) {
        let mut bytes: Vec<u8> = u16_to_le_bytes(self.slots_size);
        let mut part: Vec<u8> = u16_to_le_bytes(self.node_id_size);
        bytes.append(&mut part);
        let mut part: Vec<u8> = self.node_id.as_bytes();
        bytes.append(&mut part);
        let mut part: Vec<u8> = u32_to_le_bytes(self.last_value_offset);
        bytes.append(&mut part);
        let mut part: Vec<u8> = encode_pairs(&self.slots);
        bytes.append(&mut part);
        bytes
    }

    fn from_bytes(bytes: &[u8]) -> (r: Result<Self, Error>) {
        match parse_unsized_utility::<T>(bytes) {
            Some((utility, used)) => {
                if used != bytes.len() {
                    proof {
                        assert forall|v: UnsizedUtilityView<T::V>|
                            Self::storable(v) implies #[trigger] Self::encoding(v) != bytes@ by {
                            if Self::encoding(v) == bytes@ {
                                assert(bytes@.subrange(0, bytes@.len() as int) =~= bytes@);
                                lemma_unsized_utility_unique::<T>(v, utility@, bytes@);
                                lemma_unsized_utility_layout::<T>(v, bytes@);
                            }
                        }
                    }
                    return Err(Error::Decode);
                }
                proof {
                    lemma_unsized_utility_layout::<T>(utility@, bytes@);
                    assert(bytes@.subrange(0, used as int) =~= bytes@);
                }
                Ok(utility)
            },
            None => {
                proof {
                    assert forall|v: UnsizedUtilityView<T::V>|
                        Self::storable(v) implies #[trigger] Self::encoding(v) != bytes@ by {
                        if Self::encoding(v) == bytes@ {
                            assert(bytes@.subrange(0, bytes@.len() as int) =~= bytes@);
                            assert(starts_with(bytes@, unsized_utility_bytes::<T>(v)));
                        }
                    }
                }
                Err(Error::Decode)
            },
        }
    }
}

} // verus!
