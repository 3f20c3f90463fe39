//! The cells that the vectors of an index page are made of: slots and
//! entries.

use crate::link::LINK_LENGTH;
use crate::page::index::{entry_bytes, lemma_entry_layout, IndexValue};
use crate::util::key::{entry_size, FixedKey};
use crate::util::persistable::{lemma_u16_bytes, lemma_u16_of_bytes, Persistable};
use crate::util::sized::{
    align, align8, is_eight_aligned, lemma_round_up, lemma_round_up_least, round_up,
};
use crate::util::text::filler;
use crate::util::vector::{
    cells_of, cells_view, decode_vector, encode_vector, lemma_vector_injective, vector_bytes,
    vector_ok,
};
use vstd::bytes::*;
use vstd::prelude::*;
use vstd::slice::slice_subrange;

verus! {

/// The cells of a vector of slots: 2 bytes each, the low byte first.
pub open spec fn slot_cells(slots: Seq<u16>) -> Seq<Seq<u8>> {
    Seq::new(slots.len(), |i: int| spec_u16_to_le_bytes(slots[i]))
}

/// The cells of slots have 2 bytes each, and tell the slots.
pub proof fn lemma_slot_cells(a: Seq<u16>, b: Seq<u16>)
    ensures
        cells_of(slot_cells(a), 2),
        slot_cells(a) == slot_cells(b) ==> a == b,
{
    assert forall|i: int| 0 <= i < a.len() implies (#[trigger] slot_cells(a)[i]).len() == 2 by {
        lemma_u16_bytes(a[i]);
    }
    if slot_cells(a) == slot_cells(b) {
        assert(a.len() == slot_cells(a).len());
        assert(b.len() == slot_cells(b).len());
        assert forall|i: int| 0 <= i < a.len() implies a[i] == b[i] by {
            assert(slot_cells(a)[i] == spec_u16_to_le_bytes(a[i]));
            assert(slot_cells(b)[i] == spec_u16_to_le_bytes(b[i]));
            lemma_u16_bytes(a[i]);
            lemma_u16_bytes(b[i]);
        }
        assert(a =~= b);
    }
}

/// Returns the byte form of a vector of slots.
pub fn encode_slots(slots: &Vec<u16>) -> (bytes: Vec<u8>)
    requires
        slots@.len() <= u16::MAX,
    ensures
        bytes@ == vector_bytes(slot_cells(slots@), 2),
{
    let mut cells: Vec<Vec<u8>> = Vec::new();
    let mut i: usize = 0;
    while i < slots.len()
        invariant
            i <= slots@.len(),
            cells@.len() == i,
            forall|j: int| 0 <= j < i ==> (#[trigger] cells@[j])@ == spec_u16_to_le_bytes(slots@[j]),
        decreases slots@.len() - i,
    {
        cells.push(u16_to_le_bytes(slots[i]));
        i += 1;
    }
    proof {
        assert(cells_view(cells@) =~= slot_cells(slots@));
        lemma_slot_cells(slots@, slots@);
    }
    encode_vector(&cells, 2)
}

/// Returns the slots of the vector whose byte form `bytes` is, or `None`
/// if it is the byte form of no vector of slots.
pub fn decode_slots(bytes: &[u8]) -> (r: Option<Vec<u16>>)
    ensures
        match r {
            Some(slots) => vector_ok(slot_cells(slots@), 2) && vector_bytes(slot_cells(slots@), 2)
                == bytes@,
            None => forall|slots: Seq<u16>|
                vector_ok(#[trigger] slot_cells(slots), 2) ==> vector_bytes(slot_cells(slots), 2)
                    != bytes@,
        },
{
    let cells = match decode_vector(bytes, 2) {
        Some(cells) => cells,
        None => {
            return None;
        },
    };
    let mut slots: Vec<u16> = Vec::new();
    let mut i: usize = 0;
    while i < cells.len()
        invariant
            i <= cells@.len(),
            cells_of(cells_view(cells@), 2),
            slots@.len() == i,
            forall|j: int| 0 <= j < i ==> spec_u16_to_le_bytes(#[trigger] slots@[j]) == cells@[j]@,
        decreases cells@.len() - i,
    {
        assert(cells_view(cells@)[i as int].len() == 2);
        proof {
            lemma_u16_of_bytes(cells@[i as int]@);
        }
        let slot: u16 = u16_from_le_bytes(cells[i].as_slice());
        slots.push(slot);
        i += 1;
    }
    assert(slot_cells(slots@) =~= cells_view(cells@));
    Some(slots)
}

/// The number of bytes of the cell of an entry whose key has `key_size`
/// bytes: the key and the 12 bytes of the link, rounded up to a multiple
/// of 8.
pub open spec fn value_stride(key_size: nat) -> nat {
    round_up(key_size + LINK_LENGTH as nat, 8)
}

/// The cell of an entry: its byte form, and zeroes up to the size of a
/// cell.
pub open spec fn value_cell<T: FixedKey>(value: IndexValue<T::V>) -> Seq<u8> {
    IndexValue::<T>::encoding(value) + filler(
        value_stride(T::default_size()) - entry_size::<T>(T::default_size()),
        0,
    )
}

/// The cells of a vector of entries.
pub open spec fn value_cells<T: FixedKey>(values: Seq<IndexValue<T::V>>) -> Seq<Seq<u8>> {
    Seq::new(values.len(), |i: int| value_cell::<T>(values[i]))
}

/// How the cell of an entry is laid out.
pub proof fn lemma_value_cell<T: FixedKey>(value: IndexValue<T::V>)
    ensures
        value_cell::<T>(value).len() == value_stride(T::default_size()),
        T::default_size() + LINK_LENGTH <= entry_size::<T>(T::default_size()) <= value_stride(
            T::default_size(),
        ) < T::default_size() + LINK_LENGTH + 8,
        value_cell::<T>(value).subrange(0, entry_size::<T>(T::default_size()) as int)
            == IndexValue::<T>::encoding(value),
        forall|i: int|
            entry_size::<T>(T::default_size()) <= i < value_stride(T::default_size())
                ==> value_cell::<T>(value)[i] == 0,
        IndexValue::<T>::storable(value),
{
    T::lemma_fixed_length(value.key);
    lemma_entry_layout::<T>(value);
    lemma_entry_width::<T>();
    assert(IndexValue::<T>::encoding(value) == entry_bytes::<T>(value));
    assert(value_cell::<T>(value).subrange(0, entry_size::<T>(T::default_size()) as int)
        =~= IndexValue::<T>::encoding(value));
}

/// An entry with a key of `T` is not longer than its cell.
pub proof fn lemma_entry_width<T: FixedKey>()
    ensures
        T::default_size() + LINK_LENGTH <= entry_size::<T>(T::default_size()) <= value_stride(
            T::default_size(),
        ) < T::default_size() + LINK_LENGTH + 8,
{
    lemma_round_up(T::default_size() + LINK_LENGTH as nat, 8);
    lemma_round_up(T::default_size() + LINK_LENGTH as nat, 4);
    lemma_round_up_least(
        T::default_size() + LINK_LENGTH as nat,
        4,
        value_stride(T::default_size()),
    );
}

/// Returns the number of bytes of an entry with a key of `T`.
pub fn entry_width<T: FixedKey>() -> (r: usize)
    ensures
        r == entry_size::<T>(T::default_size()),
        r <= value_stride(T::default_size()),
{
    proof {
        T::lemma_default_size_fits();
        lemma_entry_width::<T>();
        lemma_round_up(T::default_size() + LINK_LENGTH as nat, 8);
        lemma_round_up(T::default_size() + LINK_LENGTH as nat, 4);
    }
    let sum: usize = T::default_aligned_size() + LINK_LENGTH;
    if is_eight_aligned(T::align()) {
        align8(sum)
    } else {
        align(sum)
    }
}

/// The cells of entries have the size of a cell each, and tell the
/// entries.
pub proof fn lemma_value_cells<T: FixedKey>(a: Seq<IndexValue<T::V>>, b: Seq<IndexValue<T::V>>)
    ensures
        cells_of(value_cells::<T>(a), value_stride(T::default_size())),
        value_cells::<T>(a) == value_cells::<T>(b) ==> a == b,
{
    assert forall|i: int| 0 <= i < a.len() implies (#[trigger] value_cells::<T>(a)[i]).len()
        == value_stride(T::default_size()) by {
        lemma_value_cell::<T>(a[i]);
    }
    if value_cells::<T>(a) == value_cells::<T>(b) {
        assert(a.len() == value_cells::<T>(a).len());
        assert(b.len() == value_cells::<T>(b).len());
        assert forall|i: int| 0 <= i < a.len() implies a[i] == b[i] by {
            lemma_value_cell::<T>(a[i]);
            lemma_value_cell::<T>(b[i]);
            assert(value_cells::<T>(a)[i] == value_cell::<T>(a[i]));
            assert(value_cells::<T>(b)[i] == value_cell::<T>(b[i]));
            IndexValue::<T>::lemma_encoding_injective(a[i], b[i]);
        }
        assert(a =~= b);
    }
}

/// Returns the number of bytes of the cell of an entry with a key of `T`.
pub fn value_cell_size<T: FixedKey>() -> (r: usize)
    ensures
        r == value_stride(T::default_size()),
        0 < r <= 0x2_0000,
{
    proof {
        T::lemma_default_size_fits();
        lemma_round_up(T::default_size() + LINK_LENGTH as nat, 8);
    }
    align8(T::default_aligned_size() + LINK_LENGTH)
}

/// Returns the byte form of a vector of entries.
pub fn encode_values<T: FixedKey>(values: &Vec<IndexValue<T>>) -> (bytes: Vec<u8>)
    requires
        values@.len() <= u16::MAX,
        values@.len() * value_stride(T::default_size()) <= 0xffff_fff0,
    ensures
        bytes@ == vector_bytes(
            value_cells::<T>(Seq::new(values@.len(), |i: int| values@[i]@)),
            value_stride(T::default_size()),
        ),
{
    let ghost model = Seq::new(values@.len(), |i: int| values@[i]@);
    let stride: usize = value_cell_size::<T>();
    let mut cells: Vec<Vec<u8>> = Vec::new();
    let mut i: usize = 0;
    while i < values.len()
        invariant
            i <= values@.len(),
            stride == value_stride(T::default_size()),
            model == Seq::new(values@.len(), |i: int| values@[i]@),
            cells@.len() == i,
            forall|j: int| 0 <= j < i ==> (#[trigger] cells@[j])@ == value_cell::<T>(model[j]),
        decreases values@.len() - i,
    {
        proof {
            lemma_value_cell::<T>(model[i as int]);
            assert(model[i as int] == values@[i as int]@);
        }
        let mut cell: Vec<u8> = values[i].as_bytes();
        let ghost start = cell@;
        let mut k: usize = cell.len();
        let first: usize = cell.len();
        while k < stride
            invariant
                first <= k <= stride,
                cell@ == start + filler(k - first, 0),
            decreases stride - k,
        {
            cell.push(0);
            k += 1;
            assert(cell@ =~= start + filler(k - first, 0));
        }
        cells.push(cell);
        i += 1;
    }
    proof {
        assert(cells_view(cells@) =~= value_cells::<T>(model));
        lemma_value_cells::<T>(model, model);
    }
    encode_vector(&cells, stride)
}

/// Returns the entries of the vector whose byte form `bytes` is, or `None`
/// if it is the byte form of no vector of entries.
pub fn decode_values<T: FixedKey>(bytes: &[u8]) -> (r: Option<Vec<IndexValue<T>>>)
    ensures
        match r {
            Some(values) => {
                let model = Seq::new(values@.len(), |i: int| values@[i]@);
                vector_ok(value_cells::<T>(model), value_stride(T::default_size()))
                    && vector_bytes(value_cells::<T>(model), value_stride(T::default_size()))
                    == bytes@
            },
            None => forall|values: Seq<IndexValue<T::V>>|
                vector_ok(#[trigger] value_cells::<T>(values), value_stride(T::default_size()))
                    ==> vector_bytes(value_cells::<T>(values), value_stride(T::default_size()))
                    != bytes@,
        },
{
    let stride: usize = value_cell_size::<T>();
    let cells = match decode_vector(bytes, stride) {
        Some(cells) => cells,
        None => {
            return None;
        },
    };
    let inner: usize = entry_width::<T>();
    let mut values: Vec<IndexValue<T>> = Vec::new();
    let mut i: usize = 0;
    while i < cells.len()
        invariant
            i <= cells@.len(),
            stride == value_stride(T::default_size()),
            inner == entry_size::<T>(T::default_size()),
            inner <= stride,
            vector_ok(cells_view(cells@), stride as nat),
            vector_bytes(cells_view(cells@), stride as nat) == bytes@,
            values@.len() == i,
            forall|j: int| 0 <= j < i ==> value_cell::<T>((#[trigger] values@[j])@) == cells@[j]@,
        decreases cells@.len() - i,
    {
        assert(cells_view(cells@)[i as int].len() == stride);
        let cell: &[u8] = cells[i].as_slice();
        let value = match IndexValue::<T>::from_bytes(slice_subrange(cell, 0, inner)) {
            Ok(value) => value,
            Err(_) => {
                proof {
                    assert forall|vals: Seq<IndexValue<T::V>>|
                        vector_ok(
                            #[trigger] value_cells::<T>(vals),
                            value_stride(T::default_size()),
                        ) implies vector_bytes(
                        value_cells::<T>(vals),
                        value_stride(T::default_size()),
                    ) != bytes@ by {
                        if vector_bytes(value_cells::<T>(vals), stride as nat) == bytes@ {
                            lemma_vector_injective(
                                value_cells::<T>(vals),
                                cells_view(cells@),
                                stride as nat,
                            );
                            lemma_value_cell::<T>(vals[i as int]);
                            assert(value_cells::<T>(vals)[i as int] == value_cell::<T>(
                                vals[i as int],
                            ));
                            assert(IndexValue::<T>::encoding(vals[i as int]) == cell@.subrange(
                                0,
                                inner as int,
                            ));
                        }
                    }
                }
                return None;
            },
        };
        let mut k: usize = inner;
        while k < stride
            invariant
                inner <= k <= stride,
                i < cells@.len(),
                cell@ == cells@[i as int]@,
                cell@.len() == stride,
                stride == value_stride(T::default_size()),
                inner == entry_size::<T>(T::default_size()),
                vector_ok(cells_view(cells@), stride as nat),
                vector_bytes(cells_view(cells@), stride as nat) == bytes@,
                forall|j: int| inner <= j < k ==> cell@[j] == 0,
            decreases stride - k,
        {
            if cell[k] != 0 {
                proof {
                    assert forall|vals: Seq<IndexValue<T::V>>|
                        vector_ok(
                            #[trigger] value_cells::<T>(vals),
                            value_stride(T::default_size()),
                        ) implies vector_bytes(
                        value_cells::<T>(vals),
                        value_stride(T::default_size()),
                    ) != bytes@ by {
                        if vector_bytes(value_cells::<T>(vals), stride as nat) == bytes@ {
                            lemma_vector_injective(
                                value_cells::<T>(vals),
                                cells_view(cells@),
                                stride as nat,
                            );
                            lemma_value_cell::<T>(vals[i as int]);
                            assert(value_cells::<T>(vals)[i as int] == value_cell::<T>(
                                vals[i as int],
                            ));
                        }
                    }
                }
                return None;
            }
            k += 1;
        }
        proof {
            lemma_value_cell::<T>(value@);
            assert(value_cell::<T>(value@) =~= cell@);
        }
        values.push(value);
        i += 1;
    }
    proof {
        let model = Seq::new(values@.len(), |i: int| values@[i]@);
        assert(value_cells::<T>(model) =~= cells_view(cells@));
    }
    Some(values)
}

} // verus!
