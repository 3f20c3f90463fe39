//! The byte form of a vector of values that all take the same number of
//! bytes: the values one after another, each in a cell of the size that an
//! element of a vector takes, and an 8-byte reference.

use crate::error::Error;
use crate::util::key::FixedKey;
use crate::util::persistable::Persistable;
use crate::util::sized::{
    element_size, lemma_round_up, vec_element_size, DefaultSizeMeasurable, SizeMeasurable,
};
use crate::util::text::filler;
use crate::util::vector::{
    cells_of, cells_view, decode_vector, encode_vector, lemma_vector_injective,
    lemma_vector_layout, vector_bytes, vector_ok,
};
use vstd::prelude::*;
use vstd::slice::slice_subrange;

verus! {

/// The cell of a value in a vector: its byte form, and zeroes up to the
/// size of an element.
pub open spec fn item_cell<T: FixedKey>(value: T::V) -> Seq<u8> {
    T::encoding(value) + filler(element_size::<T>() - T::default_size(), 0)
}

/// The cells of the values of a vector.
pub open spec fn item_cells<T: FixedKey>(values: Seq<T::V>) -> Seq<Seq<u8>> {
    Seq::new(values.len(), |i: int| item_cell::<T>(values[i]))
}

/// The values of a vector as mathematical values.
pub open spec fn item_views<T: View>(items: Seq<T>) -> Seq<T::V> {
    Seq::new(items.len(), |i: int| items[i]@)
}

/// The size of an element is not below the size of a value and less than
/// 8 bytes above it.
pub proof fn lemma_element_size<T: FixedKey>()
    ensures
        T::default_size() <= element_size::<T>() < T::default_size() + 8,
{
    lemma_round_up(T::default_size(), 8);
}

/// How the cell of a value is laid out.
pub proof fn lemma_item_cell<T: FixedKey>(value: T::V)
    ensures
        item_cell::<T>(value).len() == element_size::<T>(),
        item_cell::<T>(value).subrange(0, T::default_size() as int) == T::encoding(value),
        forall|i: int|
            T::default_size() <= i < element_size::<T>() ==> item_cell::<T>(value)[i] == 0,
{
    T::lemma_fixed_length(value);
    lemma_element_size::<T>();
    assert(item_cell::<T>(value).subrange(0, T::default_size() as int) =~= T::encoding(value));
}

/// The cells of values have the size of an element each, and tell the
/// values.
pub proof fn lemma_item_cells<T: FixedKey>(a: Seq<T::V>, b: Seq<T::V>)
    ensures
        cells_of(item_cells::<T>(a), element_size::<T>()),
        item_cells::<T>(a) == item_cells::<T>(b) ==> a == b,
{
    assert forall|i: int| 0 <= i < a.len() implies (#[trigger] item_cells::<T>(a)[i]).len()
        == element_size::<T>() by {
        lemma_item_cell::<T>(a[i]);
    }
    if item_cells::<T>(a) == item_cells::<T>(b) {
        assert(a.len() == item_cells::<T>(a).len());
        assert(b.len() == item_cells::<T>(b).len());
        assert forall|i: int| 0 <= i < a.len() implies a[i] == b[i] by {
            lemma_item_cell::<T>(a[i]);
            lemma_item_cell::<T>(b[i]);
            assert(item_cells::<T>(a)[i] == item_cell::<T>(a[i]));
            assert(item_cells::<T>(b)[i] == item_cell::<T>(b[i]));
            T::lemma_fixed_length(a[i]);
            T::lemma_fixed_length(b[i]);
            T::lemma_encoding_injective(a[i], b[i]);
        }
        assert(a =~= b);
    }
}

/// Vectors whose values have the same views are the same vector.
pub proof fn lemma_item_views<T: FixedKey>(a: Seq<T>, b: Seq<T>)
    requires
        item_views(a) == item_views(b),
    ensures
        a == b,
{
    assert(a.len() == item_views(a).len());
    assert(b.len() == item_views(b).len());
    assert forall|i: int| 0 <= i < a.len() implies a[i] == b[i] by {
        assert(item_views(a)[i] == a[i]@);
        assert(item_views(b)[i] == b[i]@);
        T::lemma_view_injective(a[i], b[i]);
    }
    assert(a =~= b);
}

/// Whether the values can make a vector: an element takes room, and the
/// count and the bytes fit the 32 bits of the reference.
pub open spec fn items_ok<T: FixedKey>(values: Seq<T::V>) -> bool {
    element_size::<T>() > 0 && vector_ok(item_cells::<T>(values), element_size::<T>())
}

/// The byte form of a vector of values.
pub open spec fn items_bytes<T: FixedKey>(values: Seq<T::V>) -> Seq<u8> {
    vector_bytes(item_cells::<T>(values), element_size::<T>())
}

/// The measured size of a vector is the length of its byte form.
pub proof fn lemma_items_size<T: FixedKey>(items: &Vec<T>)
    requires
        items_ok::<T>(item_views(items@)),
    ensures
        items.size() == items_bytes::<T>(item_views(items@)).len(),
{
    lemma_vector_layout(item_cells::<T>(item_views(items@)), element_size::<T>());
}

/// Returns the byte form of a vector of values.
pub fn encode_items<T: FixedKey>(items: &Vec<T>) -> (bytes: Vec<u8>)
    requires
        items_ok::<T>(item_views(items@)),
    ensures
        bytes@ == items_bytes::<T>(item_views(items@)),
{
    let ghost model = item_views(items@);
    let stride: usize = vec_element_size::<T>();
    let mut cells: Vec<Vec<u8>> = Vec::new();
    let mut i: usize = 0;
    while i < items.len()
        invariant
            i <= items@.len(),
            stride == element_size::<T>(),
            model == item_views(items@),
            cells@.len() == i,
            forall|j: int| 0 <= j < i ==> (#[trigger] cells@[j])@ == item_cell::<T>(model[j]),
        decreases items@.len() - i,
    {
        proof {
            lemma_item_cell::<T>(model[i as int]);
            assert(model[i as int] == items@[i as int]@);
            T::lemma_fixed_length(model[i as int]);
        }
        let mut cell: Vec<u8> = items[i].as_bytes();
        let ghost start = cell@;
        let mut k: usize = cell.len();
        let first: usize = cell.len();
        while k < stride
            invariant
                first <= k <= stride,
                cell@ == start + filler(k - first, 0),
            decreases stride - k,
        {
            cell.push(0);
            k += 1;
            assert(cell@ =~= start + filler(k - first, 0));
        }
        cells.push(cell);
        i += 1;
    }
    proof {
        assert(cells_view(cells@) =~= item_cells::<T>(model));
    }
    encode_vector(&cells, stride)
}

/// Tells whether the bytes of the cell from `from` on are zeroes.
fn rest_is_zero(cell: &[u8], from: usize) -> (r: bool)
    requires
        from <= cell@.len(),
    ensures
        r == forall|i: int| from <= i < cell@.len() ==> cell@[i] == 0,
{
    let mut k: usize = from;
    while k < cell.len()
        invariant
            from <= k <= cell@.len(),
            forall|i: int| from <= i < k ==> cell@[i] == 0,
        decreases cell@.len() - k,
    {
        if cell[k] != 0 {
            return false;
        }
        k += 1;
    }
    true
}

/// Reads the value of a cell. Returns `None` if the cell is the cell of
/// no value.
fn read_item<T: FixedKey>(cell: &[u8]) -> (r: Option<T>)
    requires
        cell@.len() == element_size::<T>(),
    ensures
        match r {
            Some(value) => item_cell::<T>(value@) == cell@,
            None => forall|value: T::V| #[trigger] item_cell::<T>(value) != cell@,
        },
{
    let width: usize = T::default_aligned_size();
    let stride: usize = cell.len();
    proof {
        lemma_element_size::<T>();
        assert forall|value: T::V| #[trigger] item_cell::<T>(value) == cell@ implies {
            &&& cell@.subrange(0, width as int) == T::encoding(value)
            &&& T::storable(value)
            &&& forall|i: int| width <= i < stride ==> cell@[i] == 0
        } by {
            lemma_item_cell::<T>(value);
            T::lemma_fixed_length(value);
        }
    }
    if !rest_is_zero(cell, width) {
        return None;
    }
    match T::from_bytes(slice_subrange(cell, 0, width)) {
        Ok(value) => {
            proof {
                lemma_item_cell::<T>(value@);
                T::lemma_fixed_length(value@);
                assert(item_cell::<T>(value@) =~= cell@);
            }
            Some(value)
        },
        Err(_) => None,
    }
}

/// Returns the values of the vector whose byte form `bytes` is, or `None`
/// if it is the byte form of no vector of values.
pub fn decode_items<T: FixedKey>(bytes: &[u8]) -> (r: Option<Vec<T>>)
    ensures
        match r {
            Some(items) => items_ok::<T>(item_views(items@)) && items_bytes::<T>(
                item_views(items@),
            ) == bytes@,
            None => forall|values: Seq<T::V>|
                items_ok::<T>(values) ==> #[trigger] items_bytes::<T>(values) != bytes@,
        },
{
    let stride: usize = vec_element_size::<T>();
    if stride == 0 {
        return None;
    }
    let cells = match decode_vector(bytes, stride) {
        Some(cells) => cells,
        None => {
            proof {
                assert forall|values: Seq<T::V>| items_ok::<T>(values) implies #[trigger] items_bytes::<
                    T,
                >(values) != bytes@ by {
                    assert(vector_ok(item_cells::<T>(values), stride as nat));
                }
            }
            return None;
        },
    };
    let mut items: Vec<T> = Vec::new();
    let mut i: usize = 0;
    while i < cells.len()
        invariant
            i <= cells@.len(),
            stride == element_size::<T>(),
            stride > 0,
            vector_ok(cells_view(cells@), stride as nat),
            vector_bytes(cells_view(cells@), stride as nat) == bytes@,
            items@.len() == i,
            forall|j: int| 0 <= j < i ==> item_cell::<T>((#[trigger] items@[j])@) == cells@[j]@,
        decreases cells@.len() - i,
    {
        assert(cells_view(cells@)[i as int].len() == stride);
        match read_item::<T>(cells[i].as_slice()) {
            Some(item) => {
                items.push(item);
            },
            None => {
                proof {
                    assert forall|values: Seq<T::V>| items_ok::<T>(values) implies #[trigger] items_bytes::<
                        T,
                    >(values) != bytes@ by {
                        if items_bytes::<T>(values) == bytes@ {
                            lemma_vector_injective(
                                item_cells::<T>(values),
                                cells_view(cells@),
                                stride as nat,
                            );
                            assert(item_cells::<T>(values)[i as int] == item_cell::<T>(
                                values[i as int],
                            ));
                        }
                    }
                }
                return None;
            },
        }
        i += 1;
    }
    proof {
        assert(item_cells::<T>(item_views(items@)) =~= cells_view(cells@));
    }
    Some(items)
}

/// The byte form of a vector of values that all take the same number of
/// bytes.
impl<T: FixedKey> Persistable for Vec<T> {
    open spec fn storable(v: Seq<T>) -> bool {
        items_ok::<T>(item_views(v))
    }

    open spec fn encoding(v: Seq<T>) -> Seq<u8> {
        items_bytes::<T>(item_views(v))
    }

    proof fn lemma_encoding_injective(a: Seq<T>, b: Seq<T>) {
        lemma_vector_injective(
            item_cells::<T>(item_views(a)),
            item_cells::<T>(item_views(b)),
            element_size::<T>(),
        );
        lemma_item_cells::<T>(item_views(a), item_views(b));
        lemma_item_views::<T>(a, b);
    }

    fn is_storable(&self) -> (r: bool) {
        let stride: usize = vec_element_size::<T>();
        let length: usize = self.len();
        proof {
            lemma_item_cells::<T>(item_views(self@), item_views(self@));
            assert(0 <= length as nat * stride as nat <= 0xffff_ffff_ffff_ffff * 0x1_0000_0000)
                by (nonlinear_arith)
                requires
                    length <= 0xffff_ffff_ffff_ffff,
                    stride <= 0x1_0000_0000,
            ;
        }
        stride > 0 && length as u128 <= u32::MAX as u128 && length as u128 * stride as u128
            <= 0xffff_fff0
    }

    fn as_bytes(&self) -> (bytes: Vec<u8>) {
        encode_items::<T>(self)
    }

    fn from_bytes(bytes: &[u8]) -> (r: Result<Self, Error>) {
        match decode_items::<T>(bytes) {
            Some(items) => Ok(items),
            None => {
                proof {
                    assert forall|v: Seq<T>| Self::storable(v) implies #[trigger] Self::encoding(v)
                        != bytes@ by {
                        assert(items_ok::<T>(item_views(v)));
                    }
                }
                Err(Error::Decode)
            },
        }
    }
}

} // verus!
