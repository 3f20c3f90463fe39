//! The byte form of an [`IndexPage`], written part by part, and where its
//! parts lie.
//!
//! | part | bytes |
//! |---|---|
//! | `size` | 2 |
//! | `node_id` | the size of a key |
//! | `current_index` | 2 |
//! | `current_length` | 2 |
//! | `slots` | 2 for each slot, rounded up to a multiple of 4, and 8 |
//! | `index_values` | a cell for each entry, and 8 |

use crate::error::Error;
use crate::link::LINK_LENGTH;
use crate::page::index::cells::{
    decode_slots, decode_values, encode_slots, encode_values, lemma_slot_cells, lemma_value_cell,
    lemma_value_cells, slot_cells, value_cell_size, value_cells, value_stride,
};
use crate::page::index::page::{IndexPage, IndexPageView};
use crate::page::index::IndexValue;
use crate::page::GENERAL_HEADER_SIZE;
use crate::util::key::FixedKey;
use crate::util::persistable::{lemma_u16_bytes, lemma_u16_of_bytes, Persistable};
use crate::util::sized::{align, lemma_round_up, round_up};
use crate::util::vector::{
    lemma_vector_injective, lemma_vector_layout, vector_bytes, vector_ok, vector_size,
};
use vstd::bytes::*;
use vstd::prelude::*;
use vstd::slice::slice_subrange;

verus! {

/// The head of an [`IndexPage`]: all of it but the entries. It is what has
/// to be read to find an entry, and what changes with every event.
#[derive(Clone, Debug, PartialEq, Eq, Hash, PartialOrd, Ord)]
pub struct IndexPageUtility<T> {
    pub size: u16,
    pub node_id: T,
    pub current_index: u16,
    pub current_length: u16,
    pub slots: Vec<u16>,
}

/// The head of an index page as a mathematical value.
pub struct IndexUtilityView<K> {
    pub size: u16,
    pub node_id: K,
    pub current_index: u16,
    pub current_length: u16,
    pub slots: Seq<u16>,
}

impl<T: View> View for IndexPageUtility<T> {
    type V = IndexUtilityView<T::V>;

    open spec fn view(&self) -> IndexUtilityView<T::V> {
        IndexUtilityView {
            size: self.size,
            node_id: self.node_id@,
            current_index: self.current_index,
            current_length: self.current_length,
            slots: self.slots@,
        }
    }
}

impl<K> IndexPageView<K> {
    /// The head of the page.
    pub open spec fn utility(self) -> IndexUtilityView<K> {
        IndexUtilityView {
            size: self.size,
            node_id: self.node_id,
            current_index: self.current_index,
            current_length: self.current_length,
            slots: self.slots,
        }
    }
}

/// The number of bytes of the head of a page with room for `size` entries.
pub open spec fn utility_size<T: FixedKey>(size: nat) -> nat {
    2 + T::default_size() + 2 + 2 + vector_size(size, 2)
}

/// The number of bytes of a page with room for `size` entries.
pub open spec fn page_size<T: FixedKey>(size: nat) -> nat {
    utility_size::<T>(size) + vector_size(size, value_stride(T::default_size()))
}

/// The byte form of the head of a page.
pub open spec fn utility_bytes<T: FixedKey>(u: IndexUtilityView<T::V>) -> Seq<u8> {
    spec_u16_to_le_bytes(u.size) + T::encoding(u.node_id) + spec_u16_to_le_bytes(u.current_index)
        + spec_u16_to_le_bytes(u.current_length) + vector_bytes(slot_cells(u.slots), 2)
}

/// The byte form of a page: its head, then its entries.
pub open spec fn page_bytes<T: FixedKey>(p: IndexPageView<T::V>) -> Seq<u8> {
    utility_bytes::<T>(p.utility()) + vector_bytes(
        value_cells::<T>(p.index_values),
        value_stride(T::default_size()),
    )
}

/// The number of bytes of a key of `T`.
pub open spec fn key_width<T: FixedKey>() -> int {
    T::default_size() as int
}

/// Whether `bytes` begin with `start`.
pub open spec fn starts_with(bytes: Seq<u8>, start: Seq<u8>) -> bool {
    start.len() <= bytes.len() && bytes.subrange(0, start.len() as int) == start
}

/// Where the parts of the head lie in bytes that begin with its byte form.
pub proof fn lemma_utility_layout<T: FixedKey>(u: IndexUtilityView<T::V>, bytes: Seq<u8>)
    requires
        u.slots.len() == u.size,
        starts_with(bytes, utility_bytes::<T>(u)),
    ensures
        utility_bytes::<T>(u).len() == utility_size::<T>(u.size as nat),
        bytes.subrange(0, 2) == spec_u16_to_le_bytes(u.size),
        bytes.subrange(2, 2 + key_width::<T>()) == T::encoding(u.node_id),
        bytes.subrange(2 + key_width::<T>(), 4 + key_width::<T>()) == spec_u16_to_le_bytes(
            u.current_index,
        ),
        bytes.subrange(4 + key_width::<T>(), 6 + key_width::<T>()) == spec_u16_to_le_bytes(
            u.current_length,
        ),
        bytes.subrange(6 + key_width::<T>(), utility_size::<T>(u.size as nat) as int)
            == vector_bytes(slot_cells(u.slots), 2),
        vector_ok(slot_cells(u.slots), 2),
{
    let k = T::default_size() as int;
    let e = utility_bytes::<T>(u);
    lemma_u16_bytes(u.size);
    lemma_u16_bytes(u.current_index);
    lemma_u16_bytes(u.current_length);
    T::lemma_fixed_length(u.node_id);
    lemma_slot_cells(u.slots, u.slots);
    assert(slot_cells(u.slots).len() == u.size);
    assert(slot_cells(u.slots).len() * 2 <= 0xffff_fff0);
    lemma_vector_layout(slot_cells(u.slots), 2);
    let v = vector_bytes(slot_cells(u.slots), 2);
    assert(e.len() == 6 + k + v.len());
    assert(e.subrange(0, 2) =~= spec_u16_to_le_bytes(u.size));
    assert(e.subrange(2, 2 + k) =~= T::encoding(u.node_id));
    assert(e.subrange(2 + k, 4 + k) =~= spec_u16_to_le_bytes(u.current_index));
    assert(e.subrange(4 + k, 6 + k) =~= spec_u16_to_le_bytes(u.current_length));
    assert(e.subrange(6 + k, e.len() as int) =~= v);
    assert(bytes.subrange(0, 2) =~= e.subrange(0, 2));
    assert(bytes.subrange(2, 2 + k) =~= e.subrange(2, 2 + k));
    assert(bytes.subrange(2 + k, 4 + k) =~= e.subrange(2 + k, 4 + k));
    assert(bytes.subrange(4 + k, 6 + k) =~= e.subrange(4 + k, 6 + k));
    assert(bytes.subrange(6 + k, e.len() as int) =~= e.subrange(6 + k, e.len() as int));
}

/// Bytes begin with the byte form of at most one head.
pub proof fn lemma_utility_unique<T: FixedKey>(
    a: IndexUtilityView<T::V>,
    b: IndexUtilityView<T::V>,
    bytes: Seq<u8>,
)
    requires
        a.slots.len() == a.size,
        b.slots.len() == b.size,
        starts_with(bytes, utility_bytes::<T>(a)),
        starts_with(bytes, utility_bytes::<T>(b)),
    ensures
        a == b,
{
    lemma_utility_layout::<T>(a, bytes);
    lemma_utility_layout::<T>(b, bytes);
    lemma_u16_bytes(a.size);
    lemma_u16_bytes(b.size);
    lemma_u16_bytes(a.current_index);
    lemma_u16_bytes(b.current_index);
    lemma_u16_bytes(a.current_length);
    lemma_u16_bytes(b.current_length);
    assert(a.size == b.size);
    T::lemma_fixed_length(a.node_id);
    T::lemma_fixed_length(b.node_id);
    T::lemma_encoding_injective(a.node_id, b.node_id);
    assert(a.current_index == b.current_index);
    assert(a.current_length == b.current_length);
    lemma_vector_injective(slot_cells(a.slots), slot_cells(b.slots), 2);
    lemma_slot_cells(a.slots, b.slots);
}

/// Whether a page has a byte form: both tables have `size` places, and
/// the cells of the entries fit the 32 bits of their reference.
pub open spec fn page_storable<T: FixedKey>(p: IndexPageView<T::V>) -> bool {
    &&& p.slots.len() == p.size
    &&& p.index_values.len() == p.size
    &&& p.size * value_stride(T::default_size()) <= 0xffff_fff0
}

/// The byte form of a page has the size that the page's room gives, begins
/// with the head, and holds the entries behind it.
pub proof fn lemma_page_layout<T: FixedKey>(p: IndexPageView<T::V>)
    requires
        page_storable::<T>(p),
    ensures
        page_bytes::<T>(p).len() == page_size::<T>(p.size as nat),
        starts_with(page_bytes::<T>(p), utility_bytes::<T>(p.utility())),
        page_bytes::<T>(p).subrange(
            utility_size::<T>(p.size as nat) as int,
            page_bytes::<T>(p).len() as int,
        ) == vector_bytes(value_cells::<T>(p.index_values), value_stride(T::default_size())),
        vector_ok(value_cells::<T>(p.index_values), value_stride(T::default_size())),
{
    let u = utility_bytes::<T>(p.utility());
    let v = vector_bytes(value_cells::<T>(p.index_values), value_stride(T::default_size()));
    let e = page_bytes::<T>(p);
    assert(e.subrange(0, u.len() as int) =~= u);
    lemma_utility_layout::<T>(p.utility(), e);
    lemma_value_cells::<T>(p.index_values, p.index_values);
    assert(value_cells::<T>(p.index_values).len() == p.size);
    lemma_vector_layout(value_cells::<T>(p.index_values), value_stride(T::default_size()));
    assert(e.subrange(u.len() as int, e.len() as int) =~= v);
}

/// Reads the head that `bytes` begin with. Returns it with the number of
/// its bytes, or `None` if the bytes begin with the byte form of no head.
pub fn parse_utility<T: FixedKey>(bytes: &[u8]) -> (r: Option<(IndexPageUtility<T>, usize)>)
    ensures
        match r {
            Some((utility, used)) => {
                &&& utility@.slots.len() == utility@.size
                &&& used == utility_size::<T>(utility.size as nat)
                &&& starts_with(bytes@, utility_bytes::<T>(utility@))
            },
            None => forall|u: IndexUtilityView<T::V>|
                u.slots.len() == u.size ==> !starts_with(bytes@, #[trigger] utility_bytes::<T>(u)),
        },
{
    let key_size: usize = T::default_aligned_size();
    proof {
        T::lemma_default_size_fits();
    }
    if bytes.len() < 6 + key_size {
        proof {
            assert forall|u: IndexUtilityView<T::V>| u.slots.len() == u.size implies !starts_with(
                bytes@,
                #[trigger] utility_bytes::<T>(u),
            ) by {
                if starts_with(bytes@, utility_bytes::<T>(u)) {
                    lemma_utility_layout::<T>(u, bytes@);
                }
            }
        }
        return None;
    }
    let size: u16 = u16_from_le_bytes(slice_subrange(bytes, 0, 2));
    proof {
        lemma_u16_of_bytes(bytes@.subrange(0, 2));
        lemma_round_up(size as nat * 2, 4);
    }
    let slots_part: usize = align(size as usize * 2) + 8;
    let used: usize = 6 + key_size + slots_part;
    if bytes.len() < used {
        proof {
            assert forall|u: IndexUtilityView<T::V>| u.slots.len() == u.size implies !starts_with(
                bytes@,
                #[trigger] utility_bytes::<T>(u),
            ) by {
                if starts_with(bytes@, utility_bytes::<T>(u)) {
                    lemma_utility_layout::<T>(u, bytes@);
                    lemma_u16_bytes(u.size);
                }
            }
        }
        return None;
    }
    let node_id = match T::from_bytes(slice_subrange(bytes, 2, 2 + key_size)) {
        Ok(node_id) => node_id,
        Err(_) => {
            proof {
                assert forall|u: IndexUtilityView<T::V>|
                    u.slots.len() == u.size implies !starts_with(
                    bytes@,
                    #[trigger] utility_bytes::<T>(u),
                ) by {
                    if starts_with(bytes@, utility_bytes::<T>(u)) {
                        lemma_utility_layout::<T>(u, bytes@);
                        T::lemma_fixed_length(u.node_id);
                    }
                }
            }
            return None;
        },
    };
    let current_index: u16 = u16_from_le_bytes(slice_subrange(bytes, 2 + key_size, 4 + key_size));
    let current_length: u16 = u16_from_le_bytes(
        slice_subrange(bytes, 4 + key_size, 6 + key_size),
    );
    let slots = match decode_slots(slice_subrange(bytes, 6 + key_size, used)) {
        Some(slots) => slots,
        None => {
            proof {
                assert forall|u: IndexUtilityView<T::V>|
                    u.slots.len() == u.size implies !starts_with(
                    bytes@,
                    #[trigger] utility_bytes::<T>(u),
                ) by {
                    if starts_with(bytes@, utility_bytes::<T>(u)) {
                        lemma_utility_layout::<T>(u, bytes@);
                        lemma_u16_bytes(u.size);
                        assert(u.size == size);
                    }
                }
            }
            return None;
        },
    };
    proof {
        lemma_slot_cells(slots@, slots@);
        lemma_vector_layout(slot_cells(slots@), 2);
        lemma_round_up(slots@.len() * 2, 4);
    }
    if slots.len() != size as usize {
        proof {
            assert forall|u: IndexUtilityView<T::V>| u.slots.len() == u.size implies !starts_with(
                bytes@,
                #[trigger] utility_bytes::<T>(u),
            ) by {
                if starts_with(bytes@, utility_bytes::<T>(u)) {
                    lemma_utility_layout::<T>(u, bytes@);
                    lemma_u16_bytes(u.size);
                    assert(u.size == size);
                    lemma_vector_injective(slot_cells(u.slots), slot_cells(slots@), 2);
                    lemma_slot_cells(u.slots, slots@);
                }
            }
        }
        return None;
    }
    let utility = IndexPageUtility { size, node_id, current_index, current_length, slots };
    proof {
        lemma_u16_of_bytes(bytes@.subrange(2 + key_size, 4 + key_size));
        lemma_u16_of_bytes(bytes@.subrange(4 + key_size, 6 + key_size));
        lemma_u16_bytes(size);
        lemma_u16_bytes(current_index);
        lemma_u16_bytes(current_length);
        T::lemma_fixed_length(node_id@);
        let e = utility_bytes::<T>(utility@);
        let k = key_size as int;
        assert(e.len() == used);
        assert(e =~= bytes@.subrange(0, 2) + bytes@.subrange(2, 2 + k) + bytes@.subrange(
            2 + k,
            4 + k,
        ) + bytes@.subrange(4 + k, 6 + k) + bytes@.subrange(6 + k, used as int));
        assert(bytes@.subrange(0, used as int) =~= e);
    }
    Some((utility, used))
}

impl<T: FixedKey> IndexPageUtility<T> {
    /// Returns the number of bytes of the field `size`.
    pub fn size_size() -> (r: usize)
        ensures
            r == 2,
    {
        2
    }

    /// Returns the number of bytes of the head of a page with room for
    /// `size` entries.
    pub fn persisted_size(size: usize) -> (r: usize)
        requires
            size <= u16::MAX,
        ensures
            r == utility_size::<T>(size as nat),
    {
        proof {
            T::lemma_default_size_fits();
            lemma_round_up(size as nat * 2, 4);
        }
        2 + T::default_aligned_size() + 2 + 2 + (align(size * 2) + 8)
    }
}

impl<T: FixedKey> Persistable for IndexPageUtility<T> {
    open spec fn storable(v: IndexUtilityView<T::V>) -> bool {
        v.slots.len() == v.size
    }

    open spec fn encoding(v: IndexUtilityView<T::V>) -> Seq<u8> {
        utility_bytes::<T>(v)
    }

    proof fn lemma_encoding_injective(a: IndexUtilityView<T::V>, b: IndexUtilityView<T::V>) {
        let e = utility_bytes::<T>(a);
        assert(e.subrange(0, e.len() as int) =~= e);
        lemma_utility_unique::<T>(a, b, e);
    }

    fn is_storable(&self) -> (r: bool) {
        self.slots.len() == self.size as usize
    }

    fn as_bytes(&self) -> (bytes: Vec<u8>) {
        proof {
            T::lemma_fixed_length(self.node_id@);
        }
        let mut bytes: Vec<u8> = u16_to_le_bytes(self.size);
        let mut part: Vec<u8> = self.node_id.as_bytes();
        bytes.append(&mut part);
        let mut part: Vec<u8> = u16_to_le_bytes(self.current_index);
        bytes.append(&mut part);
        let mut part: Vec<u8> = u16_to_le_bytes(self.current_length);
        bytes.append(&mut part);
        let mut part: Vec<u8> = encode_slots(&self.slots);
        bytes.append(&mut part);
        bytes
    }

    fn from_bytes(bytes: &[u8]) -> (r: Result<Self, Error>) {
        match parse_utility::<T>(bytes) {
            Some((utility, used)) => {
                if used != bytes.len() {
                    proof {
                        assert forall|v: IndexUtilityView<T::V>|
                            Self::storable(v) implies #[trigger] Self::encoding(v) != bytes@ by {
                            if Self::encoding(v) == bytes@ {
                                assert(bytes@.subrange(0, bytes@.len() as int) =~= bytes@);
                                lemma_utility_unique::<T>(v, utility@, bytes@);
                                lemma_utility_layout::<T>(v, bytes@);
                            }
                        }
                    }
                    return Err(Error::Decode);
                }
                proof {
                    lemma_utility_layout::<T>(utility@, bytes@);
                    assert(bytes@.subrange(0, used as int) =~= bytes@);
                }
                Ok(utility)
            },
            None => {
                proof {
                    assert forall|v: IndexUtilityView<T::V>|
                        Self::storable(v) implies #[trigger] Self::encoding(v) != bytes@ by {
                        if Self::encoding(v) == bytes@ {
                            assert(bytes@.subrange(0, bytes@.len() as int) =~= bytes@);
                            assert(starts_with(bytes@, utility_bytes::<T>(v)));
                        }
                    }
                }
                Err(Error::Decode)
            },
        }
    }
}

impl<T: FixedKey> IndexPage<T> {
    /// Returns the number of bytes of the field `size`.
    pub fn size_size() -> (r: usize)
        ensures
            r == 2,
    {
        2
    }

    /// Returns the number of bytes of the field `node_id`.
    pub fn node_id_size() -> (r: usize)
        ensures
            r == T::default_size(),
    {
        T::default_aligned_size()
    }

    /// Returns the number of bytes of the field `current_index`.
    pub fn current_index_size() -> (r: usize)
        ensures
            r == 2,
    {
        2
    }

    /// Returns the number of bytes of the field `current_length`.
    pub fn current_length_size() -> (r: usize)
        ensures
            r == 2,
    {
        2
    }

    /// Returns the number of bytes of one slot.
    pub fn slots_value_size() -> (r: usize)
        ensures
            r == 2,
    {
        2
    }

    /// Returns the number of bytes of the vector of `length` slots.
    pub fn slots_size(length: usize) -> (r: usize)
        requires
            length <= u16::MAX,
        ensures
            r == vector_size(length as nat, 2),
    {
        proof {
            lemma_round_up(length as nat * 2, 4);
        }
        align(length * 2) + 8
    }

    /// Returns the number of bytes of the cell of one entry.
    pub fn index_values_value_size() -> (r: usize)
        ensures
            r == value_stride(T::default_size()),
    {
        value_cell_size::<T>()
    }

    /// Returns the number of bytes of the vector of `length` entries.
    pub fn index_values_size(length: usize) -> (r: usize)
        requires
            length <= u16::MAX,
            length * value_stride(T::default_size()) <= 0xffff_fff0,
        ensures
            r == vector_size(length as nat, value_stride(T::default_size())),
    {
        let stride: usize = value_cell_size::<T>();
        proof {
            lemma_round_up(length as nat * stride as nat, 4);
            assert(length * stride <= usize::MAX) by (nonlinear_arith)
                requires
                    length as nat * stride as nat <= 0xffff_fff0,
            ;
        }
        align(length * stride) + 8
    }

    /// Returns the number of bytes of a page with room for `size` entries.
    pub fn persisted_size(size: usize) -> (r: u64)
        requires
            size <= u16::MAX,
            size * value_stride(T::default_size()) <= 0xffff_fff0,
        ensures
            r == page_size::<T>(size as nat),
    {
        proof {
            T::lemma_default_size_fits();
            lemma_round_up(size as nat * 2, 4);
            lemma_round_up(size as nat * value_stride(T::default_size()), 4);
        }
        IndexPageUtility::<T>::persisted_size(size) as u64 + Self::index_values_size(size) as u64
    }

    /// Returns the place, counted from the start of the page in the file,
    /// of the cell of the entry `value_index` in a page with room for
    /// `size` entries.
    pub fn get_value_offset(size: usize, value_index: usize) -> (offset: u64)
        requires
            value_index < size <= u16::MAX,
        ensures
            offset == GENERAL_HEADER_SIZE + utility_size::<T>(size as nat) + value_index
                * value_stride(T::default_size()),
    {
        let stride: usize = value_cell_size::<T>();
        let mut offset: u64 = GENERAL_HEADER_SIZE as u64;
        offset += Self::size_size() as u64;
        offset += Self::node_id_size() as u64;
        offset += Self::current_index_size() as u64;
        offset += Self::current_length_size() as u64;
        offset += Self::slots_size(size) as u64;
        assert(value_index * stride <= 0x1_0000 * 0x2_0000) by (nonlinear_arith)
            requires
                value_index <= 0x1_0000,
                stride <= 0x2_0000,
        ;
        offset += value_index as u64 * stride as u64;
        offset
    }
}

/// The byte form of a page is unique to it.
pub proof fn lemma_page_unique<T: FixedKey>(a: IndexPageView<T::V>, b: IndexPageView<T::V>)
    requires
        page_storable::<T>(a),
        page_storable::<T>(b),
        page_bytes::<T>(a) == page_bytes::<T>(b),
    ensures
        a == b,
{
    lemma_page_layout::<T>(a);
    lemma_page_layout::<T>(b);
    let e = page_bytes::<T>(a);
    lemma_utility_unique::<T>(a.utility(), b.utility(), e);
    lemma_vector_injective(
        value_cells::<T>(a.index_values),
        value_cells::<T>(b.index_values),
        value_stride(T::default_size()),
    );
    lemma_value_cells::<T>(a.index_values, b.index_values);
}

/// The cell of the entry `index` lies in the byte form of the page where
/// `get_value_offset` says, less the header of the page in the file.
pub proof fn lemma_value_place<T: FixedKey>(p: IndexPageView<T::V>, index: int)
    requires
        page_storable::<T>(p),
        0 <= index < p.size,
    ensures
        ({
            let stride = value_stride(T::default_size()) as int;
            let start = utility_size::<T>(p.size as nat) + index * stride;
            &&& 0 <= start
            &&& start + stride <= page_bytes::<T>(p).len()
            &&& page_bytes::<T>(p).subrange(start, start + stride) == value_cells::<T>(
                p.index_values,
            )[index]
        }),
{
    let stride = value_stride(T::default_size());
    let cells = value_cells::<T>(p.index_values);
    lemma_page_layout::<T>(p);
    lemma_vector_layout(cells, stride);
    crate::util::vector::lemma_joined(cells, stride);
    lemma_round_up(cells.len() * stride, 4);
    let e = page_bytes::<T>(p);
    let base = utility_size::<T>(p.size as nat) as int;
    let v = vector_bytes(cells, stride);
    assert((index + 1) * stride == index * stride + stride) by (nonlinear_arith);
    assert((index + 1) * stride <= cells.len() * stride) by (nonlinear_arith)
        requires
            index + 1 <= cells.len(),
    ;
    assert(0 <= index * stride) by (nonlinear_arith)
        requires
            0 <= index,
    ;
    let body = v.subrange(0, (cells.len() * stride) as int);
    assert(body.subrange(index * stride, (index + 1) * stride) == cells[index]);
    assert(e.subrange(base + index * stride, base + index * stride + stride)
        =~= body.subrange(index * stride, (index + 1) * stride));
}

impl<T: FixedKey> Persistable for IndexPage<T> {
    open spec fn storable(v: IndexPageView<T::V>) -> bool {
        page_storable::<T>(v)
    }

    open spec fn encoding(v: IndexPageView<T::V>) -> Seq<u8> {
        page_bytes::<T>(v)
    }

    proof fn lemma_encoding_injective(a: IndexPageView<T::V>, b: IndexPageView<T::V>) {
        lemma_page_unique::<T>(a, b);
    }

    fn is_storable(&self) -> (r: bool) {
        let stride: usize = value_cell_size::<T>();
        let size: usize = self.size as usize;
        assert(size * stride <= 0x1_0000 * 0x2_0000) by (nonlinear_arith)
            requires
                size <= 0x1_0000,
                stride <= 0x2_0000,
        ;
        self.slots.len() == size && self.index_values.len() == size && size as u64
            * stride as u64 <= 0xffff_fff0
    }

    fn as_bytes(&self) -> (bytes: Vec<u8>) {
        proof {
            T::lemma_fixed_length(self.node_id@);
        }
        let mut bytes: Vec<u8> = u16_to_le_bytes(self.size);
        let mut part: Vec<u8> = self.node_id.as_bytes();
        bytes.append(&mut part);
        let mut part: Vec<u8> = u16_to_le_bytes(self.current_index);
        bytes.append(&mut part);
        let mut part: Vec<u8> = u16_to_le_bytes(self.current_length);
        bytes.append(&mut part);
        let mut part: Vec<u8> = encode_slots(&self.slots);
        bytes.append(&mut part);
        let mut part: Vec<u8> = encode_values::<T>(&self.index_values);
        bytes.append(&mut part);
        bytes
    }

    fn from_bytes(bytes: &[u8]) -> (r: Result<Self, Error>) {
        proof {
            assert forall|v: IndexPageView<T::V>|
                Self::storable(v) && bytes@ == #[trigger] Self::encoding(v) implies {
                &&& starts_with(bytes@, utility_bytes::<T>(v.utility()))
                &&& v.utility().slots.len() == v.utility().size
            } by {
                lemma_page_layout::<T>(v);
            }
        }
        let (utility, used) = match parse_utility::<T>(bytes) {
            Some(parsed) => parsed,
            None => {
                return Err(Error::Decode);
            },
        };
        proof {
            lemma_utility_layout::<T>(utility@, bytes@);
        }
        let values = match decode_values::<T>(slice_subrange(bytes, used, bytes.len())) {
            Some(values) => values,
            None => {
                proof {
                    assert forall|v: IndexPageView<T::V>|
                        Self::storable(v) implies #[trigger] Self::encoding(v) != bytes@ by {
                        if Self::encoding(v) == bytes@ {
                            lemma_page_layout::<T>(v);
                            lemma_utility_unique::<T>(v.utility(), utility@, bytes@);
                        }
                    }
                }
                return Err(Error::Decode);
            },
        };
        let ghost model = Seq::new(values@.len(), |i: int| values@[i]@);
        if values.len() != utility.size as usize {
            proof {
                assert forall|v: IndexPageView<T::V>|
                    Self::storable(v) implies #[trigger] Self::encoding(v) != bytes@ by {
                    if Self::encoding(v) == bytes@ {
                        lemma_page_layout::<T>(v);
                        lemma_utility_unique::<T>(v.utility(), utility@, bytes@);
                        lemma_vector_injective(
                            value_cells::<T>(v.index_values),
                            value_cells::<T>(model),
                            value_stride(T::default_size()),
                        );
                        lemma_value_cells::<T>(v.index_values, model);
                    }
                }
            }
            return Err(Error::Decode);
        }
        let page = IndexPage {
            size: utility.size,
            node_id: utility.node_id,
            current_index: utility.current_index,
            current_length: utility.current_length,
            slots: utility.slots,
            index_values: values,
        };
        proof {
            assert(page@.index_values =~= model);
            assert(page@.utility() == utility@);
            lemma_utility_layout::<T>(utility@, bytes@);
            lemma_value_cells::<T>(model, model);
            assert(page_bytes::<T>(page@) =~= bytes@);
        }
        Ok(page)
    }
}

/// The number of entries that a page of `length` bytes has room for: what
/// is left of the page once the head of a page without slots and the
/// reference of the entries are taken off, shared out among the slots of
/// 2 bytes and the cells of the entries.
pub open spec fn room<T: FixedKey>(length: nat) -> int {
    (length - T::default_size() - 2 - 2 - 2 - 8 - 8) / (2 + value_stride(T::default_size())) as int
}

/// Returns the number of entries that a page of `length` bytes has room
/// for.
pub fn get_index_page_size_from_data_length<T: FixedKey>(length: usize) -> (size: usize)
    requires
        length >= T::default_size() + 22,
    ensures
        size == room::<T>(length as nat),
{
    let size_field_size: usize = IndexPage::<T>::size_size();
    let node_id_size: usize = IndexPage::<T>::node_id_size();
    let current_index_size: usize = IndexPage::<T>::current_index_size();
    let current_length_size: usize = IndexPage::<T>::current_length_size();
    let slot_size: usize = IndexPage::<T>::slots_value_size();
    let index_value_size: usize = IndexPage::<T>::index_values_value_size();
    let slots_vec_size: usize = 8;
    let index_values_vec_size: usize = 8;
    proof {
        T::lemma_default_size_fits();
        lemma_round_up(T::default_size() + LINK_LENGTH as nat, 8);
    }
    (length - node_id_size - size_field_size - current_index_size - current_length_size
        - slots_vec_size - index_values_vec_size) / (slot_size + index_value_size)
}

} // verus!
