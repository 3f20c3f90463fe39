//! Index pages: the nodes of a B-tree index as they lie on disk.

pub mod cells;
pub mod change_event;
pub mod in_file;
pub mod mappers;
pub mod new_page;
pub mod page;
pub mod page_bytes;
pub mod page_cdc_impl;
pub mod page_for_unsized;
pub mod page_for_unsized_cdc_impl;
pub mod table_bytes;
pub mod table_text_bytes;
pub mod table_of_contents_page;
pub mod unsized_bytes;
pub mod unsized_page_bytes;

use crate::error::Error;
use crate::link::{lemma_link_bytes_len, link_bytes, Link, LINK_LENGTH};
use crate::util::key::{entry_size, entry_unit, IndexKey};
use crate::util::persistable::Persistable;
use crate::util::sized::{
    align, align8, forces_eight, is_eight_aligned, lemma_round_up, lemma_round_up_least,
    round_up, DefaultSizeMeasurable, SizeMeasurable,
};
use crate::util::text::filler;
use vstd::prelude::*;
use vstd::slice::slice_subrange;

pub use change_event::ChangeEvent;
pub use mappers::map_tree_index;
pub use new_page::NewIndexPage;
pub use page::{IndexPage, IndexPageView};
pub use page_bytes::{get_index_page_size_from_data_length, IndexPageUtility};
pub use page_for_unsized::{UnsizedIndexPage, UnsizedIndexPageUtility};
pub use table_of_contents_page::TableOfContentsPage;

verus! {

/// An entry of an index: a key and the link to the row that has it.
#[derive(Clone, Debug, Default, PartialEq, Eq, Hash, PartialOrd, Ord)]
pub struct IndexValue<T> {
    pub key: T,
    pub link: Link,
}

impl<T: View> View for IndexValue<T> {
    type V = IndexValue<T::V>;

    open spec fn view(&self) -> IndexValue<T::V> {
        IndexValue { key: self.key@, link: self.link }
    }
}

/// The entry that marks an empty place: the zero key with the zero link.
pub open spec fn zero_value<T: IndexKey>() -> IndexValue<T::V> {
    IndexValue { key: T::zero(), link: Link::zero() }
}

impl<T: IndexKey> IndexValue<T> {
    /// Returns the entry that marks an empty place.
    pub fn zero() -> (r: Self)
        ensures
            r@ == zero_value::<T>(),
    {
        IndexValue { key: T::key_zero(), link: Link::default() }
    }

    /// Tells whether this is the entry that marks an empty place.
    pub fn is_zero(&self) -> (r: bool)
        ensures
            r == (self@ == zero_value::<T>()),
    {
        let zero_key = T::key_zero();
        self.key.key_eq(&zero_key) && self.link == Link::default()
    }

    /// Returns a copy of the entry.
    pub fn duplicate(&self) -> (r: Self)
        ensures
            r@ == self@,
    {
        IndexValue { key: self.key.key_clone(), link: self.link }
    }
}

impl<T: SizeMeasurable> SizeMeasurable for IndexValue<T> {
    open spec fn size(&self) -> nat {
        entry_size::<T>(self.key.size())
    }

    open spec fn alignment() -> Option<usize> {
        if forces_eight(T::alignment()) {
            Some(8usize)
        } else {
            None
        }
    }

    fn aligned_size(&self) -> (r: usize) {
        proof {
            lemma_round_up(self.key.size() + 12, 8);
            lemma_round_up(self.key.size() + 12, 4);
        }
        let sum: usize = self.key.aligned_size() + self.link.aligned_size();
        if is_eight_aligned(T::align()) {
            align8(sum)
        } else {
            align(sum)
        }
    }

    fn align() -> (r: Option<usize>) {
        if is_eight_aligned(T::align()) {
            Some(8)
        } else {
            None
        }
    }
}

/// The archived size of a vector of entries whose keys all take the same
/// number of bytes: the entries one after another, rounded up to a
/// multiple of 4, and an 8-byte reference.
impl<T: DefaultSizeMeasurable> SizeMeasurable for Vec<IndexValue<T>> {
    open spec fn size(&self) -> nat {
        round_up(self@.len() * entry_size::<T>(T::default_size()), 4) + 8
    }

    open spec fn alignment() -> Option<usize> {
        None
    }

    fn aligned_size(&self) -> (r: usize) {
        proof {
            T::lemma_default_size_fits();
            lemma_round_up(T::default_size() + 12, 8);
            lemma_round_up(T::default_size() + 12, 4);
        }
        let sum: usize = T::default_aligned_size() + LINK_LENGTH;
        let element: usize = if is_eight_aligned(T::align()) {
            align8(sum)
        } else {
            align(sum)
        };
        let length: usize = self.len();
        proof {
            lemma_round_up(length as nat * element as nat, 4);
            assert(length * element <= usize::MAX) by (nonlinear_arith)
                requires
                    length as nat * element as nat <= usize::MAX,
            ;
        }
        align(length * element) + 8
    }

    fn align() -> (r: Option<usize>) {
        None
    }
}

/// Where the link of an entry lies whose key has `key_size` bytes: behind
/// the key, at the next multiple of 4.
pub open spec fn link_place(key_size: nat) -> nat {
    round_up(key_size, 4)
}

/// The byte form of an entry: that of its key, zeroes up to a multiple of
/// 4, the 12 bytes of its link, and zeroes up to the size of the entry.
pub open spec fn entry_bytes<T: IndexKey>(v: IndexValue<T::V>) -> Seq<u8> {
    let key = T::encoding(v.key);
    key + filler(link_place(key.len()) - key.len(), 0) + link_bytes(v.link) + filler(
        entry_size::<T>(key.len()) - link_place(key.len()) - 12,
        0,
    )
}

/// How the byte form of an entry is laid out.
pub proof fn lemma_entry_layout<T: IndexKey>(v: IndexValue<T::V>)
    ensures
        entry_bytes::<T>(v).len() == entry_size::<T>(T::encoding(v.key).len()),
        T::encoding(v.key).len() + 12 <= entry_bytes::<T>(v).len() < T::encoding(v.key).len() + 12
            + entry_unit::<T>(),
        entry_bytes::<T>(v).len() % entry_unit::<T>() == 0,
        T::encoding(v.key).len() <= link_place(T::encoding(v.key).len()),
        link_place(T::encoding(v.key).len()) + 12 <= entry_bytes::<T>(v).len(),
        entry_bytes::<T>(v).subrange(0, T::encoding(v.key).len() as int) == T::encoding(v.key),
        entry_bytes::<T>(v).subrange(
            link_place(T::encoding(v.key).len()) as int,
            link_place(T::encoding(v.key).len()) as int + 12,
        ) == link_bytes(v.link),
        forall|i: int|
            T::encoding(v.key).len() <= i < link_place(T::encoding(v.key).len())
                ==> entry_bytes::<T>(v)[i] == 0,
        forall|i: int|
            link_place(T::encoding(v.key).len()) + 12 <= i < entry_bytes::<T>(v).len()
                ==> entry_bytes::<T>(v)[i] == 0,
{
    let key = T::encoding(v.key);
    let place = link_place(key.len());
    lemma_link_bytes_len(v.link);
    lemma_round_up(key.len() + 12, entry_unit::<T>());
    lemma_round_up(key.len(), 4);
    lemma_link_place::<T>(key.len());
    assert(entry_bytes::<T>(v).subrange(0, key.len() as int) =~= key);
    assert(entry_bytes::<T>(v).subrange(place as int, place as int + 12) =~= link_bytes(v.link));
}

/// The link of an entry ends inside the entry.
pub proof fn lemma_link_place<T: SizeMeasurable>(key_size: nat)
    ensures
        key_size <= link_place(key_size) < key_size + 4,
        link_place(key_size) % 4 == 0,
        link_place(key_size) + 12 <= entry_size::<T>(key_size),
{
    let unit = entry_unit::<T>();
    let total = entry_size::<T>(key_size);
    lemma_round_up(key_size, 4);
    lemma_round_up(key_size + 12, unit);
    lemma_whole_words(total, unit);
    lemma_round_up_least(key_size, 4, (total - 12) as nat);
}

/// A multiple of 4 or of 8 that is not below 12 is 12 more than a
/// multiple of 4.
proof fn lemma_whole_words(total: nat, unit: nat)
    requires
        unit == 4 || unit == 8,
        total % unit == 0,
        total >= 12,
    ensures
        (total - 12) % 4 == 0,
{
}

/// An entry of `total` bytes, a multiple of the entry's unit, holds a key
/// of `key_size` bytes if the key and the link leave less than a unit of
/// it.
pub proof fn lemma_entry_size<T: SizeMeasurable>(key_size: nat, total: nat)
    requires
        total % entry_unit::<T>() == 0,
        key_size + 12 <= total < key_size + 12 + entry_unit::<T>(),
    ensures
        entry_size::<T>(key_size) == total,
{
    lemma_round_up(key_size + 12, entry_unit::<T>());
    lemma_round_up_least(key_size + 12, entry_unit::<T>(), total);
}

impl<T: IndexKey> Persistable for IndexValue<T> {
    open spec fn storable(v: IndexValue<T::V>) -> bool {
        T::storable(v.key)
    }

    open spec fn encoding(v: IndexValue<T::V>) -> Seq<u8> {
        entry_bytes::<T>(v)
    }

    proof fn lemma_encoding_injective(a: IndexValue<T::V>, b: IndexValue<T::V>) {
        lemma_entry_layout::<T>(a);
        lemma_entry_layout::<T>(b);
        assert(Self::encoding(a) == entry_bytes::<T>(a));
        assert(Self::encoding(b) == entry_bytes::<T>(b));
        T::lemma_length_by_entry(a.key, b.key);
        T::lemma_encoding_injective(a.key, b.key);
        Link::lemma_encoding_injective(a.link, b.link);
    }

    fn is_storable(&self) -> (r: bool) {
        self.key.is_storable()
    }

    fn as_bytes(&self) -> (bytes: Vec<u8>) {
        let mut bytes: Vec<u8> = self.key.as_bytes();
        let mut link: Vec<u8> = self.link.as_bytes();
        let ghost key = bytes@;
        let ghost place = link_place(key.len());
        proof {
            self.key.lemma_size_is_encoding_length();
            lemma_entry_layout::<T>(self@);
            lemma_link_bytes_len(self.link);
            lemma_link_place::<T>(key.len());
        }
        while bytes.len() % 4 != 0
            invariant
                key == T::encoding(self@.key),
                place == link_place(key.len()),
                key.len() <= bytes@.len() <= place,
                place % 4 == 0,
                place < key.len() + 4,
                key.len() <= u32::MAX,
                bytes@ == key + filler(bytes@.len() - key.len(), 0),
            decreases place - bytes@.len(),
        {
            bytes.push(0);
            assert(bytes@ =~= key + filler(bytes@.len() - key.len(), 0));
        }
        assert(bytes@.len() == place);
        bytes.append(&mut link);
        let unit: usize = if is_eight_aligned(T::align()) {
            8
        } else {
            4
        };
        let ghost head = key + filler(place - key.len(), 0) + link_bytes(self.link);
        assert(bytes@ =~= head + filler(0, 0));
        while bytes.len() % unit != 0
            invariant
                unit == entry_unit::<T>(),
                key == T::encoding(self@.key),
                place == link_place(key.len()),
                head == key + filler(place - key.len(), 0) + link_bytes(self.link),
                head.len() == place + 12,
                place + 12 <= bytes@.len() <= entry_size::<T>(key.len()),
                entry_size::<T>(key.len()) % (unit as nat) == 0,
                entry_size::<T>(key.len()) < key.len() + 12 + unit,
                key.len() <= u32::MAX,
                bytes@ == head + filler(bytes@.len() - place - 12, 0),
            decreases entry_size::<T>(key.len()) - bytes@.len(),
        {
            bytes.push(0);
            assert(bytes@ =~= head + filler(bytes@.len() - place - 12, 0));
        }
        proof {
            lemma_entry_size::<T>(key.len(), bytes@.len() as nat);
        }
        bytes
    }

    fn from_bytes(bytes: &[u8]) -> (r: Result<Self, Error>) {
        let unit: usize = if is_eight_aligned(T::align()) {
            8
        } else {
            4
        };
        let total: usize = bytes.len();
        proof {
            assert forall|v: IndexValue<T::V>| bytes@ == #[trigger] Self::encoding(v) implies total
                >= 12 && total % unit == 0 && total - T::encoding(v.key).len() - 12 >= 0 by {
                lemma_entry_layout::<T>(v);
            }
        }
        if total < LINK_LENGTH || total % unit != 0 {
            return Err(Error::Decode);
        }
        let mut spare: usize = 0;
        while spare < unit && spare + LINK_LENGTH <= total
            invariant
                spare <= unit,
                unit == entry_unit::<T>(),
                total == bytes@.len(),
                total >= 12,
                total % unit == 0,
                forall|v: IndexValue<T::V>|
                    Self::storable(v) && bytes@ == #[trigger] Self::encoding(v) ==> total
                        - T::encoding(v.key).len() - 12 >= spare,
            decreases unit - spare,
        {
            let split: usize = total - LINK_LENGTH - spare;
            if let Some(value) = Self::read_entry(bytes, split) {
                return Ok(value);
            }
            proof {
                assert forall|v: IndexValue<T::V>|
                    Self::storable(v) && bytes@ == #[trigger] Self::encoding(v) implies total
                    - T::encoding(v.key).len() - 12 >= spare + 1 by {
                    lemma_entry_layout::<T>(v);
                    if T::encoding(v.key).len() == split {
                        assert(false);
                    }
                }
            }
            spare += 1;
        }
        proof {
            assert forall|v: IndexValue<T::V>| Self::storable(v) implies #[trigger] Self::encoding(v)
                != bytes@ by {
                if Self::encoding(v) == bytes@ {
                    lemma_entry_layout::<T>(v);
                }
            }
        }
        Err(Error::Decode)
    }
}

/// Tells whether the bytes from the place `from` up to the place `to` are
/// zeroes.
fn zeroes_between(bytes: &[u8], from: usize, to: usize) -> (r: bool)
    requires
        from <= to <= bytes@.len(),
    ensures
        r == forall|k: int| from <= k < to ==> bytes@[k] == 0,
{
    let mut i: usize = from;
    while i < to
        invariant
            from <= i <= to <= bytes@.len(),
            forall|k: int| from <= k < i ==> bytes@[k] == 0,
        decreases to - i,
    {
        if bytes[i] != 0 {
            return false;
        }
        i += 1;
    }
    true
}

impl<T: IndexKey> IndexValue<T> {
    /// Reads the entry whose key fills the first `split` of the bytes.
    /// Returns `None` if the bytes are the byte form of no such entry.
    fn read_entry(bytes: &[u8], split: usize) -> (r: Option<Self>)
        requires
            split + 12 <= bytes@.len() < split + 12 + entry_unit::<T>(),
            bytes@.len() % entry_unit::<T>() == 0,
        ensures
            match r {
                Some(value) => T::storable(value@.key) && entry_bytes::<T>(value@) == bytes@,
                None => forall|v: IndexValue<T::V>|
                    T::storable(v.key) && T::encoding(v.key).len() == split ==> #[trigger] entry_bytes::<
                        T,
                    >(v) != bytes@,
            },
    {
        let total: usize = bytes.len();
        proof {
            lemma_entry_size::<T>(split as nat, total as nat);
            lemma_link_place::<T>(split as nat);
            lemma_round_up(split as nat, 4);
        }
        let place: usize = align(split);
        proof {
            assert forall|v: IndexValue<T::V>|
                T::storable(v.key) && T::encoding(v.key).len() == split && #[trigger] entry_bytes::<
                    T,
                >(v) == bytes@ implies {
                &&& bytes@.subrange(0, split as int) == T::encoding(v.key)
                &&& bytes@.subrange(place as int, place + 12) == link_bytes(v.link)
                &&& forall|i: int| split <= i < place ==> bytes@[i] == 0
                &&& forall|i: int| place + 12 <= i < bytes@.len() ==> bytes@[i] == 0
            } by {
                lemma_entry_layout::<T>(v);
            }
        }
        if !zeroes_between(bytes, split, place) || !zeroes_between(bytes, place + LINK_LENGTH, total) {
            return None;
        }
        let key = match T::from_bytes(slice_subrange(bytes, 0, split)) {
            Ok(key) => key,
            Err(_) => {
                return None;
            },
        };
        let link = match Link::from_bytes(slice_subrange(bytes, place, place + LINK_LENGTH)) {
            Ok(link) => link,
            Err(_) => {
                proof {
                    assert forall|v: IndexValue<T::V>|
                        T::storable(v.key) && T::encoding(v.key).len() == split implies #[trigger] entry_bytes::<
                            T,
                        >(v) != bytes@ by {
                        if entry_bytes::<T>(v) == bytes@ {
                            assert(Link::encoding(v.link) == bytes@.subrange(
                                place as int,
                                place + 12,
                            ));
                        }
                    }
                }
                return None;
            },
        };
        let value = IndexValue { key, link };
        proof {
            lemma_entry_layout::<T>(value@);
            assert(entry_bytes::<T>(value@) =~= bytes@);
        }
        Some(value)
    }
}

/// The size of an entry with a key that has a byte form is the length of
/// the entry's byte form.
pub proof fn lemma_index_value_size<T: IndexKey>(value: &IndexValue<T>)
    requires
        T::storable(value.key@),
    ensures
        value.size() == IndexValue::<T>::encoding(value@).len(),
{
    value.key.lemma_size_is_encoding_length();
    lemma_entry_layout::<T>(value@);
}

} // verus!
