//! The keys of an index: ordered values with a measured byte form.

use crate::error::Error;
use crate::link::{lemma_link_layout, link_bytes, link_le, Link};
use crate::util::persistable::{
    lemma_u16_bytes, lemma_u32_bytes, lemma_u32_of_bytes, lemma_u64_bytes, lemma_u64_of_bytes,
    Persistable,
};
use vstd::slice::slice_subrange;
use crate::util::sized::{forces_eight, round_up, DefaultSizeMeasurable, SizeMeasurable};
use vstd::bytes::*;
use vstd::prelude::*;

verus! {

/// The multiple that the byte form of an entry with a key of `T` is rounded
/// up to: 8 where the key's type forces that, else 4.
pub open spec fn entry_unit<T: SizeMeasurable>() -> nat {
    if forces_eight(T::alignment()) {
        8
    } else {
        4
    }
}

/// The number of bytes of an entry whose key has `key_size` bytes: the key
/// and the 12 bytes of the link, rounded up to the entry's unit.
pub open spec fn entry_size<T: SizeMeasurable>(key_size: nat) -> nat {
    round_up(key_size + 12, entry_unit::<T>())
}

/// A value that can be the key of an index: it has a byte form whose
/// length it can tell beforehand, a total order, and a zero value that
/// marks an empty place.
pub trait IndexKey: SizeMeasurable + Persistable {
    /// The order of the keys: `a` is not above `b`.
    spec fn le(a: Self::V, b: Self::V) -> bool;

    /// The zero value of the type.
    spec fn zero() -> Self::V;

    /// Of two keys one is not above the other.
    proof fn lemma_le_total(a: Self::V, b: Self::V)
        ensures
            Self::le(a, b) || Self::le(b, a),
    ;

    /// The order is transitive.
    proof fn lemma_le_transitive(a: Self::V, b: Self::V, c: Self::V)
        requires
            Self::le(a, b),
            Self::le(b, c),
        ensures
            Self::le(a, c),
    ;

    /// Two keys of which neither is above the other are the same key.
    proof fn lemma_le_antisymmetric(a: Self::V, b: Self::V)
        requires
            Self::le(a, b),
            Self::le(b, a),
        ensures
            a == b,
    ;

    /// The zero value has a byte form.
    proof fn lemma_zero_storable()
        ensures
            Self::storable(Self::zero()),
    ;

    /// The measured size of a key is the length of its byte form, which a
    /// 32-bit length holds.
    proof fn lemma_size_is_encoding_length(&self)
        requires
            Self::storable(self@),
        ensures
            self.size() == Self::encoding(self@).len(),
            self.size() <= u32::MAX,
    ;

    /// The length of a key's byte form can be told from the length of an
    /// entry that holds it: two keys whose entries are as long as each
    /// other have byte forms as long as each other.
    proof fn lemma_length_by_entry(a: Self::V, b: Self::V)
        requires
            Self::storable(a),
            Self::storable(b),
            entry_size::<Self>(Self::encoding(a).len()) == entry_size::<Self>(
                Self::encoding(b).len(),
            ),
        ensures
            Self::encoding(a).len() == Self::encoding(b).len(),
    ;

    /// Tells whether `self` is not above `other`.
    fn key_le(&self, other: &Self) -> (r: bool)
        ensures
            r == Self::le(self@, other@),
    ;

    /// Tells whether the two keys are the same.
    fn key_eq(&self, other: &Self) -> (r: bool)
        ensures
            r == (self@ == other@),
    ;

    /// Returns a copy of the key.
    fn key_clone(&self) -> (r: Self)
        ensures
            r@ == self@,
    ;

    /// Returns the zero value of the type.
    fn key_zero() -> (r: Self)
        ensures
            r@ == Self::zero(),
    ;
}

/// A key whose byte form has the same length for every value.
pub trait FixedKey: IndexKey + DefaultSizeMeasurable {
    /// Every value has a byte form, of the length that the type gives.
    proof fn lemma_fixed_length(v: Self::V)
        ensures
            Self::storable(v),
            Self::encoding(v).len() == Self::default_size(),
    ;

    /// Two keys with the same view are the same key.
    proof fn lemma_view_injective(a: Self, b: Self)
        requires
            a@ == b@,
        ensures
            a == b,
    ;
}

impl IndexKey for u8 {
    open spec fn le(a: u8, b: u8) -> bool {
        a <= b
    }

    open spec fn zero() -> u8 {
        0
    }

    proof fn lemma_le_total(a: u8, b: u8) {
    }

    proof fn lemma_le_transitive(a: u8, b: u8, c: u8) {
    }

    proof fn lemma_le_antisymmetric(a: u8, b: u8) {
    }

    proof fn lemma_zero_storable() {
    }

    proof fn lemma_size_is_encoding_length(&self) {
    }

    proof fn lemma_length_by_entry(a: u8, b: u8) {
    }

    fn key_le(&self, other: &Self) -> (r: bool) {
        *self <= *other
    }

    fn key_eq(&self, other: &Self) -> (r: bool) {
        *self == *other
    }

    fn key_clone(&self) -> (r: Self) {
        *self
    }

    fn key_zero() -> (r: Self) {
        0
    }
}

impl FixedKey for u8 {
    proof fn lemma_fixed_length(v: u8) {
    }

    proof fn lemma_view_injective(a: u8, b: u8) {
    }
}

impl IndexKey for u16 {
    open spec fn le(a: u16, b: u16) -> bool {
        a <= b
    }

    open spec fn zero() -> u16 {
        0
    }

    proof fn lemma_le_total(a: u16, b: u16) {
    }

    proof fn lemma_le_transitive(a: u16, b: u16, c: u16) {
    }

    proof fn lemma_le_antisymmetric(a: u16, b: u16) {
    }

    proof fn lemma_zero_storable() {
    }

    proof fn lemma_size_is_encoding_length(&self) {
        lemma_auto_spec_u16_to_from_le_bytes();
        assert(spec_u16_to_le_bytes(*self).len() == 2);
    }

    proof fn lemma_length_by_entry(a: u16, b: u16) {
        lemma_u16_bytes(a);
        lemma_u16_bytes(b);
    }

    fn key_le(&self, other: &Self) -> (r: bool) {
        *self <= *other
    }

    fn key_eq(&self, other: &Self) -> (r: bool) {
        *self == *other
    }

    fn key_clone(&self) -> (r: Self) {
        *self
    }

    fn key_zero() -> (r: Self) {
        0
    }
}

impl FixedKey for u16 {
    proof fn lemma_fixed_length(v: u16) {
        lemma_auto_spec_u16_to_from_le_bytes();
        assert(spec_u16_to_le_bytes(v).len() == 2);
    }

    proof fn lemma_view_injective(a: u16, b: u16) {
    }
}

impl IndexKey for u32 {
    open spec fn le(a: u32, b: u32) -> bool {
        a <= b
    }

    open spec fn zero() -> u32 {
        0
    }

    proof fn lemma_le_total(a: u32, b: u32) {
    }

    proof fn lemma_le_transitive(a: u32, b: u32, c: u32) {
    }

    proof fn lemma_le_antisymmetric(a: u32, b: u32) {
    }

    proof fn lemma_zero_storable() {
    }

    proof fn lemma_size_is_encoding_length(&self) {
        lemma_auto_spec_u32_to_from_le_bytes();
        assert(spec_u32_to_le_bytes(*self).len() == 4);
    }

    proof fn lemma_length_by_entry(a: u32, b: u32) {
        lemma_u32_bytes(a);
        lemma_u32_bytes(b);
    }

    fn key_le(&self, other: &Self) -> (r: bool) {
        *self <= *other
    }

    fn key_eq(&self, other: &Self) -> (r: bool) {
        *self == *other
    }

    fn key_clone(&self) -> (r: Self) {
        *self
    }

    fn key_zero() -> (r: Self) {
        0
    }
}

impl FixedKey for u32 {
    proof fn lemma_fixed_length(v: u32) {
        lemma_auto_spec_u32_to_from_le_bytes();
        assert(spec_u32_to_le_bytes(v).len() == 4);
    }

    proof fn lemma_view_injective(a: u32, b: u32) {
    }
}

impl IndexKey for u64 {
    open spec fn le(a: u64, b: u64) -> bool {
        a <= b
    }

    open spec fn zero() -> u64 {
        0
    }

    proof fn lemma_le_total(a: u64, b: u64) {
    }

    proof fn lemma_le_transitive(a: u64, b: u64, c: u64) {
    }

    proof fn lemma_le_antisymmetric(a: u64, b: u64) {
    }

    proof fn lemma_zero_storable() {
    }

    proof fn lemma_size_is_encoding_length(&self) {
        lemma_auto_spec_u64_to_from_le_bytes();
        assert(spec_u64_to_le_bytes(*self).len() == 8);
    }

    proof fn lemma_length_by_entry(a: u64, b: u64) {
        lemma_u64_bytes(a);
        lemma_u64_bytes(b);
    }

    fn key_le(&self, other: &Self) -> (r: bool) {
        *self <= *other
    }

    fn key_eq(&self, other: &Self) -> (r: bool) {
        *self == *other
    }

    fn key_clone(&self) -> (r: Self) {
        *self
    }

    fn key_zero() -> (r: Self) {
        0
    }
}

impl FixedKey for u64 {
    proof fn lemma_fixed_length(v: u64) {
        lemma_auto_spec_u64_to_from_le_bytes();
        assert(spec_u64_to_le_bytes(v).len() == 8);
    }

    proof fn lemma_view_injective(a: u64, b: u64) {
    }
}

/// The bits that spell a signed number of 32 bits in two's complement.
pub open spec fn bits_of_i32(v: i32) -> u32 {
    if v >= 0 {
        v as u32
    } else {
        (v + 0x1_0000_0000) as u32
    }
}

/// The signed number of 32 bits that the bits spell in two's complement.
pub open spec fn i32_of_bits(bits: u32) -> i32 {
    if bits < 0x8000_0000 {
        bits as i32
    } else {
        (bits - 0x1_0000_0000) as i32
    }
}

/// Returns the bits that spell the number in two's complement.
pub fn i32_to_bits(v: i32) -> (bits: u32)
    ensures
        bits == bits_of_i32(v),
        i32_of_bits(bits) == v,
{
    if v >= 0 {
        v as u32
    } else {
        ((v - i32::MIN) as u32) + 0x8000_0000
    }
}

/// Returns the number that the bits spell in two's complement.
pub fn i32_from_bits(bits: u32) -> (v: i32)
    ensures
        v == i32_of_bits(bits),
        bits_of_i32(v) == bits,
{
    if bits < 0x8000_0000 {
        bits as i32
    } else {
        (bits - 0x8000_0000) as i32 + i32::MIN
    }
}

/// The byte form of a signed number: its 4 bytes in two's complement, the
/// low byte first.
impl Persistable for i32 {
    open spec fn storable(v: i32) -> bool {
        true
    }

    open spec fn encoding(v: i32) -> Seq<u8> {
        spec_u32_to_le_bytes(bits_of_i32(v))
    }

    proof fn lemma_encoding_injective(a: i32, b: i32) {
        lemma_u32_bytes(bits_of_i32(a));
        lemma_u32_bytes(bits_of_i32(b));
        assert(Self::encoding(a) == spec_u32_to_le_bytes(bits_of_i32(a)));
        assert(Self::encoding(b) == spec_u32_to_le_bytes(bits_of_i32(b)));
        assert(bits_of_i32(a) == bits_of_i32(b));
    }

    fn is_storable(&self) -> (r: bool) {
        true
    }

    fn as_bytes(&self) -> (bytes: Vec<u8>) {
        u32_to_le_bytes(i32_to_bits(*self))
    }

    fn from_bytes(bytes: &[u8]) -> (r: Result<Self, Error>) {
        if bytes.len() != 4 {
            proof {
                assert forall|v: i32| Self::storable(v) implies #[trigger] Self::encoding(v)
                    != bytes@ by {
                    lemma_u32_bytes(bits_of_i32(v));
                }
            }
            return Err(Error::Decode);
        }
        proof {
            lemma_u32_of_bytes(bytes@);
        }
        Ok(i32_from_bits(u32_from_le_bytes(bytes)))
    }
}

impl IndexKey for i32 {
    open spec fn le(a: i32, b: i32) -> bool {
        a <= b
    }

    open spec fn zero() -> i32 {
        0
    }

    proof fn lemma_le_total(a: i32, b: i32) {
    }

    proof fn lemma_le_transitive(a: i32, b: i32, c: i32) {
    }

    proof fn lemma_le_antisymmetric(a: i32, b: i32) {
    }

    proof fn lemma_zero_storable() {
    }

    proof fn lemma_size_is_encoding_length(&self) {
        lemma_u32_bytes(bits_of_i32(*self));
    }

    proof fn lemma_length_by_entry(a: i32, b: i32) {
        lemma_u32_bytes(bits_of_i32(a));
        lemma_u32_bytes(bits_of_i32(b));
    }

    fn key_le(&self, other: &Self) -> (r: bool) {
        *self <= *other
    }

    fn key_eq(&self, other: &Self) -> (r: bool) {
        *self == *other
    }

    fn key_clone(&self) -> (r: Self) {
        *self
    }

    fn key_zero() -> (r: Self) {
        0
    }
}

impl FixedKey for i32 {
    proof fn lemma_fixed_length(v: i32) {
        lemma_u32_bytes(bits_of_i32(v));
    }

    proof fn lemma_view_injective(a: i32, b: i32) {
    }
}

/// The bits that spell a signed number of 64 bits in two's complement.
pub open spec fn bits_of_i64(v: i64) -> u64 {
    if v >= 0 {
        v as u64
    } else {
        (v + 0x1_0000_0000_0000_0000) as u64
    }
}

/// The signed number of 64 bits that the bits spell in two's complement.
pub open spec fn i64_of_bits(bits: u64) -> i64 {
    if bits < 0x8000_0000_0000_0000 {
        bits as i64
    } else {
        (bits - 0x1_0000_0000_0000_0000) as i64
    }
}

/// Returns the bits that spell the number in two's complement.
pub fn i64_to_bits(v: i64) -> (bits: u64)
    ensures
        bits == bits_of_i64(v),
        i64_of_bits(bits) == v,
{
    if v >= 0 {
        v as u64
    } else {
        ((v - i64::MIN) as u64) + 0x8000_0000_0000_0000
    }
}

/// Returns the number that the bits spell in two's complement.
pub fn i64_from_bits(bits: u64) -> (v: i64)
    ensures
        v == i64_of_bits(bits),
        bits_of_i64(v) == bits,
{
    if bits < 0x8000_0000_0000_0000 {
        bits as i64
    } else {
        (bits - 0x8000_0000_0000_0000) as i64 + i64::MIN
    }
}

/// The byte form of a signed number: its 8 bytes in two's complement, the
/// low byte first.
impl Persistable for i64 {
    open spec fn storable(v: i64) -> bool {
        true
    }

    open spec fn encoding(v: i64) -> Seq<u8> {
        spec_u64_to_le_bytes(bits_of_i64(v))
    }

    proof fn lemma_encoding_injective(a: i64, b: i64) {
        lemma_u64_bytes(bits_of_i64(a));
        lemma_u64_bytes(bits_of_i64(b));
        assert(Self::encoding(a) == spec_u64_to_le_bytes(bits_of_i64(a)));
        assert(Self::encoding(b) == spec_u64_to_le_bytes(bits_of_i64(b)));
        assert(bits_of_i64(a) == bits_of_i64(b));
    }

    fn is_storable(&self) -> (r: bool) {
        true
    }

    fn as_bytes(&self) -> (bytes: Vec<u8>) {
        u64_to_le_bytes(i64_to_bits(*self))
    }

    fn from_bytes(bytes: &[u8]) -> (r: Result<Self, Error>) {
        if bytes.len() != 8 {
            proof {
                assert forall|v: i64| Self::storable(v) implies #[trigger] Self::encoding(v)
                    != bytes@ by {
                    lemma_u64_bytes(bits_of_i64(v));
                }
            }
            return Err(Error::Decode);
        }
        proof {
            lemma_u64_of_bytes(bytes@);
        }
        Ok(i64_from_bits(u64_from_le_bytes(bytes)))
    }
}

impl IndexKey for i64 {
    open spec fn le(a: i64, b: i64) -> bool {
        a <= b
    }

    open spec fn zero() -> i64 {
        0
    }

    proof fn lemma_le_total(a: i64, b: i64) {
    }

    proof fn lemma_le_transitive(a: i64, b: i64, c: i64) {
    }

    proof fn lemma_le_antisymmetric(a: i64, b: i64) {
    }

    proof fn lemma_zero_storable() {
    }

    proof fn lemma_size_is_encoding_length(&self) {
        lemma_u64_bytes(bits_of_i64(*self));
    }

    proof fn lemma_length_by_entry(a: i64, b: i64) {
        lemma_u64_bytes(bits_of_i64(a));
        lemma_u64_bytes(bits_of_i64(b));
    }

    fn key_le(&self, other: &Self) -> (r: bool) {
        *self <= *other
    }

    fn key_eq(&self, other: &Self) -> (r: bool) {
        *self == *other
    }

    fn key_clone(&self) -> (r: Self) {
        *self
    }

    fn key_zero() -> (r: Self) {
        0
    }
}

impl FixedKey for i64 {
    proof fn lemma_fixed_length(v: i64) {
        lemma_u64_bytes(bits_of_i64(v));
    }

    proof fn lemma_view_injective(a: i64, b: i64) {
    }
}

impl DefaultSizeMeasurable for (u64, Link) {
    open spec fn default_size() -> nat {
        24
    }

    proof fn lemma_default_size(&self) {
    }

    proof fn lemma_default_size_fits() {
    }

    fn default_aligned_size() -> (r: usize) {
        24
    }
}

/// The byte form of a number with a link: the 8 bytes of the number, the
/// 12 of the link, and 4 zeroes.
impl Persistable for (u64, Link) {
    open spec fn storable(v: (u64, Link)) -> bool {
        true
    }

    open spec fn encoding(v: (u64, Link)) -> Seq<u8> {
        spec_u64_to_le_bytes(v.0) + link_bytes(v.1) + seq![0u8, 0u8, 0u8, 0u8]
    }

    proof fn lemma_encoding_injective(a: (u64, Link), b: (u64, Link)) {
        lemma_u64_bytes(a.0);
        lemma_u64_bytes(b.0);
        lemma_link_layout(a.1);
        lemma_link_layout(b.1);
        let ea = Self::encoding(a);
        let eb = Self::encoding(b);
        assert(ea.subrange(0, 8) =~= spec_u64_to_le_bytes(a.0));
        assert(eb.subrange(0, 8) =~= spec_u64_to_le_bytes(b.0));
        assert(ea.subrange(8, 20) =~= link_bytes(a.1));
        assert(eb.subrange(8, 20) =~= link_bytes(b.1));
        assert(a.0 == b.0);
        Link::lemma_encoding_injective(a.1, b.1);
    }

    fn is_storable(&self) -> (r: bool) {
        true
    }

    fn as_bytes(&self) -> (bytes: Vec<u8>) {
        let mut bytes: Vec<u8> = u64_to_le_bytes(self.0);
        let mut part: Vec<u8> = self.1.as_bytes();
        bytes.append(&mut part);
        bytes.push(0);
        bytes.push(0);
        bytes.push(0);
        bytes.push(0);
        assert(bytes@ =~= Self::encoding(self@));
        bytes
    }

    fn from_bytes(bytes: &[u8]) -> (r: Result<Self, Error>) {
        proof {
            assert forall|v: (u64, Link)| bytes@ == #[trigger] Self::encoding(v) implies {
                &&& bytes@.len() == 24
                &&& bytes@.subrange(8, 20) == link_bytes(v.1)
                &&& bytes@[20] == 0 && bytes@[21] == 0 && bytes@[22] == 0 && bytes@[23] == 0
            } by {
                lemma_u64_bytes(v.0);
                lemma_link_layout(v.1);
                assert(bytes@.subrange(8, 20) =~= link_bytes(v.1));
            }
        }
        if bytes.len() != 24 {
            return Err(Error::Decode);
        }
        if bytes[20] != 0 || bytes[21] != 0 || bytes[22] != 0 || bytes[23] != 0 {
            return Err(Error::Decode);
        }
        let number: u64 = u64_from_le_bytes(slice_subrange(bytes, 0, 8));
        let link = match Link::from_bytes(slice_subrange(bytes, 8, 20)) {
            Ok(link) => link,
            Err(_) => {
                proof {
                    assert forall|v: (u64, Link)| Self::storable(v) implies #[trigger] Self::encoding(
                        v,
                    ) != bytes@ by {
                        if Self::encoding(v) == bytes@ {
                            assert(Link::encoding(v.1) == bytes@.subrange(8, 20));
                        }
                    }
                }
                return Err(Error::Decode);
            },
        };
        proof {
            lemma_u64_of_bytes(bytes@.subrange(0, 8));
            lemma_u64_bytes(number);
            lemma_link_layout(link);
            assert(Self::encoding((number, link)) =~= bytes@);
        }
        Ok((number, link))
    }
}

impl IndexKey for (u64, Link) {
    open spec fn le(a: (u64, Link), b: (u64, Link)) -> bool {
        if a.0 != b.0 {
            a.0 < b.0
        } else {
            link_le(a.1, b.1)
        }
    }

    open spec fn zero() -> (u64, Link) {
        (0u64, Link::zero())
    }

    proof fn lemma_le_total(a: (u64, Link), b: (u64, Link)) {
    }

    proof fn lemma_le_transitive(a: (u64, Link), b: (u64, Link), c: (u64, Link)) {
    }

    proof fn lemma_le_antisymmetric(a: (u64, Link), b: (u64, Link)) {
    }

    proof fn lemma_zero_storable() {
    }

    proof fn lemma_size_is_encoding_length(&self) {
        lemma_u64_bytes(self.0);
        lemma_link_layout(self.1);
        crate::util::sized::lemma_round_up(20, 8);
    }

    proof fn lemma_length_by_entry(a: (u64, Link), b: (u64, Link)) {
        lemma_u64_bytes(a.0);
        lemma_u64_bytes(b.0);
        lemma_link_layout(a.1);
        lemma_link_layout(b.1);
    }

    fn key_le(&self, other: &Self) -> (r: bool) {
        if self.0 != other.0 {
            self.0 < other.0
        } else {
            self.1.key_le(&other.1)
        }
    }

    fn key_eq(&self, other: &Self) -> (r: bool) {
        self.0 == other.0 && self.1.key_eq(&other.1)
    }

    fn key_clone(&self) -> (r: Self) {
        (self.0, self.1)
    }

    fn key_zero() -> (r: Self) {
        (0, Link::key_zero())
    }
}

impl FixedKey for (u64, Link) {
    proof fn lemma_fixed_length(v: (u64, Link)) {
        lemma_u64_bytes(v.0);
        lemma_link_layout(v.1);
    }

    proof fn lemma_view_injective(a: (u64, Link), b: (u64, Link)) {
    }
}

} // verus!
