//! More keys of an index: the short and the wide whole numbers.

use crate::error::Error;
use crate::util::key::{FixedKey, IndexKey};
use crate::util::persistable::{
    lemma_u128_bytes, lemma_u128_of_bytes, lemma_u16_bytes, lemma_u16_of_bytes, Persistable,
};
use vstd::bytes::*;
use vstd::prelude::*;

verus! {

/// The bits that spell a signed number of 8 bits in two's complement.
pub open spec fn bits_of_i8(v: i8) -> u8 {
    if v >= 0 {
        v as u8
    } else {
        (v + 0x100) as u8
    }
}

/// The signed number of 8 bits that the bits spell in two's complement.
pub open spec fn i8_of_bits(bits: u8) -> i8 {
    if bits < 0x80 {
        bits as i8
    } else {
        (bits - (0x100)) as i8
    }
}

/// Returns the bits that spell the number in two's complement.
pub fn i8_to_bits(v: i8) -> (bits: u8)
    ensures
        bits == bits_of_i8(v),
        i8_of_bits(bits) == v,
{
    if v >= 0 {
        v as u8
    } else {
        ((v - i8::MIN) as u8) + 0x80
    }
}

/// Returns the number that the bits spell in two's complement.
pub fn i8_from_bits(bits: u8) -> (v: i8)
    ensures
        v == i8_of_bits(bits),
        bits_of_i8(v) == bits,
{
    if bits < 0x80 {
        bits as i8
    } else {
        (bits - 0x80) as i8 + i8::MIN
    }
}

/// The byte form of a signed number of 8 bits: its 1 byte in
/// two's complement, the low byte first.
impl Persistable for i8 {
    open spec fn storable(v: i8) -> bool {
        true
    }

    open spec fn encoding(v: i8) -> Seq<u8> {
        seq![bits_of_i8(v)]
    }

    proof fn lemma_encoding_injective(a: i8, b: i8) {
        assert(Self::encoding(a)[0] == bits_of_i8(a));
        assert(Self::encoding(b)[0] == bits_of_i8(b));
    }

    fn is_storable(&self) -> (r: bool) {
        true
    }

    fn as_bytes(&self) -> (bytes: Vec<u8>) {
        let mut bytes: Vec<u8> = Vec::new();
        bytes.push(i8_to_bits(*self));
        assert(bytes@ =~= seq![bits_of_i8(*self)]);
        bytes
    }

    fn from_bytes(bytes: &[u8]) -> (r: Result<Self, Error>) {
        if bytes.len() != 1 {
            return Err(Error::Decode);
        }
        let bits: u8 = bytes[0];
        assert(bytes@ =~= seq![bits]);
        Ok(i8_from_bits(bits))
    }
}

impl IndexKey for i8 {
    open spec fn le(a: i8, b: i8) -> bool {
        a <= b
    }

    open spec fn zero() -> i8 {
        0
    }

    proof fn lemma_le_total(a: i8, b: i8) {
    }

    proof fn lemma_le_transitive(a: i8, b: i8, c: i8) {
    }

    proof fn lemma_le_antisymmetric(a: i8, b: i8) {
    }

    proof fn lemma_zero_storable() {
    }

    proof fn lemma_size_is_encoding_length(&self) {
    }

    proof fn lemma_length_by_entry(a: i8, b: i8) {
    }

    fn key_le(&self, other: &Self) -> (r: bool) {
        *self <= *other
    }

    fn key_eq(&self, other: &Self) -> (r: bool) {
        *self == *other
    }

    fn key_clone(&self) -> (r: Self) {
        *self
    }

    fn key_zero() -> (r: Self) {
        0
    }
}

impl FixedKey for i8 {
    proof fn lemma_fixed_length(v: i8) {
    }

    proof fn lemma_view_injective(a: i8, b: i8) {
    }
}

/// The bits that spell a signed number of 16 bits in two's complement.
pub open spec fn bits_of_i16(v: i16) -> u16 {
    if v >= 0 {
        v as u16
    } else {
        (v + 0x1_0000) as u16
    }
}

/// The signed number of 16 bits that the bits spell in two's complement.
pub open spec fn i16_of_bits(bits: u16) -> i16 {
    if bits < 0x8000 {
        bits as i16
    } else {
        (bits - (0x1_0000)) as i16
    }
}

/// Returns the bits that spell the number in two's complement.
pub fn i16_to_bits(v: i16) -> (bits: u16)
    ensures
        bits == bits_of_i16(v),
        i16_of_bits(bits) == v,
{
    if v >= 0 {
        v as u16
    } else {
        ((v - i16::MIN) as u16) + 0x8000
    }
}

/// Returns the number that the bits spell in two's complement.
pub fn i16_from_bits(bits: u16) -> (v: i16)
    ensures
        v == i16_of_bits(bits),
        bits_of_i16(v) == bits,
{
    if bits < 0x8000 {
        bits as i16
    } else {
        (bits - 0x8000) as i16 + i16::MIN
    }
}

/// The byte form of a signed number of 16 bits: its 2 bytes in
/// two's complement, the low byte first.
impl Persistable for i16 {
    open spec fn storable(v: i16) -> bool {
        true
    }

    open spec fn encoding(v: i16) -> Seq<u8> {
        spec_u16_to_le_bytes(bits_of_i16(v))
    }

    proof fn lemma_encoding_injective(a: i16, b: i16) {
        lemma_u16_bytes(bits_of_i16(a));
        lemma_u16_bytes(bits_of_i16(b));
        assert(Self::encoding(a) == spec_u16_to_le_bytes(bits_of_i16(a)));
        assert(Self::encoding(b) == spec_u16_to_le_bytes(bits_of_i16(b)));
        assert(bits_of_i16(a) == bits_of_i16(b));
    }

    fn is_storable(&self) -> (r: bool) {
        true
    }

    fn as_bytes(&self) -> (bytes: Vec<u8>) {
        u16_to_le_bytes(i16_to_bits(*self))
    }

    fn from_bytes(bytes: &[u8]) -> (r: Result<Self, Error>) {
        if bytes.len() != 2 {
            proof {
                assert forall|v: i16| Self::storable(v) implies #[trigger] Self::encoding(v)
                    != bytes@ by {
                    lemma_u16_bytes(bits_of_i16(v));
                }
            }
            return Err(Error::Decode);
        }
        proof {
            lemma_u16_of_bytes(bytes@);
        }
        Ok(i16_from_bits(u16_from_le_bytes(bytes)))
    }
}

impl IndexKey for i16 {
    open spec fn le(a: i16, b: i16) -> bool {
        a <= b
    }

    open spec fn zero() -> i16 {
        0
    }

    proof fn lemma_le_total(a: i16, b: i16) {
    }

    proof fn lemma_le_transitive(a: i16, b: i16, c: i16) {
    }

    proof fn lemma_le_antisymmetric(a: i16, b: i16) {
    }

    proof fn lemma_zero_storable() {
    }

    proof fn lemma_size_is_encoding_length(&self) {
        lemma_u16_bytes(bits_of_i16(*self));
    }

    proof fn lemma_length_by_entry(a: i16, b: i16) {
        lemma_u16_bytes(bits_of_i16(a));
        lemma_u16_bytes(bits_of_i16(b));
    }

    fn key_le(&self, other: &Self) -> (r: bool) {
        *self <= *other
    }

    fn key_eq(&self, other: &Self) -> (r: bool) {
        *self == *other
    }

    fn key_clone(&self) -> (r: Self) {
        *self
    }

    fn key_zero() -> (r: Self) {
        0
    }
}

impl FixedKey for i16 {
    proof fn lemma_fixed_length(v: i16) {
        lemma_u16_bytes(bits_of_i16(v));
    }

    proof fn lemma_view_injective(a: i16, b: i16) {
    }
}

/// The bits that spell a signed number of 128 bits in two's complement.
pub open spec fn bits_of_i128(v: i128) -> u128 {
    if v >= 0 {
        v as u128
    } else {
        (v + u128::MAX + 1) as u128
    }
}

/// The signed number of 128 bits that the bits spell in two's complement.
pub open spec fn i128_of_bits(bits: u128) -> i128 {
    if bits < 0x8000_0000_0000_0000_0000_0000_0000_0000 {
        bits as i128
    } else {
        (bits - (u128::MAX + 1)) as i128
    }
}

/// Returns the bits that spell the number in two's complement.
pub fn i128_to_bits(v: i128) -> (bits: u128)
    ensures
        bits == bits_of_i128(v),
        i128_of_bits(bits) == v,
{
    if v >= 0 {
        v as u128
    } else {
        ((v - i128::MIN) as u128) + 0x8000_0000_0000_0000_0000_0000_0000_0000
    }
}

/// Returns the number that the bits spell in two's complement.
pub fn i128_from_bits(bits: u128) -> (v: i128)
    ensures
        v == i128_of_bits(bits),
        bits_of_i128(v) == bits,
{
    if bits < 0x8000_0000_0000_0000_0000_0000_0000_0000 {
        bits as i128
    } else {
        (bits - 0x8000_0000_0000_0000_0000_0000_0000_0000) as i128 + i128::MIN
    }
}

/// The byte form of a signed number of 128 bits: its 16 bytes in
/// two's complement, the low byte first.
impl Persistable for i128 {
    open spec fn storable(v: i128) -> bool {
        true
    }

    open spec fn encoding(v: i128) -> Seq<u8> {
        spec_u128_to_le_bytes(bits_of_i128(v))
    }

    proof fn lemma_encoding_injective(a: i128, b: i128) {
        lemma_u128_bytes(bits_of_i128(a));
        lemma_u128_bytes(bits_of_i128(b));
        assert(Self::encoding(a) == spec_u128_to_le_bytes(bits_of_i128(a)));
        assert(Self::encoding(b) == spec_u128_to_le_bytes(bits_of_i128(b)));
        assert(bits_of_i128(a) == bits_of_i128(b));
    }

    fn is_storable(&self) -> (r: bool) {
        true
    }

    fn as_bytes(&self) -> (bytes: Vec<u8>) {
        u128_to_le_bytes(i128_to_bits(*self))
    }

    fn from_bytes(bytes: &[u8]) -> (r: Result<Self, Error>) {
        if bytes.len() != 16 {
            proof {
                assert forall|v: i128| Self::storable(v) implies #[trigger] Self::encoding(v)
                    != bytes@ by {
                    lemma_u128_bytes(bits_of_i128(v));
                }
            }
            return Err(Error::Decode);
        }
        proof {
            lemma_u128_of_bytes(bytes@);
        }
        Ok(i128_from_bits(u128_from_le_bytes(bytes)))
    }
}

impl IndexKey for i128 {
    open spec fn le(a: i128, b: i128) -> bool {
        a <= b
    }

    open spec fn zero() -> i128 {
        0
    }

    proof fn lemma_le_total(a: i128, b: i128) {
    }

    proof fn lemma_le_transitive(a: i128, b: i128, c: i128) {
    }

    proof fn lemma_le_antisymmetric(a: i128, b: i128) {
    }

    proof fn lemma_zero_storable() {
    }

    proof fn lemma_size_is_encoding_length(&self) {
        lemma_u128_bytes(bits_of_i128(*self));
    }

    proof fn lemma_length_by_entry(a: i128, b: i128) {
        lemma_u128_bytes(bits_of_i128(a));
        lemma_u128_bytes(bits_of_i128(b));
    }

    fn key_le(&self, other: &Self) -> (r: bool) {
        *self <= *other
    }

    fn key_eq(&self, other: &Self) -> (r: bool) {
        *self == *other
    }

    fn key_clone(&self) -> (r: Self) {
        *self
    }

    fn key_zero() -> (r: Self) {
        0
    }
}

impl FixedKey for i128 {
    proof fn lemma_fixed_length(v: i128) {
        lemma_u128_bytes(bits_of_i128(v));
    }

    proof fn lemma_view_injective(a: i128, b: i128) {
    }
}

impl IndexKey for u128 {
    open spec fn le(a: u128, b: u128) -> bool {
        a <= b
    }

    open spec fn zero() -> u128 {
        0
    }

    proof fn lemma_le_total(a: u128, b: u128) {
    }

    proof fn lemma_le_transitive(a: u128, b: u128, c: u128) {
    }

    proof fn lemma_le_antisymmetric(a: u128, b: u128) {
    }

    proof fn lemma_zero_storable() {
    }

    proof fn lemma_size_is_encoding_length(&self) {
        lemma_u128_bytes(*self);
    }

    proof fn lemma_length_by_entry(a: u128, b: u128) {
        lemma_u128_bytes(a);
        lemma_u128_bytes(b);
    }

    fn key_le(&self, other: &Self) -> (r: bool) {
        *self <= *other
    }

    fn key_eq(&self, other: &Self) -> (r: bool) {
        *self == *other
    }

    fn key_clone(&self) -> (r: Self) {
        *self
    }

    fn key_zero() -> (r: Self) {
        0
    }
}

impl FixedKey for u128 {
    proof fn lemma_fixed_length(v: u128) {
        lemma_u128_bytes(v);
    }

    proof fn lemma_view_injective(a: u128, b: u128) {
    }
}

} // verus!
