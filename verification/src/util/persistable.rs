//! The archive codec: values to bytes and back.

use crate::error::Error;
use vstd::bytes::*;
use vstd::prelude::*;
use vstd::slice::slice_subrange;

verus! {

/// A value with a byte form.
///
/// `encoding` says what the byte form of a value is and `storable` which
/// values have one. No two storable values share a byte form, so the bytes
/// tell the value.
pub trait Persistable: View + Sized {
    /// Whether the value has a byte form.
    spec fn storable(v: Self::V) -> bool;

    /// The byte form of the value.
    spec fn encoding(v: Self::V) -> Seq<u8>;

    /// Two storable values with the same byte form are the same value.
    proof fn lemma_encoding_injective(a: Self::V, b: Self::V)
        requires
            Self::storable(a),
            Self::storable(b),
            Self::encoding(a) == Self::encoding(b),
        ensures
            a == b,
    ;

    /// Tells whether the value has a byte form.
    fn is_storable(&self) -> (r: bool)
        ensures
            r == Self::storable(self@),
    ;

    /// Returns the byte form of the value.
    fn as_bytes(&self) -> (bytes: Vec<u8>)
        requires
            Self::storable(self@),
        ensures
            bytes@ == Self::encoding(self@),
    ;

    /// Returns the value whose byte form `bytes` is, or `Error::Decode` if
    /// there is none.
    fn from_bytes(bytes: &[u8]) -> (r: Result<Self, Error>)
        ensures
            match r {
                Ok(v) => Self::storable(v@) && Self::encoding(v@) == bytes@,
                Err(e) => e == Error::Decode && forall|v: Self::V|
                    Self::storable(v) ==> #[trigger] Self::encoding(v) != bytes@,
            },
    ;
}

/// Whether `bytes` is the byte form of the storable value `v`.
pub open spec fn is_byte_form_of<T: Persistable>(bytes: Seq<u8>, v: T::V) -> bool {
    T::storable(v) && T::encoding(v) == bytes
}

/// The value whose byte form `bytes` is, if there is one.
pub open spec fn decoding<T: Persistable>(bytes: Seq<u8>) -> Option<T::V> {
    if exists|v: T::V| is_byte_form_of::<T>(bytes, v) {
        Some(choose|v: T::V| is_byte_form_of::<T>(bytes, v))
    } else {
        None
    }
}

/// Decoding the byte form of a storable value gives the value back.
pub proof fn lemma_round_trip<T: Persistable>(v: T::V)
    requires
        T::storable(v),
    ensures
        decoding::<T>(T::encoding(v)) == Some(v),
{
    let bytes = T::encoding(v);
    assert(is_byte_form_of::<T>(bytes, v));
    let w = decoding::<T>(bytes).unwrap();
    assert(is_byte_form_of::<T>(bytes, w));
    T::lemma_encoding_injective(w, v);
}

/// Bytes that are the byte form of a storable value decode to that value.
pub proof fn lemma_decoding_is<T: Persistable>(bytes: Seq<u8>, v: T::V)
    requires
        T::storable(v),
        T::encoding(v) == bytes,
    ensures
        decoding::<T>(bytes) == Some(v),
{
    lemma_round_trip::<T>(v);
}

/// Bytes that are the byte form of no storable value decode to nothing.
pub proof fn lemma_decoding_none<T: Persistable>(bytes: Seq<u8>)
    requires
        forall|v: T::V| T::storable(v) ==> #[trigger] T::encoding(v) != bytes,
    ensures
        decoding::<T>(bytes) is None,
{
    if exists|v: T::V| is_byte_form_of::<T>(bytes, v) {
        let v = choose|v: T::V| is_byte_form_of::<T>(bytes, v);
        assert(T::encoding(v) != bytes);
    }
}

/// Reads the value whose byte form `bytes` is: what `from_bytes` does,
/// said with `decoding`.
pub fn decode<T: Persistable>(bytes: &[u8]) -> (r: Result<T, Error>)
    ensures
        match r {
            Ok(v) => decoding::<T>(bytes@) == Some(v@),
            Err(e) => e == Error::Decode && decoding::<T>(bytes@) is None,
        },
{
    match T::from_bytes(bytes) {
        Ok(v) => {
            proof {
                lemma_decoding_is::<T>(bytes@, v@);
            }
            Ok(v)
        },
        Err(e) => {
            proof {
                lemma_decoding_none::<T>(bytes@);
            }
            Err(e)
        },
    }
}

/// Writes a value out and reads it back: the result is the value.
pub fn round_trip<T: Persistable>(value: &T) -> (back: T)
    requires
        T::storable(value@),
    ensures
        back@ == value@,
{
    let bytes = value.as_bytes();
    match T::from_bytes(bytes.as_slice()) {
        Ok(back) => {
            proof {
                T::lemma_encoding_injective(back@, value@);
            }
            back
        },
        Err(_) => {
            assert(T::encoding(value@) != bytes@);
            vstd::pervasive::unreached()
        },
    }
}

/// The 2 bytes of a 16-bit number tell the number.
pub proof fn lemma_u16_bytes(x: u16)
    ensures
        spec_u16_to_le_bytes(x).len() == 2,
        spec_u16_from_le_bytes(spec_u16_to_le_bytes(x)) == x,
{
    lemma_auto_spec_u16_to_from_le_bytes();
    assert(spec_u16_to_le_bytes(x).len() == 2);
}

/// Any 2 bytes are the bytes of the 16-bit number that they spell.
pub proof fn lemma_u16_of_bytes(s: Seq<u8>)
    requires
        s.len() == 2,
    ensures
        spec_u16_to_le_bytes(spec_u16_from_le_bytes(s)) == s,
{
    lemma_auto_spec_u16_to_from_le_bytes();
    assert(spec_u16_to_le_bytes(spec_u16_from_le_bytes(s)) == s);
}

/// The 4 bytes of a 32-bit number tell the number.
pub proof fn lemma_u32_bytes(x: u32)
    ensures
        spec_u32_to_le_bytes(x).len() == 4,
        spec_u32_from_le_bytes(spec_u32_to_le_bytes(x)) == x,
{
    lemma_auto_spec_u32_to_from_le_bytes();
    assert(spec_u32_to_le_bytes(x).len() == 4);
}

/// Any 4 bytes are the bytes of the 32-bit number that they spell.
pub proof fn lemma_u32_of_bytes(s: Seq<u8>)
    requires
        s.len() == 4,
    ensures
        spec_u32_to_le_bytes(spec_u32_from_le_bytes(s)) == s,
{
    lemma_auto_spec_u32_to_from_le_bytes();
    assert(spec_u32_to_le_bytes(spec_u32_from_le_bytes(s)) == s);
}

/// The 8 bytes of a 64-bit number tell the number.
pub proof fn lemma_u64_bytes(x: u64)
    ensures
        spec_u64_to_le_bytes(x).len() == 8,
        spec_u64_from_le_bytes(spec_u64_to_le_bytes(x)) == x,
{
    lemma_auto_spec_u64_to_from_le_bytes();
    assert(spec_u64_to_le_bytes(x).len() == 8);
}

/// Any 8 bytes are the bytes of the 64-bit number that they spell.
pub proof fn lemma_u64_of_bytes(s: Seq<u8>)
    requires
        s.len() == 8,
    ensures
        spec_u64_to_le_bytes(spec_u64_from_le_bytes(s)) == s,
{
    lemma_auto_spec_u64_to_from_le_bytes();
    assert(spec_u64_to_le_bytes(spec_u64_from_le_bytes(s)) == s);
}

/// The 16 bytes of a 128-bit number tell the number.
pub proof fn lemma_u128_bytes(x: u128)
    ensures
        spec_u128_to_le_bytes(x).len() == 16,
        spec_u128_from_le_bytes(spec_u128_to_le_bytes(x)) == x,
{
    lemma_auto_spec_u128_to_from_le_bytes();
    assert(spec_u128_to_le_bytes(x).len() == 16);
}

/// Any 16 bytes are the bytes of the 128-bit number that they spell.
pub proof fn lemma_u128_of_bytes(s: Seq<u8>)
    requires
        s.len() == 16,
    ensures
        spec_u128_to_le_bytes(spec_u128_from_le_bytes(s)) == s,
{
    lemma_auto_spec_u128_to_from_le_bytes();
    assert(spec_u128_to_le_bytes(spec_u128_from_le_bytes(s)) == s);
}

impl Persistable for u128 {
    open spec fn storable(v: u128) -> bool {
        true
    }

    open spec fn encoding(v: u128) -> Seq<u8> {
        spec_u128_to_le_bytes(v)
    }

    proof fn lemma_encoding_injective(a: u128, b: u128) {
        lemma_u128_bytes(a);
        lemma_u128_bytes(b);
        assert(Self::encoding(a) == spec_u128_to_le_bytes(a));
        assert(Self::encoding(b) == spec_u128_to_le_bytes(b));
        assert(spec_u128_from_le_bytes(spec_u128_to_le_bytes(a)) == spec_u128_from_le_bytes(
            spec_u128_to_le_bytes(b),
        ));
    }

    fn is_storable(&self) -> (r: bool) {
        true
    }

    fn as_bytes(&self) -> (bytes: Vec<u8>) {
        u128_to_le_bytes(*self)
    }

    fn from_bytes(bytes: &[u8]) -> (r: Result<Self, Error>) {
        if bytes.len() != 16 {
            proof {
                assert forall|v: u128| Self::storable(v) implies #[trigger] Self::encoding(v)
                    != bytes@ by {
                    lemma_u128_bytes(v);
                }
            }
            return Err(Error::Decode);
        }
        proof {
            lemma_u128_of_bytes(bytes@);
        }
        Ok(u128_from_le_bytes(bytes))
    }
}

/// The value without content has the byte form without bytes.
impl Persistable for () {
    open spec fn storable(v: ()) -> bool {
        true
    }

    open spec fn encoding(v: ()) -> Seq<u8> {
        Seq::empty()
    }

    proof fn lemma_encoding_injective(a: (), b: ()) {
    }

    fn is_storable(&self) -> (r: bool) {
        true
    }

    fn as_bytes(&self) -> (bytes: Vec<u8>) {
        Vec::new()
    }

    fn from_bytes(bytes: &[u8]) -> (r: Result<Self, Error>) {
        if bytes.len() != 0 {
            return Err(Error::Decode);
        }
        assert(bytes@ =~= Seq::<u8>::empty());
        Ok(())
    }
}

impl Persistable for u8 {
    open spec fn storable(v: u8) -> bool {
        true
    }

    open spec fn encoding(v: u8) -> Seq<u8> {
        seq![v]
    }

    proof fn lemma_encoding_injective(a: u8, b: u8) {
        assert(Self::encoding(a)[0] == a);
        assert(Self::encoding(b)[0] == b);
    }

    fn is_storable(&self) -> (r: bool) {
        true
    }

    fn as_bytes(&self) -> (bytes: Vec<u8>) {
        let mut bytes: Vec<u8> = Vec::new();
        bytes.push(*self);
        assert(bytes@ =~= seq![*self]);
        bytes
    }

    fn from_bytes(bytes: &[u8]) -> (r: Result<Self, Error>) {
        if bytes.len() != 1 {
            return Err(Error::Decode);
        }
        let v: u8 = bytes[0];
        assert(bytes@ =~= seq![v]);
        Ok(v)
    }
}

impl Persistable for u16 {
    open spec fn storable(v: u16) -> bool {
        true
    }

    open spec fn encoding(v: u16) -> Seq<u8> {
        spec_u16_to_le_bytes(v)
    }

    proof fn lemma_encoding_injective(a: u16, b: u16) {
        lemma_u16_bytes(a);
        lemma_u16_bytes(b);
        assert(Self::encoding(a) == spec_u16_to_le_bytes(a));
        assert(Self::encoding(b) == spec_u16_to_le_bytes(b));
        assert(spec_u16_from_le_bytes(spec_u16_to_le_bytes(a)) == spec_u16_from_le_bytes(
            spec_u16_to_le_bytes(b),
        ));
    }

    fn is_storable(&self) -> (r: bool) {
        true
    }

    fn as_bytes(&self) -> (bytes: Vec<u8>) {
        u16_to_le_bytes(*self)
    }

    fn from_bytes(bytes: &[u8]) -> (r: Result<Self, Error>) {
        if bytes.len() != 2 {
            proof {
                assert forall|v: u16| Self::storable(v) implies #[trigger] Self::encoding(v)
                    != bytes@ by {
                    lemma_u16_bytes(v);
                }
            }
            return Err(Error::Decode);
        }
        proof {
            lemma_u16_of_bytes(bytes@);
        }
        Ok(u16_from_le_bytes(bytes))
    }
}

impl Persistable for u32 {
    open spec fn storable(v: u32) -> bool {
        true
    }

    open spec fn encoding(v: u32) -> Seq<u8> {
        spec_u32_to_le_bytes(v)
    }

    proof fn lemma_encoding_injective(a: u32, b: u32) {
        lemma_u32_bytes(a);
        lemma_u32_bytes(b);
        assert(Self::encoding(a) == spec_u32_to_le_bytes(a));
        assert(Self::encoding(b) == spec_u32_to_le_bytes(b));
        assert(spec_u32_from_le_bytes(spec_u32_to_le_bytes(a)) == spec_u32_from_le_bytes(
            spec_u32_to_le_bytes(b),
        ));
    }

    fn is_storable(&self) -> (r: bool) {
        true
    }

    fn as_bytes(&self) -> (bytes: Vec<u8>) {
        u32_to_le_bytes(*self)
    }

    fn from_bytes(bytes: &[u8]) -> (r: Result<Self, Error>) {
        if bytes.len() != 4 {
            proof {
                assert forall|v: u32| Self::storable(v) implies #[trigger] Self::encoding(v)
                    != bytes@ by {
                    lemma_u32_bytes(v);
                }
            }
            return Err(Error::Decode);
        }
        proof {
            lemma_u32_of_bytes(bytes@);
        }
        Ok(u32_from_le_bytes(bytes))
    }
}

impl Persistable for u64 {
    open spec fn storable(v: u64) -> bool {
        true
    }

    open spec fn encoding(v: u64) -> Seq<u8> {
        spec_u64_to_le_bytes(v)
    }

    proof fn lemma_encoding_injective(a: u64, b: u64) {
        lemma_u64_bytes(a);
        lemma_u64_bytes(b);
        assert(Self::encoding(a) == spec_u64_to_le_bytes(a));
        assert(Self::encoding(b) == spec_u64_to_le_bytes(b));
        assert(spec_u64_from_le_bytes(spec_u64_to_le_bytes(a)) == spec_u64_from_le_bytes(
            spec_u64_to_le_bytes(b),
        ));
    }

    fn is_storable(&self) -> (r: bool) {
        true
    }

    fn as_bytes(&self) -> (bytes: Vec<u8>) {
        u64_to_le_bytes(*self)
    }

    fn from_bytes(bytes: &[u8]) -> (r: Result<Self, Error>) {
        if bytes.len() != 8 {
            proof {
                assert forall|v: u64| Self::storable(v) implies #[trigger] Self::encoding(v)
                    != bytes@ by {
                    lemma_u64_bytes(v);
                }
            }
            return Err(Error::Decode);
        }
        proof {
            lemma_u64_of_bytes(bytes@);
        }
        Ok(u64_from_le_bytes(bytes))
    }
}

} // verus!
