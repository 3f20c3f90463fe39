//! Strings as values with a byte form and as keys.
//!
//! A string of up to 8 bytes is held in place: its bytes, then `0xff` up to
//! 8 bytes (no UTF-8 text holds that byte). A longer string lies out of
//! line: its bytes, zeroes up to a multiple of 4, and an 8-byte reference
//! made of the tagged length and the distance back to the first byte.

use crate::error::Error;
use crate::util::key::IndexKey;
use crate::util::persistable::Persistable;
use crate::util::sized::{align, lemma_round_up, round_up, string_size, SizeMeasurable};
use vstd::bytes::*;
use vstd::prelude::*;
use vstd::slice::slice_subrange;
use vstd::string::StringSliceAdditionalSpecFns;
use vstd::utf8::*;

verus! {

/// The greatest number of bytes of a string that has a byte form.
pub const MAX_STRING_LENGTH: usize = 0x3fff_ffff;

/// Turns bytes into the string that they spell in UTF-8, with
/// `String::from_utf8`: `None` if they spell none.
#[verifier::external_body]
fn string_from_utf8(bytes: Vec<u8>) -> (r: Option<String>)
    ensures
        match r {
            Some(s) => encode_utf8(s@) == bytes@,
            None => !valid_utf8(bytes@),
        },
{
    String::from_utf8(bytes).ok()
}

/// Returns the text that the bytes spell in UTF-8, or `None` if they spell
/// none.
pub fn string_from_utf8_bytes(bytes: Vec<u8>) -> (r: Option<String>)
    ensures
        match r {
            Some(s) => valid_utf8(bytes@) && s@ == decode_utf8(bytes@),
            None => !valid_utf8(bytes@),
        },
{
    let ghost given = bytes@;
    match string_from_utf8(bytes) {
        Some(s) => {
            proof {
                encode_utf8_valid_utf8(s@);
                encode_utf8_decode_utf8(s@);
            }
            Some(s)
        },
        None => None,
    }
}

/// No byte of UTF-8 text is above `0xf7`.
pub proof fn lemma_utf8_byte_bound(bytes: Seq<u8>, i: int)
    requires
        valid_utf8(bytes),
        0 <= i < bytes.len(),
    ensures
        bytes[i] <= 0xf7,
    decreases bytes.len(),
{
    let k = length_of_first_scalar(bytes);
    assert(valid_first_scalar(bytes));
    assert(1 <= k <= bytes.len());
    if i >= k {
        let rest = pop_first_scalar(bytes);
        assert(rest.len() == bytes.len() - k);
        assert(rest[i - k] == bytes[i]);
        lemma_utf8_byte_bound(rest, i - k);
    }
}

/// The length of a string that lies out of line, as its reference holds it:
/// the bits `10` are put above the low 6 bits.
pub open spec fn tagged_length(len: u32) -> u32 {
    (len & 0x3f) | 0x80 | ((len & !0x3fu32) << 2)
}

/// The length that a reference holds.
pub open spec fn untagged_length(field: u32) -> u32 {
    (field & 0x3f) | ((field & !0xffu32) >> 2)
}

/// Tagging a length loses nothing.
pub proof fn lemma_tagged_length(len: u32)
    requires
        len <= 0x3fff_ffff,
    ensures
        untagged_length(tagged_length(len)) == len,
{
    assert((((len & 0x3f) | 0x80 | ((len & !0x3fu32) << 2)) & 0x3f) | ((((len & 0x3f) | 0x80 | ((len
        & !0x3fu32) << 2)) & !0xffu32) >> 2) == len) by (bit_vector)
        requires
            len <= 0x3fff_ffff,
    ;
}

/// The bytes of the string, without what frames them.
pub open spec fn text_bytes(chars: Seq<char>) -> Seq<u8> {
    encode_utf8(chars)
}

/// `count` bytes of the value `byte`.
pub open spec fn filler(count: int, byte: u8) -> Seq<u8> {
    Seq::new(
        if count > 0 {
            count as nat
        } else {
            0
        },
        |i: int| byte,
    )
}

/// The distance from a reference back over `span` bytes, as 32 bits in
/// two's complement.
pub open spec fn backward(span: nat) -> u32 {
    if span == 0 {
        0
    } else {
        (0x1_0000_0000 - span) as u32
    }
}

/// The byte form of a string.
pub open spec fn string_bytes(chars: Seq<char>) -> Seq<u8> {
    let text = text_bytes(chars);
    if text.len() <= 8 {
        text + filler(8 - text.len(), 0xff)
    } else {
        let span = round_up(text.len(), 4);
        text + filler(span - text.len(), 0) + spec_u32_to_le_bytes(
            tagged_length(text.len() as u32),
        ) + spec_u32_to_le_bytes(backward(span))
    }
}

/// How the byte form of a string is laid out.
pub proof fn lemma_string_layout(chars: Seq<char>)
    requires
        text_bytes(chars).len() <= MAX_STRING_LENGTH,
    ensures
        string_bytes(chars).len() == string_size(text_bytes(chars).len()),
        string_bytes(chars).subrange(0, text_bytes(chars).len() as int) == text_bytes(chars),
        forall|i: int| 0 <= i < text_bytes(chars).len() ==> string_bytes(chars)[i] != 0xff,
        text_bytes(chars).len() <= 8 ==> forall|i: int|
            text_bytes(chars).len() <= i < 8 ==> string_bytes(chars)[i] == 0xff,
        text_bytes(chars).len() > 8 ==> {
            let n = text_bytes(chars).len() as int;
            let span = round_up(n as nat, 4) as int;
            &&& string_bytes(chars).len() == span + 8
            &&& string_bytes(chars).len() >= 20
            &&& forall|i: int| n <= i < span ==> string_bytes(chars)[i] == 0
            &&& string_bytes(chars).subrange(span, span + 4) == spec_u32_to_le_bytes(
                tagged_length(n as u32),
            )
            &&& string_bytes(chars).subrange(span + 4, span + 8) == spec_u32_to_le_bytes(
                backward(span as nat),
            )
        },
{
    let text = text_bytes(chars);
    let e = string_bytes(chars);
    let n = text.len() as int;
    lemma_auto_spec_u32_to_from_le_bytes();
    lemma_round_up(n as nat, 4);
    lemma_round_up((n + 8) as nat, 4);
    encode_utf8_valid_utf8(chars);
    assert forall|i: int| 0 <= i < n implies e[i] != 0xff by {
        lemma_utf8_byte_bound(text, i);
    }
    assert(e.subrange(0, n) =~= text);
    if n > 8 {
        let span = round_up(n as nat, 4) as int;
        let tag = spec_u32_to_le_bytes(tagged_length(n as u32));
        let back = spec_u32_to_le_bytes(backward(span as nat));
        assert(tag.len() == 4);
        assert(back.len() == 4);
        assert(round_up((n + 8) as nat, 4) == span + 8) by {
            if n % 4 == 0 {
                assert((n + 8) % 4 == 0);
            } else {
                assert((n + 8) % 4 != 0);
                assert((n + 8) / 4 == n / 4 + 2);
            }
        }
        assert(e.subrange(span, span + 4) =~= tag);
        assert(e.subrange(span + 4, span + 8) =~= back);
    }
}

impl Persistable for String {
    open spec fn storable(v: Seq<char>) -> bool {
        text_bytes(v).len() <= MAX_STRING_LENGTH
    }

    open spec fn encoding(v: Seq<char>) -> Seq<u8> {
        string_bytes(v)
    }

    proof fn lemma_encoding_injective(a: Seq<char>, b: Seq<char>) {
        lemma_string_layout(a);
        lemma_string_layout(b);
        lemma_auto_spec_u32_to_from_le_bytes();
        let ta = text_bytes(a);
        let tb = text_bytes(b);
        let e = string_bytes(a);
        if ta.len() > 8 {
            let span = round_up(ta.len(), 4) as int;
            assert(tb.len() > 8);
            assert(round_up(tb.len(), 4) == span);
            let fa = tagged_length(ta.len() as u32);
            let fb = tagged_length(tb.len() as u32);
            assert(spec_u32_to_le_bytes(fa).len() == 4);
            assert(spec_u32_to_le_bytes(fb).len() == 4);
            assert(spec_u32_from_le_bytes(spec_u32_to_le_bytes(fa)) == fa);
            assert(spec_u32_from_le_bytes(spec_u32_to_le_bytes(fb)) == fb);
            assert(fa == fb);
            lemma_tagged_length(ta.len() as u32);
            lemma_tagged_length(tb.len() as u32);
        } else {
            assert(tb.len() <= 8);
            if ta.len() < tb.len() {
                assert(e[ta.len() as int] == 0xff);
            }
            if tb.len() < ta.len() {
                assert(e[tb.len() as int] == 0xff);
            }
        }
        assert(ta.len() == tb.len());
        assert(ta == tb);
        encode_utf8_decode_utf8(a);
        encode_utf8_decode_utf8(b);
    }

    fn is_storable(&self) -> (r: bool) {
        self.as_str().as_bytes().len() <= MAX_STRING_LENGTH
    }

    fn as_bytes(&self) -> (bytes: Vec<u8>) {
        let text: &[u8] = self.as_str().as_bytes();
        let length: usize = text.len();
        let mut bytes: Vec<u8> = vstd::slice::slice_to_vec(text);
        proof {
            lemma_round_up(length as nat, 4);
        }
        if length <= 8 {
            let mut i: usize = length;
            while i < 8
                invariant
                    length <= i <= 8,
                    bytes@ == text@ + filler(i - length, 0xff),
                decreases 8 - i,
            {
                bytes.push(0xff);
                i += 1;
                assert(bytes@ =~= text@ + filler(i - length, 0xff));
            }
        } else {
            let span: usize = align(length);
            let mut i: usize = length;
            while i < span
                invariant
                    length <= i <= span,
                    bytes@ == text@ + filler(i - length, 0),
                decreases span - i,
            {
                bytes.push(0);
                i += 1;
                assert(bytes@ =~= text@ + filler(i - length, 0));
            }
            let n: u32 = length as u32;
            let tag: u32 = (n & 0x3f) | 0x80 | ((n & !0x3fu32) << 2);
            let back: u32 = (u32::MAX - span as u32) + 1;
            let mut part: Vec<u8> = u32_to_le_bytes(tag);
            bytes.append(&mut part);
            let mut part: Vec<u8> = u32_to_le_bytes(back);
            bytes.append(&mut part);
        }
        bytes
    }

    fn from_bytes(bytes: &[u8]) -> (r: Result<Self, Error>) {
        proof {
            lemma_auto_spec_u32_to_from_le_bytes();
            assert forall|v: Seq<char>|
                Self::storable(v) && bytes@ == #[trigger] Self::encoding(v) implies {
                &&& bytes@.len() == string_size(text_bytes(v).len())
                &&& bytes@.subrange(0, text_bytes(v).len() as int) == text_bytes(v)
                &&& valid_utf8(text_bytes(v))
            } by {
                lemma_string_layout(v);
                encode_utf8_valid_utf8(v);
            }
        }
        let total: usize = bytes.len();
        if total == 8 {
            let mut length: usize = 0;
            while length < 8 && bytes[length] != 0xff
                invariant
                    length <= 8,
                    total == 8,
                    bytes@.len() == 8,
                    forall|i: int| 0 <= i < length ==> bytes@[i] != 0xff,
                decreases 8 - length,
            {
                length += 1;
            }
            let mut i: usize = length;
            while i < 8
                invariant
                    length <= i <= 8,
                    bytes@.len() == 8,
                    length < 8 ==> bytes@[length as int] == 0xff,
                    forall|j: int| length <= j < i ==> bytes@[j] == 0xff,
                decreases 8 - i,
            {
                if bytes[i] != 0xff {
                    proof {
                        assert forall|v: Seq<char>| Self::storable(v) implies #[trigger] Self::encoding(
                            v,
                        ) != bytes@ by {
                            if Self::encoding(v) == bytes@ {
                                lemma_string_layout(v);
                                lemma_round_up(text_bytes(v).len(), 4);
                                let n = text_bytes(v).len() as int;
                                assert(n <= 8);
                                if n < length {
                                    assert(bytes@[n] == 0xff);
                                } else if n > length {
                                    assert(bytes@[length as int] == 0xff);
                                }
                            }
                        }
                    }
                    return Err(Error::Decode);
                }
                i += 1;
            }
            let text: Vec<u8> = vstd::slice::slice_to_vec(slice_subrange(bytes, 0, length));
            match string_from_utf8(text) {
                Some(s) => {
                    proof {
                        assert(text_bytes(s@) == bytes@.subrange(0, length as int));
                        assert(string_bytes(s@) =~= bytes@);
                    }
                    Ok(s)
                },
                None => {
                    proof {
                        assert forall|v: Seq<char>| Self::storable(v) implies #[trigger] Self::encoding(
                            v,
                        ) != bytes@ by {
                            if Self::encoding(v) == bytes@ {
                                lemma_string_layout(v);
                                lemma_round_up(text_bytes(v).len(), 4);
                                let n = text_bytes(v).len() as int;
                                assert(n <= 8);
                                if n < length {
                                    assert(bytes@[n] == 0xff);
                                } else if n > length {
                                    assert(bytes@[length as int] == 0xff);
                                }
                                assert(n == length);
                            }
                        }
                    }
                    Err(Error::Decode)
                },
            }
        } else if total >= 20 && total % 4 == 0 && total - 8 <= MAX_STRING_LENGTH + 3 {
            let span: usize = total - 8;
            let field: u32 = u32_from_le_bytes(slice_subrange(bytes, span, span + 4));
            let back: u32 = u32_from_le_bytes(slice_subrange(bytes, span + 4, span + 8));
            let n: u32 = (field & 0x3f) | ((field & !0xffu32) >> 2);
            let length: usize = n as usize;
            proof {
                assert forall|v: Seq<char>|
                    Self::storable(v) && bytes@ == #[trigger] Self::encoding(v) implies {
                    &&& text_bytes(v).len() == length
                    &&& length > 8
                    &&& round_up(length as nat, 4) == span
                    &&& field == tagged_length(n)
                    &&& back == backward(span as nat)
                    &&& forall|i: int| length <= i < span ==> bytes@[i] == 0
                } by {
                    lemma_string_layout(v);
                    let m = text_bytes(v).len();
                    lemma_round_up(m, 4);
                    lemma_tagged_length(m as u32);
                    let tag = tagged_length(m as u32);
                    assert(spec_u32_to_le_bytes(tag).len() == 4);
                    assert(spec_u32_from_le_bytes(spec_u32_to_le_bytes(tag)) == tag);
                    let b = backward(round_up(m, 4));
                    assert(spec_u32_to_le_bytes(b).len() == 4);
                    assert(spec_u32_from_le_bytes(spec_u32_to_le_bytes(b)) == b);
                }
            }
            if length <= 8 || length > MAX_STRING_LENGTH || length > span {
                return Err(Error::Decode);
            }
            proof {
                lemma_round_up(length as nat, 4);
            }
            let tag: u32 = (n & 0x3f) | 0x80 | ((n & !0x3fu32) << 2);
            if align(length) != span || tag != field || back != (u32::MAX - span as u32) + 1 {
                return Err(Error::Decode);
            }
            let mut i: usize = length;
            while i < span
                invariant
                    length <= i <= span,
                    span + 8 == bytes@.len(),
                    forall|j: int| length <= j < i ==> bytes@[j] == 0,
                    forall|v: Seq<char>|
                        Self::storable(v) && bytes@ == #[trigger] Self::encoding(v) ==> forall|
                            i: int,
                        | length <= i < span ==> bytes@[i] == 0,
                decreases span - i,
            {
                if bytes[i] != 0 {
                    return Err(Error::Decode);
                }
                i += 1;
            }
            let text: Vec<u8> = vstd::slice::slice_to_vec(slice_subrange(bytes, 0, length));
            match string_from_utf8(text) {
                Some(s) => {
                    proof {
                        assert(text_bytes(s@) == bytes@.subrange(0, length as int));
                        assert(spec_u32_to_le_bytes(field) == bytes@.subrange(
                            span as int,
                            span + 4,
                        ));
                        assert(spec_u32_to_le_bytes(back) == bytes@.subrange(span + 4, span + 8));
                        assert(string_bytes(s@) =~= bytes@);
                    }
                    Ok(s)
                },
                None => Err(Error::Decode),
            }
        } else {
            proof {
                assert forall|v: Seq<char>| Self::storable(v) implies #[trigger] Self::encoding(v)
                    != bytes@ by {
                    if Self::encoding(v) == bytes@ {
                        lemma_string_layout(v);
                        lemma_round_up(text_bytes(v).len(), 4);
                    }
                }
            }
            Err(Error::Decode)
        }
    }
}

/// Tells whether two runs of bytes are the same.
pub fn same_bytes(a: &[u8], b: &[u8]) -> (r: bool)
    ensures
        r == (a@ == b@),
{
    if a.len() != b.len() {
        return false;
    }
    let mut k: usize = 0;
    while k < a.len()
        invariant
            k <= a@.len(),
            a@.len() == b@.len(),
            forall|j: int| 0 <= j < k ==> a@[j] == b@[j],
        decreases a@.len() - k,
    {
        if a[k] != b[k] {
            return false;
        }
        k += 1;
    }
    assert(a@ =~= b@);
    true
}

/// Tells whether two texts are the same.
pub fn same_text(a: &str, b: &str) -> (r: bool)
    ensures
        r == (a@ == b@),
{
    proof {
        encode_utf8_decode_utf8(a@);
        encode_utf8_decode_utf8(b@);
    }
    same_bytes(a.as_bytes(), b.as_bytes())
}

/// The order of byte strings as a dictionary has it: the first byte that
/// differs decides, and a string is not above any that it starts.
pub open spec fn bytes_le(a: Seq<u8>, b: Seq<u8>) -> bool
    decreases a.len(),
{
    if a.len() == 0 {
        true
    } else if b.len() == 0 {
        false
    } else if a[0] != b[0] {
        a[0] < b[0]
    } else {
        bytes_le(a.drop_first(), b.drop_first())
    }
}

/// Of two byte strings one is not above the other.
pub proof fn lemma_bytes_le_total(a: Seq<u8>, b: Seq<u8>)
    ensures
        bytes_le(a, b) || bytes_le(b, a),
    decreases a.len(),
{
    if a.len() > 0 && b.len() > 0 && a[0] == b[0] {
        lemma_bytes_le_total(a.drop_first(), b.drop_first());
    }
}

/// The order of byte strings is transitive.
pub proof fn lemma_bytes_le_transitive(a: Seq<u8>, b: Seq<u8>, c: Seq<u8>)
    requires
        bytes_le(a, b),
        bytes_le(b, c),
    ensures
        bytes_le(a, c),
    decreases a.len(),
{
    if a.len() > 0 && b.len() > 0 && c.len() > 0 && a[0] == b[0] && b[0] == c[0] {
        lemma_bytes_le_transitive(a.drop_first(), b.drop_first(), c.drop_first());
    }
}

/// Two byte strings of which neither is above the other are the same.
pub proof fn lemma_bytes_le_antisymmetric(a: Seq<u8>, b: Seq<u8>)
    requires
        bytes_le(a, b),
        bytes_le(b, a),
    ensures
        a == b,
    decreases a.len(),
{
    if a.len() > 0 && b.len() > 0 {
        lemma_bytes_le_antisymmetric(a.drop_first(), b.drop_first());
        assert(a =~= seq![a[0]] + a.drop_first());
        assert(b =~= seq![b[0]] + b.drop_first());
    } else {
        assert(a =~= b);
    }
}

/// Tells whether `a` is not above `b` in the order of a dictionary.
pub fn bytes_not_above(a: &[u8], b: &[u8]) -> (r: bool)
    ensures
        r == bytes_le(a@, b@),
{
    let mut i: usize = 0;
    proof {
        assert(a@.skip(0) =~= a@);
        assert(b@.skip(0) =~= b@);
    }
    while i < a.len() && i < b.len()
        invariant
            i <= a@.len(),
            i <= b@.len(),
            bytes_le(a@, b@) == bytes_le(a@.skip(i as int), b@.skip(i as int)),
        decreases a@.len() - i,
    {
        proof {
            assert(a@.skip(i as int)[0] == a@[i as int]);
            assert(b@.skip(i as int)[0] == b@[i as int]);
            assert(a@.skip(i as int).drop_first() =~= a@.skip(i + 1));
            assert(b@.skip(i as int).drop_first() =~= b@.skip(i + 1));
        }
        if a[i] != b[i] {
            return a[i] < b[i];
        }
        i += 1;
    }
    a.len() <= b.len()
}

impl IndexKey for String {
    open spec fn le(a: Seq<char>, b: Seq<char>) -> bool {
        bytes_le(text_bytes(a), text_bytes(b))
    }

    open spec fn zero() -> Seq<char> {
        Seq::empty()
    }

    proof fn lemma_le_total(a: Seq<char>, b: Seq<char>) {
        lemma_bytes_le_total(text_bytes(a), text_bytes(b));
    }

    proof fn lemma_le_transitive(a: Seq<char>, b: Seq<char>, c: Seq<char>) {
        lemma_bytes_le_transitive(text_bytes(a), text_bytes(b), text_bytes(c));
    }

    proof fn lemma_le_antisymmetric(a: Seq<char>, b: Seq<char>) {
        lemma_bytes_le_antisymmetric(text_bytes(a), text_bytes(b));
        encode_utf8_decode_utf8(a);
        encode_utf8_decode_utf8(b);
    }

    proof fn lemma_zero_storable() {
        assert(text_bytes(Seq::<char>::empty()).len() == 0);
    }

    proof fn lemma_size_is_encoding_length(&self) {
        lemma_string_layout(self@);
        lemma_round_up(text_bytes(self@).len() + 8, 4);
    }

    proof fn lemma_length_by_entry(a: Seq<char>, b: Seq<char>) {
        lemma_string_layout(a);
        lemma_string_layout(b);
        let m = text_bytes(a).len();
        let n = text_bytes(b).len();
        lemma_round_up(m, 4);
        lemma_round_up(n, 4);
        lemma_round_up(m + 8, 4);
        lemma_round_up(n + 8, 4);
        lemma_round_up(string_bytes(a).len() + 12, 4);
        lemma_round_up(string_bytes(b).len() + 12, 4);
    }

    fn key_le(&self, other: &Self) -> (r: bool) {
        bytes_not_above(self.as_str().as_bytes(), other.as_str().as_bytes())
    }

    fn key_eq(&self, other: &Self) -> (r: bool) {
        *self == *other
    }

    fn key_clone(&self) -> (r: Self) {
        self.clone()
    }

    fn key_zero() -> (r: Self) {
        String::new()
    }
}

} // verus!
