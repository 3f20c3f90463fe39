//! Pieces of the byte form of a value that holds strings and vectors: such
//! a value is written as one run of bytes, first what lies out of line,
//! the texts of long strings and the elements of vectors, and last the
//! value itself, which refers back to them by their distance.

use crate::util::sized::{lemma_round_up, round_up};
use crate::util::text::{
    filler, lemma_tagged_length, lemma_utf8_byte_bound, string_from_utf8_bytes, tagged_length,
    text_bytes, untagged_length, MAX_STRING_LENGTH,
};
use vstd::prelude::*;
use vstd::slice::slice_subrange;
use vstd::utf8::*;

verus! {

/// The 4 bytes of a number, the low byte first.
pub open spec fn le32(x: u32) -> Seq<u8> {
    seq![
        (x % 256) as u8,
        (x / 256 % 256) as u8,
        (x / 65536 % 256) as u8,
        (x / 16777216) as u8,
    ]
}

/// The number that 4 bytes spell, the low byte first.
pub open spec fn le32_value(s: Seq<u8>) -> u32 {
    (s[0] + 256 * s[1] + 65536 * s[2] + 16777216 * s[3]) as u32
}

/// The 4 bytes of a number spell the number.
pub proof fn lemma_le32(x: u32)
    ensures
        le32(x).len() == 4,
        le32_value(le32(x)) == x,
{
}

/// Returns the 4 bytes of a number, the low byte first.
pub fn le32_bytes(x: u32) -> (bytes: Vec<u8>)
    ensures
        bytes@ == le32(x),
{
    let mut bytes: Vec<u8> = Vec::new();
    bytes.push((x % 256) as u8);
    bytes.push((x / 256 % 256) as u8);
    bytes.push((x / 65536 % 256) as u8);
    bytes.push((x / 16777216) as u8);
    assert(bytes@ =~= le32(x));
    bytes
}

/// Returns the number that the 4 bytes from `at` on spell.
pub fn le32_at(bytes: &[u8], at: usize) -> (x: u32)
    requires
        at + 4 <= bytes@.len(),
    ensures
        x == le32_value(bytes@.subrange(at as int, at + 4)),
{
    let s0: u32 = bytes[at] as u32;
    let s1: u32 = bytes[at + 1] as u32;
    let s2: u32 = bytes[at + 2] as u32;
    let s3: u32 = bytes[at + 3] as u32;
    s0 + 256 * s1 + 65536 * s2 + 16777216 * s3
}

/// The distance back to what lies `distance` bytes before a reference, as
/// the reference holds it: 32 bits in two's complement.
pub open spec fn back32(distance: nat) -> u32 {
    ((0x1_0000_0000 - distance % 0x1_0000_0000) % 0x1_0000_0000) as u32
}

/// The distance that a reference holds.
pub open spec fn distance32(field: u32) -> nat {
    ((0x1_0000_0000 - field) % 0x1_0000_0000) as nat
}

/// A distance that 32 bits hold comes back from the reference.
pub proof fn lemma_back32(distance: nat)
    requires
        distance < 0x1_0000_0000,
    ensures
        distance32(back32(distance)) == distance,
{
}

/// Returns the distance as a reference holds it.
pub fn back32_of(distance: u128) -> (field: u32)
    ensures
        field == back32(distance as nat),
{
    let low: u128 = distance % 0x1_0000_0000;
    if low == 0 {
        0
    } else {
        (0x1_0000_0000u128 - low) as u32
    }
}

/// The 8 bytes that stand for a vector of `count` elements that start
/// `distance` bytes before them.
pub open spec fn vector_ref(distance: int, count: nat) -> Seq<u8> {
    le32(back32(distance as nat)) + le32(count as u32)
}

/// The bytes that stand for a vector are 8, and tell its distance and its
/// count.
pub proof fn lemma_vector_ref(distance: int, count: nat)
    ensures
        vector_ref(distance, count).len() == 8,
        0 <= distance < 0x1_0000_0000 ==> distance32(
            le32_value(vector_ref(distance, count).subrange(0, 4)),
        ) == distance,
        count < 0x1_0000_0000 ==> le32_value(vector_ref(distance, count).subrange(4, 8))
            == count,
{
    lemma_le32(back32(distance as nat));
    lemma_le32(count as u32);
    if 0 <= distance < 0x1_0000_0000 {
        lemma_back32(distance as nat);
    }
    assert(vector_ref(distance, count).subrange(0, 4) =~= le32(back32(distance as nat)));
    assert(vector_ref(distance, count).subrange(4, 8) =~= le32(count as u32));
}

/// Returns the 8 bytes that stand for a vector of `count` elements that
/// start `distance` bytes before them.
pub fn vector_ref_bytes(distance: u128, count: usize) -> (bytes: Vec<u8>)
    requires
        count <= u32::MAX,
    ensures
        bytes@ == vector_ref(distance as int, count as nat),
{
    let mut bytes: Vec<u8> = le32_bytes(back32_of(distance));
    let mut part: Vec<u8> = le32_bytes(count as u32);
    bytes.append(&mut part);
    bytes
}

/// Whether the text of a string lies out of line: it does if it has more
/// than 8 bytes.
pub open spec fn is_long(s: Seq<char>) -> bool {
    text_bytes(s).len() > 8
}

/// What a string puts out of line: its text if it is long, else nothing.
pub open spec fn string_data(s: Seq<char>) -> Seq<u8> {
    if is_long(s) {
        text_bytes(s)
    } else {
        Seq::empty()
    }
}

/// The 8 bytes that stand for a string where it is held: the text itself
/// and `0xff` up to 8 bytes; or, for a long string, the tagged length of
/// the text and the distance back to it.
pub open spec fn string_repr(s: Seq<char>, distance: nat) -> Seq<u8> {
    if is_long(s) {
        le32(tagged_length(text_bytes(s).len() as u32)) + le32(back32(distance))
    } else {
        text_bytes(s) + filler(8 - text_bytes(s).len(), 0xff)
    }
}

/// The number of bytes before the first `0xff` among the first `count`
/// bytes.
pub open spec fn inline_length(r: Seq<u8>, count: int) -> int
    decreases count,
{
    if count <= 0 {
        0
    } else {
        let before = inline_length(r, count - 1);
        if before < count - 1 || r[count - 1] == 0xff {
            before
        } else {
            count
        }
    }
}

/// The string that the 8 bytes at `at` stand for, if they stand for one:
/// a first byte from `0x80` to `0xbf` marks a long string, whose text lies
/// back in the bytes.
pub open spec fn string_at(bytes: Seq<u8>, at: int) -> Option<Seq<char>> {
    if at < 0 || at + 8 > bytes.len() {
        None
    } else if 0x80 <= bytes[at] <= 0xbf {
        let length = untagged_length(le32_value(bytes.subrange(at, at + 4)));
        let distance = distance32(le32_value(bytes.subrange(at + 4, at + 8)));
        let start = at - distance;
        if start < 0 || start + length > bytes.len() {
            None
        } else if valid_utf8(bytes.subrange(start, start + length)) {
            Some(decode_utf8(bytes.subrange(start, start + length)))
        } else {
            None
        }
    } else {
        let length = inline_length(bytes.subrange(at, at + 8), 8);
        if valid_utf8(bytes.subrange(at, at + length)) {
            Some(decode_utf8(bytes.subrange(at, at + length)))
        } else {
            None
        }
    }
}

/// The low byte of a tagged length lies from `0x80` to `0xbf`.
pub proof fn lemma_tag_byte(len: u32)
    ensures
        0x80 <= tagged_length(len) % 256 <= 0xbf,
{
    assert(0x80 <= ((len & 0x3f) | 0x80 | ((len & !0x3fu32) << 2)) % 256 <= 0xbf) by (bit_vector);
}

/// The first byte of text in UTF-8 does not lie from `0x80` to `0xbf`.
pub proof fn lemma_lead_byte(text: Seq<u8>)
    requires
        valid_utf8(text),
        text.len() > 0,
    ensures
        !(0x80 <= text[0] <= 0xbf),
{
    assert(valid_first_scalar(text));
}

/// Where the 8 bytes that stand for a string lie at `at`, and the text of
/// a long string `distance` bytes before them, the string is read back.
pub proof fn lemma_string_at(bytes: Seq<u8>, at: int, s: Seq<char>, distance: nat)
    requires
        text_bytes(s).len() <= MAX_STRING_LENGTH,
        0 <= at,
        at + 8 <= bytes.len(),
        bytes.subrange(at, at + 8) == string_repr(s, distance),
        is_long(s) ==> distance < 0x1_0000_0000 && distance <= at && at - distance + text_bytes(
            s,
        ).len() <= bytes.len() && bytes.subrange(
            at - distance,
            at - distance + text_bytes(s).len(),
        ) == text_bytes(s),
    ensures
        string_at(bytes, at) == Some(s),
{
    let text = text_bytes(s);
    let r = bytes.subrange(at, at + 8);
    encode_utf8_valid_utf8(s);
    encode_utf8_decode_utf8(s);
    assert(r[0] == bytes[at]);
    if is_long(s) {
        let tag = tagged_length(text.len() as u32);
        lemma_tag_byte(text.len() as u32);
        lemma_le32(tag);
        lemma_le32(back32(distance));
        lemma_back32(distance);
        lemma_tagged_length(text.len() as u32);
        assert(r[0] == le32(tag)[0]);
        assert(bytes.subrange(at, at + 4) =~= r.subrange(0, 4));
        assert(bytes.subrange(at + 4, at + 8) =~= r.subrange(4, 8));
        assert(r.subrange(0, 4) =~= le32(tag));
        assert(r.subrange(4, 8) =~= le32(back32(distance)));
    } else {
        let n = text.len() as int;
        assert forall|i: int| 0 <= i < n implies r[i] != 0xff by {
            lemma_utf8_byte_bound(text, i);
            assert(r[i] == text[i]);
        }
        assert forall|i: int| n <= i < 8 implies r[i] == 0xff by {}
        lemma_first_mark(r, 8, n);
        if n > 0 {
            lemma_lead_byte(text);
            assert(r[0] == text[0]);
        }
        assert(bytes.subrange(at, at + n) =~= text);
    }
}

/// Returns the 8 bytes that stand for the string, whose text, if it is
/// long, lies `distance` bytes before them.
pub fn repr_bytes(s: &String, distance: u128) -> (bytes: Vec<u8>)
    requires
        text_bytes(s@).len() <= MAX_STRING_LENGTH,
    ensures
        bytes@ == string_repr(s@, distance as nat),
        bytes@.len() == 8,
{
    let text: &[u8] = s.as_str().as_bytes();
    let length: usize = text.len();
    if length > 8 {
        let n: u32 = length as u32;
        let tag: u32 = (n & 0x3f) | 0x80 | ((n & !0x3fu32) << 2);
        let mut bytes: Vec<u8> = le32_bytes(tag);
        let mut part: Vec<u8> = le32_bytes(back32_of(distance));
        bytes.append(&mut part);
        bytes
    } else {
        let mut bytes: Vec<u8> = vstd::slice::slice_to_vec(text);
        let mut i: usize = length;
        while i < 8
            invariant
                length <= i <= 8,
                bytes@ == text@ + filler(i - length, 0xff),
            decreases 8 - i,
        {
            bytes.push(0xff);
            i += 1;
            assert(bytes@ =~= text@ + filler(i - length, 0xff));
        }
        bytes
    }
}

/// Reads the string that the 8 bytes at `at` stand for. Returns `None` if
/// they stand for none.
pub fn read_string_at(bytes: &[u8], at: usize) -> (r: Option<String>)
    ensures
        match r {
            Some(s) => string_at(bytes@, at as int) == Some(s@),
            None => string_at(bytes@, at as int) is None,
        },
{
    let total: usize = bytes.len();
    if at > total || total - at < 8 {
        return None;
    }
    if 0x80 <= bytes[at] && bytes[at] <= 0xbf {
        let field: u32 = le32_at(bytes, at);
        let length: usize = ((field & 0x3f) | ((field & !0xffu32) >> 2)) as usize;
        let back: u32 = le32_at(bytes, at + 4);
        let distance: u64 = (0x1_0000_0000u64 - back as u64) % 0x1_0000_0000;
        if distance > at as u64 {
            return None;
        }
        let start: usize = at - distance as usize;
        if length > total - start {
            return None;
        }
        string_from_utf8_bytes(vstd::slice::slice_to_vec(slice_subrange(bytes, start, start + length)))
    } else {
        let mut length: usize = 0;
        while length < 8 && bytes[at + length] != 0xff
            invariant
                length <= 8,
                total == bytes@.len(),
                at + 8 <= total,
                forall|i: int| at <= i < at + length ==> bytes@[i] != 0xff,
            decreases 8 - length,
        {
            length += 1;
        }
        proof {
            let r = bytes@.subrange(at as int, at + 8);
            lemma_first_mark(r, 8, length as int);
        }
        string_from_utf8_bytes(vstd::slice::slice_to_vec(slice_subrange(bytes, at, at + length)))
    }
}

/// `inline_length` is the place of the first `0xff`.
pub proof fn lemma_first_mark(r: Seq<u8>, count: int, n: int)
    requires
        0 <= n <= count <= r.len(),
        forall|i: int| 0 <= i < n ==> r[i] != 0xff,
        n < count ==> r[n] == 0xff,
    ensures
        inline_length(r, count) == n,
    decreases count,
{
    if count > 0 {
        if n == count {
            lemma_first_mark(r, count - 1, count - 1);
        } else {
            lemma_first_mark(r, count - 1, n);
        }
    }
}

/// The 8 bytes that stand for a string are 8 bytes.
pub proof fn lemma_repr_length(s: Seq<char>, distance: nat)
    ensures
        string_repr(s, distance).len() == 8,
{
    lemma_le32(tagged_length(text_bytes(s).len() as u32));
    lemma_le32(back32(distance));
}

/// What the first `count` of the strings put out of line, one text after
/// another.
pub open spec fn texts(strs: Seq<Seq<char>>, count: int) -> Seq<u8>
    decreases count,
{
    if count <= 0 {
        Seq::empty()
    } else {
        texts(strs, count - 1) + string_data(strs[count - 1])
    }
}

/// How far the string `i` of a vector lies before the bytes that stand
/// for it, where the vector's elements start `reach` bytes behind the
/// first text.
pub open spec fn text_distance(strs: Seq<Seq<char>>, reach: nat, i: int) -> nat {
    (reach + 8 * i - texts(strs, i).len()) as nat
}

/// The bytes that stand for the first `count` of the strings, 8 for each,
/// where they start `reach` bytes behind the first text.
pub open spec fn reprs(strs: Seq<Seq<char>>, count: int, reach: nat) -> Seq<u8>
    decreases count,
{
    if count <= 0 {
        Seq::empty()
    } else {
        reprs(strs, count - 1, reach) + string_repr(
            strs[count - 1],
            text_distance(strs, reach, count - 1),
        )
    }
}

/// The zeroes that bring `length` bytes up to a multiple of `unit`.
pub open spec fn gap(length: nat, unit: nat) -> nat {
    (round_up(length, unit) - length) as nat
}

/// How far behind the first text the elements of a vector of strings
/// start that is written behind `base` bytes: behind the texts, at the
/// next multiple of 4.
pub open spec fn strings_reach(strs: Seq<Seq<char>>, base: nat) -> nat {
    let length = texts(strs, strs.len() as int).len();
    length + gap(base + length, 4)
}

/// What a vector of strings adds to `base` bytes: the texts of its long
/// strings, zeroes up to a multiple of 4, and the 8 bytes that stand for
/// each string.
pub open spec fn strings_block(strs: Seq<Seq<char>>, base: nat) -> Seq<u8> {
    let length = texts(strs, strs.len() as int).len();
    texts(strs, strs.len() as int) + filler(gap(base + length, 4) as int, 0) + reprs(
        strs,
        strs.len() as int,
        strings_reach(strs, base),
    )
}

/// The texts of the strings lie one after another.
pub proof fn lemma_texts(strs: Seq<Seq<char>>, count: int, i: int)
    requires
        0 <= i < count <= strs.len(),
    ensures
        texts(strs, i).len() + string_data(strs[i]).len() == texts(strs, i + 1).len(),
        texts(strs, i + 1).len() <= texts(strs, count).len(),
        texts(strs, count).subrange(
            texts(strs, i).len() as int,
            texts(strs, i + 1).len() as int,
        ) == string_data(strs[i]),
    decreases count,
{
    if i == count - 1 {
        assert(texts(strs, count).subrange(
            texts(strs, i).len() as int,
            texts(strs, i + 1).len() as int,
        ) =~= string_data(strs[i]));
    } else {
        lemma_texts(strs, count - 1, i);
        assert(texts(strs, count).subrange(
            texts(strs, i).len() as int,
            texts(strs, i + 1).len() as int,
        ) =~= texts(strs, count - 1).subrange(
            texts(strs, i).len() as int,
            texts(strs, i + 1).len() as int,
        ));
    }
}

/// The bytes that stand for the strings lie one after another, 8 for
/// each.
pub proof fn lemma_reprs(strs: Seq<Seq<char>>, count: int, reach: nat, i: int)
    requires
        0 <= i < count <= strs.len(),
    ensures
        reprs(strs, count, reach).len() == 8 * count,
        reprs(strs, count, reach).subrange(8 * i, 8 * i + 8) == string_repr(
            strs[i],
            text_distance(strs, reach, i),
        ),
    decreases count,
{
    lemma_reprs_length(strs, count, reach);
    lemma_reprs_length(strs, count - 1, reach);
    lemma_repr_length(strs[count - 1], text_distance(strs, reach, count - 1));
    if i == count - 1 {
        assert(reprs(strs, count, reach).subrange(8 * i, 8 * i + 8) =~= string_repr(
            strs[i],
            text_distance(strs, reach, i),
        ));
    } else {
        lemma_reprs(strs, count - 1, reach, i);
        assert(reprs(strs, count, reach).subrange(8 * i, 8 * i + 8) =~= reprs(
            strs,
            count - 1,
            reach,
        ).subrange(8 * i, 8 * i + 8));
    }
}

/// The bytes that stand for `count` strings are 8 times `count` bytes.
pub proof fn lemma_reprs_length(strs: Seq<Seq<char>>, count: int, reach: nat)
    requires
        0 <= count <= strs.len(),
    ensures
        reprs(strs, count, reach).len() == 8 * count,
    decreases count,
{
    if count > 0 {
        lemma_reprs_length(strs, count - 1, reach);
        lemma_repr_length(strs[count - 1], text_distance(strs, reach, count - 1));
    }
}

/// The length of what a vector of strings adds, and where its elements
/// start.
pub proof fn lemma_strings_block(strs: Seq<Seq<char>>, base: nat)
    ensures
        strings_block(strs, base).len() == strings_reach(strs, base) + 8 * strs.len(),
        (base + strings_reach(strs, base)) % 4 == 0,
        texts(strs, strs.len() as int).len() <= strings_reach(strs, base),
{
    let length = texts(strs, strs.len() as int).len();
    lemma_round_up(base + length, 4);
    lemma_reprs_length(strs, strs.len() as int, strings_reach(strs, base));
}

/// Whether each of the strings has a text of a length that a reference
/// holds.
pub open spec fn strings_fit(strs: Seq<Seq<char>>) -> bool {
    forall|i: int| 0 <= i < strs.len() ==> text_bytes(#[trigger] strs[i]).len() <= MAX_STRING_LENGTH
}

/// The strings that the `count` references from `at` on stand for, if
/// each stands for one.
pub open spec fn strings_at(bytes: Seq<u8>, at: int, count: nat) -> Option<Seq<Seq<char>>> {
    if forall|i: int| 0 <= i < count ==> (#[trigger] string_at(bytes, at + 8 * i)) is Some {
        Some(Seq::new(count, |i: int| string_at(bytes, at + 8 * i).unwrap()))
    } else {
        None
    }
}

/// Where what a vector of strings adds lies at `start` in the bytes, the
/// string `i` is read back from the element that stands for it.
#[verifier::rlimit(60)]
pub proof fn lemma_string_in_block(
    bytes: Seq<u8>,
    start: int,
    strs: Seq<Seq<char>>,
    base: nat,
    i: int,
)
    requires
        strings_fit(strs),
        0 <= i < strs.len(),
        0 <= start,
        start + strings_block(strs, base).len() <= bytes.len(),
        bytes.len() < 0x1_0000_0000,
        bytes.subrange(start, start + strings_block(strs, base).len()) == strings_block(
            strs,
            base,
        ),
    ensures
        string_at(bytes, start + strings_reach(strs, base) + 8 * i) == Some(strs[i]),
{
    let n = strs.len() as int;
    let reach = strings_reach(strs, base);
    let block = strings_block(strs, base);
    let all = texts(strs, n);
    let at = start + reach;
    lemma_strings_block(strs, base);
    lemma_reprs_length(strs, n, reach);
    lemma_texts(strs, n, i);
    lemma_reprs(strs, n, reach, i);
    let distance = text_distance(strs, reach, i);
    let from = texts(strs, i).len() as int;
    assert(distance == reach + 8 * i - from);
    assert(block.len() == reach + 8 * n);
    assert(block.subrange(reach + 8 * i, reach + 8 * i + 8) =~= reprs(strs, n, reach).subrange(
        8 * i,
        8 * i + 8,
    ));
    assert(bytes.subrange(at + 8 * i, at + 8 * i + 8) =~= block.subrange(
        reach + 8 * i,
        reach + 8 * i + 8,
    ));
    if is_long(strs[i]) {
        let length = text_bytes(strs[i]).len() as int;
        assert(string_data(strs[i]) == text_bytes(strs[i]));
        assert(from + length <= all.len());
        assert(block.subrange(from, from + length) =~= all.subrange(from, from + length));
        assert(bytes.subrange(start + from, start + from + length) =~= block.subrange(
            from,
            from + length,
        ));
        assert(at + 8 * i - distance == start + from);
    }
    lemma_string_at(bytes, at + 8 * i, strs[i], distance);
}

/// Where what a vector of strings adds lies at `start` in the bytes, the
/// strings are read back from its elements.
pub proof fn lemma_strings_at(bytes: Seq<u8>, start: int, strs: Seq<Seq<char>>, base: nat)
    requires
        strings_fit(strs),
        0 <= start,
        start + strings_block(strs, base).len() <= bytes.len(),
        bytes.len() < 0x1_0000_0000,
        bytes.subrange(start, start + strings_block(strs, base).len()) == strings_block(
            strs,
            base,
        ),
    ensures
        strings_at(bytes, start + strings_reach(strs, base), strs.len()) == Some(strs),
{
    let at = start + strings_reach(strs, base);
    assert forall|i: int| 0 <= i < strs.len() implies #[trigger] string_at(bytes, at + 8 * i)
        == Some(strs[i]) by {
        lemma_string_in_block(bytes, start, strs, base, i);
    }
    assert(strings_at(bytes, at, strs.len()).unwrap() =~= strs);
}

/// The views of strings.
pub open spec fn string_views(strs: Seq<String>) -> Seq<Seq<char>> {
    Seq::new(strs.len(), |i: int| strs[i]@)
}

/// Tells whether each of the strings has a text of a length that a
/// reference holds.
pub fn strings_do_fit(strs: &Vec<String>) -> (r: bool)
    ensures
        r == strings_fit(string_views(strs@)),
{
    let mut i: usize = 0;
    while i < strs.len()
        invariant
            i <= strs@.len(),
            forall|j: int|
                0 <= j < i ==> text_bytes(#[trigger] string_views(strs@)[j]).len()
                    <= MAX_STRING_LENGTH,
        decreases strs@.len() - i,
    {
        if strs[i].as_str().as_bytes().len() > MAX_STRING_LENGTH {
            assert(string_views(strs@)[i as int] == strs@[i as int]@);
            return false;
        }
        assert(string_views(strs@)[i as int] == strs@[i as int]@);
        i += 1;
    }
    true
}

/// Writes a vector of strings behind the bytes: the texts of the long
/// strings, zeroes up to a multiple of 4, and the 8 bytes that stand for
/// each string. Returns where those start.
pub fn write_strings(bytes: &mut Vec<u8>, strs: &Vec<String>) -> (at: usize)
    requires
        strings_fit(string_views(strs@)),
    ensures
        final(bytes)@ == old(bytes)@ + strings_block(string_views(strs@), old(bytes)@.len()),
        at == old(bytes)@.len() + strings_reach(string_views(strs@), old(bytes)@.len()),
{
    let ghost before = bytes@;
    let ghost model = string_views(strs@);
    let base: usize = bytes.len();
    let mut places: Vec<usize> = Vec::new();
    let mut i: usize = 0;
    assert(bytes@ =~= before + texts(model, 0));
    while i < strs.len()
        invariant
            i <= strs@.len(),
            model == string_views(strs@),
            strings_fit(model),
            base == before.len(),
            bytes@ == before + texts(model, i as int),
            places@.len() == i,
            forall|j: int| 0 <= j < i ==> #[trigger] places@[j] == base + texts(model, j).len(),
        decreases strs@.len() - i,
    {
        assert(model[i as int] == strs@[i as int]@);
        places.push(bytes.len());
        let text: &[u8] = strs[i].as_str().as_bytes();
        if text.len() > 8 {
            let mut part: Vec<u8> = vstd::slice::slice_to_vec(text);
            bytes.append(&mut part);
        }
        i += 1;
        assert(bytes@ =~= before + texts(model, i as int));
    }
    let ghost length = texts(model, strs@.len() as int).len();
    proof {
        lemma_round_up(base as nat + length, 4);
    }
    while bytes.len() % 4 != 0
        invariant
            base == before.len(),
            base + length <= bytes@.len() <= round_up(base as nat + length, 4),
            round_up(base as nat + length, 4) % 4 == 0,
            length == texts(model, strs@.len() as int).len(),
            bytes@ == before + texts(model, strs@.len() as int) + filler(
                bytes@.len() - base - length,
                0,
            ),
        decreases round_up(base as nat + length, 4) - bytes@.len(),
    {
        bytes.push(0);
        assert(bytes@ =~= before + texts(model, strs@.len() as int) + filler(
            bytes@.len() - base - length,
            0,
        ));
    }
    let at: usize = bytes.len();
    let ghost reach = strings_reach(model, base as nat);
    assert(at == base + reach);
    let ghost head = bytes@;
    let mut i: usize = 0;
    assert(bytes@ =~= head + reprs(model, 0, reach));
    while i < strs.len()
        invariant
            i <= strs@.len(),
            model == string_views(strs@),
            strings_fit(model),
            places@.len() == strs@.len(),
            forall|j: int|
                0 <= j < strs@.len() ==> #[trigger] places@[j] == base + texts(model, j).len(),
            at == base + reach,
            reach == strings_reach(model, base as nat),
            length == texts(model, strs@.len() as int).len(),
            bytes@ == head + reprs(model, i as int, reach),
            bytes@.len() == at + 8 * i,
        decreases strs@.len() - i,
    {
        proof {
            assert(model[i as int] == strs@[i as int]@);
            lemma_texts(model, strs@.len() as int, i as int);
            lemma_repr_length(model[i as int], text_distance(model, reach, i as int));
        }
        let distance: usize = bytes.len() - places[i];
        let mut part: Vec<u8> = repr_bytes(&strs[i], distance as u128);
        bytes.append(&mut part);
        i += 1;
        assert(bytes@ =~= head + reprs(model, i as int, reach));
    }
    assert(bytes@ =~= before + strings_block(model, base as nat));
    at
}

/// Reads the strings that the `count` references from `at` on stand for.
/// Returns `None` if one of them stands for none.
pub fn read_strings(bytes: &[u8], at: usize, count: usize) -> (r: Option<Vec<String>>)
    ensures
        match r {
            Some(strs) => strings_at(bytes@, at as int, count as nat) == Some(
                string_views(strs@),
            ),
            None => strings_at(bytes@, at as int, count as nat) is None,
        },
{
    let total: usize = bytes.len();
    let mut strs: Vec<String> = Vec::new();
    let mut i: usize = 0;
    while i < count
        invariant
            i <= count,
            total == bytes@.len(),
            strs@.len() == i,
            forall|j: int|
                0 <= j < i ==> #[trigger] string_at(bytes@, at + 8 * j) == Some(strs@[j]@),
        decreases count - i,
    {
        if at > total || i > (total - at) / 8 {
            assert(string_at(bytes@, at + 8 * i) is None);
            return None;
        }
        match read_string_at(bytes, at + 8 * i) {
            Some(s) => {
                strs.push(s);
            },
            None => {
                return None;
            },
        }
        i += 1;
    }
    assert(strings_at(bytes@, at as int, count as nat).unwrap() =~= string_views(strs@));
    Some(strs)
}

} // verus!
