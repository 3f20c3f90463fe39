//! Reading the values of an archived row.
//!
//! The columns of a row lie at the end of the row's bytes, each at the
//! next multiple of its type's padding, counted from the first column;
//! the columns together take a multiple of 4 bytes. A number lies with its
//! low byte first. A string lies as an 8-byte reference: a text of up to
//! 8 bytes in place, ended by `0xff`, or the tagged length of the text and
//! the distance from the reference to its first byte.

use crate::error::Error;
use crate::persistence::data::types::{ColumnValue, DataType, DataTypeValue};
use crate::persistence::data::util::{lemma_padded, padded};
use crate::util::text::{string_from_utf8_bytes, untagged_length};
use vstd::bytes::*;
use vstd::prelude::*;
use vstd::slice::slice_subrange;
use vstd::utf8::*;

verus! {

/// Where the first `count` columns end, counted from the first column.
pub open spec fn row_end(types: Seq<DataType>, count: int) -> nat
    decreases count,
{
    if count <= 0 {
        0
    } else {
        padded(row_end(types, count - 1), types[count - 1].spec_padding()) + types[count
            - 1].spec_size()
    }
}

/// Where the column `i` starts, counted from the first column.
pub open spec fn column_offset(types: Seq<DataType>, i: int) -> nat {
    padded(row_end(types, i), types[i].spec_padding())
}

/// The number of bytes that the columns take.
pub open spec fn row_length(types: Seq<DataType>) -> nat {
    padded(row_end(types, types.len() as int), 4)
}

/// The columns end later the more of them there are.
pub proof fn lemma_row_end_grows(types: Seq<DataType>, i: int, j: int)
    requires
        0 <= i <= j <= types.len(),
    ensures
        row_end(types, i) <= row_end(types, j),
    decreases j - i,
{
    if i < j {
        lemma_row_end_grows(types, i, j - 1);
        lemma_padded(row_end(types, j - 1), types[j - 1].spec_padding());
    }
}

/// The 64-bit number that the bits spell in two's complement.
pub open spec fn signed64(bits: u64) -> i64 {
    if bits < 0x8000_0000_0000_0000 {
        bits as i64
    } else {
        (bits - 0x1_0000_0000_0000_0000) as i64
    }
}

/// The 32-bit number that the bits spell in two's complement.
pub open spec fn signed32(bits: u32) -> i32 {
    if bits < 0x8000_0000 {
        bits as i32
    } else {
        (bits - 0x1_0000_0000) as i32
    }
}

/// The 16-bit number that the bits spell in two's complement.
pub open spec fn signed16(bits: u16) -> i16 {
    if bits < 0x8000 {
        bits as i16
    } else {
        (bits - 0x1_0000) as i16
    }
}

/// The 8-bit number that the bits spell in two's complement.
pub open spec fn signed8(bits: u8) -> i8 {
    if bits < 0x80 {
        bits as i8
    } else {
        (bits - 0x100) as i8
    }
}

/// The 128-bit number that the bits spell in two's complement.
pub open spec fn signed128(bits: u128) -> i128 {
    if bits < 0x8000_0000_0000_0000_0000_0000_0000_0000 {
        bits as i128
    } else {
        (bits - 0x1_0000_0000_0000_0000_0000_0000_0000_0000) as i128
    }
}

/// The length of a text that lies in place in a reference: the place of
/// the first `0xff` from `from` on, or 8.
pub open spec fn inline_length(reference: Seq<u8>, from: int) -> int
    decreases 8 - from,
{
    if from >= 8 {
        8
    } else if reference[from] == 0xff {
        from
    } else {
        inline_length(reference, from + 1)
    }
}

/// The bytes of the text whose reference lies at `at`, if the reference
/// and the text lie inside the bytes.
pub open spec fn text_bytes_at(buf: Seq<u8>, at: int) -> Option<Seq<u8>> {
    let reference = buf.subrange(at, at + 8);
    if reference[0] & 0xc0 != 0x80 {
        Some(reference.subrange(0, inline_length(reference, 0)))
    } else {
        let length = untagged_length(spec_u32_from_le_bytes(reference.subrange(0, 4)));
        let start = at + signed32(spec_u32_from_le_bytes(reference.subrange(4, 8)));
        if 0 <= start && start + length <= buf.len() {
            Some(buf.subrange(start, start + length))
        } else {
            None
        }
    }
}

/// The value of the type `ty` that lies at `at`, if one lies there.
pub open spec fn column_value(buf: Seq<u8>, at: int, ty: DataType) -> Option<ColumnValue> {
    match ty {
        DataType::String => match text_bytes_at(buf, at) {
            Some(bytes) => if valid_utf8(bytes) {
                Some(ColumnValue::String(decode_utf8(bytes)))
            } else {
                None
            },
            None => None,
        },
        DataType::I128 => Some(
            ColumnValue::I128(signed128(spec_u128_from_le_bytes(buf.subrange(at, at + 16)))),
        ),
        DataType::U128 => Some(ColumnValue::U128(spec_u128_from_le_bytes(buf.subrange(at, at + 16)))),
        DataType::I64 => Some(
            ColumnValue::I64(signed64(spec_u64_from_le_bytes(buf.subrange(at, at + 8)))),
        ),
        DataType::U64 => Some(ColumnValue::U64(spec_u64_from_le_bytes(buf.subrange(at, at + 8)))),
        DataType::F64 => Some(ColumnValue::F64(spec_u64_from_le_bytes(buf.subrange(at, at + 8)))),
        DataType::I32 => Some(
            ColumnValue::I32(signed32(spec_u32_from_le_bytes(buf.subrange(at, at + 4)))),
        ),
        DataType::U32 => Some(ColumnValue::U32(spec_u32_from_le_bytes(buf.subrange(at, at + 4)))),
        DataType::F32 => Some(ColumnValue::F32(spec_u32_from_le_bytes(buf.subrange(at, at + 4)))),
        DataType::I16 => Some(
            ColumnValue::I16(signed16(spec_u16_from_le_bytes(buf.subrange(at, at + 2)))),
        ),
        DataType::U16 => Some(ColumnValue::U16(spec_u16_from_le_bytes(buf.subrange(at, at + 2)))),
        DataType::I8 => Some(ColumnValue::I8(signed8(buf[at]))),
        DataType::U8 => Some(ColumnValue::U8(buf[at])),
    }
}

/// Whether the bytes hold a row of the types: the columns fit the bytes,
/// and a value lies at the place of each.
pub open spec fn holds_row(buf: Seq<u8>, types: Seq<DataType>) -> bool {
    &&& row_length(types) <= buf.len()
    &&& forall|i: int|
        0 <= i < types.len() ==> (#[trigger] column_value(
            buf,
            buf.len() - row_length(types) + column_offset(types, i),
            types[i],
        )) is Some
}

/// The value of the column `i` of the row of the types that the bytes
/// hold.
pub open spec fn row_value(buf: Seq<u8>, types: Seq<DataType>, i: int) -> ColumnValue {
    column_value(buf, buf.len() - row_length(types) + column_offset(types, i), types[i]).unwrap()
}

/// Reads the value of the type `ty` that lies at `at`.
fn read_value(buf: &[u8], at: usize, ty: DataType) -> (r: Option<DataTypeValue>)
    requires
        at + ty.spec_size() <= buf@.len(),
    ensures
        match r {
            Some(value) => column_value(buf@, at as int, ty) == Some(value@),
            None => column_value(buf@, at as int, ty) is None,
        },
{
    let total: usize = buf.len();
    match ty {
        DataType::String => read_text(buf, at),
        DataType::I128 => {
            let bits: u128 = u128_from_le_bytes(slice_subrange(buf, at, at + 16));
            let value: i128 = if bits < 0x8000_0000_0000_0000_0000_0000_0000_0000 {
                bits as i128
            } else {
                (bits - 0x8000_0000_0000_0000_0000_0000_0000_0000) as i128 + i128::MIN
            };
            Some(DataTypeValue::I128(value))
        },
        DataType::U128 => Some(
            DataTypeValue::U128(u128_from_le_bytes(slice_subrange(buf, at, at + 16))),
        ),
        DataType::I64 => {
            let bits: u64 = u64_from_le_bytes(slice_subrange(buf, at, at + 8));
            let value: i64 = if bits < 0x8000_0000_0000_0000 {
                bits as i64
            } else {
                (bits - 0x8000_0000_0000_0000) as i64 + i64::MIN
            };
            Some(DataTypeValue::I64(value))
        },
        DataType::U64 => Some(DataTypeValue::U64(u64_from_le_bytes(slice_subrange(buf, at, at + 8)))),
        DataType::F64 => Some(DataTypeValue::F64(u64_from_le_bytes(slice_subrange(buf, at, at + 8)))),
        DataType::I32 => {
            let bits: u32 = u32_from_le_bytes(slice_subrange(buf, at, at + 4));
            Some(DataTypeValue::I32(to_signed32(bits)))
        },
        DataType::U32 => Some(DataTypeValue::U32(u32_from_le_bytes(slice_subrange(buf, at, at + 4)))),
        DataType::F32 => Some(DataTypeValue::F32(u32_from_le_bytes(slice_subrange(buf, at, at + 4)))),
        DataType::I16 => {
            let bits: u16 = u16_from_le_bytes(slice_subrange(buf, at, at + 2));
            let value: i16 = if bits < 0x8000 {
                bits as i16
            } else {
                (bits - 0x8000) as i16 + i16::MIN
            };
            Some(DataTypeValue::I16(value))
        },
        DataType::U16 => Some(DataTypeValue::U16(u16_from_le_bytes(slice_subrange(buf, at, at + 2)))),
        DataType::I8 => {
            let bits: u8 = buf[at];
            let value: i8 = if bits < 0x80 {
                bits as i8
            } else {
                (bits - 0x80) as i8 + i8::MIN
            };
            Some(DataTypeValue::I8(value))
        },
        DataType::U8 => Some(DataTypeValue::U8(buf[at])),
    }
}

/// Returns the 32-bit number that the bits spell in two's complement.
fn to_signed32(bits: u32) -> (value: i32)
    ensures
        value == signed32(bits),
{
    if bits < 0x8000_0000 {
        bits as i32
    } else {
        (bits - 0x8000_0000) as i32 + i32::MIN
    }
}

/// Reads the text whose reference lies at `at`.
fn read_text(buf: &[u8], at: usize) -> (r: Option<DataTypeValue>)
    requires
        at + 8 <= buf@.len(),
    ensures
        match r {
            Some(value) => column_value(buf@, at as int, DataType::String) == Some(value@),
            None => column_value(buf@, at as int, DataType::String) is None,
        },
{
    let total: usize = buf.len();
    let reference: &[u8] = slice_subrange(buf, at, at + 8);
    let bytes: Vec<u8> = if reference[0] & 0xc0 != 0x80 {
        let mut length: usize = 0;
        while length < 8 && reference[length] != 0xff
            invariant
                length <= 8,
                reference@.len() == 8,
                inline_length(reference@, 0) == inline_length(reference@, length as int),
            decreases 8 - length,
        {
            length += 1;
        }
        vstd::slice::slice_to_vec(slice_subrange(reference, 0, length))
    } else {
        let field: u32 = u32_from_le_bytes(slice_subrange(reference, 0, 4));
        let length: u32 = (field & 0x3f) | ((field & !0xffu32) >> 2);
        let back: i32 = to_signed32(u32_from_le_bytes(slice_subrange(reference, 4, 8)));
        let start: i128 = at as i128 + back as i128;
        if start < 0 || start + length as i128 > buf.len() as i128 {
            return None;
        }
        let start: usize = start as usize;
        vstd::slice::slice_to_vec(slice_subrange(buf, start, start + length as usize))
    };
    proof {
        encode_utf8_valid_utf8(Seq::<char>::empty());
    }
    match string_from_utf8_bytes(bytes) {
        Some(s) => {
            proof {
                encode_utf8_valid_utf8(s@);
                encode_utf8_decode_utf8(s@);
            }
            Some(DataTypeValue::String(s))
        },
        None => None,
    }
}

/// Reads the values of a row of the types from the end of the bytes.
/// Fails with `Error::Decode` if the bytes hold no row of the types.
pub fn parse_row(buf: &[u8], types: &Vec<DataType>) -> (r: Result<Vec<DataTypeValue>, Error>)
    ensures
        match r {
            Ok(values) => holds_row(buf@, types@) && values@.len() == types@.len() && forall|
                i: int,
            |
                0 <= i < values@.len() ==> (#[trigger] values@[i])@ == row_value(buf@, types@, i),
            Err(e) => e == Error::Decode && !holds_row(buf@, types@),
        },
{
    let total: usize = buf.len();
    let mut offsets: Vec<usize> = Vec::new();
    let mut accum: u128 = 0;
    let mut i: usize = 0;
    while i < types.len()
        invariant
            i <= types@.len(),
            total == buf@.len(),
            accum == row_end(types@, i as int),
            accum <= buf@.len(),
            offsets@.len() == i,
            forall|j: int| 0 <= j < i ==> (#[trigger] offsets@[j]) == column_offset(types@, j),
        decreases types@.len() - i,
    {
        let ty: DataType = types[i];
        let padding: u128 = ty.padding() as u128;
        proof {
            lemma_padded(accum as nat, padding as nat);
        }
        if accum % padding != 0 {
            accum += padding - accum % padding;
        }
        let start: u128 = accum;
        accum += ty.size() as u128;
        if accum > buf.len() as u128 {
            proof {
                lemma_row_end_grows(types@, i + 1, types@.len() as int);
                lemma_padded(row_end(types@, types@.len() as int), 4);
            }
            return Err(Error::Decode);
        }
        offsets.push(start as usize);
        i += 1;
    }
    proof {
        lemma_padded(accum as nat, 4);
    }
    if accum % 4 != 0 {
        accum += 4 - accum % 4;
    }
    if accum > buf.len() as u128 {
        return Err(Error::Decode);
    }
    let start: usize = buf.len() - accum as usize;
    let mut values: Vec<DataTypeValue> = Vec::new();
    let mut i: usize = 0;
    while i < types.len()
        invariant
            i <= types@.len(),
            total == buf@.len(),
            offsets@.len() == types@.len(),
            start == buf@.len() - row_length(types@),
            row_length(types@) <= buf@.len(),
            forall|j: int|
                0 <= j < types@.len() ==> (#[trigger] offsets@[j]) == column_offset(types@, j),
            values@.len() == i,
            forall|j: int|
                0 <= j < i ==> column_value(
                    buf@,
                    buf@.len() - row_length(types@) + column_offset(types@, j),
                    types@[j],
                ) == Some((#[trigger] values@[j])@),
        decreases types@.len() - i,
    {
        proof {
            lemma_row_end_grows(types@, i + 1, types@.len() as int);
            lemma_padded(row_end(types@, types@.len() as int), 4);
            assert(offsets@[i as int] == column_offset(types@, i as int));
        }
        match read_value(buf, start + offsets[i], types[i]) {
            Some(value) => {
                values.push(value);
            },
            None => {
                assert(column_value(
                    buf@,
                    buf@.len() - row_length(types@) + column_offset(types@, i as int),
                    types@[i as int],
                ) is None);
                return Err(Error::Decode);
            },
        }
        i += 1;
    }
    proof {
        assert forall|j: int| 0 <= j < types@.len() implies (#[trigger] column_value(
            buf@,
            buf@.len() - row_length(types@) + column_offset(types@, j),
            types@[j],
        )) is Some by {
            assert(column_value(
                buf@,
                buf@.len() - row_length(types@) + column_offset(types@, j),
                types@[j],
            ) == Some(values@[j]@));
        }
        assert forall|j: int| 0 <= j < values@.len() implies (#[trigger] values@[j])@
            == row_value(buf@, types@, j) by {
            assert(column_value(
                buf@,
                buf@.len() - row_length(types@) + column_offset(types@, j),
                types@[j],
            ) == Some(values@[j]@));
        }
    }
    Ok(values)
}

/// The types that the second parts of the columns name, if each names one.
pub open spec fn types_named(columns: Seq<(String, String)>) -> Option<Seq<DataType>> {
    if forall|i: int| 0 <= i < columns.len() ==> DataType::named((#[trigger] columns[i]).1@) is Some {
        Some(Seq::new(columns.len(), |i: int| DataType::named(columns[i].1@).unwrap()))
    } else {
        None
    }
}

/// Returns the types that the columns name. Fails with `Error::Decode` if
/// a column names no type.
pub fn column_types(columns: &Vec<(String, String)>) -> (r: Result<Vec<DataType>, Error>)
    ensures
        match r {
            Ok(types) => types_named(columns@) == Some(types@),
            Err(e) => e == Error::Decode && types_named(columns@) is None,
        },
{
    let mut types: Vec<DataType> = Vec::new();
    let mut i: usize = 0;
    while i < columns.len()
        invariant
            i <= columns@.len(),
            types@.len() == i,
            forall|j: int|
                0 <= j < i ==> DataType::named((#[trigger] columns@[j]).1@) == Some(types@[j]),
        decreases columns@.len() - i,
    {
        match DataType::from_name(columns[i].1.as_str()) {
            Some(ty) => {
                types.push(ty);
            },
            None => {
                assert(DataType::named(columns@[i as int].1@) is None);
                return Err(Error::Decode);
            },
        }
        i += 1;
    }
    assert(types@ =~= Seq::new(columns@.len(), |i: int| DataType::named(columns@[i].1@).unwrap()));
    Ok(types)
}

/// Reads the values of a row from the end of the bytes. `columns` gives
/// the name and the type of each column. Fails with `Error::Decode` if a
/// column names no type, or if the bytes hold no row of the types.
pub fn parse_archived_row(buf: &[u8], columns: &Vec<(String, String)>) -> (r: Result<
    Vec<DataTypeValue>,
    Error,
>)
    ensures
        match r {
            Ok(values) => match types_named(columns@) {
                Some(types) => holds_row(buf@, types) && values@.len() == types.len() && forall|
                    i: int,
                |
                    0 <= i < values@.len() ==> (#[trigger] values@[i])@ == row_value(
                        buf@,
                        types,
                        i,
                    ),
                None => false,
            },
            Err(e) => e == Error::Decode && match types_named(columns@) {
                Some(types) => !holds_row(buf@, types),
                None => true,
            },
        },
{
    let types = match column_types(columns) {
        Ok(types) => types,
        Err(e) => {
            return Err(e);
        },
    };
    parse_row(buf, &types)
}

} // verus!
