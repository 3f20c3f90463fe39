//! The types of the columns of a row, and their values.

use crate::util::text::same_text;
use vstd::prelude::*;

verus! {

/// The type of a column.
#[derive(Clone, Copy, Debug, PartialEq, Eq, Structural)]
pub enum DataType {
    String,
    I128,
    I64,
    I32,
    I16,
    I8,
    U128,
    U64,
    U32,
    U16,
    U8,
    F64,
    F32,
}

/// The value of one column of a row. A floating-point number is held as
/// the bits that spell it.
#[derive(Clone, Debug, PartialEq, Eq)]
pub enum DataTypeValue {
    String(String),
    I128(i128),
    I64(i64),
    I32(i32),
    I16(i16),
    I8(i8),
    U128(u128),
    U64(u64),
    U32(u32),
    U16(u16),
    U8(u8),
    F64(u64),
    F32(u32),
}

/// A value of a column as a mathematical value.
pub enum ColumnValue {
    String(Seq<char>),
    I128(i128),
    I64(i64),
    I32(i32),
    I16(i16),
    I8(i8),
    U128(u128),
    U64(u64),
    U32(u32),
    U16(u16),
    U8(u8),
    F64(u64),
    F32(u32),
}

impl View for DataTypeValue {
    type V = ColumnValue;

    open spec fn view(&self) -> ColumnValue {
        match *self {
            DataTypeValue::String(s) => ColumnValue::String(s@),
            DataTypeValue::I128(v) => ColumnValue::I128(v),
            DataTypeValue::I64(v) => ColumnValue::I64(v),
            DataTypeValue::I32(v) => ColumnValue::I32(v),
            DataTypeValue::I16(v) => ColumnValue::I16(v),
            DataTypeValue::I8(v) => ColumnValue::I8(v),
            DataTypeValue::U128(v) => ColumnValue::U128(v),
            DataTypeValue::U64(v) => ColumnValue::U64(v),
            DataTypeValue::U32(v) => ColumnValue::U32(v),
            DataTypeValue::U16(v) => ColumnValue::U16(v),
            DataTypeValue::U8(v) => ColumnValue::U8(v),
            DataTypeValue::F64(v) => ColumnValue::F64(v),
            DataTypeValue::F32(v) => ColumnValue::F32(v),
        }
    }
}

impl DataType {
    /// The number of bytes of an archived value of the type. A string
    /// takes the 8 bytes of its reference.
    pub open spec fn spec_size(self) -> nat {
        match self {
            DataType::String => 8,
            DataType::I128 | DataType::U128 => 16,
            DataType::I64 | DataType::U64 | DataType::F64 => 8,
            DataType::I32 | DataType::U32 | DataType::F32 => 4,
            DataType::I16 | DataType::U16 => 2,
            DataType::I8 | DataType::U8 => 1,
        }
    }

    /// The multiple that an archived value of the type starts at. A string
    /// starts at a multiple of 4, a number at a multiple of its size.
    pub open spec fn spec_padding(self) -> nat {
        match self {
            DataType::String => 4,
            _ => self.spec_size(),
        }
    }

    /// Returns the number of bytes of an archived value of the type.
    pub fn size(self) -> (r: usize)
        ensures
            r == self.spec_size(),
    {
        match self {
            DataType::String => 8,
            DataType::I128 => 16,
            DataType::U128 => 16,
            DataType::I64 => 8,
            DataType::U64 => 8,
            DataType::F64 => 8,
            DataType::I32 => 4,
            DataType::U32 => 4,
            DataType::F32 => 4,
            DataType::I16 => 2,
            DataType::U16 => 2,
            DataType::I8 => 1,
            DataType::U8 => 1,
        }
    }

    /// Returns the multiple that an archived value of the type starts at.
    pub fn padding(self) -> (r: usize)
        ensures
            r == self.spec_padding(),
    {
        match self {
            DataType::String => 4,
            _ => self.size(),
        }
    }

    /// The type that a name stands for, if it stands for one.
    pub open spec fn named(name: Seq<char>) -> Option<DataType> {
        if name == "String"@ {
            Some(DataType::String)
        } else if name == "i128"@ {
            Some(DataType::I128)
        } else if name == "i64"@ {
            Some(DataType::I64)
        } else if name == "i32"@ {
            Some(DataType::I32)
        } else if name == "i16"@ {
            Some(DataType::I16)
        } else if name == "i8"@ {
            Some(DataType::I8)
        } else if name == "u128"@ {
            Some(DataType::U128)
        } else if name == "u64"@ {
            Some(DataType::U64)
        } else if name == "u32"@ {
            Some(DataType::U32)
        } else if name == "u16"@ {
            Some(DataType::U16)
        } else if name == "u8"@ {
            Some(DataType::U8)
        } else if name == "f64"@ {
            Some(DataType::F64)
        } else if name == "f32"@ {
            Some(DataType::F32)
        } else {
            None
        }
    }

    /// Returns the type that `name` stands for, if it stands for one.
    pub fn from_name(name: &str) -> (r: Option<DataType>)
        ensures
            r == Self::named(name@),
    {
        if same_text(name, "String") {
            Some(DataType::String)
        } else if same_text(name, "i128") {
            Some(DataType::I128)
        } else if same_text(name, "i64") {
            Some(DataType::I64)
        } else if same_text(name, "i32") {
            Some(DataType::I32)
        } else if same_text(name, "i16") {
            Some(DataType::I16)
        } else if same_text(name, "i8") {
            Some(DataType::I8)
        } else if same_text(name, "u128") {
            Some(DataType::U128)
        } else if same_text(name, "u64") {
            Some(DataType::U64)
        } else if same_text(name, "u32") {
            Some(DataType::U32)
        } else if same_text(name, "u16") {
            Some(DataType::U16)
        } else if same_text(name, "u8") {
            Some(DataType::U8)
        } else if same_text(name, "f64") {
            Some(DataType::F64)
        } else if same_text(name, "f32") {
            Some(DataType::F32)
        } else {
            None
        }
    }
}

/// Whether `ty` names a type whose vectors hold the values one after
/// another without padding.
pub open spec fn primitive_name(ty: Seq<char>) -> bool {
    ty == "u8"@ || ty == "u16"@ || ty == "u32"@ || ty == "u64"@ || ty == "usize"@ || ty == "i8"@
        || ty == "i16"@ || ty == "i32"@ || ty == "i64"@ || ty == "isize"@ || ty == "bool"@ || ty
        == "char"@ || ty == "f64"@ || ty == "f32"@
}

/// Tells whether `ty` names a primitive type.
pub fn is_primitive(ty: &str) -> (r: bool)
    ensures
        r == primitive_name(ty@),
{
    same_text(ty, "u8") || same_text(ty, "u16") || same_text(ty, "u32") || same_text(ty, "u64")
        || same_text(ty, "usize") || same_text(ty, "i8") || same_text(ty, "i16") || same_text(
        ty,
        "i32",
    ) || same_text(ty, "i64") || same_text(ty, "isize") || same_text(ty, "bool") || same_text(
        ty,
        "char",
    ) || same_text(ty, "f64") || same_text(ty, "f32")
}

} // verus!
