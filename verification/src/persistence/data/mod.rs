//! Rows of archived values.

pub mod row;
pub mod table_format;
pub mod types;
pub mod util;

pub use row::{parse_archived_row, parse_row};
pub use table_format::column_widths;
pub use types::{is_primitive, DataType, DataTypeValue};
pub use util::advance_accum_for_padding;
