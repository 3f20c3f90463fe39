//! The widths of the columns of a table of texts.

use vstd::prelude::*;
use vstd::string::StringSliceAdditionalSpecFns;
use vstd::utf8::encode_utf8;

verus! {

/// The number of bytes of a text.
pub open spec fn text_len(text: String) -> nat {
    encode_utf8(text@).len()
}

/// The width of the column `column`, seen over the header and the first
/// `count` rows: the greatest number of bytes of a text in it.
pub open spec fn column_width(
    header: Seq<String>,
    rows: Seq<Vec<String>>,
    column: int,
    count: int,
) -> nat
    decreases count,
{
    if count <= 0 {
        text_len(header[column])
    } else {
        let before = column_width(header, rows, column, count - 1);
        let row = rows[count - 1]@;
        if column < row.len() && text_len(row[column]) > before {
            text_len(row[column])
        } else {
            before
        }
    }
}

/// Returns the width of each column of a table: the greatest number of
/// bytes of a text in the column, the header included.
pub fn column_widths(header: &Vec<String>, rows: &Vec<Vec<String>>) -> (widths: Vec<usize>)
    requires
        forall|r: int| 0 <= r < rows@.len() ==> (#[trigger] rows@[r])@.len() <= header@.len(),
    ensures
        widths@.len() == header@.len(),
        forall|i: int|
            0 <= i < widths@.len() ==> #[trigger] widths@[i] == column_width(
                header@,
                rows@,
                i,
                rows@.len() as int,
            ),
{
    let mut widths: Vec<usize> = Vec::new();
    let mut i: usize = 0;
    while i < header.len()
        invariant
            i <= header@.len(),
            widths@.len() == i,
            forall|k: int|
                0 <= k < i ==> #[trigger] widths@[k] == column_width(header@, rows@, k, 0),
        decreases header@.len() - i,
    {
        widths.push(header[i].as_str().as_bytes().len());
        i += 1;
    }
    let mut r: usize = 0;
    while r < rows.len()
        invariant
            r <= rows@.len(),
            widths@.len() == header@.len(),
            forall|k: int| 0 <= k < rows@.len() ==> (#[trigger] rows@[k])@.len() <= header@.len(),
            forall|k: int|
                0 <= k < widths@.len() ==> #[trigger] widths@[k] == column_width(
                    header@,
                    rows@,
                    k,
                    r as int,
                ),
        decreases rows@.len() - r,
    {
        let row: &Vec<String> = &rows[r];
        let mut c: usize = 0;
        while c < row.len()
            invariant
                c <= row@.len(),
                r < rows@.len(),
                row@ == rows@[r as int]@,
                row@.len() <= header@.len(),
                widths@.len() == header@.len(),
                forall|k: int|
                    0 <= k < c ==> #[trigger] widths@[k] == column_width(
                        header@,
                        rows@,
                        k,
                        r + 1,
                    ),
                forall|k: int|
                    c <= k < widths@.len() ==> #[trigger] widths@[k] == column_width(
                        header@,
                        rows@,
                        k,
                        r as int,
                    ),
            decreases row@.len() - c,
        {
            let length: usize = row[c].as_str().as_bytes().len();
            if length > widths[c] {
                widths[c] = length;
            }
            c += 1;
        }
        r += 1;
    }
    widths
}

} // verus!
