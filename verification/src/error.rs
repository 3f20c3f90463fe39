//! The errors that the library reports.

use vstd::prelude::*;
use vstd::string::StringExecFns;

verus! {

/// The kinds of failure that the storage layer distinguishes.
#[derive(Clone, Copy, Debug, PartialEq, Eq, Structural)]
pub enum ErrorKind {
    /// The file could not be read, written or positioned.
    Io,
    /// The bytes are not the byte form of a value of the expected type.
    Decode,
    /// A link does not fit the page, or the data do not fit the link.
    InvalidLink,
    /// A node-level change event was handed to a page.
    InvalidEvent,
    /// The page was written by another version of the format.
    VersionMismatch,
    /// The page holds no room for what was to go into it.
    PageFull,
    /// An event names a position that the page does not have.
    InvalidPosition,
}

/// What went wrong, with the numbers that explain it.
#[derive(Clone, Copy, Debug, PartialEq, Eq, Structural)]
pub enum Error {
    /// The file ends before the bytes that were asked for.
    Io,
    /// The bytes are not the byte form of a value of the expected type.
    Decode,
    /// The data are not as long as the link says.
    LengthMismatch { data_length: usize, link_length: u32 },
    /// The link reaches beyond the page's data.
    OutOfBounds { offset: u32, length: u32, bound: usize },
    /// A node-level change event was handed to a page.
    NodeEvent,
    /// The page holds no room for another value.
    PageFull,
    /// The event names a position outside the page's `entries` entries.
    MisplacedEvent { index: usize, entries: u16 },
    /// The page was written by another version of the format.
    VersionMismatch { found: u32 },
}

impl Error {
    /// The kind of the error.
    pub open spec fn spec_kind(self) -> ErrorKind {
        match self {
            Error::Io => ErrorKind::Io,
            Error::Decode => ErrorKind::Decode,
            Error::LengthMismatch { .. } => ErrorKind::InvalidLink,
            Error::OutOfBounds { .. } => ErrorKind::InvalidLink,
            Error::NodeEvent => ErrorKind::InvalidEvent,
            Error::PageFull => ErrorKind::PageFull,
            Error::MisplacedEvent { .. } => ErrorKind::InvalidPosition,
            Error::VersionMismatch { .. } => ErrorKind::VersionMismatch,
        }
    }

    /// Returns the kind of the error.
    pub fn kind(&self) -> (k: ErrorKind)
        ensures
            k == self.spec_kind(),
    {
        match self {
            Error::Io => ErrorKind::Io,
            Error::Decode => ErrorKind::Decode,
            Error::LengthMismatch { .. } => ErrorKind::InvalidLink,
            Error::OutOfBounds { .. } => ErrorKind::InvalidLink,
            Error::NodeEvent => ErrorKind::InvalidEvent,
            Error::PageFull => ErrorKind::PageFull,
            Error::MisplacedEvent { .. } => ErrorKind::InvalidPosition,
            Error::VersionMismatch { .. } => ErrorKind::VersionMismatch,
        }
    }
}

impl Error {
    /// Returns the error in words.
    pub fn to_string(&self) -> (r: String)
        ensures
            r@ == self.message(),
    {
        match self {
            Error::Io => String::from_str("The file ends before the bytes that were asked for"),
            Error::Decode => String::from_str("The bytes are not the byte form of a value"),
            Error::LengthMismatch { data_length, link_length } => {
                let mut text = String::from_str("New data length ");
                text.append(decimal_text(*data_length as u64).as_str());
                text.append(" does not match link length ");
                text.append(decimal_text(*link_length as u64).as_str());
                text
            },
            Error::OutOfBounds { offset, length, bound } => {
                let mut text = String::from_str("Link range (offset: ");
                text.append(decimal_text(*offset as u64).as_str());
                text.append(", length: ");
                text.append(decimal_text(*length as u64).as_str());
                text.append(") exceeds data bounds (");
                text.append(decimal_text(*bound as u64).as_str());
                text.append(")");
                text
            },
            Error::NodeEvent => String::from_str(
                "Events of `SplitNode`, `CreateNode` or `RemoveNode` can not be applied",
            ),
            Error::PageFull => String::from_str("The page has no free place for another value"),
            Error::MisplacedEvent { index, entries } => {
                let mut text = String::from_str("Event position ");
                text.append(decimal_text(*index as u64).as_str());
                text.append(" lies outside the page's ");
                text.append(decimal_text(*entries as u64).as_str());
                text.append(" entries");
                text
            },
            Error::VersionMismatch { found } => {
                let mut text = String::from_str("Data version ");
                text.append(decimal_text(*found as u64).as_str());
                text.append(" is not the version of this library");
                text
            },
        }
    }

    /// The error in words, with its numbers in decimal digits.
    pub open spec fn message(self) -> Seq<char> {
        match self {
            Error::Io => "The file ends before the bytes that were asked for"@,
            Error::Decode => "The bytes are not the byte form of a value"@,
            Error::LengthMismatch { data_length, link_length } => "New data length "@ + decimal(
                data_length as nat,
            ) + " does not match link length "@ + decimal(link_length as nat),
            Error::OutOfBounds { offset, length, bound } => "Link range (offset: "@ + decimal(
                offset as nat,
            ) + ", length: "@ + decimal(length as nat) + ") exceeds data bounds ("@ + decimal(
                bound as nat,
            ) + ")"@,
            Error::NodeEvent => "Events of `SplitNode`, `CreateNode` or `RemoveNode` can not be applied"@,
            Error::PageFull => "The page has no free place for another value"@,
            Error::MisplacedEvent { index, entries } => "Event position "@ + decimal(index as nat)
                + " lies outside the page's "@ + decimal(entries as nat) + " entries"@,
            Error::VersionMismatch { found } => "Data version "@ + decimal(found as nat)
                + " is not the version of this library"@,
        }
    }
}

/// The character that stands for a digit below ten.
pub open spec fn digit(d: nat) -> char {
    if d == 0 {
        '0'
    } else if d == 1 {
        '1'
    } else if d == 2 {
        '2'
    } else if d == 3 {
        '3'
    } else if d == 4 {
        '4'
    } else if d == 5 {
        '5'
    } else if d == 6 {
        '6'
    } else if d == 7 {
        '7'
    } else if d == 8 {
        '8'
    } else {
        '9'
    }
}

/// A number in decimal digits, the highest first, without leading zeroes.
pub open spec fn decimal(n: nat) -> Seq<char>
    decreases n,
{
    if n < 10 {
        seq![digit(n)]
    } else {
        decimal(n / 10).push(digit(n % 10))
    }
}

/// The text of one digit.
fn digit_text(d: u64) -> (r: &'static str)
    requires
        d < 10,
    ensures
        r@ == seq![digit(d as nat)],
{
    proof {
        reveal_strlit("0");
        reveal_strlit("1");
        reveal_strlit("2");
        reveal_strlit("3");
        reveal_strlit("4");
        reveal_strlit("5");
        reveal_strlit("6");
        reveal_strlit("7");
        reveal_strlit("8");
        reveal_strlit("9");
    }
    let r: &'static str = if d == 0 {
        "0"
    } else if d == 1 {
        "1"
    } else if d == 2 {
        "2"
    } else if d == 3 {
        "3"
    } else if d == 4 {
        "4"
    } else if d == 5 {
        "5"
    } else if d == 6 {
        "6"
    } else if d == 7 {
        "7"
    } else if d == 8 {
        "8"
    } else {
        "9"
    };
    assert(r@ =~= seq![digit(d as nat)]);
    r
}

/// Writes a number in decimal digits.
fn decimal_text(n: u64) -> (r: String)
    ensures
        r@ == decimal(n as nat),
    decreases n,
{
    if n < 10 {
        String::from_str(digit_text(n))
    } else {
        let mut text = decimal_text(n / 10);
        text.append(digit_text(n % 10));
        assert(text@ =~= decimal(n as nat));
        text
    }
}

} // verus!
