//! Chunked scan-and-aggregate engine for `key;value` measurement files.
//!
//! The input is a text file of lines `<key>;<value>\n`, where `value` is a
//! signed decimal with one fractional digit. The library splits the file into
//! line-aligned byte ranges, scans each range with a byte-level state machine
//! into a per-range table of running statistics (min / sum / max / count in
//! tenths), merges the tables with an associative, commutative combine, and
//! renders one summary line with the keys in ascending byte order.

use vstd::prelude::*;

pub mod order;
pub mod planner;
pub mod record;
pub mod render;
pub mod scan;
pub mod summary;
pub mod table;

verus! {

/// Why an input was rejected.
///
/// `MalformedLine` is the parse error: a byte in the value field that is not a
/// digit, sign, decimal point or terminator, a missing separator, or a value
/// whose magnitude does not fit the fixed-point range. The policy for such
/// input is to abort the whole run, never to skip lines.
///
/// `MissingTerminator` is the integrity error: the data does not end with a
/// line terminator, so its last line can never be completed.
#[derive(Debug, Clone, Copy, PartialEq, Eq, Structural)]
pub enum InputError {
    MalformedLine,
    MissingTerminator,
}

} // verus!
