//! The errors of building and of parsing a line.

use vstd::prelude::*;

verus! {

/// Why a data point cannot be written as a line.
#[derive(Debug, Clone, Copy, PartialEq, Eq, Structural)]
pub enum BuilderError {
    /// The measurement name is empty.
    EmptyMeasurement,
    /// The measurement name starts with `_`.
    InvalidMeasurement,
    /// A tag key is empty.
    EmptyTagKey,
    /// A tag key starts with `_`.
    InvalidTagKey,
    /// A tag value is empty.
    EmptyTagValue,
    /// A field key is empty.
    EmptyFieldKey,
    /// A field key starts with `_`.
    InvalidFieldKey,
    /// A string field value is empty.
    EmptyFieldValue,
    /// There is no field.
    MissingFields,
}

/// Why a tag set or a field set cannot be read.
#[derive(Debug, Clone, Copy, PartialEq, Eq, Structural)]
pub enum SetError {
    /// The set does not split into whole `key=value` pairs.
    UnevenValues,
    /// A value of the shape of an integer (`-?digits` and `i`) does not fit
    /// its integer type.
    InvalidInteger,
}

/// Why a line cannot be read as a data point.
#[derive(Debug, Clone, Copy, PartialEq, Eq, Structural)]
pub enum ParseError {
    /// The line starts with `#`.
    CommentLine,
    /// The line holds nothing but whitespace.
    EmptyLine,
    /// The line has no measurement name.
    MissingMeasurement,
    /// The line has no field set.
    MissingFields,
    /// The text after the field set is not a signed 64-bit integer.
    InvalidTimestamp,
    /// The tag set or the field set is malformed.
    InvalidSet(SetError),
}

/// Any error of this crate.
#[derive(Debug, Clone, Copy, PartialEq, Eq, Structural)]
pub enum LineProtocolError {
    /// Building failed.
    BuilderError(BuilderError),
    /// Parsing failed.
    ParserError(ParseError),
}

} // verus!
