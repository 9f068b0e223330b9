use vstd::prelude::*;

verus! {

/// What can go wrong while compiling the dictionary tables.
#[derive(Debug)]
pub enum ParsingError {
    /// The cost table has no header line with two sizes.
    MissingHeader,
    /// A field of the cost table is not a decimal integer that fits in `i32`.
    ParseIntError,
    /// A size in the header is negative or above `i16::MAX`, or a line of the
    /// cost table holds one or two fields, or names a class outside the sizes.
    MalformedCostTable,
    /// More than 31 entries share one surface form (the index packs the
    /// count of a group into five bits).
    OversizedGroup(String),
    /// The payload blob grows past what a four-byte offset can address.
    PayloadTooLarge,
    /// More entries are kept than the index can address.
    TooManyEntries,
    /// The double-array builder could not index the key set.
    TrieBuildError,
}

} // verus!
