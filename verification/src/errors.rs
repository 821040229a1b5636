use vstd::prelude::*;

verus! {

/// Why a raw schedule string (or a numeric field derived from it) was rejected
/// while building a `Subject`.
#[derive(Clone, Copy, Debug, PartialEq, Eq, Structural)]
pub enum ScheduleError {
    /// A start or end time was not two digits, a colon, and two digits.
    BadTimeFormat,
    /// An interval does not fit the representable window of 64 half-hour
    /// blocks starting at 9:00.
    IntervalOutOfRange,
    /// Two intervals of the same section overlap on the same weekday; the
    /// source data is malformed.
    OverlappingIntervals,
    /// A numeric field did not parse as an unsigned decimal in range.
    BadNumber,
}

/// Why an engine could not be built from a catalog.
#[derive(Clone, Copy, Debug, PartialEq, Eq, Structural)]
pub enum BuildError {
    /// The catalog holds more than 256 distinct weekly occupancy patterns,
    /// the hard capacity of the conflict table.
    TooManyPatterns,
}

/// Which part of a query was invalid.
#[derive(Clone, Copy, Debug, PartialEq, Eq, Structural)]
pub enum QueryErrorKind {
    /// A fixed entry names a course code absent from the catalog.
    UnknownFixedCode,
    /// A fixed entry's section position is out of range for its code.
    InvalidFixedPosition,
    /// A required course code is absent from the catalog.
    UnknownRequiredCode,
    /// A selected course code is absent from the catalog.
    UnknownSelectedCode,
}

/// A caller-input error of a combination query, naming the offending course
/// code; distinct from the normal no-solution outcome.
#[derive(Clone, Debug)]
pub struct QueryError {
    pub kind: QueryErrorKind,
    pub code: String,
}

} // verus!
