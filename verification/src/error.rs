//! The faults that scheduling operations report.

use vstd::prelude::*;

verus! {

/// Why an operation on times, the grid or the roster could not be carried out.
#[derive(Clone, Copy, Debug, PartialEq, Eq, Structural)]
pub enum SchedError {
    /// A time string is not an hour and a minute around a single `:`.
    InvalidFormat,
    /// A quarter-hour index lies at or beyond the end of the day.
    OutOfRange,
    /// Arithmetic on times left the day, or ran an interval backwards.
    TimeRangeError,
    /// A slot of the requirement grid outside the day was asked for.
    GridBoundsError,
    /// An employee identifier is not on the roster.
    UnknownEmployee,
}

} // verus!
