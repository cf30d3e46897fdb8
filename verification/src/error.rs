//! The failures of a run and the status that each ends the process with.

use vstd::prelude::*;

verus! {

/// Everything that stops a run. No failure is retried.
#[derive(Clone, Copy, Debug, PartialEq, Eq, Structural)]
pub enum SampleError {
    /// The input line with this 1-based number could not be read.
    Parse { line: usize },
    /// There are not as many reference texts as data columns.
    ExcludeCount { columns: usize, references: usize },
    /// A size is neither a count, nor a fraction, nor the remainder sign.
    BadSize,
    /// More than one set asks for the remainder.
    DuplicateRemainder,
    /// There is no column, or the first column holds no unit.
    EmptyData,
    /// The column with this 1-based number is shorter or longer than the one before it.
    ColumnMismatch { column: usize },
    /// The requested sizes exceed the units that can be handed out.
    Capacity { available: usize },
    /// A unit is assigned to a set that has no destination.
    MissingDestination,
}

/// The families of failure.
#[derive(Clone, Copy, Debug, PartialEq, Eq, Structural)]
pub enum ErrorKind {
    /// Options that are malformed or contradict each other.
    Config,
    /// Input that cannot be read.
    Io,
    /// Data that does not fit together, or no data.
    Consistency,
    /// More units asked for than there are.
    Capacity,
    /// A broken invariant of the program itself.
    Internal,
}

impl SampleError {
    pub open spec fn spec_kind(self) -> ErrorKind {
        match self {
            SampleError::Parse { .. } => ErrorKind::Io,
            SampleError::ExcludeCount { .. } => ErrorKind::Config,
            SampleError::BadSize => ErrorKind::Config,
            SampleError::DuplicateRemainder => ErrorKind::Config,
            SampleError::EmptyData => ErrorKind::Consistency,
            SampleError::ColumnMismatch { .. } => ErrorKind::Consistency,
            SampleError::Capacity { .. } => ErrorKind::Capacity,
            SampleError::MissingDestination => ErrorKind::Internal,
        }
    }

    /// The family that this failure belongs to.
    pub fn kind(&self) -> (k: ErrorKind)
        ensures
            k == self.spec_kind(),
    {
        match self {
            SampleError::Parse { .. } => ErrorKind::Io,
            SampleError::ExcludeCount { .. } => ErrorKind::Config,
            SampleError::BadSize => ErrorKind::Config,
            SampleError::DuplicateRemainder => ErrorKind::Config,
            SampleError::EmptyData => ErrorKind::Consistency,
            SampleError::ColumnMismatch { .. } => ErrorKind::Consistency,
            SampleError::Capacity { .. } => ErrorKind::Capacity,
            SampleError::MissingDestination => ErrorKind::Internal,
        }
    }

    /// The status that the process ends with: 2 for a broken internal
    /// invariant, 1 for every other failure.
    pub fn exit_code(&self) -> (code: u8)
        ensures
            code == (if *self == SampleError::MissingDestination { 2u8 } else { 1u8 }),
    {
        match self {
            SampleError::MissingDestination => 2,
            _ => 1,
        }
    }
}

} // verus!
