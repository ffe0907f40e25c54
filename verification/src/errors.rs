//! The closed set of failures this crate reports: structural errors of the
//! region set itself, plus raw host error codes surfaced by callers that
//! drive real host mappings.

use vstd::prelude::*;

verus! {

/// Everything that can go wrong constructing or using guest memory.
#[derive(Clone, Copy, Debug, PartialEq, Eq, Structural)]
pub enum Error {
    /// A region or mapping was requested with length zero.
    ZeroSize,
    /// Two region ranges in one construction request overlap.
    Overlap,
    /// A region's end, `base + size`, does not fit in a 64-bit address.
    AddressOverflow,
    /// The requested range is not contained in any single region.
    OutOfBounds,
    /// An exact-length streaming transfer moved only `completed` of the
    /// `expected` bytes before the stream ran dry.
    ShortIo { expected: usize, completed: usize },
    /// A raw host error code from a mapping or unmapping call, surfaced
    /// verbatim for diagnostics.
    Os(i32),
}

impl Error {
    /// Wraps a raw host error code, as captured by the caller at the
    /// failing call site.
    pub fn from_os(code: i32) -> (r: Error)
        ensures
            r == Error::Os(code),
    {
        Error::Os(code)
    }

    /// True of the errors that can only arise while a region set is being
    /// constructed; a per-access failure never carries one of these.
    pub fn is_construction_error(&self) -> (r: bool)
        ensures
            r == (self is ZeroSize || self is Overlap || self is AddressOverflow
                || self is Os),
    {
        match self {
            Error::ZeroSize => true,
            Error::Overlap => true,
            Error::AddressOverflow => true,
            Error::Os(_) => true,
            Error::OutOfBounds => false,
            Error::ShortIo { .. } => false,
        }
    }

    /// A short description, for callers that need to report the failure.
    pub fn describe(&self) -> (r: &'static str) {
        match self {
            Error::ZeroSize => "region has zero length",
            Error::Overlap => "region ranges overlap",
            Error::AddressOverflow => "region end overflows the address space",
            Error::OutOfBounds => "range is not contained in a single region",
            Error::ShortIo { .. } => "stream ended before the full length moved",
            Error::Os(_) => "host operating system error",
        }
    }
}

/// The result type every fallible operation of this crate returns.
pub type MemResult<T> = Result<T, Error>;

} // verus!
