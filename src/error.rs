//! The shared error domain, and the two lower error domains reduced to it.

use vstd::prelude::*;

verus! {

/// The kinds of failure that every fallible operation of the core reports.
#[derive(Clone, Copy, Debug, PartialEq, Eq, Structural)]
pub enum AxError {
    /// Malformed arguments: bad alignment, zero size, out of range.
    InvalidInput,
    /// The range is already mapped.
    AlreadyExists,
    /// The operation met inconsistent or partially built state.
    BadState,
    /// No memory is left for a frame or a page-table node.
    NoMemory,
    /// No translation or mapping exists there.
    NotFound,
}

/// Failures of the mapping-set layer.
#[derive(Clone, Copy, Debug, PartialEq, Eq, Structural)]
pub enum MappingError {
    /// Malformed region arguments.
    InvalidParam,
    /// The region overlaps an existing one.
    AlreadyExists,
    /// The set is not in a state that allows the operation.
    BadState,
}

/// Failures of the page-table layer.
#[derive(Clone, Copy, Debug, PartialEq, Eq, Structural)]
pub enum PagingError {
    /// A page-table node could not be allocated.
    NoMemory,
    /// An address or size is not page-aligned.
    NotAligned,
    /// No translation is installed there.
    NotMapped,
    /// A translation is already installed there.
    AlreadyMapped,
    /// The walk met a huge-page entry where a smaller mapping was asked for.
    MappedToHugePage,
}

/// The shared kind that a mapping-set failure is reported as.
pub open spec fn mapping_err_kind(err: MappingError) -> AxError {
    match err {
        MappingError::InvalidParam => AxError::InvalidInput,
        MappingError::AlreadyExists => AxError::AlreadyExists,
        MappingError::BadState => AxError::BadState,
    }
}

/// The shared kind that a page-table failure is reported as.
pub open spec fn paging_err_kind(err: PagingError) -> AxError {
    match err {
        PagingError::NoMemory => AxError::NoMemory,
        PagingError::NotAligned => AxError::InvalidInput,
        PagingError::NotMapped => AxError::NotFound,
        PagingError::AlreadyMapped => AxError::AlreadyExists,
        PagingError::MappedToHugePage => AxError::InvalidInput,
    }
}

/// Reduces a mapping-set failure to the shared error domain.
pub fn mapping_err_to_ax_err(err: MappingError) -> (r: AxError)
    ensures
        r == mapping_err_kind(err),
{
    match err {
        MappingError::InvalidParam => AxError::InvalidInput,
        MappingError::AlreadyExists => AxError::AlreadyExists,
        MappingError::BadState => AxError::BadState,
    }
}

/// Reduces a page-table failure to the shared error domain.
pub fn paging_err_to_ax_err(err: PagingError) -> (r: AxError)
    ensures
        r == paging_err_kind(err),
{
    match err {
        PagingError::NoMemory => AxError::NoMemory,
        PagingError::NotAligned => AxError::InvalidInput,
        PagingError::NotMapped => AxError::NotFound,
        PagingError::AlreadyMapped => AxError::AlreadyExists,
        PagingError::MappedToHugePage => AxError::InvalidInput,
    }
}

} // verus!
