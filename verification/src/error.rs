//! The ways in which a store operation or a search can fail.

use vstd::prelude::*;

verus! {

/// Why a lookup, a write or a search failed.
#[derive(Clone, Copy, Debug, PartialEq, Eq, Structural)]
pub enum StoreError {
    /// Malformed input: a date that is no date, or a stored number or index
    /// entry that cannot be read.
    InvalidInput,
    /// A missing pointer, a missing record, or a record that lacks a field.
    NotFound,
    /// The backing store could not be reached.
    StoreUnavailable,
}

} // verus!
