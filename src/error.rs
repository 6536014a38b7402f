//! The failure a query can report.

use vstd::prelude::*;

verus! {

/// Why a query was refused.
#[derive(Debug, Clone, Copy, PartialEq, Eq, Structural)]
pub enum QueryError {
    /// The sort selector names no field of the record type.
    InvalidQuery,
}

} // verus!
