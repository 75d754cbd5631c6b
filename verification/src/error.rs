use vstd::prelude::*;

verus! {

/// Why a database could not be built. Queries never fail.
#[derive(Clone, Copy, Debug, PartialEq, Eq, Structural)]
pub enum Error {
    /// A range endpoint is not a valid address literal.
    AddrParse,
    /// The two endpoints of a range belong to different address families.
    AddrMismatch,
    /// A range starts before the previous range ended, is reversed, or follows
    /// a range that already reached the last address of its family.
    AddrOutOfOrder,
    /// The record lacks the fields needed to derive a value.
    InvalidRecord,
    /// The source of the records failed while it was being read.
    SourceRead,
}

} // verus!
