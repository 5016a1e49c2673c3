//! The ways in which an operation of this library can fail.

use vstd::prelude::*;

verus! {

/// Why an operation was refused.
#[derive(Debug, Clone, Copy, PartialEq, Eq, Structural)]
pub enum Error {
    /// A line does not follow its format: too few fields, a field that is
    /// not a number or does not fit, lists of different lengths, a declared
    /// count that differs from the number of items, an interval that ends
    /// before it starts, or a coding transcript whose coding start lies in
    /// no exon. Also a sequence that is not ASCII.
    FormatError,
    /// A transcript range that does not lie in the transcript, a k-mer
    /// size greater than the sequence, or a count that does not fit.
    RangeError,
    /// A gene symbol or transcript identifier that is not known.
    LookupError,
}

} // verus!
