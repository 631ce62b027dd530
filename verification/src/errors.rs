use vstd::prelude::*;

verus! {

/// The failure values the library returns; none of its operations panics.
#[derive(Debug, Clone, Copy, PartialEq, Eq, Structural)]
pub enum MmrError {
    /// An element index is zero, does not denote a leaf, or exceeds the
    /// current elements count.
    InvalidIndex,
    /// An elements count does not decompose into a valid mountain forest;
    /// it signals store corruption or a programming error in the caller.
    InvalidCount,
    /// A hash list handed to a formatter already exceeds the declared
    /// fixed output size.
    FormattingOverflow,
    /// The store or hasher capability itself failed.
    BackendFailure,
}

} // verus!
