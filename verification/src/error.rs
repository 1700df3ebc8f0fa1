use vstd::prelude::*;

verus! {

/// The kinds of failure a core operation can report. Presentation of a
/// failure belongs to the front end; the core distinguishes only the kind.
#[derive(PartialEq, Eq, Structural, Clone, Copy, Debug)]
pub enum FiftError {
    /// The top of the stack did not have the requested tag.
    TypeMismatch,
    /// A pop was attempted on an empty stack or empty tuple.
    Underflow,
    /// An index or count was out of bounds.
    RangeError,
    /// A map key was built from a value whose kind admits no total order.
    KeyError,
    /// An environment file operation failed.
    IOError,
    /// The operation is undefined for the value kind it was given.
    Unsupported,
}

} // verus!
