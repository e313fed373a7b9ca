//! Why a source buffer is refused.
use vstd::prelude::*;

verus! {

/// The failure of a compilation.
#[derive(Clone, Copy, Debug, PartialEq, Eq, Structural)]
pub enum CompileError {
    /// A `]` stands where no `[` is open.
    UnbalancedCloseBracket,
}

} // verus!
