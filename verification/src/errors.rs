//! The ways in which building a control-flow graph can fail.

use vstd::prelude::*;

verus! {

/// Why no control-flow graph could be built for a definition.
#[derive(Clone, Copy, Debug, PartialEq, Eq, Structural)]
pub enum CFGError {
    /// A name was declared twice in one scope.
    DuplicateDeclaration,
    /// A name was used that is neither declared nor a parameter.
    UnknownSymbol,
    /// A local variable has the name of a signal.
    ShadowingSignal,
    /// An initialization block holds something that is neither a declaration
    /// nor a substitution.
    MalformedInitBlock,
    /// There is no entry block.
    EmptyCfg,
}

pub type CFGResult<T> = Result<T, CFGError>;

} // verus!
