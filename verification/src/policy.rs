//! The merge policy: a capability supplied by the payload type that combines
//! two root payloads into one, declaring which side survives identity-wise.

use vstd::prelude::*;

verus! {

/// Tagged result of folding two root payloads: which of the two input
/// identities is retained as the surviving root, carrying the single
/// combined payload value to store there.
pub enum UnionResult<V> {
    Left(V),
    Right(V),
}

impl<V> UnionResult<V> {
    /// Whether the left identity survives.
    pub open spec fn is_left(self) -> bool {
        match self {
            UnionResult::Left(_) => true,
            UnionResult::Right(_) => false,
        }
    }

    /// The single combined payload value carried by the outcome.
    pub open spec fn merged_value(self) -> V {
        match self {
            UnionResult::Left(v) => v,
            UnionResult::Right(v) => v,
        }
    }
}

/// The merge policy required of a payload type. `union` consumes both root
/// payloads by value and must return an outcome for every pair of values;
/// which side survives and what the merged value is are entirely the
/// policy's choice, and the engine promises nothing about them.
pub trait Union: Sized {
    fn union(left: Self, right: Self) -> UnionResult<Self>;
}

} // verus!
