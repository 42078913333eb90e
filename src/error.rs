use vstd::prelude::*;

use crate::plan::Check;

verus! {

/// Why a message failed validation, or why a schema could not be compiled.
#[derive(Clone, Copy, Debug, PartialEq, Eq, Structural)]
pub enum Error {
    /// A field of a node of schema `schema` broke one of the checks compiled
    /// from its rule.
    Violation { schema: usize, field: usize, check: Check },
    /// More than one member of an exclusive group of schema `schema` is set.
    MultipleValues { schema: usize, group: usize },
    /// No member of an exclusive group of schema `schema` is set.
    NoValue { schema: usize, group: usize },
    /// No compiled plan is cached for this schema id.
    Unregistered { schema: usize },
    /// A field's rule cannot be compiled (an inverted bound).
    BadRule { schema: usize, field: usize },
    /// A nested message reference does not point forward inside the message.
    Malformed { node: usize },
}

} // verus!
