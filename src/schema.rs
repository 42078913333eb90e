use vstd::prelude::*;

verus! {

/// The element type of a list field or the value type of a map field.
#[derive(Clone, Copy, Debug, PartialEq, Eq, Structural)]
pub enum Elem {
    Int,
    /// A message of the schema with this id in the registry's pool.
    Message(usize),
}

/// The shape tag of a field.
#[derive(Clone, Copy, Debug, PartialEq, Eq, Structural)]
pub enum Shape {
    Int,
    /// A singular message of the schema with this id in the registry's pool.
    Message(usize),
    /// A list of elements.
    Repeated(Elem),
    /// A map; its rules apply to the values.
    Keyed(Elem),
}

/// The constraint payload attached to a field. Only the chain compiler of
/// [`crate::plan`] reads it; the registry passes it through.
#[derive(Clone, Copy, Debug)]
pub struct Rule {
    /// A singular field must be set.
    pub required: bool,
    /// Lower bound for an integer value (of the field, or of each element).
    pub min: Option<i64>,
    /// Upper bound for an integer value (of the field, or of each element).
    pub max: Option<i64>,
    /// Least number of elements of a list or map.
    pub min_items: Option<usize>,
    /// Largest number of elements of a list or map.
    pub max_items: Option<usize>,
    /// An empty list or map skips the rest of its checks.
    pub ignore_empty: bool,
    /// Nested messages are not validated against their own schema.
    pub skip_nested: bool,
}

/// A field of a schema.
#[derive(Clone, Debug)]
pub struct FieldDesc {
    pub name: String,
    pub shape: Shape,
    /// The exclusive group (index into the schema's groups) the field belongs to.
    pub group: Option<usize>,
    /// What the rule extractor found for the field; `None` leaves it unconstrained.
    pub rule: Option<Rule>,
}

/// A mutually exclusive field group ("oneof").
#[derive(Clone, Debug)]
pub struct GroupDesc {
    pub name: String,
    /// Exactly one member must be set.
    pub required: bool,
}

/// The reflective description of one message type.
#[derive(Clone, Debug)]
pub struct Schema {
    pub name: String,
    pub fields: Vec<FieldDesc>,
    pub groups: Vec<GroupDesc>,
    pub disabled: bool,
    pub ignored: bool,
}

impl Schema {
    /// Schemas flagged disabled or ignored always pass.
    pub open spec fn skipped(self) -> bool {
        self.disabled || self.ignored
    }

    /// Whether group `g` of this schema demands exactly one set member.
    pub open spec fn group_required(self, g: int) -> bool {
        0 <= g < self.groups@.len() && self.groups@[g].required
    }
}

} // verus!
