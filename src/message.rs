use vstd::prelude::*;

verus! {

/// A single value: an integer, or a nested message given by the index of its
/// node in the enclosing [`Message`].
#[derive(Clone, Copy, Debug, PartialEq, Eq, Structural)]
pub enum Val {
    Int(i64),
    Msg(usize),
}

/// The value of one field of a node.
#[derive(Clone, Debug)]
pub enum Slot {
    /// A singular field left at its default.
    Unset,
    /// A singular field that was assigned.
    One(Val),
    /// The elements of a list, or the values of a map.
    Many(Vec<Val>),
}

/// One message of a message tree: its schema id and one slot per field.
#[derive(Clone, Debug)]
pub struct Node {
    pub schema: usize,
    pub slots: Vec<Slot>,
}

/// A message tree held as nodes; node 0 is the root, and a nested message
/// always stands at a larger index than the node that refers to it.
#[derive(Clone, Debug)]
pub struct Message {
    pub nodes: Vec<Node>,
}

/// The presence predicate: a singular field counts as set once assigned, a
/// list or map once it has an element.
pub open spec fn is_set(s: Slot) -> bool {
    match s {
        Slot::Unset => false,
        Slot::One(_) => true,
        Slot::Many(v) => v@.len() > 0,
    }
}

/// The slot of field `f` of a node; a missing slot reads as unset.
pub open spec fn slot_at(nd: Node, f: int) -> Slot {
    if 0 <= f < nd.slots@.len() {
        nd.slots@[f]
    } else {
        Slot::Unset
    }
}

pub fn slot_is_set(s: &Slot) -> (r: bool)
    ensures
        r == is_set(*s),
{
    match s {
        Slot::Unset => false,
        Slot::One(_) => true,
        Slot::Many(v) => v.len() > 0,
    }
}

impl Message {
    /// A message of one node of schema `schema` with `n_fields` unset fields.
    pub fn new(schema: usize, n_fields: usize) -> (m: Message)
        ensures
            m.nodes@.len() == 1,
            m.nodes@[0].schema == schema,
            m.nodes@[0].slots@.len() == n_fields,
            forall|f: int| 0 <= f < n_fields ==> m.nodes@[0].slots@[f] is Unset,
    {
        let mut nodes: Vec<Node> = Vec::new();
        nodes.push(Node { schema, slots: unset_slots(n_fields) });
        Message { nodes }
    }

    /// Appends a node of schema `schema` with `n_fields` unset fields and
    /// returns its index.
    pub fn add_node(&mut self, schema: usize, n_fields: usize) -> (idx: usize)
        requires
            old(self).nodes@.len() < usize::MAX,
        ensures
            idx == old(self).nodes@.len(),
            final(self).nodes@.len() == idx + 1,
            final(self).nodes@.take(idx as int) == old(self).nodes@,
            final(self).nodes@[idx as int].schema == schema,
            final(self).nodes@[idx as int].slots@.len() == n_fields,
            forall|f: int| 0 <= f < n_fields ==> final(self).nodes@[idx as int].slots@[f] is Unset,
    {
        let idx = self.nodes.len();
        self.nodes.push(Node { schema, slots: unset_slots(n_fields) });
        assert(self.nodes@.take(idx as int) =~= old(self).nodes@);
        idx
    }

    /// Assigns field `field` of node `node`; out-of-range positions are ignored.
    pub fn set(&mut self, node: usize, field: usize, value: Slot)
        ensures
            final(self).nodes@.len() == old(self).nodes@.len(),
            forall|k: int| 0 <= k < old(self).nodes@.len() && k != node ==> final(self).nodes@[k] == old(self).nodes@[k],
            node < old(self).nodes@.len() ==> final(self).nodes@[node as int].schema == old(self).nodes@[node as int].schema,
            node < old(self).nodes@.len() ==> final(self).nodes@[node as int].slots@ == if field < old(self).nodes@[node as int].slots@.len() {
                old(self).nodes@[node as int].slots@.update(field as int, value)
            } else {
                old(self).nodes@[node as int].slots@
            },
            node >= old(self).nodes@.len() ==> final(self).nodes@ == old(self).nodes@,
    {
        if node < self.nodes.len() && field < self.nodes[node].slots.len() {
            let mut nd = Node { schema: 0, slots: Vec::new() };
            self.nodes.set_and_swap(node, &mut nd);
            nd.slots.set(field, value);
            self.nodes.set(node, nd);
        }
    }
}

fn unset_slots(n: usize) -> (v: Vec<Slot>)
    ensures
        v@.len() == n,
        forall|f: int| 0 <= f < n ==> v@[f] is Unset,
{
    let mut v: Vec<Slot> = Vec::new();
    let mut k: usize = 0;
    while k < n
        invariant
            k <= n,
            v@.len() == k,
            forall|f: int| 0 <= f < k ==> v@[f] is Unset,
        decreases n - k,
    {
        v.push(Slot::Unset);
        k += 1;
    }
    v
}

} // verus!
