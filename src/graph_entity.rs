use vstd::prelude::*;

verus! {

/// Identifier of a node.
pub type NodeID = u64;

/// Identifier of an edge.
pub type EdgeID = u64;

/// Identifier of a label; negative values are the "any" and "none" markers.
pub type LabelID = i32;

/// Identifier of a relation type; `-1` reads as "any relation", `-2` as "none".
pub type RelationID = i32;

/// Handle of an attribute set held by a node or edge slot; 0 stands for no set.
pub type AttributeSet = u64;

/// A node: its id and the attribute-set handle in its slot.
#[derive(Clone, Copy, Debug, PartialEq, Eq, Structural)]
pub struct Node {
    pub id: NodeID,
    pub attributes: AttributeSet,
}

/// An edge: its id, endpoints, relation and attribute-set handle.
#[derive(Clone, Copy, Debug, PartialEq, Eq, Structural)]
pub struct Edge {
    pub id: EdgeID,
    pub src_id: NodeID,
    pub dest_id: NodeID,
    pub relation_id: RelationID,
    pub attributes: AttributeSet,
}

impl Node {
    /// Replaces the attribute-set handle.
    pub fn set_attributes(&mut self, set: AttributeSet)
        ensures
            final(self).id == old(self).id,
            final(self).attributes == set,
    {
        self.attributes = set;
    }
}

impl Edge {
    /// Replaces the attribute-set handle.
    pub fn set_attributes(&mut self, set: AttributeSet)
        ensures
            final(self).id == old(self).id,
            final(self).src_id == old(self).src_id,
            final(self).dest_id == old(self).dest_id,
            final(self).relation_id == old(self).relation_id,
            final(self).attributes == set,
    {
        self.attributes = set;
    }
}

} // verus!
