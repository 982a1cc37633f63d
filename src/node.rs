use vstd::prelude::*;

verus! {

/// Handle of an object in the external entity store: a slot index and the
/// generation that the slot had when the object was created.
#[derive(Clone, Copy, Debug, PartialEq, Eq, Hash, Structural)]
pub struct NodeId {
    pub index: u32,
    pub generation: u32,
}

impl NodeId {
    pub fn new(index: u32, generation: u32) -> (r: NodeId)
        ensures
            r.index == index,
            r.generation == generation,
    {
        NodeId { index, generation }
    }
}

/// One object as the external store enumerates it.
#[derive(Debug)]
pub struct NodeRecord {
    pub id: NodeId,
    /// The object's name, when it has one.
    pub label: Option<String>,
    /// The object's parent, when it has one.
    pub parent: Option<NodeId>,
    /// Set on objects that belong to the editor itself (cameras, helpers).
    pub hidden: bool,
}

} // verus!
