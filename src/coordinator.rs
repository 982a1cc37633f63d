use vstd::prelude::*;
use crate::graph::{contains_id, descendants_or_self, is_path, reaches};
use crate::node::{NodeId, NodeRecord};

verus! {

/// A request to give `child` a new parent, or none to make it top-level.
#[derive(Clone, Copy, Debug, PartialEq, Eq, Structural)]
pub struct HierarchyReparentEvent {
    pub child: NodeId,
    pub new_parent: Option<NodeId>,
}

/// A request to delete `entity` and everything under it.
#[derive(Clone, Copy, Debug, PartialEq, Eq, Structural)]
pub struct DeleteEntityEvent {
    pub entity: NodeId,
}

/// The objects that the editor can create.
#[derive(Clone, Copy, Debug, PartialEq, Eq, Structural)]
pub enum SpawnPrimitiveKind {
    Empty,
    Cube,
    Sphere,
    Plane,
    DirectionalLight,
    PointLight,
    SpotLight,
}

/// A request to create an object of `kind` under `parent`.
#[derive(Clone, Copy, Debug, PartialEq, Eq, Structural)]
pub struct SpawnPrimitiveEvent {
    pub kind: SpawnPrimitiveKind,
    pub parent: Option<NodeId>,
}

/// The name that a newly created object of `kind` gets.
pub open spec fn kind_name(kind: SpawnPrimitiveKind) -> Seq<char> {
    match kind {
        SpawnPrimitiveKind::Empty => "Entity"@,
        SpawnPrimitiveKind::Cube => "Cube"@,
        SpawnPrimitiveKind::Sphere => "Sphere"@,
        SpawnPrimitiveKind::Plane => "Plane"@,
        SpawnPrimitiveKind::DirectionalLight => "Directional Light"@,
        SpawnPrimitiveKind::PointLight => "Point Light"@,
        SpawnPrimitiveKind::SpotLight => "Spot Light"@,
    }
}

impl SpawnPrimitiveKind {
    /// The name that a newly created object of this kind gets.
    pub fn default_name(&self) -> (r: &'static str)
        ensures
            r@ == kind_name(*self),
    {
        match self {
            SpawnPrimitiveKind::Empty => "Entity",
            SpawnPrimitiveKind::Cube => "Cube",
            SpawnPrimitiveKind::Sphere => "Sphere",
            SpawnPrimitiveKind::Plane => "Plane",
            SpawnPrimitiveKind::DirectionalLight => "Directional Light",
            SpawnPrimitiveKind::PointLight => "Point Light",
            SpawnPrimitiveKind::SpotLight => "Spot Light",
        }
    }
}

/// The parent under which a requested object is created: the one the request
/// names, else the scene root, if there is one.
pub fn spawn_parent(event: SpawnPrimitiveEvent, scene_root: Option<NodeId>) -> (r: Option<NodeId>)
    ensures
        r == if event.parent.is_some() { event.parent } else { scene_root },
{
    match event.parent {
        Some(p) => Some(p),
        None => scene_root,
    }
}

/// `b` lies strictly under `a`: a path of at least one step leads from `a`
/// to `b`.
pub open spec fn strictly_under(rs: Seq<NodeRecord>, with_hidden: bool, a: NodeId, b: NodeId) -> bool {
    exists|path: Seq<NodeId>|
        #[trigger] is_path(rs, with_hidden, path) && path.len() >= 2 && path[0] == a && path.last() == b
}

/// Being `a` or lying under it is being `a` or lying strictly under it.
pub proof fn lemma_reaches_cases(rs: Seq<NodeRecord>, with_hidden: bool, a: NodeId, b: NodeId)
    ensures
        reaches(rs, with_hidden, a, b) <==> (a == b || strictly_under(rs, with_hidden, a, b)),
{
    if reaches(rs, with_hidden, a, b) && a != b {
        let path = choose|path: Seq<NodeId>|
            #[trigger] is_path(rs, with_hidden, path) && path[0] == a && path.last() == b;
        assert(path.len() >= 2);
    }
    if a == b {
        let path = seq![a];
        assert(is_path(rs, with_hidden, path));
    }
}

/// Whether `node` is `ancestor` or lies under it in the store's parent data,
/// hidden objects included. The walk keeps the objects met so far, so a
/// cycle in the data ends it.
pub fn is_descendant(records: &Vec<NodeRecord>, ancestor: NodeId, node: NodeId) -> (r: bool)
    ensures
        r == reaches(records@, true, ancestor, node),
{
    let under = descendants_or_self(records, true, ancestor);
    contains_id(&under, node)
}

/// The parent change that a request to give `child` the parent `new_parent`
/// asks of the store, or `None` when the request is refused: the new parent
/// is the child itself or lies under it, so the change would close a cycle.
/// A request to make `child` top-level is always granted.
pub fn request_reparent(records: &Vec<NodeRecord>, child: NodeId, new_parent: Option<NodeId>) -> (r: Option<HierarchyReparentEvent>)
    ensures
        r.is_none() <==> match new_parent {
            Some(p) => p == child || strictly_under(records@, true, child, p),
            None => false,
        },
        r.is_some() ==> r == Some(HierarchyReparentEvent { child, new_parent }),
{
    match new_parent {
        Some(p) => {
            proof {
                lemma_reaches_cases(records@, true, child, p);
            }
            if is_descendant(records, child, p) {
                None
            } else {
                Some(HierarchyReparentEvent { child, new_parent })
            }
        },
        None => Some(HierarchyReparentEvent { child, new_parent }),
    }
}

/// `d` lies strictly under `node` in the visible parent data.
pub open spec fn below(rs: Seq<NodeRecord>, node: NodeId, d: NodeId) -> bool {
    d != node && reaches(rs, false, node, d)
}

/// The first entry of `marked` that lies strictly under `node`, or `None`
/// when none does. Used to find the material that a grouping object shows:
/// `marked` lists the objects that carry one.
pub fn find_descendant_with_material(records: &Vec<NodeRecord>, node: NodeId, marked: &Vec<NodeId>) -> (r: Option<NodeId>)
    ensures
        match r {
            Some(d) => exists|k: int|
                0 <= k < marked.len() && marked@[k] == d && below(records@, node, d) && forall|j: int|
                    0 <= j < k ==> !below(records@, node, #[trigger] marked@[j]),
            None => forall|j: int| 0 <= j < marked.len() ==> !below(records@, node, #[trigger] marked@[j]),
        },
{
    let under = descendants_or_self(records, false, node);
    let mut k: usize = 0;
    while k < marked.len()
        invariant
            k <= marked.len(),
            forall|x: NodeId| under@.contains(x) <==> reaches(records@, false, node, x),
            forall|j: int| 0 <= j < k ==> !below(records@, node, #[trigger] marked@[j]),
        decreases marked.len() - k,
    {
        let d = marked[k];
        if d != node && contains_id(&under, d) {
            return Some(d);
        }
        k = k + 1;
    }
    None
}

} // verus!
