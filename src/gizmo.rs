use vstd::prelude::*;
use crate::node::NodeId;

verus! {

/// What a drag on the gizmo does to the selected object.
#[derive(Clone, Copy, Debug, PartialEq, Eq, Structural)]
pub enum GizmoMode {
    Move,
    Rotate,
    Scale,
}

/// A principal axis of the gizmo.
#[derive(Clone, Copy, Debug, PartialEq, Eq, Structural)]
pub enum GizmoAxis {
    X,
    Y,
    Z,
}

/// Whether the gizmo's axes follow the object's rotation or the world's.
#[derive(Clone, Copy, Debug, PartialEq, Eq, Structural)]
pub enum AxisSpace {
    Local,
    Global,
}

/// Keys that the editor binds.
#[derive(Clone, Copy, Debug, PartialEq, Eq, Structural)]
pub enum EditorKey {
    Q,
    W,
    E,
    Delete,
}

/// What a click in the viewport hit, as the picking geometry found it.
#[derive(Clone, Copy, Debug, PartialEq, Eq, Structural)]
pub enum PickResult {
    /// A handle of the gizmo; it is tested before the scene.
    Handle(GizmoAxis),
    /// The nearest object whose bounds the ray meets.
    Object(NodeId),
    /// The ray meets no object.
    Nothing,
    /// No ray could be formed (no camera, or a degenerate projection).
    Undefined,
}

/// What a click hit, from the three tests that picking makes in turn: the
/// gizmo handle under the pointer, whether a ray could be formed, and the
/// nearest object that the ray meets. A handle wins over the scene.
pub fn pick_result(handle: Option<GizmoAxis>, has_ray: bool, nearest: Option<NodeId>) -> (r: PickResult)
    ensures
        r == match handle {
            Some(a) => PickResult::Handle(a),
            None => if !has_ray {
                PickResult::Undefined
            } else {
                match nearest {
                    Some(n) => PickResult::Object(n),
                    None => PickResult::Nothing,
                }
            },
        },
{
    match handle {
        Some(a) => PickResult::Handle(a),
        None => {
            if !has_ray {
                PickResult::Undefined
            } else {
                match nearest {
                    Some(n) => PickResult::Object(n),
                    None => PickResult::Nothing,
                }
            }
        },
    }
}

/// The input of one frame, as the drag logic reads it.
#[derive(Clone, Copy, Debug, PartialEq, Eq, Structural)]
pub struct DragInput {
    /// Some widget other than the viewport wants the pointer.
    pub pointer_captured: bool,
    pub viewport_hovered: bool,
    pub viewport_focused: bool,
    pub primary_down: bool,
    /// The secondary or middle button is held (the camera is being moved).
    pub other_button_down: bool,
    pub has_camera: bool,
    /// The pointer moved since the last frame.
    pub moved: bool,
}

/// A change of the selected object's transform, to be scaled by the pointer
/// motion and applied to the store.
#[derive(Clone, Copy, Debug, PartialEq, Eq, Structural)]
pub enum TransformEdit {
    /// Along `axis`, or freely in the view plane when there is none.
    Translate { node: NodeId, along: Option<GizmoAxis>, space: AxisSpace },
    Rotate { node: NodeId, axis: GizmoAxis, space: AxisSpace },
    /// Scale along `axis` only.
    Scale { node: NodeId, axis: GizmoAxis },
}

/// The mode that a key selects: Q moves, W rotates, E scales.
pub open spec fn key_mode(key: EditorKey) -> Option<GizmoMode> {
    match key {
        EditorKey::Q => Some(GizmoMode::Move),
        EditorKey::W => Some(GizmoMode::Rotate),
        EditorKey::E => Some(GizmoMode::Scale),
        EditorKey::Delete => None,
    }
}

/// The mode that a key selects, if any.
pub fn mode_for_key(key: EditorKey) -> (r: Option<GizmoMode>)
    ensures
        r == key_mode(key),
{
    match key {
        EditorKey::Q => Some(GizmoMode::Move),
        EditorKey::W => Some(GizmoMode::Rotate),
        EditorKey::E => Some(GizmoMode::Scale),
        EditorKey::Delete => None,
    }
}

} // verus!
