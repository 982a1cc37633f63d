use vstd::prelude::*;
use crate::coordinator::DeleteEntityEvent;
use crate::gizmo::{
    key_mode, mode_for_key, AxisSpace, DragInput, EditorKey, GizmoAxis, GizmoMode, PickResult, TransformEdit,
};
use crate::node::NodeId;

verus! {

/// The editor state that lasts across frames: the selection, the gizmo's
/// mode, space and grabbed axis, and a deletion waiting for confirmation.
#[derive(Clone, Copy, Debug, PartialEq, Eq, Structural)]
pub struct EditorState {
    pub selected_entity: Option<NodeId>,
    pub gizmo_mode: GizmoMode,
    pub active_axis: Option<GizmoAxis>,
    pub axis_space: AxisSpace,
    pub delete_confirm: Option<NodeId>,
}

/// The transform edit that a drag makes in `mode` with `axis` grabbed, if any.
pub open spec fn edit_for(
    mode: GizmoMode,
    node: NodeId,
    axis: Option<GizmoAxis>,
    space: AxisSpace,
) -> Option<TransformEdit> {
    match mode {
        GizmoMode::Move => Some(TransformEdit::Translate { node, along: axis, space }),
        GizmoMode::Rotate => match axis {
            Some(a) => Some(TransformEdit::Rotate { node, axis: a, space }),
            None => None,
        },
        GizmoMode::Scale => match axis {
            Some(a) => Some(TransformEdit::Scale { node, axis: a }),
            None => None,
        },
    }
}

impl Default for EditorState {
    fn default() -> (r: EditorState)
        ensures
            r == (EditorState {
                selected_entity: None,
                gizmo_mode: GizmoMode::Move,
                active_axis: None,
                axis_space: AxisSpace::Global,
                delete_confirm: None,
            }),
    {
        EditorState::new()
    }
}

impl EditorState {
    /// Nothing selected, Move mode in global space, no axis grabbed.
    pub fn new() -> (r: EditorState)
        ensures
            r == (EditorState {
                selected_entity: None,
                gizmo_mode: GizmoMode::Move,
                active_axis: None,
                axis_space: AxisSpace::Global,
                delete_confirm: None,
            }),
    {
        EditorState {
            selected_entity: None,
            gizmo_mode: GizmoMode::Move,
            active_axis: None,
            axis_space: AxisSpace::Global,
            delete_confirm: None,
        }
    }

    /// Switches the gizmo mode; a switch to another mode ends the drag.
    pub fn set_gizmo_mode(&mut self, mode: GizmoMode)
        ensures
            *final(self) == (EditorState {
                gizmo_mode: mode,
                active_axis: if mode == old(self).gizmo_mode { old(self).active_axis } else { None },
                ..*old(self)
            }),
    {
        if mode != self.gizmo_mode {
            self.active_axis = None;
        }
        self.gizmo_mode = mode;
    }

    /// Switches between local and global axes.
    pub fn set_axis_space(&mut self, space: AxisSpace)
        ensures
            *final(self) == (EditorState { axis_space: space, ..*old(self) }),
    {
        self.axis_space = space;
    }

    /// Selects `node`, or clears the selection; clearing it ends the drag.
    pub fn select(&mut self, node: Option<NodeId>)
        ensures
            *final(self) == (EditorState {
                selected_entity: node,
                active_axis: if node.is_none() { None } else { old(self).active_axis },
                ..*old(self)
            }),
    {
        if node.is_none() {
            self.active_axis = None;
        }
        self.selected_entity = node;
    }

    /// Handles a key press. Q, W and E switch the mode unless a text field has
    /// the keyboard or the secondary button is held (the camera is being
    /// moved). Delete asks to delete the selected object unless a text field
    /// has the keyboard or a deletion is already waiting.
    pub fn handle_key(&mut self, key: EditorKey, keyboard_captured: bool, secondary_down: bool)
        ensures
            *final(self) == match key_mode(key) {
                Some(m) => if keyboard_captured || secondary_down {
                    *old(self)
                } else {
                    EditorState {
                        gizmo_mode: m,
                        active_axis: if m == old(self).gizmo_mode { old(self).active_axis } else { None },
                        ..*old(self)
                    }
                },
                None => if keyboard_captured || old(self).delete_confirm.is_some()
                    || old(self).selected_entity.is_none() {
                    *old(self)
                } else {
                    EditorState { delete_confirm: old(self).selected_entity, ..*old(self) }
                },
            },
    {
        match mode_for_key(key) {
            Some(m) => {
                if !keyboard_captured && !secondary_down {
                    self.set_gizmo_mode(m);
                }
            },
            None => {
                if !keyboard_captured && self.delete_confirm.is_none() && self.selected_entity.is_some() {
                    self.delete_confirm = self.selected_entity;
                }
            },
        }
    }

    /// Asks to delete the selected object, if one is selected.
    pub fn request_delete(&mut self)
        ensures
            *final(self) == if old(self).selected_entity.is_some() {
                EditorState { delete_confirm: old(self).selected_entity, ..*old(self) }
            } else {
                *old(self)
            },
    {
        if self.selected_entity.is_some() {
            self.delete_confirm = self.selected_entity;
        }
    }

    /// Confirms the waiting deletion: returns the request for the store,
    /// clears the selection if it was the deleted object, and stops waiting.
    pub fn confirm_delete(&mut self) -> (r: Option<DeleteEntityEvent>)
        ensures
            r == match old(self).delete_confirm {
                Some(n) => Some(DeleteEntityEvent { entity: n }),
                None => None,
            },
            *final(self) == match old(self).delete_confirm {
                Some(n) => if old(self).selected_entity == Some(n) {
                    EditorState {
                        selected_entity: None,
                        active_axis: None,
                        delete_confirm: None,
                        ..*old(self)
                    }
                } else {
                    EditorState { delete_confirm: None, ..*old(self) }
                },
                None => *old(self),
            },
    {
        match self.delete_confirm {
            Some(n) => {
                if self.selected_entity == Some(n) {
                    self.selected_entity = None;
                    self.active_axis = None;
                }
                self.delete_confirm = None;
                Some(DeleteEntityEvent { entity: n })
            },
            None => None,
        }
    }

    /// Drops the waiting deletion.
    pub fn cancel_delete(&mut self)
        ensures
            *final(self) == (EditorState { delete_confirm: None, ..*old(self) }),
    {
        self.delete_confirm = None;
    }

    /// Applies a click in the viewport. Any click first ends the drag. A hit
    /// on a gizmo handle grabs its axis and leaves the selection alone; a hit
    /// on an object selects it; a miss clears the selection; when no ray
    /// could be formed nothing else changes.
    pub fn handle_viewport_picking(&mut self, hit: PickResult)
        ensures
            *final(self) == match hit {
                PickResult::Handle(a) => EditorState { active_axis: Some(a), ..*old(self) },
                PickResult::Object(n) => EditorState {
                    selected_entity: Some(n),
                    active_axis: None,
                    ..*old(self)
                },
                PickResult::Nothing => EditorState {
                    selected_entity: None,
                    active_axis: None,
                    ..*old(self)
                },
                PickResult::Undefined => EditorState { active_axis: None, ..*old(self) },
            },
    {
        self.active_axis = None;
        match hit {
            PickResult::Handle(a) => {
                self.active_axis = Some(a);
            },
            PickResult::Object(n) => {
                self.selected_entity = Some(n);
            },
            PickResult::Nothing => {
                self.selected_entity = None;
            },
            PickResult::Undefined => {},
        }
    }

    /// Decides what a frame of pointer input does to the selected object.
    ///
    /// Losing focus or releasing the primary button ends the drag, whatever
    /// holds the pointer. Otherwise nothing happens while another widget
    /// holds the pointer outside the viewport; and with an object selected, a camera, no other button held and
    /// some motion, Move translates (along the grabbed axis, or freely), and
    /// Rotate and Scale act on the grabbed axis only.
    pub fn update_selected_entity_transform(&mut self, input: DragInput) -> (r: Option<TransformEdit>)
        ensures
            *final(self) == if !input.viewport_focused || !input.primary_down {
                EditorState { active_axis: None, ..*old(self) }
            } else {
                *old(self)
            },
            r == if !input.viewport_focused || !input.primary_down {
                None
            } else if input.pointer_captured && !input.viewport_hovered {
                None
            } else if old(self).selected_entity.is_none() || !input.has_camera
                || input.other_button_down || !input.moved {
                None
            } else {
                edit_for(
                    old(self).gizmo_mode,
                    old(self).selected_entity.unwrap(),
                    old(self).active_axis,
                    old(self).axis_space,
                )
            },
    {
        if !input.viewport_focused || !input.primary_down {
            self.active_axis = None;
            return None;
        }
        if input.pointer_captured && !input.viewport_hovered {
            return None;
        }
        let node = match self.selected_entity {
            Some(n) => n,
            None => {
                return None;
            },
        };
        if !input.has_camera || input.other_button_down || !input.moved {
            return None;
        }
        match self.gizmo_mode {
            GizmoMode::Move => Some(
                TransformEdit::Translate { node, along: self.active_axis, space: self.axis_space },
            ),
            GizmoMode::Rotate => match self.active_axis {
                Some(a) => Some(TransformEdit::Rotate { node, axis: a, space: self.axis_space }),
                None => None,
            },
            GizmoMode::Scale => match self.active_axis {
                Some(a) => Some(TransformEdit::Scale { node, axis: a }),
                None => None,
            },
        }
    }
}

} // verus!
