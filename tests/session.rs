use waffle_engine::coordinator::DeleteEntityEvent;
use waffle_engine::gizmo::{
    mode_for_key, pick_result, AxisSpace, DragInput, EditorKey, GizmoAxis, GizmoMode, PickResult, TransformEdit,
};
use waffle_engine::node::NodeId;
use waffle_engine::session::EditorState;

fn id(index: u32) -> NodeId {
    NodeId::new(index, 0)
}

fn dragging() -> DragInput {
    DragInput {
        pointer_captured: false,
        viewport_hovered: true,
        viewport_focused: true,
        primary_down: true,
        other_button_down: false,
        has_camera: true,
        moved: true,
    }
}

fn selected(n: u32) -> EditorState {
    let mut s = EditorState::new();
    s.select(Some(id(n)));
    s
}

#[test]
fn new_state_defaults() {
    let s = EditorState::new();
    assert_eq!(s.selected_entity, None);
    assert_eq!(s.gizmo_mode, GizmoMode::Move);
    assert_eq!(s.active_axis, None);
    assert_eq!(s.axis_space, AxisSpace::Global);
    assert_eq!(s.delete_confirm, None);
    assert_eq!(EditorState::default(), s);
}

#[test]
fn keys_select_modes() {
    assert_eq!(mode_for_key(EditorKey::Q), Some(GizmoMode::Move));
    assert_eq!(mode_for_key(EditorKey::W), Some(GizmoMode::Rotate));
    assert_eq!(mode_for_key(EditorKey::E), Some(GizmoMode::Scale));
    assert_eq!(mode_for_key(EditorKey::Delete), None);
    let mut s = EditorState::new();
    s.handle_key(EditorKey::W, false, false);
    assert_eq!(s.gizmo_mode, GizmoMode::Rotate);
    s.handle_key(EditorKey::E, true, false);
    assert_eq!(s.gizmo_mode, GizmoMode::Rotate);
    s.handle_key(EditorKey::E, false, true);
    assert_eq!(s.gizmo_mode, GizmoMode::Rotate);
    s.handle_key(EditorKey::E, false, false);
    assert_eq!(s.gizmo_mode, GizmoMode::Scale);
}

#[test]
fn switching_mode_ends_drag() {
    let mut s = selected(1);
    s.handle_viewport_picking(PickResult::Handle(GizmoAxis::X));
    s.set_gizmo_mode(GizmoMode::Move);
    assert_eq!(s.active_axis, Some(GizmoAxis::X));
    s.set_gizmo_mode(GizmoMode::Scale);
    assert_eq!(s.active_axis, None);
    assert_eq!(s.gizmo_mode, GizmoMode::Scale);
}

#[test]
fn axis_space_switches() {
    let mut s = EditorState::new();
    s.set_axis_space(AxisSpace::Local);
    assert_eq!(s.axis_space, AxisSpace::Local);
}

#[test]
fn gizmo_hit_takes_priority_over_selection() {
    let mut s = selected(4);
    s.handle_viewport_picking(PickResult::Handle(GizmoAxis::Y));
    assert_eq!(s.active_axis, Some(GizmoAxis::Y));
    assert_eq!(s.selected_entity, Some(id(4)));
}

#[test]
fn pick_selects_and_miss_deselects() {
    let mut s = selected(4);
    s.handle_viewport_picking(PickResult::Object(id(9)));
    assert_eq!(s.selected_entity, Some(id(9)));
    s.handle_viewport_picking(PickResult::Undefined);
    assert_eq!(s.selected_entity, Some(id(9)));
    s.handle_viewport_picking(PickResult::Nothing);
    assert_eq!(s.selected_entity, None);
}

#[test]
fn delete_needs_confirmation() {
    let mut s = selected(3);
    s.handle_key(EditorKey::Delete, false, false);
    assert_eq!(s.delete_confirm, Some(id(3)));
    assert_eq!(s.selected_entity, Some(id(3)));
    assert_eq!(s.confirm_delete(), Some(DeleteEntityEvent { entity: id(3) }));
    assert_eq!(s.selected_entity, None);
    assert_eq!(s.delete_confirm, None);
    assert_eq!(s.confirm_delete(), None);
}

#[test]
fn delete_cancelled_or_blocked() {
    let mut s = selected(3);
    s.request_delete();
    s.cancel_delete();
    assert_eq!(s.delete_confirm, None);
    assert_eq!(s.selected_entity, Some(id(3)));
    s.handle_key(EditorKey::Delete, true, false);
    assert_eq!(s.delete_confirm, None);
    let mut empty = EditorState::new();
    empty.handle_key(EditorKey::Delete, false, false);
    assert_eq!(empty.delete_confirm, None);
    empty.request_delete();
    assert_eq!(empty.delete_confirm, None);
}

#[test]
fn deleting_other_object_keeps_selection() {
    let mut s = selected(3);
    s.request_delete();
    s.select(Some(id(5)));
    assert_eq!(s.confirm_delete(), Some(DeleteEntityEvent { entity: id(3) }));
    assert_eq!(s.selected_entity, Some(id(5)));
}

#[test]
fn move_drag_follows_grabbed_axis() {
    let mut s = selected(2);
    assert_eq!(
        s.update_selected_entity_transform(dragging()),
        Some(TransformEdit::Translate { node: id(2), along: None, space: AxisSpace::Global })
    );
    s.handle_viewport_picking(PickResult::Handle(GizmoAxis::Y));
    assert_eq!(
        s.update_selected_entity_transform(dragging()),
        Some(TransformEdit::Translate { node: id(2), along: Some(GizmoAxis::Y), space: AxisSpace::Global })
    );
}

#[test]
fn rotate_and_scale_need_an_axis() {
    let mut s = selected(2);
    s.set_gizmo_mode(GizmoMode::Rotate);
    assert_eq!(s.update_selected_entity_transform(dragging()), None);
    s.handle_viewport_picking(PickResult::Handle(GizmoAxis::Z));
    s.set_axis_space(AxisSpace::Local);
    assert_eq!(
        s.update_selected_entity_transform(dragging()),
        Some(TransformEdit::Rotate { node: id(2), axis: GizmoAxis::Z, space: AxisSpace::Local })
    );
    s.set_gizmo_mode(GizmoMode::Scale);
    assert_eq!(s.update_selected_entity_transform(dragging()), None);
    s.handle_viewport_picking(PickResult::Handle(GizmoAxis::X));
    assert_eq!(
        s.update_selected_entity_transform(dragging()),
        Some(TransformEdit::Scale { node: id(2), axis: GizmoAxis::X })
    );
}

#[test]
fn release_or_focus_loss_ends_drag() {
    let mut s = selected(2);
    s.handle_viewport_picking(PickResult::Handle(GizmoAxis::X));
    let released = DragInput { primary_down: false, ..dragging() };
    assert_eq!(s.update_selected_entity_transform(released), None);
    assert_eq!(s.active_axis, None);
    s.handle_viewport_picking(PickResult::Handle(GizmoAxis::X));
    let unfocused = DragInput { viewport_focused: false, ..dragging() };
    assert_eq!(s.update_selected_entity_transform(unfocused), None);
    assert_eq!(s.active_axis, None);
}

#[test]
fn drag_blocked_without_clearing_axis() {
    let mut s = selected(2);
    s.handle_viewport_picking(PickResult::Handle(GizmoAxis::X));
    let captured = DragInput { pointer_captured: true, viewport_hovered: false, ..dragging() };
    assert_eq!(s.update_selected_entity_transform(captured), None);
    assert_eq!(s.active_axis, Some(GizmoAxis::X));
    for input in [
        DragInput { other_button_down: true, ..dragging() },
        DragInput { has_camera: false, ..dragging() },
        DragInput { moved: false, ..dragging() },
    ] {
        assert_eq!(s.update_selected_entity_transform(input), None);
        assert_eq!(s.active_axis, Some(GizmoAxis::X));
    }
    let mut none = EditorState::new();
    assert_eq!(none.update_selected_entity_transform(dragging()), None);
}

#[test]
fn deselect_ends_drag() {
    let mut s = selected(2);
    s.handle_viewport_picking(PickResult::Handle(GizmoAxis::X));
    s.select(None);
    assert_eq!(s.active_axis, None);
}

#[test]
fn release_ends_drag_even_when_pointer_is_captured() {
    let mut s = selected(2);
    s.handle_viewport_picking(PickResult::Handle(GizmoAxis::Y));
    let released = DragInput {
        pointer_captured: true,
        viewport_hovered: false,
        primary_down: false,
        ..dragging()
    };
    assert_eq!(s.update_selected_entity_transform(released), None);
    assert_eq!(s.active_axis, None);
    s.handle_viewport_picking(PickResult::Handle(GizmoAxis::Y));
    let unfocused = DragInput {
        pointer_captured: true,
        viewport_hovered: false,
        viewport_focused: false,
        ..dragging()
    };
    assert_eq!(s.update_selected_entity_transform(unfocused), None);
    assert_eq!(s.active_axis, None);
}

#[test]
fn pick_result_prefers_handles() {
    assert_eq!(pick_result(Some(GizmoAxis::Z), true, Some(id(3))), PickResult::Handle(GizmoAxis::Z));
    assert_eq!(pick_result(Some(GizmoAxis::X), false, None), PickResult::Handle(GizmoAxis::X));
    assert_eq!(pick_result(None, false, Some(id(3))), PickResult::Undefined);
    assert_eq!(pick_result(None, true, Some(id(3))), PickResult::Object(id(3)));
    assert_eq!(pick_result(None, true, None), PickResult::Nothing);
}
