use waffle_engine::coordinator::{
    find_descendant_with_material, is_descendant, request_reparent, spawn_parent,
    HierarchyReparentEvent, SpawnPrimitiveEvent, SpawnPrimitiveKind,
};
use waffle_engine::node::{NodeId, NodeRecord};

fn id(index: u32) -> NodeId {
    NodeId::new(index, 1)
}

fn rec(index: u32, parent: Option<u32>, hidden: bool) -> NodeRecord {
    NodeRecord { id: id(index), label: None, parent: parent.map(id), hidden }
}

/// A (1) is the root, B (2) a child of A, C (3) a child of B.
fn chain() -> Vec<NodeRecord> {
    vec![rec(1, None, false), rec(2, Some(1), false), rec(3, Some(2), false)]
}

#[test]
fn reparent_under_own_descendant_is_rejected() {
    let records = chain();
    assert_eq!(request_reparent(&records, id(1), Some(id(3))), None);
    assert_eq!(request_reparent(&records, id(1), Some(id(2))), None);
    assert_eq!(request_reparent(&records, id(2), Some(id(3))), None);
}

#[test]
fn reparent_under_self_is_rejected() {
    let records = chain();
    assert_eq!(request_reparent(&records, id(2), Some(id(2))), None);
}

#[test]
fn reparent_elsewhere_is_granted() {
    let records = chain();
    assert_eq!(
        request_reparent(&records, id(3), Some(id(1))),
        Some(HierarchyReparentEvent { child: id(3), new_parent: Some(id(1)) })
    );
    assert_eq!(
        request_reparent(&records, id(2), None),
        Some(HierarchyReparentEvent { child: id(2), new_parent: None })
    );
    assert_eq!(
        request_reparent(&records, id(1), Some(id(8))),
        Some(HierarchyReparentEvent { child: id(1), new_parent: Some(id(8)) })
    );
}

#[test]
fn descendants_through_hidden_objects_count() {
    let records = vec![rec(1, None, false), rec(2, Some(1), true), rec(3, Some(2), false)];
    assert!(is_descendant(&records, id(1), id(3)));
    assert_eq!(request_reparent(&records, id(1), Some(id(3))), None);
}

#[test]
fn descendant_walk_ends_on_cycles() {
    let records = vec![rec(1, Some(3), false), rec(2, Some(1), false), rec(3, Some(2), false)];
    assert!(is_descendant(&records, id(1), id(3)));
    assert!(is_descendant(&records, id(3), id(1)));
    assert!(!is_descendant(&records, id(1), id(4)));
    assert!(is_descendant(&records, id(4), id(4)));
}

#[test]
fn material_found_below_node() {
    let records = vec![
        rec(1, None, false),
        rec(2, Some(1), false),
        rec(3, Some(2), false),
        rec(4, None, false),
    ];
    assert_eq!(find_descendant_with_material(&records, id(1), &vec![id(3)]), Some(id(3)));
    assert_eq!(find_descendant_with_material(&records, id(1), &vec![id(1), id(4)]), None);
    assert_eq!(find_descendant_with_material(&records, id(2), &vec![id(3), id(4)]), Some(id(3)));
    assert_eq!(find_descendant_with_material(&records, id(3), &vec![id(3)]), None);
}

#[test]
fn material_search_takes_first_marked_entry() {
    let records = vec![
        rec(1, None, false),
        rec(2, Some(1), false),
        rec(3, Some(2), false),
        rec(4, Some(1), false),
    ];
    assert_eq!(find_descendant_with_material(&records, id(1), &vec![id(3), id(2)]), Some(id(3)));
    assert_eq!(find_descendant_with_material(&records, id(1), &vec![id(9), id(4), id(2)]), Some(id(4)));
    assert_eq!(find_descendant_with_material(&records, id(1), &vec![]), None);
}

#[test]
fn spawned_objects_go_under_scene_root_by_default() {
    let root = Some(id(1));
    let loose = SpawnPrimitiveEvent { kind: SpawnPrimitiveKind::Cube, parent: None };
    assert_eq!(spawn_parent(loose, root), root);
    assert_eq!(spawn_parent(loose, None), None);
    let placed = SpawnPrimitiveEvent { kind: SpawnPrimitiveKind::Cube, parent: Some(id(5)) };
    assert_eq!(spawn_parent(placed, root), Some(id(5)));
}

#[test]
fn spawned_objects_are_named_by_kind() {
    assert_eq!(SpawnPrimitiveKind::Empty.default_name(), "Entity");
    assert_eq!(SpawnPrimitiveKind::Cube.default_name(), "Cube");
    assert_eq!(SpawnPrimitiveKind::Sphere.default_name(), "Sphere");
    assert_eq!(SpawnPrimitiveKind::Plane.default_name(), "Plane");
    assert_eq!(SpawnPrimitiveKind::DirectionalLight.default_name(), "Directional Light");
    assert_eq!(SpawnPrimitiveKind::PointLight.default_name(), "Point Light");
    assert_eq!(SpawnPrimitiveKind::SpotLight.default_name(), "Spot Light");
}
