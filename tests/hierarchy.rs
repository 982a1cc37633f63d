use waffle_engine::hierarchy::{build_hierarchy_snapshot, HierarchySnapshot};
use waffle_engine::label::{label_le_exec, placeholder};
use waffle_engine::node::{NodeId, NodeRecord};

fn id(index: u32) -> NodeId {
    NodeId::new(index, 0)
}

fn rec(index: u32, label: Option<&str>, parent: Option<u32>) -> NodeRecord {
    NodeRecord {
        id: id(index),
        label: label.map(|s| s.to_string()),
        parent: parent.map(id),
        hidden: false,
    }
}

fn hidden(index: u32, label: Option<&str>, parent: Option<u32>) -> NodeRecord {
    NodeRecord { hidden: true, ..rec(index, label, parent) }
}

fn kids(snap: &HierarchySnapshot, p: u32) -> Option<Vec<u32>> {
    snap.children_of(id(p)).map(|v| v.iter().map(|n| n.index).collect())
}

fn roots(snap: &HierarchySnapshot) -> Vec<u32> {
    snap.roots.iter().map(|n| n.index).collect()
}

fn label(snap: &HierarchySnapshot, x: u32) -> Option<String> {
    snap.label_of(id(x)).cloned()
}

#[test]
fn placeholder_label_is_entity_and_index() {
    assert_eq!(placeholder(0), "Entity 0");
    assert_eq!(placeholder(7), "Entity 7");
    assert_eq!(placeholder(42), "Entity 42");
    assert_eq!(placeholder(1009), "Entity 1009");
    assert_eq!(placeholder(u32::MAX), "Entity 4294967295");
}

#[test]
fn labels_compare_like_str() {
    let s = |x: &str| x.to_string();
    assert!(label_le_exec(&s("a"), &s("b")));
    assert!(!label_le_exec(&s("b"), &s("a")));
    assert!(label_le_exec(&s("a"), &s("ab")));
    assert!(!label_le_exec(&s("ab"), &s("a")));
    assert!(label_le_exec(&s(""), &s("")));
    assert!(label_le_exec(&s("Z"), &s("a")));
    assert!(label_le_exec(&s("same"), &s("same")));
    assert!(label_le_exec(&s("é"), &s("ü")));
}

#[test]
fn roots_and_children_sorted_by_label() {
    let records = vec![
        rec(1, Some("b"), None),
        rec(2, Some("a"), None),
        rec(7, None, Some(2)),
        rec(4, Some("d"), Some(2)),
        rec(5, Some("c"), Some(2)),
    ];
    let snap = build_hierarchy_snapshot(&records, None);
    assert_eq!(roots(&snap), vec![2, 1]);
    // "Entity 7" sorts before lower-case names.
    assert_eq!(kids(&snap, 2), Some(vec![7, 5, 4]));
    assert_eq!(kids(&snap, 1), None);
    assert_eq!(label(&snap, 7), Some("Entity 7".to_string()));
    assert_eq!(label(&snap, 4), Some("d".to_string()));
    assert_eq!(label(&snap, 9), None);
}

#[test]
fn equal_labels_keep_store_order() {
    let records = vec![
        rec(3, Some("x"), None),
        rec(1, Some("x"), None),
        rec(2, Some("a"), None),
        rec(9, Some("x"), None),
    ];
    let snap = build_hierarchy_snapshot(&records, None);
    assert_eq!(roots(&snap), vec![2, 3, 1, 9]);
}

#[test]
fn hidden_objects_are_left_out() {
    let records = vec![
        rec(1, Some("scene"), None),
        hidden(2, Some("camera"), None),
        hidden(3, Some("helper"), Some(1)),
        rec(4, Some("cube"), Some(1)),
    ];
    let snap = build_hierarchy_snapshot(&records, None);
    assert_eq!(roots(&snap), vec![1]);
    assert_eq!(kids(&snap, 1), Some(vec![4]));
    assert_eq!(label(&snap, 2), None);
    assert_eq!(label(&snap, 3), None);
}

#[test]
fn repeated_id_is_read_once() {
    let records = vec![rec(1, Some("first"), None), rec(1, Some("second"), Some(5))];
    let snap = build_hierarchy_snapshot(&records, None);
    assert_eq!(roots(&snap), vec![1]);
    assert_eq!(kids(&snap, 5), None);
    assert_eq!(label(&snap, 1), Some("first".to_string()));
}

#[test]
fn scope_keeps_only_the_subtree() {
    let records = vec![
        rec(1, Some("root"), None),
        rec(2, Some("b"), Some(1)),
        rec(3, Some("a"), Some(1)),
        rec(4, Some("leaf"), Some(2)),
        rec(5, Some("camera"), None),
        rec(6, Some("gizmo"), Some(5)),
    ];
    let snap = build_hierarchy_snapshot(&records, Some(id(1)));
    assert_eq!(roots(&snap), vec![1]);
    assert_eq!(kids(&snap, 1), Some(vec![3, 2]));
    assert_eq!(kids(&snap, 2), Some(vec![4]));
    assert_eq!(kids(&snap, 5), None);
    assert_eq!(label(&snap, 4), Some("leaf".to_string()));
    assert_eq!(label(&snap, 5), None);
    assert_eq!(label(&snap, 6), None);
}

#[test]
fn scope_root_missing_from_store() {
    let records = vec![rec(2, Some("child"), Some(9)), rec(3, Some("other"), None)];
    let snap = build_hierarchy_snapshot(&records, Some(id(9)));
    assert_eq!(roots(&snap), vec![9]);
    assert_eq!(kids(&snap, 9), Some(vec![2]));
    assert_eq!(label(&snap, 9), None);
    assert_eq!(label(&snap, 2), Some("child".to_string()));
    assert_eq!(label(&snap, 3), None);
}

#[test]
fn cycle_through_scope_root_is_cut() {
    let records = vec![rec(1, Some("a"), Some(2)), rec(2, Some("b"), Some(1))];
    let snap = build_hierarchy_snapshot(&records, Some(id(1)));
    assert_eq!(roots(&snap), vec![1]);
    assert_eq!(kids(&snap, 1), Some(vec![2]));
    // The back edge to the scope root is left out, so the root stands once.
    assert_eq!(kids(&snap, 2), None);
    assert_eq!(label(&snap, 1), Some("a".to_string()));
    assert_eq!(label(&snap, 2), Some("b".to_string()));
}

#[test]
fn cycle_below_scope_root_keeps_the_rest() {
    // 1 is the scope root; 2 and 3 hang below it; 1's own parent is 3.
    let records = vec![
        rec(1, Some("root"), Some(3)),
        rec(2, Some("b"), Some(1)),
        rec(3, Some("c"), Some(2)),
        rec(4, Some("d"), Some(3)),
    ];
    let snap = build_hierarchy_snapshot(&records, Some(id(1)));
    assert_eq!(roots(&snap), vec![1]);
    assert_eq!(kids(&snap, 1), Some(vec![2]));
    assert_eq!(kids(&snap, 2), Some(vec![3]));
    assert_eq!(kids(&snap, 3), Some(vec![4]));
    assert_eq!(kids(&snap, 4), None);
}

#[test]
fn unscoped_cycle_is_cut() {
    let records = vec![
        rec(1, Some("a"), Some(2)),
        rec(2, Some("b"), Some(1)),
        rec(3, Some("top"), None),
        rec(4, Some("leaf"), Some(3)),
    ];
    let snap = build_hierarchy_snapshot(&records, None);
    assert_eq!(roots(&snap), vec![3]);
    assert_eq!(kids(&snap, 3), Some(vec![4]));
    assert_eq!(kids(&snap, 1), None);
    assert_eq!(kids(&snap, 2), None);
    assert_eq!(label(&snap, 1), Some("a".to_string()));
}

#[test]
fn hidden_or_missing_parent_keeps_its_list() {
    let records = vec![
        hidden(7, Some("helper"), None),
        rec(1, Some("b"), Some(7)),
        rec(2, Some("a"), Some(7)),
        rec(3, Some("orphan"), Some(9)),
    ];
    let snap = build_hierarchy_snapshot(&records, None);
    assert!(roots(&snap).is_empty());
    assert_eq!(kids(&snap, 7), Some(vec![2, 1]));
    assert_eq!(kids(&snap, 9), Some(vec![3]));
    assert_eq!(label(&snap, 7), None);
    assert_eq!(label(&snap, 1), Some("b".to_string()));
}

#[test]
fn child_hanging_off_a_cycle_is_listed() {
    let records = vec![
        rec(1, Some("a"), Some(2)),
        rec(2, Some("b"), Some(1)),
        rec(5, Some("tail"), Some(1)),
    ];
    let snap = build_hierarchy_snapshot(&records, None);
    assert_eq!(kids(&snap, 1), Some(vec![5]));
    assert_eq!(kids(&snap, 2), None);
    assert_eq!(kids(&snap, 5), None);
}

#[test]
fn no_id_stands_twice_with_cycles() {
    let records = vec![
        rec(1, Some("r"), Some(5)),
        rec(2, Some("x"), Some(1)),
        rec(5, Some("y"), Some(2)),
        rec(6, Some("z"), Some(5)),
    ];
    for scope in [Some(id(1)), Some(id(2)), Some(id(5)), None] {
        let snap = build_hierarchy_snapshot(&records, scope);
        let mut seen: Vec<u32> = roots(&snap);
        for list in &snap.children {
            assert!(!list.children.is_empty());
            for c in &list.children {
                seen.push(c.index);
            }
        }
        let mut unique = seen.clone();
        unique.sort();
        unique.dedup();
        assert_eq!(unique.len(), seen.len());
    }
}

#[test]
fn empty_store_gives_empty_snapshot() {
    let snap = build_hierarchy_snapshot(&Vec::new(), None);
    assert!(snap.roots.is_empty());
    assert!(snap.children.is_empty());
    assert!(snap.labels.is_empty());
}

#[test]
fn rebuilding_gives_the_same_snapshot() {
    let records = vec![
        rec(1, Some("root"), None),
        rec(2, Some("b"), Some(1)),
        rec(3, None, Some(1)),
        rec(4, Some("b"), Some(1)),
        rec(5, Some("x"), Some(3)),
    ];
    for scope in [None, Some(id(1))] {
        let a = build_hierarchy_snapshot(&records, scope);
        let b = build_hierarchy_snapshot(&records, scope);
        assert_eq!(a.roots, b.roots);
        for p in 0..7 {
            assert_eq!(kids(&a, p), kids(&b, p));
            assert_eq!(label(&a, p), label(&b, p));
        }
    }
}

#[test]
fn every_scoped_object_stands_once() {
    let records = vec![
        rec(1, Some("root"), None),
        rec(2, Some("m"), Some(1)),
        rec(3, Some("k"), Some(2)),
        rec(4, Some("j"), Some(2)),
        rec(5, Some("a"), Some(1)),
    ];
    let snap = build_hierarchy_snapshot(&records, Some(id(1)));
    let mut seen: Vec<u32> = roots(&snap);
    for list in &snap.children {
        for c in &list.children {
            seen.push(c.index);
        }
        let labels: Vec<String> = list.children.iter().map(|c| snap.label_of(*c).unwrap().clone()).collect();
        let mut sorted = labels.clone();
        sorted.sort();
        assert_eq!(labels, sorted);
    }
    seen.sort();
    assert_eq!(seen, vec![1, 2, 3, 4, 5]);
}
