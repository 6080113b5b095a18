use layers::engine::{parse_debug_command, DebugCommand, Engine, LayerError};

fn engine_with_root() -> (Engine, usize) {
    let mut e = Engine::new(1);
    let root = e.new_layer(100).unwrap();
    assert_eq!(e.add_layer(root), Ok(()));
    (e, root)
}

#[test]
fn first_added_layer_becomes_root() {
    let (e, root) = engine_with_root();
    assert_eq!(e.scene_root(), Some(root));
    assert_eq!(e.scene_get_node_parent(root), None);
    assert_eq!(e.get_layer(root), Some(100));
    assert!(e.is_layer_alive(root));
}

#[test]
fn added_layers_are_children_of_root_in_order() {
    let (mut e, root) = engine_with_root();
    let a = e.new_layer(1).unwrap();
    let b = e.new_layer(2).unwrap();
    let c = e.new_layer(3).unwrap();
    assert_eq!(e.add_layer(a), Ok(()));
    assert_eq!(e.add_layer(b), Ok(()));
    assert_eq!(e.add_layer(c), Ok(()));
    assert_eq!(e.node_children(root), vec![a, b, c]);
    assert_eq!(e.scene_get_node_parent(b), Some(root));
}

#[test]
fn append_moves_layer_to_last_child() {
    let (mut e, root) = engine_with_root();
    let a = e.new_layer(1).unwrap();
    let b = e.new_layer(2).unwrap();
    e.add_layer(a).unwrap();
    e.add_layer(b).unwrap();
    e.append_layer(a, Some(root)).unwrap();
    assert_eq!(e.node_children(root), vec![b, a]);
}

#[test]
fn prepend_puts_layer_first() {
    let (mut e, root) = engine_with_root();
    let a = e.new_layer(1).unwrap();
    let b = e.new_layer(2).unwrap();
    e.add_layer(a).unwrap();
    assert_eq!(e.prepend_layer(b, Some(root)), Ok(()));
    assert_eq!(e.node_children(root), vec![b, a]);
}

#[test]
fn append_to_other_parent_reparents() {
    let (mut e, root) = engine_with_root();
    let a = e.new_layer(1).unwrap();
    let b = e.new_layer(2).unwrap();
    e.add_layer(a).unwrap();
    e.add_layer(b).unwrap();
    e.append_layer(b, Some(a)).unwrap();
    assert_eq!(e.node_children(root), vec![a]);
    assert_eq!(e.node_children(a), vec![b]);
    assert_eq!(e.scene_get_node_parent(b), Some(a));
    assert_eq!(e.node_descendants(root), vec![root, a, b]);
}

#[test]
fn unknown_layer_is_stale() {
    let (mut e, _root) = engine_with_root();
    assert_eq!(e.append_layer(999, None), Err(LayerError::StaleNode));
    assert_eq!(e.add_layer(999), Err(LayerError::StaleNode));
}

#[test]
fn missing_parent_is_stale() {
    let (mut e, _root) = engine_with_root();
    let a = e.new_layer(1).unwrap();
    assert_eq!(e.append_layer(a, Some(777)), Err(LayerError::StaleNode));
    assert_eq!(e.scene_get_node_parent(a), None);
}

#[test]
fn cycle_is_detected_before_append() {
    let (mut e, root) = engine_with_root();
    let a = e.new_layer(1).unwrap();
    let b = e.new_layer(2).unwrap();
    e.add_layer(a).unwrap();
    e.append_layer(b, Some(a)).unwrap();
    assert!(e.creates_cycle(a, Some(b)));
    assert!(e.creates_cycle(root, Some(b)));
    assert!(e.creates_cycle(a, Some(a)));
    assert!(!e.creates_cycle(b, Some(root)));
}

#[test]
fn removing_a_layer_removes_its_subtree() {
    let (mut e, root) = engine_with_root();
    let a = e.new_layer(1).unwrap();
    let b = e.new_layer(2).unwrap();
    let c = e.new_layer(3).unwrap();
    e.add_layer(a).unwrap();
    e.add_layer(c).unwrap();
    e.append_layer(b, Some(a)).unwrap();
    assert_eq!(e.scene_remove_layer(a), Some(root));
    assert!(!e.is_layer_alive(a));
    assert!(!e.is_layer_alive(b));
    assert!(e.is_layer_alive(c));
    assert_eq!(e.get_layer(a), None);
    assert_eq!(e.node_children(root), vec![c]);
    let data = e.scene_get_node(root).unwrap();
    assert!(data.needs_layout());
}

#[test]
fn removing_a_detached_layer_keeps_its_node() {
    let (mut e, _root) = engine_with_root();
    let a = e.new_layer(1).unwrap();
    assert_eq!(e.scene_remove_layer(a), None);
    assert!(e.is_layer_alive(a));
    assert_eq!(e.get_layer(a), None);
}

#[test]
fn marked_nodes_are_cleaned_up() {
    let (mut e, root) = engine_with_root();
    let a = e.new_layer(1).unwrap();
    let b = e.new_layer(2).unwrap();
    e.add_layer(a).unwrap();
    e.add_layer(b).unwrap();
    e.mark_for_delete(a);
    assert!(e.scene_get_node(a).unwrap().is_deleted());
    assert!(e.scene_get_node(a).unwrap().hidden());
    assert_eq!(e.nodes_marked_for_deletion(), vec![a]);
    let removed = e.cleanup_nodes();
    assert_eq!(removed, vec![(a, Some(root))]);
    assert!(!e.is_layer_alive(a));
    assert_eq!(e.node_children(root), vec![b]);
}

#[test]
fn set_root_detaches_layer() {
    let (mut e, root) = engine_with_root();
    let a = e.new_layer(1).unwrap();
    e.add_layer(a).unwrap();
    assert_eq!(e.scene_set_root(a), a);
    assert_eq!(e.scene_root(), Some(a));
    assert_eq!(e.scene_get_node_parent(a), None);
    assert_eq!(e.node_children(root), Vec::<usize>::new());
}

#[test]
fn nodes_for_layout_skip_marked_nodes() {
    let (mut e, root) = engine_with_root();
    let a = e.new_layer(1).unwrap();
    let b = e.new_layer(2).unwrap();
    e.add_layer(a).unwrap();
    e.add_layer(b).unwrap();
    assert_eq!(e.nodes_for_layout(), vec![root, a, b]);
    e.mark_for_delete(a);
    assert_eq!(e.nodes_for_layout(), vec![root, b]);
    let empty = Engine::new(3);
    assert_eq!(empty.nodes_for_layout(), Vec::<usize>::new());
}

#[test]
fn debug_highlight_marks_node_for_repaint() {
    let (mut e, root) = engine_with_root();
    let mut d = e.scene_get_node(root).unwrap();
    d.set_needs_repaint(false);
    e.set_node_data(root, d);
    e.apply_debug_command(DebugCommand::Unknown, root);
    assert!(!e.scene_get_node(root).unwrap().needs_repaint());
    e.apply_debug_command(DebugCommand::Highlight, root);
    let n = e.scene_get_node(root).unwrap();
    assert!(n.needs_repaint());
    assert!(n.has_debug_info());
    assert!(n.changed_after_update(false));
    e.apply_debug_command(DebugCommand::Unhighlight, root);
    let n = e.scene_get_node(root).unwrap();
    assert!(!n.has_debug_info());
    assert!(!n.changed_after_update(false));
    assert!(n.changed_after_update(true));
}

#[test]
fn cleanup_of_nested_marked_nodes_relayouts_only_live_parents() {
    let (mut e, root) = engine_with_root();
    let a = e.new_layer(1).unwrap();
    let b = e.new_layer(2).unwrap();
    let c = e.new_layer(3).unwrap();
    e.add_layer(a).unwrap();
    e.append_layer(b, Some(a)).unwrap();
    e.append_layer(c, Some(b)).unwrap();
    e.mark_for_delete(a);
    e.mark_for_delete(c);
    let removed = e.cleanup_nodes();
    assert_eq!(removed, vec![(a, Some(root)), (c, None)]);
    assert!(!e.is_layer_alive(b));
    assert_eq!(e.get_layer(a), None);
    assert_eq!(e.get_layer(c), None);
    assert_eq!(e.get_layer(b), Some(2));
    assert!(e.scene_get_node(root).unwrap().needs_layout());
}

#[test]
fn layers_are_found_by_key() {
    let (mut e, root) = engine_with_root();
    let a = e.new_layer(1).unwrap();
    assert_eq!(e.layer_key(a), "");
    e.set_layer_key(a, "main_view");
    e.set_layer_key(root, "root");
    assert_eq!(e.layer_key(a), "main_view");
    assert_eq!(e.find_layer_by_key("main_view"), Some(a));
    assert_eq!(e.find_layer_by_key("root"), Some(root));
    assert_eq!(e.find_layer_by_key("main"), None);
    assert_eq!(e.find_layer_by_key(""), None);
    let c = e.new_layer(9).unwrap();
    assert_eq!(e.find_layer_by_key(""), Some(c));
    e.scene_remove_layer(a);
    assert_eq!(e.find_layer_by_key("main_view"), None);
}

#[test]
fn a_reused_slot_starts_with_an_empty_key() {
    let (mut e, _root) = engine_with_root();
    let a = e.new_layer(1).unwrap();
    e.add_layer(a).unwrap();
    e.set_layer_key(a, "gone");
    e.scene_remove_layer(a);
    let b = e.new_layer(2).unwrap();
    assert_eq!(b, a);
    assert_eq!(e.layer_key(b), "");
    assert_eq!(e.find_layer_by_key("gone"), None);
}

#[test]
fn debug_command_names_parse() {
    assert_eq!(parse_debug_command(b"highlight"), DebugCommand::Highlight);
    assert_eq!(parse_debug_command(b"unhighlight"), DebugCommand::Unhighlight);
    assert_eq!(parse_debug_command(b"highlights"), DebugCommand::Unknown);
    assert_eq!(parse_debug_command(b""), DebugCommand::Unknown);
    assert_eq!(parse_debug_command(b"un"), DebugCommand::Unknown);
}

#[test]
fn marked_layer_leaves_hit_test_list_at_once() {
    let (mut e, root) = engine_with_root();
    let a = e.new_layer(1).unwrap();
    e.add_layer(a).unwrap();
    e.rebuild_hit_test_node_list(root);
    assert_eq!(e.hit_test_node_list().clone(), vec![root, a]);
    e.mark_for_delete(a);
    e.refresh_caches();
    assert_eq!(e.hit_test_node_list().clone(), vec![root]);
}

#[test]
fn cleanup_goes_in_slot_order_and_covers_detached_nodes() {
    let (mut e, root) = engine_with_root();
    let a = e.new_layer(1).unwrap();
    let b = e.new_layer(2).unwrap();
    let d = e.new_layer(4).unwrap();
    e.add_layer(b).unwrap();
    e.append_layer(a, Some(b)).unwrap();
    e.mark_for_delete(a);
    e.mark_for_delete(b);
    e.mark_for_delete(d);
    assert_eq!(e.nodes_marked_for_deletion(), vec![a, b, d]);
    let removed = e.cleanup_nodes();
    assert_eq!(removed, vec![(a, None), (b, Some(root)), (d, None)]);
    assert!(!e.is_layer_alive(a));
    assert!(!e.is_layer_alive(b));
    assert!(e.is_layer_alive(d));
    assert_eq!(e.get_layer(d), None);
    assert_eq!(e.node_children(root), Vec::<usize>::new());
}
