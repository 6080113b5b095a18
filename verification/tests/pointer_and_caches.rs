use layers::engine::Engine;
use layers::pointer::{HoverChange, PointerEventType};

// root
// ├── a
// │   └── b
// └── c
fn small_scene() -> (Engine, usize, usize, usize, usize) {
    let mut e = Engine::new(1);
    let root = e.new_layer(0).unwrap();
    e.add_layer(root).unwrap();
    let a = e.new_layer(1).unwrap();
    let b = e.new_layer(2).unwrap();
    let c = e.new_layer(3).unwrap();
    e.add_layer(a).unwrap();
    e.add_layer(c).unwrap();
    e.append_layer(b, Some(a)).unwrap();
    (e, root, a, b, c)
}

#[test]
fn hit_test_list_is_in_tree_order() {
    let (mut e, root, a, b, c) = small_scene();
    e.rebuild_hit_test_node_list(root);
    assert_eq!(e.hit_test_node_list().clone(), vec![root, a, b, c]);
}

#[test]
fn hidden_subtree_leaves_hit_test_list() {
    let (mut e, root, a, _b, c) = small_scene();
    let mut data = e.scene_get_node(a).unwrap();
    data.set_hidden(true);
    e.set_node_data(a, data);
    e.rebuild_hit_test_node_list(root);
    assert_eq!(e.hit_test_node_list().clone(), vec![root, c]);
}

#[test]
fn node_without_pointer_events_is_skipped_but_not_its_children() {
    let (mut e, root, a, b, c) = small_scene();
    let mut data = e.scene_get_node(a).unwrap();
    data.set_pointer_events(false);
    e.set_node_data(a, data);
    e.rebuild_hit_test_node_list(root);
    assert_eq!(e.hit_test_node_list().clone(), vec![root, b, c]);
}

#[test]
fn pointer_move_hovers_topmost_hit() {
    let (mut e, root, a, b, c) = small_scene();
    e.rebuild_hit_test_node_list(root);
    let change = e.pointer_move(&vec![true, true, true, false], None);
    assert_eq!(change, HoverChange { hovered: Some(b), entered: Some(b), exited: None });
    assert_eq!(e.current_hover(), Some(b));
    let change = e.pointer_move(&vec![true, true, true, false], None);
    assert_eq!(change, HoverChange { hovered: Some(b), entered: None, exited: None });
    let change = e.pointer_move(&vec![true, false, false, true], Some(a));
    assert_eq!(change, HoverChange { hovered: None, entered: None, exited: Some(b) });
    let change = e.pointer_move(&vec![true, false, false, true], None);
    assert_eq!(change, HoverChange { hovered: Some(c), entered: Some(c), exited: None });
}

#[test]
fn pointer_events_bubble_from_root_down() {
    let (mut e, root, a, b, _c) = small_scene();
    let h1 = e.add_pointer_handler(root, PointerEventType::Down);
    let h2 = e.add_pointer_handler(b, PointerEventType::Down);
    assert_eq!(h2, h1 + 1);
    assert_eq!(e.bubble_targets(b), vec![root, b]);
    assert_eq!(e.pointer_handlers_of(b).unwrap().on_down, vec![h2]);
    e.remove_pointer_handler(b, h2);
    assert_eq!(e.pointer_handlers_of(b).unwrap().on_down, Vec::<usize>::new());
    e.remove_all_pointer_handlers(root);
    let cleared = e.pointer_handlers_of(root).unwrap();
    assert!(cleared.on_down.is_empty() && cleared.on_move.is_empty());
    assert_eq!(e.bubble_targets(a), vec![root]);
}

#[test]
fn removing_a_layer_drops_its_pointer_handlers() {
    let (mut e, _root, a, b, _c) = small_scene();
    e.add_pointer_handler(b, PointerEventType::Move);
    let h_a = e.add_pointer_handler(a, PointerEventType::Up);
    e.scene_remove_layer(a);
    assert!(e.pointer_handlers_of(a).is_none());
    assert!(e.pointer_handlers_of(b).is_none());
}

#[test]
fn post_order_puts_children_first() {
    let (mut e, root, a, b, c) = small_scene();
    e.rebuild_traversal_cache();
    assert_eq!(e.cached_nodes_post_order().clone(), vec![b, a, c, root]);
    let groups = e.cached_depth_groups().clone();
    assert_eq!(groups, vec![(0, vec![root]), (1, vec![a, c]), (2, vec![b])]);
}

#[test]
fn refresh_caches_rebuilds_what_is_marked() {
    let (mut e, root, a, b, c) = small_scene();
    assert!(e.refresh_caches());
    assert_eq!(e.hit_test_node_list().clone(), vec![root, a, b, c]);
    assert_eq!(e.cached_nodes_post_order().clone(), vec![b, a, c, root]);
    let mut empty = Engine::new(2);
    assert!(!empty.refresh_caches());
}

#[test]
fn ancestors_of_a_node_are_repainted() {
    let (mut e, root, a, b, _c) = small_scene();
    for n in [root, a, b] {
        let mut d = e.scene_get_node(n).unwrap();
        d.set_needs_repaint(false);
        d.set_image_cached(true);
        e.set_node_data(n, d);
    }
    e.mark_image_cached_ancestors_for_repaint(b);
    assert!(!e.scene_get_node(b).unwrap().needs_repaint());
    assert!(e.scene_get_node(a).unwrap().needs_repaint());
    assert!(e.scene_get_node(root).unwrap().needs_repaint());
    assert_eq!(e.scene_get_node(a).unwrap().frame_number(), 1);
    assert_eq!(e.scene_get_node(b).unwrap().frame_number(), 0);
}

#[test]
fn button_events_bubble_through_handlers_in_order() {
    let (mut e, root, a, b, _c) = small_scene();
    let h_root = e.add_pointer_handler(root, PointerEventType::Down);
    let h_b1 = e.add_pointer_handler(b, PointerEventType::Down);
    let h_b2 = e.add_pointer_handler(b, PointerEventType::Down);
    let h_a = e.add_pointer_handler(a, PointerEventType::Up);
    assert_eq!(e.pointer_button_down(), Vec::<(usize, usize)>::new());
    e.rebuild_hit_test_node_list(root);
    e.pointer_move(&vec![false, false, true, false], None);
    assert_eq!(e.pointer_button_down(), vec![(root, h_root), (b, h_b1), (b, h_b2)]);
    assert_eq!(e.pointer_button_up(), vec![(a, h_a)]);
    assert_eq!(e.bubble_up_event(b, PointerEventType::Down), vec![(root, h_root), (b, h_b1), (b, h_b2)]);
}

#[test]
fn hidden_ancestor_hides_deep_nodes_but_root_filter_applies() {
    let (mut e, root, a, b, c) = small_scene();
    let d = e.new_layer(4).unwrap();
    e.append_layer(d, Some(b)).unwrap();
    e.rebuild_hit_test_node_list(a);
    assert_eq!(e.hit_test_node_list().clone(), vec![a, b, d]);
    let mut data = e.scene_get_node(b).unwrap();
    data.set_hidden(true);
    e.set_node_data(b, data);
    e.rebuild_hit_test_node_list(root);
    assert_eq!(e.hit_test_node_list().clone(), vec![root, a, c]);
    assert_eq!(e.node_descendants(a), vec![a, b, d]);
}
