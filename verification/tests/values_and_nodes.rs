use std::collections::HashMap;

use layers::commands::{execute_commands, ChangeStep, PendingChange, Progress};
use layers::flags::{RenderableFlags, NEEDS_LAYOUT_BIT, NEEDS_PAINT_BIT};
use layers::node::{RenderLayerUpdate, SceneNode};
use layers::pointer::{hover_change, ButtonState, HoverChange};
use layers::storage::FlatStorage;
use layers::values::{Attribute, AnimatedValue, BorderStyle, IdCounter, NoopChange, SyncValue};

#[test]
fn attribute_ids_come_from_the_counter() {
    let mut counter = IdCounter::new();
    let mut floats: FlatStorage<f64> = FlatStorage::new();
    let mut strings: FlatStorage<String> = FlatStorage::new();
    let a = Attribute::new(1.5f64, &mut counter, &mut floats);
    let b = Attribute::new(String::from("x"), &mut counter, &mut strings);
    assert_eq!(a.id, 0);
    assert_eq!(b.id, 1);
    assert_eq!(counter.fetch_add(), 2);
    assert_eq!(a.value(&floats), 1.5);
    assert_eq!(b.value(&strings), "x");
}

#[test]
fn attribute_set_then_value() {
    let mut counter = IdCounter::new();
    let mut store: FlatStorage<u32> = FlatStorage::new();
    let a = Attribute::new(10u32, &mut counter, &mut store);
    assert_eq!(a.value(&store), 10);
    a.set(20, &mut store);
    assert_eq!(a.value(&store), 20);
    assert_eq!(a.id, 0);
}

#[test]
fn attribute_set_is_seen_by_clone_and_change_target() {
    let mut counter = IdCounter::new();
    let mut store: FlatStorage<u32> = FlatStorage::new();
    let a = Attribute::new(1u32, &mut counter, &mut store);
    let other = Attribute::new(7u32, &mut counter, &mut store);
    let c = a.clone();
    let ch = a.to(5, &store);
    a.set(3, &mut store);
    assert_eq!(c.value(&store), 3);
    assert_eq!(ch.from, 1);
    assert_eq!(ch.target.value(&store), 3);
    assert_eq!(other.value(&store), 7);
}

#[test]
fn sync_value_set_then_value() {
    let mut counter = IdCounter::new();
    let mut store: FlatStorage<Vec<i32>> = FlatStorage::new();
    let v = SyncValue::new(vec![1, 2], &mut counter, &mut store);
    let c = v.clone();
    v.set(vec![3], &mut store);
    assert_eq!(v.value(&store), vec![3]);
    assert_eq!(c.value(&store), vec![3]);
    assert_eq!(v.to(vec![4], &store).from, vec![3]);
}

#[test]
fn animated_value_keeps_parent() {
    let mut counter = IdCounter::new();
    counter.fetch_add();
    let mut store: FlatStorage<f64> = FlatStorage::new();
    let v = AnimatedValue::new(12, 0.25f64, &mut counter, &mut store);
    assert_eq!(v.id, 1);
    assert_eq!(v.parent, 12);
    assert_eq!(v.value(&store), 0.25);
}

#[test]
fn counter_ids_are_consecutive() {
    let mut counter = IdCounter::new();
    let ids: Vec<usize> = (0..5).map(|_| counter.fetch_add()).collect();
    assert_eq!(ids, vec![0, 1, 2, 3, 4]);
}

#[test]
fn noop_change_asks_for_layout_and_paint() {
    let c = NoopChange::new(33);
    assert_eq!(c.value_id(), 33);
    let f = c.execute();
    assert_eq!(f.bits, NEEDS_PAINT_BIT | NEEDS_LAYOUT_BIT);
    assert!(f.contains(RenderableFlags::needs_paint()));
    assert!(f.contains(RenderableFlags::needs_layout()));
    assert!(!f.contains(RenderableFlags::noop()));
}

#[test]
fn border_style_and_button_state_compare() {
    assert_eq!(BorderStyle::Dotted, BorderStyle::Dotted);
    assert_ne!(BorderStyle::Solid, BorderStyle::Dashed);
    assert_ne!(ButtonState::Pressed, ButtonState::Released);
}

#[test]
fn flags_insert_remove_set() {
    let mut f = RenderableFlags::empty();
    f.insert(RenderableFlags::needs_layout());
    assert!(f.contains(RenderableFlags::needs_layout()));
    f.set(RenderableFlags::needs_paint(), true);
    assert_eq!(f.bits, 6);
    f.remove(RenderableFlags::needs_layout());
    assert_eq!(f.bits, 4);
    f.set(RenderableFlags::needs_paint(), false);
    assert_eq!(f.bits, 0);
}

#[test]
fn render_layer_update_any() {
    assert!(!RenderLayerUpdate { size_changed: false, moved: false }.any());
    assert!(RenderLayerUpdate { size_changed: true, moved: false }.any());
    assert!(RenderLayerUpdate { size_changed: false, moved: true }.any());
}

#[test]
fn fresh_node_needs_paint_and_layout() {
    let n = SceneNode::new();
    assert!(n.needs_repaint());
    assert!(n.needs_layout());
    assert!(n.pointer_events());
    assert!(!n.hidden());
    assert!(!n.is_deleted());
    assert_eq!(n.frame_number(), 0);
}

#[test]
fn node_flag_set_get() {
    let mut n = SceneNode::new();
    n.set_needs_repaint(false);
    assert!(!n.needs_repaint());
    assert!(n.needs_layout());
    n.set_needs_layout(false);
    assert!(!n.needs_layout());
    n.set_needs_repaint(true);
    assert!(n.needs_repaint());
}

#[test]
fn frame_number_wraps_to_one() {
    let mut n = SceneNode::new();
    n.increase_frame();
    n.increase_frame();
    assert_eq!(n.frame_number(), 2);
    n.frame_number = usize::MAX;
    n.increase_frame();
    assert_eq!(n.frame_number(), 1);
}

#[test]
fn hover_change_enters_and_exits() {
    assert_eq!(hover_change(None, Some(3)), HoverChange { hovered: Some(3), entered: Some(3), exited: None });
    assert_eq!(hover_change(Some(3), Some(3)), HoverChange { hovered: Some(3), entered: None, exited: None });
    assert_eq!(hover_change(Some(3), Some(4)), HoverChange { hovered: Some(4), entered: Some(4), exited: Some(3) });
    assert_eq!(hover_change(Some(4), None), HoverChange { hovered: None, entered: None, exited: Some(4) });
}

#[test]
fn flat_storage_insert_get_remove() {
    let mut s: FlatStorage<&str> = FlatStorage::new();
    let a = s.insert("a");
    let b = s.insert("b");
    assert_eq!((a, b), (0, 1));
    assert_eq!(s.get(a), Some(&"a"));
    assert_eq!(s.insert_with_id("z", 10), 10);
    assert_eq!(s.len(), 3);
    assert_eq!(s.remove_at(b), Some("b"));
    assert!(!s.contains(b));
    assert_eq!(s.get(b), None);
}

#[test]
fn commands_follow_their_animation() {
    let mut anims = HashMap::new();
    anims.insert(1usize, false);
    anims.insert(2usize, true);
    let cmds = vec![
        PendingChange { id: 10, animation_id: Some(1), needs_repaint: true },
        PendingChange { id: 11, animation_id: Some(2), needs_repaint: false },
        PendingChange { id: 12, animation_id: None, needs_repaint: false },
        PendingChange { id: 13, animation_id: Some(9), needs_repaint: true },
    ];
    let (steps, done) = execute_commands(&cmds, &anims);
    assert_eq!(steps[0], ChangeStep { id: 10, progress: Progress::Animation(1), repaint: true, done: false });
    assert_eq!(steps[1], ChangeStep { id: 11, progress: Progress::Animation(2), repaint: false, done: true });
    assert_eq!(steps[2], ChangeStep { id: 12, progress: Progress::Complete, repaint: false, done: true });
    assert_eq!(steps[3], ChangeStep { id: 13, progress: Progress::Complete, repaint: true, done: true });
    assert_eq!(done, vec![11, 12, 13]);
}

#[test]
fn attribute_change_goes_from_current_value() {
    let mut counter = IdCounter::new();
    counter.fetch_add();
    let mut ints: FlatStorage<i64> = FlatStorage::new();
    let a = Attribute::new(3i64, &mut counter, &mut ints);
    let c = a.to(9, &ints);
    assert_eq!((c.from, c.to, c.target.id), (3, 9, 1));
    let mut bytes: FlatStorage<u8> = FlatStorage::new();
    let s = SyncValue::new(1u8, &mut counter, &mut bytes);
    let c = s.to(2, &bytes);
    assert_eq!((c.from, c.to, c.target.id), (1, 2, 2));
}

#[test]
fn noop_change_has_no_animation_and_default_update_is_empty() {
    let a: Option<layers::engine::AnimationRef> = Option::from(NoopChange::new(5));
    assert!(a.is_none());
    let u = RenderLayerUpdate::default();
    assert!(!u.any());
}
