use layers::animations::{AnimationFlags, AnimationTick};
use layers::callbacks::{CallbackArg, CallbackSource};
use layers::engine::Engine;
use layers::flags::RenderableFlags;

fn engine_with_layer() -> (Engine, usize) {
    let mut e = Engine::new(7);
    let root = e.new_layer(0).unwrap();
    e.add_layer(root).unwrap();
    (e, root)
}

#[test]
fn scheduled_change_reads_back_by_value() {
    let (mut e, node) = engine_with_layer();
    let t = e.schedule_change(node, 42, None);
    assert_eq!(t.value_id, 42);
    assert_eq!(t.engine_id, 7);
    assert_eq!(e.pending_transactions_count(), 1);
    let rec = e.get_transaction_for_value(42).unwrap();
    assert_eq!(rec.node_id, node);
    assert_eq!(rec.value_id, 42);
    assert_eq!(rec.animation_id, None);
    assert_eq!(e.get_transaction(t), Some(rec));
}

#[test]
fn rescheduling_a_value_replaces_its_change() {
    let (mut e, node) = engine_with_layer();
    let t1 = e.schedule_change(node, 5, None);
    let anim = e.add_animation(true);
    let t2 = e.schedule_change(node, 5, Some(anim));
    assert_ne!(t1.id, t2.id);
    assert_eq!(e.pending_transactions_count(), 1);
    assert_eq!(e.get_transaction(t1), None);
    assert_eq!(e.get_transaction_for_value(5).unwrap().animation_id, Some(anim.id));
}

#[test]
fn changes_on_distinct_values_all_stay_pending() {
    let (mut e, node) = engine_with_layer();
    let own = e.add_animation(true);
    let refs = e.schedule_changes(&vec![(node, 1, None), (node, 2, Some(own)), (node, 3, None)], None);
    assert_eq!(refs.len(), 3);
    assert_eq!(refs[2].value_id, 3);
    assert_eq!(e.pending_transactions_count(), 3);
    assert_eq!(e.get_transaction(refs[0]).unwrap().animation_id, None);
    assert_eq!(e.get_transaction(refs[1]).unwrap().animation_id, Some(own.id));
    let shared = e.add_animation(true);
    let refs = e.schedule_changes(&vec![(node, 4, None), (node, 5, Some(own))], Some(shared));
    assert_eq!(e.get_transaction(refs[0]).unwrap().animation_id, Some(shared.id));
    assert_eq!(e.get_transaction(refs[1]).unwrap().animation_id, Some(shared.id));
}

#[test]
fn cancelled_change_is_gone() {
    let (mut e, node) = engine_with_layer();
    let t = e.schedule_change(node, 9, None);
    e.cancel_transaction(t);
    assert_eq!(e.get_transaction(t), None);
    assert_eq!(e.pending_transactions_count(), 0);
}

#[test]
fn change_without_animation_is_done_in_one_step() {
    let (mut e, node) = engine_with_layer();
    let t = e.schedule_change(node, 11, None);
    let steps = e.transaction_steps();
    assert_eq!(steps.len(), 1);
    assert!(!steps[0].animated);
    assert!(steps[0].state.is_finished);
    let (updated, finished) = e.execute_transactions(&vec![RenderableFlags::needs_paint()]);
    assert_eq!(updated, vec![node]);
    assert_eq!(finished, vec![t.id]);
    assert!(e.scene_get_node(node).unwrap().needs_repaint());
    e.cleanup_transactions(&finished);
    assert_eq!(e.pending_transactions_count(), 0);
    assert_eq!(e.get_transaction_for_value(11), None);
}

#[test]
fn animated_change_waits_for_its_animation() {
    let (mut e, node) = engine_with_layer();
    let anim = e.add_animation(false);
    assert_eq!(
        e.get_animation(anim),
        Some(AnimationFlags { is_started: false, is_running: false, is_finished: false })
    );
    e.start_animation(anim);
    let t = e.schedule_change(node, 3, Some(anim));
    let (started, done) = e.update_animations(&vec![AnimationTick { id: anim.id, start_reached: true, done: false }]);
    assert_eq!(started, vec![anim.id]);
    assert_eq!(done, Vec::<usize>::new());
    let (_, finished) = e.execute_transactions(&vec![RenderableFlags::empty()]);
    assert_eq!(finished, Vec::<usize>::new());
    let (_, done) = e.update_animations(&vec![AnimationTick { id: anim.id, start_reached: true, done: true }]);
    assert_eq!(done, vec![anim.id]);
    let (_, finished) = e.execute_transactions(&vec![RenderableFlags::empty()]);
    assert_eq!(finished, vec![t.id]);
    e.cleanup_animations(&done);
    assert_eq!(e.get_animation(anim), None);
}

#[test]
fn once_callback_fires_once_and_persistent_keeps_firing() {
    let (mut e, node) = engine_with_layer();
    let anim = e.add_animation(true);
    let t = e.schedule_change(node, 4, Some(anim));
    let once_id = e.on_update(t, true);
    let keep_id = e.on_update(t, false);
    let (started, _) = e.update_animations(&vec![AnimationTick { id: anim.id, start_reached: true, done: false }]);
    let calls = e.trigger_callbacks(&started);
    let ids: Vec<usize> = calls.iter().map(|c| c.invocation.id).collect();
    assert_eq!(ids, vec![once_id, keep_id]);
    assert_eq!(calls[0].node_id, node);
    assert_eq!(calls[0].invocation.source, CallbackSource::Transaction);
    assert_eq!(calls[0].invocation.arg, CallbackArg::Time);
    let calls = e.trigger_callbacks(&vec![]);
    let ids: Vec<usize> = calls.iter().map(|c| c.invocation.id).collect();
    assert_eq!(ids, vec![keep_id]);
}

#[test]
fn start_and_finish_callbacks_fire_at_their_moment() {
    let (mut e, node) = engine_with_layer();
    let anim = e.add_animation(true);
    let t = e.schedule_change(node, 8, Some(anim));
    let s = e.on_start(t, false);
    let f = e.on_finish(t, false);
    let v = e.on_finish_value(8, false);
    let (started, _) = e.update_animations(&vec![AnimationTick { id: anim.id, start_reached: true, done: false }]);
    let ids: Vec<usize> = e.trigger_callbacks(&started).iter().map(|c| c.invocation.id).collect();
    assert_eq!(ids, vec![s]);
    e.update_animations(&vec![AnimationTick { id: anim.id, start_reached: true, done: true }]);
    let calls = e.trigger_callbacks(&vec![]);
    let ids: Vec<usize> = calls.iter().map(|c| c.invocation.id).collect();
    assert_eq!(ids, vec![f, v]);
    assert_eq!(calls[0].invocation.arg, CallbackArg::Complete);
    assert_eq!(calls[1].invocation.source, CallbackSource::Value);
}

#[test]
fn callbacks_of_removed_nodes_do_not_fire() {
    let (mut e, root) = engine_with_layer();
    let child = e.new_layer(1).unwrap();
    e.add_layer(child).unwrap();
    let t = e.schedule_change(child, 2, None);
    e.on_finish(t, false);
    e.scene_remove_layer(child);
    assert_eq!(e.trigger_callbacks(&vec![]).len(), 0);
    assert!(e.is_layer_alive(root));
}

#[test]
fn callback_ids_count_up() {
    let (mut e, node) = engine_with_layer();
    let t = e.schedule_change(node, 1, None);
    let a = e.on_start(t, false);
    let b = e.callback_counter();
    assert_eq!(e.then(t), t);
    let c = e.on_update_value(1, true);
    assert_eq!(b, a + 1);
    assert_eq!(c, b + 1);
    e.clear_value_handlers(1);
    assert!(e.value_callbacks_of(1).is_none());
    assert_eq!(e.transaction_callbacks_of(t.id).unwrap().on_finish.len(), 1);
}

#[test]
fn attached_animation_drives_the_change() {
    let (mut e, node) = engine_with_layer();
    let other = e.schedule_change(node, 77, None);
    let t = e.schedule_change(node, 3, None);
    let a = e.add_animation(false);
    e.attach_animation(t, a);
    assert_eq!(e.get_transaction(t).unwrap().animation_id, Some(a.id));
    assert_eq!(e.get_transaction(other).unwrap().animation_id, None);
    e.cancel_transaction(t);
    e.attach_animation(t, a);
    assert_eq!(e.get_transaction(t), None);
}

#[test]
fn new_engine_has_nothing_scheduled() {
    let e = Engine::new(4);
    assert_eq!(e.id(), 4);
    assert_eq!(e.pending_transactions_count(), 0);
    assert_eq!(e.callback_counter(), 0);
    assert_eq!(e.scene_root(), None);
    assert_eq!(e.current_hover(), None);
    assert!(e.hit_test_node_list().is_empty());
    assert!(e.cached_nodes_post_order().is_empty());
}

#[test]
fn update_needed_only_when_something_moved() {
    let (mut e, _node) = engine_with_layer();
    assert!(e.update_needed(&vec![], &vec![], &vec![]));
    e.refresh_caches();
    assert!(!e.update_needed(&vec![], &vec![], &vec![]));
    assert!(e.update_needed(&vec![1], &vec![], &vec![]));
    assert!(e.update_needed(&vec![], &vec![2], &vec![]));
    assert!(e.update_needed(&vec![], &vec![], &vec![3]));
}

#[test]
fn an_update_settles_finished_changes_and_the_next_does_nothing() {
    let (mut e, node) = engine_with_layer();
    let anim = e.add_animation(true);
    e.schedule_change(node, 1, None);
    e.schedule_change(node, 2, Some(anim));
    let (started, done) = e.update_animations(&vec![AnimationTick { id: anim.id, start_reached: true, done: true }]);
    let flags = vec![RenderableFlags::needs_paint(), RenderableFlags::needs_paint()];
    let (updated, finished) = e.execute_transactions(&flags);
    assert_eq!(updated.len(), 2);
    assert_eq!(finished.len(), 2);
    e.refresh_caches();
    assert!(e.update_needed(&updated, &started, &done));
    e.cleanup_animations(&done);
    e.cleanup_transactions(&finished);
    assert_eq!(e.pending_transactions_count(), 0);
    let (started, done) = e.update_animations(&vec![]);
    let (updated, finished) = e.execute_transactions(&vec![]);
    assert!(updated.is_empty() && finished.is_empty());
    assert!(!e.update_needed(&updated, &started, &done));
}

#[test]
fn a_batch_keeps_the_last_change_of_each_value() {
    let (mut e, node) = engine_with_layer();
    let own = e.add_animation(true);
    let refs = e.schedule_changes(&vec![(node, 1, None), (node, 2, Some(own)), (node, 1, Some(own))], None);
    assert_eq!((refs[0].id, refs[1].id, refs[2].id), (0, 1, 2));
    assert_eq!(e.pending_transactions_count(), 2);
    assert_eq!(e.get_transaction(refs[0]), None);
    let last = e.get_transaction_for_value(1).unwrap();
    assert_eq!(last.animation_id, Some(own.id));
    assert_eq!(e.get_transaction(refs[2]), Some(last));
    assert_eq!(e.get_transaction(refs[1]).unwrap().value_id, 2);
}
