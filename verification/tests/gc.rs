use slime_gc::GarbageCollector;

fn refs_sorted(gc: &GarbageCollector, obj: u64) -> Option<Vec<u64>> {
    let mut r = gc.get_references(obj)?;
    r.sort();
    Some(r)
}

#[test]
fn rooted_chain_survives_collect() {
    let mut gc = GarbageCollector::new();
    gc.register_object(1);
    gc.register_object(2);
    gc.register_object(3);
    gc.add_reference(1, 2);
    gc.add_reference(2, 3);
    gc.mark_root(1);
    assert_eq!(gc.collect_garbage(), 0);
    assert!(gc.get_references(1).is_some());
    assert!(gc.get_references(2).is_some());
    assert!(gc.get_references(3).is_some());
    assert_eq!(refs_sorted(&gc, 1), Some(vec![2]));
    assert_eq!(refs_sorted(&gc, 2), Some(vec![3]));
}

#[test]
fn unrooted_chain_is_collected_whole() {
    let mut gc = GarbageCollector::new();
    gc.register_object(1);
    gc.register_object(2);
    gc.register_object(3);
    gc.add_reference(1, 2);
    gc.add_reference(2, 3);
    gc.mark_root(1);
    gc.unmark_root(1);
    assert_eq!(gc.collect_garbage(), 3);
    assert!(gc.get_references(1).is_none());
    assert!(gc.get_references(2).is_none());
    assert!(gc.get_references(3).is_none());
    assert_eq!(gc.get_root_count(), 0);
}

#[test]
fn unrooted_cycle_is_collected() {
    let mut gc = GarbageCollector::new();
    gc.register_object(1);
    gc.register_object(2);
    gc.add_reference(1, 2);
    gc.add_reference(2, 1);
    assert_eq!(gc.collect_garbage(), 2);
    assert!(gc.get_references(1).is_none());
    assert!(gc.get_references(2).is_none());
}

#[test]
fn rooted_cycle_survives() {
    let mut gc = GarbageCollector::new();
    gc.register_object(1);
    gc.register_object(2);
    gc.add_reference(1, 2);
    gc.add_reference(2, 1);
    gc.mark_root(1);
    assert_eq!(gc.collect_garbage(), 0);
    assert_eq!(refs_sorted(&gc, 1), Some(vec![2]));
    assert_eq!(refs_sorted(&gc, 2), Some(vec![1]));
}

#[test]
fn dangling_target_is_ignored_by_collect() {
    let mut gc = GarbageCollector::new();
    gc.register_object(1);
    gc.mark_root(1);
    gc.add_reference(1, 99);
    assert_eq!(gc.collect_garbage(), 0);
    assert_eq!(refs_sorted(&gc, 1), Some(vec![99]));
    assert!(gc.get_references(99).is_none());
}

#[test]
fn dangling_edge_does_not_retain_its_source() {
    let mut gc = GarbageCollector::new();
    gc.register_object(1);
    gc.add_reference(1, 99);
    assert_eq!(gc.collect_garbage(), 1);
    assert!(gc.get_references(1).is_none());
}

#[test]
fn collect_on_empty_tracker_returns_zero() {
    let mut gc = GarbageCollector::new();
    assert_eq!(gc.collect_garbage(), 0);
}

#[test]
fn register_is_idempotent() {
    let mut gc = GarbageCollector::new();
    gc.register_object(1);
    gc.add_reference(1, 2);
    gc.register_object(1);
    assert_eq!(refs_sorted(&gc, 1), Some(vec![2]));
}

#[test]
fn duplicate_edge_is_idempotent() {
    let mut gc = GarbageCollector::new();
    gc.register_object(1);
    gc.add_reference(1, 2);
    gc.add_reference(1, 2);
    assert_eq!(refs_sorted(&gc, 1), Some(vec![2]));
}

#[test]
fn duplicate_root_is_idempotent() {
    let mut gc = GarbageCollector::new();
    gc.register_object(1);
    gc.mark_root(1);
    gc.mark_root(1);
    assert_eq!(gc.get_root_count(), 1);
}

#[test]
fn mark_root_on_unregistered_handle_is_a_noop() {
    let mut gc = GarbageCollector::new();
    gc.mark_root(7);
    assert_eq!(gc.get_root_count(), 0);
}

#[test]
fn add_reference_from_unregistered_source_is_a_noop() {
    let mut gc = GarbageCollector::new();
    gc.register_object(2);
    gc.add_reference(1, 2);
    gc.register_object(1);
    assert_eq!(refs_sorted(&gc, 1), Some(vec![]));
}

#[test]
fn null_handle_is_ignored_everywhere() {
    let mut gc = GarbageCollector::new();
    gc.register_object(0);
    assert!(gc.get_references(0).is_none());
    gc.register_object(1);
    gc.mark_root(0);
    assert_eq!(gc.get_root_count(), 0);
    gc.add_reference(1, 0);
    assert_eq!(refs_sorted(&gc, 1), Some(vec![]));
    gc.add_reference(0, 1);
    assert!(gc.get_references(0).is_none());
    gc.unregister_object(0);
    assert_eq!(refs_sorted(&gc, 1), Some(vec![]));
}

#[test]
fn unregister_purges_both_directions() {
    let mut gc = GarbageCollector::new();
    gc.register_object(1);
    gc.register_object(2);
    gc.add_reference(1, 2);
    gc.add_reference(2, 1);
    gc.mark_root(2);
    gc.unregister_object(2);
    assert!(gc.get_references(2).is_none());
    assert_eq!(refs_sorted(&gc, 1), Some(vec![]));
    assert_eq!(gc.get_root_count(), 0);
}

#[test]
fn unregister_of_unregistered_handle_is_a_noop() {
    let mut gc = GarbageCollector::new();
    gc.register_object(1);
    gc.add_reference(1, 7);
    gc.unregister_object(7);
    assert_eq!(refs_sorted(&gc, 1), Some(vec![7]));
}

#[test]
fn clear_references_drops_only_outgoing_edges() {
    let mut gc = GarbageCollector::new();
    gc.register_object(1);
    gc.register_object(2);
    gc.add_reference(1, 2);
    gc.add_reference(2, 1);
    gc.clear_references(1);
    assert_eq!(refs_sorted(&gc, 1), Some(vec![]));
    assert_eq!(refs_sorted(&gc, 2), Some(vec![1]));
}

#[test]
fn batch_references_follow_single_edge_rules() {
    let mut gc = GarbageCollector::new();
    gc.register_object(1);
    gc.add_references(1, &[2, 0, 3, 3, 99]);
    assert_eq!(refs_sorted(&gc, 1), Some(vec![2, 3, 99]));
    gc.remove_references(1, &[3, 5, 0]);
    assert_eq!(refs_sorted(&gc, 1), Some(vec![2, 99]));
    gc.add_references(8, &[1, 2]);
    assert!(gc.get_references(8).is_none());
}

#[test]
fn batch_roots_follow_single_root_rules() {
    let mut gc = GarbageCollector::new();
    gc.register_object(1);
    gc.register_object(2);
    gc.add_roots(&[1, 2, 7, 0, 1]);
    assert_eq!(gc.get_root_count(), 2);
    gc.remove_roots(&[2, 9]);
    assert_eq!(gc.get_root_count(), 1);
    gc.clear_roots();
    assert_eq!(gc.get_root_count(), 0);
    assert!(gc.get_references(1).is_some());
    assert!(gc.get_references(2).is_some());
}

#[test]
fn remove_reference_disconnects_reachability() {
    let mut gc = GarbageCollector::new();
    gc.register_object(1);
    gc.register_object(2);
    gc.add_reference(1, 2);
    gc.mark_root(1);
    gc.remove_reference(1, 2);
    assert_eq!(gc.collect_garbage(), 1);
    assert!(gc.get_references(1).is_some());
    assert!(gc.get_references(2).is_none());
}

#[test]
fn collect_removes_garbage_sources_pointing_at_survivors() {
    let mut gc = GarbageCollector::new();
    gc.register_object(1);
    gc.register_object(2);
    gc.add_reference(2, 1);
    gc.mark_root(1);
    assert_eq!(gc.collect_garbage(), 1);
    assert_eq!(refs_sorted(&gc, 1), Some(vec![]));
    assert!(gc.get_references(2).is_none());
    assert_eq!(gc.get_root_count(), 1);
}

#[test]
fn diamond_shape_is_fully_retained() {
    let mut gc = GarbageCollector::new();
    for h in 1u64..=4 {
        gc.register_object(h);
    }
    gc.add_reference(1, 2);
    gc.add_reference(1, 3);
    gc.add_reference(2, 4);
    gc.add_reference(3, 4);
    gc.mark_root(1);
    assert_eq!(gc.collect_garbage(), 0);
    assert_eq!(refs_sorted(&gc, 1), Some(vec![2, 3]));
    assert_eq!(refs_sorted(&gc, 4), Some(vec![]));
}

#[test]
fn collect_twice_is_stable() {
    let mut gc = GarbageCollector::new();
    gc.register_object(1);
    gc.register_object(2);
    gc.register_object(3);
    gc.add_reference(1, 2);
    gc.mark_root(1);
    assert_eq!(gc.collect_garbage(), 1);
    assert_eq!(gc.collect_garbage(), 0);
    assert!(gc.get_references(1).is_some());
    assert!(gc.get_references(2).is_some());
}

#[test]
fn batch_order_has_no_observable_effect() {
    let mut a = GarbageCollector::new();
    let mut b = GarbageCollector::new();
    for gc in [&mut a, &mut b] {
        gc.register_object(1);
        gc.register_object(2);
    }
    a.add_references(1, &[2, 7, 9]);
    b.add_references(1, &[9, 2, 7]);
    assert_eq!(refs_sorted(&a, 1), refs_sorted(&b, 1));
    a.add_roots(&[1, 2]);
    b.add_roots(&[2, 1]);
    assert_eq!(a.get_root_count(), b.get_root_count());
    a.remove_references(1, &[7, 2]);
    b.remove_references(1, &[2, 7]);
    assert_eq!(refs_sorted(&a, 1), Some(vec![9]));
    assert_eq!(refs_sorted(&b, 1), Some(vec![9]));
}

#[test]
fn long_chain_is_traversed_without_recursion() {
    let mut gc = GarbageCollector::new();
    let n: u64 = 2000;
    for h in 1..=n {
        gc.register_object(h);
    }
    for h in 1..n {
        gc.add_reference(h, h + 1);
    }
    gc.mark_root(1);
    assert_eq!(gc.collect_garbage(), 0);
    gc.unmark_root(1);
    assert_eq!(gc.collect_garbage(), n as usize);
}

#[test]
fn late_registration_of_a_dangling_target_is_harmless() {
    let mut gc = GarbageCollector::new();
    gc.register_object(1);
    gc.mark_root(1);
    gc.add_reference(1, 2);
    assert_eq!(gc.collect_garbage(), 0);
    gc.register_object(2);
    assert_eq!(gc.collect_garbage(), 0);
    assert!(gc.get_references(2).is_some());
}
