use hook_runtime::remap::transplant;
use hook_runtime::{use_reducer, use_ref, use_state, HookState};
use std::collections::HashMap;

type Hooks = HookState<i32, u8, u8>;

fn end_render(hooks: &mut Hooks, id: u32) {
    assert!(hooks.run_effects_of(id).is_empty());
    hooks.after_run(id);
}

fn mounted(hooks: &mut Hooks, id: u32, value: i32) {
    hooks.before_run(id);
    use_state(hooks, value);
    end_render(hooks, id);
}

#[test]
fn transplant_moves_the_bucket_and_the_dispatcher_follows() {
    let mut hooks = Hooks::init();
    hooks.before_run(5);
    let (_, dispatch) = use_reducer(&mut hooks, |sum: i32, step: i32| sum + step, 40);
    let handle = use_ref(&mut hooks, 0);
    end_render(&mut hooks, 5);
    hooks.map_state(5, 7);
    hooks.commit_map_state();
    assert!(hooks.get_buckets().contains_key(&7));
    assert!(!hooks.get_buckets().contains_key(&5));
    assert_eq!(hooks.locate(5, dispatch.serial), Some(7));
    assert_eq!(hooks.locate(7, dispatch.serial), Some(7));
    assert!(hooks.has_slot(dispatch.id, dispatch.serial, dispatch.index));
    dispatch.dispatch(&mut hooks, 2);
    handle.set(&mut hooks, 9);
    assert_eq!(handle.get(&hooks), 9);
    assert_eq!(hooks.get_buckets()[&7].state_slots, vec![42, 9]);
    assert!(!hooks.get_buckets().contains_key(&5));
    hooks.before_run(7);
    let (value, _) = use_state(&mut hooks, 0);
    end_render(&mut hooks, 7);
    assert_eq!(value, 42);
}

#[test]
fn map_id_is_one_hop_from_the_new_identifier_to_the_old() {
    let mut hooks = Hooks::init();
    hooks.map_state(5, 7);
    hooks.map_state(7, 9);
    assert_eq!(hooks.map_id(9), 7);
    assert_eq!(hooks.map_id(7), 5);
    assert_eq!(hooks.map_id(5), 5);
    assert_eq!(hooks.map_id(4), 4);
    assert_eq!(hooks.map_id(9), 7);
}

#[test]
fn pending_transplant_does_not_redirect_handles() {
    let mut hooks = Hooks::init();
    hooks.before_run(7);
    use_state(&mut hooks, 70);
    end_render(&mut hooks, 7);
    hooks.before_run(5);
    let (_, setter) = use_state(&mut hooks, 50);
    let handle = use_ref(&mut hooks, 0);
    end_render(&mut hooks, 5);
    handle.set(&mut hooks, 3);
    hooks.map_state(5, 7);
    assert!(hooks.has_slot(setter.id, setter.serial, setter.index));
    setter.set(&mut hooks, 1);
    assert_eq!(handle.get(&hooks), 3);
    assert_eq!(hooks.get_buckets()[&5].state_slots, vec![1, 3]);
    assert_eq!(hooks.get_buckets()[&7].state_slots, vec![70]);
}

#[test]
fn pending_transplant_to_an_empty_identifier_leaves_the_ref_alone() {
    let mut hooks = Hooks::init();
    hooks.before_run(5);
    let handle = use_ref(&mut hooks, 0);
    end_render(&mut hooks, 5);
    handle.set(&mut hooks, 4);
    hooks.map_state(5, 7);
    assert!(hooks.has_slot(handle.id, handle.serial, handle.index));
    assert_eq!(handle.get(&hooks), 4);
}

#[test]
fn commit_empties_the_table_and_uses_each_pair_once() {
    let mut hooks = Hooks::init();
    mounted(&mut hooks, 5, 50);
    hooks.map_state(5, 7);
    assert_eq!(hooks.map_id(7), 5);
    hooks.commit_map_state();
    assert_eq!(hooks.map_id(7), 7);
    mounted(&mut hooks, 5, 51);
    hooks.commit_map_state();
    assert_eq!(hooks.get_buckets()[&5].state_slots, vec![51]);
    assert_eq!(hooks.get_buckets()[&7].state_slots, vec![50]);
}

#[test]
fn clearing_forgets_the_transplants_without_applying_them() {
    let mut hooks = Hooks::init();
    mounted(&mut hooks, 5, 1);
    hooks.map_state(5, 7);
    assert_eq!(hooks.map_id(7), 5);
    hooks.clear_map_state();
    assert_eq!(hooks.map_id(7), 7);
    hooks.commit_map_state();
    assert!(hooks.get_buckets().contains_key(&5));
    assert!(!hooks.get_buckets().contains_key(&7));
}

#[test]
fn two_transplants_swap_buckets_in_one_commit() {
    let mut hooks = Hooks::init();
    mounted(&mut hooks, 5, 50);
    mounted(&mut hooks, 7, 70);
    hooks.map_state(5, 7);
    hooks.map_state(7, 5);
    hooks.commit_map_state();
    assert_eq!(hooks.get_buckets()[&5].state_slots, vec![70]);
    assert_eq!(hooks.get_buckets()[&7].state_slots, vec![50]);
}

#[test]
fn a_chain_of_transplants_moves_each_bucket_one_step() {
    let mut hooks = Hooks::init();
    mounted(&mut hooks, 5, 50);
    mounted(&mut hooks, 7, 70);
    hooks.map_state(5, 7);
    hooks.map_state(7, 9);
    hooks.commit_map_state();
    assert_eq!(hooks.get_buckets().len(), 2);
    assert_eq!(hooks.get_buckets()[&7].state_slots, vec![50]);
    assert_eq!(hooks.get_buckets()[&9].state_slots, vec![70]);
}

#[test]
fn transplant_replaces_the_bucket_at_the_new_identifier() {
    let mut hooks = Hooks::init();
    mounted(&mut hooks, 1, 10);
    mounted(&mut hooks, 2, 20);
    mounted(&mut hooks, 3, 30);
    hooks.map_state(1, 2);
    hooks.commit_map_state();
    assert_eq!(hooks.get_buckets().len(), 2);
    assert_eq!(hooks.get_buckets()[&2].state_slots, vec![10]);
    assert_eq!(hooks.get_buckets()[&3].state_slots, vec![30]);
}

#[test]
fn transplant_from_an_identifier_without_bucket_does_nothing() {
    let mut hooks = Hooks::init();
    mounted(&mut hooks, 2, 20);
    hooks.map_state(1, 2);
    hooks.commit_map_state();
    assert_eq!(hooks.get_buckets().len(), 1);
    assert_eq!(hooks.get_buckets()[&2].state_slots, vec![20]);
}

#[test]
fn later_registration_for_a_new_identifier_replaces_the_earlier() {
    let mut hooks = Hooks::init();
    mounted(&mut hooks, 1, 10);
    mounted(&mut hooks, 5, 50);
    hooks.map_state(5, 7);
    hooks.map_state(1, 7);
    assert_eq!(hooks.map_id(7), 1);
    hooks.commit_map_state();
    assert_eq!(hooks.get_buckets()[&7].state_slots, vec![10]);
    assert_eq!(hooks.get_buckets()[&5].state_slots, vec![50]);
    assert!(!hooks.get_buckets().contains_key(&1));
}

#[test]
fn one_of_two_claims_on_an_old_identifier_receives_the_bucket() {
    let mut hooks = Hooks::init();
    mounted(&mut hooks, 5, 50);
    hooks.map_state(5, 7);
    hooks.map_state(5, 9);
    hooks.commit_map_state();
    assert_eq!(hooks.get_buckets().len(), 1);
    let to = hooks.locate(5, 0).unwrap();
    assert!(to == 7 || to == 9);
    assert_eq!(hooks.get_buckets()[&to].state_slots, vec![50]);
}

#[test]
fn transplant_on_a_plain_registry() {
    let mut buckets: HashMap<u32, &str> = HashMap::new();
    buckets.insert(1, "one");
    buckets.insert(2, "two");
    buckets.insert(3, "three");
    let mut table: HashMap<u32, u32> = HashMap::new();
    // 1 goes to 4; 2 goes to 1; 9 has no bucket; 3 stays.
    table.insert(4, 1);
    table.insert(1, 2);
    table.insert(5, 9);
    let moved = transplant(&mut buckets, &table);
    let mut found: Vec<(u32, &str)> = buckets.into_iter().collect();
    found.sort();
    assert_eq!(found, vec![(1, "two"), (3, "three"), (4, "one")]);
    let mut moved: Vec<(u32, u32)> = moved.into_iter().collect();
    moved.sort();
    assert_eq!(moved, vec![(1, 4), (2, 1)]);
}

#[test]
fn handles_follow_their_buckets_through_a_swap() {
    let mut hooks = Hooks::init();
    hooks.before_run(1);
    let (_, of_one) = use_reducer(&mut hooks, |sum: i32, step: i32| sum + step, 10);
    end_render(&mut hooks, 1);
    hooks.before_run(2);
    let (_, of_two) = use_state(&mut hooks, 20);
    let ref_of_two = use_ref(&mut hooks, 0);
    end_render(&mut hooks, 2);
    hooks.map_state(1, 2);
    hooks.map_state(2, 1);
    hooks.commit_map_state();
    assert_eq!(hooks.locate(1, of_one.serial), Some(2));
    assert_eq!(hooks.locate(2, of_two.serial), Some(1));
    of_one.dispatch(&mut hooks, 5);
    assert_eq!(hooks.get_buckets()[&2].state_slots, vec![15]);
    assert_eq!(hooks.get_buckets()[&1].state_slots, vec![20, 0]);
    of_two.set(&mut hooks, 21);
    ref_of_two.set(&mut hooks, 7);
    assert_eq!(ref_of_two.get(&hooks), 7);
    assert_eq!(hooks.get_buckets()[&1].state_slots, vec![21, 7]);
    assert_eq!(hooks.get_buckets()[&2].state_slots, vec![15]);
    // Handles made after the commit work on the bucket under their identifier.
    hooks.before_run(1);
    let (seen, fresh) = use_state(&mut hooks, 0);
    end_render(&mut hooks, 1);
    assert_eq!(seen, 21);
    assert_eq!(fresh.serial, of_two.serial);
    fresh.set(&mut hooks, 22);
    assert_eq!(hooks.get_buckets()[&1].state_slots, vec![22, 7]);
}

#[test]
fn handles_follow_their_buckets_through_a_chain() {
    let mut hooks = Hooks::init();
    hooks.before_run(5);
    let (_, of_five) = use_state(&mut hooks, 50);
    end_render(&mut hooks, 5);
    hooks.before_run(7);
    let (_, of_seven) = use_state(&mut hooks, 70);
    end_render(&mut hooks, 7);
    hooks.map_state(5, 7);
    hooks.map_state(7, 9);
    hooks.commit_map_state();
    assert_eq!(hooks.locate(5, of_five.serial), Some(7));
    assert_eq!(hooks.locate(7, of_seven.serial), Some(9));
    of_five.set(&mut hooks, 51);
    of_seven.set(&mut hooks, 71);
    assert_eq!(hooks.get_buckets()[&7].state_slots, vec![51]);
    assert_eq!(hooks.get_buckets()[&9].state_slots, vec![71]);
}

#[test]
fn a_handle_of_a_replaced_bucket_finds_nothing() {
    let mut hooks = Hooks::init();
    hooks.before_run(1);
    use_state(&mut hooks, 10);
    end_render(&mut hooks, 1);
    hooks.before_run(2);
    let handle = use_ref(&mut hooks, 4);
    end_render(&mut hooks, 2);
    handle.set(&mut hooks, 20);
    hooks.map_state(1, 2);
    hooks.commit_map_state();
    assert_eq!(hooks.locate(2, handle.serial), None);
    assert!(!hooks.has_slot(handle.id, handle.serial, handle.index));
    assert_eq!(handle.get(&hooks), 4);
    assert_eq!(hooks.get_buckets()[&2].state_slots, vec![10]);
}

#[test]
fn a_stale_record_does_not_lead_an_unmounted_handle_to_another_bucket() {
    let mut hooks = Hooks::init();
    mounted(&mut hooks, 5, 3);
    hooks.map_state(5, 7);
    hooks.commit_map_state();
    hooks.before_run(5);
    let handle = use_ref(&mut hooks, 0);
    let (_, dispatch) = use_reducer(&mut hooks, |sum: i32, step: i32| sum + step, 0);
    handle.set(&mut hooks, 2);
    assert_eq!(handle.get(&hooks), 2);
    end_render(&mut hooks, 5);
    assert!(hooks.reset(5).is_empty());
    hooks.finish_reset(5);
    assert_eq!(handle.get(&hooks), 0);
    assert!(!hooks.has_slot(handle.id, handle.serial, handle.index));
    assert!(!hooks.has_slot(dispatch.id, dispatch.serial, dispatch.index));
    assert_eq!(hooks.get_buckets()[&7].state_slots, vec![3]);
}

#[test]
fn a_remount_under_a_freed_identifier_is_another_bucket() {
    let mut hooks = Hooks::init();
    hooks.before_run(5);
    let old_handle = use_ref(&mut hooks, 1);
    let (_, old_setter) = use_state(&mut hooks, 0);
    end_render(&mut hooks, 5);
    old_handle.set(&mut hooks, 8);
    assert!(hooks.reset(5).is_empty());
    hooks.finish_reset(5);
    hooks.before_run(5);
    let new_handle = use_ref(&mut hooks, 100);
    end_render(&mut hooks, 5);
    assert_ne!(old_handle.serial, new_handle.serial);
    assert_eq!(old_handle.get(&hooks), 1);
    assert!(!hooks.has_slot(old_handle.id, old_handle.serial, old_handle.index));
    assert!(!hooks.has_slot(old_setter.id, old_setter.serial, old_setter.index));
    assert_eq!(new_handle.get(&hooks), 100);
    assert!(hooks.has_slot(new_handle.id, new_handle.serial, new_handle.index));
}
