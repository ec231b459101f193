use hook_runtime::{use_reducer, use_ref, use_state, HookState};

type Hooks = HookState<i32, u8, u8>;

fn end_render(hooks: &mut Hooks, id: u32) {
    assert!(hooks.run_effects_of(id).is_empty());
    assert!(!hooks.has_pending_effects(id));
    hooks.after_run(id);
}

fn unmount(hooks: &mut Hooks, id: u32) {
    assert!(hooks.reset(id).is_empty());
    hooks.finish_reset(id);
}

#[test]
fn three_renders_see_the_writes_of_the_renders_before() {
    let mut hooks = Hooks::init();
    let id = hooks.create_comp_id();
    assert_eq!(id, 1);
    let mut seen = Vec::new();
    for _ in 0..3 {
        hooks.before_run(id);
        let (count, set_count) = use_state(&mut hooks, 0);
        seen.push(count);
        set_count.set(&mut hooks, count + 1);
        // The render keeps the value it was given; the slot has the write.
        assert_eq!(hooks.get_buckets()[&id].state_slots[0], count + 1);
        end_render(&mut hooks, id);
    }
    assert_eq!(seen, vec![0, 1, 2]);
    assert_eq!(hooks.get_buckets()[&id].state_slots, vec![3]);
}

#[test]
fn first_render_write_is_in_the_slot_but_not_in_the_returned_value() {
    let mut hooks = Hooks::init();
    hooks.before_run(1);
    let (count, set_count) = use_state(&mut hooks, 0);
    set_count.set(&mut hooks, count + 1);
    end_render(&mut hooks, 1);
    assert_eq!(count, 0);
    assert_eq!(hooks.get_buckets()[&1].state_slots[0], 1);
}

#[test]
fn reducer_result_is_returned_by_the_next_render() {
    let mut hooks = Hooks::init();
    hooks.before_run(4);
    let (first, dispatch) = use_reducer(&mut hooks, |total: i32, step: i32| total * 10 + step, 1);
    assert_eq!(first, 1);
    dispatch.dispatch(&mut hooks, 2);
    dispatch.dispatch(&mut hooks, 3);
    end_render(&mut hooks, 4);
    hooks.before_run(4);
    let (second, _) = use_reducer(&mut hooks, |total: i32, step: i32| total * 10 + step, 1);
    end_render(&mut hooks, 4);
    assert_eq!(second, 123);
    hooks.before_run(4);
    let (third, _) = use_reducer(&mut hooks, |total: i32, step: i32| total * 10 + step, 1);
    end_render(&mut hooks, 4);
    assert_eq!(third, 123);
}

#[test]
fn slots_are_told_apart_by_call_order() {
    let mut hooks = Hooks::init();
    for round in 0..2 {
        hooks.before_run(9);
        let (a, set_a) = use_state(&mut hooks, 10);
        let (b, set_b) = use_state(&mut hooks, 20);
        assert_eq!((set_a.index, set_b.index), (0, 1));
        assert_eq!((set_a.id, set_b.id), (9, 9));
        assert_eq!((a, b), (10 + round, 20 + 2 * round));
        set_a.set(&mut hooks, a + 1);
        set_b.set(&mut hooks, b + 2);
        end_render(&mut hooks, 9);
    }
    assert_eq!(hooks.get_buckets()[&9].state_slots, vec![12, 24]);
    assert_eq!(hooks.get_buckets()[&9].next_state_slot_idx, 2);
}

#[test]
fn trailing_slots_stay_when_a_render_calls_fewer_hooks() {
    let mut hooks = Hooks::init();
    hooks.before_run(2);
    use_state(&mut hooks, 1);
    use_state(&mut hooks, 2);
    end_render(&mut hooks, 2);
    hooks.before_run(2);
    assert_eq!(hooks.get_buckets()[&2].next_state_slot_idx, 0);
    use_state(&mut hooks, 7);
    end_render(&mut hooks, 2);
    assert_eq!(hooks.get_buckets()[&2].state_slots, vec![1, 2]);
    assert_eq!(hooks.get_buckets()[&2].next_state_slot_idx, 1);
}

#[test]
fn ref_set_is_read_at_once_and_by_the_next_render() {
    let mut hooks = Hooks::init();
    hooks.before_run(1);
    let handle = use_ref(&mut hooks, 0);
    assert_eq!(handle.get(&hooks), 0);
    handle.set(&mut hooks, 2);
    assert_eq!(handle.get(&hooks), 2);
    end_render(&mut hooks, 1);
    hooks.before_run(1);
    let again = use_ref(&mut hooks, 0);
    assert_eq!(again.index, handle.index);
    assert_eq!(again.get(&hooks), 2);
    end_render(&mut hooks, 1);
}

#[test]
fn ref_reads_its_initial_value_when_the_bucket_is_gone() {
    let mut hooks = Hooks::init();
    hooks.before_run(1);
    let handle = use_ref(&mut hooks, 5);
    handle.set(&mut hooks, 6);
    end_render(&mut hooks, 1);
    assert!(hooks.has_slot(handle.id, handle.serial, handle.index));
    unmount(&mut hooks, 1);
    assert!(!hooks.has_slot(handle.id, handle.serial, handle.index));
    assert_eq!(handle.get(&hooks), 5);
}

#[test]
fn nested_renders_work_on_their_own_buckets() {
    let mut hooks = Hooks::init();
    hooks.before_run(1);
    let (_, outer) = use_state(&mut hooks, 100);
    hooks.before_run(2);
    let (_, inner) = use_state(&mut hooks, 200);
    assert_eq!(hooks.get_stack(), &vec![1, 2]);
    assert_eq!(hooks.last(), Some(&2));
    end_render(&mut hooks, 2);
    assert_eq!(hooks.last(), Some(&1));
    let (_, second) = use_state(&mut hooks, 300);
    end_render(&mut hooks, 1);
    assert_eq!((outer.id, outer.index), (1, 0));
    assert_eq!((inner.id, inner.index), (2, 0));
    assert_eq!((second.id, second.index), (1, 1));
    assert_eq!(hooks.get_buckets()[&1].state_slots, vec![100, 300]);
    assert_eq!(hooks.get_buckets()[&2].state_slots, vec![200]);
    assert_eq!(hooks.last(), None);
}

#[test]
fn many_writes_in_one_render_leave_the_last_for_the_next() {
    let mut hooks = Hooks::init();
    hooks.before_run(1);
    use_state(&mut hooks, 0);
    let (_, setter) = use_state(&mut hooks, 0);
    for value in [4, 8, 15, 16, 23, 42] {
        setter.set(&mut hooks, value);
    }
    end_render(&mut hooks, 1);
    hooks.before_run(1);
    use_state(&mut hooks, 99);
    let (seen, _) = use_state(&mut hooks, 99);
    end_render(&mut hooks, 1);
    assert_eq!(seen, 42);
}

#[test]
fn many_dispatches_chain_the_reducer() {
    let mut hooks = Hooks::init();
    hooks.before_run(1);
    let (_, handle) = use_reducer(&mut hooks, |total: i32, step: i32| total * 2 + step, 1);
    for step in [1, 0, 1, 1] {
        handle.dispatch(&mut hooks, step);
    }
    end_render(&mut hooks, 1);
    hooks.before_run(1);
    let (seen, _) = use_reducer(&mut hooks, |total: i32, step: i32| total * 2 + step, 7);
    end_render(&mut hooks, 1);
    assert_eq!(seen, 0b11011);
}
