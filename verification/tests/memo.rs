use std::cell::Cell;

use hook_runtime::{guards_changed, use_callback, use_memo, HookState};

type Hooks = HookState<(i32, i32), u8, u8>;

fn end_render(hooks: &mut Hooks, id: u32) {
    assert!(hooks.run_effects_of(id).is_empty());
    hooks.after_run(id);
}

#[test]
fn memo_computes_once_per_change_of_the_guard() {
    let calls = Cell::new(0);
    let mut hooks = Hooks::init();
    let mut results = Vec::new();
    for guard in [(1, 1), (1, 1), (1, 2), (1, 2), (1, 1)] {
        hooks.before_run(1);
        let value = use_memo(
            &mut hooks,
            || {
                calls.set(calls.get() + 1);
                (guard.0 + guard.1, calls.get())
            },
            guard,
        );
        end_render(&mut hooks, 1);
        results.push((value, calls.get()));
    }
    assert_eq!(
        results,
        vec![((2, 1), 1), ((2, 1), 1), ((3, 2), 2), ((3, 2), 2), ((2, 3), 3)]
    );
    let bucket = &hooks.get_buckets()[&1];
    assert_eq!(bucket.memoizations, vec![((2, 3), Some((1, 1)))]);
    assert_eq!(bucket.next_memoization_idx, 1);
}

#[test]
fn memo_slots_are_told_apart_by_call_order() {
    let mut hooks = Hooks::init();
    for round in 0..2 {
        hooks.before_run(1);
        let first = use_memo(&mut hooks, || (round, 1), (0, 0));
        let second = use_memo(&mut hooks, || (round, 2), (round, 0));
        end_render(&mut hooks, 1);
        assert_eq!(first, (0, 1));
        assert_eq!(second, (round, 2));
    }
}

#[test]
fn callback_accepts_a_new_value_only_when_the_guard_changes() {
    let mut hooks = Hooks::init();
    let offered = [((1, 0), (0, 0)), ((2, 0), (0, 0)), ((3, 0), (0, 1)), ((4, 0), (0, 1))];
    let mut accepted = Vec::new();
    for (value, guard) in offered {
        hooks.before_run(6);
        accepted.push(use_callback(&mut hooks, value, guard));
        end_render(&mut hooks, 6);
    }
    assert_eq!(accepted, vec![(1, 0), (1, 0), (3, 0), (3, 0)]);
}

#[test]
fn guards_changed_is_true_without_a_last_guard_or_on_a_difference() {
    assert!(guards_changed(&5, &None));
    assert!(!guards_changed(&5, &Some(5)));
    assert!(guards_changed(&5, &Some(6)));
    assert!(!guards_changed(&(), &Some(())));
    assert!(guards_changed(&(1, 2), &Some((2, 1))));
    assert!(!guards_changed(&"a".to_string(), &Some("a".to_string())));
}
