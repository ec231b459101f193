use std::cell::RefCell;
use std::rc::Rc;

use hook_runtime::{use_effect, EffectStep, HookState};

type Cleanup = Box<dyn Fn()>;
type Effect = Box<dyn Fn() -> Option<Cleanup>>;
type Hooks = HookState<i32, Effect, Cleanup>;
type Log = Rc<RefCell<Vec<String>>>;

fn logging_effect(log: &Log, name: &str) -> Effect {
    let log = Rc::clone(log);
    let name = name.to_string();
    Box::new(move || {
        log.borrow_mut().push(format!("run {}", name));
        let log = Rc::clone(&log);
        let name = name.clone();
        let cleanup: Cleanup = Box::new(move || log.borrow_mut().push(format!("clean {}", name)));
        Some(cleanup)
    })
}

fn run_steps(hooks: &mut Hooks, id: u32, steps: Vec<EffectStep<Effect, Cleanup>>) {
    for step in steps {
        match step {
            EffectStep::Cleanup { cleanup, .. } => cleanup(),
            EffectStep::Body { index, body } => {
                let left = body();
                assert!(hooks.has_effect_slot(id, index));
                hooks.store_cleanup(id, index, left);
            }
        }
    }
}

fn end_render(hooks: &mut Hooks, id: u32) -> Vec<(char, usize)> {
    let steps = hooks.run_effects_of(id);
    let handed = kinds(&steps);
    // The instance is still on the stack while its effects run.
    assert_eq!(hooks.last(), Some(&id));
    run_steps(hooks, id, steps);
    assert!(!hooks.has_pending_effects(id));
    hooks.after_run(id);
    handed
}

fn unmount(hooks: &mut Hooks, id: u32) -> Vec<(char, usize)> {
    let steps = hooks.reset(id);
    let handed = kinds(&steps);
    for step in steps {
        // The bucket is registered and the instance on the stack while the
        // cleanups run.
        assert!(hooks.get_buckets().contains_key(&id));
        assert_eq!(hooks.last(), Some(&id));
        match step {
            EffectStep::Cleanup { cleanup, .. } => cleanup(),
            EffectStep::Body { .. } => unreachable!(),
        }
    }
    hooks.finish_reset(id);
    assert!(!hooks.get_buckets().contains_key(&id));
    handed
}

fn kinds(steps: &[EffectStep<Effect, Cleanup>]) -> Vec<(char, usize)> {
    steps
        .iter()
        .map(|step| match step {
            EffectStep::Cleanup { index, .. } => ('c', *index),
            EffectStep::Body { index, .. } => ('b', *index),
        })
        .collect()
}

#[test]
fn effects_run_at_the_end_of_the_render_in_slot_order() {
    let log: Log = Rc::new(RefCell::new(Vec::new()));
    let mut hooks = Hooks::init();
    hooks.before_run(1);
    use_effect(&mut hooks, logging_effect(&log, "a"), 0);
    use_effect(&mut hooks, logging_effect(&log, "b"), 0);
    use_effect(&mut hooks, logging_effect(&log, "c"), 0);
    assert!(log.borrow().is_empty());
    assert!(hooks.has_pending_effects(1));
    assert_eq!(end_render(&mut hooks, 1), vec![('b', 0), ('b', 1), ('b', 2)]);
    assert!(hooks.get_stack().is_empty());
    assert_eq!(*log.borrow(), vec!["run a", "run b", "run c"]);
    let bucket = &hooks.get_buckets()[&1];
    assert!(bucket.effects.iter().all(|(pending, guard)| pending.is_none() && *guard == Some(0)));
    assert!(bucket.cleanups.iter().all(|cleanup| cleanup.is_some()));
}

#[test]
fn unmount_hands_out_cleanups_in_slot_order_and_drops_the_bucket() {
    let log: Log = Rc::new(RefCell::new(Vec::new()));
    let mut hooks = Hooks::init();
    hooks.before_run(1);
    use_effect(&mut hooks, logging_effect(&log, "0"), 0);
    use_effect(&mut hooks, logging_effect(&log, "1"), 0);
    use_effect(&mut hooks, logging_effect(&log, "2"), 0);
    end_render(&mut hooks, 1);
    log.borrow_mut().clear();
    assert_eq!(unmount(&mut hooks, 1), vec![('c', 0), ('c', 1), ('c', 2)]);
    assert!(!hooks.get_buckets().contains_key(&1));
    assert!(hooks.get_stack().is_empty());
    assert_eq!(*log.borrow(), vec!["clean 0", "clean 1", "clean 2"]);
}

#[test]
fn changed_guard_runs_the_old_cleanup_before_the_new_body() {
    let log: Log = Rc::new(RefCell::new(Vec::new()));
    let mut hooks = Hooks::init();
    for (round, guard) in [(0, 10), (1, 10), (2, 11)] {
        hooks.before_run(3);
        use_effect(&mut hooks, logging_effect(&log, &format!("first{}", round)), guard);
        use_effect(&mut hooks, logging_effect(&log, &format!("second{}", round)), 0);
        let expected = match round {
            0 => vec![('b', 0), ('b', 1)],
            1 => vec![],
            _ => vec![('c', 0), ('b', 0)],
        };
        assert_eq!(end_render(&mut hooks, 3), expected);
    }
    assert_eq!(
        *log.borrow(),
        vec!["run first0", "run second0", "clean first0", "run first2"]
    );
    assert_eq!(unmount(&mut hooks, 3), vec![('c', 0), ('c', 1)]);
    assert_eq!(log.borrow()[4..], ["clean first2", "clean second0"]);
}

#[test]
fn body_without_cleanup_leaves_the_slot_empty() {
    let mut hooks = Hooks::init();
    hooks.before_run(1);
    use_effect(&mut hooks, Box::new(|| None) as Effect, 1);
    end_render(&mut hooks, 1);
    assert!(hooks.get_buckets()[&1].cleanups[0].is_none());
    assert!(unmount(&mut hooks, 1).is_empty());
}

#[test]
fn child_effects_are_handed_out_before_the_parents() {
    let log: Log = Rc::new(RefCell::new(Vec::new()));
    let mut hooks = Hooks::init();
    hooks.before_run(1);
    use_effect(&mut hooks, logging_effect(&log, "parent"), 0);
    hooks.before_run(2);
    use_effect(&mut hooks, logging_effect(&log, "child"), 0);
    end_render(&mut hooks, 2);
    end_render(&mut hooks, 1);
    assert_eq!(*log.borrow(), vec!["run child", "run parent"]);
}

#[test]
fn unmount_of_an_unknown_instance_hands_out_nothing() {
    let mut hooks = Hooks::init();
    hooks.push(8);
    assert!(hooks.reset(77).is_empty());
    assert_eq!(hooks.get_stack(), &vec![8, 77]);
    assert!(hooks.get_buckets().contains_key(&77));
    hooks.finish_reset(77);
    assert_eq!(hooks.get_stack(), &vec![8]);
    assert!(hooks.get_buckets().is_empty());
}

#[test]
fn cleanups_are_handed_out_once() {
    let log: Log = Rc::new(RefCell::new(Vec::new()));
    let mut hooks = Hooks::init();
    hooks.before_run(1);
    use_effect(&mut hooks, logging_effect(&log, "a"), 0);
    end_render(&mut hooks, 1);
    let first = hooks.reset(1);
    assert_eq!(kinds(&first), vec![('c', 0)]);
    hooks.pop();
    let second = hooks.reset(1);
    assert!(second.is_empty());
    hooks.finish_reset(1);
}
