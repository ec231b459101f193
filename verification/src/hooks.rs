//! The hooks: what a component calls between the begin and the end of a
//! render, and the handles that it keeps for later.

use vstd::prelude::*;
use vstd::std_specs::cmp::PartialEqSpec;

use crate::bucket::BucketView;
use crate::guard::{spec_guards_changed, Guard, StaticClone};
use crate::hook_context::{lemma_with_bucket_wf, HookState, HookStateView};

verus! {

/// A handle on one state slot that reads and writes it directly. Like every
/// handle it keeps the identifier that it was made under, the serial number
/// of its bucket and the slot's index, and it works on that bucket or on
/// none.
#[derive(Clone, Debug)]
pub struct HookRef<T: StaticClone> {
    pub initial_value: T,
    pub id: u32,
    pub serial: u64,
    pub index: usize,
}

/// A handle on one state slot that updates it through a reducer.
#[derive(Clone)]
pub struct Dispatch<R> {
    pub id: u32,
    pub serial: u64,
    pub index: usize,
    pub reducer: R,
}

/// A handle on one state slot that replaces its value.
#[derive(Clone, Copy, Debug)]
pub struct Setter {
    pub id: u32,
    pub serial: u64,
    pub index: usize,
}

impl<V, E, C> HookStateView<V, E, C> {
    /// A hook can be called: the runtime is well formed, an instance is
    /// rendering, and a bucket can stand under it.
    pub open spec fn in_render(self) -> bool {
        &&& self.wf()
        &&& self.stack.len() > 0
        &&& self.can_mount(self.top())
    }

    /// The bucket that the hooks of the running render work on.
    pub open spec fn current(self) -> BucketView<V, E, C>
        recommends
            self.stack.len() > 0,
    {
        self.bucket_or_empty(self.top())
    }

    /// The runtime with `bucket` as the bucket of the running render.
    pub open spec fn with_current(self, bucket: BucketView<V, E, C>) -> Self
        recommends
            self.stack.len() > 0,
    {
        self.with_bucket(self.top(), bucket)
    }

    /// The runtime after one state hook of the running render.
    pub open spec fn state_hooked(self, initial: V) -> Self {
        self.with_current(self.current().state_reserved(initial))
    }

    /// The runtime after one effect hook of the running render.
    pub open spec fn effect_hooked(self, body: E, guards: V, changed: bool) -> Self {
        self.with_current(self.current().effect_offered(body, guards, changed))
    }
}

/// The memo hook kept the value of the slot at the cursor.
pub open spec fn memo_kept<V, E, C>(
    before: HookStateView<V, E, C>,
    after: HookStateView<V, E, C>,
) -> bool {
    after == before.with_current(before.current().memo_kept())
}

/// The value in the memo slot that the hook worked on, after the hook.
pub open spec fn memo_value<V, E, C>(
    before: HookStateView<V, E, C>,
    after: HookStateView<V, E, C>,
) -> V {
    after.current().memoizations[before.current().next_memoization_idx].0
}

/// The memo hook stored a new value for `guards` in the slot at the cursor.
pub open spec fn memo_stored<V, E, C>(
    before: HookStateView<V, E, C>,
    after: HookStateView<V, E, C>,
    guards: V,
) -> bool {
    after == before.with_current(
        before.current().memo_stored(memo_value(before, after), guards),
    )
}

/// One dispatch through a handle made under `id` for state slot `index`: the
/// slot's new value is a result of `reducer` on the old value and `update`,
/// and nothing else has changed.
pub open spec fn dispatched<V, E, C, A, R: Fn(V, A) -> V>(
    before: HookStateView<V, E, C>,
    after: HookStateView<V, E, C>,
    reducer: R,
    id: u32,
    serial: u64,
    index: int,
    update: A,
) -> bool {
    &&& call_ensures(
        reducer,
        (before.slot_value(id, serial, index), update),
        after.slot_value(id, serial, index),
    )
    &&& after == before.slot_written(id, serial, index, after.slot_value(id, serial, index))
}

/// One state hook with a reducer. The slot at the cursor of the running
/// render is created with `initial_value` if it is new. Returns a clone of
/// the slot's value and a handle that applies `reducer` to the slot later.
pub fn use_reducer<V: StaticClone, A, R: Fn(V, A) -> V, E, C>(
    hooks: &mut HookState<V, E, C>,
    reducer: R,
    initial_value: V,
) -> (out: (V, Dispatch<R>))
    requires
        old(hooks)@.in_render(),
    ensures
        final(hooks)@ == old(hooks)@.state_hooked(initial_value),
        final(hooks)@.wf(),
        out.1.id == old(hooks)@.top(),
        out.1.serial == old(hooks)@.current().serial,
        out.1.index == old(hooks)@.current().next_state_slot_idx,
        out.1.reducer == reducer,
        final(hooks)@.slot_reached(out.1.id, out.1.index as int),
        final(hooks)@.slot_live(out.1.id, out.1.serial, out.1.index as int),
        cloned(final(hooks)@.current().state_slots[out.1.index as int], out.0),
{
    proof {
        lemma_with_bucket_wf(
            hooks@,
            hooks@.top(),
            hooks@.current().state_reserved(initial_value),
        );
    }
    let id = *hooks.last().unwrap();
    let bucket = hooks.get_current_bucket().unwrap();
    let serial = bucket.serial;
    let index = bucket.reserve_state(initial_value);
    let value = bucket.state_slots[index].clone();
    (value, Dispatch { id, serial, index, reducer })
}

impl<R> Dispatch<R> {
    /// Applies the reducer to the slot's value and `update`, and writes the
    /// result into the slot. The handle must find its own bucket: under the
    /// identifier that it was made under, or where the last commit moved that
    /// bucket. A handle whose bucket is gone cannot be used.
    pub fn dispatch<V, A, E, C>(&self, hooks: &mut HookState<V, E, C>, update: A) where
        R: Fn(V, A) -> V,

        requires
            old(hooks)@.wf(),
            old(hooks)@.slot_live(self.id, self.serial, self.index as int),
            call_requires(
                self.reducer,
                (old(hooks)@.slot_value(self.id, self.serial, self.index as int), update),
            ),
        ensures
            dispatched(
                old(hooks)@,
                final(hooks)@,
                self.reducer,
                self.id,
                self.serial,
                self.index as int,
                update,
            ),
            final(hooks)@.slot_live(self.id, self.serial, self.index as int),
            final(hooks)@.wf(),
    {
        let found = hooks.locate(self.id, self.serial).unwrap();
        let bucket = hooks.get_bucket(&found).unwrap();
        let ghost slots = bucket.state_slots@;
        let current = bucket.state_slots.remove(self.index);
        let next = (self.reducer)(current, update);
        bucket.state_slots.insert(self.index, next);
        proof {
            assert(bucket.state_slots@ =~= slots.update(self.index as int, next));
        }
        proof {
            lemma_with_bucket_wf(old(hooks)@, found, hooks@.buckets[found]);
        }
    }
}

impl Setter {
    /// Writes `value` into the slot: a dispatch with the reducer that keeps
    /// the update and drops the old value.
    pub fn set<V, E, C>(&self, hooks: &mut HookState<V, E, C>, value: V)
        requires
            old(hooks)@.wf(),
            old(hooks)@.slot_live(self.id, self.serial, self.index as int),
        ensures
            final(hooks)@ == old(hooks)@.slot_written(self.id, self.serial, self.index as int, value),
            final(hooks)@.wf(),
    {
        let keep_update = |_current: V, update: V| -> (kept: V)
            ensures
                kept == update,
            { update };
        let handle = Dispatch {
            id: self.id,
            serial: self.serial,
            index: self.index,
            reducer: keep_update,
        };
        handle.dispatch(hooks, value);
    }
}

/// One state hook. The slot at the cursor of the running render is created
/// with `initial_state` if it is new. Returns a clone of the slot's value and
/// a handle that replaces the value later.
pub fn use_state<V: StaticClone, E, C>(hooks: &mut HookState<V, E, C>, initial_state: V) -> (out: (
    V,
    Setter,
))
    requires
        old(hooks)@.in_render(),
    ensures
        final(hooks)@ == old(hooks)@.state_hooked(initial_state),
        final(hooks)@.wf(),
        out.1.id == old(hooks)@.top(),
        out.1.serial == old(hooks)@.current().serial,
        out.1.index == old(hooks)@.current().next_state_slot_idx,
        final(hooks)@.slot_reached(out.1.id, out.1.index as int),
        final(hooks)@.slot_live(out.1.id, out.1.serial, out.1.index as int),
        cloned(final(hooks)@.current().state_slots[out.1.index as int], out.0),
{
    let keep_update = |_current: V, update: V| -> (kept: V)
        ensures
            kept == update,
        { update };
    let (value, handle) = use_reducer(hooks, keep_update, initial_state);
    (value, Setter { id: handle.id, serial: handle.serial, index: handle.index })
}

impl<T: StaticClone> HookRef<T> {
    /// A clone of the slot's value, or of the initial value where the handle
    /// no longer finds its slot.
    pub fn get<E, C>(&self, hooks: &HookState<T, E, C>) -> (value: T)
        ensures
            hooks@.slot_live(self.id, self.serial, self.index as int) ==> cloned(
                hooks@.slot_value(self.id, self.serial, self.index as int),
                value,
            ),
            !hooks@.slot_live(self.id, self.serial, self.index as int) ==> cloned(self.initial_value, value),
    {
        match hooks.state_slot(self.id, self.serial, self.index) {
            Some(slot) => slot.clone(),
            None => self.initial_value.clone(),
        }
    }

    /// Writes `value` into the slot, past any reducer.
    pub fn set<E, C>(&self, hooks: &mut HookState<T, E, C>, value: T)
        requires
            old(hooks)@.wf(),
            old(hooks)@.slot_live(self.id, self.serial, self.index as int),
        ensures
            final(hooks)@ == old(hooks)@.slot_written(self.id, self.serial, self.index as int, value),
            final(hooks)@.wf(),
    {
        let found = hooks.locate(self.id, self.serial).unwrap();
        let bucket = hooks.get_bucket(&found).unwrap();
        bucket.state_slots[self.index] = value;
        proof {
            lemma_with_bucket_wf(old(hooks)@, found, hooks@.buckets[found]);
        }
    }
}

/// One state hook that returns a handle for direct reads and writes. The
/// slot at the cursor of the running render is created with `initial_state`
/// if it is new; the handle keeps a clone of `initial_state`.
pub fn use_ref<V: StaticClone, E, C>(hooks: &mut HookState<V, E, C>, initial_state: V) -> (handle:
    HookRef<V>)
    requires
        old(hooks)@.in_render(),
    ensures
        final(hooks)@ == old(hooks)@.state_hooked(initial_state),
        final(hooks)@.wf(),
        handle.id == old(hooks)@.top(),
        handle.serial == old(hooks)@.current().serial,
        handle.index == old(hooks)@.current().next_state_slot_idx,
        final(hooks)@.slot_reached(handle.id, handle.index as int),
        final(hooks)@.slot_live(handle.id, handle.serial, handle.index as int),
        cloned(initial_state, handle.initial_value),
{
    let initial_value = initial_state.clone();
    let (_value, setter) = use_state(hooks, initial_state);
    HookRef { initial_value, id: setter.id, serial: setter.serial, index: setter.index }
}

/// One effect hook. The effect slot at the cursor of the running render is
/// created if it is new. Where `guards` differs from the snapshot that the
/// slot saw last, `func` becomes the slot's pending body and `guards` its
/// snapshot; else the slot stays as it is and `func` is dropped. Nothing runs
/// before the render ends.
pub fn use_effect<V: Guard, E, C>(hooks: &mut HookState<V, E, C>, func: E, guards: V)
    requires
        old(hooks)@.in_render(),
    ensures
        final(hooks)@ == old(hooks)@.effect_hooked(func, guards, true) || final(hooks)@ == old(
            hooks,
        )@.effect_hooked(func, guards, false),
        old(hooks)@.current().last_effect_guard() is None ==> final(hooks)@ == old(
            hooks,
        )@.effect_hooked(func, guards, true),
        V::obeys_eq_spec() ==> final(hooks)@ == old(hooks)@.effect_hooked(
            func,
            guards,
            spec_guards_changed(guards, old(hooks)@.current().last_effect_guard()),
        ),
        final(hooks)@.wf(),
{
    let bucket = hooks.get_current_bucket().unwrap();
    bucket.offer_effect(func, guards);
    proof {
        lemma_with_bucket_wf(old(hooks)@, old(hooks)@.top(), hooks@.current());
    }
}

/// One memo hook. Where the slot at the cursor of the running render is new,
/// or `guards` differs from the snapshot that its value was computed for,
/// `func` runs and its result is stored with `guards`; else `func` does not
/// run, and need not even be callable. `func` is taken as an `FnOnce`, so it
/// cannot run twice. Returns a clone of the stored value.
pub fn use_memo<V: Guard, F: FnOnce() -> V, E, C>(hooks: &mut HookState<V, E, C>, func: F, guards: V) -> (value:
    V)
    requires
        old(hooks)@.in_render(),
        (V::obeys_eq_spec() && !spec_guards_changed(
            guards,
            old(hooks)@.current().last_memo_guard(),
        )) || call_requires(func, ()),
    ensures
        memo_kept(old(hooks)@, final(hooks)@) || (memo_stored(old(hooks)@, final(hooks)@, guards)
            && call_ensures(func, (), memo_value(old(hooks)@, final(hooks)@))),
        old(hooks)@.current().last_memo_guard() is None ==> memo_stored(
            old(hooks)@,
            final(hooks)@,
            guards,
        ) && call_ensures(func, (), memo_value(old(hooks)@, final(hooks)@)),
        V::obeys_eq_spec() ==> if spec_guards_changed(
            guards,
            old(hooks)@.current().last_memo_guard(),
        ) {
            memo_stored(old(hooks)@, final(hooks)@, guards) && call_ensures(
                func,
                (),
                memo_value(old(hooks)@, final(hooks)@),
            )
        } else {
            memo_kept(old(hooks)@, final(hooks)@)
        },
        cloned(memo_value(old(hooks)@, final(hooks)@), value),
        final(hooks)@.wf(),
{
    let bucket = hooks.get_current_bucket().unwrap();
    let index = bucket.next_memoization_idx;
    bucket.remember(func, guards);
    let value = bucket.memoizations[index].0.clone();
    proof {
        lemma_with_bucket_wf(old(hooks)@, old(hooks)@.top(), hooks@.current());
    }
    value
}

/// One callback hook: a memo hook whose value is given, not computed. A new
/// `func` is accepted only where `guards` changed; else the value that was
/// accepted before is returned.
pub fn use_callback<V: Guard, E, C>(hooks: &mut HookState<V, E, C>, func: V, guards: V) -> (value:
    V)
    requires
        old(hooks)@.in_render(),
    ensures
        memo_kept(old(hooks)@, final(hooks)@) || (memo_stored(old(hooks)@, final(hooks)@, guards)
            && cloned(func, memo_value(old(hooks)@, final(hooks)@))),
        old(hooks)@.current().last_memo_guard() is None ==> memo_stored(
            old(hooks)@,
            final(hooks)@,
            guards,
        ) && cloned(func, memo_value(old(hooks)@, final(hooks)@)),
        V::obeys_eq_spec() ==> if spec_guards_changed(
            guards,
            old(hooks)@.current().last_memo_guard(),
        ) {
            memo_stored(old(hooks)@, final(hooks)@, guards) && cloned(
                func,
                memo_value(old(hooks)@, final(hooks)@),
            )
        } else {
            memo_kept(old(hooks)@, final(hooks)@)
        },
        cloned(memo_value(old(hooks)@, final(hooks)@), value),
        final(hooks)@.wf(),
{
    let offered = &func;
    let accept = || -> (accepted: V)
        ensures
            cloned(*offered, accepted),
        { offered.clone() };
    use_memo(hooks, accept, guards)
}

} // verus!
