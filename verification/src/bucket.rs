//! The slots of one component instance: state cells, effects with their
//! cleanups, memoized values, and one cursor for each of the three.

use vstd::prelude::*;
use vstd::std_specs::cmp::PartialEqSpec;

use crate::guard::{guards_changed, spec_guards_changed, Guard};

verus! {

/// The retained slots of one instance.
///
/// `V` is the type of the values that slots hold (state, memoized values and
/// dependency snapshots), `E` stands for an effect body and `C` for a cleanup.
/// The runtime never runs an `E` or a `C`: it keeps them, orders them and
/// hands them out as [`EffectStep`]s.
pub struct Bucket<V, E, C> {
    /// The number under which the runtime made this bucket. No two buckets of
    /// one runtime have the same, so a handle can tell its own bucket from
    /// another that stands under the same identifier.
    pub serial: u64,
    pub next_state_slot_idx: usize,
    pub state_slots: Vec<V>,
    pub next_effect_idx: usize,
    pub effects: Vec<(Option<E>, Option<V>)>,
    pub cleanups: Vec<Option<C>>,
    pub next_memoization_idx: usize,
    pub memoizations: Vec<(V, Option<V>)>,
}

/// One thing for the caller to run, in the order in which the runtime hands
/// the steps out.
pub enum EffectStep<E, C> {
    /// Run the cleanup that the effect in slot `index` left behind.
    Cleanup { index: usize, cleanup: C },
    /// Run the body of the effect in slot `index`; what it returns goes back
    /// to the runtime as the slot's new cleanup.
    Body { index: usize, body: E },
}

/// The mathematical content of a [`Bucket`].
pub struct BucketView<V, E, C> {
    pub serial: u64,
    pub next_state_slot_idx: int,
    pub state_slots: Seq<V>,
    pub next_effect_idx: int,
    pub effects: Seq<(Option<E>, Option<V>)>,
    pub cleanups: Seq<Option<C>>,
    pub next_memoization_idx: int,
    pub memoizations: Seq<(V, Option<V>)>,
}

impl<V, E, C> View for Bucket<V, E, C> {
    type V = BucketView<V, E, C>;

    open spec fn view(&self) -> BucketView<V, E, C> {
        BucketView {
            serial: self.serial,
            next_state_slot_idx: self.next_state_slot_idx as int,
            state_slots: self.state_slots@,
            next_effect_idx: self.next_effect_idx as int,
            effects: self.effects@,
            cleanups: self.cleanups@,
            next_memoization_idx: self.next_memoization_idx as int,
            memoizations: self.memoizations@,
        }
    }
}

impl<V, E, C> BucketView<V, E, C> {
    /// A bucket without slots, made under `serial`.
    pub open spec fn fresh(serial: u64) -> Self {
        BucketView {
            serial,
            next_state_slot_idx: 0,
            state_slots: Seq::empty(),
            next_effect_idx: 0,
            effects: Seq::empty(),
            cleanups: Seq::empty(),
            next_memoization_idx: 0,
            memoizations: Seq::empty(),
        }
    }

    /// No cursor is past the end of its slots, every effect slot has a
    /// cleanup slot, and the effect slots can be counted by a `usize`.
    pub open spec fn wf(self) -> bool {
        &&& self.effects.len() <= usize::MAX
        &&& 0 <= self.next_state_slot_idx <= self.state_slots.len()
        &&& 0 <= self.next_effect_idx <= self.effects.len()
        &&& 0 <= self.next_memoization_idx <= self.memoizations.len()
        &&& self.cleanups.len() == self.effects.len()
    }

    /// The bucket at the start of a render: all cursors at zero, slots kept.
    pub open spec fn rewound(self) -> Self {
        BucketView {
            next_state_slot_idx: 0,
            next_effect_idx: 0,
            next_memoization_idx: 0,
            ..self
        }
    }

    /// The bucket after one state hook: the slot at the cursor exists, holding
    /// `initial` if it is new, and the cursor has moved past it.
    pub open spec fn state_reserved(self, initial: V) -> Self {
        BucketView {
            next_state_slot_idx: self.next_state_slot_idx + 1,
            state_slots: if self.state_slots.len() <= self.next_state_slot_idx {
                self.state_slots.push(initial)
            } else {
                self.state_slots
            },
            ..self
        }
    }

    /// The bucket with `value` written into state slot `index`.
    pub open spec fn state_written(self, index: int, value: V) -> Self {
        BucketView { state_slots: self.state_slots.update(index, value), ..self }
    }

    /// The snapshot that the effect at the cursor saw when it was last
    /// scheduled; `None` where the slot is new.
    pub open spec fn last_effect_guard(self) -> Option<V> {
        if 0 <= self.next_effect_idx < self.effects.len() {
            self.effects[self.next_effect_idx].1
        } else {
            None
        }
    }

    /// The bucket after one effect hook: the slot at the cursor exists, with
    /// its cleanup slot; where the snapshot changed, `body` is pending there
    /// with the new snapshot, else the slot is as it was; the cursor has moved
    /// past it.
    pub open spec fn effect_offered(self, body: E, guard: V, changed: bool) -> Self {
        let fresh = self.effects.len() <= self.next_effect_idx;
        let effects = if fresh {
            self.effects.push((None, None))
        } else {
            self.effects
        };
        BucketView {
            next_effect_idx: self.next_effect_idx + 1,
            effects: if changed {
                effects.update(self.next_effect_idx, (Some(body), Some(guard)))
            } else {
                effects
            },
            cleanups: if fresh {
                self.cleanups.push(None)
            } else {
                self.cleanups
            },
            ..self
        }
    }

    /// What effect slot `i` asks for at the end of a render: nothing where no
    /// body is pending; else the cleanup of the last run, if there is one, and
    /// then the body.
    pub open spec fn steps_of_slot(self, i: int) -> Seq<EffectStep<E, C>> {
        match self.effects[i].0 {
            Some(body) => match self.cleanups[i] {
                Some(cleanup) => seq![
                    EffectStep::Cleanup { index: i as usize, cleanup },
                    EffectStep::Body { index: i as usize, body },
                ],
                None => seq![EffectStep::Body { index: i as usize, body }],
            },
            None => Seq::empty(),
        }
    }

    /// The steps of the first `n` effect slots, in slot order.
    pub open spec fn effect_steps_upto(self, n: int) -> Seq<EffectStep<E, C>>
        decreases n,
    {
        if n <= 0 {
            Seq::empty()
        } else {
            self.effect_steps_upto(n - 1) + self.steps_of_slot(n - 1)
        }
    }

    /// The steps that end a render, in slot order.
    pub open spec fn effect_steps(self) -> Seq<EffectStep<E, C>> {
        self.effect_steps_upto(self.effects.len() as int)
    }

    /// The bucket after its pending effects were handed out: no body is
    /// pending, every snapshot is kept, and the cleanups that were handed out
    /// have left their slots.
    pub open spec fn effects_taken(self) -> Self {
        BucketView {
            effects: Seq::new(self.effects.len(), |i: int| (None, self.effects[i].1)),
            cleanups: Seq::new(
                self.cleanups.len(),
                |i: int|
                    if self.effects[i].0 is Some {
                        None
                    } else {
                        self.cleanups[i]
                    },
            ),
            ..self
        }
    }

    /// The bucket with `cleanup` stored for effect slot `index`.
    pub open spec fn cleanup_stored(self, index: int, cleanup: Option<C>) -> Self {
        BucketView { cleanups: self.cleanups.update(index, cleanup), ..self }
    }

    /// What cleanup slot `i` asks for at unmount.
    pub open spec fn cleanup_of_slot(self, i: int) -> Seq<EffectStep<E, C>> {
        match self.cleanups[i] {
            Some(cleanup) => seq![EffectStep::Cleanup { index: i as usize, cleanup }],
            None => Seq::empty(),
        }
    }

    /// The cleanups of the first `n` slots, in slot order.
    pub open spec fn cleanup_steps_upto(self, n: int) -> Seq<EffectStep<E, C>>
        decreases n,
    {
        if n <= 0 {
            Seq::empty()
        } else {
            self.cleanup_steps_upto(n - 1) + self.cleanup_of_slot(n - 1)
        }
    }

    /// The steps of an unmount: every stored cleanup, in slot order.
    pub open spec fn cleanup_steps(self) -> Seq<EffectStep<E, C>> {
        self.cleanup_steps_upto(self.cleanups.len() as int)
    }

    /// The bucket after its cleanups were handed out: every cleanup slot is
    /// empty, the rest is as it was.
    pub open spec fn cleanups_taken(self) -> Self {
        BucketView { cleanups: Seq::new(self.cleanups.len(), |i: int| None), ..self }
    }

    /// No effect slot holds a pending body.
    pub open spec fn no_effect_pending(self) -> bool {
        forall|i: int| 0 <= i < self.effects.len() ==> (#[trigger] self.effects[i]).0 is None
    }

    /// The snapshot that the memoization at the cursor was computed for;
    /// `None` where the slot is new.
    pub open spec fn last_memo_guard(self) -> Option<V> {
        if 0 <= self.next_memoization_idx < self.memoizations.len() {
            self.memoizations[self.next_memoization_idx].1
        } else {
            None
        }
    }

    /// The bucket after a memo hook that kept the stored value.
    pub open spec fn memo_kept(self) -> Self {
        BucketView { next_memoization_idx: self.next_memoization_idx + 1, ..self }
    }

    /// The bucket after a memo hook that stored `value` for `guard`.
    pub open spec fn memo_stored(self, value: V, guard: V) -> Self {
        BucketView {
            next_memoization_idx: self.next_memoization_idx + 1,
            memoizations: if self.memoizations.len() <= self.next_memoization_idx {
                self.memoizations.push((value, Some(guard)))
            } else {
                self.memoizations.update(self.next_memoization_idx, (value, Some(guard)))
            },
            ..self
        }
    }
}

impl<V, E, C> Bucket<V, E, C> {
    /// A bucket without slots, made under `serial`.
    pub fn new(serial: u64) -> (bucket: Self)
        ensures
            bucket@ == BucketView::<V, E, C>::fresh(serial),
            bucket@.wf(),
    {
        Bucket {
            serial,
            next_state_slot_idx: 0,
            state_slots: Vec::new(),
            next_effect_idx: 0,
            effects: Vec::new(),
            cleanups: Vec::new(),
            next_memoization_idx: 0,
            memoizations: Vec::new(),
        }
    }

    /// Whether no cursor is past the end of its slots and every effect slot
    /// has a cleanup slot.
    pub fn is_wf(&self) -> (ok: bool)
        ensures
            ok == self@.wf(),
    {
        self.next_state_slot_idx <= self.state_slots.len() && self.next_effect_idx
            <= self.effects.len() && self.next_memoization_idx <= self.memoizations.len()
            && self.cleanups.len() == self.effects.len()
    }

    /// Puts the three cursors back to zero.
    pub fn rewind(&mut self)
        ensures
            final(self)@ == old(self)@.rewound(),
    {
        self.next_state_slot_idx = 0;
        self.next_effect_idx = 0;
        self.next_memoization_idx = 0;
    }

    /// Makes sure that the state slot at the cursor exists, moves the cursor
    /// past it, and returns the slot's index.
    pub fn reserve_state(&mut self, initial: V) -> (index: usize)
        requires
            old(self)@.wf(),
        ensures
            final(self)@ == old(self)@.state_reserved(initial),
            final(self)@.wf(),
            index == old(self)@.next_state_slot_idx,
            index < final(self)@.state_slots.len(),
    {
        let index = self.next_state_slot_idx;
        if self.state_slots.len() <= index {
            self.state_slots.push(initial);
        }
        let len = self.state_slots.len();
        assert(index < len);
        self.next_state_slot_idx = index + 1;
        index
    }

    /// Hands out what the pending effects ask for, in slot order, and leaves
    /// no effect pending.
    pub fn take_effect_steps(&mut self) -> (steps: Vec<EffectStep<E, C>>)
        requires
            old(self)@.wf(),
        ensures
            steps@ == old(self)@.effect_steps(),
            final(self)@ == old(self)@.effects_taken(),
            final(self)@.wf(),
    {
        let ghost before = self@;
        let mut steps: Vec<EffectStep<E, C>> = Vec::new();
        let mut i: usize = 0;
        while i < self.effects.len()
            invariant
                before.wf(),
                i <= self.effects@.len(),
                self.effects@.len() == before.effects.len(),
                self.cleanups@.len() == before.cleanups.len(),
                self@.serial == before.serial,
                self@.next_state_slot_idx == before.next_state_slot_idx,
                self@.next_effect_idx == before.next_effect_idx,
                self@.next_memoization_idx == before.next_memoization_idx,
                self@.state_slots == before.state_slots,
                self@.memoizations == before.memoizations,
                steps@ == before.effect_steps_upto(i as int),
                forall|j: int|
                    0 <= j < i ==> #[trigger] self.effects@[j] == (None::<E>, before.effects[j].1),
                forall|j: int|
                    0 <= j < i ==> #[trigger] self.cleanups@[j]
                        == before.effects_taken().cleanups[j],
                forall|j: int|
                    i <= j < self.effects@.len() ==> #[trigger] self.effects@[j]
                        == before.effects[j],
                forall|j: int|
                    i <= j < self.cleanups@.len() ==> #[trigger] self.cleanups@[j]
                        == before.cleanups[j],
            decreases self.effects@.len() - i,
        {
            let pending = self.effects[i].0.take();
            match pending {
                Some(body) => {
                    let left = self.cleanups[i].take();
                    match left {
                        Some(cleanup) => {
                            steps.push(EffectStep::Cleanup { index: i, cleanup });
                        },
                        None => {},
                    }
                    steps.push(EffectStep::Body { index: i, body });
                },
                None => {},
            }
            proof {
                assert(steps@ =~= before.effect_steps_upto(i as int) + before.steps_of_slot(
                    i as int,
                ));
            }
            i += 1;
        }
        proof {
            assert(self@.effects =~= before.effects_taken().effects);
            assert(self@.cleanups =~= before.effects_taken().cleanups);
        }
        steps
    }

    /// Stores `cleanup` for effect slot `index`.
    pub fn store_cleanup(&mut self, index: usize, cleanup: Option<C>)
        requires
            index < old(self)@.cleanups.len(),
        ensures
            final(self)@ == old(self)@.cleanup_stored(index as int, cleanup),
            old(self)@.wf() ==> final(self)@.wf(),
    {
        self.cleanups[index] = cleanup;
    }

    /// Hands out every stored cleanup, in slot order, and leaves the cleanup
    /// slots empty.
    pub fn take_cleanup_steps(&mut self) -> (steps: Vec<EffectStep<E, C>>)
        ensures
            steps@ == old(self)@.cleanup_steps(),
            final(self)@ == old(self)@.cleanups_taken(),
            old(self)@.wf() ==> final(self)@.wf(),
    {
        let ghost before = self@;
        let mut steps: Vec<EffectStep<E, C>> = Vec::new();
        let mut i: usize = 0;
        while i < self.cleanups.len()
            invariant
                i <= self.cleanups@.len(),
                self.cleanups@.len() == before.cleanups.len(),
                self@.serial == before.serial,
                self@.next_state_slot_idx == before.next_state_slot_idx,
                self@.next_effect_idx == before.next_effect_idx,
                self@.next_memoization_idx == before.next_memoization_idx,
                self@.state_slots == before.state_slots,
                self@.effects == before.effects,
                self@.memoizations == before.memoizations,
                steps@ == before.cleanup_steps_upto(i as int),
                forall|j: int| 0 <= j < i ==> #[trigger] self.cleanups@[j] == None::<C>,
                forall|j: int|
                    i <= j < self.cleanups@.len() ==> #[trigger] self.cleanups@[j]
                        == before.cleanups[j],
            decreases self.cleanups@.len() - i,
        {
            let left = self.cleanups[i].take();
            match left {
                Some(cleanup) => {
                    steps.push(EffectStep::Cleanup { index: i, cleanup });
                },
                None => {},
            }
            proof {
                assert(steps@ =~= before.cleanup_steps_upto(i as int) + before.cleanup_of_slot(
                    i as int,
                ));
            }
            i += 1;
        }
        proof {
            assert(self@.cleanups =~= before.cleanups_taken().cleanups);
        }
        steps
    }

    /// Whether an effect slot holds a pending body.
    pub fn has_pending_effect(&self) -> (pending: bool)
        ensures
            pending == !self@.no_effect_pending(),
    {
        let mut i: usize = 0;
        while i < self.effects.len()
            invariant
                i <= self.effects@.len(),
                forall|j: int| 0 <= j < i ==> (#[trigger] self.effects@[j]).0 is None,
            decreases self.effects@.len() - i,
        {
            if self.effects[i].0.is_some() {
                return true;
            }
            i += 1;
        }
        false
    }
}

impl<V: Guard, E, C> Bucket<V, E, C> {
    /// One effect hook: makes sure that the effect slot at the cursor exists,
    /// schedules `body` there if `guard` differs from the snapshot of the last
    /// run, and moves the cursor past the slot. Returns whether `body` was
    /// scheduled.
    pub fn offer_effect(&mut self, body: E, guard: V) -> (changed: bool)
        requires
            old(self)@.wf(),
        ensures
            final(self)@ == old(self)@.effect_offered(body, guard, changed),
            final(self)@.wf(),
            old(self)@.last_effect_guard() is None ==> changed,
            V::obeys_eq_spec() ==> changed == spec_guards_changed(
                guard,
                old(self)@.last_effect_guard(),
            ),
    {
        let index = self.next_effect_idx;
        if self.effects.len() <= index {
            self.effects.push((None, None));
            self.cleanups.push(None);
        }
        let len = self.effects.len();
        assert(index < len);
        let changed = guards_changed(&guard, &self.effects[index].1);
        if changed {
            self.effects[index] = (Some(body), Some(guard));
        }
        self.next_effect_idx = index + 1;
        changed
    }

    /// One memo hook: computes and stores a value for `guard` where the slot
    /// at the cursor is new or `guard` differs from the snapshot it was
    /// computed for, and moves the cursor past the slot. Returns whether it
    /// computed. `compute` has to be callable only where it is called: not
    /// where the snapshot is known to be unchanged.
    pub fn remember<F: FnOnce() -> V>(&mut self, compute: F, guard: V) -> (recomputed: bool)
        requires
            old(self)@.wf(),
            (V::obeys_eq_spec() && !spec_guards_changed(guard, old(self)@.last_memo_guard()))
                || call_requires(compute, ()),
        ensures
            final(self)@.wf(),
            old(self)@.next_memoization_idx < final(self)@.memoizations.len(),
            recomputed ==> {
                &&& call_ensures(
                    compute,
                    (),
                    final(self)@.memoizations[old(self)@.next_memoization_idx].0,
                )
                &&& final(self)@ == old(self)@.memo_stored(
                    final(self)@.memoizations[old(self)@.next_memoization_idx].0,
                    guard,
                )
            },
            !recomputed ==> final(self)@ == old(self)@.memo_kept(),
            old(self)@.last_memo_guard() is None ==> recomputed,
            V::obeys_eq_spec() ==> recomputed == spec_guards_changed(
                guard,
                old(self)@.last_memo_guard(),
            ),
    {
        let index = self.next_memoization_idx;
        let recomputed = if self.memoizations.len() <= index {
            let value = compute();
            self.memoizations.push((value, Some(guard)));
            true
        } else if guards_changed(&guard, &self.memoizations[index].1) {
            let value = compute();
            self.memoizations[index] = (value, Some(guard));
            true
        } else {
            false
        };
        let len = self.memoizations.len();
        assert(index < len);
        self.next_memoization_idx = index + 1;
        recomputed
    }
}

impl<V, E, C> Default for Bucket<V, E, C> {
    fn default() -> (bucket: Self)
        ensures
            bucket@ == BucketView::<V, E, C>::fresh(0),
    {
        Bucket::new(0)
    }
}

} // verus!
