//! What holds of the runtime across calls: state that survives renders, the
//! order of effect steps, transplants, and direct writes.

use vstd::prelude::*;

use crate::bucket::{BucketView, EffectStep};
use crate::hook_context::HookStateView;
use crate::hooks::dispatched;
use crate::remap::{applies, arrives, claimed, resolve};

verus! {

impl<E, C> EffectStep<E, C> {
    /// The effect slot that the step belongs to.
    pub open spec fn slot(self) -> int {
        match self {
            EffectStep::Cleanup { index, .. } => index as int,
            EffectStep::Body { index, .. } => index as int,
        }
    }
}

impl<V, E, C> HookStateView<V, E, C> {
    /// The runtime after one state hook for each of `initials`, in order.
    pub open spec fn state_hooks(self, initials: Seq<V>) -> Self
        decreases initials.len(),
    {
        if initials.len() == 0 {
            self
        } else {
            self.state_hooks(initials.drop_last()).state_hooked(initials.last())
        }
    }
}

/// State hooks on slots that exist change nothing but the cursor, whatever
/// their initial values are.
pub proof fn lemma_state_hooks_keep_slots<V, E, C>(s: HookStateView<V, E, C>, initials: Seq<V>)
    requires
        s.stack.len() > 0,
        s.buckets.contains_key(s.top()),
        0 <= s.current().next_state_slot_idx,
        s.current().next_state_slot_idx + initials.len() <= s.current().state_slots.len(),
    ensures
        s.state_hooks(initials) == s.with_current(
            BucketView {
                next_state_slot_idx: s.current().next_state_slot_idx + initials.len(),
                ..s.current()
            },
        ),
    decreases initials.len(),
{
    if initials.len() == 0 {
        assert(s.buckets.insert(s.top(), s.current()) =~= s.buckets);
    } else {
        let earlier = initials.drop_last();
        lemma_state_hooks_keep_slots(s, earlier);
        let mid = s.state_hooks(earlier);
        assert(mid.top() == s.top());
        assert(mid.buckets.contains_key(mid.top()));
        let after = mid.state_hooked(initials.last());
        let goal = s.with_current(
            BucketView {
                next_state_slot_idx: s.current().next_state_slot_idx + initials.len(),
                ..s.current()
            },
        );
        assert(after.buckets =~= goal.buckets);
    }
}

/// The state of an instance survives from one render to the next: when a
/// render of `id` has ended and the next one has begun, the state hook at
/// position `earlier.len()` finds every state slot as the last render and the
/// writes since then left it, so the value that it returns is the one that was
/// written last, or the unchanged one where nothing was written.
pub proof fn lemma_state_survives_render<V, E, C>(
    s: HookStateView<V, E, C>,
    id: u32,
    earlier: Seq<V>,
    initial: V,
)
    requires
        s.buckets.contains_key(id),
        earlier.len() < s.buckets[id].state_slots.len(),
    ensures
        ({
            let next = s.render_ended(id).render_begun(id);
            let before_hook = next.state_hooks(earlier);
            let after_hook = before_hook.state_hooked(initial);
            &&& before_hook.top() == id
            &&& before_hook.current().next_state_slot_idx == earlier.len()
            &&& after_hook.current().state_slots == s.buckets[id].state_slots
            &&& after_hook.current().next_state_slot_idx == earlier.len() + 1
        }),
{
    let ended = s.render_ended(id);
    let next = ended.render_begun(id);
    assert(next.stack.last() == id);
    assert(next.buckets.contains_key(id));
    lemma_state_hooks_keep_slots(next, earlier);
}

/// What was written through a handle is what the handle reads, and the
/// handle still finds its slot.
pub proof fn lemma_written_slot_reads_back<V, E, C>(
    s: HookStateView<V, E, C>,
    id: u32,
    serial: u64,
    index: int,
    value: V,
)
    requires
        s.slot_live(id, serial, index),
    ensures
        s.slot_written(id, serial, index, value).slot_live(id, serial, index),
        s.slot_written(id, serial, index, value).slot_value(id, serial, index) == value,
        s.slot_written(id, serial, index, value).located(id, serial) == s.located(id, serial),
{
}

/// The steps that end a render come in slot order; a cleanup stands directly
/// before the body of its own slot; and the steps are exactly the pending
/// bodies, each with the cleanup that its slot holds.
pub proof fn lemma_effect_steps_order<V, E, C>(b: BucketView<V, E, C>, n: int)
    requires
        b.wf(),
        0 <= n <= b.effects.len(),
    ensures
        forall|p: int|
            0 <= p < b.effect_steps_upto(n).len() ==> 0 <= (#[trigger] b.effect_steps_upto(
                n,
            )[p]).slot() < n,
        forall|p: int, q: int|
            0 <= p < q < b.effect_steps_upto(n).len() ==> {
                let first = #[trigger] b.effect_steps_upto(n)[p];
                let second = #[trigger] b.effect_steps_upto(n)[q];
                first.slot() < second.slot() || (first.slot() == second.slot() && q == p + 1
                    && first is Cleanup && second is Body)
            },
        forall|p: int|
            0 <= p < b.effect_steps_upto(n).len() ==> match #[trigger] b.effect_steps_upto(n)[p] {
                EffectStep::Body { index, body } => b.effects[index as int].0 == Some(body),
                EffectStep::Cleanup { index, cleanup } => {
                    &&& b.effects[index as int].0 is Some
                    &&& b.cleanups[index as int] == Some(cleanup)
                    &&& p + 1 < b.effect_steps_upto(n).len()
                    &&& b.effect_steps_upto(n)[p + 1] is Body
                    &&& b.effect_steps_upto(n)[p + 1].slot() == index
                },
            },
        forall|i: int|
            0 <= i < n && (#[trigger] b.effects[i]).0 is Some ==> b.effect_steps_upto(n).contains(
                EffectStep::Body { index: i as usize, body: b.effects[i].0->0 },
            ),
        forall|i: int|
            0 <= i < n && b.effects[i].0 is Some && (#[trigger] b.cleanups[i]) is Some
                ==> b.effect_steps_upto(n).contains(
                EffectStep::Cleanup { index: i as usize, cleanup: b.cleanups[i]->0 },
            ),
    decreases n,
{
    if n > 0 {
        lemma_effect_steps_order(b, n - 1);
        let head = b.effect_steps_upto(n - 1);
        let tail = b.steps_of_slot(n - 1);
        let all = b.effect_steps_upto(n);
        assert(all == head + tail);
        assert forall|p: int| 0 <= p < all.len() implies 0 <= (#[trigger] all[p]).slot() < n by {
            if p < head.len() {
                assert(all[p] == head[p]);
            } else {
                assert(all[p] == tail[p - head.len()]);
            }
        }
        assert forall|p: int, q: int| 0 <= p < q < all.len() implies ({
            let first = #[trigger] all[p];
            let second = #[trigger] all[q];
            first.slot() < second.slot() || (first.slot() == second.slot() && q == p + 1
                && first is Cleanup && second is Body)
        }) by {
            if q < head.len() {
                assert(all[p] == head[p]);
                assert(all[q] == head[q]);
            } else if p < head.len() {
                assert(all[p] == head[p]);
                assert(all[q] == tail[q - head.len()]);
            } else {
                assert(all[p] == tail[p - head.len()]);
                assert(all[q] == tail[q - head.len()]);
            }
        }
        assert forall|p: int| 0 <= p < all.len() implies match #[trigger] all[p] {
            EffectStep::Body { index, body } => b.effects[index as int].0 == Some(body),
            EffectStep::Cleanup { index, cleanup } => {
                &&& b.effects[index as int].0 is Some
                &&& b.cleanups[index as int] == Some(cleanup)
                &&& p + 1 < all.len()
                &&& all[p + 1] is Body
                &&& all[p + 1].slot() == index
            },
        } by {
            if p < head.len() {
                assert(all[p] == head[p]);
                if head[p] is Cleanup {
                    assert(all[p + 1] == head[p + 1]);
                }
            } else {
                assert(all[p] == tail[p - head.len()]);
                if tail.len() == 2 && p == head.len() {
                    assert(all[p + 1] == tail[1]);
                }
            }
        }
        assert forall|i: int| 0 <= i < n && (#[trigger] b.effects[i]).0 is Some implies all.contains(
            EffectStep::Body { index: i as usize, body: b.effects[i].0->0 },
        ) by {
            let wanted = EffectStep::<E, C>::Body { index: i as usize, body: b.effects[i].0->0 };
            if i < n - 1 {
                assert(head.contains(wanted));
                let p = choose|p: int| 0 <= p < head.len() && head[p] == wanted;
                assert(all[p] == wanted);
            } else {
                assert(tail[tail.len() - 1] == wanted);
                assert(all[all.len() - 1] == wanted);
            }
        }
        assert forall|i: int|
            0 <= i < n && b.effects[i].0 is Some && (#[trigger] b.cleanups[i]) is Some implies all.contains(
            EffectStep::Cleanup { index: i as usize, cleanup: b.cleanups[i]->0 },
        ) by {
            let wanted = EffectStep::<E, C>::Cleanup {
                index: i as usize,
                cleanup: b.cleanups[i]->0,
            };
            if i < n - 1 {
                assert(head.contains(wanted));
                let p = choose|p: int| 0 <= p < head.len() && head[p] == wanted;
                assert(all[p] == wanted);
            } else {
                assert(tail[0] == wanted);
                assert(all[head.len() as int] == wanted);
            }
        }
    }
}

/// The steps of an unmount are the stored cleanups, each once, in ascending
/// slot order.
pub proof fn lemma_cleanup_steps_order<V, E, C>(b: BucketView<V, E, C>, n: int)
    requires
        b.wf(),
        0 <= n <= b.cleanups.len(),
    ensures
        forall|p: int|
            0 <= p < b.cleanup_steps_upto(n).len() ==> match #[trigger] b.cleanup_steps_upto(n)[p] {
                EffectStep::Cleanup { index, cleanup } => 0 <= index < n && b.cleanups[index as int]
                    == Some(cleanup),
                EffectStep::Body { .. } => false,
            },
        forall|p: int, q: int|
            0 <= p < q < b.cleanup_steps_upto(n).len() ==> (#[trigger] b.cleanup_steps_upto(
                n,
            )[p]).slot() < (#[trigger] b.cleanup_steps_upto(n)[q]).slot(),
        forall|i: int|
            0 <= i < n && (#[trigger] b.cleanups[i]) is Some ==> b.cleanup_steps_upto(n).contains(
                EffectStep::Cleanup { index: i as usize, cleanup: b.cleanups[i]->0 },
            ),
    decreases n,
{
    if n > 0 {
        lemma_cleanup_steps_order(b, n - 1);
        let head = b.cleanup_steps_upto(n - 1);
        let tail = b.cleanup_of_slot(n - 1);
        let all = b.cleanup_steps_upto(n);
        assert(all == head + tail);
        assert forall|p: int| 0 <= p < all.len() implies match #[trigger] all[p] {
            EffectStep::Cleanup { index, cleanup } => 0 <= index < n && b.cleanups[index as int]
                == Some(cleanup),
            EffectStep::Body { .. } => false,
        } by {
            if p < head.len() {
                assert(all[p] == head[p]);
            } else {
                assert(all[p] == tail[p - head.len()]);
            }
        }
        assert forall|p: int, q: int| 0 <= p < q < all.len() implies (#[trigger] all[p]).slot() < (
        #[trigger] all[q]).slot() by {
            assert(all[p] == head[p]);
            if q < head.len() {
                assert(all[q] == head[q]);
            } else {
                assert(all[q] == tail[q - head.len()]);
            }
        }
        assert forall|i: int| 0 <= i < n && (#[trigger] b.cleanups[i]) is Some implies all.contains(
            EffectStep::Cleanup { index: i as usize, cleanup: b.cleanups[i]->0 },
        ) by {
            let wanted = EffectStep::<E, C>::Cleanup {
                index: i as usize,
                cleanup: b.cleanups[i]->0,
            };
            if i < n - 1 {
                assert(head.contains(wanted));
                let p = choose|p: int| 0 <= p < head.len() && head[p] == wanted;
                assert(all[p] == wanted);
            } else {
                assert(tail[0] == wanted);
                assert(all[head.len() as int] == wanted);
            }
        }
    }
}

/// Registering a transplant moves nothing: the buckets are where they were,
/// and every handle finds the slot it found before, with the same value.
pub proof fn lemma_pending_transplant_moves_nothing<V, E, C>(
    s: HookStateView<V, E, C>,
    old_id: u32,
    new_id: u32,
)
    ensures
        s.state_mapped(old_id, new_id).buckets == s.buckets,
        s.state_mapped(old_id, new_id).moved == s.moved,
        s.state_mapped(old_id, new_id).map_id(new_id) == old_id,
        forall|id: u32, serial: u64| #[trigger]
            s.state_mapped(old_id, new_id).located(id, serial) == s.located(id, serial),
        forall|id: u32, serial: u64, index: int| #[trigger]
            s.state_mapped(old_id, new_id).slot_live(id, serial, index) == s.slot_live(
                id,
                serial,
                index,
            ),
        forall|id: u32, serial: u64, index: int| #[trigger]
            s.state_mapped(old_id, new_id).slot_value(id, serial, index) == s.slot_value(
                id,
                serial,
                index,
            ),
{
}

/// A handle finds its own bucket or none: where it finds one, that bucket has
/// the handle's serial number, and in a well-formed runtime no other bucket
/// has it.
pub proof fn lemma_handle_finds_own_bucket_or_none<V, E, C>(
    s: HookStateView<V, E, C>,
    id: u32,
    serial: u64,
)
    requires
        s.wf(),
    ensures
        s.located(id, serial) matches Some(at) ==> s.buckets.contains_key(at)
            && s.buckets[at].serial == serial,
        forall|other: u32|
            s.located(id, serial) is Some && #[trigger] s.buckets.contains_key(other)
                && s.buckets[other].serial == serial ==> s.located(id, serial) == Some(other),
{
}

/// While its bucket stands under `id`, a handle made under `id` works on that
/// bucket, whatever is pending and whatever the last commit moved.
pub proof fn lemma_handle_finds_own_bucket<V, E, C>(
    s: HookStateView<V, E, C>,
    id: u32,
    index: int,
    value: V,
)
    requires
        s.slot_reached(id, index),
    ensures
        s.located(id, s.buckets[id].serial) == Some(id),
        s.slot_live(id, s.buckets[id].serial, index),
        s.slot_value(id, s.buckets[id].serial, index) == s.buckets[id].state_slots[index],
        s.slot_written(id, s.buckets[id].serial, index, value) == s.with_bucket(
            id,
            s.buckets[id].state_written(index, value),
        ),
{
}

/// Once its bucket is removed, a handle finds nothing: not the bucket that
/// another instance gets under the same identifier later, and not the bucket
/// that an earlier commit moved away from it.
pub proof fn lemma_removed_bucket_is_not_found<V, E, C>(
    s: HookStateView<V, E, C>,
    id: u32,
    at: u32,
    serial: u64,
    again: BucketView<V, E, C>,
)
    requires
        s.wf(),
        s.located(id, serial) == Some(at),
    ensures
        s.without_bucket(at).located(id, serial) is None,
        forall|index: int| !#[trigger] s.without_bucket(at).slot_live(id, serial, index),
        again.serial == s.without_bucket(at).bucket_or_empty(at).serial ==> s.without_bucket(
            at,
        ).with_bucket(at, again).located(id, serial) is None,
{
    let gone = s.without_bucket(at);
    assert(gone.located(id, serial) is None) by {
        if gone.buckets.contains_key(id) && gone.buckets[id].serial == serial {
            assert(s.buckets.contains_key(id) && id != at);
        }
        if gone.moved.contains_key(id) && gone.buckets.contains_key(gone.moved[id]) {
            assert(s.buckets.contains_key(gone.moved[id]));
        }
    }
    if again.serial == gone.bucket_or_empty(at).serial {
        let back = gone.with_bucket(at, again);
        assert(again.serial == s.next_serial);
        assert(s.buckets[at].serial < s.next_serial);
        assert(back.located(id, serial) is None) by {
            if back.buckets.contains_key(id) && back.buckets[id].serial == serial {
                if id != at {
                    assert(s.buckets.contains_key(id));
                }
            }
            if back.moved.contains_key(id) && back.buckets.contains_key(back.moved[id])
                && back.buckets[back.moved[id]].serial == serial {
                if back.moved[id] != at {
                    assert(s.buckets.contains_key(back.moved[id]));
                }
            }
        }
    }
}

/// A commit takes every handle along: the handle of a bucket that moved finds
/// it under the new identifier, also where another bucket came to stand
/// under the old one (a swap, a chain); the handle of a bucket that stayed
/// finds it where it was; and the handle of a bucket that was replaced finds
/// nothing.
pub proof fn lemma_handle_follows_commit<V, E, C>(
    s: HookStateView<V, E, C>,
    moved: Map<u32, u32>,
    id: u32,
)
    requires
        s.wf(),
        s.buckets.contains_key(id),
        applies(s.state_map, s.buckets, moved),
    ensures
        s.map_state_committed(moved).wf(),
        ({
            let t = s.map_state_committed(moved);
            let serial = s.buckets[id].serial;
            if moved.contains_key(id) {
                &&& t.located(id, serial) == Some(moved[id])
                &&& t.buckets[moved[id]] == s.buckets[id]
            } else if arrives(s.state_map, moved, id) {
                t.located(id, serial) is None
            } else {
                &&& t.located(id, serial) == Some(id)
                &&& t.buckets[id] == s.buckets[id]
            }
        }),
{
    let table = s.state_map;
    let t = s.map_state_committed(moved);
    let serial = s.buckets[id].serial;
    lemma_commit_keeps_buckets_apart(s, moved);
    if moved.contains_key(id) {
        let to = moved[id];
        assert(table.contains_key(to) && table[to] == id);
        assert(arrives(table, moved, to));
        assert(t.buckets[to] == s.buckets[id]);
        if t.buckets.contains_key(id) && id != to {
            assert(t.buckets[id].serial != t.buckets[to].serial);
        }
    } else {
        assert(!claimed(table, id));
        if arrives(table, moved, id) {
            let from = table[id];
            assert(moved.contains_key(from));
            assert(s.buckets.contains_key(from) && from != id);
            assert(t.buckets[id] == s.buckets[from]);
        } else {
            assert(t.buckets[id] == s.buckets[id]);
        }
    }
}

/// A commit keeps the runtime well formed: every bucket of the result is one
/// bucket of the registry, and no bucket of the registry is there twice.
pub proof fn lemma_commit_keeps_buckets_apart<V, E, C>(
    s: HookStateView<V, E, C>,
    moved: Map<u32, u32>,
)
    requires
        s.wf(),
        applies(s.state_map, s.buckets, moved),
    ensures
        s.map_state_committed(moved).wf(),
{
    let table = s.state_map;
    let t = s.map_state_committed(moved);
    let from = |id: u32|
        if arrives(table, moved, id) {
            table[id]
        } else {
            id
        };
    assert forall|id: u32| t.buckets.contains_key(id) implies s.buckets.contains_key(from(id))
        && #[trigger] t.buckets[id] == s.buckets[from(id)] by {
        if arrives(table, moved, id) {
            assert(moved.contains_key(table[id]));
        }
    }
    assert forall|a: u32, b: u32|
        t.buckets.contains_key(a) && t.buckets.contains_key(b) && a != b implies (
    #[trigger] t.buckets[a]).serial != (#[trigger] t.buckets[b]).serial by {
        assert(t.buckets[a] == s.buckets[from(a)]);
        assert(t.buckets[b] == s.buckets[from(b)]);
        if arrives(table, moved, a) && !arrives(table, moved, b) {
            assert(claimed(table, from(a)));
        }
        if arrives(table, moved, b) && !arrives(table, moved, a) {
            assert(claimed(table, from(b)));
        }
        assert(from(a) != from(b));
    }
    assert forall|id: u32| t.buckets.contains_key(id) implies (#[trigger] t.buckets[id]).wf()
        && t.buckets[id].serial < t.next_serial by {
        assert(t.buckets[id] == s.buckets[from(id)]);
    }
}

/// One transplant, as a caller sees it: after the transplant from `old_id` to
/// `new_id` was registered and applied, the bucket that was under `old_id` is
/// under `new_id`, `old_id` has none, the table is empty, and a handle that
/// was made under `old_id` reads and writes the bucket under `new_id`. That
/// the bucket is under `new_id` and `old_id` is empty needs that no other
/// pending transplant names `old_id`, as its old or as its new identifier.
pub proof fn lemma_transplant_moves_bucket<V, E, C>(
    s: HookStateView<V, E, C>,
    old_id: u32,
    new_id: u32,
    moved: Map<u32, u32>,
)
    requires
        s.buckets.contains_key(old_id),
        old_id != new_id,
        !s.state_map.contains_key(old_id),
        forall|other: u32| #[trigger]
            s.state_map.contains_key(other) && other != new_id ==> s.state_map[other] != old_id,
        applies(s.state_mapped(old_id, new_id).state_map, s.buckets, moved),
    ensures
        ({
            let t = s.state_mapped(old_id, new_id).map_state_committed(moved);
            let serial = s.buckets[old_id].serial;
            &&& t.buckets.contains_key(new_id)
            &&& t.buckets[new_id] == s.buckets[old_id]
            &&& !t.buckets.contains_key(old_id)
            &&& t.located(old_id, serial) == Some(new_id)
            &&& forall|id: u32| #[trigger] t.map_id(id) == id
            &&& forall|index: int|
                s.slot_reached(old_id, index) ==> #[trigger] t.slot_live(old_id, serial, index)
                    && t.slot_value(old_id, serial, index)
                    == s.buckets[old_id].state_slots[index]
            &&& forall|index: int, value: V|
                s.slot_reached(old_id, index) ==> (#[trigger] t.slot_written(
                    old_id,
                    serial,
                    index,
                    value,
                )).buckets[new_id].state_slots[index] == value
        }),
{
    let table = s.state_mapped(old_id, new_id).state_map;
    assert(table.contains_key(new_id) && table[new_id] == old_id);
    assert(claimed(table, old_id));
    assert(moved.contains_key(old_id));
    assert(table.contains_key(moved[old_id]) && table[moved[old_id]] == old_id);
    if moved[old_id] != new_id {
        assert(s.state_map.contains_key(moved[old_id]));
    }
    assert(arrives(table, moved, new_id));
    assert(!arrives(table, moved, old_id));
    let t = s.state_mapped(old_id, new_id).map_state_committed(moved);
    assert forall|id: u32| #[trigger] t.map_id(id) == id by {
        assert(resolve(t.state_map, id) == id);
    }
}

/// Every pair is used once: after a commit the table is empty, so a second
/// commit without a new registration moves nothing and records nothing.
pub proof fn lemma_second_commit_moves_nothing<V, E, C>(
    s: HookStateView<V, E, C>,
    first: Map<u32, u32>,
    second: Map<u32, u32>,
)
    requires
        applies(s.map_state_committed(first).state_map, s.map_state_committed(first).buckets, second),
    ensures
        s.map_state_committed(first).state_map == Map::<u32, u32>::empty(),
        second == Map::<u32, u32>::empty(),
        s.map_state_committed(first).map_state_committed(second).buckets == s.map_state_committed(
            first,
        ).buckets,
{
    let once = s.map_state_committed(first);
    assert forall|id: u32| !second.contains_key(id) by {
        if second.contains_key(id) {
            assert(claimed(once.state_map, id));
        }
    }
    assert(second =~= Map::<u32, u32>::empty());
    assert forall|id: u32| !claimed(once.state_map, id) by {}
    assert(once.map_state_committed(second).buckets =~= once.buckets);
}

/// Any number of dispatches on one slot, and then the next render: each
/// dispatch works on the bucket of `id` and changes only this slot; the
/// values of the slot form a chain in which each is a result of `reducer` on
/// the one before and the update; and when the render has ended and the next
/// has begun, the state hook at the slot's position finds the last of them,
/// whatever its own initial value is. With no dispatch that is the value the
/// slot had.
pub proof fn lemma_dispatches_reach_next_render<V, E, C, A, R: Fn(V, A) -> V>(
    trace: Seq<HookStateView<V, E, C>>,
    reducer: R,
    id: u32,
    index: int,
    updates: Seq<A>,
    earlier: Seq<V>,
    initial: V,
)
    requires
        trace.len() == updates.len() + 1,
        trace[0].slot_reached(id, index),
        earlier.len() == index,
        forall|k: int|
            0 <= k < updates.len() ==> dispatched(
                #[trigger] trace[k],
                trace[k + 1],
                reducer,
                id,
                trace[0].buckets[id].serial,
                index,
                updates[k],
            ),
    ensures
        forall|k: int|
            0 <= k < trace.len() ==> (#[trigger] trace[k]).slot_reached(id, index)
                && trace[k].buckets[id] == trace[0].buckets[id].state_written(
                index,
                trace[k].buckets[id].state_slots[index],
            ),
        forall|k: int|
            0 <= k < updates.len() ==> call_ensures(
                reducer,
                ((#[trigger] trace[k]).buckets[id].state_slots[index], updates[k]),
                trace[k + 1].buckets[id].state_slots[index],
            ),
        ({
            let last = trace.last();
            let next = last.render_ended(id).render_begun(id).state_hooks(earlier).state_hooked(
                initial,
            );
            &&& next.top() == id
            &&& next.current().state_slots == last.buckets[id].state_slots
            &&& next.current().state_slots[index] == last.buckets[id].state_slots[index]
        }),
{
    let serial = trace[0].buckets[id].serial;
    lemma_writes_stay_in_slot(trace, id, serial, index, trace.len() - 1);
    assert forall|k: int| 0 <= k < updates.len() implies call_ensures(
        reducer,
        ((#[trigger] trace[k]).buckets[id].state_slots[index], updates[k]),
        trace[k + 1].buckets[id].state_slots[index],
    ) by {
        assert(dispatched(trace[k], trace[k + 1], reducer, id, serial, index, updates[k]));
        assert(trace[k].slot_reached(id, index));
        assert(trace[k + 1].slot_reached(id, index));
    }
    lemma_state_survives_render(trace.last(), id, earlier, initial);
}

/// Any number of writes through a setter or a ref handle on one slot, and
/// then the next render: the slot holds the value that was written last, and
/// the state hook at the slot's position in the next render finds it,
/// whatever its own initial value is.
pub proof fn lemma_last_write_reaches_next_render<V, E, C>(
    trace: Seq<HookStateView<V, E, C>>,
    id: u32,
    index: int,
    values: Seq<V>,
    earlier: Seq<V>,
    initial: V,
)
    requires
        values.len() >= 1,
        trace.len() == values.len() + 1,
        trace[0].slot_reached(id, index),
        earlier.len() == index,
        forall|k: int|
            0 <= k < values.len() ==> #[trigger] trace[k + 1] == trace[k].slot_written(
                id,
                trace[0].buckets[id].serial,
                index,
                values[k],
            ),
    ensures
        trace.last().slot_reached(id, index),
        trace.last().buckets[id].state_slots[index] == values.last(),
        ({
            let next = trace.last().render_ended(id).render_begun(id).state_hooks(
                earlier,
            ).state_hooked(initial);
            &&& next.top() == id
            &&& next.current().state_slots[index] == values.last()
        }),
{
    let serial = trace[0].buckets[id].serial;
    assert forall|k: int| 0 <= k < trace.len() - 1 implies #[trigger] trace[k + 1]
        == trace[k].slot_written(id, serial, index, trace[k + 1].slot_value(id, serial, index)) by {
        lemma_writes_stay_in_slot_upto(trace, id, serial, index, values, k);
    }
    lemma_writes_stay_in_slot(trace, id, serial, index, trace.len() - 1);
    let n = values.len() as int;
    lemma_writes_stay_in_slot_upto(trace, id, serial, index, values, n - 1);
    lemma_state_survives_render(trace.last(), id, earlier, initial);
}

/// After `k` writes of `values` the slot is registered and holds what the
/// last of them wrote.
proof fn lemma_writes_stay_in_slot_upto<V, E, C>(
    trace: Seq<HookStateView<V, E, C>>,
    id: u32,
    serial: u64,
    index: int,
    values: Seq<V>,
    k: int,
)
    requires
        trace.len() == values.len() + 1,
        trace[0].slot_reached(id, index),
        trace[0].buckets[id].serial == serial,
        0 <= k < values.len(),
        forall|j: int|
            0 <= j < values.len() ==> #[trigger] trace[j + 1] == trace[j].slot_written(
                id,
                serial,
                index,
                values[j],
            ),
    ensures
        trace[k].slot_reached(id, index),
        trace[k].buckets[id].serial == serial,
        trace[k + 1].slot_reached(id, index),
        trace[k + 1].buckets[id].serial == serial,
        trace[k + 1].slot_value(id, serial, index) == values[k],
        trace[k + 1].buckets[id].state_slots[index] == values[k],
    decreases k,
{
    if k > 0 {
        lemma_writes_stay_in_slot_upto(trace, id, serial, index, values, k - 1);
    }
    assert(trace[k + 1] == trace[k].slot_written(id, serial, index, values[k]));
}

/// Writes through a handle made under `id` stay in the bucket of `id`: after
/// any number of them the bucket is registered and differs from the first
/// one in this slot only.
proof fn lemma_writes_stay_in_slot<V, E, C>(
    trace: Seq<HookStateView<V, E, C>>,
    id: u32,
    serial: u64,
    index: int,
    upto: int,
)
    requires
        0 <= upto < trace.len(),
        trace[0].slot_reached(id, index),
        trace[0].buckets[id].serial == serial,
        forall|k: int|
            0 <= k < trace.len() - 1 ==> #[trigger] trace[k + 1] == trace[k].slot_written(
                id,
                serial,
                index,
                trace[k + 1].slot_value(id, serial, index),
            ),
    ensures
        forall|k: int|
            0 <= k <= upto ==> (#[trigger] trace[k]).slot_reached(id, index)
                && trace[k].buckets[id] == trace[0].buckets[id].state_written(
                index,
                trace[k].buckets[id].state_slots[index],
            ),
    decreases upto,
{
    if upto == 0 {
        let first = trace[0].buckets[id];
        assert(first.state_slots.update(index, first.state_slots[index]) =~= first.state_slots);
    } else {
        lemma_writes_stay_in_slot(trace, id, serial, index, upto - 1);
        let k = upto - 1;
        let before = trace[k];
        let after = trace[k + 1];
        assert(before.slot_reached(id, index));
        assert(before.buckets[id].serial == serial);
        assert(after == before.slot_written(id, serial, index, after.slot_value(id, serial, index)));
        let first = trace[0].buckets[id];
        assert(after.buckets[id].state_slots =~= first.state_slots.update(
            index,
            after.buckets[id].state_slots[index],
        ));
    }
}

/// State slots only grow: a state hook keeps every slot that was there.
pub proof fn lemma_state_hook_keeps_slots<V, E, C>(b: BucketView<V, E, C>, initial: V)
    requires
        b.wf(),
    ensures
        b.state_reserved(initial).wf(),
        b.state_slots.is_prefix_of(b.state_reserved(initial).state_slots),
        b.next_state_slot_idx < b.state_slots.len() ==> b.state_reserved(initial).state_slots
            == b.state_slots,
        b.state_reserved(initial).state_slots[b.next_state_slot_idx] == (if b.next_state_slot_idx
            < b.state_slots.len() {
            b.state_slots[b.next_state_slot_idx]
        } else {
            initial
        }),
{
}

/// Effect hooks and memo hooks leave the state slots and their cursor alone,
/// so state hooks can stand between them in any fixed order.
pub proof fn lemma_other_hooks_keep_state<V, E, C>(
    b: BucketView<V, E, C>,
    body: E,
    value: V,
    guards: V,
    changed: bool,
)
    ensures
        b.effect_offered(body, guards, changed).state_slots == b.state_slots,
        b.effect_offered(body, guards, changed).next_state_slot_idx == b.next_state_slot_idx,
        b.memo_kept().state_slots == b.state_slots,
        b.memo_kept().next_state_slot_idx == b.next_state_slot_idx,
        b.memo_stored(value, guards).state_slots == b.state_slots,
        b.memo_stored(value, guards).next_state_slot_idx == b.next_state_slot_idx,
        b.effects_taken().state_slots == b.state_slots,
{
}

/// Handing out the pending effects keeps every snapshot, leaves no body
/// pending, and hands out nothing a second time.
pub proof fn lemma_effects_taken_once<V, E, C>(b: BucketView<V, E, C>)
    requires
        b.wf(),
    ensures
        b.effects_taken().wf(),
        forall|i: int|
            0 <= i < b.effects.len() ==> (#[trigger] b.effects_taken().effects[i]) == (
                None::<E>,
                b.effects[i].1,
            ),
        b.effects_taken().effect_steps() == Seq::<EffectStep<E, C>>::empty(),
{
    lemma_no_pending_no_steps(b.effects_taken(), b.effects.len() as int);
}

/// Where no body is pending in the first `n` slots, they ask for nothing.
proof fn lemma_no_pending_no_steps<V, E, C>(b: BucketView<V, E, C>, n: int)
    requires
        0 <= n <= b.effects.len(),
        forall|i: int| 0 <= i < n ==> (#[trigger] b.effects[i]).0 is None,
    ensures
        b.effect_steps_upto(n) == Seq::<EffectStep<E, C>>::empty(),
    decreases n,
{
    if n > 0 {
        lemma_no_pending_no_steps(b, n - 1);
        assert(b.effects[n - 1].0 is None);
        assert(b.steps_of_slot(n - 1) =~= Seq::empty());
        assert(b.effect_steps_upto(n) =~= Seq::empty());
    }
}

} // verus!
