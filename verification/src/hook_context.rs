//! The runtime object: the registry of buckets, the stack of instances that
//! are rendering, the table of pending transplants, the record of the
//! transplants that the last commit applied, the identifier counter, and the
//! counter of the serial numbers that tell one bucket from another.

use std::collections::hash_map::Entry;
use std::collections::HashMap;
use std::collections::HashSet;
use vstd::prelude::*;
use vstd::std_specs::hash::spec_keys_iter;
use vstd::std_specs::iter::IteratorSpec;

use crate::bucket::{Bucket, BucketView, EffectStep};
use crate::remap::{applies, arrives, committed, resolve, stays, transplant};

verus! {

broadcast use vstd::std_specs::hash::group_hash_axioms;

/// The state that all hooks share. The caller owns one and hands it to every
/// hook and lifecycle operation.
pub struct HookState<V, E, C> {
    buckets: HashMap<u32, Bucket<V, E, C>>,
    state_map: HashMap<u32, u32>,
    moved: HashMap<u32, u32>,
    stack: Vec<u32>,
    func_id: u32,
    next_serial: u64,
}

/// The mathematical content of a [`HookState`].
pub struct HookStateView<V, E, C> {
    /// The bucket of each live instance.
    pub buckets: Map<u32, BucketView<V, E, C>>,
    /// The pending transplants: the old identifier for each new one.
    pub state_map: Map<u32, u32>,
    /// What the last commit moved: the new identifier for each old one.
    pub moved: Map<u32, u32>,
    /// The instances that are rendering, innermost last.
    pub stack: Seq<u32>,
    /// The identifier that was issued last.
    pub func_id: u32,
    /// The serial number of the next bucket.
    pub next_serial: u64,
}

/// The content of each bucket of a registry.
pub open spec fn bucket_views<V, E, C>(buckets: Map<u32, Bucket<V, E, C>>) -> Map<
    u32,
    BucketView<V, E, C>,
> {
    Map::new(|id: u32| buckets.contains_key(id), |id: u32| buckets[id]@)
}

impl<V, E, C> View for HookState<V, E, C> {
    type V = HookStateView<V, E, C>;

    closed spec fn view(&self) -> HookStateView<V, E, C> {
        HookStateView {
            buckets: bucket_views(self.buckets@),
            state_map: self.state_map@,
            moved: self.moved@,
            stack: self.stack@,
            func_id: self.func_id,
            next_serial: self.next_serial,
        }
    }
}

impl<V, E, C> HookStateView<V, E, C> {
    /// The runtime before anything has happened.
    pub open spec fn empty() -> Self {
        HookStateView {
            buckets: Map::empty(),
            state_map: Map::empty(),
            moved: Map::empty(),
            stack: Seq::empty(),
            func_id: 0,
            next_serial: 0,
        }
    }

    /// Every bucket is well formed, and the serial numbers of the buckets
    /// differ from each other and are below the counter.
    pub open spec fn wf(self) -> bool {
        &&& forall|id: u32| self.buckets.contains_key(id) ==> (#[trigger] self.buckets[id]).wf()
        &&& forall|id: u32|
            self.buckets.contains_key(id) ==> (#[trigger] self.buckets[id]).serial
                < self.next_serial
        &&& forall|a: u32, b: u32|
            self.buckets.contains_key(a) && self.buckets.contains_key(b) && a != b ==> (
            #[trigger] self.buckets[a]).serial != (#[trigger] self.buckets[b]).serial
    }

    /// A bucket can stand under `id`: there is one, or a serial number is
    /// left for a new one.
    pub open spec fn can_mount(self, id: u32) -> bool {
        self.buckets.contains_key(id) || self.next_serial < u64::MAX
    }

    /// The instance that is rendering: the top of the stack.
    pub open spec fn top(self) -> u32
        recommends
            self.stack.len() > 0,
    {
        self.stack.last()
    }

    /// The bucket of `id`, or an empty one with the next serial number where
    /// the instance has none yet.
    pub open spec fn bucket_or_empty(self, id: u32) -> BucketView<V, E, C> {
        if self.buckets.contains_key(id) {
            self.buckets[id]
        } else {
            BucketView::fresh(self.next_serial)
        }
    }

    /// The runtime with `bucket` registered under `id`. Where the instance had
    /// no bucket, the next serial number is used up.
    pub open spec fn with_bucket(self, id: u32, bucket: BucketView<V, E, C>) -> Self {
        HookStateView {
            buckets: self.buckets.insert(id, bucket),
            next_serial: if self.buckets.contains_key(id) {
                self.next_serial
            } else {
                (self.next_serial + 1) as u64
            },
            ..self
        }
    }

    /// The runtime with `id` pushed on the stack.
    pub open spec fn pushed(self, id: u32) -> Self {
        HookStateView { stack: self.stack.push(id), ..self }
    }

    /// The runtime with the top of the stack removed, if there is one.
    pub open spec fn popped(self) -> Self {
        HookStateView {
            stack: if self.stack.len() > 0 {
                self.stack.drop_last()
            } else {
                self.stack
            },
            ..self
        }
    }

    /// The runtime without the bucket of `id`.
    pub open spec fn without_bucket(self, id: u32) -> Self {
        HookStateView { buckets: self.buckets.remove(id), ..self }
    }

    /// The runtime after the transplant from `old_id` to `new_id` was
    /// registered. It replaces a pending transplant to `new_id`.
    pub open spec fn state_mapped(self, old_id: u32, new_id: u32) -> Self {
        HookStateView { state_map: self.state_map.insert(new_id, old_id), ..self }
    }

    /// The runtime after the pending transplants were applied as `moved`
    /// records: the buckets have moved, the table is empty, and `moved` is
    /// the record that handles follow.
    pub open spec fn map_state_committed(self, moved: Map<u32, u32>) -> Self {
        HookStateView {
            buckets: committed(self.state_map, self.buckets, moved),
            state_map: Map::empty(),
            moved,
            ..self
        }
    }

    /// The runtime without pending transplants.
    pub open spec fn map_state_cleared(self) -> Self {
        HookStateView { state_map: Map::empty(), ..self }
    }

    /// One hop through the pending transplants: the old identifier that is to
    /// move to `id`, or `id` itself.
    pub open spec fn map_id(self, id: u32) -> u32 {
        resolve(self.state_map, id)
    }

    /// Where the handle that was made under `id` for the bucket with the
    /// number `serial` finds that bucket: under `id`, or where the last commit
    /// moved the bucket of `id`, one hop; nowhere if the bucket is at neither
    /// place. Another bucket that stands there is not taken for it.
    pub open spec fn located(self, id: u32, serial: u64) -> Option<u32> {
        if self.buckets.contains_key(id) && self.buckets[id].serial == serial {
            Some(id)
        } else if self.moved.contains_key(id) && self.buckets.contains_key(self.moved[id])
            && self.buckets[self.moved[id]].serial == serial {
            Some(self.moved[id])
        } else {
            None
        }
    }

    /// The bucket of `id` itself has state slot `index`.
    pub open spec fn slot_reached(self, id: u32, index: int) -> bool {
        &&& self.buckets.contains_key(id)
        &&& 0 <= index < self.buckets[id].state_slots.len()
    }

    /// The handle made under `id` for state slot `index` of the bucket
    /// `serial` finds its slot: it finds the bucket, and the bucket has the
    /// slot.
    pub open spec fn slot_live(self, id: u32, serial: u64, index: int) -> bool {
        &&& self.located(id, serial) is Some
        &&& 0 <= index < self.buckets[self.located(id, serial)->0].state_slots.len()
    }

    /// The value in the slot that such a handle finds.
    pub open spec fn slot_value(self, id: u32, serial: u64, index: int) -> V
        recommends
            self.slot_live(id, serial, index),
    {
        self.buckets[self.located(id, serial)->0].state_slots[index]
    }

    /// The runtime with `value` written into the slot that such a handle
    /// finds.
    pub open spec fn slot_written(self, id: u32, serial: u64, index: int, value: V) -> Self
        recommends
            self.slot_live(id, serial, index),
    {
        self.with_bucket(
            self.located(id, serial)->0,
            self.buckets[self.located(id, serial)->0].state_written(index, value),
        )
    }

    /// The runtime after the pending effects of `id` were handed out.
    pub open spec fn effects_run(self, id: u32) -> Self
        recommends
            self.buckets.contains_key(id),
    {
        self.with_bucket(id, self.buckets[id].effects_taken())
    }

    /// The runtime at the end of a render of `id`: the pending effects were
    /// handed out and the instance has left the stack.
    pub open spec fn render_ended(self, id: u32) -> Self
        recommends
            self.buckets.contains_key(id),
    {
        self.effects_run(id).popped()
    }

    /// The runtime at the start of an unmount of `id`: the instance is on top
    /// of the stack and its bucket is registered, with its cleanups handed
    /// out.
    pub open spec fn unmount_begun(self, id: u32) -> Self {
        self.pushed(id).with_bucket(id, self.bucket_or_empty(id).cleanups_taken())
    }

    /// The runtime at the end of an unmount of `id`: the bucket is gone and
    /// the instance has left the stack.
    pub open spec fn unmount_ended(self, id: u32) -> Self {
        self.without_bucket(id).popped()
    }

    /// The runtime at the start of a render of `id`: the instance is on top of
    /// the stack, its bucket exists, and the bucket's cursors are at zero.
    pub open spec fn render_begun(self, id: u32) -> Self {
        self.pushed(id).with_bucket(id, self.bucket_or_empty(id).rewound())
    }
}

/// Applying transplants to the buckets and then taking their content gives
/// the same as applying them to the content.
proof fn lemma_committed_views<V, E, C>(
    table: Map<u32, u32>,
    buckets: Map<u32, Bucket<V, E, C>>,
    moved: Map<u32, u32>,
)
    requires
        applies(table, buckets, moved),
    ensures
        applies(table, bucket_views(buckets), moved),
        bucket_views(committed(table, buckets, moved)) == committed(
            table,
            bucket_views(buckets),
            moved,
        ),
{
    let views = bucket_views(buckets);
    assert forall|id: u32| #[trigger]
        moved.contains_key(id) <==> views.contains_key(id) && crate::remap::claimed(table, id) by {
        assert(views.contains_key(id) <==> buckets.contains_key(id));
    }
    assert forall|id: u32| stays(table, buckets, id) <==> stays(table, views, id) by {}
    assert(bucket_views(committed(table, buckets, moved)) =~= committed(table, views, moved));
}

/// Putting back the bucket of `id`, or putting the new one there, keeps the
/// runtime well formed, if the bucket is well formed and has kept its serial
/// number.
pub proof fn lemma_with_bucket_wf<V, E, C>(
    s: HookStateView<V, E, C>,
    id: u32,
    bucket: BucketView<V, E, C>,
)
    requires
        s.wf(),
        s.can_mount(id),
        bucket.wf(),
        bucket.serial == s.bucket_or_empty(id).serial,
    ensures
        s.with_bucket(id, bucket).wf(),
{
    let t = s.with_bucket(id, bucket);
    assert forall|a: u32, b: u32|
        t.buckets.contains_key(a) && t.buckets.contains_key(b) && a != b implies (
    #[trigger] t.buckets[a]).serial != (#[trigger] t.buckets[b]).serial by {
        if a != id {
            assert(s.buckets.contains_key(a));
            assert(t.buckets[a] == s.buckets[a]);
        }
        if b != id {
            assert(s.buckets.contains_key(b));
            assert(t.buckets[b] == s.buckets[b]);
        }
    }
    assert forall|a: u32| t.buckets.contains_key(a) implies (#[trigger] t.buckets[a]).serial
        < t.next_serial by {
        if a != id {
            assert(s.buckets.contains_key(a));
            assert(t.buckets[a] == s.buckets[a]);
        }
    }
    assert forall|a: u32| t.buckets.contains_key(a) implies (#[trigger] t.buckets[a]).wf() by {
        if a != id {
            assert(s.buckets.contains_key(a));
            assert(t.buckets[a] == s.buckets[a]);
        }
    }
}

/// The identifier that follows `last`: one more, starting over at zero before
/// the largest `u32` is reached.
pub open spec fn next_comp_id(last: u32) -> u32 {
    ((last + 1) % (u32::MAX as int)) as u32
}

impl<V, E, C> HookState<V, E, C> {
    /// A runtime with no bucket, an empty stack, no pending transplant and
    /// the counter at zero.
    pub fn init() -> (hooks: Self)
        ensures
            hooks@ == HookStateView::<V, E, C>::empty(),
            hooks@.wf(),
    {
        let hooks = HookState {
            buckets: HashMap::new(),
            state_map: HashMap::new(),
            moved: HashMap::new(),
            stack: Vec::new(),
            func_id: 0,
            next_serial: 0,
        };
        assert(hooks@.buckets =~= Map::empty());
        hooks
    }

    /// Whether the runtime is well formed. Every operation keeps it so; only
    /// writes through the buckets that the runtime lends out can break it.
    pub fn is_wf(&self) -> (ok: bool)
        ensures
            ok == self@.wf(),
    {
        let ghost keys = spec_keys_iter(&self.buckets).remaining();
        let ghost registry = self.buckets@;
        let mut seen: HashSet<u64> = HashSet::new();
        proof {
            assert(keys.unref().to_set() == registry.dom());
            assert(keys.no_duplicates());
        }
        for id in it: self.buckets.keys()
            invariant
                it.seq() == keys,
                keys.unref().to_set() == registry.dom(),
                keys.no_duplicates(),
                registry == self.buckets@,
                forall|j: int|
                    0 <= j < it.index() ==> registry[*(#[trigger] keys[j])]@.wf()
                        && registry[*keys[j]].serial < self.next_serial,
                forall|i: int, j: int|
                    0 <= i < j < it.index() ==> registry[*(#[trigger] keys[i])].serial
                        != registry[*(#[trigger] keys[j])].serial,
                forall|serial: u64|
                    #[trigger] seen@.contains(serial) <==> exists|j: int|
                        0 <= j < it.index() && registry[*(#[trigger] keys[j])].serial == serial,
        {
            let ghost i = it.index();
            proof {
                assert(keys.unref()[i] == *id);
                assert(keys.unref().to_set().contains(*id));
                assert(registry.contains_key(*id));
            }
            let bucket = self.buckets.get(id).unwrap();
            if !bucket.is_wf() || bucket.serial >= self.next_serial {
                proof {
                    assert(self@.buckets.contains_key(*id));
                    assert(self@.buckets[*id] == bucket@);
                }
                return false;
            }
            if seen.contains(&bucket.serial) {
                proof {
                    let j = choose|j: int|
                        0 <= j < i && registry[*(#[trigger] keys[j])].serial == bucket.serial;
                    assert(keys[j] != keys[i]);
                    assert(keys.unref()[j] == *keys[j]);
                    assert(keys.unref().to_set().contains(*keys[j]));
                    assert(self@.buckets.contains_key(*keys[j]));
                    assert(self@.buckets.contains_key(*id));
                    assert(self@.buckets[*keys[j]].serial == self@.buckets[*id].serial);
                }
                return false;
            }
            let ghost seen_before = seen@;
            seen.insert(bucket.serial);
            proof {
                assert forall|serial: u64| #[trigger]
                    seen@.contains(serial) <==> exists|j: int|
                        0 <= j < i + 1 && registry[*(#[trigger] keys[j])].serial == serial by {
                    if seen_before.contains(serial) {
                        let j = choose|j: int|
                            0 <= j < i && registry[*(#[trigger] keys[j])].serial == serial;
                        assert(0 <= j < i + 1 && registry[*keys[j]].serial == serial);
                    }
                    if serial == bucket.serial {
                        assert(registry[*keys[i]].serial == serial);
                    }
                    if exists|j: int|
                        0 <= j < i + 1 && registry[*(#[trigger] keys[j])].serial == serial {
                        let j = choose|j: int|
                            0 <= j < i + 1 && registry[*(#[trigger] keys[j])].serial == serial;
                        if j < i {
                            assert(seen_before.contains(serial));
                        }
                    }
                }
                assert forall|a: int, b: int| 0 <= a < b < i + 1 implies registry[*(
                #[trigger] keys[a])].serial != registry[*(#[trigger] keys[b])].serial by {
                    if b == i {
                        if registry[*keys[a]].serial == bucket.serial {
                            assert(seen_before.contains(bucket.serial));
                        }
                    }
                }
            }
        }
        proof {
            assert forall|id: u32| self@.buckets.contains_key(id) implies (
            #[trigger] self@.buckets[id]).wf() && self@.buckets[id].serial
                < self@.next_serial by {
                assert(keys.unref().to_set().contains(id));
                assert(keys.unref().contains(id));
                let j = choose|j: int| 0 <= j < keys.unref().len() && keys.unref()[j] == id;
                assert(*keys[j] == id);
            }
            assert forall|a: u32, b: u32|
                self@.buckets.contains_key(a) && self@.buckets.contains_key(b) && a
                    != b implies (#[trigger] self@.buckets[a]).serial != (
            #[trigger] self@.buckets[b]).serial by {
                assert(keys.unref().to_set().contains(a));
                assert(keys.unref().contains(a));
                let i = choose|i: int| 0 <= i < keys.unref().len() && keys.unref()[i] == a;
                assert(keys.unref().to_set().contains(b));
                assert(keys.unref().contains(b));
                let j = choose|j: int| 0 <= j < keys.unref().len() && keys.unref()[j] == b;
                assert(*keys[i] == a && *keys[j] == b);
                if i < j {
                    assert(registry[*keys[i]].serial != registry[*keys[j]].serial);
                } else {
                    assert(registry[*keys[j]].serial != registry[*keys[i]].serial);
                }
            }
        }
        true
    }

    /// Whether a bucket can stand under `id`: there is one, or a serial
    /// number is left for a new one.
    pub fn can_mount(&self, id: u32) -> (ok: bool)
        ensures
            ok == self@.can_mount(id),
    {
        self.buckets.contains_key(&id) || self.next_serial < u64::MAX
    }

    /// The registry.
    pub fn get_buckets(&self) -> (buckets: &HashMap<u32, Bucket<V, E, C>>)
        ensures
            bucket_views(buckets@) == self@.buckets,
    {
        &self.buckets
    }

    /// The stack of rendering instances, innermost last.
    pub fn get_stack(&self) -> (stack: &Vec<u32>)
        ensures
            stack@ == self@.stack,
    {
        &self.stack
    }

    /// The bucket of the instance on top of the stack, created empty under
    /// the next serial number if the instance has none; `None` outside a
    /// render.
    pub fn get_current_bucket(&mut self) -> (current: Option<&mut Bucket<V, E, C>>)
        requires
            old(self)@.stack.len() > 0 ==> old(self)@.can_mount(old(self)@.top()),
        ensures
            old(self)@.stack.len() == 0 ==> current is None && final(self)@ == old(self)@,
            old(self)@.stack.len() > 0 ==> match current {
                Some(bucket) => {
                    &&& bucket@ == old(self)@.bucket_or_empty(old(self)@.top())
                    &&& final(self)@ == old(self)@.with_bucket(old(self)@.top(), final(bucket)@)
                },
                None => false,
            },
    {
        let depth = self.stack.len();
        if depth == 0 {
            return None;
        }
        let id = self.stack[depth - 1];
        let serial = self.next_serial;
        if !self.buckets.contains_key(&id) {
            self.next_serial = serial + 1;
        }
        let bucket = self.buckets.entry(id).or_insert(Bucket::new(serial));
        proof {
            assert(bucket_views(old(self).buckets@.insert(id, *final(bucket)))
                =~= bucket_views(old(self).buckets@).insert(id, final(bucket)@));
        }
        Some(bucket)
    }
    /// The bucket of `id`, if the instance has one. Nothing is created.
    pub fn get_bucket(&mut self, id: &u32) -> (found: Option<&mut Bucket<V, E, C>>)
        ensures
            !old(self)@.buckets.contains_key(*id) ==> found is None && final(self)@ == old(self)@,
            old(self)@.buckets.contains_key(*id) ==> match found {
                Some(bucket) => {
                    &&& bucket@ == old(self)@.buckets[*id]
                    &&& final(self)@ == old(self)@.with_bucket(*id, final(bucket)@)
                },
                None => false,
            },
    {
        match self.buckets.entry(*id) {
            Entry::Occupied(entry) => {
                let bucket = entry.into_mut();
                proof {
                    assert(bucket_views(old(self).buckets@.insert(*id, *final(bucket)))
                        =~= bucket_views(old(self).buckets@).insert(*id, final(bucket)@));
                }
                Some(bucket)
            },
            Entry::Vacant(_entry) => {
                proof {
                    assert(old(self).buckets@.remove(*id) =~= old(self).buckets@);
                }
                None
            },
        }
    }

    /// Issues the next instance identifier.
    pub fn create_comp_id(&mut self) -> (id: u32)
        ensures
            id == next_comp_id(old(self)@.func_id),
            final(self)@ == (HookStateView { func_id: id, ..old(self)@ }),
    {
        let next: u64 = (self.func_id as u64 + 1) % (u32::MAX as u64);
        self.func_id = next as u32;
        self.func_id
    }

    /// Puts the identifier counter back to zero.
    pub fn reset_comp_id(&mut self)
        ensures
            final(self)@ == (HookStateView { func_id: 0, ..old(self)@ }),
    {
        self.func_id = 0;
    }

    /// Pushes `id` on the stack of rendering instances.
    pub fn push(&mut self, id: u32)
        ensures
            final(self)@ == old(self)@.pushed(id),
    {
        self.stack.push(id);
    }

    /// Removes the top of the stack; an empty stack stays empty.
    pub fn pop(&mut self)
        ensures
            final(self)@ == old(self)@.popped(),
    {
        self.stack.pop();
    }

    /// The instance that is rendering, `None` outside a render.
    pub fn last(&self) -> (top: Option<&u32>)
        ensures
            self@.stack.len() == 0 ==> top is None,
            self@.stack.len() > 0 ==> top == Some(&self@.top()),
    {
        let depth = self.stack.len();
        if depth == 0 {
            None
        } else {
            Some(&self.stack[depth - 1])
        }
    }

    /// Puts the cursors of the bucket of `id` back to zero.
    pub fn reset_bucket_idx(&mut self, id: u32)
        requires
            old(self)@.buckets.contains_key(id),
        ensures
            final(self)@ == old(self)@.with_bucket(id, old(self)@.buckets[id].rewound()),
    {
        let bucket = self.get_bucket(&id).unwrap();
        bucket.rewind();
    }

    /// Drops the bucket of `id`. No cleanup is handed out.
    pub fn reset_bucket(&mut self, id: u32)
        ensures
            final(self)@ == old(self)@.without_bucket(id),
    {
        self.buckets.remove(&id);
        proof {
            assert(bucket_views(old(self).buckets@.remove(id)) =~= bucket_views(
                old(self).buckets@,
            ).remove(id));
        }
    }

    /// Begins a render of `id`: pushes it, makes sure that its bucket exists,
    /// and puts the bucket's cursors back to zero.
    pub fn before_run(&mut self, id: u32)
        requires
            old(self)@.wf(),
            old(self)@.can_mount(id),
        ensures
            final(self)@ == old(self)@.render_begun(id),
            final(self)@.wf(),
    {
        proof {
            lemma_with_bucket_wf(
                self@.pushed(id),
                id,
                self@.pushed(id).bucket_or_empty(id).rewound(),
            );
        }
        self.push(id);
        let bucket = self.get_current_bucket().unwrap();
        bucket.rewind();
    }
    /// Registers the transplant of the bucket of `old_id` to `new_id`. It
    /// replaces a pending transplant to `new_id`. Nothing moves, and no handle
    /// looks elsewhere, before the commit.
    pub fn map_state(&mut self, old_id: u32, new_id: u32)
        ensures
            final(self)@ == old(self)@.state_mapped(old_id, new_id),
            old(self)@.wf() ==> final(self)@.wf(),
    {
        self.state_map.insert(new_id, old_id);
        assert(self@.buckets == old(self)@.buckets);
    }

    /// Applies every pending transplant at once and empties the table: a
    /// bucket under an old identifier moves to the new identifier of a pair
    /// that names it and replaces the bucket there; a pair whose old
    /// identifier has no bucket does nothing. What moved is recorded, in place
    /// of the record of the commit before, for the handles that were made
    /// under the old identifiers. Where several pairs name the same old
    /// identifier, one of them receives the bucket, and the record says which.
    pub fn commit_map_state(&mut self)
        requires
            old(self)@.wf(),
        ensures
            applies(old(self)@.state_map, old(self)@.buckets, final(self)@.moved),
            final(self)@ == old(self)@.map_state_committed(final(self)@.moved),
            final(self)@.wf(),
    {
        let moved = transplant(&mut self.buckets, &self.state_map);
        proof {
            let table = old(self).state_map@;
            lemma_committed_views(table, old(self).buckets@, moved@);
            let before = old(self)@.buckets;
            assert forall|id: u32| self@.buckets.contains_key(id) implies (
            #[trigger] self@.buckets[id]).wf() by {
                if arrives(table, moved@, id) {
                    assert(moved@.contains_key(table[id]));
                    assert(before.contains_key(table[id]));
                    assert(before[table[id]].wf());
                } else {
                    assert(before[id].wf());
                }
            }
        }
        self.moved = moved;
        self.state_map.clear();
    }

    /// Forgets the pending transplants without applying them.
    pub fn clear_map_state(&mut self)
        ensures
            final(self)@ == old(self)@.map_state_cleared(),
            old(self)@.wf() ==> final(self)@.wf(),
    {
        self.state_map.clear();
        assert(self@.buckets == old(self)@.buckets);
    }

    /// One hop through the pending transplants: the old identifier that is to
    /// move to `id`, or `id` itself where no transplant to `id` is pending.
    pub fn map_id(&self, id: u32) -> (mapped: u32)
        ensures
            mapped == self@.map_id(id),
    {
        match self.state_map.get(&id) {
            Some(old_id) => *old_id,
            None => id,
        }
    }

    /// Where the handle that was made under `id` for the bucket with the
    /// number `serial` finds that bucket: under `id`, or where the last commit
    /// moved the bucket of `id`; `None` if the bucket is at neither place.
    pub fn locate(&self, id: u32, serial: u64) -> (found: Option<u32>)
        ensures
            found == self@.located(id, serial),
    {
        match self.buckets.get(&id) {
            Some(bucket) => {
                if bucket.serial == serial {
                    return Some(id);
                }
            },
            None => {},
        }
        match self.moved.get(&id) {
            Some(new_id) => match self.buckets.get(new_id) {
                Some(bucket) => {
                    if bucket.serial == serial {
                        Some(*new_id)
                    } else {
                        None
                    }
                },
                None => None,
            },
            None => None,
        }
    }

    /// Hands out what the pending effects of `id` ask for, in slot order, and
    /// leaves none pending. The instance stays on the stack. The caller runs
    /// the steps in this order, gives what each body returns to
    /// [`HookState::store_cleanup`], and then ends the render with
    /// [`HookState::after_run`].
    pub fn run_effects_of(&mut self, id: u32) -> (steps: Vec<EffectStep<E, C>>)
        requires
            old(self)@.wf(),
            old(self)@.buckets.contains_key(id),
        ensures
            steps@ == old(self)@.buckets[id].effect_steps(),
            final(self)@ == old(self)@.effects_run(id),
            final(self)@.buckets[id].no_effect_pending(),
            final(self)@.wf(),
    {
        let bucket = self.get_bucket(&id).unwrap();
        bucket.take_effect_steps()
    }

    /// Whether the bucket of `id` holds an effect that was not handed out.
    pub fn has_pending_effects(&self, id: u32) -> (pending: bool)
        ensures
            pending == (self@.buckets.contains_key(id) && !self@.buckets[id].no_effect_pending()),
    {
        match self.buckets.get(&id) {
            Some(bucket) => bucket.has_pending_effect(),
            None => false,
        }
    }

    /// Ends the render of `id`: pops it. The instance must be on top of the
    /// stack, and its effects must have been handed out by
    /// [`HookState::run_effects_of`], so that they ran while the instance was
    /// still on the stack.
    pub fn after_run(&mut self, id: u32)
        requires
            old(self)@.stack.len() > 0,
            old(self)@.top() == id,
            old(self)@.buckets.contains_key(id),
            old(self)@.buckets[id].no_effect_pending(),
        ensures
            final(self)@ == old(self)@.popped(),
            old(self)@.wf() ==> final(self)@.wf(),
    {
        self.pop();
    }

    /// Begins the unmount of `id`: pushes it, makes sure that its bucket is
    /// registered, and hands out every stored cleanup of the bucket, in slot
    /// order. The bucket stays registered and the instance on the stack while
    /// the caller runs the cleanups; [`HookState::finish_reset`] ends the
    /// unmount.
    pub fn reset(&mut self, id: u32) -> (steps: Vec<EffectStep<E, C>>)
        requires
            old(self)@.wf(),
            old(self)@.can_mount(id),
        ensures
            steps@ == old(self)@.bucket_or_empty(id).cleanup_steps(),
            final(self)@ == old(self)@.unmount_begun(id),
            final(self)@.buckets.contains_key(id),
            final(self)@.stack.len() > 0,
            final(self)@.top() == id,
            final(self)@.wf(),
    {
        proof {
            lemma_with_bucket_wf(
                self@.pushed(id),
                id,
                self@.pushed(id).bucket_or_empty(id).cleanups_taken(),
            );
        }
        self.push(id);
        let bucket = self.get_current_bucket().unwrap();
        bucket.take_cleanup_steps()
    }

    /// Ends the unmount of `id`, which must be on top of the stack: drops its
    /// bucket and pops it.
    pub fn finish_reset(&mut self, id: u32)
        requires
            old(self)@.stack.len() > 0,
            old(self)@.top() == id,
        ensures
            final(self)@ == old(self)@.unmount_ended(id),
            !final(self)@.buckets.contains_key(id),
            old(self)@.wf() ==> final(self)@.wf(),
    {
        self.reset_bucket(id);
        self.pop();
    }

    /// Stores what the body of the effect in slot `index` of `id` returned.
    pub fn store_cleanup(&mut self, id: u32, index: usize, cleanup: Option<C>)
        requires
            old(self)@.wf(),
            old(self)@.buckets.contains_key(id),
            index < old(self)@.buckets[id].cleanups.len(),
        ensures
            final(self)@ == old(self)@.with_bucket(
                id,
                old(self)@.buckets[id].cleanup_stored(index as int, cleanup),
            ),
            final(self)@.wf(),
    {
        let bucket = self.get_bucket(&id).unwrap();
        bucket.store_cleanup(index, cleanup);
    }

    /// Whether effect slot `index` of `id` exists, so that a cleanup can be
    /// stored for it.
    pub fn has_effect_slot(&self, id: u32, index: usize) -> (found: bool)
        ensures
            found == (self@.buckets.contains_key(id) && index < self@.buckets[id].cleanups.len()),
    {
        match self.buckets.get(&id) {
            Some(bucket) => index < bucket.cleanups.len(),
            None => false,
        }
    }

    /// Whether the handle made under `id` for state slot `index` of the
    /// bucket `serial` finds its slot.
    pub fn has_slot(&self, id: u32, serial: u64, index: usize) -> (found: bool)
        ensures
            found == self@.slot_live(id, serial, index as int),
    {
        match self.locate(id, serial) {
            Some(at) => match self.buckets.get(&at) {
                Some(bucket) => index < bucket.state_slots.len(),
                None => false,
            },
            None => false,
        }
    }

    /// The slot that the handle made under `id` for state slot `index` of the
    /// bucket `serial` finds.
    pub fn state_slot(&self, id: u32, serial: u64, index: usize) -> (slot: Option<&V>)
        ensures
            self@.slot_live(id, serial, index as int) ==> slot == Some(
                &self@.slot_value(id, serial, index as int),
            ),
            !self@.slot_live(id, serial, index as int) ==> slot is None,
    {
        match self.locate(id, serial) {
            Some(at) => match self.buckets.get(&at) {
                Some(bucket) => {
                    if index < bucket.state_slots.len() {
                        Some(&bucket.state_slots[index])
                    } else {
                        None
                    }
                },
                None => None,
            },
            None => None,
        }
    }
}

} // verus!
