//! The identity remap table: pending transplants, each from an old identifier
//! to a new one, kept as a map from the new identifier to the old.
//!
//! Applying the table moves every bucket whose identifier is named as old to
//! the new identifier of one pair that names it, all at once, and gives the
//! record of what moved: a map from each old identifier to its new one.

use std::collections::HashMap;
use vstd::prelude::*;
use vstd::std_specs::hash::spec_keys_iter;
use vstd::std_specs::iter::IteratorSpec;

verus! {

broadcast use vstd::std_specs::hash::group_hash_axioms;

/// One hop through the table: the old identifier of the pair whose new
/// identifier is `id`, or `id` itself where there is no such pair. The result
/// is not looked up again.
pub open spec fn resolve(table: Map<u32, u32>, id: u32) -> u32 {
    if table.contains_key(id) {
        table[id]
    } else {
        id
    }
}

/// Some pair names `id` as its old identifier.
pub open spec fn claimed(table: Map<u32, u32>, id: u32) -> bool {
    exists|new_id: u32| #[trigger] table.contains_key(new_id) && table[new_id] == id
}

/// No two pairs name the same old identifier.
pub open spec fn injective(table: Map<u32, u32>) -> bool {
    forall|a: u32, b: u32|
        #[trigger] table.contains_key(a) && #[trigger] table.contains_key(b) && table[a]
            == table[b] ==> a == b
}

/// `moved` is a record of applying the table to the registry: exactly the
/// old identifiers that have a bucket and are named by a pair have moved,
/// each to the new identifier of a pair that names it.
pub open spec fn applies<B>(
    table: Map<u32, u32>,
    buckets: Map<u32, B>,
    moved: Map<u32, u32>,
) -> bool {
    &&& forall|id: u32| #[trigger]
        moved.contains_key(id) <==> buckets.contains_key(id) && claimed(table, id)
    &&& forall|id: u32| #[trigger]
        moved.contains_key(id) ==> table.contains_key(moved[id]) && table[moved[id]] == id
}

/// A bucket arrives at `id`: the pair for `id` names an old identifier whose
/// bucket moved to `id`.
pub open spec fn arrives(table: Map<u32, u32>, moved: Map<u32, u32>, id: u32) -> bool {
    &&& table.contains_key(id)
    &&& moved.contains_key(table[id])
    &&& moved[table[id]] == id
}

/// The bucket of `id` is not moved away: no pair names `id` as old.
pub open spec fn stays<B>(table: Map<u32, u32>, buckets: Map<u32, B>, id: u32) -> bool {
    buckets.contains_key(id) && !claimed(table, id)
}

/// The registry after the transplants that `moved` records were applied at
/// once: every bucket that moved has left its old identifier and stands under
/// its new one, replacing what was there; the others are where they were.
pub open spec fn committed<B>(
    table: Map<u32, u32>,
    buckets: Map<u32, B>,
    moved: Map<u32, u32>,
) -> Map<u32, B> {
    Map::new(
        |id: u32| arrives(table, moved, id) || stays(table, buckets, id),
        |id: u32|
            if arrives(table, moved, id) {
                buckets[table[id]]
            } else {
                buckets[id]
            },
    )
}

/// Where no two pairs name the same old identifier, the table and the
/// registry decide what moves where: there is one record only.
pub proof fn lemma_applies_unique<B>(
    table: Map<u32, u32>,
    buckets: Map<u32, B>,
    first: Map<u32, u32>,
    second: Map<u32, u32>,
)
    requires
        injective(table),
        applies(table, buckets, first),
        applies(table, buckets, second),
    ensures
        first == second,
{
    assert forall|id: u32| first.contains_key(id) implies first[id] == second[id] by {
        assert(second.contains_key(id));
        assert(table.contains_key(first[id]) && table.contains_key(second[id]));
    }
    assert(first =~= second);
}

/// Applying transplants makes no bucket: every bucket of the result was a
/// bucket of the registry.
pub proof fn lemma_committed_from_registry<B>(
    table: Map<u32, u32>,
    buckets: Map<u32, B>,
    moved: Map<u32, u32>,
)
    requires
        applies(table, buckets, moved),
    ensures
        forall|id: u32| #[trigger]
            committed(table, buckets, moved).contains_key(id) ==> exists|from: u32| #[trigger]
                buckets.contains_key(from) && committed(table, buckets, moved)[id]
                    == buckets[from],
{
    assert forall|id: u32| #[trigger]
        committed(table, buckets, moved).contains_key(id) implies exists|from: u32| #[trigger]
        buckets.contains_key(from) && committed(table, buckets, moved)[id] == buckets[from] by {
        if arrives(table, moved, id) {
            let from = table[id];
            assert(moved.contains_key(from));
            assert(buckets.contains_key(from) && committed(table, buckets, moved)[id]
                == buckets[from]);
        } else {
            assert(buckets.contains_key(id) && committed(table, buckets, moved)[id]
                == buckets[id]);
        }
    }
}

/// Applies all transplants of the table to the registry at once and returns
/// the record of what moved. Where several pairs name the same old
/// identifier, the order in which the table is walked decides which of them
/// receives the bucket; the record says which.
#[verifier::loop_isolation(false)]
pub fn transplant<B>(buckets: &mut HashMap<u32, B>, table: &HashMap<u32, u32>) -> (moved: HashMap<
    u32,
    u32,
>)
    ensures
        applies(table@, old(buckets)@, moved@),
        final(buckets)@ == committed(table@, old(buckets)@, moved@),
{
    let ghost start = buckets@;
    let ghost pairs = table@;
    let ghost keys = spec_keys_iter(table).remaining();
    let mut moved: HashMap<u32, u32> = HashMap::new();
    let mut staged: Vec<(u32, B)> = Vec::new();
    proof {
        assert(keys.unref().to_set() == pairs.dom());
        assert(keys.no_duplicates());
    }
    for new_id in it: table.keys()
        invariant
            it.seq() == keys,
            forall|id: u32| #[trigger]
                buckets@.contains_key(id) <==> start.contains_key(id) && !moved@.contains_key(id),
            forall|id: u32| #[trigger] buckets@.contains_key(id) ==> buckets@[id] == start[id],
            forall|id: u32| #[trigger]
                moved@.contains_key(id) ==> start.contains_key(id) && pairs.contains_key(
                    moved@[id],
                ) && pairs[moved@[id]] == id,
            forall|j: int|
                0 <= j < it.index() && start.contains_key(pairs[*(#[trigger] keys[j])])
                    ==> moved@.contains_key(pairs[*keys[j]]),
            forall|p: int|
                0 <= p < staged@.len() ==> {
                    let to = (#[trigger] staged@[p]).0;
                    &&& arrives(pairs, moved@, to)
                    &&& staged@[p].1 == start[pairs[to]]
                },
            forall|p: int, j: int|
                0 <= p < staged@.len() && it.index() <= j < keys.len() ==> (#[trigger] staged@[p]).0
                    != *(#[trigger] keys[j]),
            forall|p: int, q: int|
                0 <= p < q < staged@.len() ==> (#[trigger] staged@[p]).0 != (
                #[trigger] staged@[q]).0,
            forall|id: u32| #[trigger]
                moved@.contains_key(id) ==> exists|p: int|
                    0 <= p < staged@.len() && (#[trigger] staged@[p]).0 == moved@[id],
    {
        let ghost i = it.index();
        let ghost before = buckets@;
        let ghost moved_before = moved@;
        let ghost staged_before = staged@;
        proof {
            assert(keys.unref()[i] == *new_id);
            assert(keys.unref().to_set().contains(*new_id));
            assert(pairs.contains_key(*new_id));
        }
        let old_id = *table.get(new_id).unwrap();
        match buckets.remove(&old_id) {
            Some(bucket) => {
                proof {
                    assert(before.contains_key(old_id));
                }
                moved.insert(old_id, *new_id);
                staged.push((*new_id, bucket));
                proof {
                    assert forall|p: int| 0 <= p < staged@.len() implies ({
                        let to = (#[trigger] staged@[p]).0;
                        &&& arrives(pairs, moved@, to)
                        &&& staged@[p].1 == start[pairs[to]]
                    }) by {
                        if p < staged_before.len() {
                            assert(staged@[p] == staged_before[p]);
                            assert(arrives(pairs, moved_before, staged_before[p].0));
                        }
                    }
                    assert forall|p: int, q: int| 0 <= p < q < staged@.len() implies (
                    #[trigger] staged@[p]).0 != (#[trigger] staged@[q]).0 by {
                        assert(staged@[p] == staged_before[p]);
                        if q < staged_before.len() {
                            assert(staged@[q] == staged_before[q]);
                        } else {
                            assert(staged_before[p].0 != *keys[i]);
                        }
                    }
                    assert forall|id: u32| #[trigger] moved@.contains_key(id) implies exists|
                        p: int,
                    |
                        0 <= p < staged@.len() && (#[trigger] staged@[p]).0 == moved@[id] by {
                        if id == old_id {
                            assert(staged@[staged@.len() - 1].0 == moved@[id]);
                        } else {
                            assert(moved_before.contains_key(id));
                            let p = choose|p: int|
                                0 <= p < staged_before.len() && (#[trigger] staged_before[p]).0
                                    == moved_before[id];
                            assert(staged@[p].0 == moved@[id]);
                        }
                    }
                }
            },
            None => {
                proof {
                    assert(buckets@ == before);
                    assert(!before.contains_key(old_id));
                }
            },
        }
        proof {
            assert forall|p: int, j: int|
                0 <= p < staged@.len() && i + 1 <= j < keys.len() implies (#[trigger] staged@[p]).0
                != *(#[trigger] keys[j]) by {
                if p < staged_before.len() {
                    assert(staged@[p] == staged_before[p]);
                } else {
                    assert(keys[i] != keys[j]);
                }
            }
            assert forall|j: int|
                0 <= j < i + 1 && start.contains_key(
                    pairs[*(#[trigger] keys[j])],
                ) implies moved@.contains_key(pairs[*keys[j]]) by {
                if j < i {
                    assert(moved_before.contains_key(pairs[*keys[j]]));
                } else {
                    assert(*keys[j] == *new_id);
                }
            }
        }
    }
    let ghost rest = buckets@;
    let ghost all = staged@;
    proof {
        assert forall|id: u32| #[trigger]
            moved@.contains_key(id) <==> start.contains_key(id) && claimed(pairs, id) by {
            if moved@.contains_key(id) {
                assert(pairs.contains_key(moved@[id]));
            }
            if start.contains_key(id) && claimed(pairs, id) {
                let to = choose|to: u32| #[trigger] pairs.contains_key(to) && pairs[to] == id;
                assert(keys.unref().to_set().contains(to));
                assert(keys.unref().contains(to));
                let j = choose|j: int| 0 <= j < keys.unref().len() && keys.unref()[j] == to;
                assert(*keys[j] == to);
            }
        }
        assert(applies(pairs, start, moved@));
    }
    while staged.len() > 0
        invariant
            staged@.len() <= all.len(),
            staged@ == all.take(staged@.len() as int),
            forall|id: u32|
                #[trigger] buckets@.contains_key(id) <==> rest.contains_key(id) || exists|p: int|
                    staged@.len() <= p < all.len() && (#[trigger] all[p]).0 == id,
            forall|p: int|
                staged@.len() <= p < all.len() ==> buckets@.contains_key((#[trigger] all[p]).0)
                    && buckets@[all[p].0] == all[p].1,
            forall|id: u32|
                #[trigger] rest.contains_key(id) && !(exists|p: int|
                    staged@.len() <= p < all.len() && (#[trigger] all[p]).0 == id)
                    ==> buckets@[id] == rest[id],
        decreases staged.len(),
    {
        let ghost before = buckets@;
        let ghost n = staged@.len();
        let (new_id, bucket) = staged.pop().unwrap();
        buckets.insert(new_id, bucket);
        proof {
            assert(all[n - 1] == (new_id, bucket));
            assert(staged@ == all.take(n - 1));
            assert forall|id: u32|
                #[trigger] buckets@.contains_key(id) <==> rest.contains_key(id) || exists|p: int|
                    n - 1 <= p < all.len() && (#[trigger] all[p]).0 == id by {
                assert(before.contains_key(id) <==> rest.contains_key(id) || exists|p: int|
                    n <= p < all.len() && (#[trigger] all[p]).0 == id);
                if id == new_id {
                    assert(all[n - 1].0 == id);
                }
                if before.contains_key(id) && !rest.contains_key(id) {
                    let p = choose|p: int| n <= p < all.len() && (#[trigger] all[p]).0 == id;
                    assert(all[p].0 == id);
                }
                if exists|p: int| n - 1 <= p < all.len() && (#[trigger] all[p]).0 == id {
                    let p = choose|p: int| n - 1 <= p < all.len() && (#[trigger] all[p]).0 == id;
                    if p >= n {
                        assert(all[p].0 == id);
                    }
                }
            }
            assert forall|p: int| n - 1 <= p < all.len() implies buckets@.contains_key(
                (#[trigger] all[p]).0,
            ) && buckets@[all[p].0] == all[p].1 by {
                if p >= n {
                    assert(all[n - 1].0 != all[p].0);
                    assert(before.contains_key(all[p].0));
                }
            }
            assert forall|id: u32|
                #[trigger] rest.contains_key(id) && !(exists|p: int|
                    n - 1 <= p < all.len() && (#[trigger] all[p]).0 == id) implies buckets@[id]
                == rest[id] by {
                assert(all[n - 1].0 != id);
                assert(!(exists|p: int| n <= p < all.len() && (#[trigger] all[p]).0 == id)) by {
                    if exists|p: int| n <= p < all.len() && (#[trigger] all[p]).0 == id {
                        let p = choose|p: int| n <= p < all.len() && (#[trigger] all[p]).0 == id;
                        assert(n - 1 <= p < all.len() && all[p].0 == id);
                    }
                }
            }
        }
    }
    proof {
        let target = committed(pairs, start, moved@);
        assert forall|id: u32| buckets@.contains_key(id) <==> target.contains_key(id) by {
            if rest.contains_key(id) {
                assert(stays(pairs, start, id));
            }
            if exists|p: int| 0 <= p < all.len() && (#[trigger] all[p]).0 == id {
                let p = choose|p: int| 0 <= p < all.len() && (#[trigger] all[p]).0 == id;
                assert(arrives(pairs, moved@, all[p].0));
            }
            if arrives(pairs, moved@, id) {
                let from = pairs[id];
                assert(moved@.contains_key(from));
                let p = choose|p: int| 0 <= p < all.len() && (#[trigger] all[p]).0 == moved@[from];
                assert(all[p].0 == id);
            }
        }
        assert forall|id: u32| buckets@.contains_key(id) implies buckets@[id] == target[id] by {
            if arrives(pairs, moved@, id) {
                let from = pairs[id];
                assert(moved@.contains_key(from));
                let p = choose|p: int| 0 <= p < all.len() && (#[trigger] all[p]).0 == moved@[from];
                assert(all[p].0 == id);
                assert(buckets@[all[p].0] == all[p].1);
            } else {
                if exists|p: int| 0 <= p < all.len() && (#[trigger] all[p]).0 == id {
                    let p = choose|p: int| 0 <= p < all.len() && (#[trigger] all[p]).0 == id;
                    assert(arrives(pairs, moved@, all[p].0));
                }
            }
        }
        assert(buckets@ =~= target);
    }
    moved
}

} // verus!
