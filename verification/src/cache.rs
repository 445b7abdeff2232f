//! Cache reconciliation: fold the durable definitions into a fresh snapshot,
//! reusing the live instance when the identity is already cached and
//! instantiating through the registry when it is not, counting what was
//! inserted, removed and failed.

use vstd::prelude::*;

use crate::account::{Account, AccountPositions};
use crate::instruments::{from_share, Instrument, ShareFields};
use crate::position_manager::{
    PositionManagerInstance, PositionManagerInstanceDefinition, PositionManagerRegistry,
};
use crate::strategy::{
    has_factory, lemma_create_ok_cases, spec_create_ok, spec_instantiable, StrategyInstance,
    StrategyInstanceDefinition, StrategyRegistry,
};

verus! {

/// The entry a cache value binds to a key.
pub open spec fn cache_lookup<E>(entries: Seq<(u128, E)>, id: u128) -> Option<E>
    decreases entries.len(),
{
    if entries.len() == 0 {
        None
    } else if entries.last().0 == id {
        Some(entries.last().1)
    } else {
        cache_lookup(entries.drop_last(), id)
    }
}

/// Pairwise distinct keys.
pub open spec fn distinct_keys<E>(entries: Seq<(u128, E)>) -> bool {
    forall|i: int, j: int|
        0 <= i < j < entries.len() ==> (#[trigger] entries[i]).0 != (#[trigger] entries[j]).0
}

/// Removing one entry of a distinct-key list forgets exactly its key.
proof fn lemma_cache_remove<E>(entries: Seq<(u128, E)>, i: int)
    requires
        distinct_keys(entries),
        0 <= i < entries.len(),
    ensures
        forall|id: u128| #![trigger cache_lookup(entries.remove(i), id)]
            cache_lookup(entries.remove(i), id) == if id == entries[i].0 {
                None::<E>
            } else {
                cache_lookup(entries, id)
            },
        distinct_keys(entries.remove(i)),
    decreases entries.len(),
{
    assert forall|a: int, b: int| 0 <= a < b < entries.remove(i).len() implies (
    #[trigger] entries.remove(i)[a]).0 != (#[trigger] entries.remove(i)[b]).0 by {
        let a2 = if a < i {
            a
        } else {
            a + 1
        };
        let b2 = if b < i {
            b
        } else {
            b + 1
        };
        assert(entries[a2].0 != entries[b2].0);
    }
    assert forall|id: u128|
        cache_lookup(#[trigger] entries.remove(i), id) == (if id == entries[i].0 {
            None::<E>
        } else {
            cache_lookup(entries, id)
        }) by {
        lemma_cache_remove_one(entries, i, id);
    }
}

/// The single-key version of the removal fact.
proof fn lemma_cache_remove_one<E>(entries: Seq<(u128, E)>, i: int, id: u128)
    requires
        distinct_keys(entries),
        0 <= i < entries.len(),
    ensures
        cache_lookup(entries.remove(i), id) == if id == entries[i].0 {
            None::<E>
        } else {
            cache_lookup(entries, id)
        },
    decreases entries.len(),
{
    if i == entries.len() - 1 {
        assert(entries.remove(i) =~= entries.drop_last());
        if id == entries[i].0 {
            lemma_cache_absent(entries.drop_last(), id, entries, i);
        }
    } else {
        assert(entries.remove(i).drop_last() =~= entries.drop_last().remove(i));
        assert(entries.remove(i).last() == entries.last());
        assert(entries.drop_last() =~= entries.take(entries.len() - 1));
        lemma_cache_remove_one(entries.drop_last(), i, id);
    }
}

/// A key no remaining entry carries is not found.
proof fn lemma_cache_absent<E>(entries: Seq<(u128, E)>, id: u128, orig: Seq<(u128, E)>, skip: int)
    requires
        distinct_keys(orig),
        0 <= skip < orig.len(),
        id == orig[skip].0,
        entries.len() <= skip,
        forall|k: int| 0 <= k < entries.len() ==> #[trigger] entries[k] == orig[k],
    ensures
        cache_lookup(entries, id) is None,
    decreases entries.len(),
{
    if entries.len() > 0 {
        assert(entries.last().0 == orig[entries.len() - 1].0);
        assert(orig[entries.len() - 1].0 != orig[skip].0);
        assert(entries.drop_last() =~= entries.take(entries.len() - 1));
        lemma_cache_absent(entries.drop_last(), id, orig, skip);
    }
}

/// Take the entry under `id` out of the cache, if any.
fn take_entry<E>(entries: &mut Vec<(u128, E)>, id: u128) -> (r: Option<E>)
    requires
        distinct_keys(old(entries)@),
    ensures
        distinct_keys(final(entries)@),
        match r {
            Some(e) => cache_lookup(old(entries)@, id) == Some(e) && (forall|id2: u128|
                #![trigger cache_lookup(final(entries)@, id2)]
                cache_lookup(final(entries)@, id2) == if id2 == id {
                    None::<E>
                } else {
                    cache_lookup(old(entries)@, id2)
                }) && final(entries)@.len() + 1 == old(entries)@.len(),
            None => cache_lookup(old(entries)@, id) is None && *final(entries) == *old(entries),
        },
{
    let n = entries.len();
    let mut i: usize = 0;
    while i < n
        invariant
            i <= n,
            n == entries@.len(),
            *entries == *old(entries),
            distinct_keys(old(entries)@),
            forall|k: int| 0 <= k < i ==> (#[trigger] entries@[k]).0 != id,
        decreases n - i,
    {
        if entries[i].0 == id {
            proof {
                lemma_cache_remove(entries@, i as int);
                lemma_cache_hit(entries@, i as int);
            }
            let (_, e) = entries.remove(i);
            return Some(e);
        }
        i += 1;
    }
    proof {
        lemma_cache_absent_all(entries@, id);
    }
    None
}

/// A present key is found with its entry.
proof fn lemma_cache_hit<E>(entries: Seq<(u128, E)>, i: int)
    requires
        distinct_keys(entries),
        0 <= i < entries.len(),
    ensures
        cache_lookup(entries, entries[i].0) == Some(entries[i].1),
    decreases entries.len(),
{
    if i == entries.len() - 1 {
    } else {
        assert(entries.last().0 != entries[i].0);
        assert(entries.drop_last() =~= entries.take(entries.len() - 1));
        lemma_cache_hit(entries.drop_last(), i);
    }
}

/// A key no entry carries is not found.
proof fn lemma_cache_absent_all<E>(entries: Seq<(u128, E)>, id: u128)
    requires
        forall|k: int| 0 <= k < entries.len() ==> (#[trigger] entries[k]).0 != id,
    ensures
        cache_lookup(entries, id) is None,
    decreases entries.len(),
{
    if entries.len() > 0 {
        assert(entries.drop_last() =~= entries.take(entries.len() - 1));
        lemma_cache_absent_all(entries.drop_last(), id);
    }
}

/// Is this identity among the definitions' keys?
pub open spec fn key_of_defs(defs: Seq<(u128, StrategyInstanceDefinition)>, id: u128) -> bool {
    exists|d: int| 0 <= d < defs.len() && (#[trigger] defs[d]).0 == id
}

/// Is this identity bound in a snapshot?
pub open spec fn key_in_state<E>(state: Seq<(u128, E)>, id: u128) -> bool {
    exists|k: int| 0 <= k < state.len() && (#[trigger] state[k]).0 == id
}

/// What one reconciliation reports.
pub struct CacheCounts {
    pub inserted: usize,
    pub removed: usize,
    pub failed: usize,
}

/// One strategy-cache tick: fold the durable definitions, keyed by their
/// identity, into a fresh snapshot. A cached identity keeps its live
/// instance; a new identity is instantiated through the registry; whatever
/// the definitions no longer name is dropped. A definition's key is in the
/// snapshot exactly when it was cached or its strategy can be built, so the
/// failure count is pinned: the definitions that are neither. The removal
/// count is the previous size less the reused entries.
pub fn strategy_cache_step(
    prev: Vec<(u128, (StrategyInstanceDefinition, StrategyInstance))>,
    defs: Vec<(u128, StrategyInstanceDefinition)>,
    registry: &StrategyRegistry,
) -> (r: (Vec<(u128, (StrategyInstanceDefinition, StrategyInstance))>, CacheCounts))
    requires
        registry.well_formed(),
        distinct_keys(prev@),
        distinct_keys(defs@),
    ensures
        ({
            let state = r.0@;
            let counts = r.1;
            &&& distinct_keys(state)
            &&& state.len() + counts.failed == defs@.len()
            &&& counts.inserted <= state.len()
            &&& counts.removed + (state.len() - counts.inserted) == prev@.len()
            &&& forall|k: int| 0 <= k < state.len() ==> key_of_defs(defs@, (#[trigger] state[k]).0)
            &&& forall|k: int|
                0 <= k < state.len() ==> match cache_lookup(prev@, (#[trigger] state[k]).0) {
                    Some(e) => state[k].1 == e,
                    None => has_factory(registry.factories@, state[k].1.0.strategy_name@) && ({
                        let i = choose|i: int|
                            0 <= i < registry.factories@.len() && (
                            #[trigger] registry.factories@[i]).spec_strategy_name()
                                == state[k].1.0.strategy_name@;
                        spec_create_ok(
                            registry.factories@[i],
                            state[k].1.0.params@,
                            Ok(state[k].1.1),
                        )
                    }),
                }
            &&& forall|d: int|
                0 <= d < defs@.len() ==> (key_in_state(state, (#[trigger] defs@[d]).0) <==> (
                cache_lookup(prev@, defs@[d].0) is Some || spec_instantiable(
                    registry.factories@,
                    defs@[d].1,
                )))
        }),
{
    let mut remaining = prev;
    let ghost prev_seq = remaining@;
    let mut state: Vec<(u128, (StrategyInstanceDefinition, StrategyInstance))> = Vec::new();
    let mut inserted: usize = 0;
    let mut failed: usize = 0;
    let mut reused: usize = 0;
    let mut rest = defs;
    let n = rest.len();
    let ghost defs_seq = rest@;
    let mut d: usize = 0;
    while d < n
        invariant
            d <= n,
            n == defs_seq.len(),
            rest@.len() == n - d,
            forall|d2: int| 0 <= d2 < rest@.len() ==> #[trigger] rest@[d2] == defs_seq[d + d2],
            registry.well_formed(),
            distinct_keys(defs_seq),
            distinct_keys(remaining@),
            distinct_keys(state@),
            state@.len() == reused + inserted,
            reused + inserted + failed == d,
            remaining@.len() + reused == prev_seq.len(),
            forall|id: u128| #![trigger cache_lookup(remaining@, id)]
                cache_lookup(remaining@, id) == if exists|k: int|
                    0 <= k < state@.len() && (#[trigger] state@[k]).0 == id {
                    None::<(StrategyInstanceDefinition, StrategyInstance)>
                } else {
                    cache_lookup(prev_seq, id)
                },
            forall|k: int| 0 <= k < state@.len() ==> key_of_defs(
                defs_seq.take(d as int),
                (#[trigger] state@[k]).0,
            ),
            forall|k: int|
                0 <= k < state@.len() ==> match cache_lookup(prev_seq, (#[trigger] state@[k]).0) {
                    Some(e) => state@[k].1 == e,
                    None => has_factory(registry.factories@, state@[k].1.0.strategy_name@) && ({
                        let i = choose|i: int|
                            0 <= i < registry.factories@.len() && (
                            #[trigger] registry.factories@[i]).spec_strategy_name()
                                == state@[k].1.0.strategy_name@;
                        spec_create_ok(
                            registry.factories@[i],
                            state@[k].1.0.params@,
                            Ok(state@[k].1.1),
                        )
                    }),
                },
            forall|d2: int|
                0 <= d2 < d ==> (key_in_state(state@, (#[trigger] defs_seq[d2]).0) <==> (
                cache_lookup(prev_seq, defs_seq[d2].0) is Some || spec_instantiable(
                    registry.factories@,
                    defs_seq[d2].1,
                ))),
        decreases n - d,
    {
        let (id, def) = rest.remove(0);
        proof {
            assert((id, def) == defs_seq[d as int]);
            assert forall|k: int| 0 <= k < state@.len() implies (#[trigger] state@[k]).0 != id by {
                assert(key_of_defs(defs_seq.take(d as int), state@[k].0));
                let d2 = choose|d2: int|
                    0 <= d2 < defs_seq.take(d as int).len() && (#[trigger] defs_seq.take(
                        d as int,
                    )[d2]).0 == state@[k].0;
                assert(defs_seq[d2].0 != defs_seq[d as int].0);
            }
        }
        let ghost pre_state = state@;
        let ghost mut current_bound = false;
        match take_entry(&mut remaining, id) {
            Some(entry) => {
                proof {
                    // A hit in the shrinking pool is a hit in the previous
                    // snapshot: nothing under this key was taken out before.
                    assert(cache_lookup(prev_seq, id) is Some);
                }
                state.push((id, entry));
                reused += 1;
                proof {
                    current_bound = true;
                }
            },
            None => {
                proof {
                    assert(cache_lookup(prev_seq, id) is None);
                }
                let created = registry.instantiate_strategy(&def);
                proof {
                    if has_factory(registry.factories@, def.strategy_name@) {
                        let i = choose|i: int|
                            0 <= i < registry.factories@.len() && (
                            #[trigger] registry.factories@[i]).spec_strategy_name()
                                == def.strategy_name@;
                        lemma_create_ok_cases(registry.factories@[i], def.params@, created);
                        assert(created is Ok <==> spec_instantiable(registry.factories@, def));
                    } else {
                        assert(created is Err);
                        assert(!spec_instantiable(registry.factories@, def));
                    }
                }
                match created {
                    Ok(instance) => {
                        state.push((id, (def, instance)));
                        inserted += 1;
                        proof {
                            current_bound = true;
                        }
                    },
                    Err(_) => {
                        failed += 1;
                    },
                }
            },
        }
        proof {
            assert(defs_seq.take(d as int + 1)[d as int].0 == id);
            if state@.len() > pre_state.len() {
                assert(state@[state@.len() - 1].0 == id);
                assert(current_bound);
                assert(key_in_state(state@, id));
            } else {
                assert(!current_bound);
                assert forall|k: int| 0 <= k < state@.len() implies (#[trigger] state@[k]).0
                    != id by {}
                assert(!key_in_state(state@, id));
            }
            assert forall|k: int| 0 <= k < state@.len() implies key_of_defs(
                defs_seq.take(d as int + 1),
                (#[trigger] state@[k]).0,
            ) by {
                if k < pre_state.len() {
                    assert(key_of_defs(defs_seq.take(d as int), pre_state[k].0));
                    let d2 = choose|d2: int|
                        0 <= d2 < defs_seq.take(d as int).len() && (#[trigger] defs_seq.take(
                            d as int,
                        )[d2]).0 == pre_state[k].0;
                    assert(defs_seq.take(d as int + 1)[d2].0 == state@[k].0);
                } else {
                    assert(defs_seq.take(d as int + 1)[d as int].0 == state@[k].0);
                }
            }
            assert forall|d2: int| 0 <= d2 < d + 1 implies (key_in_state(
                state@,
                (#[trigger] defs_seq[d2]).0,
            ) <==> (cache_lookup(prev_seq, defs_seq[d2].0) is Some || spec_instantiable(
                registry.factories@,
                defs_seq[d2].1,
            ))) by {
                if d2 < d as int {
                    // Other keys keep their membership either way.
                    assert(defs_seq[d2].0 != id);
                    if key_in_state(pre_state, defs_seq[d2].0) {
                        let k = choose|k: int|
                            0 <= k < pre_state.len() && (#[trigger] pre_state[k]).0
                                == defs_seq[d2].0;
                        assert(state@[k].0 == defs_seq[d2].0);
                        assert(key_in_state(state@, defs_seq[d2].0));
                    }
                    if key_in_state(state@, defs_seq[d2].0) {
                        let k = choose|k: int|
                            0 <= k < state@.len() && (#[trigger] state@[k]).0 == defs_seq[d2].0;
                        assert(k < pre_state.len());
                        assert(pre_state[k].0 == defs_seq[d2].0);
                        assert(key_in_state(pre_state, defs_seq[d2].0));
                    }
                }
            }
        }
        d += 1;
    }
    let removed = remaining.len();
    proof {
        assert(defs_seq.take(n as int) =~= defs_seq);
    }
    (state, CacheCounts { inserted, removed, failed })
}

/// One position-manager-cache tick, mirroring the strategy cache: reuse
/// cached instances by identity, instantiate new identities through the
/// registry, drop the rest, with the same counting. A definition's key is in
/// the snapshot exactly when it was cached or names the registered manager.
pub fn position_manager_cache_step(
    prev: Vec<(u128, (PositionManagerInstanceDefinition, PositionManagerInstance))>,
    defs: Vec<(u128, PositionManagerInstanceDefinition)>,
    registry: &PositionManagerRegistry,
) -> (r: (Vec<(u128, (PositionManagerInstanceDefinition, PositionManagerInstance))>, CacheCounts))
    requires
        distinct_keys(prev@),
        distinct_keys(defs@),
    ensures
        ({
            let state = r.0@;
            let counts = r.1;
            &&& distinct_keys(state)
            &&& state.len() + counts.failed == defs@.len()
            &&& counts.inserted <= state.len()
            &&& counts.removed + (state.len() - counts.inserted) == prev@.len()
            &&& forall|k: int|
                0 <= k < state.len() ==> pm_key_of_defs(defs@, (#[trigger] state[k]).0)
            &&& forall|k: int|
                0 <= k < state.len() ==> match cache_lookup(prev@, (#[trigger] state[k]).0) {
                    Some(e) => state[k].1 == e,
                    None => state[k].1.0.position_manager_name@
                        == registry.factory.definition.position_manager_name@ && state[
                        k].1.1 is Quorum,
                }
            &&& forall|d: int|
                0 <= d < defs@.len() ==> (key_in_state(state, (#[trigger] defs@[d]).0) <==> (
                cache_lookup(prev@, defs@[d].0) is Some || defs@[d].1.position_manager_name@
                    == registry.factory.definition.position_manager_name@))
        }),
{
    let mut remaining = prev;
    let ghost prev_seq = remaining@;
    let mut state: Vec<(u128, (PositionManagerInstanceDefinition, PositionManagerInstance))> =
        Vec::new();
    let mut inserted: usize = 0;
    let mut failed: usize = 0;
    let mut reused: usize = 0;
    let mut rest = defs;
    let n = rest.len();
    let ghost defs_seq = rest@;
    let mut d: usize = 0;
    while d < n
        invariant
            d <= n,
            n == defs_seq.len(),
            rest@.len() == n - d,
            forall|d2: int| 0 <= d2 < rest@.len() ==> #[trigger] rest@[d2] == defs_seq[d + d2],
            distinct_keys(defs_seq),
            distinct_keys(remaining@),
            distinct_keys(state@),
            state@.len() == reused + inserted,
            reused + inserted + failed == d,
            remaining@.len() + reused == prev_seq.len(),
            forall|id: u128| #![trigger cache_lookup(remaining@, id)]
                cache_lookup(remaining@, id) == if exists|k: int|
                    0 <= k < state@.len() && (#[trigger] state@[k]).0 == id {
                    None::<(PositionManagerInstanceDefinition, PositionManagerInstance)>
                } else {
                    cache_lookup(prev_seq, id)
                },
            forall|k: int| 0 <= k < state@.len() ==> pm_key_of_defs(
                defs_seq.take(d as int),
                (#[trigger] state@[k]).0,
            ),
            forall|k: int|
                0 <= k < state@.len() ==> match cache_lookup(prev_seq, (#[trigger] state@[k]).0) {
                    Some(e) => state@[k].1 == e,
                    None => state@[k].1.0.position_manager_name@
                        == registry.factory.definition.position_manager_name@ && state@[
                    k].1.1 is Quorum,
                },
            forall|d2: int|
                0 <= d2 < d ==> (key_in_state(state@, (#[trigger] defs_seq[d2]).0) <==> (
                cache_lookup(prev_seq, defs_seq[d2].0) is Some || defs_seq[
                d2].1.position_manager_name@
                    == registry.factory.definition.position_manager_name@)),
        decreases n - d,
    {
        let (id, def) = rest.remove(0);
        proof {
            assert((id, def) == defs_seq[d as int]);
            assert forall|k: int| 0 <= k < state@.len() implies (#[trigger] state@[k]).0 != id by {
                assert(pm_key_of_defs(defs_seq.take(d as int), state@[k].0));
                let d2 = choose|d2: int|
                    0 <= d2 < defs_seq.take(d as int).len() && (#[trigger] defs_seq.take(
                        d as int,
                    )[d2]).0 == state@[k].0;
                assert(defs_seq[d2].0 != defs_seq[d as int].0);
            }
        }
        let ghost pre_state = state@;
        let ghost mut current_bound = false;
        match take_entry(&mut remaining, id) {
            Some(entry) => {
                proof {
                    assert(cache_lookup(prev_seq, id) is Some);
                }
                state.push((id, entry));
                reused += 1;
                proof {
                    current_bound = true;
                }
            },
            None => {
                proof {
                    assert(cache_lookup(prev_seq, id) is None);
                }
                match registry.instantiate_position_manager(&def) {
                    Ok(instance) => {
                        state.push((id, (def, instance)));
                        inserted += 1;
                        proof {
                            current_bound = true;
                        }
                    },
                    Err(_) => {
                        failed += 1;
                    },
                }
            },
        }
        proof {
            assert(defs_seq.take(d as int + 1)[d as int].0 == id);
            if state@.len() > pre_state.len() {
                assert(state@[state@.len() - 1].0 == id);
                assert(current_bound);
                assert(key_in_state(state@, id));
            } else {
                assert(!current_bound);
                assert forall|k: int| 0 <= k < state@.len() implies (#[trigger] state@[k]).0
                    != id by {}
                assert(!key_in_state(state@, id));
            }
            assert forall|k: int| 0 <= k < state@.len() implies pm_key_of_defs(
                defs_seq.take(d as int + 1),
                (#[trigger] state@[k]).0,
            ) by {
                if k < pre_state.len() {
                    assert(pm_key_of_defs(defs_seq.take(d as int), pre_state[k].0));
                    let d2 = choose|d2: int|
                        0 <= d2 < defs_seq.take(d as int).len() && (#[trigger] defs_seq.take(
                            d as int,
                        )[d2]).0 == pre_state[k].0;
                    assert(defs_seq.take(d as int + 1)[d2].0 == state@[k].0);
                } else {
                    assert(defs_seq.take(d as int + 1)[d as int].0 == state@[k].0);
                }
            }
            assert forall|d2: int| 0 <= d2 < d + 1 implies (key_in_state(
                state@,
                (#[trigger] defs_seq[d2]).0,
            ) <==> (cache_lookup(prev_seq, defs_seq[d2].0) is Some || defs_seq[
            d2].1.position_manager_name@
                == registry.factory.definition.position_manager_name@)) by {
                if d2 < d as int {
                    assert(defs_seq[d2].0 != id);
                    if key_in_state(pre_state, defs_seq[d2].0) {
                        let k = choose|k: int|
                            0 <= k < pre_state.len() && (#[trigger] pre_state[k]).0
                                == defs_seq[d2].0;
                        assert(state@[k].0 == defs_seq[d2].0);
                        assert(key_in_state(state@, defs_seq[d2].0));
                    }
                    if key_in_state(state@, defs_seq[d2].0) {
                        let k = choose|k: int|
                            0 <= k < state@.len() && (#[trigger] state@[k]).0 == defs_seq[d2].0;
                        assert(k < pre_state.len());
                        assert(pre_state[k].0 == defs_seq[d2].0);
                        assert(key_in_state(pre_state, defs_seq[d2].0));
                    }
                }
            }
        }
        d += 1;
    }
    let removed = remaining.len();
    proof {
        assert(defs_seq.take(n as int) =~= defs_seq);
    }
    (state, CacheCounts { inserted, removed, failed })
}

/// Is this identity among the definitions' keys?
pub open spec fn pm_key_of_defs(
    defs: Seq<(u128, PositionManagerInstanceDefinition)>,
    id: u128,
) -> bool {
    exists|d: int| 0 <= d < defs.len() && (#[trigger] defs[d]).0 == id
}

/// The periodic that keeps the strategy cache fresh: each tick folds the
/// durable definitions through the registry.
pub struct StrategyCachePeriodic {
    pub registry: StrategyRegistry,
}

impl StrategyCachePeriodic {
    pub fn new(registry: StrategyRegistry) -> (r: Self)
        ensures
            r.registry == registry,
    {
        StrategyCachePeriodic { registry }
    }

    /// One tick: reconcile the previous snapshot with the definitions,
    /// exactly as the underlying reconciliation promises.
    pub fn step(
        &self,
        prev: Vec<(u128, (StrategyInstanceDefinition, StrategyInstance))>,
        defs: Vec<(u128, StrategyInstanceDefinition)>,
    ) -> (r: (Vec<(u128, (StrategyInstanceDefinition, StrategyInstance))>, CacheCounts))
        requires
            self.registry.well_formed(),
            distinct_keys(prev@),
            distinct_keys(defs@),
        ensures
            ({
                let state = r.0@;
                let counts = r.1;
                &&& distinct_keys(state)
                &&& state.len() + counts.failed == defs@.len()
                &&& counts.inserted <= state.len()
                &&& counts.removed + (state.len() - counts.inserted) == prev@.len()
                &&& forall|k: int|
                    0 <= k < state.len() ==> key_of_defs(defs@, (#[trigger] state[k]).0)
                &&& forall|k: int|
                    0 <= k < state.len() ==> match cache_lookup(prev@, (#[trigger] state[k]).0) {
                        Some(e) => state[k].1 == e,
                        None => has_factory(
                            self.registry.factories@,
                            state[k].1.0.strategy_name@,
                        ) && ({
                            let i = choose|i: int|
                                0 <= i < self.registry.factories@.len() && (
                                #[trigger] self.registry.factories@[i]).spec_strategy_name()
                                    == state[k].1.0.strategy_name@;
                            spec_create_ok(
                                self.registry.factories@[i],
                                state[k].1.0.params@,
                                Ok(state[k].1.1),
                            )
                        }),
                    }
                &&& forall|d: int|
                    0 <= d < defs@.len() ==> (key_in_state(state, (#[trigger] defs@[d]).0) <==> (
                    cache_lookup(prev@, defs@[d].0) is Some || spec_instantiable(
                        self.registry.factories@,
                        defs@[d].1,
                    )))
            }),
    {
        strategy_cache_step(prev, defs, &self.registry)
    }
}

/// The periodic that keeps the position-manager cache fresh.
pub struct PositionManagerCachePeriodic {
    pub registry: PositionManagerRegistry,
}

impl PositionManagerCachePeriodic {
    pub fn new(registry: PositionManagerRegistry) -> (r: Self)
        ensures
            r.registry == registry,
    {
        PositionManagerCachePeriodic { registry }
    }

    /// One tick: reconcile the previous snapshot with the definitions,
    /// exactly as the underlying reconciliation promises.
    pub fn step(
        &self,
        prev: Vec<(u128, (PositionManagerInstanceDefinition, PositionManagerInstance))>,
        defs: Vec<(u128, PositionManagerInstanceDefinition)>,
    ) -> (r: (Vec<(u128, (PositionManagerInstanceDefinition, PositionManagerInstance))>, CacheCounts))
        requires
            distinct_keys(prev@),
            distinct_keys(defs@),
        ensures
            ({
                let state = r.0@;
                let counts = r.1;
                &&& distinct_keys(state)
                &&& state.len() + counts.failed == defs@.len()
                &&& counts.inserted <= state.len()
                &&& counts.removed + (state.len() - counts.inserted) == prev@.len()
                &&& forall|k: int|
                    0 <= k < state.len() ==> pm_key_of_defs(defs@, (#[trigger] state[k]).0)
                &&& forall|k: int|
                    0 <= k < state.len() ==> match cache_lookup(prev@, (#[trigger] state[k]).0) {
                        Some(e) => state[k].1 == e,
                        None => state[k].1.0.position_manager_name@
                            == self.registry.factory.definition.position_manager_name@ && state[
                        k].1.1 is Quorum,
                    }
                &&& forall|d: int|
                    0 <= d < defs@.len() ==> (key_in_state(state, (#[trigger] defs@[d]).0) <==> (
                    cache_lookup(prev@, defs@[d].0) is Some || defs@[d].1.position_manager_name@
                        == self.registry.factory.definition.position_manager_name@))
            }),
    {
        position_manager_cache_step(prev, defs, &self.registry)
    }
}

/// The account a cache holds under this id, if any.
pub open spec fn account_lookup(s: Seq<Account>, id: Seq<char>) -> Option<Account>
    decreases s.len(),
{
    if s.len() == 0 {
        None
    } else if s.last().id@ == id {
        Some(s.last())
    } else {
        account_lookup(s.drop_last(), id)
    }
}

/// The periodic that mirrors the brokerage's account list.
pub struct AccountsCachePeriodic {}

impl AccountsCachePeriodic {
    pub fn new() -> AccountsCachePeriodic {
        AccountsCachePeriodic {  }
    }

    /// One tick: a successful listing replaces the snapshot, keyed by
    /// account id with the later entry winning; a failed listing keeps the
    /// previous snapshot.
    pub fn step(&self, fetched: Option<Vec<Account>>, prev: Vec<Account>) -> (r: Vec<Account>)
        ensures
            match fetched {
                Some(list) => (forall|id: Seq<char>|
                    #![trigger account_lookup(r@, id)]
                    account_lookup(r@, id) == account_lookup(list@, id)) && (forall|
                    i: int,
                    j: int,
                |
                    0 <= i < j < r@.len() ==> (#[trigger] r@[i]).id@ != (#[trigger] r@[j]).id@),
                None => r == prev,
            },
    {
        let list = match fetched {
            Some(list) => list,
            None => {
                return prev;
            },
        };
        let ghost list_seq = list@;
        let mut rest = list;
        let mut out: Vec<Account> = Vec::new();
        let n = rest.len();
        let mut i: usize = 0;
        proof {
            assert(list_seq.take(0) =~= Seq::<Account>::empty());
        }
        while i < n
            invariant
                i <= n,
                n == list_seq.len(),
                rest@.len() == n - i,
                forall|k: int| 0 <= k < rest@.len() ==> #[trigger] rest@[k] == list_seq[i + k],
                forall|a: int, b: int|
                    0 <= a < b < out@.len() ==> (#[trigger] out@[a]).id@ != (
                    #[trigger] out@[b]).id@,
                forall|id: Seq<char>| #![trigger account_lookup(out@, id)]
                    account_lookup(out@, id) == account_lookup(list_seq.take(i as int), id),
            decreases n - i,
        {
            let acc = rest.remove(0);
            proof {
                assert(acc == list_seq[i as int]);
                assert(list_seq.take(i as int + 1).drop_last() =~= list_seq.take(i as int));
                assert(list_seq.take(i as int + 1).last() == list_seq[i as int]);
            }
            let ghost pre = out@;
            let m = out.len();
            let mut k: usize = 0;
            let mut pos: Option<usize> = None;
            while k < m && pos.is_none()
                invariant
                    k <= m,
                    m == out@.len(),
                    out@ == pre,
                    pos is None ==> forall|l: int|
                        0 <= l < k ==> (#[trigger] out@[l]).id@ != acc.id@,
                    pos is Some ==> pos->0 < out@.len() && out@[pos->0 as int].id@ == acc.id@,
                decreases m - k,
            {
                if out[k].id.matches(&acc.id) {
                    pos = Some(k);
                }
                k += 1;
            }
            match pos {
                Some(idx) => {
                    out[idx] = acc;
                    proof {
                        assert(out@ == pre.update(idx as int, list_seq[i as int]));
                        assert forall|a: int, b: int|
                            0 <= a < b < out@.len() implies (#[trigger] out@[a]).id@ != (
                        #[trigger] out@[b]).id@ by {
                            assert(pre[a].id@ != pre[b].id@);
                        }
                    }
                },
                None => {
                    out.push(acc);
                    proof {
                        assert forall|a: int, b: int|
                            0 <= a < b < out@.len() implies (#[trigger] out@[a]).id@ != (
                        #[trigger] out@[b]).id@ by {
                            if b < out@.len() - 1 {
                                assert(pre[a].id@ != pre[b].id@);
                            } else {
                                assert(out@[a] == pre[a]);
                            }
                        }
                    }
                },
            }
            proof {
                lemma_account_upsert(pre, out@, list_seq[i as int]);
                assert forall|id: Seq<char>|
                    account_lookup(#[trigger] out@, id) == account_lookup(
                    list_seq.take(i as int + 1),
                    id,
                ) by {
                    if id != list_seq[i as int].id@ {
                        assert(account_lookup(list_seq.take(i as int + 1), id) == account_lookup(
                            list_seq.take(i as int),
                            id,
                        ));
                    }
                }
            }
            i += 1;
        }
        proof {
            assert(list_seq.take(n as int) =~= list_seq);
        }
        out
    }
}

/// An upsert rebinds exactly its key.
proof fn lemma_account_upsert(pre: Seq<Account>, post: Seq<Account>, acc: Account)
    requires
        forall|a: int, b: int|
            0 <= a < b < pre.len() ==> (#[trigger] pre[a]).id@ != (#[trigger] pre[b]).id@,
        post == pre.push(acc) || exists|k: int|
            0 <= k < pre.len() && (#[trigger] pre[k]).id@ == acc.id@ && post == pre.update(k, acc),
    ensures
        forall|id: Seq<char>| #![trigger account_lookup(post, id)]
            account_lookup(post, id) == if id == acc.id@ {
                Some(acc)
            } else {
                account_lookup(pre, id)
            },
{
    if post == pre.push(acc) {
        assert forall|id: Seq<char>| #[trigger] account_lookup(post, id) == (if id == acc.id@ {
            Some(acc)
        } else {
            account_lookup(pre, id)
        }) by {
            assert(post.drop_last() =~= pre);
            assert(post.last() == acc);
        }
    } else {
        let k = choose|k: int|
            0 <= k < pre.len() && (#[trigger] pre[k]).id@ == acc.id@ && post == pre.update(k, acc);
        assert forall|id: Seq<char>| #[trigger] account_lookup(post, id) == (if id == acc.id@ {
            Some(acc)
        } else {
            account_lookup(pre, id)
        }) by {
            lemma_account_update(pre, k, acc, id);
        }
    }
}

/// Updating one key of a distinct-key account list changes that key alone.
proof fn lemma_account_update(pre: Seq<Account>, k: int, acc: Account, id: Seq<char>)
    requires
        forall|a: int, b: int|
            0 <= a < b < pre.len() ==> (#[trigger] pre[a]).id@ != (#[trigger] pre[b]).id@,
        0 <= k < pre.len(),
        pre[k].id@ == acc.id@,
    ensures
        account_lookup(pre.update(k, acc), id) == if id == acc.id@ {
            Some(acc)
        } else {
            account_lookup(pre, id)
        },
    decreases pre.len(),
{
    let post = pre.update(k, acc);
    if k == pre.len() - 1 {
        assert(post.drop_last() =~= pre.drop_last());
        assert(post.last() == acc);
        if id == acc.id@ {
        } else {
            assert(account_lookup(pre, id) == account_lookup(pre.drop_last(), id));
        }
    } else {
        assert(post.drop_last() =~= pre.drop_last().update(k, acc));
        assert(post.last() == pre.last());
        assert(pre.drop_last() =~= pre.take(pre.len() - 1));
        assert forall|a: int, b: int|
            0 <= a < b < pre.drop_last().len() implies (#[trigger] pre.drop_last()[a]).id@ != (
        #[trigger] pre.drop_last()[b]).id@ by {
            assert(pre[a].id@ != pre[b].id@);
        }
        lemma_account_update(pre.drop_last(), k, acc, id);
        assert(pre.last().id@ != acc.id@);
    }
}

/// The periodic that converts and forwards the brokerage's share listing.
pub struct InstrumentSyncPeriodic {}

impl InstrumentSyncPeriodic {
    pub fn new() -> InstrumentSyncPeriodic {
        InstrumentSyncPeriodic {  }
    }

    /// Turn one listing into instruments, entry by entry.
    pub fn convert_shares(&self, shares: Vec<ShareFields>) -> (r: Vec<Instrument>)
        ensures
            r@.len() == shares@.len(),
            forall|k: int|
                0 <= k < r@.len() ==> (#[trigger] r@[k]).figi@ == shares@[k].figi@ && r@[k].ticker@
                    == shares@[k].ticker@ && r@[k].display_name@ == shares@[k].name@,
    {
        let ghost shares_seq = shares@;
        let mut rest = shares;
        let mut out: Vec<Instrument> = Vec::new();
        let n = rest.len();
        let mut i: usize = 0;
        while i < n
            invariant
                i <= n,
                n == shares_seq.len(),
                rest@.len() == n - i,
                forall|k: int| 0 <= k < rest@.len() ==> #[trigger] rest@[k] == shares_seq[i + k],
                out@.len() == i,
                forall|k: int|
                    0 <= k < i ==> (#[trigger] out@[k]).figi@ == shares_seq[k].figi@
                        && out@[k].ticker@ == shares_seq[k].ticker@ && out@[k].display_name@
                        == shares_seq[k].name@,
            decreases n - i,
        {
            let share = rest.remove(0);
            proof {
                assert(share == shares_seq[i as int]);
            }
            out.push(from_share(share));
            i += 1;
        }
        out
    }
}

/// The instrument a cache holds under this figi, if any.
pub open spec fn instrument_lookup(s: Seq<Instrument>, figi: Seq<char>) -> Option<Instrument>
    decreases s.len(),
{
    if s.len() == 0 {
        None
    } else if s.last().figi@ == figi {
        Some(s.last())
    } else {
        instrument_lookup(s.drop_last(), figi)
    }
}

/// The periodic that mirrors the instrument list read from the store. Its
/// tick keys the instruments by figi, later entries winning.
pub struct InstrumentCachePeriodic {}

impl InstrumentCachePeriodic {
    pub fn new() -> InstrumentCachePeriodic {
        InstrumentCachePeriodic {  }
    }

    /// One tick: key the instruments read from the store by figi.
    pub fn step(&self, list: Vec<Instrument>) -> (r: Vec<Instrument>)
        ensures
            forall|figi: Seq<char>| #![trigger instrument_lookup(r@, figi)]
                instrument_lookup(r@, figi) == instrument_lookup(list@, figi),
            forall|i: int, j: int|
                0 <= i < j < r@.len() ==> (#[trigger] r@[i]).figi@ != (#[trigger] r@[j]).figi@,
    {
        let ghost list_seq = list@;
        let mut rest = list;
        let mut out: Vec<Instrument> = Vec::new();
        let n = rest.len();
        let mut i: usize = 0;
        proof {
            assert(list_seq.take(0) =~= Seq::<Instrument>::empty());
        }
        while i < n
            invariant
                i <= n,
                n == list_seq.len(),
                rest@.len() == n - i,
                forall|k: int| 0 <= k < rest@.len() ==> #[trigger] rest@[k] == list_seq[i + k],
                forall|a: int, b: int|
                    0 <= a < b < out@.len() ==> (#[trigger] out@[a]).figi@ != (
                    #[trigger] out@[b]).figi@,
                forall|figi: Seq<char>| #![trigger instrument_lookup(out@, figi)]
                    instrument_lookup(out@, figi) == instrument_lookup(
                        list_seq.take(i as int),
                        figi,
                    ),
            decreases n - i,
        {
            let inst = rest.remove(0);
            proof {
                assert(inst == list_seq[i as int]);
                assert(list_seq.take(i as int + 1).drop_last() =~= list_seq.take(i as int));
                assert(list_seq.take(i as int + 1).last() == list_seq[i as int]);
            }
            let ghost pre = out@;
            let m = out.len();
            let mut k: usize = 0;
            let mut pos: Option<usize> = None;
            while k < m && pos.is_none()
                invariant
                    k <= m,
                    m == out@.len(),
                    out@ == pre,
                    pos is None ==> forall|l: int|
                        0 <= l < k ==> (#[trigger] out@[l]).figi@ != inst.figi@,
                    pos is Some ==> pos->0 < out@.len() && out@[pos->0 as int].figi@ == inst.figi@,
                decreases m - k,
            {
                if out[k].figi.matches(&inst.figi) {
                    pos = Some(k);
                }
                k += 1;
            }
            match pos {
                Some(idx) => {
                    out[idx] = inst;
                    proof {
                        assert(out@ == pre.update(idx as int, list_seq[i as int]));
                        assert forall|a: int, b: int|
                            0 <= a < b < out@.len() implies (#[trigger] out@[a]).figi@ != (
                        #[trigger] out@[b]).figi@ by {
                            assert(pre[a].figi@ != pre[b].figi@);
                        }
                    }
                },
                None => {
                    out.push(inst);
                    proof {
                        assert forall|a: int, b: int|
                            0 <= a < b < out@.len() implies (#[trigger] out@[a]).figi@ != (
                        #[trigger] out@[b]).figi@ by {
                            if b < out@.len() - 1 {
                                assert(pre[a].figi@ != pre[b].figi@);
                            } else {
                                assert(out@[a] == pre[a]);
                            }
                        }
                    }
                },
            }
            proof {
                lemma_instrument_upsert(pre, out@, list_seq[i as int]);
                assert forall|figi: Seq<char>|
                    instrument_lookup(#[trigger] out@, figi) == instrument_lookup(
                    list_seq.take(i as int + 1),
                    figi,
                ) by {
                    if figi != list_seq[i as int].figi@ {
                        assert(instrument_lookup(list_seq.take(i as int + 1), figi)
                            == instrument_lookup(list_seq.take(i as int), figi));
                    }
                }
            }
            i += 1;
        }
        proof {
            assert(list_seq.take(n as int) =~= list_seq);
        }
        out
    }
}

/// An upsert rebinds exactly its figi.
proof fn lemma_instrument_upsert(pre: Seq<Instrument>, post: Seq<Instrument>, inst: Instrument)
    requires
        forall|a: int, b: int|
            0 <= a < b < pre.len() ==> (#[trigger] pre[a]).figi@ != (#[trigger] pre[b]).figi@,
        post == pre.push(inst) || exists|k: int|
            0 <= k < pre.len() && (#[trigger] pre[k]).figi@ == inst.figi@ && post == pre.update(
                k,
                inst,
            ),
    ensures
        forall|figi: Seq<char>| #![trigger instrument_lookup(post, figi)]
            instrument_lookup(post, figi) == if figi == inst.figi@ {
                Some(inst)
            } else {
                instrument_lookup(pre, figi)
            },
{
    if post == pre.push(inst) {
        assert forall|figi: Seq<char>| #[trigger] instrument_lookup(post, figi) == (if figi
            == inst.figi@ {
            Some(inst)
        } else {
            instrument_lookup(pre, figi)
        }) by {
            assert(post.drop_last() =~= pre);
            assert(post.last() == inst);
        }
    } else {
        let k = choose|k: int|
            0 <= k < pre.len() && (#[trigger] pre[k]).figi@ == inst.figi@ && post == pre.update(
                k,
                inst,
            );
        assert forall|figi: Seq<char>| #[trigger] instrument_lookup(post, figi) == (if figi
            == inst.figi@ {
            Some(inst)
        } else {
            instrument_lookup(pre, figi)
        }) by {
            lemma_instrument_update(pre, k, inst, figi);
        }
    }
}

/// Updating one figi of a distinct-key instrument list changes it alone.
proof fn lemma_instrument_update(pre: Seq<Instrument>, k: int, inst: Instrument, figi: Seq<char>)
    requires
        forall|a: int, b: int|
            0 <= a < b < pre.len() ==> (#[trigger] pre[a]).figi@ != (#[trigger] pre[b]).figi@,
        0 <= k < pre.len(),
        pre[k].figi@ == inst.figi@,
    ensures
        instrument_lookup(pre.update(k, inst), figi) == if figi == inst.figi@ {
            Some(inst)
        } else {
            instrument_lookup(pre, figi)
        },
    decreases pre.len(),
{
    let post = pre.update(k, inst);
    if k == pre.len() - 1 {
        assert(post.drop_last() =~= pre.drop_last());
        assert(post.last() == inst);
        if figi == inst.figi@ {
        } else {
            assert(instrument_lookup(pre, figi) == instrument_lookup(pre.drop_last(), figi));
        }
    } else {
        assert(post.drop_last() =~= pre.drop_last().update(k, inst));
        assert(post.last() == pre.last());
        assert(pre.drop_last() =~= pre.take(pre.len() - 1));
        assert forall|a: int, b: int|
            0 <= a < b < pre.drop_last().len() implies (#[trigger] pre.drop_last()[a]).figi@ != (
        #[trigger] pre.drop_last()[b]).figi@ by {
            assert(pre[a].figi@ != pre[b].figi@);
        }
        lemma_instrument_update(pre.drop_last(), k, inst, figi);
        assert(pre.last().figi@ != inst.figi@);
    }
}

/// The periodic that mirrors each account's open positions. A failed listing
/// for one account falls back to the previous snapshot, or to an empty
/// position list when there is none.
pub struct PositionsCachePeriodic {}

impl PositionsCachePeriodic {
    pub fn new() -> PositionsCachePeriodic {
        PositionsCachePeriodic {  }
    }

    /// What one account's entry becomes after a tick.
    pub fn next_positions(
        &self,
        fetched: Option<AccountPositions>,
        previous: Option<AccountPositions>,
    ) -> (r: AccountPositions)
        ensures
            match fetched {
                Some(p) => r == p,
                None => match previous {
                    Some(p) => r == p,
                    None => r.currencies@.len() == 0 && r.positions@.len() == 0,
                },
            },
    {
        match fetched {
            Some(p) => p,
            None => match previous {
                Some(p) => p,
                None => AccountPositions { currencies: Vec::new(), positions: Vec::new() },
            },
        }
    }
}

} // verus!
