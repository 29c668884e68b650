use vstd::prelude::*;

use crate::arena::Arena;
use crate::id::ArenaId;
use crate::laws::law_compact_keeps_count;
use crate::slot_map::SlotMap;
use crate::model::{
    compacted_generation, dropped, lemma_live_count_update, moves, next_generation, rank,
};

verus! {

/// One call of the arena's interface took `pre` to `post`: an `allocate`, a
/// `dealloc`, a write through `get_mut` to a live id, a `compact`, or a call
/// that changes nothing (`get`, `is_alive`, `alive_count`, `capacity`, and
/// the failing cases).
pub open spec fn arena_step<T: Default + Clone>(pre: Arena<T>, post: Arena<T>) -> bool {
    ||| exists|value: T, r: Option<ArenaId>| #[trigger] Arena::alloc_step(pre, post, value, r)
    ||| exists|id: ArenaId, r: bool| #[trigger] Arena::dealloc_step(pre, post, id, r)
    ||| exists|id: ArenaId, value: T|
        pre.is_live(id) && #[trigger] Arena::write_step(pre, post, id, value)
    ||| exists|remap: Seq<(ArenaId, ArenaId)>| #[trigger] Arena::compact_step(pre, post, remap)
    ||| post.same_state(&pre)
}

/// No call moves a slot's generation back: it stays, or takes the next
/// generation (when the slot's occupant is freed or moved away); the
/// capacity never changes.
pub proof fn law_generations_never_go_back<T: Default + Clone>(
    pre: Arena<T>,
    post: Arena<T>,
    j: int,
)
    requires
        pre.wf(),
        post.wf(),
        arena_step(pre, post),
        0 <= j < pre.slot_count(),
    ensures
        post.slot_count() == pre.slot_count(),
        post.generations()[j] == pre.generations()[j] || post.generations()[j] == next_generation(
            pre.generations()[j],
        ),
{
    if exists|remap: Seq<(ArenaId, ArenaId)>| #[trigger] Arena::compact_step(pre, post, remap) {
        let remap = choose|remap: Seq<(ArenaId, ArenaId)>| #[trigger] Arena::compact_step(pre, post, remap);
        assert(post.generations()[j] == compacted_generation(pre.occupied(), pre.generations(), j));
    }
}

/// A retired id stays retired, and so never resolves, across any call, as
/// long as its slot's generation has not reached `u64::MAX`.
pub proof fn law_retired_ids_stay_dead<T: Default + Clone>(
    pre: Arena<T>,
    post: Arena<T>,
    id: ArenaId,
)
    requires
        pre.wf(),
        post.wf(),
        arena_step(pre, post),
        pre.is_retired(id),
        pre.generations()[id.index as int] < u64::MAX,
    ensures
        post.slot_count() == pre.slot_count(),
        post.is_retired(id),
        !post.is_live(id),
        post.lookup(id) is None,
{
    law_generations_never_go_back(pre, post, id.index as int);
}

/// A successful `dealloc(id)` retires `id` (unless its generation is
/// `u64::MAX`), and so does `compact` for the old id of every entry it
/// moves.
pub proof fn law_free_and_move_retire_ids<T: Default + Clone>(
    pre: Arena<T>,
    freed: Arena<T>,
    id: ArenaId,
    compacted: Arena<T>,
    remap: Seq<(ArenaId, ArenaId)>,
    k: int,
)
    requires
        pre.wf(),
        freed.wf(),
        compacted.wf(),
        Arena::dealloc_step(pre, freed, id, true),
        Arena::compact_step(pre, compacted, remap),
        id.generation < u64::MAX,
        0 <= k < remap.len(),
        remap[k].0.generation < u64::MAX,
    ensures
        freed.is_retired(id),
        compacted.is_retired(remap[k].0),
{
    let n = pre.slot_count() as int;
    crate::model::lemma_moves_shape(pre.occupied(), pre.generations(), n);
    assert(moves(pre.occupied(), pre.generations(), n)[k] == remap[k]);
    let i = remap[k].0.index as int;
    assert(compacted.generations()[i] == compacted_generation(pre.occupied(), pre.generations(), i));
}

/// Over any sequence of calls, the capacity stays what it was, and an id
/// that was retired at the start never resolves again, as long as its
/// slot's generation stays below `u64::MAX`.
pub proof fn law_history_keeps_retired_ids_dead<T: Default + Clone>(
    trace: Seq<Arena<T>>,
    id: ArenaId,
)
    requires
        trace.len() >= 1,
        forall|t: int| 0 <= t < trace.len() ==> #[trigger] trace[t].wf(),
        forall|t: int| 0 <= t < trace.len() - 1 ==> arena_step(#[trigger] trace[t], trace[t + 1]),
        trace[0].is_retired(id),
        forall|t: int|
            0 <= t < trace.len() ==> (#[trigger] trace[t]).generations()[id.index as int]
                < u64::MAX,
    ensures
        forall|t: int|
            0 <= t < trace.len() ==> {
                &&& (#[trigger] trace[t]).slot_count() == trace[0].slot_count()
                &&& trace[t].is_retired(id)
                &&& trace[t].lookup(id) is None
            },
    decreases trace.len(),
{
    if trace.len() > 1 {
        let prefix = trace.drop_last();
        law_history_keeps_retired_ids_dead(prefix, id);
        let t = trace.len() - 2;
        assert(prefix[t] == trace[t]);
        assert(arena_step(trace[t], trace[t + 1]));
        law_retired_ids_stay_dead(trace[t], trace[t + 1], id);
        assert forall|u: int| 0 <= u < trace.len() implies {
            &&& (#[trigger] trace[u]).slot_count() == trace[0].slot_count()
            &&& trace[u].is_retired(id)
            &&& trace[u].lookup(id) is None
        } by {
            if u < trace.len() - 1 {
                assert(prefix[u] == trace[u]);
            }
        }
    }
}

/// Allocation is last in, first out: after a successful `dealloc(x)`, and
/// any calls that leave the free list and the generations as they are (a
/// failed `dealloc`, a write through `get_mut`, a read), the next `allocate`
/// reuses `x`'s slot under the next generation.
pub proof fn law_lifo_reuse<T: Default + Clone>(
    a0: Arena<T>,
    a1: Arena<T>,
    a2: Arena<T>,
    a3: Arena<T>,
    x: ArenaId,
    value: T,
    r: Option<ArenaId>,
)
    requires
        a0.wf(),
        Arena::dealloc_step(a0, a1, x, true),
        a2.free_stack() == a1.free_stack(),
        a2.generations() == a1.generations(),
        Arena::alloc_step(a2, a3, value, r),
    ensures
        r == Some(ArenaId { index: x.index, generation: next_generation(x.generation) }),
{
    assert(a2.free_stack().last() == x.index);
}

/// One call took `pre` to `post` and changed the number of live entries by
/// `delta`: `+1` for an `allocate` that handed out an id, `-1` for a
/// `dealloc` that freed one, `0` for every other call.
pub open spec fn counted_step<T: Default + Clone>(pre: Arena<T>, post: Arena<T>, delta: int) -> bool {
    ||| exists|value: T, r: Option<ArenaId>|
        #[trigger] Arena::alloc_step(pre, post, value, r) && delta == if r is Some {
            1int
        } else {
            0int
        }
    ||| exists|id: ArenaId, r: bool|
        #[trigger] Arena::dealloc_step(pre, post, id, r) && delta == if r {
            -1int
        } else {
            0int
        }
    ||| (exists|id: ArenaId, value: T|
        pre.is_live(id) && #[trigger] Arena::write_step(pre, post, id, value)) && delta == 0
    ||| (exists|remap: Seq<(ArenaId, ArenaId)>| #[trigger] Arena::compact_step(pre, post, remap))
        && delta == 0
    ||| post.same_state(&pre) && delta == 0
}

/// The sum of the first `n` changes.
pub open spec fn total_change(deltas: Seq<int>, n: int) -> int
    decreases n,
{
    if n <= 0 {
        0
    } else {
        total_change(deltas, n - 1) + deltas[n - 1]
    }
}

/// One call changes `alive_count` by its `delta`.
pub proof fn law_count_step<T: Default + Clone>(pre: Arena<T>, post: Arena<T>, delta: int)
    requires
        pre.wf(),
        post.wf(),
        counted_step(pre, post, delta),
    ensures
        post.live_total() == pre.live_total() + delta,
{
    pre.lemma_wf_shape();
    if exists|value: T, r: Option<ArenaId>| #[trigger] Arena::alloc_step(pre, post, value, r) && delta == if r is Some {
        1int
    } else {
        0int
    } {
        let (value, r) = choose|value: T, r: Option<ArenaId>|
            #[trigger] Arena::alloc_step(pre, post, value, r) && delta == if r is Some {
                1int
            } else {
                0int
            };
        if let Some(x) = r {
            lemma_live_count_update(pre.occupied(), x.index as int, true);
        }
    } else if exists|id: ArenaId, r: bool| #[trigger] Arena::dealloc_step(pre, post, id, r) && delta == if r {
        -1int
    } else {
        0int
    } {
        let (id, r) = choose|id: ArenaId, r: bool|
            #[trigger] Arena::dealloc_step(pre, post, id, r) && delta == if r {
                -1int
            } else {
                0int
            };
        if r {
            lemma_live_count_update(pre.occupied(), id.index as int, false);
        }
    } else if exists|remap: Seq<(ArenaId, ArenaId)>| #[trigger] Arena::compact_step(pre, post, remap) {
        let remap = choose|remap: Seq<(ArenaId, ArenaId)>| #[trigger] Arena::compact_step(pre, post, remap);
        law_compact_keeps_count(pre, post, remap);
    }
}

/// Over any sequence of calls, `alive_count` equals its starting value plus
/// the ids handed out by `allocate` minus the ids freed by `dealloc`; from a
/// fresh arena that is the number of successful allocations minus the number
/// of successful frees. It never exceeds the capacity.
pub proof fn law_history_alive_count<T: Default + Clone>(
    trace: Seq<Arena<T>>,
    deltas: Seq<int>,
)
    requires
        trace.len() >= 1,
        deltas.len() == trace.len() - 1,
        forall|t: int| 0 <= t < trace.len() ==> #[trigger] trace[t].wf(),
        forall|t: int|
            0 <= t < trace.len() - 1 ==> counted_step(#[trigger] trace[t], trace[t + 1], deltas[t]),
    ensures
        trace.last().live_total() == trace[0].live_total() + total_change(
            deltas,
            deltas.len() as int,
        ),
        trace.last().live_total() <= trace.last().slot_count(),
    decreases trace.len(),
{
    let last = trace.last();
    assert(trace[trace.len() - 1].wf());
    crate::model::lemma_live_count_bounds(last.occupied());
    if trace.len() > 1 {
        let prefix = trace.drop_last();
        let t = trace.len() - 2;
        law_history_alive_count(prefix, deltas.drop_last());
        assert(prefix.last() == trace[t]);
        assert forall|u: int| 0 <= u < deltas.len() - 1 implies deltas.drop_last()[u] == deltas[u] by {
        }
        lemma_total_change_prefix(deltas, deltas.drop_last(), deltas.len() - 1);
        assert(counted_step(trace[t], trace[t + 1], deltas[t]));
        law_count_step(trace[t], trace[t + 1], deltas[t]);
    }
}

proof fn lemma_total_change_prefix(a: Seq<int>, b: Seq<int>, n: int)
    requires
        0 <= n <= a.len(),
        n <= b.len(),
        forall|u: int| 0 <= u < n ==> a[u] == b[u],
    ensures
        total_change(a, n) == total_change(b, n),
    decreases n,
{
    if n > 0 {
        lemma_total_change_prefix(a, b, n - 1);
    }
}

/// The arena resolves ids exactly as the record `m` of issued ids says:
/// `get(id)` finds `m[id]` when `id` is recorded and nothing otherwise.
pub open spec fn resolves_as<T: Default + Clone>(a: Arena<T>, m: Map<ArenaId, T>) -> bool {
    forall|id: ArenaId|
        #[trigger] a.lookup(id) == if m.dom().contains(id) {
            Some(m[id])
        } else {
            None
        }
}

/// The record `m` after a compaction that reported `remap`: each moved
/// entry's old id is dropped and its new id carries the value recorded under
/// the old one.
pub open spec fn relocated<T>(m: Map<ArenaId, T>, remap: Seq<(ArenaId, ArenaId)>) -> Map<
    ArenaId,
    T,
> {
    Map::new(
        |id: ArenaId|
            (m.dom().contains(id) && !(exists|k: int| 0 <= k < remap.len() && #[trigger] remap[k].0 == id))
                || (exists|k: int| 0 <= k < remap.len() && #[trigger] remap[k].1 == id),
        |id: ArenaId|
            if exists|k: int| 0 <= k < remap.len() && #[trigger] remap[k].1 == id {
                m[remap[choose|k: int| 0 <= k < remap.len() && #[trigger] remap[k].1 == id].0]
            } else {
                m[id]
            },
    )
}

/// One call took `pre` to `post`, and the record of issued ids went from `m`
/// to `m2`: an `allocate` that handed out `id` records it with its value; a
/// `dealloc` that succeeded drops its id; a write through `get_mut` records
/// the new value; a `compact` relocates the moved entries; every other call
/// leaves the record alone.
pub open spec fn recorded_step<T: Default + Clone>(
    pre: Arena<T>,
    post: Arena<T>,
    m: Map<ArenaId, T>,
    m2: Map<ArenaId, T>,
) -> bool {
    ||| exists|value: T, r: Option<ArenaId>|
        #[trigger] Arena::alloc_step(pre, post, value, r) && m2 == match r {
            Some(id) => m.insert(id, value),
            None => m,
        }
    ||| exists|id: ArenaId, r: bool|
        #[trigger] Arena::dealloc_step(pre, post, id, r) && m2 == if r {
            m.remove(id)
        } else {
            m
        }
    ||| exists|id: ArenaId, value: T|
        pre.is_live(id) && #[trigger] Arena::write_step(pre, post, id, value) && m2 == m.insert(
            id,
            value,
        )
    ||| exists|remap: Seq<(ArenaId, ArenaId)>|
        #[trigger] Arena::compact_step(pre, post, remap) && m2 == relocated(m, remap)
    ||| post.same_state(&pre) && m2 == m
}

/// Compaction moves the record along with the entries.
pub proof fn law_compact_relocates_record<T: Default + Clone>(
    pre: Arena<T>,
    post: Arena<T>,
    remap: Seq<(ArenaId, ArenaId)>,
    m: Map<ArenaId, T>,
)
    requires
        pre.wf(),
        post.wf(),
        Arena::compact_step(pre, post, remap),
        resolves_as(pre, m),
    ensures
        resolves_as(post, relocated(m, remap)),
{
    let n = pre.slot_count() as int;
    let a0 = pre.occupied();
    let g0 = pre.generations();
    let m2 = relocated(m, remap);
    crate::model::lemma_moves_shape(a0, g0, n);
    crate::model::lemma_rank_full(a0);
    crate::model::lemma_live_count_bounds(a0);
    assert(remap == moves(a0, g0, n));
    assert forall|id: ArenaId| #[trigger] post.lookup(id) == if m2.dom().contains(id) {
        Some(m2[id])
    } else {
        None
    } by {
        if exists|k: int| 0 <= k < remap.len() && #[trigger] remap[k].1 == id {
            let k = choose|k: int| 0 <= k < remap.len() && #[trigger] remap[k].1 == id;
            crate::laws::law_compact_remap_is_faithful(pre, post, remap, k);
            assert(pre.lookup(remap[k].0) == if m.dom().contains(remap[k].0) {
                Some(m[remap[k].0])
            } else {
                None
            });
            let k2 = choose|k2: int| 0 <= k2 < remap.len() && #[trigger] remap[k2].1 == id;
            let i = remap[k].0.index as int;
            let i2 = remap[k2].0.index as int;
            if i < i2 {
                crate::model::lemma_rank_monotone(a0, i, i2);
            } else if i2 < i {
                crate::model::lemma_rank_monotone(a0, i2, i);
            }
            assert(remap[k2].0 == remap[k].0);
        } else if exists|k: int| 0 <= k < remap.len() && #[trigger] remap[k].0 == id {
            let k = choose|k: int| 0 <= k < remap.len() && #[trigger] remap[k].0 == id;
            crate::laws::law_compact_remap_is_faithful(pre, post, remap, k);
        } else {
            assert(pre.lookup(id) == if m.dom().contains(id) {
                Some(m[id])
            } else {
                None
            });
            if pre.is_live(id) {
                crate::laws::law_compact_accounts_for_every_entry(pre, post, remap, id);
            } else if post.is_live(id) {
                let j = id.index as int;
                assert(post.occupied()[j]);
                crate::model::lemma_rank_onto(a0, n, j);
                let i = choose|i: int| 0 <= i < n && a0[i] && #[trigger] rank(a0, i) == j;
                assert(post.generations()[j] == compacted_generation(a0, g0, j));
                if i == j {
                    assert(pre.is_live(id));
                } else {
                    crate::model::lemma_moves_complete(a0, g0, n, i);
                    let k = choose|k: int|
                        0 <= k < moves(a0, g0, n).len() && (#[trigger] moves(a0, g0, n)[k]).0.index
                            == i;
                    assert(remap[k].1 == id);
                }
            }
        }
    }
}

/// Each call keeps the arena resolving ids as the record says.
pub proof fn law_recorded_step<T: Default + Clone>(
    pre: Arena<T>,
    post: Arena<T>,
    m: Map<ArenaId, T>,
    m2: Map<ArenaId, T>,
)
    requires
        pre.wf(),
        post.wf(),
        recorded_step(pre, post, m, m2),
        resolves_as(pre, m),
    ensures
        resolves_as(post, m2),
{
    pre.lemma_wf_shape();
    post.lemma_wf_shape();
    if exists|value: T, r: Option<ArenaId>|
        #[trigger] Arena::alloc_step(pre, post, value, r) && m2 == match r {
            Some(id) => m.insert(id, value),
            None => m,
        } {
        let (value, r) = choose|value: T, r: Option<ArenaId>|
            #[trigger] Arena::alloc_step(pre, post, value, r) && m2 == match r {
                Some(id) => m.insert(id, value),
                None => m,
            };
        assert forall|id: ArenaId| #[trigger] post.lookup(id) == if m2.dom().contains(id) {
            Some(m2[id])
        } else {
            None
        } by {
            assert(pre.lookup(id) == if m.dom().contains(id) {
                Some(m[id])
            } else {
                None
            });
        }
    } else if exists|id: ArenaId, r: bool|
        #[trigger] Arena::dealloc_step(pre, post, id, r) && m2 == if r {
            m.remove(id)
        } else {
            m
        } {
        let (x, r) = choose|id: ArenaId, r: bool|
            #[trigger] Arena::dealloc_step(pre, post, id, r) && m2 == if r {
                m.remove(id)
            } else {
                m
            };
        assert forall|id: ArenaId| #[trigger] post.lookup(id) == if m2.dom().contains(id) {
            Some(m2[id])
        } else {
            None
        } by {
            assert(pre.lookup(id) == if m.dom().contains(id) {
                Some(m[id])
            } else {
                None
            });
            if r && id.index != x.index && id.index < pre.slot_count() {
                assert(post.slots()[id.index as int] == pre.slots()[id.index as int]);
            }
        }
    } else if exists|id: ArenaId, value: T|
        pre.is_live(id) && #[trigger] Arena::write_step(pre, post, id, value) && m2 == m.insert(
            id,
            value,
        ) {
        let (x, value) = choose|id: ArenaId, value: T|
            pre.is_live(id) && #[trigger] Arena::write_step(pre, post, id, value) && m2
                == m.insert(id, value);
        assert forall|id: ArenaId| #[trigger] post.lookup(id) == if m2.dom().contains(id) {
            Some(m2[id])
        } else {
            None
        } by {
            assert(pre.lookup(id) == if m.dom().contains(id) {
                Some(m[id])
            } else {
                None
            });
        }
    } else if exists|remap: Seq<(ArenaId, ArenaId)>|
        #[trigger] Arena::compact_step(pre, post, remap) && m2 == relocated(m, remap) {
        let remap = choose|remap: Seq<(ArenaId, ArenaId)>|
            #[trigger] Arena::compact_step(pre, post, remap) && m2 == relocated(m, remap);
        law_compact_relocates_record(pre, post, remap, m);
    } else {
        assert forall|id: ArenaId| #[trigger] post.lookup(id) == if m2.dom().contains(id) {
            Some(m2[id])
        } else {
            None
        } by {
            assert(pre.lookup(id) == if m.dom().contains(id) {
                Some(m[id])
            } else {
                None
            });
        }
    }
}

/// Over any sequence of calls, `get(id)` returns the value last stored under
/// `id` (by the `allocate` that issued it, a write through `get_mut`, or the
/// compaction that moved its entry there), and `is_alive(id)` holds exactly
/// when `id` was issued (by `allocate`, or as a new id in a compaction remap)
/// and has not been freed by `dealloc` or moved away by `compact` since. From
/// a fresh arena the record starts empty.
pub proof fn law_history_get_and_is_alive<T: Default + Clone>(
    trace: Seq<Arena<T>>,
    records: Seq<Map<ArenaId, T>>,
)
    requires
        trace.len() >= 1,
        records.len() == trace.len(),
        forall|t: int| 0 <= t < trace.len() ==> #[trigger] trace[t].wf(),
        forall|t: int|
            0 <= t < trace.len() - 1 ==> recorded_step(
                #[trigger] trace[t],
                trace[t + 1],
                records[t],
                records[t + 1],
            ),
        resolves_as(trace[0], records[0]),
    ensures
        forall|t: int, id: ArenaId|
            0 <= t < trace.len() ==> {
                &&& #[trigger] trace[t].lookup(id) == if records[t].dom().contains(id) {
                    Some(records[t][id])
                } else {
                    None
                }
                &&& trace[t].is_live(id) == records[t].dom().contains(id)
            },
    decreases trace.len(),
{
    if trace.len() > 1 {
        let n = trace.len() - 1;
        law_history_get_and_is_alive(trace.drop_last(), records.drop_last());
        assert(trace.drop_last()[n - 1] == trace[n - 1]);
        assert(records.drop_last()[n - 1] == records[n - 1]);
        assert(resolves_as(trace[n - 1], records[n - 1])) by {
            assert forall|id: ArenaId| #[trigger] trace[n - 1].lookup(id) == if records[n - 1].dom().contains(id) {
                Some(records[n - 1][id])
            } else {
                None
            } by {
                assert(trace.drop_last()[n - 1].lookup(id) == trace[n - 1].lookup(id));
            }
        }
        assert(recorded_step(trace[n - 1], trace[n], records[n - 1], records[n]));
        law_recorded_step(trace[n - 1], trace[n], records[n - 1], records[n]);
        assert forall|t: int, id: ArenaId| 0 <= t < trace.len() implies {
            &&& #[trigger] trace[t].lookup(id) == if records[t].dom().contains(id) {
                Some(records[t][id])
            } else {
                None
            }
            &&& trace[t].is_live(id) == records[t].dom().contains(id)
        } by {
            if t < n {
                assert(trace.drop_last()[t] == trace[t]);
                assert(records.drop_last()[t] == records[t]);
                assert(trace.drop_last()[t].lookup(id) == trace[t].lookup(id));
            } else {
                assert(trace[n].lookup(id) == if records[n].dom().contains(id) {
                    Some(records[n][id])
                } else {
                    None
                });
            }
        }
    } else {
        assert forall|t: int, id: ArenaId| 0 <= t < trace.len() implies {
            &&& #[trigger] trace[t].lookup(id) == if records[t].dom().contains(id) {
                Some(records[t][id])
            } else {
                None
            }
            &&& trace[t].is_live(id) == records[t].dom().contains(id)
        } by {
            assert(trace[0].lookup(id) == if records[0].dom().contains(id) {
                Some(records[0][id])
            } else {
                None
            });
        }
    }
}

/// A fresh arena resolves no id, so its record of issued ids is empty.
pub proof fn law_fresh_arena_record_is_empty<T: Default + Clone>(a: Arena<T>)
    requires
        a.wf(),
        forall|i: int| 0 <= i < a.slot_count() ==> !#[trigger] a.occupied()[i],
    ensures
        resolves_as(a, Map::<ArenaId, T>::empty()),
{
}

/// What `retain` does to the arena whatever its closure answered: each free
/// slot is untouched, each live slot either stays as it was or is freed with
/// its generation bumped, and the freed slots go on the free list in slot
/// order.
pub open spec fn retain_shaped<T: Default + Clone>(pre: Arena<T>, post: Arena<T>) -> bool {
    &&& post.slot_count() == pre.slot_count()
    &&& post.high_water() == pre.high_water()
    &&& post.slots().len() == pre.slots().len()
    &&& forall|j: int|
        0 <= j < pre.slot_count() && #[trigger] post.occupied()[j] ==> pre.occupied()[j]
    &&& post.free_stack() == pre.free_stack() + dropped(
        pre.occupied(),
        post.occupied(),
        pre.slot_count() as int,
    )
}

/// The number of entries a `retain` that took `pre` to `post` dropped.
pub open spec fn dropped_count<T: Default + Clone>(pre: Arena<T>, post: Arena<T>) -> int {
    dropped(pre.occupied(), post.occupied(), pre.slot_count() as int).len() as int
}

/// Every `retain`, whatever its closure, has that shape.
pub proof fn law_retain_is_retain_shaped<T: Default + Clone, F: FnMut(ArenaId, &T) -> bool>(
    pre: Arena<T>,
    post: Arena<T>,
    f: F,
)
    requires
        SlotMap::<T>::retain_step(pre, post, f),
    ensures
        retain_shaped(pre, post),
{
    assert forall|j: int| 0 <= j < pre.slot_count() && #[trigger] post.occupied()[j] implies pre.occupied()[j] by {
        assert(SlotMap::<T>::slot_kept_or_dropped(pre, post, f, j));
    }
}

/// One call on a map took `pre` to `post` and changed `len` by `delta`:
/// `+1` for an `insert` that handed out an id, `-1` for a `remove` that freed
/// one, minus the number of dropped entries for a `retain`, and `0` for every
/// other call.
pub open spec fn map_counted_step<T: Default + Clone>(
    pre: SlotMap<T>,
    post: SlotMap<T>,
    delta: int,
) -> bool {
    ||| counted_step(pre.inner(), post.inner(), delta)
    ||| retain_shaped(pre.inner(), post.inner()) && delta == -dropped_count(
        pre.inner(),
        post.inner(),
    )
}

/// A `retain` lowers `len` by the number of entries it dropped.
pub proof fn law_retain_count<T: Default + Clone>(pre: Arena<T>, post: Arena<T>)
    requires
        pre.wf(),
        post.wf(),
        retain_shaped(pre, post),
    ensures
        post.live_total() == pre.live_total() - dropped_count(pre, post),
{
    let n = pre.slot_count() as int;
    crate::model::lemma_dropped_count(pre.occupied(), post.occupied(), n);
    crate::model::lemma_rank_full(pre.occupied());
    crate::model::lemma_rank_full(post.occupied());
}

/// Over any sequence of calls on a map, `len` equals its starting value plus
/// the successful inserts, minus the successful removes, minus the entries
/// that `retain` dropped; it never exceeds the capacity.
pub proof fn law_history_map_len<T: Default + Clone>(trace: Seq<SlotMap<T>>, deltas: Seq<int>)
    requires
        trace.len() >= 1,
        deltas.len() == trace.len() - 1,
        forall|t: int| 0 <= t < trace.len() ==> #[trigger] trace[t].wf(),
        forall|t: int|
            0 <= t < trace.len() - 1 ==> map_counted_step(#[trigger] trace[t], trace[t + 1], deltas[t]),
    ensures
        trace.last().inner().live_total() == trace[0].inner().live_total() + total_change(
            deltas,
            deltas.len() as int,
        ),
        trace.last().inner().live_total() <= trace.last().inner().slot_count(),
    decreases trace.len(),
{
    let last = trace.last();
    assert(trace[trace.len() - 1].wf());
    crate::model::lemma_live_count_bounds(last.inner().occupied());
    if trace.len() > 1 {
        let prefix = trace.drop_last();
        let t = trace.len() - 2;
        law_history_map_len(prefix, deltas.drop_last());
        assert(prefix.last() == trace[t]);
        lemma_total_change_prefix(deltas, deltas.drop_last(), deltas.len() - 1);
        assert(map_counted_step(trace[t], trace[t + 1], deltas[t]));
        assert(trace[t].wf() && trace[t + 1].wf());
        if counted_step(trace[t].inner(), trace[t + 1].inner(), deltas[t]) {
            law_count_step(trace[t].inner(), trace[t + 1].inner(), deltas[t]);
        } else {
            law_retain_count(trace[t].inner(), trace[t + 1].inner());
        }
    }
}

} // verus!
