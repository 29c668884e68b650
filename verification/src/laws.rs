use vstd::prelude::*;

use crate::arena::Arena;
use crate::id::ArenaId;
use crate::slot_map::SlotMap;
use crate::model::{
    compacted_generation, lemma_live_count_update, moves, next_generation, rank,
};

verus! {

/// After `allocate(value)` hands out `id`, `get(id)` gives back `value` and
/// `is_alive(id)` holds.
pub proof fn law_allocate_then_get<T: Default + Clone>(
    pre: Arena<T>,
    post: Arena<T>,
    value: T,
    id: ArenaId,
)
    requires
        pre.wf(),
        post.wf(),
        Arena::alloc_step(pre, post, value, Some(id)),
    ensures
        post.is_live(id),
        post.lookup(id) == Some(value),
{
    pre.lemma_wf_shape();
    post.lemma_wf_shape();
}

/// Allocation never disturbs an entry that was already live: every id that
/// resolved before resolves to the same value after.
pub proof fn law_allocate_keeps_live_entries<T: Default + Clone>(
    pre: Arena<T>,
    post: Arena<T>,
    value: T,
    r: Option<ArenaId>,
    other: ArenaId,
)
    requires
        pre.wf(),
        post.wf(),
        Arena::alloc_step(pre, post, value, r),
        pre.is_live(other),
    ensures
        post.lookup(other) == pre.lookup(other),
{
    pre.lemma_wf_shape();
    post.lemma_wf_shape();
}

/// Allocation never revives a stale id: an id whose generation differs from
/// its slot's current generation does not resolve after `allocate`.
pub proof fn law_allocate_keeps_stale_ids_dead<T: Default + Clone>(
    pre: Arena<T>,
    post: Arena<T>,
    value: T,
    r: Option<ArenaId>,
    stale: ArenaId,
)
    requires
        pre.wf(),
        post.wf(),
        Arena::alloc_step(pre, post, value, r),
        stale.index < pre.slot_count(),
        stale.generation != pre.generations()[stale.index as int],
    ensures
        !post.is_live(stale),
        post.lookup(stale) is None,
{
    pre.lemma_wf_shape();
    post.lemma_wf_shape();
}

/// `allocate` fails exactly when the arena is full: every slot is live.
pub proof fn law_allocate_fails_only_when_full<T: Default + Clone>(
    pre: Arena<T>,
    post: Arena<T>,
    value: T,
    r: Option<ArenaId>,
)
    requires
        pre.wf(),
        Arena::alloc_step(pre, post, value, r),
    ensures
        r is None <==> pre.live_total() == pre.slot_count(),
        r is None <==> (pre.free_stack().len() == 0 && pre.high_water() == pre.slot_count()),
{
    pre.lemma_wf_shape();
}

/// A successful `dealloc(id)` makes `id` stale: `get(id)` is `None`,
/// `is_alive(id)` is false, and a second `dealloc(id)` returns `false`.
pub proof fn law_dealloc_kills_id<T: Default + Clone>(
    a0: Arena<T>,
    a1: Arena<T>,
    a2: Arena<T>,
    id: ArenaId,
    r2: bool,
)
    requires
        a0.wf(),
        a1.wf(),
        Arena::dealloc_step(a0, a1, id, true),
        Arena::dealloc_step(a1, a2, id, r2),
    ensures
        !a1.is_live(id),
        a1.lookup(id) is None,
        !r2,
{
    a0.lemma_wf_shape();
    a1.lemma_wf_shape();
}

/// `dealloc(id)` touches only `id`'s slot: ids of other slots resolve as
/// before, and no id of that slot resolves afterwards.
pub proof fn law_dealloc_touches_only_its_slot<T: Default + Clone>(
    pre: Arena<T>,
    post: Arena<T>,
    id: ArenaId,
    r: bool,
    other: ArenaId,
)
    requires
        pre.wf(),
        post.wf(),
        Arena::dealloc_step(pre, post, id, r),
    ensures
        other.index != id.index ==> post.lookup(other) == pre.lookup(other),
        r && other.index == id.index ==> post.lookup(other) is None,
{
    pre.lemma_wf_shape();
    post.lemma_wf_shape();
}

/// Freeing a slot and allocating again reuses that slot under the next
/// generation: the new id differs from the old one, the old id stays stale,
/// and the new one resolves to the new value.
pub proof fn law_reuse_bumps_generation<T: Default + Clone>(
    a0: Arena<T>,
    a1: Arena<T>,
    a2: Arena<T>,
    id: ArenaId,
    value: T,
    id2: ArenaId,
)
    requires
        a0.wf(),
        a1.wf(),
        a2.wf(),
        Arena::dealloc_step(a0, a1, id, true),
        Arena::alloc_step(a1, a2, value, Some(id2)),
    ensures
        id2.index == id.index,
        id2.generation == next_generation(id.generation),
        id2.generation != id.generation,
        a2.lookup(id) is None,
        a2.lookup(id2) == Some(value),
{
    a0.lemma_wf_shape();
    a1.lemma_wf_shape();
    a2.lemma_wf_shape();
    assert(a1.free_stack().last() == id.index);
}

/// `is_alive(id)` holds exactly when `get(id)` finds a value.
pub proof fn law_is_alive_iff_get<T: Default + Clone>(a: Arena<T>, id: ArenaId)
    ensures
        a.is_live(id) <==> a.lookup(id) is Some,
{
}

/// `alive_count` goes up by one with each successful `allocate`, down by one
/// with each successful `dealloc`, and is unchanged by failed calls; it never
/// exceeds the capacity.
pub proof fn law_alive_count_accounting<T: Default + Clone>(
    pre: Arena<T>,
    after_alloc: Arena<T>,
    value: T,
    r: Option<ArenaId>,
    after_dealloc: Arena<T>,
    id: ArenaId,
    freed: bool,
)
    requires
        pre.wf(),
        Arena::alloc_step(pre, after_alloc, value, r),
        Arena::dealloc_step(pre, after_dealloc, id, freed),
    ensures
        pre.live_total() <= pre.slot_count(),
        after_alloc.live_total() == pre.live_total() + if r is Some { 1int } else { 0int },
        after_dealloc.live_total() == pre.live_total() - if freed { 1int } else { 0int },
{
    pre.lemma_wf_shape();
    crate::model::lemma_live_count_bounds(pre.occupied());
    if let Some(x) = r {
        lemma_live_count_update(pre.occupied(), x.index as int, true);
    }
    if freed {
        lemma_live_count_update(pre.occupied(), id.index as int, false);
    }
}

/// Compaction keeps the number of live entries, and leaves them in one
/// contiguous block at the front.
pub proof fn law_compact_keeps_count<T: Default + Clone>(
    pre: Arena<T>,
    post: Arena<T>,
    remap: Seq<(ArenaId, ArenaId)>,
)
    requires
        pre.wf(),
        post.wf(),
        Arena::compact_step(pre, post, remap),
    ensures
        post.live_total() == pre.live_total(),
        forall|j: int| 0 <= j < post.slot_count() ==> #[trigger] post.occupied()[j] == (j < post.live_total()),
{
    pre.lemma_wf_shape();
    post.lemma_wf_shape();
    crate::model::lemma_live_count_bounds(pre.occupied());
    crate::model::lemma_live_count_of_prefix(post.occupied(), pre.live_total() as int);
}

/// Every pair `(old, new)` that compaction reports names an entry that was
/// live under `old` and now resolves, to the same value, under `new`, at
/// another slot; `old` no longer resolves.
pub proof fn law_compact_remap_is_faithful<T: Default + Clone>(
    pre: Arena<T>,
    post: Arena<T>,
    remap: Seq<(ArenaId, ArenaId)>,
    k: int,
)
    requires
        pre.wf(),
        post.wf(),
        Arena::compact_step(pre, post, remap),
        0 <= k < remap.len(),
    ensures
        pre.is_live(remap[k].0),
        post.is_live(remap[k].1),
        post.lookup(remap[k].1) == pre.lookup(remap[k].0),
        remap[k].1.index != remap[k].0.index,
        !post.is_live(remap[k].0),
        post.lookup(remap[k].0) is None,
{
    let n = pre.slot_count() as int;
    crate::model::lemma_moves_shape(pre.occupied(), pre.generations(), n);
    let i = remap[k].0.index as int;
    assert(moves(pre.occupied(), pre.generations(), n)[k] == remap[k]);
    crate::model::lemma_rank_monotone(pre.occupied(), i, n);
    crate::model::lemma_rank_full(pre.occupied());
    crate::model::lemma_live_count_bounds(pre.occupied());
    let w = rank(pre.occupied(), i) as int;
    assert(w < pre.live_total());
    assert(post.occupied()[w]);
    assert(post.generations()[w] == compacted_generation(pre.occupied(), pre.generations(), w));
    assert(post.generations()[i] == next_generation(pre.generations()[i]));
}

/// Every live entry either stays where it is, resolving under the same id to
/// the same value, or is reported in the remap under its old id.
pub proof fn law_compact_accounts_for_every_entry<T: Default + Clone>(
    pre: Arena<T>,
    post: Arena<T>,
    remap: Seq<(ArenaId, ArenaId)>,
    id: ArenaId,
)
    requires
        pre.wf(),
        post.wf(),
        Arena::compact_step(pre, post, remap),
        pre.is_live(id),
    ensures
        rank(pre.occupied(), id.index as int) == id.index ==> post.lookup(id) == pre.lookup(id),
        rank(pre.occupied(), id.index as int) != id.index ==> exists|k: int|
            0 <= k < remap.len() && #[trigger] remap[k].0 == id,
{
    let n = pre.slot_count() as int;
    let i = id.index as int;
    crate::model::lemma_rank_monotone(pre.occupied(), i, n);
    crate::model::lemma_rank_full(pre.occupied());
    assert(post.generations()[i] == compacted_generation(pre.occupied(), pre.generations(), i));
    if rank(pre.occupied(), i) != i {
        crate::model::lemma_moves_complete(pre.occupied(), pre.generations(), n, i);
        crate::model::lemma_moves_shape(pre.occupied(), pre.generations(), n);
        let k = choose|k: int|
            0 <= k < moves(pre.occupied(), pre.generations(), n).len() && (#[trigger] moves(
                pre.occupied(),
                pre.generations(),
                n,
            )[k]).0.index == i;
        assert(remap[k].0 == id);
    }
}

/// After compaction, the next allocation takes the first slot past the
/// compacted block whenever a slot below the never-used mark is free.
pub proof fn law_allocate_after_compact_fills_block<T: Default + Clone>(
    pre: Arena<T>,
    mid: Arena<T>,
    remap: Seq<(ArenaId, ArenaId)>,
    post: Arena<T>,
    value: T,
    r: Option<ArenaId>,
)
    requires
        pre.wf(),
        mid.wf(),
        Arena::compact_step(pre, mid, remap),
        Arena::alloc_step(mid, post, value, r),
        pre.live_total() < pre.high_water(),
    ensures
        r is Some,
        r.unwrap().index == pre.live_total(),
        post.lookup(r.unwrap()) == Some(value),
{
}

/// Compacting an arena whose live entries already fill a block at the front
/// moves nothing.
pub proof fn law_compact_of_compact_arena_moves_nothing<T: Default + Clone>(
    pre: Arena<T>,
    post: Arena<T>,
    remap: Seq<(ArenaId, ArenaId)>,
    k: int,
)
    requires
        pre.wf(),
        Arena::compact_step(pre, post, remap),
        0 <= k <= pre.slot_count(),
        forall|j: int| 0 <= j < pre.slot_count() ==> #[trigger] pre.occupied()[j] == (j < k),
    ensures
        remap.len() == 0,
{
    pre.lemma_wf_shape();
    assert forall|i: int| 0 <= i < pre.slot_count() && #[trigger] pre.occupied()[i] implies rank(
        pre.occupied(),
        i,
    ) == i by {
        crate::model::lemma_rank_of_full_prefix(pre.occupied(), k, i);
    }
    crate::model::lemma_moves_empty(pre.occupied(), pre.generations(), pre.slot_count() as int);
}

/// Writing `value` through `get_mut(id)` makes `get(id)` return `value` and
/// leaves every id of another slot resolving as before.
pub proof fn law_write_then_get<T: Default + Clone>(
    pre: Arena<T>,
    post: Arena<T>,
    id: ArenaId,
    value: T,
    other: ArenaId,
)
    requires
        pre.wf(),
        post.wf(),
        pre.is_live(id),
        Arena::write_step(pre, post, id, value),
    ensures
        post.lookup(id) == Some(value),
        other.index != id.index ==> post.lookup(other) == pre.lookup(other),
{
    pre.lemma_wf_shape();
    post.lemma_wf_shape();
}

/// `iter` lists exactly the live entries: as many as `len`, each resolving
/// under its id to the value listed with it, and every live id among them.
pub proof fn law_iter_lists_live_entries<T: Default + Clone>(map: SlotMap<T>, id: ArenaId)
    requires
        map.wf(),
    ensures
        map.entries().len() == map.inner().live_total(),
        forall|k: int|
            0 <= k < map.entries().len() ==> map.inner().lookup((#[trigger] map.entries()[k]).0)
                == Some(map.entries()[k].1),
        map.inner().is_live(id) ==> exists|k: int|
            0 <= k < map.entries().len() && (#[trigger] map.entries()[k]).0 == id,
{
    let a = map.inner();
    a.lemma_wf_shape();
    let n = a.slot_count() as int;
    crate::model::lemma_live_entries_shape(a.occupied(), a.generations(), a.slots(), n);
    crate::model::lemma_rank_full(a.occupied());
    if a.is_live(id) {
        crate::model::lemma_live_entries_complete(
            a.occupied(),
            a.generations(),
            a.slots(),
            n,
            id.index as int,
        );
    }
}

/// After `retain(f)`, the entries still live are exactly those `f` accepted:
/// each kept one resolves as before and `f` answered `true` for it, each
/// dropped one no longer resolves and `f` answered `false` for it, and no
/// entry appears that was not live before.
pub proof fn law_retain_keeps_accepted<T: Default + Clone, F: FnMut(ArenaId, &T) -> bool>(
    pre: Arena<T>,
    post: Arena<T>,
    f: F,
    id: ArenaId,
)
    requires
        pre.wf(),
        post.wf(),
        SlotMap::<T>::retain_step(pre, post, f),
    ensures
        post.is_live(id) ==> pre.is_live(id) && post.lookup(id) == pre.lookup(id) && call_ensures(
            f,
            (id, &pre.slots()[id.index as int]),
            true,
        ),
        pre.is_live(id) && !post.is_live(id) ==> call_ensures(
            f,
            (id, &pre.slots()[id.index as int]),
            false,
        ),
        pre.is_live(id) && !post.is_live(id) ==> post.lookup(id) is None,
{
    pre.lemma_wf_shape();
    post.lemma_wf_shape();
    if id.index < pre.slot_count() {
        assert(SlotMap::<T>::slot_kept_or_dropped(pre, post, f, id.index as int));
    }
}

} // verus!
