use vstd::prelude::*;

use crate::id::ArenaId;
use crate::model::{
    compacted_generation, descending, live_count, moves, moves_away, next_generation, rank,
};

verus! {

/// Capacity of an arena built by `Default`.
const DEFAULT_CAPACITY: usize = 1024;

/// A pre-allocated, generation-based arena allocator.
///
/// Values live in a contiguous `Vec<T>`; parallel vectors hold each slot's
/// generation and liveness. Freed slots go on a LIFO free list, and slots that
/// were never used are handed out in order after the free list runs dry.
pub struct Arena<T: Default + Clone> {
    storage: Vec<T>,
    free_list: Vec<usize>,
    generation: Vec<u64>,
    alive: Vec<bool>,
    capacity: usize,
    next_alloc: usize,
}

impl<T: Default + Clone> Arena<T> {
    /// Number of slots.
    pub closed spec fn slot_count(&self) -> nat {
        self.capacity as nat
    }

    /// The value held by each slot (meaningful for live slots).
    pub closed spec fn slots(&self) -> Seq<T> {
        self.storage@
    }

    /// The current generation of each slot.
    pub closed spec fn generations(&self) -> Seq<u64> {
        self.generation@
    }

    /// Which slots are occupied.
    pub closed spec fn occupied(&self) -> Seq<bool> {
        self.alive@
    }

    /// The free list, a stack whose top is the last element.
    pub closed spec fn free_stack(&self) -> Seq<usize> {
        self.free_list@
    }

    /// The first slot that has never been handed out.
    pub closed spec fn high_water(&self) -> nat {
        self.next_alloc as nat
    }

    /// The arena's invariant: every per-slot sequence has one entry per slot,
    /// every slot below the never-used mark is either live or on the free
    /// list, and the bookkeeping invariant `inv` holds.
    pub open spec fn wf(&self) -> bool {
        &&& self.inv()
        &&& 1 <= self.slot_count() <= usize::MAX
        &&& self.slots().len() == self.slot_count()
        &&& self.generations().len() == self.slot_count()
        &&& self.occupied().len() == self.slot_count()
        &&& self.high_water() <= self.slot_count()
        &&& self.live_total() + self.free_stack().len() == self.high_water()
    }

    /// The bookkeeping invariant, over the fields: the per-slot vectors have
    /// one entry per slot, the free list holds distinct free slots below the
    /// never-used mark, and every slot from that mark on is free at
    /// generation 0.
    pub closed spec fn inv(&self) -> bool {
        &&& self.capacity >= 1
        &&& self.storage@.len() == self.capacity
        &&& self.generation@.len() == self.capacity
        &&& self.alive@.len() == self.capacity
        &&& self.next_alloc <= self.capacity
        &&& forall|i: int|
            0 <= i < self.free_list@.len() ==> {
                let s = #[trigger] self.free_list@[i];
                &&& s < self.next_alloc
                &&& !self.alive@[s as int]
            }
        &&& forall|i: int, j: int|
            0 <= i < j < self.free_list@.len() ==> self.free_list@[i] != self.free_list@[j]
        &&& forall|i: int|
            self.next_alloc <= i < self.capacity ==> !#[trigger] self.alive@[i]
                && self.generation@[i] == 0
        &&& live_count(self.alive@) + self.free_list@.len() == self.next_alloc
    }

    /// Both arenas hold the same abstract state.
    pub open spec fn same_state(&self, other: &Self) -> bool {
        &&& self.slot_count() == other.slot_count()
        &&& self.slots() == other.slots()
        &&& self.generations() == other.generations()
        &&& self.occupied() == other.occupied()
        &&& self.free_stack() == other.free_stack()
        &&& self.high_water() == other.high_water()
    }

    /// `id` names a live entry: its slot exists, is occupied, and carries the
    /// same generation.
    pub open spec fn is_live(&self, id: ArenaId) -> bool {
        &&& id.index < self.occupied().len()
        &&& id.index < self.generations().len()
        &&& self.occupied()[id.index as int]
        &&& self.generations()[id.index as int] == id.generation
    }

    /// `id` names an earlier occupant of its slot: its generation is below the
    /// slot's current one. Generations only grow, one step at each free (up
    /// to wrapping at `u64::MAX`), so every id issued for an occupant that
    /// has since been freed is retired.
    pub open spec fn is_retired(&self, id: ArenaId) -> bool {
        &&& id.index < self.generations().len()
        &&& id.generation < self.generations()[id.index as int]
    }

    /// The value `id` resolves to, if any.
    pub open spec fn lookup(&self, id: ArenaId) -> Option<T> {
        if self.is_live(id) {
            Some(self.slots()[id.index as int])
        } else {
            None
        }
    }

    /// Number of occupied slots.
    pub open spec fn live_total(&self) -> nat {
        live_count(self.occupied())
    }

    /// The slot a call of `allocate` would fill: the top of the free list, else
    /// the first never-used slot, else none.
    pub open spec fn next_slot(&self) -> Option<usize> {
        if self.free_stack().len() > 0 {
            Some(self.free_stack().last())
        } else if self.high_water() < self.slot_count() {
            Some(self.high_water() as usize)
        } else {
            None
        }
    }

    /// What a call of `allocate(value)` that returned `r` did to `pre`,
    /// giving `post`: the slot chosen by `next_slot` now holds `value` and is
    /// live under its current generation, and the free list or the
    /// never-used mark advanced; with no slot to give, nothing changed.
    pub open spec fn alloc_step(pre: Self, post: Self, value: T, r: Option<ArenaId>) -> bool {
        &&& post.slot_count() == pre.slot_count()
        &&& match pre.next_slot() {
            None => r is None && post.same_state(&pre),
            Some(s) => {
                &&& r == Some(ArenaId { index: s, generation: pre.generations()[s as int] })
                &&& !pre.occupied()[s as int]
                &&& post.slots() == pre.slots().update(s as int, value)
                &&& post.occupied() == pre.occupied().update(s as int, true)
                &&& post.generations() == pre.generations()
                &&& if pre.free_stack().len() > 0 {
                    &&& post.free_stack() == pre.free_stack().drop_last()
                    &&& post.high_water() == pre.high_water()
                } else {
                    &&& post.free_stack() == pre.free_stack()
                    &&& post.high_water() == pre.high_water() + 1
                    &&& pre.generations()[s as int] == 0
                }
            },
        }
    }

    /// What a call of `dealloc(id)` that returned `r` did to `pre`, giving
    /// `post`: it succeeds exactly on a live `id`, and then frees the slot,
    /// bumps its generation and pushes it on the free list, leaving every
    /// other slot's value alone; otherwise nothing changed.
    pub open spec fn dealloc_step(pre: Self, post: Self, id: ArenaId, r: bool) -> bool {
        &&& post.slot_count() == pre.slot_count()
        &&& r == pre.is_live(id)
        &&& !r ==> post.same_state(&pre)
        &&& r ==> {
            let i = id.index as int;
            &&& post.occupied() == pre.occupied().update(i, false)
            &&& post.generations() == pre.generations().update(i, next_generation(id.generation))
            &&& post.free_stack() == pre.free_stack().push(id.index)
            &&& post.high_water() == pre.high_water()
            &&& post.slots().len() == pre.slots().len()
            &&& forall|j: int|
                0 <= j < pre.slots().len() && j != i ==> #[trigger] post.slots()[j]
                    == pre.slots()[j]
        }
    }

    /// What a call of `compact` that returned `remap` did to `pre`, giving
    /// `post`. With `k` live entries, the live entry at slot `i` now sits at
    /// its rank (the number of live slots before `i`) with the same value, so
    /// slots `0..k` are live and the rest free. A slot whose entry moved away
    /// is freed with its generation bumped; every other slot keeps its
    /// generation, so a moved entry takes the generation its new slot already
    /// carried, which no id has named while the slot was free. A slot that
    /// was free and stays free keeps its value. The free slots below the
    /// never-used mark, `k..high_water`, make up the free list, `k` on top.
    /// `remap` lists every entry that moved, in slot order, with its old and
    /// new id.
    pub open spec fn compact_step(pre: Self, post: Self, remap: Seq<(ArenaId, ArenaId)>) -> bool {
        &&& post.slot_count() == pre.slot_count()
        &&& post.high_water() == pre.high_water()
        &&& post.free_stack() == descending(pre.live_total() as int, pre.high_water() as int)
        &&& post.slots().len() == pre.slots().len()
        &&& forall|j: int|
            0 <= j < pre.slot_count() ==> #[trigger] post.occupied()[j] == (j < pre.live_total())
        &&& forall|i: int|
            0 <= i < pre.slot_count() && #[trigger] pre.occupied()[i] ==> post.slots()[rank(
                pre.occupied(),
                i,
            ) as int] == pre.slots()[i]
        &&& forall|j: int|
            0 <= j < pre.slot_count() ==> #[trigger] post.generations()[j]
                == compacted_generation(pre.occupied(), pre.generations(), j)
        &&& forall|j: int|
            pre.live_total() <= j < pre.slot_count() && !pre.occupied()[j]
                ==> #[trigger] post.slots()[j] == pre.slots()[j]
        &&& remap == moves(pre.occupied(), pre.generations(), pre.slot_count() as int)
    }

    /// What writing `value` through the reference that `get_mut(id)` handed
    /// out did to `pre`, giving `post`: only the value of `id`'s slot changed.
    pub open spec fn write_step(pre: Self, post: Self, id: ArenaId, value: T) -> bool {
        &&& post.slot_count() == pre.slot_count()
        &&& post.slots() == pre.slots().update(id.index as int, value)
        &&& post.generations() == pre.generations()
        &&& post.occupied() == pre.occupied()
        &&& post.free_stack() == pre.free_stack()
        &&& post.high_water() == pre.high_water()
    }

    /// Creates an arena with `max(capacity, 1)` slots, all free and at
    /// generation 0.
    pub fn new(capacity: usize) -> (arena: Self)
        ensures
            arena.wf(),
            arena.slot_count() == if capacity == 0 { 1 } else { capacity },
            forall|i: int| 0 <= i < arena.slot_count() ==> !#[trigger] arena.occupied()[i],
            forall|i: int| 0 <= i < arena.slot_count() ==> #[trigger] arena.generations()[i] == 0,
            arena.free_stack().len() == 0,
            arena.high_water() == 0,
    {
        let cap: usize = if capacity == 0 { 1 } else { capacity };
        let mut storage: Vec<T> = Vec::new();
        let mut generation: Vec<u64> = Vec::new();
        let mut alive: Vec<bool> = Vec::new();
        let mut i: usize = 0;
        while i < cap
            invariant
                i <= cap,
                storage.len() == i,
                generation.len() == i,
                alive.len() == i,
                forall|j: int| 0 <= j < i ==> generation@[j] == 0 && !alive@[j],
            decreases cap - i,
        {
            storage.push(T::default());
            generation.push(0);
            alive.push(false);
            i = i + 1;
        }
        proof {
            crate::model::lemma_live_count_of_prefix(alive@, 0);
        }
        Arena { storage, free_list: Vec::new(), generation, alive, capacity: cap, next_alloc: 0 }
    }

    /// Returns `true` if `id` points to a live entry.
    pub fn is_alive(&self, id: ArenaId) -> (r: bool)
        requires
            self.wf(),
        ensures
            r == self.is_live(id),
    {
        if id.index >= self.storage.len() {
            return false;
        }
        if self.generation[id.index] != id.generation {
            return false;
        }
        self.alive[id.index]
    }

    /// Borrows the value at `id`; `None` for stale, freed or out-of-range ids.
    pub fn get(&self, id: ArenaId) -> (r: Option<&T>)
        requires
            self.wf(),
        ensures
            match r {
                Some(v) => self.lookup(id) == Some(*v),
                None => self.lookup(id) is None,
            },
    {
        if id.index >= self.storage.len() {
            return None;
        }
        if !self.alive[id.index] {
            return None;
        }
        if self.generation[id.index] != id.generation {
            return None;
        }
        Some(&self.storage[id.index])
    }

    /// Maximum number of slots, live and free together.
    pub fn capacity(&self) -> (r: usize)
        requires
            self.wf(),
        ensures
            r == self.slot_count(),
    {
        self.capacity
    }

    /// Number of live entries.
    pub fn alive_count(&self) -> (r: usize)
        requires
            self.wf(),
        ensures
            r == self.live_total(),
    {
        let mut count: usize = 0;
        let mut i: usize = 0;
        while i < self.alive.len()
            invariant
                i <= self.alive.len(),
                count == rank(self.alive@, i as int),
                count <= i,
            decreases self.alive.len() - i,
        {
            proof {
                crate::model::lemma_rank_step(self.alive@, i as int);
            }
            if self.alive[i] {
                count = count + 1;
            }
            i = i + 1;
        }
        proof {
            crate::model::lemma_rank_full(self.alive@);
        }
        count
    }

    /// Allocates a slot for `value`, preferring the most recently freed slot
    /// and falling back to the first never-used one; `None` when neither
    /// exists.
    #[verifier::spinoff_prover]
    pub fn allocate(&mut self, value: T) -> (r: Option<ArenaId>)
        requires
            old(self).wf(),
        ensures
            final(self).wf(),
            Self::alloc_step(*old(self), *final(self), value, r),
            r is None <==> old(self).live_total() == old(self).slot_count(),
    {
        proof {
            old(self).lemma_wf_shape();
        }
        if let Some(index) = self.free_list.pop() {
            proof {
                let last = old(self).free_list@.len() - 1;
                assert(index == old(self).free_list@[last]);
                assert(!old(self).alive@[index as int]);
            }
            self.storage[index] = value;
            self.alive.set(index, true);
            proof {
                crate::model::lemma_live_count_update(old(self).alive@, index as int, true);
                let last = old(self).free_list@.len() - 1;
                assert forall|i: int| 0 <= i < self.free_list@.len() implies {
                    let s = #[trigger] self.free_list@[i];
                    &&& s < self.next_alloc
                    &&& !self.alive@[s as int]
                } by {
                    assert(self.free_list@[i] == old(self).free_list@[i]);
                    assert(old(self).free_list@[i] != old(self).free_list@[last]);
                }
                assert forall|i: int, j: int|
                    0 <= i < j < self.free_list@.len() implies self.free_list@[i]
                    != self.free_list@[j] by {
                    assert(self.free_list@[i] == old(self).free_list@[i]);
                    assert(self.free_list@[j] == old(self).free_list@[j]);
                }
                assert forall|i: int|
                    self.next_alloc <= i < self.capacity implies !#[trigger] self.alive@[i]
                    && self.generation@[i] == 0 by {
                    assert(!old(self).alive@[i]);
                }
            }
            return Some(ArenaId::new(index, self.generation[index]));
        }
        if self.next_alloc < self.capacity {
            let index = self.next_alloc;
            self.next_alloc = self.next_alloc + 1;
            self.storage[index] = value;
            self.alive.set(index, true);
            proof {
                assert(!old(self).alive@[index as int]);
                crate::model::lemma_live_count_update(old(self).alive@, index as int, true);
                assert forall|i: int|
                    self.next_alloc <= i < self.capacity implies !#[trigger] self.alive@[i]
                    && self.generation@[i] == 0 by {
                    assert(!old(self).alive@[i]);
                }
                assert forall|i: int| 0 <= i < self.free_list@.len() implies {
                    let s = #[trigger] self.free_list@[i];
                    &&& s < self.next_alloc
                    &&& !self.alive@[s as int]
                } by {
                    assert(old(self).free_list@[i] == self.free_list@[i]);
                }
            }
            Some(ArenaId::new(index, 0))
        } else {
            None
        }
    }

    /// Frees the entry at `id`, bumping its slot's generation and pushing the
    /// slot on the free list. Returns `false`, changing nothing, when `id` is
    /// out of range, stale, or already freed.
    pub fn dealloc(&mut self, id: ArenaId) -> (r: bool)
        requires
            old(self).wf(),
        ensures
            final(self).wf(),
            Self::dealloc_step(*old(self), *final(self), id, r),
    {
        if id.index >= self.storage.len() {
            return false;
        }
        if self.generation[id.index] != id.generation {
            return false;
        }
        if !self.alive[id.index] {
            return false;
        }
        self.alive.set(id.index, false);
        let bumped = self.generation[id.index].wrapping_add(1);
        self.generation.set(id.index, bumped);
        self.free_list.push(id.index);
        self.storage[id.index] = T::default();
        proof {
            crate::model::lemma_live_count_update(old(self).alive@, id.index as int, false);
            let n = old(self).free_list@.len();
            assert forall|i: int| 0 <= i < self.free_list@.len() implies {
                let s = #[trigger] self.free_list@[i];
                &&& s < self.next_alloc
                &&& !self.alive@[s as int]
            } by {
                if i < n {
                    assert(self.free_list@[i] == old(self).free_list@[i]);
                }
            }
            assert forall|i: int, j: int|
                0 <= i < j < self.free_list@.len() implies self.free_list@[i]
                != self.free_list@[j] by {
                assert(self.free_list@[i] == old(self).free_list@[i]);
                if j == n {
                    let s = old(self).free_list@[i];
                    assert(!old(self).alive@[s as int]);
                } else {
                    assert(self.free_list@[j] == old(self).free_list@[j]);
                }
            }
            assert forall|i: int|
                self.next_alloc <= i < self.capacity implies !#[trigger] self.alive@[i]
                && self.generation@[i] == 0 by {
                assert(!old(self).alive@[i]);
            }
        }
        true
    }

    /// Mutably borrows the value at `id`; `None` for stale, freed or
    /// out-of-range ids. Writing through the reference changes only that
    /// slot's value.
    #[verifier::spinoff_prover]
    pub fn get_mut(&mut self, id: ArenaId) -> (r: Option<&mut T>)
        requires
            old(self).wf(),
        ensures
            match r {
                Some(v) => {
                    &&& old(self).lookup(id) == Some(*v)
                    &&& final(self).wf()
                    &&& Self::write_step(*old(self), *final(self), id, *final(v))
                },
                None => {
                    &&& old(self).lookup(id) is None
                    &&& final(self).wf()
                    &&& final(self).same_state(old(self))
                },
            },
    {
        if id.index >= self.storage.len() {
            return None;
        }
        if !self.alive[id.index] {
            return None;
        }
        if self.generation[id.index] != id.generation {
            return None;
        }
        Some(&mut self.storage[id.index])
    }

    /// Defragments the arena: every live entry moves to the slot given by its
    /// rank (the number of live slots before it), keeping its value, so that
    /// the live entries fill a contiguous block at the front. A moved entry
    /// takes the generation its new slot already carries; each vacated slot is
    /// freed with its generation bumped, so no id that named an earlier
    /// occupant resolves again. The free slots below the never-used mark are
    /// put back on the free list, lowest on top. Returns the `(old_id, new_id)`
    /// pair of every entry that moved, in slot order.
    #[verifier::spinoff_prover]
    pub fn compact(&mut self) -> (remap: Vec<(ArenaId, ArenaId)>)
        requires
            old(self).wf(),
        ensures
            final(self).wf(),
            Self::compact_step(*old(self), *final(self), remap@),
    {
        let ghost a0 = self.alive@;
        let ghost g0 = self.generation@;
        let ghost v0 = self.storage@;
        let n = self.storage.len();
        let mut write_pos: usize = 0;
        let mut remap: Vec<(ArenaId, ArenaId)> = Vec::new();
        let mut read_pos: usize = 0;
        while read_pos < n
            invariant
                n == self.capacity,
                self.wf_lengths(),
                self.capacity == old(self).capacity,
                self.next_alloc == old(self).next_alloc,
                self.free_list@ == old(self).free_list@,
                a0 == old(self).alive@,
                g0 == old(self).generation@,
                v0 == old(self).storage@,
                old(self).wf(),
                read_pos <= n,
                write_pos == rank(a0, read_pos as int),
                write_pos <= read_pos,
                forall|j: int| read_pos <= j < n ==> #[trigger] self.alive@[j] == a0[j],
                forall|j: int| read_pos <= j < n ==> #[trigger] self.storage@[j] == v0[j],
                forall|j: int|
                    0 <= j < n ==> #[trigger] self.generation@[j] == if j < read_pos {
                        compacted_generation(a0, g0, j)
                    } else {
                        g0[j]
                    },
                forall|j: int| 0 <= j < write_pos ==> #[trigger] self.alive@[j],
                forall|j: int|
                    write_pos <= j < read_pos ==> !#[trigger] self.alive@[j] && (!a0[j]
                        ==> self.storage@[j] == v0[j]),
                forall|i: int|
                    0 <= i < read_pos && #[trigger] a0[i] ==> self.storage@[rank(a0, i) as int]
                        == v0[i],
                remap@ == moves(a0, g0, read_pos as int),
            decreases n - read_pos,
        {
            proof {
                crate::model::lemma_rank_step(a0, read_pos as int);
                crate::model::lemma_rank_le_index(a0, read_pos as int + 1);
            }
            let ghost pa = self.alive@;
            if !self.alive[read_pos] {
                proof {
                    assert(remap@ =~= moves(a0, g0, read_pos as int + 1));
                    assert forall|j: int| write_pos <= j < read_pos + 1 implies !#[trigger] self.alive@[j]
                        && (!a0[j] ==> self.storage@[j] == v0[j]) by {
                        if j < read_pos {
                            assert(!pa[j]);
                        }
                    }
                }
                read_pos = read_pos + 1;
                continue;
            }
            if read_pos == write_pos {
                proof {
                    assert(a0[read_pos as int]);
                    assert(!moves_away(a0, read_pos as int));
                    assert(remap@ =~= moves(a0, g0, read_pos as int + 1));
                    assert forall|j: int| write_pos + 1 <= j < read_pos + 1 implies !#[trigger] self.alive@[j]
                        && (!a0[j] ==> self.storage@[j] == v0[j]) by {
                    }
                }
                write_pos = write_pos + 1;
                read_pos = read_pos + 1;
                continue;
            }
            let mut moved = T::default();
            std::mem::swap(&mut moved, &mut self.storage[read_pos]);
            self.storage[write_pos] = moved;
            self.alive.set(write_pos, true);
            let g = self.generation[read_pos];
            self.generation.set(read_pos, g.wrapping_add(1));
            self.alive.set(read_pos, false);
            let old_id = ArenaId::new(read_pos, g);
            let new_id = ArenaId::new(write_pos, self.generation[write_pos]);
            remap.push((old_id, new_id));
            proof {
                assert(moves_away(a0, read_pos as int));
                assert(g.wrapping_add(1) == next_generation(g));
                assert(self.generation@[write_pos as int] == compacted_generation(
                    a0,
                    g0,
                    write_pos as int,
                ));
                assert(remap@ =~= moves(a0, g0, read_pos as int + 1));
                assert forall|i: int| 0 <= i < read_pos + 1 && #[trigger] a0[i] implies self.storage@[rank(
                    a0,
                    i,
                ) as int] == v0[i] by {
                    if i < read_pos {
                        crate::model::lemma_rank_monotone(a0, i, read_pos as int);
                    }
                }
                assert forall|j: int| write_pos + 1 <= j < read_pos + 1 implies !#[trigger] self.alive@[j]
                    && (!a0[j] ==> self.storage@[j] == v0[j]) by {
                    if j < read_pos {
                        assert(!pa[j]);
                    }
                }
            }
            write_pos = write_pos + 1;
            read_pos = read_pos + 1;
        }
        proof {
            crate::model::lemma_rank_full(a0);
            assert forall|i: int| self.next_alloc <= i < n implies !#[trigger] a0[i] by {
                assert(!old(self).alive@[i]);
            }
            crate::model::lemma_rank_flat(a0, self.next_alloc as int, n as int);
            crate::model::lemma_rank_le_index(a0, self.next_alloc as int);
        }
        let mut free: Vec<usize> = Vec::new();
        let mut slot: usize = self.next_alloc;
        while slot > write_pos
            invariant
                write_pos <= slot <= self.next_alloc,
                free@ == descending(slot as int, self.next_alloc as int),
            decreases slot,
        {
            slot = slot - 1;
            free.push(slot);
            assert(free@ =~= descending(slot as int, self.next_alloc as int));
        }
        self.free_list = free;
        proof {
            let k = write_pos as int;
            assert(self.free_list@ =~= descending(k, self.next_alloc as int));
            assert forall|j: int| 0 <= j < n implies #[trigger] self.alive@[j] == (j < k) by {
                if j >= k {
                    assert(!self.alive@[j]);
                }
            }
            crate::model::lemma_live_count_of_prefix(self.alive@, k);
            assert forall|i: int| 0 <= i < self.free_list@.len() implies {
                let s = #[trigger] self.free_list@[i];
                &&& s < self.next_alloc
                &&& !self.alive@[s as int]
            } by {
            }
            assert forall|j: int|
                self.next_alloc <= j < self.capacity implies !#[trigger] self.alive@[j]
                && self.generation@[j] == 0 by {
                assert(!old(self).alive@[j]);
                assert(!a0[j] && g0[j] == 0);
                assert(self.generation@[j] == compacted_generation(a0, g0, j));
            }
            assert forall|j: int|
                k <= j < n && !old(self).occupied()[j] implies #[trigger] self.slots()[j]
                == old(self).slots()[j] by {
                assert(!self.alive@[j]);
            }
            assert forall|j: int| 0 <= j < n implies #[trigger] self.generations()[j]
                == compacted_generation(a0, g0, j) by {
                assert(self.generation@[j] == compacted_generation(a0, g0, j));
            }
        }
        remap
    }

    /// The shape that the invariant guarantees: the free list holds distinct
    /// free slots below the never-used mark, every slot from that mark on is
    /// free at generation 0, and no more slots are live than lie below the
    /// mark.
    pub proof fn lemma_wf_shape(&self)
        requires
            self.wf(),
        ensures
            forall|i: int|
                0 <= i < self.free_stack().len() ==> {
                    let s = #[trigger] self.free_stack()[i];
                    &&& s < self.high_water()
                    &&& !self.occupied()[s as int]
                },
            forall|i: int, j: int|
                0 <= i < j < self.free_stack().len() ==> self.free_stack()[i]
                    != self.free_stack()[j],
            forall|i: int|
                self.high_water() <= i < self.slot_count() ==> !#[trigger] self.occupied()[i]
                    && self.generations()[i] == 0,
            self.live_total() <= self.high_water(),
    {
        assert forall|i: int| self.next_alloc <= i < self.capacity implies !#[trigger] self.alive@[i] by {
        }
        crate::model::lemma_rank_flat(self.alive@, self.next_alloc as int, self.capacity as int);
        crate::model::lemma_rank_le_index(self.alive@, self.next_alloc as int);
        crate::model::lemma_rank_full(self.alive@);
    }

    /// The entry held by slot `i`, if the slot is live.
    pub(crate) fn slot_entry(&self, i: usize) -> (r: Option<(ArenaId, &T)>)
        requires
            self.wf(),
            i < self.slot_count(),
        ensures
            r is Some <==> self.occupied()[i as int],
            r is Some ==> {
                &&& r.unwrap().0 == (ArenaId { index: i, generation: self.generations()[i as int] })
                &&& *r.unwrap().1 == self.slots()[i as int]
            },
    {
        if self.alive[i] {
            Some((ArenaId::new(i, self.generation[i]), &self.storage[i]))
        } else {
            None
        }
    }

    /// The length part of the invariant.
    closed spec fn wf_lengths(&self) -> bool {
        &&& self.storage@.len() == self.capacity
        &&& self.generation@.len() == self.capacity
        &&& self.alive@.len() == self.capacity
    }
}

impl<T: Default + Clone> Default for Arena<T> {
    /// An arena with 1024 slots.
    fn default() -> (arena: Self)
        ensures
            arena.wf(),
            arena.slot_count() == 1024,
            forall|i: int| 0 <= i < arena.slot_count() ==> !#[trigger] arena.occupied()[i],
            forall|i: int| 0 <= i < arena.slot_count() ==> #[trigger] arena.generations()[i] == 0,
            arena.free_stack().len() == 0,
            arena.high_water() == 0,
    {
        Self::new(DEFAULT_CAPACITY)
    }
}

} // verus!
