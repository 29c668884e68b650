use vstd::prelude::*;

use crate::arena::Arena;
use crate::id::ArenaId;
use crate::model::{dropped, live_entries, next_generation};


verus! {

/// A slot-map-style interface over an [`Arena`].
pub struct SlotMap<T: Default + Clone> {
    arena: Arena<T>,
}

impl<T: Default + Clone> SlotMap<T> {
    /// The arena behind the map.
    pub closed spec fn inner(&self) -> Arena<T> {
        self.arena
    }

    /// The map's invariant: that of its arena.
    pub open spec fn wf(&self) -> bool {
        self.inner().wf()
    }

    /// The live entries, in slot order, each with the id that names it.
    pub open spec fn entries(&self) -> Seq<(ArenaId, T)> {
        live_entries(
            self.inner().occupied(),
            self.inner().generations(),
            self.inner().slots(),
            self.inner().slot_count() as int,
        )
    }

    /// Creates a map over an arena of `max(capacity, 1)` free slots.
    pub fn new(capacity: usize) -> (map: Self)
        ensures
            map.wf(),
            map.inner().slot_count() == if capacity == 0 { 1 } else { capacity },
            forall|i: int|
                0 <= i < map.inner().slot_count() ==> !#[trigger] map.inner().occupied()[i],
            forall|i: int|
                0 <= i < map.inner().slot_count() ==> #[trigger] map.inner().generations()[i] == 0,
            map.inner().free_stack().len() == 0,
            map.inner().high_water() == 0,
    {
        SlotMap { arena: Arena::new(capacity) }
    }

    /// Inserts a value; behaves exactly as [`Arena::allocate`].
    pub fn insert(&mut self, value: T) -> (r: Option<ArenaId>)
        requires
            old(self).wf(),
        ensures
            final(self).wf(),
            Arena::alloc_step(old(self).inner(), final(self).inner(), value, r),
            r is None <==> old(self).inner().live_total() == old(self).inner().slot_count(),
    {
        self.arena.allocate(value)
    }

    /// Removes the entry at `id`; behaves exactly as [`Arena::dealloc`].
    pub fn remove(&mut self, id: ArenaId) -> (r: bool)
        requires
            old(self).wf(),
        ensures
            final(self).wf(),
            Arena::dealloc_step(old(self).inner(), final(self).inner(), id, r),
    {
        self.arena.dealloc(id)
    }

    /// Borrows the value at `id` (generation-checked).
    pub fn get(&self, id: ArenaId) -> (r: Option<&T>)
        requires
            self.wf(),
        ensures
            match r {
                Some(v) => self.inner().lookup(id) == Some(*v),
                None => self.inner().lookup(id) is None,
            },
    {
        self.arena.get(id)
    }

    /// Mutably borrows the value at `id` (generation-checked).
    pub fn get_mut(&mut self, id: ArenaId) -> (r: Option<&mut T>)
        requires
            old(self).wf(),
        ensures
            match r {
                Some(v) => {
                    &&& old(self).inner().lookup(id) == Some(*v)
                    &&& final(self).wf()
                    &&& Arena::write_step(old(self).inner(), final(self).inner(), id, *final(v))
                },
                None => {
                    &&& old(self).inner().lookup(id) is None
                    &&& final(self).wf()
                    &&& final(self).inner().same_state(&old(self).inner())
                },
            },
    {
        self.arena.get_mut(id)
    }

    /// Every live entry as an `(id, &value)` pair, in slot order.
    pub fn iter(&self) -> (r: Vec<(ArenaId, &T)>)
        requires
            self.wf(),
        ensures
            r@.len() == self.entries().len(),
            forall|k: int|
                0 <= k < r@.len() ==> (#[trigger] r@[k]).0 == self.entries()[k].0 && *r@[k].1
                    == self.entries()[k].1,
    {
        let n = self.arena.capacity();
        let mut out: Vec<(ArenaId, &T)> = Vec::new();
        let mut i: usize = 0;
        while i < n
            invariant
                self.wf(),
                n == self.inner().slot_count(),
                i <= n,
                out@.len() == live_entries(
                    self.inner().occupied(),
                    self.inner().generations(),
                    self.inner().slots(),
                    i as int,
                ).len(),
                forall|k: int|
                    0 <= k < out@.len() ==> {
                        let e = live_entries(
                            self.inner().occupied(),
                            self.inner().generations(),
                            self.inner().slots(),
                            i as int,
                        )[k];
                        (#[trigger] out@[k]).0 == e.0 && *out@[k].1 == e.1
                    },
            decreases n - i,
        {
            match self.arena.slot_entry(i) {
                Some(entry) => {
                    out.push(entry);
                },
                None => {},
            }
            i = i + 1;
        }
        out
    }

    /// Number of live entries.
    pub fn len(&self) -> (r: usize)
        requires
            self.wf(),
        ensures
            r == self.inner().live_total(),
    {
        self.arena.alive_count()
    }

    /// Whether the map holds no live entry.
    pub fn is_empty(&self) -> (r: bool)
        requires
            self.wf(),
        ensures
            r == (self.inner().live_total() == 0),
    {
        self.len() == 0
    }

    /// Keeps only the entries for which `f` returns `true`, calling `f` once
    /// for each live slot in ascending slot order; each rejected entry is
    /// removed as by `remove`.
    ///
    /// The contract speaks of `f`'s answers through `call_ensures`, the
    /// relation between a call's arguments and a result it may give. vstd
    /// takes a call of an `FnMut` closure to leave the closure unchanged, so
    /// the contract can say which answer decided each entry but cannot count
    /// the calls or order them.
    pub fn retain(&mut self, mut f: impl FnMut(ArenaId, &T) -> bool)
        requires
            old(self).wf(),
            forall|i: int|
                0 <= i < old(self).inner().slot_count() && #[trigger] old(self).inner().occupied()[i]
                    ==> call_requires(
                    f,
                    (
                        ArenaId { index: i as usize, generation: old(self).inner().generations()[i] },
                        &old(self).inner().slots()[i],
                    ),
                ),
        ensures
            final(self).wf(),
            Self::retain_step(old(self).inner(), final(self).inner(), f),
    {
        broadcast use vstd::function::group_function_axioms;

        let ghost pre = self.inner();
        let ghost f0 = f;
        let n = self.arena.capacity();
        let mut i: usize = 0;
        while i < n
            invariant
                self.wf(),
                pre.wf(),
                pre == old(self).inner(),
                f == f0,
                n == pre.slot_count(),
                i <= n,
                self.inner().slot_count() == pre.slot_count(),
                self.inner().high_water() == pre.high_water(),
                self.inner().slots().len() == pre.slots().len(),
                forall|j: int|
                    0 <= j < pre.slot_count() && #[trigger] pre.occupied()[j] ==> call_requires(
                        f,
                        (
                            ArenaId { index: j as usize, generation: pre.generations()[j] },
                            &pre.slots()[j],
                        ),
                    ),
                forall|j: int| i <= j < n ==> #[trigger] self.inner().occupied()[j] == pre.occupied()[j],
                forall|j: int|
                    i <= j < n ==> #[trigger] self.inner().generations()[j] == pre.generations()[j],
                forall|j: int| i <= j < n ==> #[trigger] self.inner().slots()[j] == pre.slots()[j],
                forall|j: int| 0 <= j < i ==> Self::slot_kept_or_dropped(pre, self.inner(), f, j),
                self.inner().free_stack() == pre.free_stack() + dropped(
                    pre.occupied(),
                    self.inner().occupied(),
                    i as int,
                ),
            decreases n - i,
        {
            let ghost mid = self.inner();
            proof {
                mid.lemma_wf_shape();
            }
            let entry = self.arena.slot_entry(i);
            if entry.is_none() {
                proof {
                    assert(mid.occupied()[i as int] == pre.occupied()[i as int]);
                    assert(mid.generations()[i as int] == pre.generations()[i as int]);
                    assert(mid.slots()[i as int] == pre.slots()[i as int]);
                    assert(dropped(pre.occupied(), self.inner().occupied(), i + 1) =~= dropped(
                        pre.occupied(),
                        self.inner().occupied(),
                        i as int,
                    ));
                }
                i = i + 1;
                continue;
            }
            let (id, value) = entry.unwrap();
            let keep = f(id, value);
            proof {
                assert(call_ensures(f, (id, value), keep));
            }
            if keep {
                proof {
                    assert(mid.occupied()[i as int] == pre.occupied()[i as int]);
                    assert(mid.generations()[i as int] == pre.generations()[i as int]);
                    assert(mid.slots()[i as int] == pre.slots()[i as int]);
                    assert(dropped(pre.occupied(), self.inner().occupied(), i + 1) =~= dropped(
                        pre.occupied(),
                        self.inner().occupied(),
                        i as int,
                    ));
                }
                i = i + 1;
                continue;
            }
            let removed = self.arena.dealloc(id);
            proof {
                let post = self.inner();
                assert(removed);
                assert forall|j: int| i + 1 <= j < n implies #[trigger] post.occupied()[j]
                    == pre.occupied()[j] by {
                    assert(mid.occupied()[j] == pre.occupied()[j]);
                }
                assert forall|j: int| i + 1 <= j < n implies #[trigger] post.generations()[j]
                    == pre.generations()[j] by {
                    assert(mid.generations()[j] == pre.generations()[j]);
                }
                assert forall|j: int| i + 1 <= j < n implies #[trigger] post.slots()[j]
                    == pre.slots()[j] by {
                    assert(mid.slots()[j] == pre.slots()[j]);
                }
                assert forall|j: int| 0 <= j < i + 1 implies Self::slot_kept_or_dropped(
                    pre,
                    post,
                    f,
                    j,
                ) by {
                    if j < i {
                        assert(Self::slot_kept_or_dropped(pre, mid, f, j));
                        assert(post.occupied()[j] == mid.occupied()[j]);
                        assert(post.generations()[j] == mid.generations()[j]);
                        assert(post.slots()[j] == mid.slots()[j]);
                    } else {
                        assert(mid.occupied()[j] == pre.occupied()[j]);
                        assert(mid.generations()[j] == pre.generations()[j]);
                        assert(mid.slots()[j] == pre.slots()[j]);
                    }
                }
                crate::model::lemma_dropped_prefix(
                    pre.occupied(),
                    post.occupied(),
                    mid.occupied(),
                    i as int,
                );
                assert(mid.occupied()[i as int] == pre.occupied()[i as int]);
                assert(post.free_stack() =~= pre.free_stack() + dropped(
                    pre.occupied(),
                    post.occupied(),
                    i + 1,
                ));
            }
            i = i + 1;
        }
    }

    /// What happened to slot `j` in a `retain` with `f` that took `pre` to
    /// `post`: a free slot is untouched; a live one either stays, `f` having
    /// answered `true` for it, or is freed with its generation bumped, `f`
    /// having answered `false`.
    pub open spec fn slot_kept_or_dropped<F: FnMut(ArenaId, &T) -> bool>(
        pre: Arena<T>,
        post: Arena<T>,
        f: F,
        j: int,
    ) -> bool {
        let id = ArenaId { index: j as usize, generation: pre.generations()[j] };
        if !pre.occupied()[j] {
            &&& !post.occupied()[j]
            &&& post.generations()[j] == pre.generations()[j]
            &&& post.slots()[j] == pre.slots()[j]
        } else if post.occupied()[j] {
            &&& call_ensures(f, (id, &pre.slots()[j]), true)
            &&& post.generations()[j] == pre.generations()[j]
            &&& post.slots()[j] == pre.slots()[j]
        } else {
            &&& call_ensures(f, (id, &pre.slots()[j]), false)
            &&& post.generations()[j] == next_generation(pre.generations()[j])
        }
    }

    /// What `retain` with `f` did to the arena `pre`, giving `post`: each slot
    /// is kept or dropped as `slot_kept_or_dropped` says, and the dropped slots
    /// were pushed on the free list in slot order.
    pub open spec fn retain_step<F: FnMut(ArenaId, &T) -> bool>(
        pre: Arena<T>,
        post: Arena<T>,
        f: F,
    ) -> bool {
        &&& post.slot_count() == pre.slot_count()
        &&& post.high_water() == pre.high_water()
        &&& post.slots().len() == pre.slots().len()
        &&& forall|j: int|
            0 <= j < pre.slot_count() ==> #[trigger] Self::slot_kept_or_dropped(pre, post, f, j)
        &&& post.free_stack() == pre.free_stack() + dropped(
            pre.occupied(),
            post.occupied(),
            pre.slot_count() as int,
        )
    }
}

impl<T: Default + Clone> Default for SlotMap<T> {
    /// A map over an arena of 1024 free slots.
    fn default() -> (map: Self)
        ensures
            map.wf(),
            map.inner().slot_count() == 1024,
            forall|i: int|
                0 <= i < map.inner().slot_count() ==> !#[trigger] map.inner().occupied()[i],
            forall|i: int|
                0 <= i < map.inner().slot_count() ==> #[trigger] map.inner().generations()[i] == 0,
            map.inner().free_stack().len() == 0,
            map.inner().high_water() == 0,
    {
        Self::new(1024)
    }
}

} // verus!
