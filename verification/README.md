# lau_memory_arena

Pre-allocated, generation-checked arenas for game entities, verified with Verus.

- `src/id.rs`: `ArenaId`, an (index, generation) handle.
- `src/arena.rs`: `Arena<T>`, its abstract state (slots, generations,
  occupancy, LIFO free list, never-used mark), its invariant, and the
  operations `new`, `allocate`, `dealloc`, `get`, `get_mut`, `is_alive`,
  `alive_count`, `capacity`, `compact`, each specified by a transition
  predicate over that state.
- `src/slot_map.rs`: `SlotMap<T>`, a map-style interface over an arena, with
  `iter` (returning a `Vec` of entries) and `retain`.
- `src/entity.rs`: `EntitySlot` and the `EntityArena` alias.
- `src/model.rs`: counting and relocation functions used by the contracts,
  with their lemmas.
- `src/laws.rs`: properties that relate one call to the next, proved from
  the contracts.
- `src/history.rs`: properties over any sequence of calls: capacity,
  retired ids, the live count, and what `get` and `is_alive` answer for an
  id given the calls that issued, wrote, moved or freed it.
- `app/lib.rs`: the `VibeArena` alias, whose element type is a float.
