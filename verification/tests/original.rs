use lau_memory_arena::{Arena, ArenaId, EntityArena, EntitySlot, SlotMap};

// ---- Arena basics -----------------------------------------------------

#[test]
fn alloc_returns_valid_id() {
    let mut arena = Arena::<u32>::new(10);
    let id = arena.allocate(42).expect("alloc should succeed");
    assert_eq!(arena.get(id), Some(&42));
}

#[test]
fn dealloc_frees_and_stale_id_returns_none() {
    let mut arena = Arena::<u32>::new(10);
    let id = arena.allocate(100).expect("alloc");
    assert!(arena.dealloc(id));
    // Same id should now be stale (generation bumped)
    assert_eq!(arena.get(id), None);
    // Double dealloc returns false
    assert!(!arena.dealloc(id));
}

#[test]
fn generation_mismatch_returns_none() {
    let mut arena = Arena::<u32>::new(10);
    let id = arena.allocate(1).expect("alloc");
    let stale_id = ArenaId::new(id.index, id.generation + 1);
    assert_eq!(arena.get(stale_id), None);
    assert_eq!(arena.get_mut(stale_id), None);
    assert!(!arena.is_alive(stale_id));
}

#[test]
fn capacity_limit_returns_none() {
    let mut arena = Arena::<u32>::new(3);
    assert!(arena.allocate(1).is_some());
    assert!(arena.allocate(2).is_some());
    assert!(arena.allocate(3).is_some());
    assert!(arena.allocate(4).is_none()); // full
}

#[test]
fn double_dealloc_returns_false() {
    let mut arena = Arena::<u32>::new(5);
    let id = arena.allocate(10).expect("alloc");
    assert!(arena.dealloc(id));
    assert!(!arena.dealloc(id)); // already freed
}

#[test]
fn alloc_reuses_free_list_slots() {
    let mut arena = Arena::<u32>::new(5);
    let a = arena.allocate(1).unwrap();
    let _b = arena.allocate(2).unwrap();
    arena.dealloc(a);
    let c = arena.allocate(3).unwrap();
    // freed slot should be reused
    assert_eq!(c.index, a.index);
    assert_eq!(c.generation, a.generation + 1);
}

#[test]
fn is_alive_works() {
    let mut arena = Arena::<u32>::new(5);
    let id = arena.allocate(7).unwrap();
    assert!(arena.is_alive(id));
    arena.dealloc(id);
    assert!(!arena.is_alive(id));
}

#[test]
fn alive_count_tracks_live_entries() {
    let mut arena = Arena::<u32>::new(10);
    assert_eq!(arena.alive_count(), 0);
    let a = arena.allocate(1).unwrap();
    let b = arena.allocate(2).unwrap();
    assert_eq!(arena.alive_count(), 2);
    arena.dealloc(a);
    assert_eq!(arena.alive_count(), 1);
    arena.dealloc(b);
    assert_eq!(arena.alive_count(), 0);
}

#[test]
fn capacity_returns_initial_capacity() {
    let arena = Arena::<u32>::new(64);
    assert_eq!(arena.capacity(), 64);
}

#[test]
fn get_mut_allows_mutation() {
    let mut arena = Arena::<u32>::new(5);
    let id = arena.allocate(0).unwrap();
    *arena.get_mut(id).unwrap() = 99;
    assert_eq!(arena.get(id), Some(&99));
}

#[test]
fn dealloc_out_of_bounds_id_returns_false() {
    let mut arena = Arena::<u32>::new(5);
    let bad = ArenaId::new(999, 0);
    assert!(!arena.dealloc(bad));
}

// ---- compact ----------------------------------------------------------

#[test]
fn compact_moves_entries_and_updates_ids() {
    let mut arena = Arena::<u32>::new(10);
    let _a = arena.allocate(10).unwrap(); // index 0
    let b = arena.allocate(20).unwrap(); // index 1
    let _c = arena.allocate(30).unwrap(); // index 2

    arena.dealloc(b); // free index 1

    let remap = arena.compact();
    // After compact: a stays at 0, c moves from 2 → 1
    assert_eq!(arena.alive_count(), 2);
    // c should now be at index 1
    let moved = remap.iter().find(|(old, _)| old.index == 2);
    assert!(moved.is_some());
    let (old_id, new_id) = moved.unwrap();
    assert_eq!(new_id.index, 1);
    assert_eq!(arena.get(*new_id), Some(&30));
    assert_eq!(arena.get(*old_id), None); // old location dead
}

#[test]
fn compact_all_alive_no_moves() {
    let mut arena = Arena::<u32>::new(5);
    arena.allocate(1).unwrap();
    arena.allocate(2).unwrap();
    let remap = arena.compact();
    assert!(remap.is_empty());
    assert_eq!(arena.alive_count(), 2);
}

#[test]
fn compact_all_dead_clears() {
    let mut arena = Arena::<u32>::new(5);
    let a = arena.allocate(1).unwrap();
    let b = arena.allocate(2).unwrap();
    arena.dealloc(a);
    arena.dealloc(b);
    let remap = arena.compact();
    assert!(remap.is_empty());
    assert_eq!(arena.alive_count(), 0);
}

// ---- SlotMap ----------------------------------------------------------

#[test]
fn slotmap_insert_get_remove() {
    let mut sm: SlotMap<u32> = SlotMap::new(10);
    let id = sm.insert(42).unwrap();
    assert_eq!(sm.get(id), Some(&42));
    assert!(sm.remove(id));
    assert_eq!(sm.get(id), None);
}

#[test]
fn slotmap_iter_skips_dead_entries() {
    let mut sm: SlotMap<u32> = SlotMap::new(10);
    sm.insert(10).unwrap();
    let id2 = sm.insert(20).unwrap();
    sm.insert(30).unwrap();
    sm.remove(id2);

    let entries: Vec<_> = sm.iter();
    assert_eq!(entries.len(), 2);
    // ids may or may not be the original positions due to reuse
    for (_id, val) in &entries {
        assert!(**val == 10 || **val == 30);
    }
}

#[test]
fn slotmap_retain_removes_correct_entries() {
    let mut sm: SlotMap<u32> = SlotMap::new(10);
    sm.insert(1).unwrap();
    sm.insert(2).unwrap();
    sm.insert(3).unwrap();
    sm.insert(4).unwrap();

    sm.retain(|_id, val| *val % 2 == 0);

    let entries: Vec<_> = sm.iter();
    assert_eq!(entries.len(), 2);
    for (_id, val) in &entries {
        assert!(**val % 2 == 0);
    }
}

#[test]
fn slotmap_len() {
    let mut sm: SlotMap<u32> = SlotMap::new(10);
    assert!(sm.is_empty());
    assert_eq!(sm.len(), 0);
    sm.insert(1).unwrap();
    sm.insert(2).unwrap();
    assert_eq!(sm.len(), 2);
}

#[test]
fn slotmap_is_empty() {
    let sm: SlotMap<u32> = SlotMap::new(5);
    assert!(sm.is_empty());
}

// ---- EntitySlot arena -------------------------------------------------

#[test]
fn entity_arena_alloc_and_dealloc() {
    let mut arena: EntityArena = Arena::new(10);
    let slot = EntitySlot {
        component_mask: 0b101,
        active: true,
    };
    let id = arena.allocate(slot).unwrap();
    let stored = arena.get(id).unwrap();
    assert_eq!(stored.component_mask, 0b101);
    assert!(stored.active);
    assert!(arena.dealloc(id));
    assert!(!arena.is_alive(id));
}

// ---- Arena of floats -------------------------------------------------

#[test]
fn vibe_arena_works() {
    let mut arena: Arena<f64> = Arena::new(10);
    let id = arena.allocate(42.5).unwrap();
    assert_eq!(arena.get(id), Some(&42.5));
    *arena.get_mut(id).unwrap() = 99.9;
    assert_eq!(arena.get(id), Some(&99.9));
}

// ---- Stress test ------------------------------------------------------

#[test]
fn stress_fill_drain_repeat() {
    let mut arena = Arena::<u32>::new(32);
    for cycle in 0..50 {
        let mut ids = Vec::new();
        for i in 0..32 {
            let val = (cycle * 32 + i) as u32;
            let id = arena.allocate(val).expect("alloc should succeed");
            assert_eq!(arena.get(id), Some(&val));
            ids.push((id, val));
        }
        // Arena is full now
        assert!(arena.allocate(99).is_none());

        for (id, val) in &ids {
            assert!(arena.is_alive(*id));
            assert_eq!(arena.get(*id), Some(val));
        }

        for (id, _) in &ids {
            arena.dealloc(*id);
        }
        assert_eq!(arena.alive_count(), 0);
    }
}

// ---- Edge cases -------------------------------------------------------

#[test]
fn alloc_after_full_with_free_slot() {
    let mut arena = Arena::<u32>::new(3);
    let a = arena.allocate(1).unwrap();
    let _b = arena.allocate(2).unwrap();
    let _c = arena.allocate(3).unwrap();
    assert!(arena.allocate(4).is_none()); // full
    arena.dealloc(a);
    // Now should have room via free list
    let d = arena.allocate(5).unwrap();
    assert_eq!(arena.get(d), Some(&5));
}

#[test]
fn default_capacity() {
    let arena = Arena::<u32>::default();
    // should be at least 1
    assert!(arena.capacity() >= 1);
}

#[test]
fn zero_capacity_uses_minimum_of_one() {
    let arena = Arena::<u32>::new(0);
    assert_eq!(arena.capacity(), 1);
}

#[test]
fn stale_id_after_reuse() {
    let mut arena = Arena::<u32>::new(10);
    let id = arena.allocate(100).unwrap();
    arena.dealloc(id);
    // Reuse the slot with a new value
    let id2 = arena.allocate(200).unwrap();
    assert_eq!(id2.index, id.index);
    assert_ne!(id2.generation, id.generation);
    // Old id should be dead
    assert!(!arena.is_alive(id));
    assert_eq!(arena.get(id), None);
    // New id works
    assert_eq!(arena.get(id2), Some(&200));
}

#[test]
fn arena_default() {
    let arena = Arena::<u32>::default();
    assert!(arena.capacity() >= 1);
}

#[test]
fn slotmap_default() {
    let sm: SlotMap<u32> = SlotMap::default();
    assert!(sm.is_empty());
}
