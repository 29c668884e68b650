use lau_memory_arena::{Arena, ArenaId, EntitySlot, SlotMap};

#[test]
fn new_arena_ids_start_at_slot_zero_generation_zero() {
    let mut arena = Arena::<u32>::new(4);
    let a = arena.allocate(1).unwrap();
    let b = arena.allocate(2).unwrap();
    assert_eq!(a, ArenaId::new(0, 0));
    assert_eq!(b, ArenaId::new(1, 0));
}

#[test]
fn allocate_keeps_earlier_entries() {
    let mut arena = Arena::<u32>::new(4);
    let a = arena.allocate(10).unwrap();
    let b = arena.allocate(20).unwrap();
    let _c = arena.allocate(30).unwrap();
    assert_eq!(arena.get(a), Some(&10));
    assert_eq!(arena.get(b), Some(&20));
}

#[test]
fn free_list_is_last_in_first_out() {
    let mut arena = Arena::<u32>::new(4);
    let a = arena.allocate(1).unwrap();
    let b = arena.allocate(2).unwrap();
    let _c = arena.allocate(3).unwrap();
    assert!(arena.dealloc(a));
    assert!(arena.dealloc(b));
    let d = arena.allocate(4).unwrap();
    let e = arena.allocate(5).unwrap();
    assert_eq!(d, ArenaId::new(b.index, 1));
    assert_eq!(e, ArenaId::new(a.index, 1));
    // The free list is drained before the never-used slot 3 is taken.
    let f = arena.allocate(6).unwrap();
    assert_eq!(f, ArenaId::new(3, 0));
    assert!(arena.allocate(7).is_none());
}

#[test]
fn dealloc_touches_only_its_slot() {
    let mut arena = Arena::<u32>::new(4);
    let a = arena.allocate(1).unwrap();
    let b = arena.allocate(2).unwrap();
    assert!(arena.dealloc(a));
    assert_eq!(arena.get(b), Some(&2));
    assert!(arena.is_alive(b));
    assert_eq!(arena.alive_count(), 1);
}

#[test]
fn dealloc_stale_generation_changes_nothing() {
    let mut arena = Arena::<u32>::new(4);
    let a = arena.allocate(1).unwrap();
    assert!(!arena.dealloc(ArenaId::new(a.index, a.generation + 1)));
    assert_eq!(arena.get(a), Some(&1));
    assert_eq!(arena.alive_count(), 1);
}

#[test]
fn get_of_never_used_slot_is_none() {
    let arena = Arena::<u32>::new(4);
    assert_eq!(arena.get(ArenaId::new(2, 0)), None);
    assert!(!arena.is_alive(ArenaId::new(2, 0)));
    assert!(!arena.is_alive(ArenaId::new(99, 0)));
}

#[test]
fn get_mut_on_stale_id_is_none() {
    let mut arena = Arena::<u32>::new(4);
    let a = arena.allocate(5).unwrap();
    assert!(arena.dealloc(a));
    assert!(arena.get_mut(a).is_none());
}

#[test]
fn write_through_get_mut_leaves_other_entries() {
    let mut arena = Arena::<u32>::new(4);
    let a = arena.allocate(1).unwrap();
    let b = arena.allocate(2).unwrap();
    *arena.get_mut(a).unwrap() = 11;
    assert_eq!(arena.get(a), Some(&11));
    assert_eq!(arena.get(b), Some(&2));
}

#[test]
fn alive_count_after_failed_calls_is_unchanged() {
    let mut arena = Arena::<u32>::new(1);
    let a = arena.allocate(1).unwrap();
    assert!(arena.allocate(2).is_none());
    assert!(!arena.dealloc(ArenaId::new(5, 0)));
    assert_eq!(arena.alive_count(), 1);
    assert!(arena.dealloc(a));
    assert_eq!(arena.alive_count(), 0);
}

#[test]
fn compact_places_entries_at_their_rank() {
    let mut arena = Arena::<u32>::new(6);
    let ids: Vec<ArenaId> = (0..5).map(|v| arena.allocate(v * 10).unwrap()).collect();
    assert!(arena.dealloc(ids[0]));
    assert!(arena.dealloc(ids[2]));
    let remap = arena.compact();
    // Live entries were at slots 1, 3, 4; they now sit at 0, 1, 2, each under
    // the generation its new slot already carried.
    assert_eq!(
        remap,
        vec![
            (ArenaId::new(1, 0), ArenaId::new(0, 1)),
            (ArenaId::new(3, 0), ArenaId::new(1, 1)),
            (ArenaId::new(4, 0), ArenaId::new(2, 1)),
        ]
    );
    assert_eq!(arena.get(ArenaId::new(0, 1)), Some(&10));
    assert_eq!(arena.get(ArenaId::new(1, 1)), Some(&30));
    assert_eq!(arena.get(ArenaId::new(2, 1)), Some(&40));
    assert_eq!(arena.alive_count(), 3);
    // Every old id, and every id freed earlier, is dead.
    for id in &ids {
        assert!(!arena.is_alive(*id));
    }
    // The vacated slots 3 and 4 are handed out again, lowest first.
    assert_eq!(arena.allocate(50), Some(ArenaId::new(3, 1)));
    assert_eq!(arena.allocate(60), Some(ArenaId::new(4, 1)));
    assert_eq!(arena.allocate(70), Some(ArenaId::new(5, 0)));
    assert!(arena.allocate(80).is_none());
}

#[test]
fn compact_returns_vacated_slots_to_the_free_list() {
    let mut arena = Arena::<u32>::new(3);
    let _a = arena.allocate(1).unwrap();
    let b = arena.allocate(2).unwrap();
    let _c = arena.allocate(3).unwrap();
    assert!(arena.dealloc(b));
    let remap = arena.compact();
    assert_eq!(remap.len(), 1);
    assert_eq!(arena.alive_count(), 2);
    let r = arena.allocate(4).unwrap();
    assert_eq!(r.index, 2);
    assert_eq!(arena.get(r), Some(&4));
    assert_eq!(arena.alive_count(), 3);
    assert!(arena.allocate(5).is_none());
}

#[test]
fn compact_never_revives_freed_ids() {
    let mut arena = Arena::<u32>::new(2);
    let a = arena.allocate(1).unwrap();
    let b = arena.allocate(2).unwrap();
    assert_eq!(a, ArenaId::new(0, 0));
    assert_eq!(b, ArenaId::new(1, 0));
    assert!(arena.dealloc(a));
    let remap = arena.compact();
    // `b` moves to slot 0 under the generation slot 0 got when `a` was freed.
    assert_eq!(remap, vec![(b, ArenaId::new(0, 1))]);
    assert_eq!(arena.get(a), None);
    assert_eq!(arena.get(b), None);
    assert_eq!(arena.get(ArenaId::new(0, 1)), Some(&2));
}

#[test]
fn slotmap_iter_lists_ids_in_slot_order() {
    let mut sm: SlotMap<u32> = SlotMap::new(5);
    let a = sm.insert(1).unwrap();
    let b = sm.insert(2).unwrap();
    let c = sm.insert(3).unwrap();
    assert!(sm.remove(b));
    let entries = sm.iter();
    assert_eq!(entries, vec![(a, &1), (c, &3)]);
}

#[test]
fn slotmap_retain_frees_rejected_ids() {
    let mut sm: SlotMap<u32> = SlotMap::new(5);
    let a = sm.insert(1).unwrap();
    let b = sm.insert(2).unwrap();
    let c = sm.insert(3).unwrap();
    sm.retain(|_id, v| *v != 2);
    assert_eq!(sm.get(a), Some(&1));
    assert_eq!(sm.get(b), None);
    assert_eq!(sm.get(c), Some(&3));
    assert_eq!(sm.len(), 2);
    // The rejected slot went on the free list and is reused first.
    let d = sm.insert(4).unwrap();
    assert_eq!(d, ArenaId::new(b.index, b.generation + 1));
}

#[test]
fn slotmap_get_mut_writes_value() {
    let mut sm: SlotMap<u32> = SlotMap::new(2);
    let a = sm.insert(1).unwrap();
    *sm.get_mut(a).unwrap() = 9;
    assert_eq!(sm.get(a), Some(&9));
    assert!(sm.remove(a));
    assert!(sm.get_mut(a).is_none());
    assert!(sm.is_empty());
}

#[test]
fn default_arena_has_1024_slots() {
    let arena = Arena::<u32>::default();
    assert_eq!(arena.capacity(), 1024);
    assert_eq!(arena.alive_count(), 0);
}

#[test]
fn compact_leaves_entries_already_in_place() {
    let mut arena = Arena::<u32>::new(4);
    let a = arena.allocate(1).unwrap();
    let b = arena.allocate(2).unwrap();
    let c = arena.allocate(3).unwrap();
    assert!(arena.dealloc(b));
    let remap = arena.compact();
    assert_eq!(remap, vec![(c, ArenaId::new(1, 1))]);
    // `a` was already at its rank: same id, same value.
    assert_eq!(arena.get(a), Some(&1));
    assert_eq!(arena.get(ArenaId::new(1, 1)), Some(&3));
    // Neither `c`'s old id nor the freed `b` resolves.
    assert_eq!(arena.get(c), None);
    assert_eq!(arena.get(b), None);
}

#[test]
fn entity_slot_default_is_inactive_and_empty() {
    let slot = EntitySlot::default();
    assert_eq!(slot.component_mask, 0);
    assert!(!slot.active);
}

#[test]
fn slotmap_insert_fails_only_when_full() {
    let mut sm: SlotMap<u32> = SlotMap::new(2);
    let a = sm.insert(1).unwrap();
    let _b = sm.insert(2).unwrap();
    assert_eq!(sm.len(), 2);
    assert!(sm.insert(3).is_none());
    assert!(sm.remove(a));
    assert!(sm.insert(3).is_some());
}

#[test]
fn generation_mismatch_is_rejected_by_every_accessor() {
    let mut arena = Arena::<u32>::new(10);
    let id = arena.allocate(1).unwrap();
    let stale = ArenaId::new(id.index, id.generation + 1);
    assert_eq!(arena.get(stale), None);
    assert!(arena.get_mut(stale).is_none());
    assert!(!arena.is_alive(stale));
    assert_eq!(arena.capacity(), 10);
}

#[test]
fn get_returns_last_value_stored_under_an_id_across_calls() {
    let mut arena = Arena::<u32>::new(4);
    let a = arena.allocate(1).unwrap();
    let b = arena.allocate(2).unwrap();
    let c = arena.allocate(3).unwrap();
    *arena.get_mut(c).unwrap() = 33;
    assert!(arena.dealloc(a));
    assert!(!arena.dealloc(a));
    let remap = arena.compact();
    assert_eq!(remap.len(), 2);
    // Each moved entry resolves under its new id to the last value stored.
    let new_b = remap[0].1;
    let new_c = remap[1].1;
    assert_eq!(remap[0].0, b);
    assert_eq!(remap[1].0, c);
    assert_eq!(arena.get(new_b), Some(&2));
    assert_eq!(arena.get(new_c), Some(&33));
    // Ids that were freed or moved away are no longer alive.
    assert!(!arena.is_alive(a));
    assert!(!arena.is_alive(b));
    assert!(!arena.is_alive(c));
    assert!(arena.is_alive(new_b) && arena.is_alive(new_c));
    *arena.get_mut(new_b).unwrap() = 22;
    assert_eq!(arena.get(new_b), Some(&22));
}

#[test]
fn slotmap_len_counts_inserts_removes_and_retain_drops() {
    let mut sm: SlotMap<u32> = SlotMap::new(8);
    let mut ids = Vec::new();
    for v in 0..6 {
        ids.push(sm.insert(v).unwrap());
    }
    assert!(sm.remove(ids[0]));
    assert!(!sm.remove(ids[0]));
    // 6 inserts - 1 remove = 5; retain drops the odd values 1, 3, 5.
    sm.retain(|_id, v| *v % 2 == 0);
    assert_eq!(sm.len(), 2);
    assert_eq!(sm.iter().len(), 2);
}
