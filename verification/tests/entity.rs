use aether::entity::{EntityId, EntitySlots};

#[test]
fn entity_id_bit_round_trip() {
    let id = EntityId::from_bits((678u64 << 32) | 12345);
    assert_eq!(id.index(), 12345);
    assert_eq!(id.generation(), 678);
    assert_eq!(EntityId::from_bits(id.to_bits()), id);
}

#[test]
fn despawn_invalidates_handle_and_slot_is_reused_with_new_generation() {
    let mut s = EntitySlots::new();
    let (a, reused_a) = s.spawn();
    let (b, _) = s.spawn();
    assert!(!reused_a);
    assert_eq!((a.index(), a.generation()), (0, 0));
    assert_eq!(b.index(), 1);
    assert_eq!(s.len(), 2);
    assert!(s.despawn(a));
    assert!(!s.contains(a));
    assert!(!s.despawn(a), "a stale handle is rejected");
    assert_eq!(s.len(), 1);
    let (c, reused_c) = s.spawn();
    assert!(reused_c);
    assert_eq!((c.index(), c.generation()), (0, 1));
    assert!(s.contains(c) && s.contains(b) && !s.contains(a));
    assert_eq!(s.slots(), 2);
}

#[test]
fn ids_lists_live_slots_in_order() {
    let mut s = EntitySlots::default();
    let ids: Vec<EntityId> = (0..5).map(|_| s.spawn().0).collect();
    s.despawn(ids[1]);
    s.despawn(ids[3]);
    let live = s.ids();
    assert_eq!(live, vec![ids[0], ids[2], ids[4]]);
    assert!(!s.is_empty());
    for id in live {
        s.despawn(id);
    }
    assert!(s.is_empty());
    assert_eq!(s.len(), 0);
}
