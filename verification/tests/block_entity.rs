use aether::block_entity::{BlockEntity, BlockEntityArena};

#[test]
fn doc_example_insert_get_remove() {
    let mut arena = BlockEntityArena::new();
    let pos = arena.insert_at(2, 3, 4, BlockEntity::Chest);
    assert_eq!(arena.get(pos), Some(&BlockEntity::Chest));
    assert_eq!(arena.len(), 1);
    assert_eq!(arena.remove(pos), Some(BlockEntity::Chest));
    assert!(arena.get(pos).is_none());
}

#[test]
fn insert_get_remove_round_trip() {
    let mut a = BlockEntityArena::new();
    assert!(a.is_empty());
    let pos = a.insert_at(1, 2, 3, BlockEntity::Furnace);
    assert_eq!(a.len(), 1);
    assert!(a.contains(pos));
    assert_eq!(a.get(pos), Some(&BlockEntity::Furnace));
    assert_eq!(a.remove(pos), Some(BlockEntity::Furnace));
    assert!(!a.contains(pos));
    assert_eq!(a.len(), 0);
    assert_eq!(a.remove(pos), None);
}

#[test]
fn insert_replaces_and_returns_old() {
    let mut a = BlockEntityArena::new();
    let pos = a.insert_at(0, 0, 0, BlockEntity::Chest);
    let old = a.insert(
        pos,
        BlockEntity::Spawner {
            mob: "minecraft:zombie".into(),
        },
    );
    assert_eq!(old, Some(BlockEntity::Chest));
    assert_eq!(a.len(), 1);
    assert!(matches!(a.get(pos), Some(BlockEntity::Spawner { .. })));
}

#[test]
fn get_mut_edits_in_place() {
    let mut a = BlockEntityArena::new();
    let pos = a.insert_at(5, 5, 5, BlockEntity::Sign { lines: vec![] });
    if let Some(BlockEntity::Sign { lines }) = a.get_mut(pos) {
        lines.push("hello".into());
    }
    assert_eq!(
        a.get(pos),
        Some(&BlockEntity::Sign {
            lines: vec!["hello".to_string()]
        })
    );
}

#[test]
fn freed_slots_are_reused() {
    let mut a = BlockEntityArena::new();
    let p0 = a.insert_at(0, 0, 0, BlockEntity::Chest);
    let _p1 = a.insert_at(1, 0, 0, BlockEntity::Furnace);
    assert_eq!(a.slots(), 2);
    a.remove(p0);
    a.insert_at(2, 0, 0, BlockEntity::Chest);
    assert_eq!(a.slots(), 2);
    assert_eq!(a.len(), 2);
}

#[test]
fn distinct_positions_are_independent() {
    let mut a = BlockEntityArena::new();
    let p1 = a.insert_at(1, 1, 1, BlockEntity::Chest);
    let p2 = a.insert_at(2, 2, 2, BlockEntity::Furnace);
    assert_ne!(p1, p2);
    assert_eq!(a.get(p1), Some(&BlockEntity::Chest));
    assert_eq!(a.get(p2), Some(&BlockEntity::Furnace));
}

#[test]
fn iter_visits_all_entities() {
    let mut a = BlockEntityArena::new();
    a.insert_at(0, 0, 0, BlockEntity::Chest);
    a.insert_at(15, 15, 15, BlockEntity::Furnace);
    let mut kinds: Vec<_> = a.iter().into_iter().map(|(_, be)| be.clone()).collect();
    kinds.sort_by_key(|be| format!("{be:?}"));
    assert_eq!(kinds, vec![BlockEntity::Chest, BlockEntity::Furnace]);
}

#[test]
fn morton_keys_and_missing_positions() {
    let mut a = BlockEntityArena::default();
    assert_eq!(a.insert_at(15, 15, 15, BlockEntity::Other { kind: "minecraft:bell".into() }), 4095);
    assert_eq!(a.insert_at(1, 0, 0, BlockEntity::Chest), 1);
    assert!(a.get_mut(7).is_none());
    assert!(a.get(7).is_none());
    assert_eq!(a.iter().len(), 2);
}
