use entity_index::Command;
use entity_index::EntityId;
use entity_index::HookEvent;
use entity_index::Index;
use entity_index::IndexError;
use entity_index::IndexStore;
use entity_index::InternalIndex;
use entity_index::SlotMap;
use entity_index::flush;

fn e(n: u32) -> EntityId {
    EntityId::new(n, 0)
}

#[test]
fn entity_id_fields() {
    let id = EntityId::new(3, 5);
    assert_eq!(id.index, 3);
    assert_eq!(id.generation, 5);
}

#[test]
fn stale_generation_differs() {
    assert_ne!(EntityId::new(3, 0), EntityId::new(3, 1));
    assert_eq!(EntityId::new(3, 1), EntityId::new(3, 1));
}

#[test]
fn wrapper_conversion_keeps_key() {
    let cell = InternalIndex::from(Index(5));
    assert_eq!(cell.0, 5);
}

#[test]
fn scenario_attach_one() {
    let mut slots = SlotMap::new();
    let mut store = IndexStore::new();
    let batch = vec![Command::Attach(e(1), Index(7))];
    let trace = flush(&mut slots, &mut store, &batch);
    assert_eq!(trace, vec![HookEvent::Inserted(e(1), 7)]);
    assert!(store.contains_key(7));
    assert!(store.has(7, e(1)));
    assert!(!store.has(7, e(2)));
    assert!(!store.contains_key(8));
}

#[test]
fn scenario_shared_key_detach_one() {
    let mut slots = SlotMap::new();
    let mut store = IndexStore::new();
    let batch = vec![
        Command::Attach(e(1), Index(7)),
        Command::Attach(e(2), Index(7)),
        Command::Detach(e(1)),
    ];
    let trace = flush(&mut slots, &mut store, &batch);
    assert_eq!(
        trace,
        vec![
            HookEvent::Inserted(e(1), 7),
            HookEvent::Inserted(e(2), 7),
            HookEvent::Removed(e(1), 7),
        ]
    );
    assert!(store.contains_key(7));
    assert!(store.has(7, e(2)));
    assert!(!store.has(7, e(1)));
    assert_eq!(slots.fetch(e(1)), None);
    assert_eq!(slots.fetch(e(2)), Some(7));
}

#[test]
fn scenario_last_holder_prunes_key() {
    let mut slots = SlotMap::new();
    let mut store = IndexStore::new();
    let setup = vec![Command::Attach(e(1), Index(7))];
    flush(&mut slots, &mut store, &setup);
    let batch = vec![Command::Detach(e(1))];
    let trace = flush(&mut slots, &mut store, &batch);
    assert_eq!(trace, vec![HookEvent::Removed(e(1), 7)]);
    assert!(!store.contains_key(7));
    assert!(!store.has(7, e(1)));
}

#[test]
fn scenario_destroy_fires_remove() {
    let mut slots = SlotMap::new();
    let mut store = IndexStore::new();
    let setup = vec![Command::Attach(e(1), Index(7))];
    flush(&mut slots, &mut store, &setup);
    let batch = vec![Command::Destroy(e(1))];
    let trace = flush(&mut slots, &mut store, &batch);
    assert_eq!(trace, vec![HookEvent::Removed(e(1), 7)]);
    assert!(!store.contains_key(7));
    assert_eq!(slots.fetch(e(1)), None);
}

#[test]
fn hook_order_within_batch() {
    let mut slots = SlotMap::new();
    let mut store = IndexStore::new();
    let batch = vec![
        Command::Attach(e(1), Index(7)),
        Command::Detach(e(1)),
        Command::Attach(e(1), Index(9)),
    ];
    let trace = flush(&mut slots, &mut store, &batch);
    assert_eq!(
        trace,
        vec![
            HookEvent::Inserted(e(1), 7),
            HookEvent::Removed(e(1), 7),
            HookEvent::Inserted(e(1), 9),
        ]
    );
    assert!(store.has(9, e(1)));
    assert!(!store.contains_key(7));
}

#[test]
fn replacement_fires_remove_then_insert() {
    let mut slots = SlotMap::new();
    let mut store = IndexStore::new();
    let setup = vec![Command::Attach(e(1), Index(7))];
    flush(&mut slots, &mut store, &setup);
    let batch = vec![Command::Attach(e(1), Index(9))];
    let trace = flush(&mut slots, &mut store, &batch);
    assert_eq!(
        trace,
        vec![HookEvent::Removed(e(1), 7), HookEvent::Inserted(e(1), 9)]
    );
    assert!(!store.contains_key(7));
    assert!(store.has(9, e(1)));
    assert_eq!(slots.fetch(e(1)), Some(9));
}

#[test]
fn read_path_idempotent() {
    let mut slots = SlotMap::new();
    let mut store = IndexStore::new();
    let batch = vec![Command::Attach(e(1), Index(7))];
    flush(&mut slots, &mut store, &batch);
    let first = slots.fetch(e(1));
    let second = slots.fetch(e(1));
    let third = slots.fetch(e(1));
    assert_eq!(first, Some(7));
    assert_eq!(first, second);
    assert_eq!(second, third);
    assert_eq!(slots.fetch(e(9)), None);
    assert_eq!(slots.fetch(e(9)), None);
}

#[test]
fn store_matches_slots_after_mixed_batch() {
    let mut slots = SlotMap::new();
    let mut store = IndexStore::new();
    let batch = vec![
        Command::Attach(e(1), Index(7)),
        Command::Attach(e(2), Index(7)),
        Command::Attach(e(3), Index(8)),
        Command::Attach(e(2), Index(8)),
        Command::Destroy(e(3)),
        Command::Attach(e(4), Index(7)),
        Command::Detach(e(4)),
    ];
    flush(&mut slots, &mut store, &batch);
    for n in 1..5 {
        for k in [7u64, 8, 9] {
            let holds = slots.fetch(e(n)) == Some(k);
            assert_eq!(store.has(k, e(n)), holds);
        }
    }
    assert!(store.contains_key(7));
    assert!(store.contains_key(8));
    assert!(!store.contains_key(9));
    assert_eq!(slots.fetch(e(2)), Some(8));
}

#[test]
fn empty_batch_fires_nothing() {
    let mut slots = SlotMap::new();
    let mut store = IndexStore::new();
    let batch: Vec<Command> = Vec::new();
    let trace = flush(&mut slots, &mut store, &batch);
    assert!(trace.is_empty());
    assert!(!store.contains_key(0));
}

#[test]
fn detach_without_slot_fires_nothing() {
    let mut slots = SlotMap::new();
    let mut store = IndexStore::new();
    let batch = vec![Command::Detach(e(1)), Command::Destroy(e(2))];
    let trace = flush(&mut slots, &mut store, &batch);
    assert!(trace.is_empty());
}

#[test]
fn remove_unknown_key_is_missing_key() {
    let mut store = IndexStore::new();
    assert_eq!(store.remove(7, e(1)), Err(IndexError::MissingKey));
    assert!(!store.contains_key(7));
}

#[test]
fn remove_unknown_holder_is_missing_holder() {
    let mut store = IndexStore::new();
    store.insert(7, e(1));
    assert_eq!(store.remove(7, e(2)), Err(IndexError::MissingHolder));
    assert!(store.has(7, e(1)));
}

#[test]
fn store_insert_remove_round_trip() {
    let mut store = IndexStore::new();
    store.insert(7, e(1));
    store.insert(7, e(2));
    assert!(store.has(7, e(1)));
    assert!(store.has(7, e(2)));
    assert_eq!(store.remove(7, e(1)), Ok(()));
    assert!(!store.has(7, e(1)));
    assert!(store.has(7, e(2)));
    assert_eq!(store.remove(7, e(2)), Ok(()));
    assert!(!store.contains_key(7));
}

#[test]
fn slot_attach_returns_replaced_key() {
    let mut slots = SlotMap::new();
    assert_eq!(slots.attach(e(1), Index(7)), None);
    assert_eq!(slots.attach(e(1), Index(9)), Some(7));
    assert_eq!(slots.detach(e(1)), Some(9));
    assert_eq!(slots.detach(e(1)), None);
}
