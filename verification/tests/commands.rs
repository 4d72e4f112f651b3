use hecs_schedule::commandbuffer::CommandBuffer;
use hecs_schedule::commandbuffer::EntityRef;
use hecs_schedule::error::Error;
use hecs_schedule::store::Store;

#[test]
fn records_apply_in_enqueue_order() {
    let mut store = Store::new();
    let e = store.spawn_now(vec![(5, 1)]);
    let mut cmd = CommandBuffer::new();
    // two writes to the same component: the later record wins
    cmd.insert(EntityRef::Real { id: e }, 5, 2);
    cmd.insert(EntityRef::Real { id: e }, 5, 3);
    assert_eq!(cmd.drain(&mut store), Ok(()));
    assert_eq!(store.get_component(e, 5), Ok(3));

    // insert then remove leaves the component absent; remove then insert
    // leaves it present
    let mut cmd = CommandBuffer::new();
    cmd.insert(EntityRef::Real { id: e }, 6, 60);
    cmd.remove(EntityRef::Real { id: e }, 6);
    assert_eq!(cmd.drain(&mut store), Ok(()));
    assert_eq!(store.get_component(e, 6), Err(Error::NotFound { component: 6 }));

    let mut cmd = CommandBuffer::new();
    cmd.remove(EntityRef::Real { id: e }, 7);
    cmd.insert(EntityRef::Real { id: e }, 7, 70);
    assert_eq!(cmd.drain(&mut store), Ok(()));
    assert_eq!(store.get_component(e, 7), Ok(70));
}

#[test]
fn draining_an_empty_buffer_is_a_no_op() {
    let mut store = Store::new();
    let e = store.spawn_now(vec![(1, 1)]);
    let mut cmd = CommandBuffer::new();
    assert!(cmd.is_empty());
    assert_eq!(cmd.drain(&mut store), Ok(()));
    assert_eq!(store.entities(), vec![e]);
    assert_eq!(store.get_component(e, 1), Ok(1));
}

#[test]
fn despawning_a_nonexistent_entity_is_tolerated() {
    let mut store = Store::new();
    let e = store.spawn_now(vec![(1, 1)]);
    assert!(store.despawn_now(e));
    let mut cmd = CommandBuffer::new();
    cmd.despawn(EntityRef::Real { id: e });
    cmd.despawn(EntityRef::Real { id: 987654 });
    assert_eq!(cmd.drain(&mut store), Ok(()));
}

#[test]
fn placeholders_resolve_to_spawned_entities() {
    let mut store = Store::new();
    let mut cmd = CommandBuffer::new();
    let p = cmd.spawn(vec![(1, 10)]);
    cmd.insert(p, 2, 20);
    assert_eq!(cmd.drain(&mut store), Ok(()));
    let ents = store.entities();
    assert_eq!(ents.len(), 1);
    assert_eq!(store.get_component(ents[0], 1), Ok(10));
    assert_eq!(store.get_component(ents[0], 2), Ok(20));
}

#[test]
fn failed_record_is_reported_by_index() {
    let mut store = Store::new();
    let e = store.spawn_now(vec![(1, 1)]);
    let mut cmd = CommandBuffer::new();
    cmd.insert(EntityRef::Real { id: e }, 2, 2);
    // inserting on an entity that does not exist is unrecoverable
    cmd.insert(EntityRef::Real { id: 424242 }, 3, 3);
    assert_eq!(cmd.drain(&mut store), Err(1));
    // the record before the failing one was applied
    assert_eq!(store.get_component(e, 2), Ok(2));
    // the buffer is emptied even on failure
    assert_eq!(cmd.len(), 0);
}

#[test]
fn unresolved_placeholder_is_an_error() {
    let mut store = Store::new();
    let mut cmd = CommandBuffer::new();
    cmd.despawn(EntityRef::Pending { token: 99 });
    assert_eq!(cmd.drain(&mut store), Err(0));
}

#[test]
fn store_spawn_get_and_despawn() {
    let mut store = Store::new();
    assert!(store.entities().is_empty());
    let a = store.spawn_now(vec![(1, 10), (2, 20)]);
    let b = store.spawn_now(vec![(1, 11)]);
    assert_ne!(a, b);
    assert!(store.contains(a) && store.contains(b));
    assert_eq!(store.get_component(a, 2), Ok(20));
    assert_eq!(store.get_component(b, 2), Err(Error::NotFound { component: 2 }));
    assert_eq!(store.get_component(77777, 1), Err(Error::NoSuchEntity));
    let mut ents = store.entities();
    ents.sort();
    let mut expect = vec![a, b];
    expect.sort();
    assert_eq!(ents, expect);
    assert!(store.despawn_now(a));
    assert!(!store.despawn_now(a));
    assert!(!store.contains(a));
    assert_eq!(store.entities(), vec![b]);
}

#[test]
fn store_component_mutation() {
    let mut store = Store::new();
    let e = store.spawn_now(vec![(1, 10)]);
    assert_eq!(store.insert_component(e, 2, 20), Ok(()));
    assert_eq!(store.get_component(e, 2), Ok(20));
    assert_eq!(store.insert_component(e, 2, 21), Ok(()));
    assert_eq!(store.components_of(e), Some(vec![(1, 10), (2, 21)]));
    assert_eq!(store.set_component(e, 1, -5), Ok(()));
    assert_eq!(store.get_component(e, 1), Ok(-5));
    assert_eq!(store.set_component(e, 9, 1), Err(Error::NotFound { component: 9 }));
    assert_eq!(store.remove_component(e, 1), Ok(()));
    assert_eq!(store.components_of(e), Some(vec![(2, 21)]));
    // removing an absent component is tolerated
    assert_eq!(store.remove_component(e, 1), Ok(()));
    assert_eq!(store.insert_component(55555, 1, 1), Err(Error::NoSuchEntity));
}
