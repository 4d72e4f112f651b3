use hecs_schedule::access::AccessDescriptor;
use hecs_schedule::access::Target;
use hecs_schedule::error::Error;
use hecs_schedule::store::Store;
use hecs_schedule::subworld::SubWorld;

#[test]
fn undeclared_component_is_refused_even_when_present() {
    let mut store = Store::new();
    let e = store.spawn_now(vec![(1, 10), (2, 20)]);
    let w = SubWorld::new(vec![(1, false)]);
    // the entity has component 2, yet the view may not see it
    assert_eq!(w.get(&store, e, 2), Err(Error::UnauthorizedComponent { component: 2 }));
    // nor on an entity that lacks it, nor on an unknown entity
    let e2 = store.spawn_now(vec![(1, 11)]);
    assert_eq!(w.get(&store, e2, 2), Err(Error::UnauthorizedComponent { component: 2 }));
    assert_eq!(w.get(&store, 12345, 2), Err(Error::UnauthorizedComponent { component: 2 }));
}

#[test]
fn undeclared_component_in_query_is_refused() {
    let mut store = Store::new();
    store.spawn_now(vec![(1, 10), (2, 20)]);
    let w = SubWorld::new(vec![(1, false)]);
    assert_eq!(
        w.query(&store, &vec![(1, false), (2, false)]),
        Err(Error::UnauthorizedComponent { component: 2 })
    );
    // asking to write a component declared read-only is refused too
    assert_eq!(
        w.query(&store, &vec![(1, true)]),
        Err(Error::UnauthorizedComponent { component: 1 })
    );
}

#[test]
fn get_distinguishes_absence_kinds() {
    let mut store = Store::new();
    let e = store.spawn_now(vec![(1, 10)]);
    let w = SubWorld::new(vec![(1, false), (2, false)]);
    assert_eq!(w.get(&store, e, 1), Ok(10));
    assert_eq!(w.get(&store, e, 2), Err(Error::NotFound { component: 2 }));
    assert_eq!(w.get(&store, 999, 1), Err(Error::NoSuchEntity));
}

#[test]
fn set_mutates_values_in_place_only() {
    let mut store = Store::new();
    let e = store.spawn_now(vec![(1, 10)]);
    let w = SubWorld::new(vec![(1, true), (2, false)]);
    assert_eq!(w.set(&mut store, e, 1, 77), Ok(()));
    assert_eq!(store.get_component(e, 1), Ok(77));
    // component 2 is declared read-only: writing it is refused
    assert_eq!(w.set(&mut store, e, 2, 5), Err(Error::UnauthorizedComponent { component: 2 }));
    // value mutation never adds a component
    assert_eq!(w.set(&mut store, e, 2, 5), Err(Error::UnauthorizedComponent { component: 2 }));
    let w2 = SubWorld::new(vec![(2, true)]);
    assert_eq!(w2.set(&mut store, e, 2, 5), Err(Error::NotFound { component: 2 }));
    assert_eq!(store.components_of(e), Some(vec![(1, 77)]));
}

#[test]
fn query_returns_matching_entities_with_values() {
    let mut store = Store::new();
    let a = store.spawn_now(vec![(1, 10), (2, 20)]);
    let b = store.spawn_now(vec![(1, 11)]);
    let c = store.spawn_now(vec![(2, 22)]);
    let w = SubWorld::new(vec![(1, false), (2, true)]);

    let rows = w.query(&store, &vec![(1, false)]).unwrap();
    assert_eq!(rows.len(), 2);
    assert!(rows.contains(&(a, vec![10])));
    assert!(rows.contains(&(b, vec![11])));

    let rows2 = w.query(&store, &vec![(1, false), (2, true)]).unwrap();
    assert_eq!(rows2, vec![(a, vec![10, 20])]);

    let rows3 = w.query(&store, &vec![(2, false)]).unwrap();
    assert_eq!(rows3.len(), 2);
    assert!(rows3.contains(&(a, vec![20])));
    assert!(rows3.contains(&(c, vec![22])));
}

#[test]
fn access_set_mirrors_declarations() {
    let w = SubWorld::new(vec![(1, false), (2, true)]);
    assert_eq!(
        w.access_set(),
        vec![
            AccessDescriptor { target: Target::Store { component: 1 }, writes: false, optional: false },
            AccessDescriptor { target: Target::Store { component: 2 }, writes: true, optional: false },
        ]
    );
}
