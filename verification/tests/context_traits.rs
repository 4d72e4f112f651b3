use hecs_schedule::access::AccessDescriptor;
use hecs_schedule::access::Target;
use hecs_schedule::context::Context;
use hecs_schedule::error::Error;
use hecs_schedule::store::Store;
use hecs_schedule::subworld::SubWorld;
use hecs_schedule::traits::IntoBorrow;
use hecs_schedule::traits::MaybeRead;
use hecs_schedule::traits::Read;
use hecs_schedule::traits::ResourceView;
use hecs_schedule::traits::Write;

#[test]
fn side_resources_are_read_and_written() {
    let mut ctx = Context::new(Store::new(), vec![(1, 10), (2, 20)]);
    assert!(ctx.has_side(1));
    assert!(!ctx.has_side(3));
    assert_eq!(ctx.read_side(2), Ok(20));
    assert_eq!(ctx.read_side(3), Err(Error::MissingResource { id: 3 }));
    assert_eq!(ctx.write_side(1, 15), Ok(()));
    assert_eq!(ctx.read_side(1), Ok(15));
    assert_eq!(ctx.write_side(3, 1), Err(Error::MissingResource { id: 3 }));
}

#[test]
fn wrappers_declare_their_borrows() {
    assert_eq!(
        Read { id: 4 }.into_borrow(),
        vec![AccessDescriptor { target: Target::Side { id: 4 }, writes: false, optional: false }]
    );
    assert_eq!(
        Write { id: 4 }.into_borrow(),
        vec![AccessDescriptor { target: Target::Side { id: 4 }, writes: true, optional: false }]
    );
    assert_eq!(
        MaybeRead { id: 4 }.into_borrow(),
        vec![AccessDescriptor { target: Target::Side { id: 4 }, writes: false, optional: true }]
    );
    let w = SubWorld::new(vec![(7, true)]);
    assert_eq!(
        w.into_borrow(),
        vec![AccessDescriptor { target: Target::Store { component: 7 }, writes: true, optional: false }]
    );
}

#[test]
fn a_resource_is_a_view_of_itself() {
    let d = AccessDescriptor::read(Target::Commands);
    assert_eq!(AccessDescriptor::split(d), d);
    let w = SubWorld::new(vec![(1, false)]);
    let v = SubWorld::split(w);
    assert!(v.is_declared(1));
    assert!(!v.is_declared(2));
}

#[test]
fn context_drain_applies_deferred_commands() {
    let mut ctx = Context::new(Store::new(), vec![]);
    let p = ctx.cmd.spawn(vec![(1, 5)]);
    ctx.cmd.insert(p, 2, 6);
    assert_eq!(ctx.drain_commands(), Ok(()));
    let ents = ctx.store.entities();
    assert_eq!(ents.len(), 1);
    assert_eq!(ctx.store.get_component(ents[0], 1), Ok(5));
    assert_eq!(ctx.store.get_component(ents[0], 2), Ok(6));
}
