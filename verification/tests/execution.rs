use hecs_schedule::access::AccessDescriptor;
use hecs_schedule::access::Target;
use hecs_schedule::context::Context;
use hecs_schedule::error::Error;
use hecs_schedule::error::ScheduleError;
use hecs_schedule::schedule::Schedule;
use hecs_schedule::schedule::WorkUnit;
use hecs_schedule::store::Store;

enum Unit {
    /// Writes `value` into side resource `id`.
    WriteSide { id: u64, value: i64 },
    /// Copies the value of side resource `from` into side resource `to`.
    CopySide { from: u64, to: u64 },
    /// Reads side resource `id` and discards the value.
    ReadSide { id: u64 },
    /// Requires side resource `id` without touching anything else.
    Needs { id: u64 },
    /// Enqueues a spawn and a despawn of the same placeholder entity.
    SpawnAndDespawn,
    /// Fails with the given code.
    Fail { code: u64 },
}

impl WorkUnit for Unit {
    fn descriptors(&self) -> Vec<AccessDescriptor> {
        match self {
            Unit::WriteSide { id, .. } => vec![AccessDescriptor::write(Target::Side { id: *id })],
            Unit::CopySide { from, to } => vec![
                AccessDescriptor::read(Target::Side { id: *from }),
                AccessDescriptor::write(Target::Side { id: *to }),
            ],
            Unit::ReadSide { id } => vec![AccessDescriptor::read(Target::Side { id: *id })],
            Unit::Needs { id } => vec![AccessDescriptor::read(Target::Side { id: *id })],
            Unit::SpawnAndDespawn => vec![AccessDescriptor::write(Target::Commands)],
            Unit::Fail { .. } => vec![],
        }
    }

    fn run(&mut self, ctx: &mut Context) -> Result<(), u64> {
        match self {
            Unit::WriteSide { id, value } => {
                ctx.write_side(*id, *value).map_err(|_| 1u64)
            },
            Unit::CopySide { from, to } => {
                let v = ctx.read_side(*from).map_err(|_| 2u64)?;
                ctx.write_side(*to, v).map_err(|_| 3u64)
            },
            Unit::ReadSide { id } => ctx.read_side(*id).map(|_| ()).map_err(|_| 4u64),
            Unit::Needs { id } => ctx.read_side(*id).map(|_| ()).map_err(|_| 5u64),
            Unit::SpawnAndDespawn => {
                let p = ctx.cmd.spawn(vec![(1, 10)]);
                ctx.cmd.despawn(p);
                Ok(())
            },
            Unit::Fail { code } => Err(*code),
        }
    }
}

#[test]
fn writer_then_reader_then_unrelated() {
    // unit A writes resource X (side 1); unit B reads X; unit C reads Y
    // (side 2): the plan is [{A}, {B, C}], executing succeeds, and B
    // observes A's write.
    let mut s = Schedule::new();
    s.add_system(Unit::WriteSide { id: 1, value: 42 });
    s.add_system(Unit::CopySide { from: 1, to: 9 });
    s.add_system(Unit::ReadSide { id: 2 });
    let plan = s.compute_batches();
    assert_eq!(plan, vec![vec![0usize], vec![1usize, 2]]);

    let mut ctx = Context::new(Store::new(), vec![(1, 0), (2, 7), (9, -1)]);
    let r = s.execute(&mut ctx);
    assert!(r.is_ok());
    assert_eq!(ctx.read_side(1), Ok(42));
    // B ran after A and saw the written value
    assert_eq!(ctx.read_side(9), Ok(42));
}

#[test]
fn missing_required_resource_stops_the_schedule() {
    // batch 0: A writes side 1; batch 1: D needs missing side 5 and writes
    // side 1; batch 2: E writes sides 1 and 2. execute reports the missing
    // resource naming D, and E's batch never runs.
    let mut s = Schedule::new();
    s.add_system(Unit::WriteSide { id: 1, value: 11 });
    s.add_system(Unit::CopySide { from: 5, to: 1 });
    s.add_system(Unit::WriteSide { id: 1, value: 99 });
    let plan = s.compute_batches();
    assert_eq!(plan.len(), 3);

    let mut ctx = Context::new(Store::new(), vec![(1, 0), (2, 0)]);
    let r = s.execute(&mut ctx);
    match r {
        Err(ScheduleError::UnitFailures { failures }) => {
            assert_eq!(failures.len(), 1);
            assert_eq!(failures[0].0, 1);
            assert_eq!(failures[0].1, Error::MissingResource { id: 5 });
        },
        _ => panic!("expected a missing-resource failure"),
    }
    // the batch before the failing one ran; the one after did not
    assert_eq!(ctx.read_side(1), Ok(11));
}

#[test]
fn spawn_and_despawn_same_placeholder() {
    // a unit enqueues a spawn and a despawn of the same placeholder in one
    // pass: after the drain no such entity exists and no error is raised.
    let mut s = Schedule::new();
    s.add_system(Unit::SpawnAndDespawn);
    let mut ctx = Context::new(Store::new(), vec![]);
    let r = s.execute(&mut ctx);
    assert!(r.is_ok());
    assert!(ctx.store.entities().is_empty());
    assert_eq!(ctx.cmd.len(), 0);
}

#[test]
fn unit_failure_aborts_later_batches() {
    let mut s = Schedule::new();
    s.add_system(Unit::Fail { code: 7 });
    s.add_system(Unit::WriteSide { id: 1, value: 5 });
    // the failing unit declares nothing, so both units share batch 0 and the
    // write still happens; a conflicting later unit in a later batch must not
    let mut ctx = Context::new(Store::new(), vec![(1, 0)]);
    match s.execute(&mut ctx) {
        Err(ScheduleError::UnitFailures { failures }) => {
            assert_eq!(failures.len(), 1);
            assert_eq!(failures[0].0, 0);
            assert_eq!(failures[0].1, Error::Failed { code: 7 });
        },
        _ => panic!("expected a unit failure"),
    }
    assert_eq!(ctx.read_side(1), Ok(5));

    let mut s2 = Schedule::new();
    s2.add_system(Unit::WriteSide { id: 1, value: 1 });
    s2.add_system(Unit::Fail { code: 8 });
    s2.add_system(Unit::WriteSide { id: 1, value: 2 });
    // plan: [{0, 1}, {2}]; the failure in batch 0 stops batch 1
    let mut ctx2 = Context::new(Store::new(), vec![(1, 0)]);
    assert!(s2.execute(&mut ctx2).is_err());
    assert_eq!(ctx2.read_side(1), Ok(1));
}

#[test]
fn optional_missing_resource_is_absorbed() {
    struct MaybeUnit;
    impl WorkUnit for MaybeUnit {
        fn descriptors(&self) -> Vec<AccessDescriptor> {
            vec![AccessDescriptor { target: Target::Side { id: 5 }, writes: false, optional: true }]
        }

        fn run(&mut self, ctx: &mut Context) -> Result<(), u64> {
            // the optional dependency is absent: skip the body
            if ctx.has_side(5) {
                return Err(9);
            }
            Ok(())
        }
    }
    let mut s = Schedule::new();
    s.add_system(MaybeUnit);
    let mut ctx = Context::new(Store::new(), vec![]);
    assert!(s.execute(&mut ctx).is_ok());
}

#[test]
fn drain_happens_after_the_last_batch() {
    struct SpawnOne;
    impl WorkUnit for SpawnOne {
        fn descriptors(&self) -> Vec<AccessDescriptor> {
            vec![AccessDescriptor::write(Target::Commands)]
        }

        fn run(&mut self, ctx: &mut Context) -> Result<(), u64> {
            let _ = ctx.cmd.spawn(vec![(3, 30), (4, 40)]);
            Ok(())
        }
    }
    let mut s = Schedule::new();
    s.add_system(SpawnOne);
    let mut ctx = Context::new(Store::new(), vec![]);
    assert!(s.execute(&mut ctx).is_ok());
    let ents = ctx.store.entities();
    assert_eq!(ents.len(), 1);
    assert_eq!(ctx.store.get_component(ents[0], 3), Ok(30));
    assert_eq!(ctx.store.get_component(ents[0], 4), Ok(40));
}
