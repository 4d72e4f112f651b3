use hecs_schedule::access::AccessDescriptor;
use hecs_schedule::access::Target;
use hecs_schedule::context::Context;
use hecs_schedule::schedule::Schedule;
use hecs_schedule::schedule::WorkUnit;
use hecs_schedule::store::Store;

/// A unit that only declares accesses and does nothing.
struct Decl(Vec<AccessDescriptor>);

impl WorkUnit for Decl {
    fn descriptors(&self) -> Vec<AccessDescriptor> {
        self.0.clone()
    }

    fn run(&mut self, _ctx: &mut Context) -> Result<(), u64> {
        Ok(())
    }
}

fn side_read(id: u64) -> AccessDescriptor {
    AccessDescriptor::read(Target::Side { id })
}

fn side_write(id: u64) -> AccessDescriptor {
    AccessDescriptor::write(Target::Side { id })
}

#[test]
fn nonconflicting_units_share_a_batch() {
    let mut s = Schedule::new();
    s.add_system(Decl(vec![side_read(1)]));
    s.add_system(Decl(vec![side_read(1)]));
    s.add_system(Decl(vec![side_read(2)]));
    let plan = s.compute_batches();
    assert_eq!(plan, vec![vec![0usize, 1, 2]]);
}

#[test]
fn conflicting_units_are_ordered() {
    let mut s = Schedule::new();
    s.add_system(Decl(vec![side_write(1)]));
    s.add_system(Decl(vec![side_read(1)]));
    let plan = s.compute_batches();
    assert_eq!(plan, vec![vec![0usize], vec![1usize]]);
    // the later-declared conflicting unit stands in a strictly later batch
    assert!(plan[0].contains(&0) && plan[1].contains(&1));
}

#[test]
fn two_writers_of_one_resource_never_share_a_batch() {
    let mut s = Schedule::new();
    s.add_system(Decl(vec![side_write(4)]));
    s.add_system(Decl(vec![side_write(4)]));
    let plan = s.compute_batches();
    assert_eq!(plan.len(), 2);
}

#[test]
fn batching_is_deterministic() {
    let build = || {
        let mut s = Schedule::new();
        s.add_system(Decl(vec![side_write(1), side_read(2)]));
        s.add_system(Decl(vec![side_read(1)]));
        s.add_system(Decl(vec![side_write(3)]));
        s.add_system(Decl(vec![side_read(3), side_read(1)]));
        s.compute_batches()
    };
    assert_eq!(build(), build());
}

#[test]
fn store_component_scoped_conflicts() {
    // two units touching different components of the store do not conflict
    let mut s = Schedule::new();
    s.add_system(Decl(vec![AccessDescriptor::write(Target::Store { component: 1 })]));
    s.add_system(Decl(vec![AccessDescriptor::write(Target::Store { component: 2 })]));
    s.add_system(Decl(vec![AccessDescriptor::read(Target::Store { component: 1 })]));
    let plan = s.compute_batches();
    assert_eq!(plan, vec![vec![0usize, 1], vec![2usize]]);
}

#[test]
fn duplicate_declarations_are_folded() {
    // a unit declaring the same resource twice (read and write) conflicts as
    // a writer but holds a single slot, so it can still be scheduled
    let mut s = Schedule::new();
    s.add_system(Decl(vec![side_read(1), side_write(1), side_read(1)]));
    s.add_system(Decl(vec![side_read(1)]));
    let plan = s.compute_batches();
    assert_eq!(plan.len(), 2);
    let mut ctx = Context::new(Store::new(), vec![(1, 0)]);
    let mut s2 = Schedule::new();
    s2.add_system(Decl(vec![side_read(1), side_write(1), side_read(1)]));
    assert!(s2.execute(&mut ctx).is_ok());
}

#[test]
fn empty_schedule_succeeds() {
    let mut s: Schedule<Decl> = Schedule::new();
    assert_eq!(s.compute_batches().len(), 0);
    let mut ctx = Context::new(Store::new(), vec![]);
    assert!(s.execute(&mut ctx).is_ok());
}
