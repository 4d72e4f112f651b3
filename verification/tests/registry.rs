use hecs_schedule::access::Target;
use hecs_schedule::error::Error;
use hecs_schedule::registry::BorrowRegistry;

#[test]
fn reads_are_shared() {
    let mut r = BorrowRegistry::new();
    let t = Target::Side { id: 1 };
    assert_eq!(r.acquire_read(t), Ok(()));
    assert_eq!(r.acquire_read(t), Ok(()));
    assert!(r.is_borrowed(t));
}

#[test]
fn write_is_denied_while_read_is_active() {
    let mut r = BorrowRegistry::new();
    let t = Target::Side { id: 1 };
    assert_eq!(r.acquire_read(t), Ok(()));
    assert_eq!(r.acquire_write(t), Err(Error::AccessDenied));
    r.release_read(t);
    assert_eq!(r.acquire_write(t), Ok(()));
}

#[test]
fn read_is_denied_while_write_is_active() {
    let mut r = BorrowRegistry::new();
    let t = Target::Store { component: 3 };
    assert_eq!(r.acquire_write(t), Ok(()));
    assert_eq!(r.acquire_read(t), Err(Error::AccessDenied));
    assert_eq!(r.acquire_write(t), Err(Error::AccessDenied));
    r.release_write(t);
    assert_eq!(r.acquire_read(t), Ok(()));
}

#[test]
fn distinct_identities_are_independent() {
    let mut r = BorrowRegistry::new();
    assert_eq!(r.acquire_write(Target::Side { id: 1 }), Ok(()));
    assert_eq!(r.acquire_write(Target::Side { id: 2 }), Ok(()));
    assert_eq!(r.acquire_read(Target::Store { component: 1 }), Ok(()));
    assert_eq!(r.acquire_write(Target::Commands), Ok(()));
    assert!(!r.is_borrowed(Target::Store { component: 2 }));
}

#[test]
fn release_restores_availability() {
    let mut r = BorrowRegistry::new();
    let t = Target::Commands;
    assert_eq!(r.acquire_read(t), Ok(()));
    assert_eq!(r.acquire_read(t), Ok(()));
    r.release_read(t);
    // one read is still active: a write is still denied
    assert_eq!(r.acquire_write(t), Err(Error::AccessDenied));
    r.release_read(t);
    assert!(!r.is_borrowed(t));
    assert_eq!(r.acquire_write(t), Ok(()));
}
