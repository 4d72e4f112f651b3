//! Runtime borrow accounting per resource identity.
//!
//! The registry keeps, for each resource identity, the count of active read
//! borrows and whether a write borrow is active. The schedule's batching makes
//! same-batch conflicts impossible by construction; the registry re-checks the
//! same discipline at run time as a defensive invariant.

use vstd::prelude::*;

use crate::access::Target;
use crate::error::Error;

verus! {

/// The borrow counters of one resource identity.
#[derive(Clone, Copy, Debug)]
struct Slot {
    target: Target,
    reads: usize,
    write: bool,
}

/// First index of `s` whose slot names `t`, or -1 when no slot does.
spec fn find_slot(s: Seq<Slot>, t: Target) -> int
    decreases s.len(),
{
    if s.len() == 0 {
        -1
    } else if s[0].target == t {
        0
    } else {
        let r = find_slot(s.drop_first(), t);
        if r < 0 {
            -1
        } else {
            r + 1
        }
    }
}

proof fn lemma_find_slot(s: Seq<Slot>, t: Target)
    ensures
        find_slot(s, t) == -1 || 0 <= find_slot(s, t) < s.len(),
        find_slot(s, t) == -1 ==> forall|i: int| 0 <= i < s.len() ==> s[i].target != t,
        find_slot(s, t) >= 0 ==> s[find_slot(s, t)].target == t,
        forall|i: int| 0 <= i < find_slot(s, t) ==> s[i].target != t,
    decreases s.len(),
{
    if s.len() > 0 && s[0].target != t {
        lemma_find_slot(s.drop_first(), t);
        assert(forall|i: int|
            1 <= i < s.len() ==> #[trigger] s[i] == s.drop_first()[i - 1]);
    }
}

/// A first-match characterisation pins `find_slot` down.
proof fn lemma_find_slot_char(s: Seq<Slot>, t: Target, i: int)
    requires
        0 <= i < s.len(),
        s[i].target == t,
        forall|j: int| 0 <= j < i ==> s[j].target != t,
    ensures
        find_slot(s, t) == i,
    decreases s.len(),
{
    if i > 0 {
        lemma_find_slot_char(s.drop_first(), t, i - 1);
        assert(forall|j: int|
            1 <= j < s.len() ==> #[trigger] s[j] == s.drop_first()[j - 1]);
    }
}

/// `find_slot` looks only at the targets of the slots.
proof fn lemma_find_slot_same_targets(s1: Seq<Slot>, s2: Seq<Slot>, t: Target)
    requires
        s1.len() == s2.len(),
        forall|i: int| 0 <= i < s1.len() ==> s1[i].target == s2[i].target,
    ensures
        find_slot(s1, t) == find_slot(s2, t),
{
    lemma_find_slot(s1, t);
    lemma_find_slot(s2, t);
    if find_slot(s1, t) >= 0 {
        lemma_find_slot_char(s2, t, find_slot(s1, t));
    } else if find_slot(s2, t) >= 0 {
        lemma_find_slot_char(s1, t, find_slot(s2, t));
    }
}

/// A per-identity read/write borrow table, scoped to one execution pass.
pub struct BorrowRegistry {
    slots: Vec<Slot>,
}

impl BorrowRegistry {
    /// The count of active read borrows on identity `t`.
    pub closed spec fn reads_of(self, t: Target) -> nat {
        let i = find_slot(self.slots@, t);
        if i >= 0 {
            self.slots@[i].reads as nat
        } else {
            0
        }
    }

    /// Whether a write borrow is active on identity `t`.
    pub closed spec fn has_write(self, t: Target) -> bool {
        let i = find_slot(self.slots@, t);
        i >= 0 && self.slots@[i].write
    }

    /// Well-formedness: one slot per identity, and a write borrow excludes
    /// read borrows on the same identity.
    pub closed spec fn wf(self) -> bool {
        &&& forall|i: int, j: int|
            0 <= i < self.slots@.len() && 0 <= j < self.slots@.len() && i != j
                ==> self.slots@[i].target != self.slots@[j].target
        &&& forall|i: int|
            0 <= i < self.slots@.len() && #[trigger] self.slots@[i].write
                ==> self.slots@[i].reads == 0
    }

    /// An empty registry: no identity holds any borrow.
    pub fn new() -> (r: BorrowRegistry)
        ensures
            r.wf(),
            forall|t: Target| r.reads_of(t) == 0,
            forall|t: Target| !r.has_write(t),
    {
        let r = BorrowRegistry { slots: Vec::new() };
        proof {
            assert forall|t: Target| r.reads_of(t) == 0 && !r.has_write(t) by {
                lemma_find_slot(r.slots@, t);
            }
        }
        r
    }

    /// First index of the slot for `t`, if one exists.
    fn find(&self, t: &Target) -> (r: Option<usize>)
        ensures
            match r {
                Some(i) => i < self.slots@.len() && find_slot(self.slots@, *t) == i,
                None => find_slot(self.slots@, *t) == -1,
            },
    {
        let mut i: usize = 0;
        while i < self.slots.len()
            invariant
                0 <= i <= self.slots@.len(),
                forall|j: int| 0 <= j < i ==> self.slots@[j].target != *t,
            decreases self.slots@.len() - i,
        {
            if self.slots[i].target == *t {
                proof {
                    lemma_find_slot_char(self.slots@, *t, i as int);
                }
                return Some(i);
            }
            i += 1;
        }
        proof {
            lemma_find_slot(self.slots@, *t);
            if find_slot(self.slots@, *t) >= 0 {
                assert(self.slots@[find_slot(self.slots@, *t)].target == *t);
            }
        }
        None
    }

    /// Acquire a shared read borrow on `t`: denied exactly when a write
    /// borrow is active; otherwise the read count rises by one and no other
    /// identity changes.
    pub fn acquire_read(&mut self, t: Target) -> (r: Result<(), Error>)
        requires
            old(self).wf(),
            old(self).reads_of(t) < usize::MAX,
        ensures
            final(self).wf(),
            old(self).has_write(t) ==> r == Err::<(), Error>(Error::AccessDenied)
                && *final(self) == *old(self),
            !old(self).has_write(t) ==> r == Ok::<(), Error>(())
                && final(self).reads_of(t) == old(self).reads_of(t) + 1,
            forall|u: Target| u != t ==> final(self).reads_of(u) == old(self).reads_of(u),
            forall|u: Target| final(self).has_write(u) == old(self).has_write(u),
    {
        let ghost s0 = self.slots@;
        match self.find(&t) {
            Some(i) => {
                proof {
                    lemma_find_slot(s0, t);
                }
                if self.slots[i].write {
                    Err(Error::AccessDenied)
                } else {
                    let slot = Slot {
                        target: self.slots[i].target,
                        reads: self.slots[i].reads + 1,
                        write: false,
                    };
                    self.slots[i] = slot;
                    proof {
                        lemma_slot_update_frame(s0, self.slots@, i as int, t);
                    }
                    Ok(())
                }
            },
            None => {
                let slot = Slot { target: t, reads: 1, write: false };
                self.slots.push(slot);
                proof {
                    lemma_slot_push_frame(s0, self.slots@, t);
                }
                Ok(())
            },
        }
    }

    /// Acquire the exclusive write borrow on `t`: denied exactly when any
    /// borrow is active; otherwise the write flag is set and no other
    /// identity changes.
    pub fn acquire_write(&mut self, t: Target) -> (r: Result<(), Error>)
        requires
            old(self).wf(),
        ensures
            final(self).wf(),
            (old(self).has_write(t) || old(self).reads_of(t) > 0)
                ==> r == Err::<(), Error>(Error::AccessDenied) && *final(self) == *old(self),
            !(old(self).has_write(t) || old(self).reads_of(t) > 0)
                ==> r == Ok::<(), Error>(()) && final(self).has_write(t),
            forall|u: Target| u != t ==> final(self).has_write(u) == old(self).has_write(u),
            forall|u: Target| final(self).reads_of(u) == old(self).reads_of(u)
                || (u == t && final(self).reads_of(u) == old(self).reads_of(u)),
    {
        let ghost s0 = self.slots@;
        match self.find(&t) {
            Some(i) => {
                proof {
                    lemma_find_slot(s0, t);
                }
                if self.slots[i].write || self.slots[i].reads > 0 {
                    Err(Error::AccessDenied)
                } else {
                    let slot = Slot { target: self.slots[i].target, reads: 0, write: true };
                    self.slots[i] = slot;
                    proof {
                        lemma_slot_update_frame(s0, self.slots@, i as int, t);
                    }
                    Ok(())
                }
            },
            None => {
                let slot = Slot { target: t, reads: 0, write: true };
                self.slots.push(slot);
                proof {
                    lemma_slot_push_frame(s0, self.slots@, t);
                }
                Ok(())
            },
        }
    }

    /// Release one read borrow on `t`. Never fails: the caller holds the
    /// borrow it releases.
    pub fn release_read(&mut self, t: Target)
        requires
            old(self).wf(),
            old(self).reads_of(t) >= 1,
        ensures
            final(self).wf(),
            final(self).reads_of(t) == old(self).reads_of(t) - 1,
            forall|u: Target| u != t ==> final(self).reads_of(u) == old(self).reads_of(u),
            forall|u: Target| final(self).has_write(u) == old(self).has_write(u),
    {
        let ghost s0 = self.slots@;
        proof {
            lemma_find_slot(s0, t);
        }
        match self.find(&t) {
            Some(i) => {
                let slot = Slot {
                    target: self.slots[i].target,
                    reads: self.slots[i].reads - 1,
                    write: self.slots[i].write,
                };
                self.slots[i] = slot;
                proof {
                    lemma_slot_update_frame(s0, self.slots@, i as int, t);
                }
            },
            None => {
                proof {
                    assert(false);
                }
            },
        }
    }

    /// Release the write borrow on `t`. Never fails: the caller holds the
    /// borrow it releases.
    pub fn release_write(&mut self, t: Target)
        requires
            old(self).wf(),
            old(self).has_write(t),
        ensures
            final(self).wf(),
            !final(self).has_write(t),
            final(self).reads_of(t) == old(self).reads_of(t),
            forall|u: Target| u != t ==> final(self).has_write(u) == old(self).has_write(u),
            forall|u: Target| final(self).reads_of(u) == old(self).reads_of(u),
    {
        let ghost s0 = self.slots@;
        proof {
            lemma_find_slot(s0, t);
        }
        match self.find(&t) {
            Some(i) => {
                let slot = Slot {
                    target: self.slots[i].target,
                    reads: self.slots[i].reads,
                    write: false,
                };
                self.slots[i] = slot;
                proof {
                    lemma_slot_update_frame(s0, self.slots@, i as int, t);
                }
            },
            None => {
                proof {
                    assert(false);
                }
            },
        }
    }

    /// Whether any borrow (read or write) is active on `t`.
    pub fn is_borrowed(&self, t: Target) -> (r: bool)
        ensures
            r == (self.reads_of(t) > 0 || self.has_write(t)),
    {
        match self.find(&t) {
            Some(i) => self.slots[i].reads > 0 || self.slots[i].write,
            None => false,
        }
    }
}

/// After updating the slot at `i` (same target), only identity `t`'s counters
/// can differ, and they are those of the new slot.
proof fn lemma_slot_update_frame(s0: Seq<Slot>, s1: Seq<Slot>, i: int, t: Target)
    requires
        0 <= i < s0.len(),
        s1 == s0.update(i, s1[i]),
        s0[i].target == t,
        s1[i].target == t,
        find_slot(s0, t) == i,
    ensures
        find_slot(s1, t) == i,
        forall|u: Target| u != t ==> find_slot(s1, u) == find_slot(s0, u),
        forall|u: Target|
            u != t && find_slot(s0, u) >= 0 ==> s1[find_slot(s0, u)] == s0[find_slot(s0, u)],
{
    lemma_find_slot_same_targets(s0, s1, t);
    assert forall|u: Target| u != t implies find_slot(s1, u) == find_slot(s0, u) by {
        lemma_find_slot_same_targets(s0, s1, u);
    }
    assert forall|u: Target| u != t && find_slot(s0, u) >= 0
        implies s1[find_slot(s0, u)] == s0[find_slot(s0, u)] by {
        lemma_find_slot(s0, u);
        assert(s0[find_slot(s0, u)].target == u);
    }
}

/// After pushing a slot for an identity that had none, only that identity's
/// counters can differ.
proof fn lemma_slot_push_frame(s0: Seq<Slot>, s1: Seq<Slot>, t: Target)
    requires
        find_slot(s0, t) == -1,
        s1 == s0.push(s1.last()),
        s1.len() == s0.len() + 1,
        s1.last().target == t,
    ensures
        find_slot(s1, t) == s0.len(),
        forall|u: Target| u != t ==> find_slot(s1, u) == find_slot(s0, u),
        forall|u: Target|
            u != t && find_slot(s0, u) >= 0 ==> s1[find_slot(s0, u)] == s0[find_slot(s0, u)],
        forall|i: int| 0 <= i < s0.len() ==> s0[i].target != t,
{
    lemma_find_slot(s0, t);
    lemma_find_slot_char(s1, t, s0.len() as int);
    assert forall|u: Target| u != t implies find_slot(s1, u) == find_slot(s0, u) by {
        lemma_find_slot(s0, u);
        let i = find_slot(s0, u);
        if i >= 0 {
            lemma_find_slot_char(s1, u, i);
        } else {
            lemma_find_slot(s1, u);
            if find_slot(s1, u) >= 0 {
                assert(s1[find_slot(s1, u)].target == u);
            }
        }
    }
    assert forall|u: Target| u != t && find_slot(s0, u) >= 0
        implies s1[find_slot(s0, u)] == s0[find_slot(s0, u)] by {
        lemma_find_slot(s0, u);
    }
}

/// The registry's borrow discipline: for any resource identity, an active
/// write borrow excludes every read borrow, and at most one write borrow
/// (the single flag) can be active.
pub proof fn lemma_registry_exclusive(r: BorrowRegistry, t: Target)
    requires
        r.wf(),
    ensures
        r.has_write(t) ==> r.reads_of(t) == 0,
{
    lemma_find_slot(r.slots@, t);
}

} // verus!
