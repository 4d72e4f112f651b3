//! Common traits: registering access declarations, and view types.

use vstd::prelude::*;

use crate::access::AccessDescriptor;
use crate::access::Target;
use crate::subworld::SubWorld;

verus! {

/// A parameter shape that knows the access declaration it needs. A unit's
/// access set is assembled, at registration time, from the declarations of
/// its parameter shapes; it is never derived from runtime behaviour.
pub trait IntoBorrow {
    /// The access set this parameter shape declares.
    spec fn borrow_spec(&self) -> Seq<AccessDescriptor>;

    /// The descriptors this parameter shape contributes to its unit's
    /// declared access set.
    fn into_borrow(&self) -> (r: Vec<AccessDescriptor>)
        ensures
            r@ == self.borrow_spec(),
    ;
}

/// A required shared read of one side resource.
#[derive(Clone, Copy, Debug, PartialEq, Eq, Structural)]
pub struct Read {
    /// The side resource's identity.
    pub id: u64,
}

/// A required exclusive write of one side resource.
#[derive(Clone, Copy, Debug, PartialEq, Eq, Structural)]
pub struct Write {
    /// The side resource's identity.
    pub id: u64,
}

/// An optional shared read of one side resource: its absence does not fail
/// the unit.
#[derive(Clone, Copy, Debug, PartialEq, Eq, Structural)]
pub struct MaybeRead {
    /// The side resource's identity.
    pub id: u64,
}

/// An optional exclusive write of one side resource.
#[derive(Clone, Copy, Debug, PartialEq, Eq, Structural)]
pub struct MaybeWrite {
    /// The side resource's identity.
    pub id: u64,
}

impl IntoBorrow for Read {
    open spec fn borrow_spec(&self) -> Seq<AccessDescriptor> {
        seq![
            AccessDescriptor {
                target: Target::Side { id: self.id },
                writes: false,
                optional: false,
            },
        ]
    }

    fn into_borrow(&self) -> (r: Vec<AccessDescriptor>)
        ensures
            r@ == self.borrow_spec(),
    {
        let mut r: Vec<AccessDescriptor> = Vec::new();
        r.push(AccessDescriptor { target: Target::Side { id: self.id }, writes: false, optional: false });
        proof {
            assert(r@ =~= self.borrow_spec());
        }
        r
    }
}

impl IntoBorrow for Write {
    open spec fn borrow_spec(&self) -> Seq<AccessDescriptor> {
        seq![
            AccessDescriptor { target: Target::Side { id: self.id }, writes: true, optional: false },
        ]
    }

    fn into_borrow(&self) -> (r: Vec<AccessDescriptor>)
        ensures
            r@ == self.borrow_spec(),
    {
        let mut r: Vec<AccessDescriptor> = Vec::new();
        r.push(AccessDescriptor { target: Target::Side { id: self.id }, writes: true, optional: false });
        proof {
            assert(r@ =~= self.borrow_spec());
        }
        r
    }
}

impl IntoBorrow for MaybeRead {
    open spec fn borrow_spec(&self) -> Seq<AccessDescriptor> {
        seq![
            AccessDescriptor { target: Target::Side { id: self.id }, writes: false, optional: true },
        ]
    }

    fn into_borrow(&self) -> (r: Vec<AccessDescriptor>)
        ensures
            r@ == self.borrow_spec(),
    {
        let mut r: Vec<AccessDescriptor> = Vec::new();
        r.push(AccessDescriptor { target: Target::Side { id: self.id }, writes: false, optional: true });
        proof {
            assert(r@ =~= self.borrow_spec());
        }
        r
    }
}

impl IntoBorrow for MaybeWrite {
    open spec fn borrow_spec(&self) -> Seq<AccessDescriptor> {
        seq![
            AccessDescriptor { target: Target::Side { id: self.id }, writes: true, optional: true },
        ]
    }

    fn into_borrow(&self) -> (r: Vec<AccessDescriptor>)
        ensures
            r@ == self.borrow_spec(),
    {
        let mut r: Vec<AccessDescriptor> = Vec::new();
        r.push(AccessDescriptor { target: Target::Side { id: self.id }, writes: true, optional: true });
        proof {
            assert(r@ =~= self.borrow_spec());
        }
        r
    }
}

impl IntoBorrow for SubWorld {
    open spec fn borrow_spec(&self) -> Seq<AccessDescriptor> {
        Seq::new(
            self.declared_seq().len(),
            |k: int|
                AccessDescriptor {
                    target: Target::Store { component: self.declared_seq()[k].0 },
                    writes: self.declared_seq()[k].1,
                    optional: false,
                },
        )
    }

    fn into_borrow(&self) -> (r: Vec<AccessDescriptor>)
        ensures
            r@ == self.borrow_spec(),
    {
        let r = self.access_set();
        proof {
            assert(r@ =~= self.borrow_spec());
        }
        r
    }
}

/// A type that stands for a narrowed view, or subset, of some containing
/// resource. A resource is always a view of itself.
pub trait ResourceView: Sized {
    /// The containing resource the view is split from.
    type Superset;

    /// What splitting yields.
    spec fn split_spec(orig: Self::Superset) -> Self;

    /// Split the view from its containing resource.
    fn split(orig: Self::Superset) -> (r: Self)
        ensures
            r == Self::split_spec(orig),
    ;
}

impl ResourceView for AccessDescriptor {
    type Superset = AccessDescriptor;

    open spec fn split_spec(orig: AccessDescriptor) -> AccessDescriptor {
        orig
    }

    fn split(orig: AccessDescriptor) -> (r: AccessDescriptor)
        ensures
            r == Self::split_spec(orig),
    {
        orig
    }
}

impl ResourceView for SubWorld {
    type Superset = SubWorld;

    open spec fn split_spec(orig: SubWorld) -> SubWorld {
        orig
    }

    fn split(orig: SubWorld) -> (r: SubWorld)
        ensures
            r == Self::split_spec(orig),
    {
        orig
    }
}

} // verus!
