//! Resource identities and access declarations.

use vstd::prelude::*;

verus! {

/// The identity of one borrowable resource slot.
///
/// Accesses to the entity store are scoped per component, so two store
/// accesses conflict only when they name the same component identity.
#[derive(Clone, Copy, Debug, PartialEq, Eq, Structural, Hash)]
pub enum Target {
    /// One component of the entity store, by its component identity.
    Store { component: u64 },
    /// The shared command buffer.
    Commands,
    /// A caller-supplied side resource, by its identity.
    Side { id: u64 },
}

/// One resource slot that a work unit touches: an identity plus mutability,
/// and whether the unit tolerates the resource being absent.
#[derive(Clone, Copy, Debug, PartialEq, Eq, Structural, Hash)]
pub struct AccessDescriptor {
    /// Which resource slot is touched.
    pub target: Target,
    /// True for a write (exclusive) access, false for a read (shared) one.
    pub writes: bool,
    /// True when the unit declared the dependency optional: its absence is
    /// absorbed silently instead of failing the unit.
    pub optional: bool,
}

impl AccessDescriptor {
    /// A required read access.
    pub fn read(target: Target) -> (d: AccessDescriptor)
        ensures
            d == (AccessDescriptor { target, writes: false, optional: false }),
    {
        AccessDescriptor { target, writes: false, optional: false }
    }

    /// A required write access.
    pub fn write(target: Target) -> (d: AccessDescriptor)
        ensures
            d == (AccessDescriptor { target, writes: true, optional: false }),
    {
        AccessDescriptor { target, writes: true, optional: false }
    }
}

/// Two descriptors conflict exactly when they name the same resource identity
/// and at least one of them writes.
pub open spec fn conflicts(a: AccessDescriptor, b: AccessDescriptor) -> bool {
    a.target == b.target && (a.writes || b.writes)
}

/// Two descriptor sets conflict when some descriptor of one conflicts with
/// some descriptor of the other.
pub open spec fn sets_conflict(s: Seq<AccessDescriptor>, t: Seq<AccessDescriptor>) -> bool {
    exists|i: int, j: int| 0 <= i < s.len() && 0 <= j < t.len() && conflicts(s[i], t[j])
}

/// Conflict between descriptors does not depend on which of the two is named
/// first.
pub proof fn lemma_conflicts_symmetric(a: AccessDescriptor, b: AccessDescriptor)
    ensures
        conflicts(a, b) == conflicts(b, a),
{
}

/// Conflict between descriptor sets does not depend on which set is named
/// first.
pub proof fn lemma_sets_conflict_symmetric(s: Seq<AccessDescriptor>, t: Seq<AccessDescriptor>)
    ensures
        sets_conflict(s, t) == sets_conflict(t, s),
{
    if sets_conflict(s, t) {
        let (i, j) = choose|i: int, j: int|
            0 <= i < s.len() && 0 <= j < t.len() && conflicts(s[i], t[j]);
        assert(conflicts(t[j], s[i]));
    }
    if sets_conflict(t, s) {
        let (j, i) = choose|j: int, i: int|
            0 <= j < t.len() && 0 <= i < s.len() && conflicts(t[j], s[i]);
        assert(conflicts(s[i], t[j]));
    }
}

/// Whether the two descriptors conflict: same identity, at least one write.
pub fn descriptor_conflicts(a: &AccessDescriptor, b: &AccessDescriptor) -> (r: bool)
    ensures
        r == conflicts(*a, *b),
{
    a.target == b.target && (a.writes || b.writes)
}

/// Whether some descriptor of `s` conflicts with some descriptor of `t`.
pub fn descriptor_sets_conflict(s: &Vec<AccessDescriptor>, t: &Vec<AccessDescriptor>) -> (r: bool)
    ensures
        r == sets_conflict(s@, t@),
{
    let mut i: usize = 0;
    while i < s.len()
        invariant
            0 <= i <= s@.len(),
            forall|x: int, y: int|
                0 <= x < i && 0 <= y < t@.len() ==> !conflicts(s@[x], t@[y]),
        decreases s@.len() - i,
    {
        let mut j: usize = 0;
        while j < t.len()
            invariant
                0 <= i < s@.len(),
                0 <= j <= t@.len(),
                forall|y: int| 0 <= y < j ==> !conflicts(s@[i as int], t@[y]),
                forall|x: int, y: int|
                    0 <= x < i && 0 <= y < t@.len() ==> !conflicts(s@[x], t@[y]),
            decreases t@.len() - j,
        {
            if descriptor_conflicts(&s[i], &t[j]) {
                return true;
            }
            j += 1;
        }
        i += 1;
    }
    false
}

} // verus!
