//! Capability-narrowed access to the store.
//!
//! A `SubWorld` carries a fixed set of component identities, each with a
//! mutability, and allows a work unit to reach only those components. It
//! never mutates the structure of the store: spawns and despawns go through
//! the command buffer.

use vstd::prelude::*;

use crate::access::AccessDescriptor;
use crate::access::Target;
use crate::error::Error;
use crate::store::Store;
use crate::store::comp_value;
use crate::store::has_comp;
use crate::store::upsert;

verus! {

/// A capability view: the fixed set of `(component identity, writable)`
/// pairs a work unit may touch on the store.
pub struct SubWorld {
    declared: Vec<(u64, bool)>,
}

impl SubWorld {
    /// The declared `(component, writable)` pairs.
    pub closed spec fn declared_seq(self) -> Seq<(u64, bool)> {
        self.declared@
    }

    /// Whether the view may touch component `c` at all.
    pub open spec fn declares(self, c: u64) -> bool {
        exists|k: int| 0 <= k < self.declared_seq().len() && (#[trigger] self.declared_seq()[k]).0 == c
    }

    /// Whether the view may write component `c`.
    pub open spec fn declares_write(self, c: u64) -> bool {
        exists|k: int| 0 <= k < self.declared_seq().len() && (#[trigger] self.declared_seq()[k]).0 == c
            && self.declared_seq()[k].1
    }

    /// A view over exactly the given `(component, writable)` pairs.
    pub fn new(declared: Vec<(u64, bool)>) -> (w: SubWorld)
        ensures
            w.declared_seq() == declared@,
    {
        SubWorld { declared }
    }

    /// The view's access declaration, one descriptor per declared pair, in
    /// declaration order: what a unit holding this view must announce to the
    /// schedule.
    pub fn access_set(&self) -> (r: Vec<AccessDescriptor>)
        ensures
            r@.len() == self.declared_seq().len(),
            forall|k: int| 0 <= k < r@.len() ==> #[trigger] r@[k] == (AccessDescriptor {
                target: Target::Store { component: self.declared_seq()[k].0 },
                writes: self.declared_seq()[k].1,
                optional: false,
            }),
    {
        let mut r: Vec<AccessDescriptor> = Vec::new();
        let mut k: usize = 0;
        while k < self.declared.len()
            invariant
                0 <= k <= self.declared@.len(),
                r@.len() == k,
                forall|j: int| 0 <= j < k ==> #[trigger] r@[j] == (AccessDescriptor {
                    target: Target::Store { component: self.declared@[j].0 },
                    writes: self.declared@[j].1,
                    optional: false,
                }),
            decreases self.declared@.len() - k,
        {
            let (c, w) = self.declared[k];
            r.push(AccessDescriptor { target: Target::Store { component: c }, writes: w, optional: false });
            k += 1;
        }
        r
    }

    /// Whether component `c` is declared (readable).
    pub fn is_declared(&self, c: u64) -> (r: bool)
        ensures
            r == self.declares(c),
    {
        let mut k: usize = 0;
        while k < self.declared.len()
            invariant
                0 <= k <= self.declared@.len(),
                forall|j: int| 0 <= j < k ==> (#[trigger] self.declared@[j]).0 != c,
            decreases self.declared@.len() - k,
        {
            if self.declared[k].0 == c {
                proof {
                    assert((self.declared_seq()[k as int]).0 == c);
                }
                return true;
            }
            k += 1;
        }
        false
    }

    /// Whether component `c` is declared writable.
    pub fn is_declared_write(&self, c: u64) -> (r: bool)
        ensures
            r == self.declares_write(c),
    {
        let mut k: usize = 0;
        while k < self.declared.len()
            invariant
                0 <= k <= self.declared@.len(),
                forall|j: int| 0 <= j < k
                    ==> !((#[trigger] self.declared@[j]).0 == c && self.declared@[j].1),
            decreases self.declared@.len() - k,
        {
            if self.declared[k].0 == c && self.declared[k].1 {
                proof {
                    assert((self.declared_seq()[k as int]).0 == c && self.declared_seq()[k as int].1);
                }
                return true;
            }
            k += 1;
        }
        false
    }

    /// Read one component of one entity. A component outside the declared
    /// set is refused with `UnauthorizedComponent`, whether or not the entity
    /// has it; on a declared component the store's answer is returned.
    pub fn get(&self, store: &Store, entity: u64, component: u64) -> (r: Result<i64, Error>)
        ensures
            !self.declares(component)
                ==> r == Err::<i64, Error>(Error::UnauthorizedComponent { component }),
            self.declares(component) && !store.contents().contains_key(entity)
                ==> r == Err::<i64, Error>(Error::NoSuchEntity),
            self.declares(component) && store.contents().contains_key(entity)
                && !has_comp(store.contents()[entity], component)
                ==> r == Err::<i64, Error>(Error::NotFound { component }),
            self.declares(component) && store.contents().contains_key(entity)
                && has_comp(store.contents()[entity], component)
                ==> r == Ok::<i64, Error>(comp_value(store.contents()[entity], component)),
    {
        if !self.is_declared(component) {
            Err(Error::UnauthorizedComponent { component })
        } else {
            store.get_component(entity, component)
        }
    }

    /// Overwrite the value of a component an entity already has: in-place
    /// value mutation, permitted only on a component declared writable. The
    /// structure of the store never changes; adding a component goes through
    /// the command buffer.
    pub fn set(&self, store: &mut Store, entity: u64, component: u64, value: i64) -> (r: Result<
        (),
        Error,
    >)
        ensures
            !self.declares_write(component)
                ==> r == Err::<(), Error>(Error::UnauthorizedComponent { component })
                    && final(store).contents() == old(store).contents(),
            self.declares_write(component) && !old(store).contents().contains_key(entity)
                ==> r == Err::<(), Error>(Error::NoSuchEntity)
                    && final(store).contents() == old(store).contents(),
            self.declares_write(component) && old(store).contents().contains_key(entity)
                && !has_comp(old(store).contents()[entity], component)
                ==> r == Err::<(), Error>(Error::NotFound { component })
                    && final(store).contents() == old(store).contents(),
            self.declares_write(component) && old(store).contents().contains_key(entity)
                && has_comp(old(store).contents()[entity], component)
                ==> r == Ok::<(), Error>(())
                    && final(store).contents() == old(store).contents().insert(
                        entity,
                        upsert(old(store).contents()[entity], component, value),
                    ),
    {
        if !self.is_declared_write(component) {
            Err(Error::UnauthorizedComponent { component })
        } else {
            store.set_component(entity, component, value)
        }
    }

    /// Whether every pattern entry is within this view's capabilities.
    pub open spec fn pattern_allowed(self, pattern: Seq<(u64, bool)>) -> bool {
        forall|j: int| 0 <= j < pattern.len()
            ==> self.declares((#[trigger] pattern[j]).0) && (pattern[j].1
                ==> self.declares_write(pattern[j].0))
    }

    /// Whether entity contents `s` hold every component the pattern asks for.
    pub open spec fn row_matches(pattern: Seq<(u64, bool)>, s: Seq<(u64, i64)>) -> bool {
        forall|j: int| 0 <= j < pattern.len() ==> has_comp(s, (#[trigger] pattern[j]).0)
    }

    /// Run a query: every live entity holding all the pattern's components,
    /// with the component values in pattern order. The result is refused with
    /// `UnauthorizedComponent` exactly when some pattern entry is outside the
    /// declared set (or asks to write a read-only component); it succeeds
    /// otherwise. Row order follows the store's entity enumeration, which
    /// promises no order.
    pub fn query(&self, store: &Store, pattern: &Vec<(u64, bool)>) -> (r: Result<
        Vec<(u64, Vec<i64>)>,
        Error,
    >)
        ensures
            r is Ok <==> self.pattern_allowed(pattern@),
            r matches Err(e) ==> exists|j: int|
                0 <= j < pattern@.len() && e == (Error::UnauthorizedComponent {
                    component: (#[trigger] pattern@[j]).0,
                }) && !(self.declares(pattern@[j].0) && (pattern@[j].1
                    ==> self.declares_write(pattern@[j].0))),
            r matches Ok(rows) ==> {
                &&& forall|k: int| 0 <= k < rows@.len()
                    ==> store.contents().contains_key((#[trigger] rows@[k]).0)
                        && Self::row_matches(pattern@, store.contents()[rows@[k].0])
                        && rows@[k].1@.len() == pattern@.len()
                        && (forall|j: int| 0 <= j < pattern@.len()
                            ==> rows@[k].1@[j] == comp_value(
                                store.contents()[rows@[k].0],
                                (#[trigger] pattern@[j]).0,
                            ))
                &&& forall|k1: int, k2: int|
                    0 <= k1 < rows@.len() && 0 <= k2 < rows@.len() && k1 != k2
                        ==> (#[trigger] rows@[k1]).0 != (#[trigger] rows@[k2]).0
                &&& forall|e: u64| store.contents().contains_key(e)
                    && Self::row_matches(pattern@, store.contents()[e])
                    ==> exists|k: int| 0 <= k < rows@.len() && (#[trigger] rows@[k]).0 == e
            },
    {
        let mut j: usize = 0;
        while j < pattern.len()
            invariant
                0 <= j <= pattern@.len(),
                forall|q: int| 0 <= q < j
                    ==> self.declares((#[trigger] pattern@[q]).0) && (pattern@[q].1
                        ==> self.declares_write(pattern@[q].0)),
            decreases pattern@.len() - j,
        {
            let (c, wants_write) = pattern[j];
            if !self.is_declared(c) || (wants_write && !self.is_declared_write(c)) {
                return Err(Error::UnauthorizedComponent { component: c });
            }
            j += 1;
        }
        let ents = store.entities();
        let mut rows: Vec<(u64, Vec<i64>)> = Vec::new();
        let mut i: usize = 0;
        while i < ents.len()
            invariant
                0 <= i <= ents@.len(),
                ents@.no_duplicates(),
                forall|e: u64| ents@.contains(e) == store.contents().dom().contains(e),
                forall|k: int| 0 <= k < rows@.len()
                    ==> store.contents().contains_key((#[trigger] rows@[k]).0)
                        && Self::row_matches(pattern@, store.contents()[rows@[k].0])
                        && rows@[k].1@.len() == pattern@.len()
                        && (forall|j2: int| 0 <= j2 < pattern@.len()
                            ==> rows@[k].1@[j2] == comp_value(
                                store.contents()[rows@[k].0],
                                (#[trigger] pattern@[j2]).0,
                            )),
                forall|k: int| 0 <= k < rows@.len()
                    ==> exists|q: int| 0 <= q < i && ents@[q] == (#[trigger] rows@[k]).0,
                forall|k1: int, k2: int|
                    0 <= k1 < rows@.len() && 0 <= k2 < rows@.len() && k1 != k2
                        ==> (#[trigger] rows@[k1]).0 != (#[trigger] rows@[k2]).0,
                forall|q: int| 0 <= q < i
                    && Self::row_matches(pattern@, store.contents()[#[trigger] ents@[q]])
                    ==> exists|k: int| 0 <= k < rows@.len() && (#[trigger] rows@[k]).0 == ents@[q],
            decreases ents@.len() - i,
        {
            let e = ents[i];
            proof {
                assert(ents@.contains(e));
            }
            let ghost rows_pre = rows@;
            match Self::row_of(store, e, pattern) {
                Some(vals) => {
                    rows.push((e, vals));
                    proof {
                        let n = rows@.len() as int;
                        assert(rows@[n - 1].0 == e);
                        assert(forall|k: int|
                            0 <= k < rows_pre.len() ==> #[trigger] rows@[k] == rows_pre[k]);
                        assert forall|k: int| 0 <= k < n - 1
                            implies exists|q: int|
                                0 <= q < i + 1 && ents@[q] == (#[trigger] rows@[k]).0 by {
                            let q = choose|q: int| 0 <= q < i && ents@[q] == (rows_pre[k]).0;
                            assert(ents@[q] == rows@[k].0);
                        }
                        assert(ents@[i as int] == rows@[n - 1].0);
                        assert forall|k: int| 0 <= k < n - 1
                            implies (#[trigger] rows@[k]).0 != e by {
                            let q = choose|q: int| 0 <= q < i && ents@[q] == (rows@[k]).0;
                            assert(ents@[q] != ents@[i as int]);
                        }
                        assert forall|q: int| 0 <= q < i + 1
                            && Self::row_matches(pattern@, store.contents()[#[trigger] ents@[q]])
                            implies exists|k: int|
                                0 <= k < rows@.len() && (#[trigger] rows@[k]).0 == ents@[q] by {
                            if q < i {
                                let k0 = choose|k0: int|
                                    0 <= k0 < rows_pre.len() && (#[trigger] rows_pre[k0]).0 == ents@[q];
                                assert(rows@[k0].0 == ents@[q]);
                            } else {
                                assert(rows@[n - 1].0 == ents@[q]);
                            }
                        }
                    }
                },
                None => {},
            }
            i += 1;
        }
        proof {
            assert forall|e: u64| store.contents().contains_key(e)
                && Self::row_matches(pattern@, store.contents()[e])
                implies exists|k: int| 0 <= k < rows@.len() && (#[trigger] rows@[k]).0 == e by {
                assert(ents@.contains(e));
                let q = choose|q: int| 0 <= q < ents@.len() && ents@[q] == e;
                assert(Self::row_matches(pattern@, store.contents()[ents@[q]]));
            }
        }
        Ok(rows)
    }

    /// The pattern row of one entity: the values of all pattern components,
    /// or nothing when the entity lacks one of them.
    fn row_of(store: &Store, e: u64, pattern: &Vec<(u64, bool)>) -> (r: Option<Vec<i64>>)
        requires
            store.contents().contains_key(e),
        ensures
            match r {
                Some(vals) => Self::row_matches(pattern@, store.contents()[e])
                    && vals@.len() == pattern@.len()
                    && forall|j: int| 0 <= j < pattern@.len()
                        ==> vals@[j] == comp_value(store.contents()[e], (#[trigger] pattern@[j]).0),
                None => !Self::row_matches(pattern@, store.contents()[e]),
            },
    {
        let mut vals: Vec<i64> = Vec::new();
        let mut j: usize = 0;
        while j < pattern.len()
            invariant
                store.contents().contains_key(e),
                0 <= j <= pattern@.len(),
                vals@.len() == j,
                forall|q: int| 0 <= q < j ==> has_comp(store.contents()[e], (#[trigger] pattern@[q]).0),
                forall|q: int| 0 <= q < j
                    ==> vals@[q] == comp_value(store.contents()[e], (#[trigger] pattern@[q]).0),
            decreases pattern@.len() - j,
        {
            match store.get_component(e, pattern[j].0) {
                Ok(v) => {
                    vals.push(v);
                },
                Err(_) => {
                    return None;
                },
            }
            j += 1;
        }
        Some(vals)
    }
}

} // verus!
