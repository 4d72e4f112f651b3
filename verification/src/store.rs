//! The entity/component store, backed by `hecs::World`.
//!
//! The scheduler's logic sees an entity as a `u64` identifier (the bit
//! representation of a live `hecs::Entity`) and its components as an ordered
//! list of `(component identity, value)` pairs. `hecs` keeps custody of the
//! entities: identifier allocation, liveness and lookup go through it, behind
//! the trusted wrappers below; the component-list bookkeeping on top of them
//! is verified.

use vstd::prelude::*;

use crate::error::Error;

verus! {

/// `hecs::World`, declared so that it can stand in signatures and fields.
/// Values of it are opaque to the verifier; the wrappers below describe what
/// its methods do in terms of `world_contents`.
#[verifier::external_type_specification]
#[verifier::external_body]
pub struct ExWorld(hecs::World);

/// What a world holds: for each live entity (by the bits of its handle) the
/// component list stored on it. Every world this crate creates keeps its
/// components in a single [`CompList`], so the abstraction is exact for
/// worlds built through [`Store`].
pub uninterp spec fn world_contents(w: hecs::World) -> Map<u64, Seq<(u64, i64)>>;

/// The single component type this crate stores on a `hecs` entity: the
/// entity's whole tagged component list.
struct CompList(Vec<(u64, i64)>);

/// The contents of a world with no entities.
pub open spec fn empty_contents() -> Map<u64, Seq<(u64, i64)>> {
    Map::empty()
}

/// Relies on `hecs::World::new`: a new world contains no entities.
#[verifier::external_body]
fn world_new() -> (out: hecs::World)
    ensures
        world_contents(out) == empty_contents(),
{
    hecs::World::new()
}

/// Relies on `hecs::World::spawn`: it creates a fresh live entity carrying
/// the given bundle, and `Entity::to_bits` is nonzero and distinct from the
/// bits of every other live entity.
#[verifier::external_body]
fn world_spawn(w: &mut hecs::World, comps: Vec<(u64, i64)>) -> (e: u64)
    ensures
        !world_contents(*old(w)).contains_key(e),
        e > 0,
        world_contents(*final(w)) == world_contents(*old(w)).insert(e, comps@),
{
    w.spawn((CompList(comps),)).to_bits().get()
}

/// Relies on `hecs::World::despawn` and `hecs::Entity::from_bits`: despawning
/// a live entity removes it and returns `Ok`; a stale or malformed identifier
/// leaves the world unchanged and reports `NoSuchEntity`.
#[verifier::external_body]
fn world_despawn(w: &mut hecs::World, e: u64) -> (existed: bool)
    ensures
        world_contents(*old(w)).contains_key(e) ==> existed
            && world_contents(*final(w)) == world_contents(*old(w)).remove(e),
        !world_contents(*old(w)).contains_key(e) ==> !existed
            && world_contents(*final(w)) == world_contents(*old(w)),
{
    match hecs::Entity::from_bits(e) {
        Some(ent) => w.despawn(ent).is_ok(),
        None => false,
    }
}

/// Relies on `hecs::World::contains` and `hecs::Entity::from_bits`: an entity
/// is live exactly when its bits name a live handle.
#[verifier::external_body]
fn world_contains(w: &hecs::World, e: u64) -> (r: bool)
    ensures
        r == world_contents(*w).contains_key(e),
{
    match hecs::Entity::from_bits(e) {
        Some(ent) => w.contains(ent),
        None => false,
    }
}

/// Relies on `hecs::World::get` and `hecs::Entity::from_bits`: a live entity
/// created by this crate yields its component list, a stale or malformed
/// identifier yields nothing.
#[verifier::external_body]
fn world_get(w: &hecs::World, e: u64) -> (r: Option<Vec<(u64, i64)>>)
    ensures
        match r {
            Some(v) => world_contents(*w).contains_key(e) && v@ == world_contents(*w)[e],
            None => !world_contents(*w).contains_key(e),
        },
{
    match hecs::Entity::from_bits(e) {
        Some(ent) => match w.get::<&CompList>(ent) {
            Ok(list) => Some(list.0.clone()),
            Err(_) => None,
        },
        None => None,
    }
}

/// Relies on `hecs::World::insert_one` and `hecs::Entity::from_bits`: on a
/// live entity it replaces the stored component list and returns `Ok`; on a
/// stale or malformed identifier it changes nothing.
#[verifier::external_body]
fn world_set(w: &mut hecs::World, e: u64, comps: Vec<(u64, i64)>) -> (ok: bool)
    ensures
        world_contents(*old(w)).contains_key(e) ==> ok
            && world_contents(*final(w)) == world_contents(*old(w)).insert(e, comps@),
        !world_contents(*old(w)).contains_key(e) ==> !ok
            && world_contents(*final(w)) == world_contents(*old(w)),
{
    match hecs::Entity::from_bits(e) {
        Some(ent) => w.insert_one(ent, CompList(comps)).is_ok(),
        None => false,
    }
}

/// Relies on `hecs::World::iter`: it visits each live entity exactly once, in
/// no promised order.
#[verifier::external_body]
fn world_entities(w: &hecs::World) -> (r: Vec<u64>)
    ensures
        r@.no_duplicates(),
        forall|e: u64| r@.contains(e) == world_contents(*w).dom().contains(e),
{
    w.iter().map(|er| er.entity().to_bits().get()).collect()
}

/// First index of component identity `c` in the list, or -1 when absent.
pub open spec fn comp_index(s: Seq<(u64, i64)>, c: u64) -> int
    decreases s.len(),
{
    if s.len() == 0 {
        -1
    } else if s[0].0 == c {
        0
    } else {
        let r = comp_index(s.drop_first(), c);
        if r < 0 {
            -1
        } else {
            r + 1
        }
    }
}

/// Whether the list holds a component with identity `c`.
pub open spec fn has_comp(s: Seq<(u64, i64)>, c: u64) -> bool {
    comp_index(s, c) >= 0
}

/// The value stored under identity `c` (the first occurrence governs).
pub open spec fn comp_value(s: Seq<(u64, i64)>, c: u64) -> i64 {
    s[comp_index(s, c)].1
}

/// The list after storing `v` under `c`: the first occurrence is replaced,
/// or the pair is appended when `c` is absent.
pub open spec fn upsert(s: Seq<(u64, i64)>, c: u64, v: i64) -> Seq<(u64, i64)> {
    if has_comp(s, c) {
        s.update(comp_index(s, c), (c, v))
    } else {
        s.push((c, v))
    }
}

/// The list with the first occurrence of `c` removed, or unchanged when `c`
/// is absent.
pub open spec fn without_comp(s: Seq<(u64, i64)>, c: u64) -> Seq<(u64, i64)> {
    if has_comp(s, c) {
        s.remove(comp_index(s, c))
    } else {
        s
    }
}

/// Bounds and first-match facts about `comp_index`.
pub proof fn lemma_comp_index(s: Seq<(u64, i64)>, c: u64)
    ensures
        comp_index(s, c) == -1 || 0 <= comp_index(s, c) < s.len(),
        comp_index(s, c) == -1 ==> forall|i: int| 0 <= i < s.len() ==> s[i].0 != c,
        comp_index(s, c) >= 0 ==> s[comp_index(s, c)].0 == c,
        forall|i: int| 0 <= i < comp_index(s, c) ==> s[i].0 != c,
    decreases s.len(),
{
    if s.len() > 0 && s[0].0 != c {
        lemma_comp_index(s.drop_first(), c);
        assert(forall|i: int|
            1 <= i < s.len() ==> #[trigger] s[i] == s.drop_first()[i - 1]);
    }
}

/// The first-match characterisation pins `comp_index` down.
pub proof fn lemma_comp_index_char(s: Seq<(u64, i64)>, c: u64, i: int)
    requires
        0 <= i < s.len(),
        s[i].0 == c,
        forall|j: int| 0 <= j < i ==> s[j].0 != c,
    ensures
        comp_index(s, c) == i,
    decreases s.len(),
{
    if i > 0 {
        lemma_comp_index_char(s.drop_first(), c, i - 1);
        assert(forall|j: int|
            1 <= j < s.len() ==> #[trigger] s[j] == s.drop_first()[j - 1]);
    }
}

/// First index of component identity `c` in the list, if present.
pub fn find_comp(s: &Vec<(u64, i64)>, c: u64) -> (r: Option<usize>)
    ensures
        match r {
            Some(i) => i < s@.len() && comp_index(s@, c) == i,
            None => comp_index(s@, c) == -1,
        },
{
    let mut i: usize = 0;
    while i < s.len()
        invariant
            0 <= i <= s@.len(),
            forall|j: int| 0 <= j < i ==> s@[j].0 != c,
        decreases s@.len() - i,
    {
        if s[i].0 == c {
            proof {
                lemma_comp_index_char(s@, c, i as int);
            }
            return Some(i);
        }
        i += 1;
    }
    proof {
        lemma_comp_index(s@, c);
        if comp_index(s@, c) >= 0 {
            assert(s@[comp_index(s@, c)].0 == c);
        }
    }
    None
}

/// The entity/component store the schedule works over.
pub struct Store {
    world: hecs::World,
}

impl Store {
    /// The store's contents: each live entity's component list, by entity
    /// identifier.
    pub closed spec fn contents(self) -> Map<u64, Seq<(u64, i64)>> {
        world_contents(self.world)
    }

    /// An empty store.
    pub fn new() -> (s: Store)
        ensures
            s.contents() == empty_contents(),
    {
        Store { world: world_new() }
    }

    /// Create an entity carrying `comps`, immediately. Returns the fresh
    /// entity's identifier.
    pub fn spawn_now(&mut self, comps: Vec<(u64, i64)>) -> (e: u64)
        ensures
            !old(self).contents().contains_key(e),
            e > 0,
            final(self).contents() == old(self).contents().insert(e, comps@),
    {
        world_spawn(&mut self.world, comps)
    }

    /// Destroy an entity, immediately. Destroying a stale or unknown
    /// identifier is tolerated and reported by the result.
    pub fn despawn_now(&mut self, e: u64) -> (existed: bool)
        ensures
            old(self).contents().contains_key(e) ==> existed
                && final(self).contents() == old(self).contents().remove(e),
            !old(self).contents().contains_key(e) ==> !existed
                && final(self).contents() == old(self).contents(),
    {
        world_despawn(&mut self.world, e)
    }

    /// Whether the entity is live.
    pub fn contains(&self, e: u64) -> (r: bool)
        ensures
            r == self.contents().contains_key(e),
    {
        world_contains(&self.world, e)
    }

    /// The component list of a live entity.
    pub fn components_of(&self, e: u64) -> (r: Option<Vec<(u64, i64)>>)
        ensures
            match r {
                Some(v) => self.contents().contains_key(e) && v@ == self.contents()[e],
                None => !self.contents().contains_key(e),
            },
    {
        world_get(&self.world, e)
    }

    /// Every live entity's identifier, each exactly once, in no promised
    /// order.
    pub fn entities(&self) -> (r: Vec<u64>)
        ensures
            r@.no_duplicates(),
            forall|e: u64| r@.contains(e) == self.contents().dom().contains(e),
    {
        world_entities(&self.world)
    }

    /// The value of one component of one entity.
    pub fn get_component(&self, e: u64, c: u64) -> (r: Result<i64, Error>)
        ensures
            !self.contents().contains_key(e)
                ==> r == Err::<i64, Error>(Error::NoSuchEntity),
            self.contents().contains_key(e) && !has_comp(self.contents()[e], c)
                ==> r == Err::<i64, Error>(Error::NotFound { component: c }),
            self.contents().contains_key(e) && has_comp(self.contents()[e], c)
                ==> r == Ok::<i64, Error>(comp_value(self.contents()[e], c)),
    {
        match self.components_of(e) {
            None => Err(Error::NoSuchEntity),
            Some(list) => match find_comp(&list, c) {
                None => Err(Error::NotFound { component: c }),
                Some(i) => Ok(list[i].1),
            },
        }
    }

    /// Store `v` under component identity `c` on entity `e`, replacing the
    /// previous value or appending the component.
    pub fn insert_component(&mut self, e: u64, c: u64, v: i64) -> (r: Result<(), Error>)
        ensures
            !old(self).contents().contains_key(e)
                ==> r == Err::<(), Error>(Error::NoSuchEntity)
                    && final(self).contents() == old(self).contents(),
            old(self).contents().contains_key(e)
                ==> r == Ok::<(), Error>(())
                    && final(self).contents() == old(self).contents().insert(
                        e,
                        upsert(old(self).contents()[e], c, v),
                    ),
    {
        match self.components_of(e) {
            None => Err(Error::NoSuchEntity),
            Some(list) => {
                let mut list = list;
                match find_comp(&list, c) {
                    Some(i) => {
                        list[i] = (c, v);
                    },
                    None => {
                        list.push((c, v));
                    },
                }
                let ok = world_set(&mut self.world, e, list);
                proof {
                    assert(ok);
                }
                Ok(())
            },
        }
    }

    /// Replace the value of an existing component of a live entity. This is
    /// the in-place value mutation; it never changes which components an
    /// entity has.
    pub fn set_component(&mut self, e: u64, c: u64, v: i64) -> (r: Result<(), Error>)
        ensures
            !old(self).contents().contains_key(e)
                ==> r == Err::<(), Error>(Error::NoSuchEntity)
                    && final(self).contents() == old(self).contents(),
            old(self).contents().contains_key(e) && !has_comp(old(self).contents()[e], c)
                ==> r == Err::<(), Error>(Error::NotFound { component: c })
                    && final(self).contents() == old(self).contents(),
            old(self).contents().contains_key(e) && has_comp(old(self).contents()[e], c)
                ==> r == Ok::<(), Error>(())
                    && final(self).contents() == old(self).contents().insert(
                        e,
                        upsert(old(self).contents()[e], c, v),
                    ),
    {
        match self.components_of(e) {
            None => Err(Error::NoSuchEntity),
            Some(list) => {
                let mut list = list;
                match find_comp(&list, c) {
                    None => Err(Error::NotFound { component: c }),
                    Some(i) => {
                        list[i] = (c, v);
                        let ok = world_set(&mut self.world, e, list);
                        proof {
                            assert(ok);
                        }
                        Ok(())
                    },
                }
            },
        }
    }

    /// Remove the first occurrence of component `c` from entity `e`; removing
    /// an absent component is tolerated.
    pub fn remove_component(&mut self, e: u64, c: u64) -> (r: Result<(), Error>)
        ensures
            !old(self).contents().contains_key(e)
                ==> r == Err::<(), Error>(Error::NoSuchEntity)
                    && final(self).contents() == old(self).contents(),
            old(self).contents().contains_key(e)
                ==> r == Ok::<(), Error>(())
                    && final(self).contents() == old(self).contents().insert(
                        e,
                        without_comp(old(self).contents()[e], c),
                    ),
    {
        match self.components_of(e) {
            None => Err(Error::NoSuchEntity),
            Some(list) => {
                let mut list = list;
                match find_comp(&list, c) {
                    Some(i) => {
                        list.remove(i);
                    },
                    None => {},
                }
                let ok = world_set(&mut self.world, e, list);
                proof {
                    assert(ok);
                }
                Ok(())
            },
        }
    }
}

} // verus!
