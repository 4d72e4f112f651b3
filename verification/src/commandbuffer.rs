//! Deferred structural mutation of the store.
//!
//! Work units may not change the structure of the store while other units
//! hold views into it; instead they enqueue spawn, despawn, insert and remove
//! requests here. After the last batch of a pass the buffer is drained: every
//! record is applied to the store in exact enqueue order, with placeholder
//! entities resolved to the identifiers their spawns produced.

use vstd::prelude::*;

use crate::store::Store;
use crate::store::upsert;
use crate::store::without_comp;

verus! {

/// An entity named by a deferred record: either a live identifier, or a
/// placeholder for an entity a deferred spawn of the same pass will create.
#[derive(Clone, Copy, Debug, PartialEq, Eq, Structural)]
pub enum EntityRef {
    /// A live entity, by its identifier.
    Real { id: u64 },
    /// The pending entity of the spawn record with this token.
    Pending { token: usize },
}

/// One deferred mutation record.
#[derive(Debug)]
pub enum Command {
    /// Create an entity with the given components. `token` identifies this
    /// spawn's placeholder; it equals the record's own index in the buffer.
    Spawn { token: usize, components: Vec<(u64, i64)> },
    /// Destroy an entity. Destroying an already-destroyed entity is a no-op.
    Despawn { target: EntityRef },
    /// Store a component value on an entity, replacing or adding it.
    Insert { target: EntityRef, component: u64, value: i64 },
    /// Drop a component from an entity; an absent component is a no-op.
    Remove { target: EntityRef, component: u64 },
}

/// The entity a record's reference names, under the placeholder assignment
/// built so far: `None` when the reference is an unassigned placeholder.
pub open spec fn resolve_ref(r: EntityRef, a: Map<usize, u64>) -> Option<u64> {
    match r {
        EntityRef::Real { id } => Some(id),
        EntityRef::Pending { token } => if a.contains_key(token) {
            Some(a[token])
        } else {
            None
        },
    }
}

/// Whether applying `c` to contents `m` under assignment `a` is the
/// unrecoverable failure that stops a drain: an unassigned placeholder, or an
/// insert or remove on an entity that does not exist.
pub open spec fn step_fails(m: Map<u64, Seq<(u64, i64)>>, a: Map<usize, u64>, c: Command) -> bool {
    match c {
        Command::Spawn { .. } => false,
        Command::Despawn { target } => resolve_ref(target, a) is None,
        Command::Insert { target, .. } => match resolve_ref(target, a) {
            Some(e) => !m.contains_key(e),
            None => true,
        },
        Command::Remove { target, .. } => match resolve_ref(target, a) {
            Some(e) => !m.contains_key(e),
            None => true,
        },
    }
}

/// Contents `m1` are a correct result of draining `cmds` into contents
/// `m0`: for some choice of fresh spawn identifiers, applying every record in
/// order succeeds and yields `m1`.
pub open spec fn drained_to(
    m0: Map<u64, Seq<(u64, i64)>>,
    cmds: Seq<Command>,
    m1: Map<u64, Seq<(u64, i64)>>,
) -> bool {
    exists|ids: Seq<u64>, a2: Map<usize, u64>|
        apply_cmds(m0, Map::empty(), cmds, ids) == Some((m1, a2))
}

/// A drain of `cmds` into contents `m0` stopped at record `idx`: the records
/// before it applied successfully and left contents `m1`, and the record at
/// `idx` fails on `m1`.
pub open spec fn drain_failed_at(
    m0: Map<u64, Seq<(u64, i64)>>,
    cmds: Seq<Command>,
    m1: Map<u64, Seq<(u64, i64)>>,
    idx: int,
) -> bool {
    exists|ids: Seq<u64>, a2: Map<usize, u64>|
        apply_cmds(m0, Map::empty(), cmds.take(idx), ids) == Some((m1, a2))
            && step_fails(m1, a2, cmds[idx])
}

/// How many spawn records a command sequence holds.
pub open spec fn spawn_count(cmds: Seq<Command>) -> nat
    decreases cmds.len(),
{
    if cmds.len() == 0 {
        0
    } else {
        (if cmds[0] is Spawn {
            1nat
        } else {
            0nat
        }) + spawn_count(cmds.drop_first())
    }
}

/// The store contents and placeholder assignment after applying `cmds` in
/// order to contents `m` under assignment `a`, where `ids` lists the entity
/// identifier each spawn produces; `None` when some step fails.
///
/// A spawn consumes the next identifier of `ids`, which must be fresh. A
/// despawn of an entity that is already gone leaves the contents unchanged.
pub open spec fn apply_cmds(
    m: Map<u64, Seq<(u64, i64)>>,
    a: Map<usize, u64>,
    cmds: Seq<Command>,
    ids: Seq<u64>,
) -> Option<(Map<u64, Seq<(u64, i64)>>, Map<usize, u64>)>
    decreases cmds.len(),
{
    if cmds.len() == 0 {
        Some((m, a))
    } else {
        match cmds[0] {
            Command::Spawn { token, components } => if ids.len() > 0 && !m.contains_key(ids[0]) {
                apply_cmds(
                    m.insert(ids[0], components@),
                    a.insert(token, ids[0]),
                    cmds.drop_first(),
                    ids.drop_first(),
                )
            } else {
                None
            },
            Command::Despawn { target } => match resolve_ref(target, a) {
                Some(e) => apply_cmds(m.remove(e), a, cmds.drop_first(), ids),
                None => None,
            },
            Command::Insert { target, component, value } => match resolve_ref(target, a) {
                Some(e) => if m.contains_key(e) {
                    apply_cmds(m.insert(e, upsert(m[e], component, value)), a, cmds.drop_first(), ids)
                } else {
                    None
                },
                None => None,
            },
            Command::Remove { target, component } => match resolve_ref(target, a) {
                Some(e) => if m.contains_key(e) {
                    apply_cmds(m.insert(e, without_comp(m[e], component)), a, cmds.drop_first(), ids)
                } else {
                    None
                },
                None => None,
            },
        }
    }
}

/// Applying a concatenation applies the first part, then the second, with the
/// spawn identifiers split accordingly.
pub proof fn lemma_apply_append(
    m: Map<u64, Seq<(u64, i64)>>,
    a: Map<usize, u64>,
    s1: Seq<Command>,
    s2: Seq<Command>,
    ids1: Seq<u64>,
    ids2: Seq<u64>,
)
    requires
        spawn_count(s1) == ids1.len(),
    ensures
        apply_cmds(m, a, s1 + s2, ids1 + ids2) == match apply_cmds(m, a, s1, ids1) {
            Some(r) => apply_cmds(r.0, r.1, s2, ids2),
            None => None,
        },
    decreases s1.len(),
{
    if s1.len() == 0 {
        assert(s1 + s2 =~= s2);
        assert(ids1 + ids2 =~= ids2);
    } else {
        assert((s1 + s2)[0] == s1[0]);
        assert((s1 + s2).drop_first() =~= s1.drop_first() + s2);
        assert(spawn_count(s1) == (if s1[0] is Spawn {
            1nat
        } else {
            0nat
        }) + spawn_count(s1.drop_first()));
        match s1[0] {
            Command::Spawn { token, components } => {
                assert(ids1.len() > 0);
                assert((ids1 + ids2)[0] == ids1[0]);
                assert((ids1 + ids2).drop_first() =~= ids1.drop_first() + ids2);
                if !m.contains_key(ids1[0]) {
                    lemma_apply_append(
                        m.insert(ids1[0], components@),
                        a.insert(token, ids1[0]),
                        s1.drop_first(),
                        s2,
                        ids1.drop_first(),
                        ids2,
                    );
                }
            },
            Command::Despawn { target } => {
                match resolve_ref(target, a) {
                    Some(e) => {
                        lemma_apply_append(m.remove(e), a, s1.drop_first(), s2, ids1, ids2);
                    },
                    None => {},
                }
            },
            Command::Insert { target, component, value } => {
                match resolve_ref(target, a) {
                    Some(e) => {
                        if m.contains_key(e) {
                            lemma_apply_append(
                                m.insert(e, upsert(m[e], component, value)),
                                a,
                                s1.drop_first(),
                                s2,
                                ids1,
                                ids2,
                            );
                        }
                    },
                    None => {},
                }
            },
            Command::Remove { target, component } => {
                match resolve_ref(target, a) {
                    Some(e) => {
                        if m.contains_key(e) {
                            lemma_apply_append(
                                m.insert(e, without_comp(m[e], component)),
                                a,
                                s1.drop_first(),
                                s2,
                                ids1,
                                ids2,
                            );
                        }
                    },
                    None => {},
                }
            },
        }
    }
}

/// Copy a component list.
pub fn copy_pairs(v: &Vec<(u64, i64)>) -> (r: Vec<(u64, i64)>)
    ensures
        r@ == v@,
{
    let mut r: Vec<(u64, i64)> = Vec::new();
    let mut i: usize = 0;
    while i < v.len()
        invariant
            0 <= i <= v@.len(),
            r@ == v@.take(i as int),
        decreases v@.len() - i,
    {
        r.push(v[i]);
        proof {
            assert(v@.take(i as int).push(v@[i as int]) =~= v@.take(i as int + 1));
        }
        i += 1;
    }
    proof {
        assert(v@.take(v@.len() as int) =~= v@);
    }
    r
}

/// The placeholder assignment an association list denotes: later entries for
/// the same token override earlier ones.
pub open spec fn assoc_map(s: Seq<(usize, u64)>) -> Map<usize, u64>
    decreases s.len(),
{
    if s.len() == 0 {
        Map::empty()
    } else {
        assoc_map(s.drop_last()).insert(s.last().0, s.last().1)
    }
}

proof fn lemma_assoc_lookup_found(s: Seq<(usize, u64)>, k: int, token: usize)
    requires
        0 <= k < s.len(),
        s[k].0 == token,
        forall|j: int| k < j < s.len() ==> (#[trigger] s[j]).0 != token,
    ensures
        assoc_map(s).contains_key(token),
        assoc_map(s)[token] == s[k].1,
    decreases s.len(),
{
    if k == s.len() - 1 {
    } else {
        assert(s.last().0 != token);
        lemma_assoc_lookup_found(s.drop_last(), k, token);
        assert(forall|j: int|
            0 <= j < s.len() - 1 ==> #[trigger] s.drop_last()[j] == s[j]);
    }
}

proof fn lemma_assoc_lookup_missing(s: Seq<(usize, u64)>, token: usize)
    requires
        forall|j: int| 0 <= j < s.len() ==> (#[trigger] s[j]).0 != token,
    ensures
        !assoc_map(s).contains_key(token),
    decreases s.len(),
{
    if s.len() > 0 {
        lemma_assoc_lookup_missing(s.drop_last(), token);
        assert(forall|j: int|
            0 <= j < s.len() - 1 ==> #[trigger] s.drop_last()[j] == s[j]);
    }
}

/// Last assigned identifier for `token`, if the assignment holds one.
fn lookup_token(
    assign: &Vec<(usize, u64)>,
    token: usize,
    Ghost(amap): Ghost<Map<usize, u64>>,
) -> (r: Option<u64>)
    requires
        amap == assoc_map(assign@),
    ensures
        match r {
            Some(v) => amap.contains_key(token) && amap[token] == v,
            None => !amap.contains_key(token),
        },
{
    let mut k: usize = assign.len();
    while k > 0
        invariant
            0 <= k <= assign@.len(),
            amap == assoc_map(assign@),
            forall|j: int| k <= j < assign@.len() ==> (#[trigger] assign@[j]).0 != token,
        decreases k,
    {
        k -= 1;
        if assign[k].0 == token {
            proof {
                lemma_assoc_lookup_found(assign@, k as int, token);
            }
            return Some(assign[k].1);
        }
    }
    proof {
        lemma_assoc_lookup_missing(assign@, token);
    }
    None
}

/// The ordered queue of deferred mutation records of one pass.
pub struct CommandBuffer {
    records: Vec<Command>,
}

impl CommandBuffer {
    /// The queued records, in enqueue order.
    pub closed spec fn records_seq(self) -> Seq<Command> {
        self.records@
    }

    /// An empty buffer.
    pub fn new() -> (b: CommandBuffer)
        ensures
            b.records_seq().len() == 0,
    {
        CommandBuffer { records: Vec::new() }
    }

    /// How many records are queued.
    pub fn len(&self) -> (n: usize)
        ensures
            n == self.records_seq().len(),
    {
        self.records.len()
    }

    /// Whether no record is queued.
    pub fn is_empty(&self) -> (r: bool)
        ensures
            r == (self.records_seq().len() == 0),
    {
        self.records.len() == 0
    }

    /// Enqueue a spawn of an entity with the given components; the returned
    /// placeholder names the entity the drain will create.
    pub fn spawn(&mut self, components: Vec<(u64, i64)>) -> (p: EntityRef)
        ensures
            p == (EntityRef::Pending { token: old(self).records_seq().len() as usize }),
            final(self).records_seq() == old(self).records_seq().push(
                Command::Spawn { token: old(self).records_seq().len() as usize, components },
            ),
    {
        let token = self.records.len();
        self.records.push(Command::Spawn { token, components });
        EntityRef::Pending { token }
    }

    /// Enqueue the destruction of an entity.
    pub fn despawn(&mut self, target: EntityRef)
        ensures
            final(self).records_seq() == old(self).records_seq().push(
                Command::Despawn { target },
            ),
    {
        self.records.push(Command::Despawn { target });
    }

    /// Enqueue storing a component value on an entity.
    pub fn insert(&mut self, target: EntityRef, component: u64, value: i64)
        ensures
            final(self).records_seq() == old(self).records_seq().push(
                Command::Insert { target, component, value },
            ),
    {
        self.records.push(Command::Insert { target, component, value });
    }

    /// Enqueue dropping a component from an entity.
    pub fn remove(&mut self, target: EntityRef, component: u64)
        ensures
            final(self).records_seq() == old(self).records_seq().push(
                Command::Remove { target, component },
            ),
    {
        self.records.push(Command::Remove { target, component });
    }

    /// Apply every queued record to the store, in exact enqueue order,
    /// resolving placeholders to the entities their spawns produce. Always
    /// fully sequential, and always empties the buffer. Draining an empty
    /// buffer changes nothing. On the first unrecoverable record (an
    /// unassigned placeholder, or an insert or remove on a missing entity)
    /// the drain stops and reports that record's index; earlier records stay
    /// applied.
    #[verifier::loop_isolation(false)]
    pub fn drain(&mut self, store: &mut Store) -> (r: Result<(), usize>)
        ensures
            final(self).records_seq().len() == 0,
            old(self).records_seq().len() == 0 ==> r == Ok::<(), usize>(())
                && *final(store) == *old(store),
            r == Ok::<(), usize>(()) ==> drained_to(
                old(store).contents(),
                old(self).records_seq(),
                final(store).contents(),
            ),
            r matches Err(idx) ==> idx < old(self).records_seq().len(),
            r matches Err(idx) ==> drain_failed_at(
                old(store).contents(),
                old(self).records_seq(),
                final(store).contents(),
                idx as int,
            ),
    {
        let ghost cmds = self.records@;
        let ghost m0 = store.contents();
        let ghost store0 = *store;
        let mut assign: Vec<(usize, u64)> = Vec::new();
        let ghost mut amap = Map::<usize, u64>::empty();
        let ghost mut ids = Seq::<u64>::empty();
        let mut i: usize = 0;
        while i < self.records.len()
            invariant
                0 <= i <= cmds.len(),
                self.records@ == cmds,
                i == 0 ==> *store == store0,
                spawn_count(cmds.take(i as int)) == ids.len(),
                apply_cmds(m0, Map::empty(), cmds.take(i as int), ids)
                    == Some((store.contents(), amap)),
                amap == assoc_map(assign@),
            decreases cmds.len() - i,
        {
            let ghost m_pre = store.contents();
            let ghost a_pre = amap;
            let ghost ids_pre = ids;
            let mut step_err: bool = false;
            match &self.records[i] {
                Command::Spawn { token, components } => {
                    let comps = copy_pairs(components);
                    let e = store.spawn_now(comps);
                    let ghost assign_pre = assign@;
                    assign.push((*token, e));
                    proof {
                        amap = amap.insert(*token, e);
                        ids = ids.push(e);
                        assert(assign@.drop_last() =~= assign_pre);
                        assert(assign@.last() == (*token, e));
                    }
                },
                Command::Despawn { target } => {
                    let resolved: Option<u64> = match target {
                        EntityRef::Real { id } => Some(*id),
                        EntityRef::Pending { token } => lookup_token(&assign, *token, Ghost(amap)),
                    };
                    match resolved {
                        Some(e) => {
                            let existed = store.despawn_now(e);
                            proof {
                                if !m_pre.contains_key(e) {
                                    assert(m_pre.remove(e) =~= m_pre);
                                }
                            }
                        },
                        None => {
                            step_err = true;
                        },
                    }
                },
                Command::Insert { target, component, value } => {
                    let resolved: Option<u64> = match target {
                        EntityRef::Real { id } => Some(*id),
                        EntityRef::Pending { token } => lookup_token(&assign, *token, Ghost(amap)),
                    };
                    match resolved {
                        Some(e) => {
                            match store.insert_component(e, *component, *value) {
                                Ok(()) => {},
                                Err(_) => {
                                    step_err = true;
                                },
                            }
                        },
                        None => {
                            step_err = true;
                        },
                    }
                },
                Command::Remove { target, component } => {
                    let resolved: Option<u64> = match target {
                        EntityRef::Real { id } => Some(*id),
                        EntityRef::Pending { token } => lookup_token(&assign, *token, Ghost(amap)),
                    };
                    match resolved {
                        Some(e) => {
                            match store.remove_component(e, *component) {
                                Ok(()) => {},
                                Err(_) => {
                                    step_err = true;
                                },
                            }
                        },
                        None => {
                            step_err = true;
                        },
                    }
                },
            }
            if step_err {
                proof {
                    assert(drain_failed_at(m0, cmds, store.contents(), i as int)) by {
                        assert(store.contents() == m_pre);
                        assert(apply_cmds(m0, Map::empty(), cmds.take(i as int), ids_pre)
                            == Some((store.contents(), a_pre)));
                        assert(step_fails(store.contents(), a_pre, cmds[i as int]));
                    }
                }
                self.records = Vec::new();
                return Err(i);
            }
            proof {
                reveal_with_fuel(apply_cmds, 3);
                let c = cmds[i as int];
                let step_ids = if c is Spawn {
                    seq![ids.last()]
                } else {
                    Seq::<u64>::empty()
                };
                assert(cmds.take(i as int) + seq![c] =~= cmds.take(i + 1));
                assert(ids_pre + step_ids =~= ids);
                lemma_apply_append(m0, Map::empty(), cmds.take(i as int), seq![c], ids_pre, step_ids);
                assert(seq![c].drop_first() =~= Seq::<Command>::empty());
                lemma_spawn_count_snoc(cmds, i as int);
            }
            i += 1;
        }
        proof {
            assert(cmds.take(cmds.len() as int) =~= cmds);
            assert(drained_to(m0, cmds, store.contents())) by {
                assert(apply_cmds(m0, Map::empty(), cmds, ids)
                    == Some((store.contents(), amap)));
            }
        }
        self.records = Vec::new();
        Ok(())
    }
}

/// Spawn counting distributes over extending a prefix by one record.
proof fn lemma_spawn_count_snoc(cmds: Seq<Command>, i: int)
    requires
        0 <= i < cmds.len(),
    ensures
        spawn_count(cmds.take(i + 1)) == spawn_count(cmds.take(i)) + (if cmds[i] is Spawn {
            1nat
        } else {
            0nat
        }),
    decreases i,
{
    reveal_with_fuel(spawn_count, 2);
    if i == 0 {
        assert(cmds.take(1).drop_first() =~= Seq::<Command>::empty());
        assert(cmds.take(1)[0] == cmds[0]);
        assert(cmds.take(0).len() == 0);
    } else {
        assert(cmds.take(i + 1).drop_first() =~= cmds.drop_first().take(i));
        assert(cmds.take(i).drop_first() =~= cmds.drop_first().take(i - 1));
        lemma_spawn_count_snoc(cmds.drop_first(), i - 1);
        assert(cmds.drop_first().take(i) =~= cmds.drop_first().take((i - 1) + 1));
    }
}

} // verus!
