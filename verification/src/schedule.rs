//! Greedy, deterministic batching of work units, and batch-by-batch
//! execution.
//!
//! Each unit is an ordered list of access descriptors plus a body. Units are
//! partitioned, in declaration order, into ordered batches: each unit joins
//! the currently open batch unless its access set conflicts with a unit
//! already placed there, in which case the open batch is sealed and a new
//! one opens with this unit. Hence two conflicting units always land in
//! different batches with the later-declared one strictly later, mutually
//! non-conflicting units all share the first batch, and the plan is a pure
//! function of the declared access sets.

use vstd::prelude::*;

use crate::access::AccessDescriptor;
use crate::access::Target;
use crate::access::conflicts;
use crate::access::descriptor_sets_conflict;
use crate::access::lemma_sets_conflict_symmetric;
use crate::access::sets_conflict;
use crate::context::Context;
use crate::error::Error;
use crate::error::ScheduleError;
use crate::registry::BorrowRegistry;
use vstd::pervasive::unreached;

verus! {

/// The access sets of a unit list, one `Seq` per unit.
pub open spec fn descs_view(d: Seq<Vec<AccessDescriptor>>) -> Seq<Seq<AccessDescriptor>> {
    Seq::new(d.len(), |i: int| d[i]@)
}

/// A batch plan as mathematical sequences.
pub open spec fn plan_view(p: Seq<Vec<usize>>) -> Seq<Seq<usize>> {
    Seq::new(p.len(), |i: int| p[i]@)
}

/// Whether unit `j` conflicts with some unit already placed in `batch`.
pub open spec fn batch_conflicts_spec(
    units: Seq<Seq<AccessDescriptor>>,
    batch: Seq<usize>,
    j: int,
) -> bool {
    exists|k: int| 0 <= k < batch.len() && sets_conflict(units[#[trigger] batch[k] as int], units[j])
}

/// The plan after placing unit `j`: appended to the open (last) batch when it
/// conflicts with none of its units, else a new batch holding only `j`.
pub open spec fn insert_unit(
    units: Seq<Seq<AccessDescriptor>>,
    plan: Seq<Seq<usize>>,
    j: int,
) -> Seq<Seq<usize>> {
    if plan.len() == 0 || batch_conflicts_spec(units, plan.last(), j) {
        plan.push(seq![j as usize])
    } else {
        plan.update(plan.len() - 1, plan.last().push(j as usize))
    }
}

/// The plan after placing the first `n` units in declaration order.
pub open spec fn plan_upto(units: Seq<Seq<AccessDescriptor>>, n: int) -> Seq<Seq<usize>>
    decreases n,
{
    if n <= 0 {
        Seq::empty()
    } else {
        insert_unit(units, plan_upto(units, n - 1), n - 1)
    }
}

/// The batch plan of a unit list: a pure function of the declared access
/// sets, so batching is deterministic.
pub open spec fn batch_plan(units: Seq<Seq<AccessDescriptor>>) -> Seq<Seq<usize>> {
    plan_upto(units, units.len() as int)
}

/// All plan members name units below `n`.
pub open spec fn plan_members_lt(plan: Seq<Seq<usize>>, n: int) -> bool {
    forall|b: int, k: int|
        0 <= b < plan.len() && 0 <= k < plan[b].len() ==> (#[trigger] plan[b][k]) < n
}

/// Every unit below `n` stands in some batch.
pub open spec fn plan_complete(plan: Seq<Seq<usize>>, n: int) -> bool {
    forall|u: usize| #![trigger in_plan(plan, u)] u < n ==> in_plan(plan, u)
}

/// Whether unit `u` stands in some batch of the plan.
pub open spec fn in_plan(plan: Seq<Seq<usize>>, u: usize) -> bool {
    exists|b: int, k: int| 0 <= b < plan.len() && 0 <= k < plan[b].len() && #[trigger] plan[b][k] == u
}

/// No unit stands in two places.
pub open spec fn plan_distinct(plan: Seq<Seq<usize>>) -> bool {
    forall|b1: int, k1: int, b2: int, k2: int|
        0 <= b1 < plan.len() && 0 <= k1 < plan[b1].len() && 0 <= b2 < plan.len() && 0 <= k2
            < plan[b2].len() && (b1 != b2 || k1 != k2)
            ==> #[trigger] plan[b1][k1] != #[trigger] plan[b2][k2]
}

/// No two units of one batch have conflicting access sets: running a batch
/// concurrently is race-free by construction.
pub open spec fn plan_safe(units: Seq<Seq<AccessDescriptor>>, plan: Seq<Seq<usize>>) -> bool {
    forall|b: int, k1: int, k2: int|
        0 <= b < plan.len() && 0 <= k1 < plan[b].len() && 0 <= k2 < plan[b].len() && k1 != k2
            ==> !sets_conflict(
                units[#[trigger] plan[b][k1] as int],
                units[#[trigger] plan[b][k2] as int],
            )
}

/// A later-declared unit conflicting with an earlier one stands in a
/// strictly later batch.
pub open spec fn plan_ordered(units: Seq<Seq<AccessDescriptor>>, plan: Seq<Seq<usize>>) -> bool {
    forall|b1: int, k1: int, b2: int, k2: int|
        0 <= b1 < plan.len() && 0 <= k1 < plan[b1].len() && 0 <= b2 < plan.len() && 0 <= k2
            < plan[b2].len() && #[trigger] plan[b1][k1] < #[trigger] plan[b2][k2]
            && sets_conflict(units[plan[b1][k1] as int], units[plan[b2][k2] as int])
            ==> b1 < b2
}

/// Batches are never empty.
pub open spec fn plan_nonempty(plan: Seq<Seq<usize>>) -> bool {
    forall|b: int| 0 <= b < plan.len() ==> (#[trigger] plan[b]).len() >= 1
}

/// The structural guarantees of the greedy plan, by induction over the units
/// placed so far.
proof fn lemma_plan_upto_props(units: Seq<Seq<AccessDescriptor>>, n: int)
    requires
        0 <= n <= units.len(),
        units.len() <= usize::MAX,
    ensures
        plan_members_lt(plan_upto(units, n), n),
        plan_complete(plan_upto(units, n), n),
        plan_distinct(plan_upto(units, n)),
        plan_safe(units, plan_upto(units, n)),
        plan_ordered(units, plan_upto(units, n)),
        plan_nonempty(plan_upto(units, n)),
    decreases n,
{
    if n > 0 {
        lemma_plan_upto_props(units, n - 1);
        let p = plan_upto(units, n - 1);
        let j = n - 1;
        assert((j as usize) as int == j);
        let b: int = if p.len() == 0 || batch_conflicts_spec(units, p.last(), j) {
            p.len() as int
        } else {
            p.len() - 1
        };
        let p2 = plan_upto(units, n);
        assert(p2 == insert_unit(units, p, j));
        // Whichever way the unit was placed, old members stay where they
        // are, and the new member is exactly `j` at the end of batch `b`.
        assert(p2.len() == if b == p.len() {
            p.len() + 1
        } else {
            p.len()
        });
        assert(forall|c: int|
            0 <= c < p.len() && c != b ==> #[trigger] p2[c] == p[c]);
        if b == p.len() {
            assert(p2[b] =~= seq![j as usize]);
        } else {
            assert(p2[b] == p[b].push(j as usize));
        }
        assert forall|b1: int, k1: int|
            0 <= b1 < p2.len() && 0 <= k1 < p2[b1].len() implies (#[trigger] p2[b1][k1]) < n
            && (p2[b1][k1] == j as usize <==> (b1 == b && k1 == p2[b1].len() - 1)) by {
            if b1 == b && k1 == p2[b1].len() - 1 {
                assert(p2[b1][k1] == j as usize);
            } else if b1 == b {
                if b == p.len() {
                } else {
                    assert(p2[b1][k1] == p[b1][k1]);
                    assert(p[b1][k1] < n - 1);
                }
            } else {
                assert(p2[b1][k1] == p[b1][k1]);
                assert(p[b1][k1] < n - 1);
            }
        }
        // Safety of the batch that received the unit.
        assert forall|k1: int, k2: int|
            0 <= k1 < p2[b].len() && 0 <= k2 < p2[b].len() && k1 != k2 implies !sets_conflict(
            units[#[trigger] p2[b][k1] as int],
            units[#[trigger] p2[b][k2] as int],
        ) by {
            if b == p.len() {
                assert(p2[b].len() == 1);
            } else {
                assert(!batch_conflicts_spec(units, p[b], j));
                if k1 == p2[b].len() - 1 {
                    assert(p2[b][k2] == p[b][k2]);
                    assert(!sets_conflict(units[p[b][k2] as int], units[j]));
                    lemma_sets_conflict_symmetric(units[j], units[p[b][k2] as int]);
                } else if k2 == p2[b].len() - 1 {
                    assert(p2[b][k1] == p[b][k1]);
                    assert(!sets_conflict(units[p[b][k1] as int], units[j]));
                } else {
                    assert(p2[b][k1] == p[b][k1] && p2[b][k2] == p[b][k2]);
                }
            }
        }
        // Ordering: an earlier conflicting unit's batch lies strictly below.
        assert forall|b1: int, k1: int, b2: int, k2: int|
            0 <= b1 < p2.len() && 0 <= k1 < p2[b1].len() && 0 <= b2 < p2.len() && 0 <= k2
                < p2[b2].len() && #[trigger] p2[b1][k1] < #[trigger] p2[b2][k2]
                && sets_conflict(units[p2[b1][k1] as int], units[p2[b2][k2] as int])
            implies b1 < b2 by {
            if p2[b2][k2] == j as usize {
                // The new unit: the earlier conflicting unit cannot stand in
                // the batch `j` joined, so its batch lies strictly below.
                assert(b2 == b && k2 == p2[b2].len() - 1);
                assert(p2[b1][k1] != j as usize);
                assert(b1 < p.len() && p2[b1][k1] == p[b1][k1]);
                assert(sets_conflict(units[p[b1][k1] as int], units[j]));
                if b == p.len() - 1 {
                    // `j` joined the open batch, which conflicts with none of
                    // its members; the earlier unit is elsewhere.
                    if b1 == b {
                        assert(batch_conflicts_spec(units, p.last(), j));
                        assert(false);
                    }
                }
            } else {
                assert(p2[b2][k2] == p[b2][k2]);
                if p2[b1][k1] == j as usize {
                    // `j` is the largest unit index so far; it cannot be the
                    // smaller one.
                    assert(p[b2][k2] < j as usize);
                    assert(false);
                } else {
                    assert(p2[b1][k1] == p[b1][k1]);
                }
            }
        }
        // Completeness: old units kept their places; `j` got one.
        assert forall|u: usize| u < n implies in_plan(p2, u) by {
            if u == j as usize {
                assert(p2[b][p2[b].len() - 1] == u);
            } else {
                assert(in_plan(p, u));
                let (b1, k1) = choose|b1: int, k1: int|
                    0 <= b1 < p.len() && 0 <= k1 < p[b1].len() && #[trigger] p[b1][k1] == u;
                if b1 == b {
                    assert(p2[b1][k1] == u);
                } else {
                    assert(p2[b1][k1] == u);
                }
            }
        }
    }
}

/// The guarantees of the batch plan of any unit list: every unit stands in
/// exactly one batch; units of one batch never conflict, so running a batch
/// concurrently is race-free; and of two conflicting units the
/// later-declared stands in a strictly later batch, so it never runs before
/// the earlier one.
pub proof fn lemma_batch_plan_props(units: Seq<Seq<AccessDescriptor>>)
    requires
        units.len() <= usize::MAX,
    ensures
        plan_members_lt(batch_plan(units), units.len() as int),
        plan_complete(batch_plan(units), units.len() as int),
        plan_distinct(batch_plan(units)),
        plan_safe(units, batch_plan(units)),
        plan_ordered(units, batch_plan(units)),
        plan_nonempty(batch_plan(units)),
{
    lemma_plan_upto_props(units, units.len() as int);
}

/// Batching is deterministic: the plan is a pure function of the declared
/// access sets, so two runs over the same unit list yield the same plan.
pub proof fn lemma_batching_deterministic(
    units1: Seq<Seq<AccessDescriptor>>,
    units2: Seq<Seq<AccessDescriptor>>,
)
    requires
        units1 == units2,
    ensures
        batch_plan(units1) == batch_plan(units2),
{
}

/// Units that conflict pairwise nowhere all share the first batch: batching
/// never makes one of them wait for another.
pub proof fn lemma_no_conflicts_one_batch(units: Seq<Seq<AccessDescriptor>>)
    requires
        units.len() <= usize::MAX,
        forall|i: int, j: int|
            0 <= i < units.len() && 0 <= j < units.len() && i != j ==> !sets_conflict(
                units[i],
                units[j],
            ),
    ensures
        units.len() == 0 ==> batch_plan(units).len() == 0,
        units.len() > 0 ==> batch_plan(units).len() == 1,
{
    lemma_no_conflicts_upto(units, units.len() as int);
}

proof fn lemma_no_conflicts_upto(units: Seq<Seq<AccessDescriptor>>, n: int)
    requires
        0 <= n <= units.len(),
        units.len() <= usize::MAX,
        forall|i: int, j: int|
            0 <= i < units.len() && 0 <= j < units.len() && i != j ==> !sets_conflict(
                units[i],
                units[j],
            ),
    ensures
        n == 0 ==> plan_upto(units, n).len() == 0,
        n > 0 ==> plan_upto(units, n).len() == 1,
    decreases n,
{
    if n > 0 {
        lemma_no_conflicts_upto(units, n - 1);
        lemma_plan_upto_props(units, n - 1);
        let p = plan_upto(units, n - 1);
        let j = n - 1;
        if n > 1 {
            assert(p.len() == 1);
            assert(!batch_conflicts_spec(units, p.last(), j)) by {
                if batch_conflicts_spec(units, p.last(), j) {
                    let k = choose|k: int|
                        0 <= k < p.last().len() && sets_conflict(
                            units[#[trigger] p.last()[k] as int],
                            units[j],
                        );
                    assert(p[0][k] < n - 1);
                    assert(!sets_conflict(units[p[0][k] as int], units[j]));
                }
            }
        }
    }
}

/// Whether unit `j` conflicts with some unit already placed in `batch`.
fn batch_conflicts(descs: &Vec<Vec<AccessDescriptor>>, batch: &Vec<usize>, j: usize) -> (r: bool)
    requires
        forall|k: int| 0 <= k < batch@.len() ==> (#[trigger] batch@[k]) < descs@.len(),
        j < descs@.len(),
    ensures
        r == batch_conflicts_spec(descs_view(descs@), batch@, j as int),
{
    let ghost units = descs_view(descs@);
    let mut k: usize = 0;
    while k < batch.len()
        invariant
            0 <= k <= batch@.len(),
            j < descs@.len(),
            units == descs_view(descs@),
            forall|q: int| 0 <= q < batch@.len() ==> (#[trigger] batch@[q]) < descs@.len(),
            forall|q: int|
                0 <= q < k ==> !sets_conflict(units[#[trigger] batch@[q] as int], units[j as int]),
        decreases batch@.len() - k,
    {
        let m = batch[k];
        if descriptor_sets_conflict(&descs[m], &descs[j]) {
            proof {
                assert(units[m as int] == descs@[m as int]@);
                assert(units[j as int] == descs@[j as int]@);
            }
            return true;
        }
        k += 1;
    }
    false
}

/// Copy a batch's member list.
fn copy_indices(v: &Vec<usize>) -> (r: Vec<usize>)
    ensures
        r@ == v@,
{
    let mut r: Vec<usize> = Vec::new();
    let mut i: usize = 0;
    while i < v.len()
        invariant
            0 <= i <= v@.len(),
            r@ == v@.take(i as int),
        decreases v@.len() - i,
    {
        r.push(v[i]);
        proof {
            assert(v@.take(i as int).push(v@[i as int]) =~= v@.take(i as int + 1));
        }
        i += 1;
    }
    proof {
        assert(v@.take(v@.len() as int) =~= v@);
    }
    r
}

/// Compute the batch plan of the given access sets: the greedy deterministic
/// partition that `batch_plan` describes.
#[verifier::loop_isolation(false)]
pub fn compute_plan(descs: &Vec<Vec<AccessDescriptor>>) -> (plan: Vec<Vec<usize>>)
    ensures
        plan_view(plan@) == batch_plan(descs_view(descs@)),
{
    let ghost units = descs_view(descs@);
    let n_units = descs.len();
    proof {
        assert(descs@.len() <= usize::MAX);
    }
    let mut plan: Vec<Vec<usize>> = Vec::new();
    let mut j: usize = 0;
    while j < n_units
        invariant
            0 <= j <= descs@.len(),
            plan_view(plan@) == plan_upto(units, j as int),
        decreases descs@.len() - j,
    {
        proof {
            lemma_plan_upto_props(units, j as int);
        }
        let ghost pview = plan_view(plan@);
        let open_new: bool = if plan.len() == 0 {
            true
        } else {
            let last = plan.len() - 1;
            proof {
                assert(plan_view(plan@)[last as int] == plan@[last as int]@);
                assert(pview.last() == plan@[last as int]@);
                assert forall|k: int| 0 <= k < plan@[last as int]@.len()
                    implies (#[trigger] plan@[last as int]@[k]) < descs@.len() by {
                    assert(plan_upto(units, j as int)[last as int][k] < j as int);
                }
            }
            batch_conflicts(descs, &plan[last], j)
        };
        if open_new {
            let mut nb: Vec<usize> = Vec::new();
            nb.push(j);
            plan.push(nb);
            proof {
                assert(plan_view(plan@) =~= pview.push(seq![j]));
                assert(seq![j] =~= seq![j as usize]);
            }
        } else {
            let last = plan.len() - 1;
            let mut nb = copy_indices(&plan[last]);
            nb.push(j);
            plan[last] = nb;
            proof {
                assert(plan_view(plan@) =~= pview.update(
                    last as int,
                    pview[last as int].push(j),
                ));
            }
        }
        proof {
            assert(plan_view(plan@) =~= insert_unit(units, pview, j as int));
        }
        j += 1;
    }
    proof {
        assert(plan_view(plan@) == plan_upto(units, descs@.len() as int));
    }
    plan
}

} // verus!

verus! {

/// Whether some descriptor of `s` names target `t`.
pub open spec fn touches(s: Seq<AccessDescriptor>, t: Target) -> bool {
    exists|i: int| 0 <= i < s.len() && (#[trigger] s[i]).target == t
}

/// Whether some descriptor of `s` writes target `t`.
pub open spec fn writes_target(s: Seq<AccessDescriptor>, t: Target) -> bool {
    exists|i: int| 0 <= i < s.len() && (#[trigger] s[i]).target == t && s[i].writes
}

/// Whether some descriptor of `s` names target `t` as a required dependency.
pub open spec fn requires_target(s: Seq<AccessDescriptor>, t: Target) -> bool {
    exists|i: int| 0 <= i < s.len() && (#[trigger] s[i]).target == t && !s[i].optional
}

/// No two descriptors of `s` name the same target.
pub open spec fn targets_unique(s: Seq<AccessDescriptor>) -> bool {
    forall|a: int, b: int|
        0 <= a < s.len() && 0 <= b < s.len() && a != b
            ==> (#[trigger] s[a]).target != (#[trigger] s[b]).target
}

/// Any index of a descriptor for target `t`, if one exists.
fn find_target(v: &Vec<AccessDescriptor>, t: Target) -> (r: Option<usize>)
    ensures
        match r {
            Some(k) => k < v@.len() && v@[k as int].target == t,
            None => !touches(v@, t),
        },
{
    let mut k: usize = 0;
    while k < v.len()
        invariant
            0 <= k <= v@.len(),
            forall|q: int| 0 <= q < k ==> (#[trigger] v@[q]).target != t,
        decreases v@.len() - k,
    {
        if v[k].target == t {
            return Some(k);
        }
        k += 1;
    }
    None
}

/// Fold a unit's declared descriptor list into one descriptor per target:
/// a target is written when any declaration writes it, and optional only
/// when every declaration of it is optional. The set of targets touched,
/// written and required is exactly that of the input, so conflicts and
/// missing-resource checks are unchanged.
pub fn normalize_descriptors(input: &Vec<AccessDescriptor>) -> (r: Vec<AccessDescriptor>)
    ensures
        targets_unique(r@),
        forall|t: Target| touches(r@, t) == touches(input@, t),
        forall|t: Target| writes_target(r@, t) == writes_target(input@, t),
        forall|t: Target| requires_target(r@, t) == requires_target(input@, t),
{
    let mut r: Vec<AccessDescriptor> = Vec::new();
    let mut i: usize = 0;
    while i < input.len()
        invariant
            0 <= i <= input@.len(),
            targets_unique(r@),
            forall|t: Target| touches(r@, t) == touches(input@.take(i as int), t),
            forall|t: Target| writes_target(r@, t) == writes_target(input@.take(i as int), t),
            forall|t: Target| requires_target(r@, t) == requires_target(input@.take(i as int), t),
        decreases input@.len() - i,
    {
        let d = input[i];
        let ghost r_pre = r@;
        let ghost pre = input@.take(i as int);
        let ghost post = input@.take(i as int + 1);
        proof {
            assert(pre.push(input@[i as int]) =~= post);
        }
        match find_target(&r, d.target) {
            Some(k) => {
                let merged = AccessDescriptor {
                    target: d.target,
                    writes: r[k].writes || d.writes,
                    optional: r[k].optional && d.optional,
                };
                r[k] = merged;
                proof {
                    lemma_normalize_merge(r_pre, r@, pre, post, d, k as int);
                }
            },
            None => {
                r.push(d);
                proof {
                    lemma_normalize_push(r_pre, r@, pre, post, d);
                }
            },
        }
        i += 1;
    }
    proof {
        assert(input@.take(input@.len() as int) =~= input@);
    }
    r
}

/// Merging one declaration into the descriptor already covering its target
/// preserves the touched, written and required target sets.
proof fn lemma_normalize_merge(
    r0: Seq<AccessDescriptor>,
    r1: Seq<AccessDescriptor>,
    pre: Seq<AccessDescriptor>,
    post: Seq<AccessDescriptor>,
    d: AccessDescriptor,
    k: int,
)
    requires
        0 <= k < r0.len(),
        r0[k].target == d.target,
        r1 == r0.update(k, AccessDescriptor {
            target: d.target,
            writes: r0[k].writes || d.writes,
            optional: r0[k].optional && d.optional,
        }),
        post == pre.push(d),
        targets_unique(r0),
        forall|t: Target| touches(r0, t) == touches(pre, t),
        forall|t: Target| writes_target(r0, t) == writes_target(pre, t),
        forall|t: Target| requires_target(r0, t) == requires_target(pre, t),
    ensures
        targets_unique(r1),
        forall|t: Target| touches(r1, t) == touches(post, t),
        forall|t: Target| writes_target(r1, t) == writes_target(post, t),
        forall|t: Target| requires_target(r1, t) == requires_target(post, t),
{
    assert forall|t: Target| touches(r1, t) == touches(post, t) by {
        if touches(r1, t) {
            let a = choose|a: int| 0 <= a < r1.len() && (#[trigger] r1[a]).target == t;
            if a == k {
                assert(post[post.len() - 1].target == t);
            } else {
                assert(r0[a].target == t);
                assert(touches(r0, t));
                assert(touches(pre, t));
                let q = choose|q: int| 0 <= q < pre.len() && (#[trigger] pre[q]).target == t;
                assert(post[q].target == t);
                assert(touches(post, t));
            }
        }
        if touches(post, t) {
            let q = choose|q: int| 0 <= q < post.len() && (#[trigger] post[q]).target == t;
            if q == post.len() - 1 {
                assert(r1[k].target == t);
            } else {
                assert(pre[q].target == t);
                assert(touches(pre, t));
                assert(touches(r0, t));
                let a = choose|a: int| 0 <= a < r0.len() && (#[trigger] r0[a]).target == t;
                assert(r1[a].target == t);
            }
        }
    }
    assert forall|t: Target| writes_target(r1, t) == writes_target(post, t) by {
        if writes_target(r1, t) {
            let a = choose|a: int|
                0 <= a < r1.len() && (#[trigger] r1[a]).target == t && r1[a].writes;
            if a == k {
                if r0[k].writes {
                    assert(r0[k].target == t && r0[k].writes);
                    assert(writes_target(r0, t));
                    assert(writes_target(pre, t));
                    let q = choose|q: int|
                        0 <= q < pre.len() && (#[trigger] pre[q]).target == t && pre[q].writes;
                    assert(post[q].target == t && post[q].writes);
                    assert(writes_target(post, t));
                } else {
                    assert(post[post.len() - 1].target == t && post[post.len() - 1].writes);
                }
            } else {
                assert(r0[a].target == t && r0[a].writes);
                assert(writes_target(r0, t));
                assert(writes_target(pre, t));
                let q = choose|q: int|
                    0 <= q < pre.len() && (#[trigger] pre[q]).target == t && pre[q].writes;
                assert(post[q].target == t && post[q].writes);
                assert(writes_target(post, t));
            }
        }
        if writes_target(post, t) {
            let q = choose|q: int|
                0 <= q < post.len() && (#[trigger] post[q]).target == t && post[q].writes;
            if q == post.len() - 1 {
                assert(r1[k].target == t && r1[k].writes);
            } else {
                assert(pre[q].target == t && pre[q].writes);
                assert(writes_target(pre, t));
                assert(writes_target(r0, t));
                let a = choose|a: int|
                    0 <= a < r0.len() && (#[trigger] r0[a]).target == t && r0[a].writes;
                if a == k {
                    assert(r1[k].target == t && r1[k].writes);
                } else {
                    assert(r1[a].target == t && r1[a].writes);
                }
            }
        }
    }
    assert forall|t: Target| requires_target(r1, t) == requires_target(post, t) by {
        if requires_target(r1, t) {
            let a = choose|a: int|
                0 <= a < r1.len() && (#[trigger] r1[a]).target == t && !r1[a].optional;
            if a == k {
                if !r0[k].optional {
                    assert(r0[k].target == t && !r0[k].optional);
                    assert(requires_target(r0, t));
                    assert(requires_target(pre, t));
                    let q = choose|q: int|
                        0 <= q < pre.len() && (#[trigger] pre[q]).target == t && !pre[q].optional;
                    assert(post[q].target == t && !post[q].optional);
                    assert(requires_target(post, t));
                } else {
                    assert(post[post.len() - 1].target == t && !post[post.len() - 1].optional);
                }
            } else {
                assert(r0[a].target == t && !r0[a].optional);
                assert(requires_target(r0, t));
                assert(requires_target(pre, t));
                let q = choose|q: int|
                    0 <= q < pre.len() && (#[trigger] pre[q]).target == t && !pre[q].optional;
                assert(post[q].target == t && !post[q].optional);
                assert(requires_target(post, t));
            }
        }
        if requires_target(post, t) {
            let q = choose|q: int|
                0 <= q < post.len() && (#[trigger] post[q]).target == t && !post[q].optional;
            if q == post.len() - 1 {
                assert(r1[k].target == t && !r1[k].optional);
            } else {
                assert(pre[q].target == t && !pre[q].optional);
                assert(requires_target(pre, t));
                assert(requires_target(r0, t));
                let a = choose|a: int|
                    0 <= a < r0.len() && (#[trigger] r0[a]).target == t && !r0[a].optional;
                if a == k {
                    assert(r1[k].target == t && !r1[k].optional);
                } else {
                    assert(r1[a].target == t && !r1[a].optional);
                }
            }
        }
    }
}

/// Appending a declaration whose target was not yet covered preserves the
/// touched, written and required target sets.
proof fn lemma_normalize_push(
    r0: Seq<AccessDescriptor>,
    r1: Seq<AccessDescriptor>,
    pre: Seq<AccessDescriptor>,
    post: Seq<AccessDescriptor>,
    d: AccessDescriptor,
)
    requires
        r1 == r0.push(d),
        !touches(r0, d.target),
        post == pre.push(d),
        targets_unique(r0),
        forall|t: Target| touches(r0, t) == touches(pre, t),
        forall|t: Target| writes_target(r0, t) == writes_target(pre, t),
        forall|t: Target| requires_target(r0, t) == requires_target(pre, t),
    ensures
        targets_unique(r1),
        forall|t: Target| touches(r1, t) == touches(post, t),
        forall|t: Target| writes_target(r1, t) == writes_target(post, t),
        forall|t: Target| requires_target(r1, t) == requires_target(post, t),
{
    assert forall|a: int, b: int|
        0 <= a < r1.len() && 0 <= b < r1.len() && a != b
        implies (#[trigger] r1[a]).target != (#[trigger] r1[b]).target by {
        if a == r1.len() - 1 {
            assert(r0[b].target == r1[b].target);
        } else if b == r1.len() - 1 {
            assert(r0[a].target == r1[a].target);
        }
    }
    assert forall|t: Target| touches(r1, t) == touches(post, t) by {
        if touches(r1, t) {
            let a = choose|a: int| 0 <= a < r1.len() && (#[trigger] r1[a]).target == t;
            if a == r1.len() - 1 {
                assert(post[post.len() - 1].target == t);
            } else {
                assert(r0[a].target == t);
                assert(touches(r0, t));
                assert(touches(pre, t));
                let q = choose|q: int| 0 <= q < pre.len() && (#[trigger] pre[q]).target == t;
                assert(post[q].target == t);
                assert(touches(post, t));
            }
        }
        if touches(post, t) {
            let q = choose|q: int| 0 <= q < post.len() && (#[trigger] post[q]).target == t;
            if q == post.len() - 1 {
                assert(r1[r1.len() - 1].target == t);
            } else {
                assert(pre[q].target == t);
                assert(touches(pre, t));
                assert(touches(r0, t));
                let a = choose|a: int| 0 <= a < r0.len() && (#[trigger] r0[a]).target == t;
                assert(r1[a].target == t);
            }
        }
    }
    assert forall|t: Target| writes_target(r1, t) == writes_target(post, t) by {
        if writes_target(r1, t) {
            let a = choose|a: int|
                0 <= a < r1.len() && (#[trigger] r1[a]).target == t && r1[a].writes;
            if a == r1.len() - 1 {
                assert(post[post.len() - 1].target == t && post[post.len() - 1].writes);
            } else {
                assert(r0[a].target == t && r0[a].writes);
                assert(writes_target(r0, t));
                assert(writes_target(pre, t));
                let q = choose|q: int|
                    0 <= q < pre.len() && (#[trigger] pre[q]).target == t && pre[q].writes;
                assert(post[q].target == t && post[q].writes);
                assert(writes_target(post, t));
            }
        }
        if writes_target(post, t) {
            let q = choose|q: int|
                0 <= q < post.len() && (#[trigger] post[q]).target == t && post[q].writes;
            if q == post.len() - 1 {
                assert(r1[r1.len() - 1].target == t && r1[r1.len() - 1].writes);
            } else {
                assert(pre[q].target == t && pre[q].writes);
                assert(writes_target(pre, t));
                assert(writes_target(r0, t));
                let a = choose|a: int|
                    0 <= a < r0.len() && (#[trigger] r0[a]).target == t && r0[a].writes;
                assert(r1[a].target == t && r1[a].writes);
            }
        }
    }
    assert forall|t: Target| requires_target(r1, t) == requires_target(post, t) by {
        if requires_target(r1, t) {
            let a = choose|a: int|
                0 <= a < r1.len() && (#[trigger] r1[a]).target == t && !r1[a].optional;
            if a == r1.len() - 1 {
                assert(post[post.len() - 1].target == t && !post[post.len() - 1].optional);
            } else {
                assert(r0[a].target == t && !r0[a].optional);
                assert(requires_target(r0, t));
                assert(requires_target(pre, t));
                let q = choose|q: int|
                    0 <= q < pre.len() && (#[trigger] pre[q]).target == t && !pre[q].optional;
                assert(post[q].target == t && !post[q].optional);
                assert(requires_target(post, t));
            }
        }
        if requires_target(post, t) {
            let q = choose|q: int|
                0 <= q < post.len() && (#[trigger] post[q]).target == t && !post[q].optional;
            if q == post.len() - 1 {
                assert(r1[r1.len() - 1].target == t && !r1[r1.len() - 1].optional);
            } else {
                assert(pre[q].target == t && !pre[q].optional);
                assert(requires_target(pre, t));
                assert(requires_target(r0, t));
                let a = choose|a: int|
                    0 <= a < r0.len() && (#[trigger] r0[a]).target == t && !r0[a].optional;
                assert(r1[a].target == t && !r1[a].optional);
            }
        }
    }
}

} // verus!

verus! {

/// Whether some descriptor of `s` reads (not writes) target `t`.
pub open spec fn reads_target(s: Seq<AccessDescriptor>, t: Target) -> bool {
    exists|i: int| 0 <= i < s.len() && (#[trigger] s[i]).target == t && !s[i].writes
}

/// Whether a descriptor is a required side resource the context does not
/// supply: the condition that fails its unit.
pub open spec fn side_missing(d: AccessDescriptor, side: Seq<(u64, i64)>) -> bool {
    match d.target {
        Target::Side { id } => !d.optional && !crate::store::has_comp(side, id),
        _ => false,
    }
}

/// Whether the unit declares some required side resource the context does
/// not supply.
pub open spec fn unit_missing(ds: Seq<AccessDescriptor>, side: Seq<(u64, i64)>) -> bool {
    exists|i: int| 0 <= i < ds.len() && side_missing(#[trigger] ds[i], side)
}

/// One schedulable piece of work: a declared access set and a body. The
/// schedule resolves `descriptors` once, when the unit is added, and never
/// consults the unit's behaviour; `run` receives the shared context.
pub trait WorkUnit {
    /// The resource slots this unit touches, as it declares them.
    fn descriptors(&self) -> Vec<AccessDescriptor>;

    /// Perform the unit's work against the context; an error code reports
    /// the unit's own failure.
    fn run(&mut self, ctx: &mut Context) -> Result<(), u64>;
}

/// An ordered list of work units with their declared access sets, and the
/// memoized batch plan.
pub struct Schedule<U> {
    descs: Vec<Vec<AccessDescriptor>>,
    units: Vec<U>,
    plan: Option<Vec<Vec<usize>>>,
}

/// Builds a schedule unit by unit.
pub struct ScheduleBuilder<U> {
    /// The schedule built so far.
    pub schedule: Schedule<U>,
}

impl<U: WorkUnit> Schedule<U> {
    /// The normalized access set of each unit, in declaration order.
    pub closed spec fn descs_seq(self) -> Seq<Seq<AccessDescriptor>> {
        descs_view(self.descs@)
    }

    /// How many units the schedule holds.
    pub closed spec fn unit_count(self) -> nat {
        self.units@.len()
    }

    /// Each unit has an access set; each set names a target once; a cached
    /// plan is the plan of the current units.
    pub closed spec fn wf(self) -> bool {
        &&& self.descs@.len() == self.units@.len()
        &&& (match self.plan {
            Some(p) => plan_view(p@) == batch_plan(self.descs_seq()),
            None => true,
        })
        &&& forall|u: int|
            0 <= u < self.descs@.len() ==> targets_unique((#[trigger] self.descs@[u])@)
    }

    /// An empty schedule.
    pub fn new() -> (s: Schedule<U>)
        ensures
            s.wf(),
            s.unit_count() == 0,
    {
        Schedule { descs: Vec::new(), units: Vec::new(), plan: None }
    }

    /// Start building a schedule.
    pub fn builder() -> (b: ScheduleBuilder<U>)
        ensures
            b.schedule.wf(),
            b.schedule.unit_count() == 0,
    {
        ScheduleBuilder { schedule: Schedule::new() }
    }

    /// Append a unit. Its access set is resolved now, normalized to one
    /// descriptor per target with the same touched, written and required
    /// targets as the unit declared; the cached plan is discarded.
    pub fn add_system(&mut self, unit: U)
        requires
            old(self).wf(),
        ensures
            final(self).wf(),
            final(self).unit_count() == old(self).unit_count() + 1,
            final(self).descs_seq().len() == old(self).descs_seq().len() + 1,
            forall|u: int|
                0 <= u < old(self).descs_seq().len()
                    ==> #[trigger] final(self).descs_seq()[u] == old(self).descs_seq()[u],
    {
        let ds = normalize_descriptors(&unit.descriptors());
        self.descs.push(ds);
        self.units.push(unit);
        self.plan = None;
        proof {
            assert forall|u: int|
                0 <= u < old(self).descs@.len()
                implies #[trigger] descs_view(self.descs@)[u] == descs_view(old(self).descs@)[u] by {
                assert(self.descs@[u] == old(self).descs@[u]);
            }
        }
    }

    /// The batch plan of the current units, computed once and cached: the
    /// greedy deterministic partition that `batch_plan` describes.
    pub fn compute_batches(&mut self) -> (p: Vec<Vec<usize>>)
        requires
            old(self).wf(),
        ensures
            final(self).wf(),
            final(self).descs_seq() == old(self).descs_seq(),
            final(self).unit_count() == old(self).unit_count(),
            plan_view(p@) == batch_plan(old(self).descs_seq()),
    {
        if self.plan.is_none() {
            let p = compute_plan(&self.descs);
            self.plan = Some(p);
        }
        match &self.plan {
            Some(p) => clone_plan(p),
            None => unreached(),
        }
    }

    /// Execute the schedule against a context: compute (or reuse) the batch
    /// plan, then run the batches in order, sequentially within each batch.
    /// Before a unit runs, its declared borrows are acquired from a
    /// batch-scoped registry; the batching guarantees make a borrow denial
    /// impossible, which is why no `AccessDenied` failure can be reported. A
    /// unit whose required side resource is missing does not run and fails
    /// with `MissingResource`; the rest of its batch still runs, and no later
    /// batch does. After the last batch, and only when no unit failed, the
    /// command buffer is drained into the store.
    #[verifier::loop_isolation(false)]
    pub fn execute(&mut self, ctx: &mut Context) -> (r: Result<(), ScheduleError>)
        requires
            old(self).wf(),
        ensures
            final(self).wf(),
            final(self).descs_seq() == old(self).descs_seq(),
            final(self).unit_count() == old(self).unit_count(),
            old(self).unit_count() == 0 && old(ctx).cmd.records_seq().len() == 0 ==> r
                is Ok,
            r is Ok ==> final(ctx).cmd.records_seq().len() == 0,
            r is Ok ==> forall|u: int|
                0 <= u < old(self).descs_seq().len() ==> !unit_missing(
                    #[trigger] old(self).descs_seq()[u],
                    old(ctx).side_seq(),
                ),
            r matches Err(ScheduleError::UnitFailures { failures }) ==> failures@.len() > 0
                && forall|f: int|
                    0 <= f < failures@.len() ==> (#[trigger] failures@[f]).0
                        < old(self).unit_count() && match failures@[f].1 {
                        Error::MissingResource { id } => requires_target(
                            old(self).descs_seq()[failures@[f].0 as int],
                            Target::Side { id },
                        ) && !crate::store::has_comp(old(ctx).side_seq(), id),
                        Error::Failed { .. } => true,
                        _ => false,
                    },
    {
        let ghost units0 = self.descs_seq();
        let ghost side0 = ctx.side_seq();
        let n = self.descs.len();
        if self.plan.is_none() {
            let p = compute_plan(&self.descs);
            self.plan = Some(p);
        }
        let plan: Vec<Vec<usize>> = match &self.plan {
            Some(p) => clone_plan(p),
            None => unreached(),
        };
        proof {
            lemma_batch_plan_props(units0);
            assert(plan_view(plan@) == batch_plan(units0));
        }
        // Resolve, against the supplied context, which units lack a required
        // side resource.
        let mut missing: Vec<Option<u64>> = Vec::new();
        let mut u: usize = 0;
        while u < n
            invariant
                0 <= u <= n,
                missing@.len() == u,
                forall|q: int| 0 <= q < u ==> match #[trigger] missing@[q] {
                    Some(id) => requires_target(units0[q], Target::Side { id })
                        && !crate::store::has_comp(side0, id),
                    None => !unit_missing(units0[q], side0),
                },
            decreases n - u,
        {
            let m = missing_of(&self.descs[u], ctx);
            proof {
                assert(units0[u as int] == self.descs@[u as int]@);
            }
            missing.push(m);
            u += 1;
        }
        // Run the batches in order.
        let mut b: usize = 0;
        while b < plan.len()
            invariant
                0 <= b <= plan@.len(),
                b == 0 ==> *ctx == *old(ctx),
                self.descs@ == old(self).descs@,
                self.units@.len() == old(self).units@.len(),
                (match self.plan {
                    Some(p) => plan_view(p@) == batch_plan(units0),
                    None => false,
                }),
                forall|b0: int, q: int|
                    0 <= b0 < b && 0 <= q < plan_view(plan@)[b0].len()
                        ==> missing@[#[trigger] plan_view(plan@)[b0][q] as int] is None,
            decreases plan@.len() - b,
        {
            let batch: &Vec<usize> = &plan[b];
            proof {
                assert(batch@ == plan_view(plan@)[b as int]);
            }
            let mut failures: Vec<(usize, Error)> = Vec::new();
            let mut reg = BorrowRegistry::new();
            let mut k: usize = 0;
            while k < batch.len()
                invariant
                    0 <= k <= batch@.len(),
                    self.descs@ == old(self).descs@,
                    self.units@.len() == old(self).units@.len(),
                    (match self.plan {
                        Some(p) => plan_view(p@) == batch_plan(units0),
                        None => false,
                    }),
                    reg.wf(),
                    forall|t: Target| #[trigger] reg.has_write(t) ==> exists|q: int|
                        0 <= q < k && writes_target(units0[#[trigger] batch@[q] as int], t),
                    forall|t: Target| #[trigger] reg.reads_of(t) > 0 ==> exists|q: int|
                        0 <= q < k && reads_target(units0[#[trigger] batch@[q] as int], t),
                    forall|t: Target| #[trigger] reg.reads_of(t) <= k,
                    forall|f: int| 0 <= f < failures@.len() ==> (#[trigger] failures@[f]).0
                        < units0.len() && match failures@[f].1 {
                        Error::MissingResource { id } => requires_target(
                            units0[failures@[f].0 as int],
                            Target::Side { id },
                        ) && !crate::store::has_comp(side0, id),
                        Error::Failed { .. } => true,
                        _ => false,
                    },
                    forall|q: int| 0 <= q < k
                        ==> missing@[#[trigger] batch@[q] as int] is None
                            || exists|f: int|
                                0 <= f < failures@.len() && (#[trigger] failures@[f]).0
                                    == batch@[q] as usize,
                decreases batch@.len() - k,
            {
                let u_idx = batch[k];
                let ghost fails_pre0 = failures@;
                proof {
                    assert(batch_plan(units0)[b as int][k as int] < units0.len());
                }
                match missing[u_idx] {
                    Some(id) => {
                        let ghost fails_pre = failures@;
                        failures.push((u_idx, Error::MissingResource { id }));
                        proof {
                            assert(failures@[failures@.len() - 1].0 == u_idx);
                            assert(forall|f: int|
                                0 <= f < fails_pre.len()
                                    ==> #[trigger] failures@[f] == fails_pre[f]);
                        }
                    },
                    None => {
                        let ds: &Vec<AccessDescriptor> = &self.descs[u_idx];
                        proof {
                            assert(ds@ == units0[u_idx as int]);
                            assert(targets_unique(ds@));
                        }
                        let mut di: usize = 0;
                        while di < ds.len()
                            invariant
                                0 <= di <= ds@.len(),
                                reg.wf(),
                                forall|t: Target| #[trigger] reg.has_write(t) ==> (exists|q: int|
                                    0 <= q < k && writes_target(units0[#[trigger] batch@[q] as int], t))
                                    || (exists|i: int|
                                        0 <= i < di && (#[trigger] ds@[i]).target == t
                                            && ds@[i].writes),
                                forall|t: Target| #[trigger] reg.reads_of(t) > 0 ==> (exists|q: int|
                                    0 <= q < k && reads_target(units0[#[trigger] batch@[q] as int], t))
                                    || (exists|i: int|
                                        0 <= i < di && (#[trigger] ds@[i]).target == t
                                            && !ds@[i].writes),
                                forall|t: Target| #[trigger] reg.reads_of(t) <= k + 1,
                                forall|t: Target|
                                    !(exists|i: int| 0 <= i < di && (#[trigger] ds@[i]).target == t)
                                        ==> #[trigger] reg.reads_of(t) <= k,
                            decreases ds@.len() - di,
                        {
                            let d = ds[di];
                            let active: bool = match d.target {
                                Target::Side { id } => if d.optional {
                                    ctx.has_side(id)
                                } else {
                                    true
                                },
                                _ => true,
                            };
                            if active {
                                proof {
                                    assert(ds@[di as int].target == d.target);
                                    assert forall|i: int| 0 <= i < di
                                        implies (#[trigger] ds@[i]).target != d.target by {
                                        assert(ds@[i].target != ds@[di as int].target);
                                    }
                                    assert(batch_plan(units0)[b as int] == batch@);
                                    // No earlier unit of this batch may hold a borrow on
                                    // this target: that would be a same-batch conflict,
                                    // which the plan rules out.
                                    assert(!reg.has_write(d.target)) by {
                                        if reg.has_write(d.target) {
                                            let q = choose|q: int|
                                                0 <= q < k && writes_target(
                                                    units0[#[trigger] batch@[q] as int],
                                                    d.target,
                                                );
                                            let i2 = choose|i2: int|
                                                0 <= i2 < units0[batch@[q] as int].len()
                                                    && (#[trigger] units0[batch@[q] as int][i2]).target
                                                        == d.target
                                                    && units0[batch@[q] as int][i2].writes;
                                            assert(conflicts(
                                                units0[batch@[q] as int][i2],
                                                ds@[di as int],
                                            ));
                                            assert(sets_conflict(
                                                units0[batch@[q] as int],
                                                units0[u_idx as int],
                                            ));
                                            assert(batch_plan(units0)[b as int][q] == batch@[q]);
                                            assert(batch_plan(units0)[b as int][k as int]
                                                == batch@[k as int]);
                                            assert(!sets_conflict(
                                                units0[batch@[q] as int],
                                                units0[batch@[k as int] as int],
                                            ));
                                            assert(false);
                                        }
                                    }
                                    if d.writes {
                                        assert(reg.reads_of(d.target) == 0) by {
                                            if reg.reads_of(d.target) > 0 {
                                                let q = choose|q: int|
                                                    0 <= q < k && reads_target(
                                                        units0[#[trigger] batch@[q] as int],
                                                        d.target,
                                                    );
                                                let i2 = choose|i2: int|
                                                    0 <= i2 < units0[batch@[q] as int].len()
                                                        && (#[trigger] units0[batch@[q] as int][i2]).target
                                                            == d.target
                                                        && !units0[batch@[q] as int][i2].writes;
                                                assert(conflicts(
                                                    units0[batch@[q] as int][i2],
                                                    ds@[di as int],
                                                ));
                                                assert(sets_conflict(
                                                    units0[batch@[q] as int],
                                                    units0[u_idx as int],
                                                ));
                                                assert(batch_plan(units0)[b as int][q] == batch@[q]);
                                                assert(batch_plan(units0)[b as int][k as int]
                                                    == batch@[k as int]);
                                                assert(false);
                                            }
                                        }
                                    }
                                    assert(reg.reads_of(d.target) <= k);
                                    assert(k < batch@.len());
                                }
                                if d.writes {
                                    match reg.acquire_write(d.target) {
                                        Ok(()) => {
                                            proof {
                                                assert(ds@[di as int].target == d.target
                                                    && ds@[di as int].writes);
                                            }
                                        },
                                        Err(_) => unreached(),
                                    }
                                } else {
                                    match reg.acquire_read(d.target) {
                                        Ok(()) => {
                                            proof {
                                                assert(ds@[di as int].target == d.target
                                                    && !ds@[di as int].writes);
                                            }
                                        },
                                        Err(_) => unreached(),
                                    }
                                }
                            }
                            di += 1;
                        }
                        let mut unit = self.units.remove(u_idx);
                        let res = unit.run(ctx);
                        self.units.insert(u_idx, unit);
                        match res {
                            Ok(()) => {},
                            Err(code) => {
                                let ghost fails_pre = failures@;
                                failures.push((u_idx, Error::Failed { code }));
                                proof {
                                    assert(forall|f: int|
                                        0 <= f < fails_pre.len()
                                            ==> #[trigger] failures@[f] == fails_pre[f]);
                                }
                            },
                        }
                        proof {
                            assert forall|t: Target| #[trigger] reg.has_write(t)
                                implies exists|q: int|
                                    0 <= q < k + 1 && writes_target(
                                        units0[#[trigger] batch@[q] as int],
                                        t,
                                    ) by {
                                if exists|q: int|
                                    0 <= q < k && writes_target(
                                        units0[#[trigger] batch@[q] as int],
                                        t,
                                    ) {
                                } else {
                                    assert(writes_target(units0[batch@[k as int] as int], t));
                                }
                            }
                            assert forall|t: Target| #[trigger] reg.reads_of(t) > 0
                                implies exists|q: int|
                                    0 <= q < k + 1 && reads_target(
                                        units0[#[trigger] batch@[q] as int],
                                        t,
                                    ) by {
                                if exists|q: int|
                                    0 <= q < k && reads_target(
                                        units0[#[trigger] batch@[q] as int],
                                        t,
                                    ) {
                                } else {
                                    assert(reads_target(units0[batch@[k as int] as int], t));
                                }
                            }
                        }
                    },
                }
                proof {
                    assert(forall|f: int|
                        0 <= f < fails_pre0.len() ==> #[trigger] failures@[f] == fails_pre0[f]);
                    assert forall|q: int| 0 <= q < k + 1
                        implies (missing@[#[trigger] batch@[q] as int] is None || exists|f: int|
                            0 <= f < failures@.len() && (#[trigger] failures@[f]).0
                                == batch@[q] as usize) by {
                        if q < k {
                            if !(missing@[batch@[q] as int] is None) {
                                let f0 = choose|f0: int|
                                    0 <= f0 < fails_pre0.len() && (#[trigger] fails_pre0[f0]).0
                                        == batch@[q] as usize;
                                assert(failures@[f0].0 == batch@[q] as usize);
                            }
                        } else {
                            if !(missing@[batch@[q] as int] is None) {
                                assert(failures@[fails_pre0.len() as int].0 == u_idx);
                            }
                        }
                    }
                }
                k += 1;
            }
            if failures.len() > 0 {
                return Err(ScheduleError::UnitFailures { failures });
            }
            proof {
                assert forall|q: int| 0 <= q < plan_view(plan@)[b as int].len()
                    implies missing@[#[trigger] plan_view(plan@)[b as int][q] as int] is None by {
                    assert(batch@[q] == plan_view(plan@)[b as int][q]);
                }
            }
            b += 1;
        }
        proof {
            assert forall|u2: int|
                0 <= u2 < units0.len() implies !unit_missing(#[trigger] units0[u2], side0) by {
                assert(in_plan(batch_plan(units0), u2 as usize));
                let (b0, q) = choose|b0: int, q: int|
                    0 <= b0 < batch_plan(units0).len() && 0 <= q < batch_plan(units0)[b0].len()
                        && #[trigger] batch_plan(units0)[b0][q] == u2 as usize;
                assert(missing@[plan_view(plan@)[b0][q] as int] is None);
            }
        }
        match ctx.drain_commands() {
            Ok(()) => Ok(()),
            Err(idx) => Err(ScheduleError::DrainFailed { record: idx }),
        }
    }
}

/// Copy a batch plan.
fn clone_plan(p: &Vec<Vec<usize>>) -> (r: Vec<Vec<usize>>)
    ensures
        plan_view(r@) == plan_view(p@),
{
    let mut r: Vec<Vec<usize>> = Vec::new();
    let mut i: usize = 0;
    while i < p.len()
        invariant
            0 <= i <= p@.len(),
            r@.len() == i,
            forall|q: int| 0 <= q < i ==> (#[trigger] r@[q])@ == p@[q]@,
        decreases p@.len() - i,
    {
        let nb = copy_indices(&p[i]);
        r.push(nb);
        i += 1;
    }
    proof {
        assert(plan_view(r@) =~= plan_view(p@));
    }
    r
}

/// Builder methods: units are appended in declaration order and the finished
/// schedule is handed out.
impl<U: WorkUnit> ScheduleBuilder<U> {
    /// Append a unit, in declaration order.
    pub fn add_system(self, unit: U) -> (r: ScheduleBuilder<U>)
        requires
            self.schedule.wf(),
        ensures
            r.schedule.wf(),
            r.schedule.unit_count() == self.schedule.unit_count() + 1,
    {
        let mut s = self.schedule;
        s.add_system(unit);
        ScheduleBuilder { schedule: s }
    }

    /// The finished schedule.
    pub fn build(self) -> (s: Schedule<U>)
        ensures
            s == self.schedule,
    {
        self.schedule
    }
}

/// The first required side resource of `ds` that the context does not
/// supply, if any.
fn missing_of(ds: &Vec<AccessDescriptor>, ctx: &Context) -> (r: Option<u64>)
    ensures
        match r {
            Some(id) => requires_target(ds@, Target::Side { id })
                && !crate::store::has_comp(ctx.side_seq(), id),
            None => !unit_missing(ds@, ctx.side_seq()),
        },
{
    let mut i: usize = 0;
    while i < ds.len()
        invariant
            0 <= i <= ds@.len(),
            forall|q: int| 0 <= q < i ==> !side_missing(#[trigger] ds@[q], ctx.side_seq()),
        decreases ds@.len() - i,
    {
        let d = ds[i];
        match d.target {
            Target::Side { id } => {
                if !d.optional && !ctx.has_side(id) {
                    proof {
                        assert(ds@[i as int].target == (Target::Side { id })
                            && !ds@[i as int].optional);
                    }
                    return Some(id);
                }
            },
            _ => {},
        }
        i += 1;
    }
    None
}

} // verus!
