//! Components that do not contain the target become feasibility obligations.
use vstd::prelude::*;

use crate::preprocess::compression::{
    CompressionState, component_hash, has_relation, obligation_hash, spec_component_hash, spec_obligation_hash, Component, FeasibilityObligation,
};
use crate::preprocess::compression::relation_ids_of;
use crate::problem::canonicalize::CanonicalRelationQ;
use crate::problem::context::SolverContext;
use crate::result::status::SolverError;
use crate::types::id_set::{contains_variable, relation_ids_increasing, var_ids_increasing};
use crate::types::ids::{RelationId, VariableId};
use crate::types::monomial::occurs;
use crate::types::polynomial::poly_variables;

verus! {

// ----- the relation graph -----

/// Some monomial of relation `r` names `v`.
pub open spec fn relation_mentions(r: CanonicalRelationQ, v: VariableId) -> bool {
    exists|i: int| 0 <= i < r.polynomial.terms@.len() && occurs(r.polynomial.terms@[i].monomial.exponents@, v)
}

/// The position of the last relation with id `id`, or -1.
pub open spec fn last_with_id(rs: Seq<CanonicalRelationQ>, id: RelationId) -> int
    decreases rs.len(),
{
    if rs.len() == 0 {
        -1
    } else if rs.last().id == id {
        rs.len() - 1
    } else {
        last_with_id(rs.drop_last(), id)
    }
}

/// The variables read for id `a` are those of the last relation with that id.
pub open spec fn id_mentions(rs: Seq<CanonicalRelationQ>, a: RelationId, v: VariableId) -> bool {
    let k = last_with_id(rs, a);
    0 <= k && relation_mentions(rs[k], v)
}

/// Id `b` is reached from id `a`: some variable read for `a` occurs in a relation with id `b`.
pub open spec fn id_edge(rs: Seq<CanonicalRelationQ>, a: RelationId, b: RelationId) -> bool {
    exists|v: VariableId, i: int| id_mentions(rs, a, v) && 0 <= i < rs.len() && rs[i].id == b && #[trigger] relation_mentions(rs[i], v)
}

/// The id at position `j` of `order` is reached from an earlier one.
pub open spec fn reached_before(rs: Seq<CanonicalRelationQ>, order: Seq<RelationId>, j: int) -> bool {
    exists|i: int| 0 <= i && i < j && #[trigger] id_edge(rs, order[i], order[j])
}

/// `order` starts somewhere and reaches each later id from an earlier one.
pub open spec fn grown_from(rs: Seq<CanonicalRelationQ>, order: Seq<RelationId>) -> bool {
    &&& order.len() > 0
    &&& forall|j: int| 0 < j && j < order.len() ==> #[trigger] reached_before(rs, order, j)
}

/// Id `id` lies in one of the first `k` components.
pub open spec fn in_earlier(cs: Seq<Component>, k: int, id: RelationId) -> bool {
    exists|j: int| 0 <= j < k && (#[trigger] cs[j]).relation_ids@.contains(id)
}

/// `cs` are the components of the relation graph of `rs`: each holds, in increasing order, the
/// ids reached from the smallest id that no earlier component holds, reaching nothing outside
/// itself and the earlier components; every id lies in exactly one of them; each lists the
/// variables read for its ids and whether the target is among them.
pub open spec fn is_component_list(cs: Seq<Component>, rs: Seq<CanonicalRelationQ>, target: VariableId) -> bool {
    &&& forall|id: RelationId| has_relation(rs, id) ==> #[trigger] in_earlier(cs, cs.len() as int, id)
    &&& forall|k: int| 0 <= k < cs.len() ==> is_component_at(#[trigger] cs[k], cs, k, rs, target)
}

pub open spec fn is_component_at(c: Component, cs: Seq<Component>, k: int, rs: Seq<CanonicalRelationQ>, target: VariableId) -> bool {
    &&& c.component_id == k
    &&& relation_ids_increasing(c.relation_ids@)
    &&& c.relation_ids@.len() > 0
    &&& forall|id: RelationId| #[trigger] c.relation_ids@.contains(id) ==> has_relation(rs, id) && !in_earlier(cs, k, id)
    &&& forall|id: RelationId| has_relation(rs, id) && !#[trigger] in_earlier(cs, k, id) ==> c.relation_ids@[0].0 <= id.0
    &&& forall|a: RelationId, b: RelationId|
        #[trigger] c.relation_ids@.contains(a) && has_relation(rs, b) && #[trigger] id_edge(rs, a, b) ==> c.relation_ids@.contains(b)
            || in_earlier(cs, k, b)
    &&& exists|order: Seq<RelationId>|
        grown_from(rs, order) && order[0] == c.relation_ids@[0] && forall|id: RelationId| #[trigger] order.contains(id) == c.relation_ids@.contains(id)
    &&& var_ids_increasing(c.variables@)
    &&& forall|v: VariableId| #[trigger] c.variables@.contains(v) <==> exists|a: RelationId| #[trigger] c.relation_ids@.contains(a) && id_mentions(rs, a, v)
    &&& c.contains_target == c.variables@.contains(target)
    &&& c.component_hash.0@ == spec_component_hash(c.component_id, c.relation_ids@, c.variables@, c.contains_target)
}

/// The components without the target, in order.
pub open spec fn target_free_components(cs: Seq<Component>) -> Seq<Component>
    decreases cs.len(),
{
    if cs.len() == 0 {
        Seq::empty()
    } else if cs.last().contains_target {
        target_free_components(cs.drop_last())
    } else {
        target_free_components(cs.drop_last()).push(cs.last())
    }
}

/// The obligation of a component: its id, relations and variables, bound by the obligation digest.
pub open spec fn is_obligation_of(o: FeasibilityObligation, c: Component) -> bool {
    &&& o.component_id == c.component_id
    &&& o.relation_ids@ == c.relation_ids@
    &&& o.variables@ == c.variables@
    &&& o.obligation_hash.0@ == spec_obligation_hash(c.component_id, c.relation_ids@, c.variables@)
}

fn copy_relation_ids(s: &[RelationId]) -> (out: Vec<RelationId>)
    ensures
        out@ == s@,
{
    let mut out: Vec<RelationId> = Vec::new();
    let n = s.len();
    for i in 0..n
        invariant
            n == s@.len(),
            out@ == s@.take(i as int),
    {
        out.push(s[i]);
        assert(s@.take(i + 1) == s@.take(i as int).push(s@[i as int]));
    }
    assert(s@.take(n as int) == s@);
    out
}

fn copy_variable_ids(s: &[VariableId]) -> (out: Vec<VariableId>)
    ensures
        out@ == s@,
{
    let mut out: Vec<VariableId> = Vec::new();
    let n = s.len();
    for i in 0..n
        invariant
            n == s@.len(),
            out@ == s@.take(i as int),
    {
        out.push(s[i]);
        assert(s@.take(i + 1) == s@.take(i as int).push(s@[i as int]));
    }
    assert(s@.take(n as int) == s@);
    out
}

/// One feasibility obligation per component that does not contain the target, in order.
pub fn compute_component_feasibility_obligations(components: &[Component]) -> (obligations: Vec<FeasibilityObligation>)
    ensures
        obligations@.len() == target_free_components(components@).len(),
        forall|i: int|
            0 <= i < obligations@.len() ==> is_obligation_of(
                #[trigger] obligations@[i],
                target_free_components(components@)[i],
            ),
{
    let mut out: Vec<FeasibilityObligation> = Vec::new();
    let n = components.len();
    for k in 0..n
        invariant
            n == components@.len(),
            out@.len() == target_free_components(components@.take(k as int)).len(),
            forall|i: int|
                0 <= i < out@.len() ==> is_obligation_of(
                    #[trigger] out@[i],
                    target_free_components(components@.take(k as int))[i],
                ),
    {
        let ghost before = components@.take(k as int);
        let ghost after = components@.take(k + 1);
        proof {
            assert(after.drop_last() == before);
            assert(after.last() == components@[k as int]);
        }
        let component = &components[k];
        if !component.contains_target {
            let obligation = FeasibilityObligation {
                component_id: component.component_id,
                relation_ids: copy_relation_ids(component.relation_ids.as_slice()),
                variables: copy_variable_ids(component.variables.as_slice()),
                obligation_hash: obligation_hash(
                    component.component_id,
                    component.relation_ids.as_slice(),
                    component.variables.as_slice(),
                ),
            };
            out.push(obligation);
            proof {
                assert(target_free_components(after) == target_free_components(before).push(*component));
            }
        } else {
            proof {
                assert(target_free_components(after) == target_free_components(before));
            }
        }
    }
    assert(components@.take(n as int) == components@);
    out
}

/// The components partition the relation ids: each id of a relation lies in exactly one
/// component, and the components hold no other ids.
pub proof fn lemma_components_partition(cs: Seq<Component>, rs: Seq<CanonicalRelationQ>, target: VariableId, id: RelationId)
    requires
        is_component_list(cs, rs, target),
    ensures
        has_relation(rs, id) <==> exists|k: int| 0 <= k < cs.len() && (#[trigger] cs[k]).relation_ids@.contains(id),
        forall|a: int, b: int|
            0 <= a < cs.len() && 0 <= b < cs.len() && (#[trigger] cs[a]).relation_ids@.contains(id) && (#[trigger] cs[b]).relation_ids@.contains(id)
                ==> a == b,
{
    if has_relation(rs, id) {
        assert(in_earlier(cs, cs.len() as int, id));
    }
    if exists|k: int| 0 <= k < cs.len() && (#[trigger] cs[k]).relation_ids@.contains(id) {
        let k = choose|k: int| 0 <= k < cs.len() && (#[trigger] cs[k]).relation_ids@.contains(id);
        assert(is_component_at(cs[k], cs, k, rs, target));
    }
    assert forall|a: int, b: int|
        0 <= a < cs.len() && 0 <= b < cs.len() && (#[trigger] cs[a]).relation_ids@.contains(id) && (#[trigger] cs[b]).relation_ids@.contains(id)
            implies a == b by {
        assert(is_component_at(cs[a], cs, a, rs, target));
        assert(is_component_at(cs[b], cs, b, rs, target));
        if a < b {
            assert(in_earlier(cs, b, id));
        } else if b < a {
            assert(in_earlier(cs, a, id));
        }
    }
}

// ----- graph queries -----

/// The position of the last relation with id `id`, if any.
fn last_index_of(rs: &Vec<CanonicalRelationQ>, id: RelationId) -> (r: Option<usize>)
    ensures
        match r {
            Some(k) => k == last_with_id(rs@, id),
            None => last_with_id(rs@, id) == -1,
        },
        last_with_id(rs@, id) < rs@.len(),
        last_with_id(rs@, id) >= 0 ==> rs@[last_with_id(rs@, id)].id == id,
{
    let n = rs.len();
    let mut k = n;
    proof {
        assert(rs@.take(n as int) == rs@);
        lemma_last_with_id_bounds(rs@, id);
    }
    while k > 0
        invariant
            k <= n,
            n == rs@.len(),
            last_with_id(rs@, id) == last_with_id(rs@.take(k as int), id),
        decreases k,
    {
        let ghost t = rs@.take(k as int);
        proof {
            assert(t.drop_last() == rs@.take(k - 1));
            assert(t.last() == rs@[k - 1]);
        }
        if rs[k - 1].id.0 == id.0 {
            proof {
                assert(rs@[k - 1].id == id);
            }
            return Some(k - 1);
        }
        k -= 1;
    }
    proof {
        lemma_last_with_id_bounds(rs@, id);
    }
    None
}

proof fn lemma_last_with_id_bounds(rs: Seq<CanonicalRelationQ>, id: RelationId)
    ensures
        -1 <= last_with_id(rs, id) < rs.len(),
        last_with_id(rs, id) >= 0 ==> rs[last_with_id(rs, id)].id == id,
    decreases rs.len(),
{
    if rs.len() > 0 {
        lemma_last_with_id_bounds(rs.drop_last(), id);
    }
}

/// The two variable lists share a variable.
fn lists_meet(a: &Vec<VariableId>, b: &Vec<VariableId>) -> (r: bool)
    ensures
        r == exists|v: VariableId| a@.contains(v) && #[trigger] b@.contains(v),
{
    let n = a.len();
    for i in 0..n
        invariant
            n == a@.len(),
            forall|v: VariableId| a@.take(i as int).contains(v) ==> !#[trigger] b@.contains(v),
    {
        if contains_variable(b.as_slice(), a[i]) {
            proof {
                assert(a@.contains(a@[i as int]));
            }
            return true;
        }
        proof {
            assert forall|v: VariableId| a@.take(i + 1).contains(v) implies !#[trigger] b@.contains(v) by {
                if a@.take(i + 1).contains(v) {
                    let j = choose|j: int| 0 <= j < i + 1 && #[trigger] a@.take(i + 1)[j] == v;
                    if j < i {
                        assert(a@.take(i as int)[j] == v);
                    }
                }
            }
        }
    }
    proof {
        assert(a@.take(n as int) == a@);
    }
    false
}

/// The variables of each relation, in order.
pub open spec fn variable_lists_of(lists: Seq<Vec<VariableId>>, rs: Seq<CanonicalRelationQ>) -> bool {
    &&& lists.len() == rs.len()
    &&& forall|i: int, v: VariableId| 0 <= i < rs.len() ==> (#[trigger] lists[i]@.contains(v) <==> relation_mentions(rs[i], v))
}

fn relation_variable_lists(rs: &Vec<CanonicalRelationQ>) -> (lists: Vec<Vec<VariableId>>)
    ensures
        variable_lists_of(lists@, rs@),
{
    let mut lists: Vec<Vec<VariableId>> = Vec::new();
    let n = rs.len();
    for i in 0..n
        invariant
            n == rs@.len(),
            lists@.len() == i,
            forall|k: int, v: VariableId| 0 <= k < i ==> (#[trigger] lists@[k]@.contains(v) <==> relation_mentions(rs@[k], v)),
    {
        let vars = poly_variables(&rs[i].polynomial);
        lists.push(vars);
    }
    lists
}

/// Whether id `b` is reached from id `a`.
fn edge_exec(rs: &Vec<CanonicalRelationQ>, lists: &Vec<Vec<VariableId>>, a: RelationId, b: RelationId) -> (r: bool)
    requires
        variable_lists_of(lists@, rs@),
    ensures
        r == id_edge(rs@, a, b),
{
    let k = match last_index_of(rs, a) {
        Some(k) => k,
        None => {
            return false;
        },
    };
    let n = rs.len();
    for i in 0..n
        invariant
            n == rs@.len(),
            variable_lists_of(lists@, rs@),
            k == last_with_id(rs@, a),
            0 <= k < n,
            forall|v: VariableId, j: int| 0 <= j < i && id_mentions(rs@, a, v) && rs@[j].id == b ==> !#[trigger] relation_mentions(rs@[j], v),
    {
        if rs[i].id.0 == b.0 && lists_meet(&lists[k], &lists[i]) {
            proof {
                assert(rs@[i as int].id == b);
                let v = choose|v: VariableId| lists@[k as int]@.contains(v) && #[trigger] lists@[i as int]@.contains(v);
                assert(relation_mentions(rs@[i as int], v));
                assert(id_mentions(rs@, a, v));
            }
            return true;
        }
        proof {
            assert forall|v: VariableId, j: int| 0 <= j < i + 1 && id_mentions(rs@, a, v) && rs@[j].id == b implies !#[trigger] relation_mentions(rs@[j], v) by {
                if j == i && relation_mentions(rs@[j], v) {
                    assert(rs@[i as int].id.0 == b.0);
                    assert(lists@[k as int]@.contains(v));
                    assert(lists@[i as int]@.contains(v));
                }
            }
        }
    }
    false
}

/// Whether some member reaches id `b`.
fn reached_from(rs: &Vec<CanonicalRelationQ>, lists: &Vec<Vec<VariableId>>, members: &Vec<RelationId>, b: RelationId) -> (r: bool)
    requires
        variable_lists_of(lists@, rs@),
    ensures
        r == exists|i: int| 0 <= i < members@.len() && id_edge(rs@, #[trigger] members@[i], b),
{
    let n = members.len();
    for i in 0..n
        invariant
            n == members@.len(),
            variable_lists_of(lists@, rs@),
            forall|k: int| 0 <= k < i ==> !id_edge(rs@, #[trigger] members@[k], b),
    {
        if edge_exec(rs, lists, members[i], b) {
            return true;
        }
    }
    false
}

proof fn lemma_grown_push(rs: Seq<CanonicalRelationQ>, order: Seq<RelationId>, b: RelationId)
    requires
        grown_from(rs, order),
        exists|i: int| 0 <= i < order.len() && id_edge(rs, #[trigger] order[i], b),
    ensures
        grown_from(rs, order.push(b)),
{
    let t = order.push(b);
    assert forall|q: int| 0 < q && q < t.len() implies #[trigger] reached_before(rs, t, q) by {
        if q < order.len() {
            assert(reached_before(rs, order, q));
            assert(t[q] == order[q]);
            let i = choose|i: int| 0 <= i && i < q && #[trigger] id_edge(rs, order[i], order[q]);
            assert(t[i] == order[i]);
            assert(id_edge(rs, t[i], t[q]));
        } else {
            let i = choose|i: int| 0 <= i < order.len() && id_edge(rs, #[trigger] order[i], b);
            assert(t[i] == order[i]);
            assert(t[q] == b);
            assert(id_edge(rs, t[i], t[q]));
        }
    }
}

/// The ids reached from `start` through ids of `remaining`, in the order they were reached;
/// those left in `remaining` are not reached from any of them.
#[verifier::spinoff_prover]
fn grow_component(
    rs: &Vec<CanonicalRelationQ>,
    lists: &Vec<Vec<VariableId>>,
    start: RelationId,
    remaining: &mut Vec<RelationId>,
) -> (members: Vec<RelationId>)
    requires
        variable_lists_of(lists@, rs@),
        relation_ids_increasing(old(remaining)@),
        !old(remaining)@.contains(start),
    ensures
        members@.len() > 0,
        members@[0] == start,
        grown_from(rs@, members@),
        relation_ids_increasing(final(remaining)@),
        forall|id: RelationId| #![trigger members@.contains(id)] #![trigger final(remaining)@.contains(id)] (members@.contains(id) || final(remaining)@.contains(id)) == (old(remaining)@.contains(id) || id == start),
        forall|id: RelationId| !(#[trigger] members@.contains(id) && final(remaining)@.contains(id)),
        forall|id: RelationId| #[trigger] final(remaining)@.contains(id) ==> old(remaining)@.contains(id),
        forall|a: RelationId, b: RelationId| #[trigger] members@.contains(a) && #[trigger] final(remaining)@.contains(b) ==> !id_edge(rs@, a, b),
        final(remaining)@.len() <= old(remaining)@.len(),
{
    let ghost init = remaining@;
    let mut members: Vec<RelationId> = Vec::new();
    members.push(start);
    proof {
        assert(members@ == seq![start]);
        assert forall|id: RelationId| #[trigger] members@.contains(id) <==> id == start by {
            if members@.contains(id) {
                let i = choose|i: int| 0 <= i < members@.len() && members@[i] == id;
            }
            if id == start {
                assert(members@[0] == id);
            }
        }
    }
    loop
        invariant_except_break
            variable_lists_of(lists@, rs@),
            members@.len() > 0,
            members@[0] == start,
            grown_from(rs@, members@),
            relation_ids_increasing(remaining@),
            forall|id: RelationId| #![trigger members@.contains(id)] #![trigger remaining@.contains(id)] (members@.contains(id) || remaining@.contains(id)) == (init.contains(id) || id == start),
            forall|id: RelationId| !(#[trigger] members@.contains(id) && remaining@.contains(id)),
            forall|id: RelationId| #[trigger] remaining@.contains(id) ==> init.contains(id),
            remaining@.len() <= init.len(),
        ensures
            members@.len() > 0,
            members@[0] == start,
            grown_from(rs@, members@),
            relation_ids_increasing(remaining@),
            forall|id: RelationId| #![trigger members@.contains(id)] #![trigger remaining@.contains(id)] (members@.contains(id) || remaining@.contains(id)) == (init.contains(id) || id == start),
            forall|id: RelationId| !(#[trigger] members@.contains(id) && remaining@.contains(id)),
            forall|id: RelationId| #[trigger] remaining@.contains(id) ==> init.contains(id),
            forall|a: RelationId, b: RelationId| #[trigger] members@.contains(a) && #[trigger] remaining@.contains(b) ==> !id_edge(rs@, a, b),
            remaining@.len() <= init.len(),
        decreases remaining@.len(),
    {
        let ghost m0 = members@;
        let ghost r0 = remaining@;
        let old_len = remaining.len();
        let mut kept: Vec<RelationId> = Vec::new();
        for j in 0..old_len
            invariant
                old_len == r0.len(),
                remaining@ == r0,
                variable_lists_of(lists@, rs@),
                relation_ids_increasing(r0),
                members@.len() >= m0.len(),
                members@.take(m0.len() as int) == m0,
                members@[0] == start,
                m0.len() > 0,
                grown_from(rs@, members@),
                kept@.len() + members@.len() == m0.len() + j,
                forall|id: RelationId| #![trigger members@.contains(id)] #![trigger kept@.contains(id)] (members@.contains(id) || kept@.contains(id)) == (m0.contains(id) || r0.take(j as int).contains(id)),
                forall|id: RelationId| #[trigger] kept@.contains(id) ==> r0.take(j as int).contains(id),
                forall|id: RelationId| #[trigger] members@.contains(id) && !m0.contains(id) ==> r0.take(j as int).contains(id),
                forall|id: RelationId| !(#[trigger] m0.contains(id) && r0.contains(id)),
                relation_ids_increasing(kept@),
                forall|id: RelationId| !(#[trigger] members@.contains(id) && kept@.contains(id)),
                forall|x: RelationId, i: int| #[trigger] kept@.contains(x) && 0 <= i < m0.len() ==> !id_edge(rs@, #[trigger] m0[i], x),
        {
            let b = remaining[j];
            let ghost old_members = members@;
            let ghost old_kept = kept@;
            proof {
                assert(r0.take(j + 1) == r0.take(j as int).push(b));
                crate::types::id_set::lemma_contains_push(r0.take(j as int), b, b);
                assert(!r0.take(j as int).contains(b)) by {
                    if r0.take(j as int).contains(b) {
                        let i = choose|i: int| 0 <= i < j && #[trigger] r0.take(j as int)[i] == b;
                        assert(r0[i].0 < r0[j as int].0);
                    }
                }
                assert(!m0.contains(b)) by {
                    assert(r0.contains(b));
                }
            }
            if reached_from(rs, lists, &members, b) {
                members.push(b);
                proof {
                    assert(members@ == old_members.push(b));
                    assert(members@.take(m0.len() as int) == old_members.take(m0.len() as int));
                    lemma_grown_push(rs@, old_members, b);
                    assert forall|id: RelationId| #[trigger] members@.contains(id) <==> old_members.contains(id) || id == b by {
                        crate::types::id_set::lemma_contains_push(old_members, b, id);
                    }
                    assert forall|id: RelationId| #[trigger] r0.take(j + 1).contains(id) <==> r0.take(j as int).contains(id) || id == b by {
                        crate::types::id_set::lemma_contains_push(r0.take(j as int), b, id);
                    }
                }
            } else {
                kept.push(b);
                proof {
                    assert(kept@ == old_kept.push(b));
                    assert forall|id: RelationId| #[trigger] kept@.contains(id) <==> old_kept.contains(id) || id == b by {
                        crate::types::id_set::lemma_contains_push(old_kept, b, id);
                    }
                    assert forall|id: RelationId| #[trigger] r0.take(j + 1).contains(id) <==> r0.take(j as int).contains(id) || id == b by {
                        crate::types::id_set::lemma_contains_push(r0.take(j as int), b, id);
                    }
                    assert forall|a: int, c: int| 0 <= a < c < kept@.len() implies #[trigger] kept@[a].0 < #[trigger] kept@[c].0 by {
                        if c < old_kept.len() {
                            assert(kept@[a] == old_kept[a] && kept@[c] == old_kept[c]);
                        } else {
                            assert(kept@[a] == old_kept[a]);
                            assert(old_kept.contains(old_kept[a]));
                            assert(r0.take(j as int).contains(old_kept[a]));
                            let i = choose|i: int| 0 <= i < j && #[trigger] r0.take(j as int)[i] == old_kept[a];
                            assert(r0[i].0 < r0[j as int].0);
                        }
                    }
                    assert forall|x: RelationId, i: int| #[trigger] kept@.contains(x) && 0 <= i < m0.len() implies !id_edge(rs@, #[trigger] m0[i], x) by {
                        if x == b {
                            assert(members@[i] == m0[i]);
                        }
                    }
                }
            }
        }
        proof {
            assert(r0.take(old_len as int) == r0);
        }
        let done = kept.len() == old_len;
        let ghost final_kept = kept@;
        *remaining = kept;
        if done {
            proof {
                assert(members@.len() == m0.len());
                assert(members@ == m0) by {
                    assert(members@ == members@.take(m0.len() as int));
                }
                assert forall|a: RelationId, b: RelationId| #[trigger] members@.contains(a) && #[trigger] remaining@.contains(b) implies !id_edge(rs@, a, b) by {
                    let i = choose|i: int| 0 <= i < members@.len() && members@[i] == a;
                    assert(m0[i] == a);
                }
            }
            break;
        }
    }
    members
}

/// The variables read for the given ids, in increasing order.
fn component_variables(rs: &Vec<CanonicalRelationQ>, lists: &Vec<Vec<VariableId>>, ids: &Vec<RelationId>) -> (out: Vec<VariableId>)
    requires
        variable_lists_of(lists@, rs@),
    ensures
        var_ids_increasing(out@),
        forall|v: VariableId| #[trigger] out@.contains(v) <==> exists|a: RelationId| #[trigger] ids@.contains(a) && id_mentions(rs@, a, v),
{
    let mut out: Vec<VariableId> = Vec::new();
    let n = ids.len();
    let mut i: usize = 0;
    while i < n
        invariant
            i <= n,
            n == ids@.len(),
            variable_lists_of(lists@, rs@),
            var_ids_increasing(out@),
            forall|v: VariableId| #[trigger] out@.contains(v) <==> exists|a: RelationId| #[trigger] ids@.take(i as int).contains(a) && id_mentions(rs@, a, v),
        decreases n - i,
    {
        let cur = ids[i];
        let ghost before = out@;
        proof {
            assert(forall|v: VariableId| #[trigger] before.contains(v) <==> exists|y: RelationId| #[trigger] ids@.take(i as int).contains(y) && id_mentions(rs@, y, v));
            assert forall|x: RelationId| #[trigger] ids@.take(i + 1).contains(x) <==> ids@.take(i as int).contains(x) || x == cur by {
                assert(ids@.take(i + 1) == ids@.take(i as int).push(cur));
                crate::types::id_set::lemma_contains_push(ids@.take(i as int), cur, x);
            }
        }
        match last_index_of(rs, cur) {
            Some(k) => {
                let merged = crate::types::id_set::sorted_union(out.as_slice(), lists[k].as_slice());
                out = merged;
                proof {
                    assert(k == last_with_id(rs@, cur));
                    assert forall|w: VariableId| #[trigger] out@.contains(w) <==> before.contains(w) || lists@[k as int]@.contains(w) by {}
                    assert forall|v: VariableId| #[trigger] out@.contains(v) implies exists|x: RelationId| #[trigger] ids@.take(i + 1).contains(x) && id_mentions(rs@, x, v) by {
                        if lists@[k as int]@.contains(v) {
                            assert(relation_mentions(rs@[k as int], v));
                            assert(id_mentions(rs@, cur, v));
                            assert(ids@.take(i + 1).contains(cur));
                        } else {
                            assert(before.contains(v));
                            let x = choose|x: RelationId| #[trigger] ids@.take(i as int).contains(x) && id_mentions(rs@, x, v);
                            assert(ids@.take(i + 1).contains(x));
                        }
                    }
                    assert forall|v: VariableId| (exists|x: RelationId| #[trigger] ids@.take(i + 1).contains(x) && id_mentions(rs@, x, v)) implies #[trigger] out@.contains(v) by {
                        let x = choose|x: RelationId| #[trigger] ids@.take(i + 1).contains(x) && id_mentions(rs@, x, v);
                        if x == cur {
                            assert(relation_mentions(rs@[k as int], v));
                            assert(lists@[k as int]@.contains(v));
                        } else {
                            assert(ids@.take(i as int).contains(x));
                            assert(before.contains(v));
                        }
                    }
                }
            },
            None => {
                proof {
                    assert forall|v: VariableId| #[trigger] out@.contains(v) implies exists|x: RelationId| #[trigger] ids@.take(i + 1).contains(x) && id_mentions(rs@, x, v) by {
                        let x = choose|x: RelationId| #[trigger] ids@.take(i as int).contains(x) && id_mentions(rs@, x, v);
                        assert(ids@.take(i + 1).contains(x));
                    }
                    assert forall|v: VariableId| (exists|x: RelationId| #[trigger] ids@.take(i + 1).contains(x) && id_mentions(rs@, x, v)) implies #[trigger] out@.contains(v) by {
                        let x = choose|x: RelationId| #[trigger] ids@.take(i + 1).contains(x) && id_mentions(rs@, x, v);
                        assert(last_with_id(rs@, cur) == -1);
                        assert(x != cur);
                        assert(ids@.take(i as int).contains(x));
                    }
                }
            },
        }
        i += 1;
    }
    proof {
        assert(ids@.take(n as int) == ids@);
    }
    out
}

/// The same ids in increasing order.
fn sorted_ids(ids: &Vec<RelationId>) -> (out: Vec<RelationId>)
    ensures
        relation_ids_increasing(out@),
        forall|x: RelationId| #[trigger] out@.contains(x) <==> ids@.contains(x),
{
    let mut out: Vec<RelationId> = Vec::new();
    let n = ids.len();
    for i in 0..n
        invariant
            n == ids@.len(),
            relation_ids_increasing(out@),
            forall|x: RelationId| #[trigger] out@.contains(x) <==> ids@.take(i as int).contains(x),
    {
        crate::types::id_set::insert_relation_sorted(&mut out, ids[i]);
        proof {
            assert forall|x: RelationId| #[trigger] ids@.take(i + 1).contains(x) <==> ids@.take(i as int).contains(x) || x == ids@[i as int] by {
                assert(ids@.take(i + 1) == ids@.take(i as int).push(ids@[i as int]));
                crate::types::id_set::lemma_contains_push(ids@.take(i as int), ids@[i as int], x);
            }
        }
    }
    proof {
        assert(ids@.take(n as int) == ids@);
    }
    out
}

/// The ids of the relations, in increasing order.
fn relation_id_set(rs: &Vec<CanonicalRelationQ>) -> (out: Vec<RelationId>)
    ensures
        relation_ids_increasing(out@),
        forall|x: RelationId| #[trigger] out@.contains(x) <==> has_relation(rs@, x),
{
    let mut out: Vec<RelationId> = Vec::new();
    let n = rs.len();
    for i in 0..n
        invariant
            n == rs@.len(),
            relation_ids_increasing(out@),
            forall|x: RelationId| #[trigger] out@.contains(x) <==> exists|k: int| 0 <= k < i && (#[trigger] rs@[k]).id == x,
    {
        let ghost before = out@;
        crate::types::id_set::insert_relation_sorted(&mut out, rs[i].id);
        proof {
            assert forall|x: RelationId| #[trigger] out@.contains(x) <==> exists|k: int| 0 <= k < i + 1 && (#[trigger] rs@[k]).id == x by {
                if out@.contains(x) && !before.contains(x) {
                    assert(rs@[i as int].id == x);
                }
                if exists|k: int| 0 <= k < i + 1 && (#[trigger] rs@[k]).id == x {
                    let k = choose|k: int| 0 <= k < i + 1 && (#[trigger] rs@[k]).id == x;
                    if k < i {
                        assert(before.contains(x));
                    }
                }
            }
        }
    }
    out
}

proof fn lemma_in_earlier_push(cs: Seq<Component>, c: Component, k: int, id: RelationId)
    requires
        0 <= k <= cs.len(),
    ensures
        in_earlier(cs.push(c), k, id) == in_earlier(cs, k, id),
        in_earlier(cs.push(c), cs.len() + 1int, id) == (in_earlier(cs, cs.len() as int, id) || c.relation_ids@.contains(id)),
{
    let t = cs.push(c);
    if in_earlier(t, k, id) {
        let j = choose|j: int| 0 <= j < k && (#[trigger] t[j]).relation_ids@.contains(id);
        assert(cs[j] == t[j]);
    }
    if in_earlier(cs, k, id) {
        let j = choose|j: int| 0 <= j < k && (#[trigger] cs[j]).relation_ids@.contains(id);
        assert(cs[j] == t[j]);
    }
    if in_earlier(t, cs.len() + 1int, id) {
        let j = choose|j: int| 0 <= j < cs.len() + 1 && (#[trigger] t[j]).relation_ids@.contains(id);
        if j < cs.len() {
            assert(cs[j] == t[j]);
        }
    }
    if in_earlier(cs, cs.len() as int, id) {
        let j = choose|j: int| 0 <= j < cs.len() && (#[trigger] cs[j]).relation_ids@.contains(id);
        assert(cs[j] == t[j]);
    }
    if c.relation_ids@.contains(id) {
        assert(t[cs.len() as int] == c);
    }
}

/// The components of the relations: see `is_component_list`.
fn build_components(state: &CompressionState) -> (cs: Vec<Component>)
    ensures
        is_component_list(cs@, state.relations@, state.target),
{
    let rs = &state.relations;
    let lists = relation_variable_lists(rs);
    let mut remaining = relation_id_set(rs);
    let mut components: Vec<Component> = Vec::new();
    while remaining.len() > 0
        invariant
            rs == &state.relations,
            variable_lists_of(lists@, rs@),
            relation_ids_increasing(remaining@),
            forall|id: RelationId| #[trigger] remaining@.contains(id) <==> has_relation(rs@, id) && !in_earlier(components@, components@.len() as int, id),
            forall|k: int| 0 <= k < components@.len() ==> is_component_at(#[trigger] components@[k], components@, k, rs@, state.target),
        decreases remaining@.len(),
    {
        let ghost cs0 = components@;
        let ghost before = remaining@;
        let start = remaining.remove(0);
        proof {
            assert(before[0] == start);
            assert(remaining@ == before.drop_first());
            assert forall|a: int, b: int| 0 <= a < b < remaining@.len() implies #[trigger] remaining@[a].0 < #[trigger] remaining@[b].0 by {
                assert(remaining@[a] == before[a + 1] && remaining@[b] == before[b + 1]);
            }
            assert forall|id: RelationId| #[trigger] remaining@.contains(id) <==> before.contains(id) && id != start by {
                if remaining@.contains(id) {
                    let j = choose|j: int| 0 <= j < remaining@.len() && remaining@[j] == id;
                    assert(before[j + 1] == id);
                    assert(before[0].0 < before[j + 1].0);
                }
                if before.contains(id) && id != start {
                    let j = choose|j: int| 0 <= j < before.len() && before[j] == id;
                    assert(j != 0);
                    assert(remaining@[j - 1] == id);
                }
            }
            assert(before.contains(start));
        }
        let members = grow_component(rs, &lists, start, &mut remaining);
        let relation_ids = sorted_ids(&members);
        let variables = component_variables(rs, &lists, &relation_ids);
        let contains_target = contains_variable(variables.as_slice(), state.target);
        let component_id = components.len();
        let h = component_hash(component_id, relation_ids.as_slice(), variables.as_slice(), contains_target);
        let c = Component { component_id, relation_ids, variables, contains_target, component_hash: h };
        proof {
            lemma_new_component(cs0, c, rs@, state.target, before, start, members@, remaining@);
        }
        components.push(c);
        proof {
            assert(components@ == cs0.push(c));
            assert forall|id: RelationId| #[trigger] remaining@.contains(id) <==> has_relation(rs@, id) && !in_earlier(components@, components@.len() as int, id) by {
                lemma_in_earlier_push(cs0, c, cs0.len() as int, id);
            }
            assert forall|k: int| 0 <= k < components@.len() implies is_component_at(#[trigger] components@[k], components@, k, rs@, state.target) by {
                if k < cs0.len() {
                    lemma_component_at_push(cs0, c, k, rs@, state.target);
                }
            }
        }
    }
    proof {
        assert forall|id: RelationId| has_relation(rs@, id) implies #[trigger] in_earlier(components@, components@.len() as int, id) by {
            if !in_earlier(components@, components@.len() as int, id) {
                assert(remaining@.contains(id));
            }
        }
    }
    components
}

proof fn lemma_component_at_push(cs: Seq<Component>, c: Component, k: int, rs: Seq<CanonicalRelationQ>, target: VariableId)
    requires
        0 <= k < cs.len(),
        is_component_at(cs[k], cs, k, rs, target),
    ensures
        is_component_at(cs.push(c)[k], cs.push(c), k, rs, target),
{
    let t = cs.push(c);
    assert(t[k] == cs[k]);
    assert forall|id: RelationId| #[trigger] in_earlier(t, k, id) == in_earlier(cs, k, id) by {
        lemma_in_earlier_push(cs, c, k, id);
    }
}

/// The component grown from `start` satisfies the component conditions at the next index.
proof fn lemma_new_component(
    cs: Seq<Component>,
    c: Component,
    rs: Seq<CanonicalRelationQ>,
    target: VariableId,
    before: Seq<RelationId>,
    start: RelationId,
    members: Seq<RelationId>,
    after: Seq<RelationId>,
)
    requires
        relation_ids_increasing(before),
        before.len() > 0,
        before[0] == start,
        forall|id: RelationId| #[trigger] before.contains(id) <==> has_relation(rs, id) && !in_earlier(cs, cs.len() as int, id),
        members.len() > 0,
        members[0] == start,
        grown_from(rs, members),
        forall|id: RelationId| #![trigger members.contains(id)] #![trigger after.contains(id)] #![trigger before.contains(id)] (members.contains(id) || after.contains(id)) == before.contains(id),
        forall|id: RelationId| !(#[trigger] members.contains(id) && after.contains(id)),
        forall|a: RelationId, b: RelationId| #[trigger] members.contains(a) && #[trigger] after.contains(b) ==> !id_edge(rs, a, b),
        c.component_id == cs.len(),
        relation_ids_increasing(c.relation_ids@),
        forall|x: RelationId| #[trigger] c.relation_ids@.contains(x) <==> members.contains(x),
        var_ids_increasing(c.variables@),
        forall|v: VariableId| #[trigger] c.variables@.contains(v) <==> exists|a: RelationId| #[trigger] c.relation_ids@.contains(a) && id_mentions(rs, a, v),
        c.contains_target == c.variables@.contains(target),
        c.component_hash.0@ == spec_component_hash(c.component_id, c.relation_ids@, c.variables@, c.contains_target),
    ensures
        is_component_at(c, cs.push(c), cs.len() as int, rs, target),
        forall|id: RelationId| #[trigger] after.contains(id) <==> has_relation(rs, id) && !in_earlier(cs, cs.len() as int, id) && !c.relation_ids@.contains(id),
{
    let k = cs.len() as int;
    let t = cs.push(c);
    let ids = c.relation_ids@;
    assert forall|id: RelationId| #[trigger] in_earlier(t, k, id) == in_earlier(cs, k, id) by {
        lemma_in_earlier_push(cs, c, k, id);
    }
    assert(members.contains(start)) by {
        assert(members[0] == start);
    }
    assert(ids.contains(start));
    // every member is at least `start`
    assert forall|id: RelationId| #[trigger] before.contains(id) implies start.0 <= id.0 by {
        let j = choose|j: int| 0 <= j < before.len() && before[j] == id;
        if j > 0 {
            assert(before[0].0 < before[j].0);
        }
    }
    assert(ids.len() > 0);
    assert(ids[0] == start) by {
        let j = choose|j: int| 0 <= j < ids.len() && ids[j] == start;
        assert(ids.contains(ids[0]));
        assert(members.contains(ids[0]));
        assert(before.contains(ids[0]));
        if j > 0 {
            assert(ids[0].0 < ids[j].0);
        }
        assert(ids[0].0 == start.0);
    }
    assert forall|id: RelationId| #[trigger] ids.contains(id) implies has_relation(rs, id) && !in_earlier(t, k, id) by {
        assert(members.contains(id));
        assert(before.contains(id));
    }
    assert forall|id: RelationId| has_relation(rs, id) && !#[trigger] in_earlier(t, k, id) implies ids[0].0 <= id.0 by {
        lemma_in_earlier_push(cs, c, k, id);
        assert(!in_earlier(cs, k, id));
        assert(before.contains(id));
    }
    assert forall|a: RelationId, b: RelationId|
        #[trigger] ids.contains(a) && has_relation(rs, b) && #[trigger] id_edge(rs, a, b) implies ids.contains(b) || in_earlier(t, k, b) by {
        if !in_earlier(cs, k, b) {
            assert(before.contains(b));
            assert(members.contains(a));
            if after.contains(b) {
                assert(!id_edge(rs, a, b));
            }
            assert(members.contains(b));
        }
    }
    assert(grown_from(rs, members) && members[0] == ids[0] && forall|id: RelationId| #[trigger] members.contains(id) == ids.contains(id));
    assert forall|id: RelationId| #[trigger] after.contains(id) <==> has_relation(rs, id) && !in_earlier(cs, k, id) && !ids.contains(id) by {
        if after.contains(id) {
            assert((members.contains(id) || after.contains(id)) == before.contains(id));
            assert(before.contains(id));
            assert(!members.contains(id));
        }
        if has_relation(rs, id) && !in_earlier(cs, k, id) && !ids.contains(id) {
            assert(before.contains(id));
        }
    }
}

/// Some component without the target holds id `id`.
pub open spec fn in_free_component(cs: Seq<Component>, id: RelationId) -> bool {
    exists|k: int| 0 <= k < cs.len() && !(#[trigger] cs[k]).contains_target && cs[k].relation_ids@.contains(id)
}

/// The relations whose id lies in no component without the target, in order.
pub open spec fn target_relations(rs: Seq<CanonicalRelationQ>, cs: Seq<Component>) -> Seq<CanonicalRelationQ>
    decreases rs.len(),
{
    if rs.len() == 0 {
        Seq::empty()
    } else if in_free_component(cs, rs.last().id) {
        target_relations(rs.drop_last(), cs)
    } else {
        target_relations(rs.drop_last(), cs).push(rs.last())
    }
}

fn in_free_component_exec(cs: &Vec<Component>, id: RelationId) -> (r: bool)
    ensures
        r == in_free_component(cs@, id),
{
    let n = cs.len();
    for k in 0..n
        invariant
            n == cs@.len(),
            forall|j: int| 0 <= j < k ==> !(!(#[trigger] cs@[j]).contains_target && cs@[j].relation_ids@.contains(id)),
    {
        if !cs[k].contains_target && crate::types::id_set::contains_relation(cs[k].relation_ids.as_slice(), id) {
            return true;
        }
    }
    false
}

/// Splits the relations into connected components (relations linked by shared variables);
/// each component without the target becomes a feasibility obligation and its relations leave
/// the system.
pub fn mark_target_independent_components(state: CompressionState, _ctx: &mut SolverContext) -> (r: Result<CompressionState, SolverError>)
    ensures
        *final(_ctx) == *old(_ctx),
        r is Ok,
        r matches Ok(s) ==> {
            &&& is_component_list(s.target_independent_components@, state.relations@, state.target)
            &&& s.feasibility_obligations@.len() == target_free_components(s.target_independent_components@).len()
            &&& forall|i: int|
                0 <= i < s.feasibility_obligations@.len() ==> is_obligation_of(
                    #[trigger] s.feasibility_obligations@[i],
                    target_free_components(s.target_independent_components@)[i],
                )
            &&& s.relations@ == target_relations(state.relations@, s.target_independent_components@)
            &&& s.relation_order@ == relation_ids_of(s.relations@)
            &&& s.variables == state.variables
            &&& s.target == state.target
            &&& s.semantic_encodings == state.semantic_encodings
            &&& s.substitutions == state.substitutions
            &&& s.guards == state.guards
            &&& s.saturations == state.saturations
            &&& s.trace == state.trace
        },
{
    let mut state = state;
    let components = build_components(&state);
    let obligations = compute_component_feasibility_obligations(components.as_slice());
    let mut rest: Vec<CanonicalRelationQ> = Vec::new();
    std::mem::swap(&mut rest, &mut state.relations);
    let ghost rs = rest@;
    let mut kept: Vec<CanonicalRelationQ> = Vec::new();
    let n = rest.len();
    for i in 0..n
        invariant
            n == rs.len(),
            rest@ == rs.skip(i as int),
            kept@ == target_relations(rs.take(i as int), components@),
    {
        let relation = rest.remove(0);
        proof {
            assert(relation == rs[i as int]);
            assert(rs.skip(i as int).drop_first() == rs.skip(i + 1));
            assert(rs.take(i + 1).drop_last() == rs.take(i as int));
            assert(rs.take(i + 1).last() == relation);
        }
        if !in_free_component_exec(&components, relation.id) {
            kept.push(relation);
        }
    }
    proof {
        assert(rs.take(n as int) == rs);
        assert(rs.skip(0) == rs);
    }
    state.replace_relations(kept);
    state.target_independent_components = components;
    state.feasibility_obligations = obligations;
    Ok(state)
}

} // verus!
