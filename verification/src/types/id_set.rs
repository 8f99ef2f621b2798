//! Sorted, duplicate-free lists of identifiers (the ordered sets of the solver).
use vstd::prelude::*;

use crate::types::ids::{RelationId, VariableId};

verus! {

pub open spec fn var_ids_increasing(s: Seq<VariableId>) -> bool {
    forall|i: int, j: int| 0 <= i < j < s.len() ==> #[trigger] s[i].0 < #[trigger] s[j].0
}

pub open spec fn relation_ids_increasing(s: Seq<RelationId>) -> bool {
    forall|i: int, j: int| 0 <= i < j < s.len() ==> #[trigger] s[i].0 < #[trigger] s[j].0
}

/// Membership in a sequence extended by one element.
pub proof fn lemma_contains_push<T>(s: Seq<T>, x: T, w: T)
    ensures
        s.push(x).contains(w) <==> s.contains(w) || w == x,
{
    let t = s.push(x);
    if t.contains(w) {
        let k = choose|k: int| 0 <= k < t.len() && t[k] == w;
        if k < s.len() {
            assert(s[k] == w);
        }
    }
    if s.contains(w) {
        let k = choose|k: int| 0 <= k < s.len() && s[k] == w;
        assert(t[k] == w);
    }
    if w == x {
        assert(t[s.len() as int] == w);
    }
}

/// Adds `v` to a sorted variable list, keeping it sorted and free of duplicates.
pub fn insert_variable_sorted(s: &mut Vec<VariableId>, v: VariableId)
    requires
        var_ids_increasing(old(s)@),
    ensures
        var_ids_increasing(final(s)@),
        forall|w: VariableId| #[trigger] final(s)@.contains(w) <==> old(s)@.contains(w) || w == v,
{
    let ghost s0 = s@;
    let mut i: usize = 0;
    while i < s.len() && s[i].0 < v.0
        invariant
            i <= s@.len(),
            s@ == s0,
            var_ids_increasing(s0),
            forall|j: int| 0 <= j < i ==> s0[j].0 < v.0,
        decreases s@.len() - i,
    {
        i += 1;
    }
    proof {
        assert forall|j: int| i <= j < s0.len() implies s0[j].0 >= v.0 by {
            if i < j {
                assert(s0[i as int].0 < s0[j].0);
            }
        }
    }
    if i < s.len() && s[i].0 == v.0 {
        proof {
            assert(s0[i as int] == v);
        }
        return;
    }
    s.insert(i, v);
    proof {
        let s1 = s@;
        assert forall|a: int, b: int| 0 <= a < b < s1.len() implies #[trigger] s1[a].0
            < #[trigger] s1[b].0 by {
            if b < i {
                assert(s0[a].0 < s0[b].0);
            } else if a < i && b > i {
                assert(s1[b] == s0[b - 1]);
            } else if a == i {
                assert(s1[b] == s0[b - 1]);
                assert(s0[b - 1].0 >= v.0);
                assert(s0[b - 1].0 != v.0);
            } else if a > i {
                assert(s0[a - 1].0 < s0[b - 1].0);
            }
        }
        assert forall|w: VariableId| #[trigger] s1.contains(w) <==> s0.contains(w) || w == v by {
            if s1.contains(w) {
                let k = choose|k: int| 0 <= k < s1.len() && s1[k] == w;
                if k < i {
                    assert(s0[k] == w);
                } else if k > i {
                    assert(s0[k - 1] == w);
                }
            }
            if s0.contains(w) {
                let k = choose|k: int| 0 <= k < s0.len() && s0[k] == w;
                if k < i {
                    assert(s1[k] == w);
                } else {
                    assert(s1[k + 1] == w);
                }
            }
            if w == v {
                assert(s1[i as int] == w);
            }
        }
    }
}

/// Adds `r` to a sorted relation list, keeping it sorted and free of duplicates.
pub fn insert_relation_sorted(s: &mut Vec<RelationId>, r: RelationId)
    requires
        relation_ids_increasing(old(s)@),
    ensures
        relation_ids_increasing(final(s)@),
        forall|w: RelationId| #[trigger] final(s)@.contains(w) <==> old(s)@.contains(w) || w == r,
{
    let ghost s0 = s@;
    let mut i: usize = 0;
    while i < s.len() && s[i].0 < r.0
        invariant
            i <= s@.len(),
            s@ == s0,
            relation_ids_increasing(s0),
            forall|j: int| 0 <= j < i ==> s0[j].0 < r.0,
        decreases s@.len() - i,
    {
        i += 1;
    }
    proof {
        assert forall|j: int| i <= j < s0.len() implies s0[j].0 >= r.0 by {
            if i < j {
                assert(s0[i as int].0 < s0[j].0);
            }
        }
    }
    if i < s.len() && s[i].0 == r.0 {
        proof {
            assert(s0[i as int] == r);
        }
        return;
    }
    s.insert(i, r);
    proof {
        let s1 = s@;
        assert forall|a: int, b: int| 0 <= a < b < s1.len() implies #[trigger] s1[a].0
            < #[trigger] s1[b].0 by {
            if b < i {
                assert(s0[a].0 < s0[b].0);
            } else if a < i && b > i {
                assert(s1[b] == s0[b - 1]);
            } else if a == i {
                assert(s1[b] == s0[b - 1]);
                assert(s0[b - 1].0 >= r.0);
                assert(s0[b - 1].0 != r.0);
            } else if a > i {
                assert(s0[a - 1].0 < s0[b - 1].0);
            }
        }
        assert forall|w: RelationId| #[trigger] s1.contains(w) <==> s0.contains(w) || w == r by {
            if s1.contains(w) {
                let k = choose|k: int| 0 <= k < s1.len() && s1[k] == w;
                if k < i {
                    assert(s0[k] == w);
                } else if k > i {
                    assert(s0[k - 1] == w);
                }
            }
            if s0.contains(w) {
                let k = choose|k: int| 0 <= k < s0.len() && s0[k] == w;
                if k < i {
                    assert(s1[k] == w);
                } else {
                    assert(s1[k + 1] == w);
                }
            }
            if w == r {
                assert(s1[i as int] == w);
            }
        }
    }
}

/// The distinct variables of a list, in increasing order.
pub fn sort_dedup_variables(vars: &[VariableId]) -> (out: Vec<VariableId>)
    ensures
        var_ids_increasing(out@),
        forall|w: VariableId| #[trigger] out@.contains(w) <==> vars@.contains(w),
{
    let mut out: Vec<VariableId> = Vec::new();
    let n = vars.len();
    for k in 0..n
        invariant
            n == vars@.len(),
            var_ids_increasing(out@),
            forall|w: VariableId| #[trigger] out@.contains(w) <==> vars@.take(k as int).contains(w),
    {
        insert_variable_sorted(&mut out, vars[k]);
        proof {
            assert forall|w: VariableId| #[trigger] vars@.take(k + 1).contains(w) <==> vars@.take(
                k as int,
            ).contains(w) || w == vars@[k as int] by {
                assert(vars@.take(k + 1) == vars@.take(k as int).push(vars@[k as int]));
                lemma_contains_push(vars@.take(k as int), vars@[k as int], w);
            }
        }
    }
    assert(vars@.take(n as int) == vars@);
    out
}

/// The distinct variables of two lists together, in increasing order.
pub fn sorted_union(a: &[VariableId], b: &[VariableId]) -> (out: Vec<VariableId>)
    ensures
        var_ids_increasing(out@),
        forall|w: VariableId| #[trigger] out@.contains(w) <==> a@.contains(w) || b@.contains(w),
{
    let mut out = sort_dedup_variables(a);
    let n = b.len();
    for k in 0..n
        invariant
            n == b@.len(),
            var_ids_increasing(out@),
            forall|w: VariableId| #[trigger]
                out@.contains(w) <==> a@.contains(w) || b@.take(k as int).contains(w),
    {
        insert_variable_sorted(&mut out, b[k]);
        proof {
            assert forall|w: VariableId| #[trigger] b@.take(k + 1).contains(w) <==> b@.take(
                k as int,
            ).contains(w) || w == b@[k as int] by {
                assert(b@.take(k + 1) == b@.take(k as int).push(b@[k as int]));
                lemma_contains_push(b@.take(k as int), b@[k as int], w);
            }
        }
    }
    assert(b@.take(n as int) == b@);
    out
}

/// Membership test in a variable list.
pub fn contains_variable(s: &[VariableId], v: VariableId) -> (r: bool)
    ensures
        r == s@.contains(v),
{
    let n = s.len();
    for i in 0..n
        invariant
            n == s@.len(),
            forall|j: int| 0 <= j < i ==> s@[j] != v,
    {
        if s[i].0 == v.0 {
            return true;
        }
    }
    false
}

/// Membership test in a relation list.
pub fn contains_relation(s: &[RelationId], r: RelationId) -> (b: bool)
    ensures
        b == s@.contains(r),
{
    let n = s.len();
    for i in 0..n
        invariant
            n == s@.len(),
            forall|j: int| 0 <= j < i ==> s@[j] != r,
    {
        if s[i].0 == r.0 {
            return true;
        }
    }
    false
}

} // verus!
