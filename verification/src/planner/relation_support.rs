//! The monomial supports of the dense relation search: every monomial of bounded total degree
//! in the given variables, and the rows they produce against the relations.
use vstd::prelude::*;

use crate::types::id_set::var_ids_increasing;
use vstd::string::StringSliceAdditionalSpecFns;

use crate::types::chunks::push_chunk;
use crate::types::hash::{self, chunk_views, hash_sequence, spec_hash_sequence};
use crate::types::id_set::{sort_dedup_variables, sorted_union};
use crate::types::monomial::{monomial_to_bytes, spec_monomial_bytes};
use crate::types::polynomial::{poly_total_degree, spec_total_degree};
use crate::planner::relation_preflight::{estimate_dense_relation_search_schedule, is_dense_preflight, relation_degrees_fit};
use crate::planner::relation_schedule::{
    hash_dense_relation_search_schedule, hash_relation_search_stage, spec_hash_dense_relation_search_schedule,
    spec_hash_relation_search_stage, DenseRelationSearchPreflight, DenseRelationSearchSchedule, RelationSearchStage,
    RelationSearchStageEstimate, SaturatingCount, SupportDescriptor,
};
use crate::solver::options::SolverOptions;
use crate::types::ids::VariableId;
use crate::types::polynomial::SparsePolynomialQ;
use crate::types::monomial::{copy_entries, entries_order, entries_order_exec, exponent_sum, is_normal_entries, monomial_degree, Monomial};

verus! {

/// Every variable of `m` is one of `vars`.
pub open spec fn over_vars(m: Seq<(VariableId, u32)>, vars: Seq<VariableId>) -> bool {
    forall|i: int| 0 <= i < m.len() ==> vars.contains(#[trigger] m[i].0)
}

/// `m` is a normal monomial in `vars` of total degree at most `d`.
pub open spec fn in_dense_support(m: Seq<(VariableId, u32)>, vars: Seq<VariableId>, d: nat) -> bool {
    is_normal_entries(m) && over_vars(m, vars) && exponent_sum(m) <= d
}

/// `a` comes before `b`: smaller total degree, then the order of entry lists.
pub open spec fn degree_before(a: Seq<(VariableId, u32)>, b: Seq<(VariableId, u32)>) -> bool {
    exponent_sum(a) < exponent_sum(b) || (exponent_sum(a) == exponent_sum(b) && entries_order(a, b) < 0)
}

/// `list` holds each monomial of `in_dense_support(_, vars, d)` once, by degree then entries.
pub open spec fn is_dense_support(list: Seq<Monomial>, vars: Seq<VariableId>, d: nat) -> bool {
    &&& forall|i: int, j: int| 0 <= i < j < list.len() ==> degree_before((#[trigger] list[i]).exponents@, (#[trigger] list[j]).exponents@)
    &&& forall|m: Seq<(VariableId, u32)>| #[trigger] in_dense_support(m, vars, d) <==> exists|i: int| 0 <= i < list.len() && (#[trigger] list[i]).exponents@ == m
}

// ----- lemmas -----

/// The dense support is canonical: two lists that each hold every monomial of the support
/// once, by degree then entries, are the same list of entry lists.
pub proof fn lemma_dense_support_unique(a: Seq<Monomial>, b: Seq<Monomial>, vars: Seq<VariableId>, d: nat)
    requires
        is_dense_support(a, vars, d),
        is_dense_support(b, vars, d),
    ensures
        a.len() == b.len(),
        forall|i: int| 0 <= i < a.len() ==> (#[trigger] a[i]).exponents@ == b[i].exponents@,
    decreases a.len() + b.len(),
{
    lemma_dense_sorted_prefix_equal(a, b, vars, d, 0);
}

proof fn lemma_dense_sorted_prefix_equal(a: Seq<Monomial>, b: Seq<Monomial>, vars: Seq<VariableId>, d: nat, k: int)
    requires
        is_dense_support(a, vars, d),
        is_dense_support(b, vars, d),
        0 <= k,
        k <= a.len(),
        k <= b.len(),
        forall|i: int| 0 <= i < k ==> (#[trigger] a[i]).exponents@ == b[i].exponents@,
    ensures
        a.len() == b.len(),
        forall|i: int| 0 <= i < a.len() ==> (#[trigger] a[i]).exponents@ == b[i].exponents@,
    decreases a.len() + b.len() - 2 * k,
{
    if k < a.len() && k < b.len() {
        let x = a[k].exponents@;
        let y = b[k].exponents@;
        // both are in the support; each appears in the other list at a position >= k
        assert(in_dense_support(x, vars, d));
        assert(in_dense_support(y, vars, d));
        let ib = choose|i: int| 0 <= i < b.len() && (#[trigger] b[i]).exponents@ == x;
        let ia = choose|i: int| 0 <= i < a.len() && (#[trigger] a[i]).exponents@ == y;
        if ib < k {
            assert(a[ib].exponents@ == x);
            lemma_degree_before_total(x, x);
            assert(degree_before(a[ib].exponents@, a[k].exponents@));
        }
        if ia < k {
            assert(b[ia].exponents@ == y);
            lemma_degree_before_total(y, y);
            assert(degree_before(b[ia].exponents@, b[k].exponents@));
        }
        if x != y {
            lemma_degree_before_total(x, y);
            if degree_before(x, y) {
                // y = b[k] comes after x = b[ib], so ib < k: excluded; so ib > k and b[k] before b[ib] = x
                if ib > k {
                    assert(degree_before(b[k].exponents@, b[ib].exponents@));
                    lemma_degree_before_trans(x, y, x);
                    lemma_degree_before_total(x, x);
                }
            } else {
                if ia > k {
                    assert(degree_before(a[k].exponents@, a[ia].exponents@));
                    lemma_degree_before_trans(y, x, y);
                    lemma_degree_before_total(y, y);
                }
            }
        }
        lemma_dense_sorted_prefix_equal(a, b, vars, d, k + 1);
    } else if k < a.len() {
        let x = a[k].exponents@;
        assert(in_dense_support(x, vars, d));
        let ib = choose|i: int| 0 <= i < b.len() && (#[trigger] b[i]).exponents@ == x;
        assert(a[ib].exponents@ == x);
        lemma_degree_before_total(x, x);
        assert(degree_before(a[ib].exponents@, a[k].exponents@));
    } else if k < b.len() {
        let y = b[k].exponents@;
        assert(in_dense_support(y, vars, d));
        let ia = choose|i: int| 0 <= i < a.len() && (#[trigger] a[i]).exponents@ == y;
        assert(b[ia].exponents@ == y);
        lemma_degree_before_total(y, y);
        assert(degree_before(b[ia].exponents@, b[k].exponents@));
    }
}

/// Growing the variables by one larger variable: a monomial in the larger list either avoids
/// the new variable or ends with it.
proof fn lemma_support_step(m: Seq<(VariableId, u32)>, vars: Seq<VariableId>, i: int, d: nat)
    requires
        var_ids_increasing(vars),
        0 <= i < vars.len(),
    ensures
        in_dense_support(m, vars.take(i + 1), d) <==> in_dense_support(m, vars.take(i), d) || (m.len() > 0 && m.last().0
            == vars[i] && m.last().1 >= 1 && in_dense_support(m.drop_last(), vars.take(i), d) && exponent_sum(m.drop_last())
            + m.last().1 <= d),
{
    let v = vars[i];
    let small = vars.take(i);
    let big = vars.take(i + 1);
    assert(big == small.push(v));
    assert forall|w: VariableId| #[trigger] big.contains(w) <==> small.contains(w) || w == v by {
        crate::types::id_set::lemma_contains_push(small, v, w);
    }
    assert forall|w: VariableId| small.contains(w) implies w.0 < v.0 by {
        let k = choose|k: int| 0 <= k < small.len() && small[k] == w;
        assert(vars[k].0 < vars[i].0);
    }
    if in_dense_support(m, big, d) && !in_dense_support(m, small, d) {
        // some entry names v; it is the last one
        assert(!over_vars(m, small));
        let k = choose|k: int| 0 <= k < m.len() && !small.contains(#[trigger] m[k].0);
        assert(m[k].0 == v);
        if k < m.len() - 1 {
            assert(m[k].0.0 < m[m.len() - 1].0.0);
            assert(big.contains(m[m.len() - 1].0));
            assert(!small.contains(m[m.len() - 1].0));
        }
        let p = m.drop_last();
        assert forall|j: int| 0 <= j < p.len() implies small.contains(#[trigger] p[j].0) by {
            assert(p[j] == m[j]);
            assert(m[j].0.0 < m[k].0.0);
            assert(big.contains(m[j].0));
        }
        assert(is_normal_entries(p)) by {
            assert forall|a: int, b: int| 0 <= a < b < p.len() implies #[trigger] p[a].0.0 < #[trigger] p[b].0.0 by {
                assert(p[a] == m[a] && p[b] == m[b]);
            }
            assert forall|a: int| 0 <= a < p.len() implies #[trigger] p[a].1 > 0 by {
                assert(p[a] == m[a]);
            }
        }
        assert(m.last().1 > 0);
    }
    if m.len() > 0 && m.last().0 == v && m.last().1 >= 1 && in_dense_support(m.drop_last(), small, d)
        && exponent_sum(m.drop_last()) + m.last().1 <= d {
        let p = m.drop_last();
        assert(m == p.push(m.last()));
        assert forall|j: int| 0 <= j < m.len() implies big.contains(#[trigger] m[j].0) by {
            if j < m.len() - 1 {
                assert(m[j] == p[j]);
            }
        }
        assert forall|a: int, b: int| 0 <= a < b < m.len() implies #[trigger] m[a].0.0 < #[trigger] m[b].0.0 by {
            if b < m.len() - 1 {
                assert(p[a] == m[a] && p[b] == m[b]);
            } else {
                assert(p[a] == m[a]);
                assert(small.contains(p[a].0));
            }
        }
        assert forall|a: int| 0 <= a < m.len() implies #[trigger] m[a].1 > 0 by {
            if a < m.len() - 1 {
                assert(p[a] == m[a]);
            }
        }
    }
    if in_dense_support(m, small, d) {
        assert forall|j: int| 0 <= j < m.len() implies big.contains(#[trigger] m[j].0) by {
            assert(small.contains(m[j].0));
        }
    }
}

proof fn lemma_degree_before_trans(a: Seq<(VariableId, u32)>, b: Seq<(VariableId, u32)>, c: Seq<(VariableId, u32)>)
    requires
        degree_before(a, b),
        degree_before(b, c),
    ensures
        degree_before(a, c),
{
    if exponent_sum(a) == exponent_sum(b) && exponent_sum(b) == exponent_sum(c) {
        crate::types::monomial::lemma_entries_order_trans(a, b, c);
    }
}

proof fn lemma_degree_before_total(a: Seq<(VariableId, u32)>, b: Seq<(VariableId, u32)>)
    ensures
        a == b || degree_before(a, b) || degree_before(b, a),
        !degree_before(a, a),
{
    crate::types::monomial::lemma_entries_order_zero(a, b);
    crate::types::monomial::lemma_entries_order_antisym(a, b);
    crate::types::monomial::lemma_entries_order_zero(a, a);
}

/// The list holds monomial entries `m`.
pub open spec fn lists_entries(list: Seq<Monomial>, m: Seq<(VariableId, u32)>) -> bool {
    exists|k: int| 0 <= k < list.len() && (#[trigger] list[k]).exponents@ == m
}

pub open spec fn degree_sorted(list: Seq<Monomial>) -> bool {
    forall|i: int, j: int| 0 <= i < j < list.len() ==> degree_before((#[trigger] list[i]).exponents@, (#[trigger] list[j]).exponents@)
}

pub open spec fn degrees_within(list: Seq<Monomial>, d: nat) -> bool {
    forall|k: int| 0 <= k < list.len() ==> exponent_sum((#[trigger] list[k]).exponents@) <= d
}

fn before_exec(a: &Monomial, b: &Monomial) -> (r: bool)
    requires
        exponent_sum(a.exponents@) <= u32::MAX,
        exponent_sum(b.exponents@) <= u32::MAX,
    ensures
        r == degree_before(a.exponents@, b.exponents@),
{
    let da = monomial_degree(a);
    let db = monomial_degree(b);
    da < db || (da == db && entries_order_exec(&a.exponents, &b.exponents) < 0)
}

/// Inserts `m` at its place by degree then entries, unless it is already there.
fn insert_by_degree(out: &mut Vec<Monomial>, m: Monomial, Ghost(d): Ghost<nat>)
    requires
        degree_sorted(old(out)@),
        degrees_within(old(out)@, d),
        d <= u32::MAX,
        exponent_sum(m.exponents@) <= d,
    ensures
        degree_sorted(final(out)@),
        degrees_within(final(out)@, d),
        forall|x: Seq<(VariableId, u32)>| #[trigger] lists_entries(final(out)@, x) <==> lists_entries(old(out)@, x) || x == m.exponents@,
{
    let ghost before = out@;
    let n = out.len();
    let mut p: usize = 0;
    while p < n && before_exec(&out[p], &m)
        invariant
            p <= n,
            n == out@.len(),
            out@ == before,
            degrees_within(before, d),
            d <= u32::MAX,
            exponent_sum(m.exponents@) <= d,
            forall|k: int| 0 <= k < p ==> degree_before((#[trigger] before[k]).exponents@, m.exponents@),
        decreases n - p,
    {
        p += 1;
    }
    if p < n && entries_order_exec(&out[p].exponents, &m.exponents) == 0 {
        proof {
            crate::types::monomial::lemma_entries_order_zero(before[p as int].exponents@, m.exponents@);
            assert forall|x: Seq<(VariableId, u32)>| #[trigger] lists_entries(out@, x) <==> lists_entries(before, x) || x == m.exponents@ by {
                if x == m.exponents@ {
                    assert(before[p as int].exponents@ == x);
                }
            }
        }
        return;
    }
    proof {
        if p < n {
            lemma_degree_before_total(before[p as int].exponents@, m.exponents@);
            crate::types::monomial::lemma_entries_order_zero(before[p as int].exponents@, m.exponents@);
            assert(degree_before(m.exponents@, before[p as int].exponents@));
        }
    }
    out.insert(p, m);
    proof {
        let s = out@;
        assert(s == before.insert(p as int, m));
        assert forall|i: int, j: int| 0 <= i < j < s.len() implies degree_before((#[trigger] s[i]).exponents@, (#[trigger] s[j]).exponents@) by {
            if j < p {
                assert(s[i] == before[i] && s[j] == before[j]);
            } else if j == p {
                assert(s[i] == before[i]);
            } else if i == p {
                assert(s[j] == before[j - 1]);
                if p < j - 1 {
                    lemma_degree_before_trans(m.exponents@, before[p as int].exponents@, before[j - 1].exponents@);
                }
            } else if i < p {
                assert(s[i] == before[i] && s[j] == before[j - 1]);
            } else {
                assert(s[i] == before[i - 1] && s[j] == before[j - 1]);
            }
        }
        assert forall|k: int| 0 <= k < s.len() implies exponent_sum((#[trigger] s[k]).exponents@) <= d by {
            if k < p {
                assert(s[k] == before[k]);
            } else if k > p {
                assert(s[k] == before[k - 1]);
            }
        }
        assert forall|x: Seq<(VariableId, u32)>| #[trigger] lists_entries(s, x) <==> lists_entries(before, x) || x == m.exponents@ by {
            if lists_entries(s, x) {
                let k = choose|k: int| 0 <= k < s.len() && (#[trigger] s[k]).exponents@ == x;
                if k < p {
                    assert(before[k] == s[k]);
                } else if k > p {
                    assert(before[k - 1] == s[k]);
                }
            }
            if lists_entries(before, x) {
                let k = choose|k: int| 0 <= k < before.len() && (#[trigger] before[k]).exponents@ == x;
                if k < p {
                    assert(s[k] == before[k]);
                } else {
                    assert(s[k + 1] == before[k]);
                }
            }
            if x == m.exponents@ {
                assert(s[p as int] == m);
            }
        }
    }
}

/// `m` is entry `jj` of `old` followed by `v` to a positive power, within degree `d`.
pub open spec fn ext_at(old: Seq<Monomial>, jj: int, v: VariableId, d: nat, m: Seq<(VariableId, u32)>) -> bool {
    &&& m.len() > 0
    &&& m.last().0 == v
    &&& m.last().1 >= 1
    &&& m.drop_last() == old[jj].exponents@
    &&& exponent_sum(old[jj].exponents@) + m.last().1 <= d
}

pub open spec fn extends_from(old: Seq<Monomial>, j: int, v: VariableId, d: nat, m: Seq<(VariableId, u32)>) -> bool {
    exists|jj: int| 0 <= jj < j && #[trigger] ext_at(old, jj, v, d, m)
}

/// Every monomial of total degree at most `max_degree` (taken as `u32`) in the increasing
/// `variables`, each once, by degree then entries.
fn monomials_total_degree_leq(variables: &[VariableId], max_degree: usize) -> (out: Vec<Monomial>)
    requires
        var_ids_increasing(variables@),
    ensures
        is_dense_support(out@, variables@, (max_degree as u32) as nat),
{
    let d: u32 = max_degree as u32;
    let ghost dn: nat = d as nat;
    let mut layer: Vec<Monomial> = Vec::new();
    layer.push(Monomial { exponents: Vec::new() });
    proof {
        let e = Seq::<(VariableId, u32)>::empty();
        assert(layer@[0].exponents@ == e);
        assert forall|m: Seq<(VariableId, u32)>| #[trigger] lists_entries(layer@, m) <==> in_dense_support(m, variables@.take(0), dn) by {
            if in_dense_support(m, variables@.take(0), dn) {
                if m.len() > 0 {
                    assert(variables@.take(0).contains(m[0].0));
                }
                assert(m =~= e);
            }
            if lists_entries(layer@, m) {
                let k = choose|k: int| 0 <= k < layer@.len() && (#[trigger] layer@[k]).exponents@ == m;
                assert(m == e);
                assert(is_normal_entries(e));
            }
        }
    }
    let n = variables.len();
    for i in 0..n
        invariant
            n == variables@.len(),
            var_ids_increasing(variables@),
            dn == d,
            degrees_within(layer@, dn),
            forall|m: Seq<(VariableId, u32)>| #[trigger] lists_entries(layer@, m) <==> in_dense_support(m, variables@.take(i as int), dn),
    {
        let v = variables[i];
        let ghost old_layer = layer@;
        let k = layer.len();
        for j in 0..k
            invariant
                k == old_layer.len(),
                layer@.len() >= k,
                layer@.take(k as int) == old_layer,
                degrees_within(layer@, dn),
                dn == d,
                dn <= u32::MAX,
                forall|m: Seq<(VariableId, u32)>| #[trigger] lists_entries(layer@, m) <==> lists_entries(old_layer, m) || extends_from(old_layer, j as int, v, dn, m),
        {
            proof {
                assert(layer@[j as int] == old_layer[j as int]);
            }
            let base = monomial_degree(&layer[j]);
            let limit: u32 = d - base;
            let mut e: u64 = 1;
            while e <= limit as u64
                invariant
                    1 <= e <= limit as u64 + 1,
                    limit + base == d,
                    base == exponent_sum(old_layer[j as int].exponents@),
                    k == old_layer.len(),
                    layer@.len() >= k,
                    layer@.take(k as int) == old_layer,
                    degrees_within(layer@, dn),
                    dn == d,
                    0 <= j < k,
                    forall|m: Seq<(VariableId, u32)>| #[trigger] lists_entries(layer@, m) <==> lists_entries(old_layer, m) || extends_from(old_layer, j as int, v, dn, m)
                        || (ext_at(old_layer, j as int, v, dn, m) && m.last().1 < e),
                decreases limit as u64 + 1 - e,
            {
                let mut entries = copy_entries(&layer[j].exponents);
                let ghost base_entries = entries@;
                entries.push((v, e as u32));
                let ghost new_entries = entries@;
                let ghost before = layer@;
                layer.push(Monomial { exponents: entries });
                proof {
                    assert(layer@[j as int] == old_layer[j as int]) by {
                        assert(before[j as int] == old_layer[j as int]);
                    }
                    assert(base_entries == old_layer[j as int].exponents@);
                    assert(new_entries.drop_last() == base_entries);
                    assert(new_entries.last() == (v, e as u32));
                    assert(ext_at(old_layer, j as int, v, dn, new_entries));
                    assert(exponent_sum(new_entries) == exponent_sum(base_entries) + e);
                    assert(layer@.take(k as int) == before.take(k as int));
                    assert forall|q: int| 0 <= q < layer@.len() implies exponent_sum((#[trigger] layer@[q]).exponents@) <= dn by {
                        if q < before.len() {
                            assert(layer@[q] == before[q]);
                        }
                    }
                    assert forall|m: Seq<(VariableId, u32)>| #[trigger] lists_entries(layer@, m) <==> lists_entries(old_layer, m) || extends_from(old_layer, j as int, v, dn, m)
                        || (ext_at(old_layer, j as int, v, dn, m) && m.last().1 < e + 1) by {
                        if lists_entries(layer@, m) {
                            let q = choose|q: int| 0 <= q < layer@.len() && (#[trigger] layer@[q]).exponents@ == m;
                            if q < before.len() {
                                assert(before[q] == layer@[q]);
                                assert(lists_entries(before, m));
                            }
                        }
                        if lists_entries(before, m) {
                            let q = choose|q: int| 0 <= q < before.len() && (#[trigger] before[q]).exponents@ == m;
                            assert(layer@[q] == before[q]);
                        }
                        if ext_at(old_layer, j as int, v, dn, m) && m.last().1 < e + 1 && !(m.last().1 < e) {
                            assert(m.last() == (v, e as u32));
                            assert(m =~= new_entries);
                            assert(layer@[before.len() as int].exponents@ == new_entries);
                        }
                    }
                }
                e += 1;
            }
            proof {
                assert forall|m: Seq<(VariableId, u32)>| #[trigger] lists_entries(layer@, m) <==> lists_entries(old_layer, m) || extends_from(old_layer, j + 1, v, dn, m) by {
                    if extends_from(old_layer, j + 1, v, dn, m) {
                        let jj = choose|jj: int| 0 <= jj < j + 1 && #[trigger] ext_at(old_layer, jj, v, dn, m);
                        if jj < j {
                            assert(extends_from(old_layer, j as int, v, dn, m));
                        } else {
                            assert(m.last().1 <= limit);
                        }
                    }
                    if extends_from(old_layer, j as int, v, dn, m) {
                        let jj = choose|jj: int| 0 <= jj < j && #[trigger] ext_at(old_layer, jj, v, dn, m);
                        assert(0 <= jj < j + 1 && ext_at(old_layer, jj, v, dn, m));
                    }
                    if ext_at(old_layer, j as int, v, dn, m) {
                        assert(0 <= j < j + 1);
                    }
                }
            }
        }
        proof {
            assert forall|m: Seq<(VariableId, u32)>| #[trigger] lists_entries(layer@, m) <==> in_dense_support(m, variables@.take(i + 1), dn) by {
                lemma_support_step(m, variables@, i as int, dn);
                if extends_from(old_layer, k as int, v, dn, m) {
                    let jj = choose|jj: int| 0 <= jj < k && #[trigger] ext_at(old_layer, jj, v, dn, m);
                    assert(lists_entries(old_layer, m.drop_last()));
                }
                if m.len() > 0 && m.last().0 == v && m.last().1 >= 1 && in_dense_support(m.drop_last(), variables@.take(i as int), dn)
                    && exponent_sum(m.drop_last()) + m.last().1 <= dn {
                    assert(lists_entries(old_layer, m.drop_last()));
                    let jj = choose|jj: int| 0 <= jj < old_layer.len() && (#[trigger] old_layer[jj]).exponents@ == m.drop_last();
                    assert(ext_at(old_layer, jj, v, dn, m));
                }
            }
        }
    }
    proof {
        assert(variables@.take(n as int) == variables@);
    }
    let mut out: Vec<Monomial> = Vec::new();
    let total = layer.len();
    for q in 0..total
        invariant
            total == layer@.len(),
            degrees_within(layer@, dn),
            dn == d,
            degree_sorted(out@),
            degrees_within(out@, dn),
            forall|x: Seq<(VariableId, u32)>| #[trigger] lists_entries(out@, x) <==> lists_entries(layer@.take(q as int), x),
    {
        let m = Monomial { exponents: copy_entries(&layer[q].exponents) };
        insert_by_degree(&mut out, m, Ghost(dn));
        proof {
            assert forall|x: Seq<(VariableId, u32)>| #[trigger] lists_entries(layer@.take(q + 1), x) <==> lists_entries(layer@.take(q as int), x) || x == layer@[q as int].exponents@ by {
                if lists_entries(layer@.take(q + 1), x) {
                    let r = choose|r: int| 0 <= r < q + 1 && (#[trigger] layer@.take(q + 1)[r]).exponents@ == x;
                    if r < q {
                        assert(layer@.take(q as int)[r] == layer@.take(q + 1)[r]);
                    }
                }
                if lists_entries(layer@.take(q as int), x) {
                    let r = choose|r: int| 0 <= r < q && (#[trigger] layer@.take(q as int)[r]).exponents@ == x;
                    assert(layer@.take(q + 1)[r] == layer@.take(q as int)[r]);
                }
                if x == layer@[q as int].exponents@ {
                    assert(layer@.take(q + 1)[q as int] == layer@[q as int]);
                }
            }
        }
    }
    proof {
        assert(layer@.take(total as int) == layer@);
        assert(dn == (max_degree as u32) as nat);
        assert forall|m: Seq<(VariableId, u32)>| #[trigger] in_dense_support(m, variables@, dn) <==> exists|i: int|
            0 <= i < out@.len() && (#[trigger] out@[i]).exponents@ == m by {
            assert(lists_entries(out@, m) == lists_entries(layer@, m));
        }
    }
    out
}

// ----- rows -----

/// The normal form of the product of two monomials given by their entries.
pub open spec fn product_entries(a: Seq<(VariableId, u32)>, b: Seq<(VariableId, u32)>) -> Seq<(VariableId, u32)> {
    crate::types::monomial::normal_form(a + b)
}

/// `m` is the product of a multiplier of relation `r` with a term of it (relations and
/// supports taken pairwise).
pub open spec fn is_product_row(relations: Seq<SparsePolynomialQ>, supports: Seq<Seq<Monomial>>, m: Seq<(VariableId, u32)>) -> bool {
    exists|r: int, a: int, t: int|
        0 <= r < relations.len() && r < supports.len() && 0 <= a < supports[r].len() && 0 <= t < relations[r].terms@.len() && m
            == #[trigger] product_entries(supports[r][a].exponents@, relations[r].terms@[t].monomial.exponents@)
}

pub open spec fn entries_sorted(list: Seq<Monomial>) -> bool {
    forall|i: int, j: int| 0 <= i < j < list.len() ==> entries_order((#[trigger] list[i]).exponents@, (#[trigger] list[j]).exponents@) < 0
}

/// `list` holds, each once and in the order of entry lists, the monomials of `export` and
/// every product row.
pub open spec fn is_row_support(list: Seq<Monomial>, export: Seq<Monomial>, supports: Seq<Seq<Monomial>>, relations: Seq<SparsePolynomialQ>) -> bool {
    &&& entries_sorted(list)
    &&& forall|m: Seq<(VariableId, u32)>| #[trigger] lists_entries(list, m) <==> lists_entries(export, m) || is_product_row(relations, supports, m)
}

/// Inserts `m` at its place in the order of entry lists, unless it is already there.
fn insert_by_entries(out: &mut Vec<Monomial>, m: Monomial)
    requires
        entries_sorted(old(out)@),
    ensures
        entries_sorted(final(out)@),
        forall|x: Seq<(VariableId, u32)>| #[trigger] lists_entries(final(out)@, x) <==> lists_entries(old(out)@, x) || x == m.exponents@,
{
    let ghost before = out@;
    let n = out.len();
    let mut p: usize = 0;
    while p < n && entries_order_exec(&out[p].exponents, &m.exponents) < 0
        invariant
            p <= n,
            n == out@.len(),
            out@ == before,
            forall|k: int| 0 <= k < p ==> entries_order((#[trigger] before[k]).exponents@, m.exponents@) < 0,
        decreases n - p,
    {
        p += 1;
    }
    if p < n && entries_order_exec(&out[p].exponents, &m.exponents) == 0 {
        proof {
            crate::types::monomial::lemma_entries_order_zero(before[p as int].exponents@, m.exponents@);
            assert forall|x: Seq<(VariableId, u32)>| #[trigger] lists_entries(out@, x) <==> lists_entries(before, x) || x == m.exponents@ by {
                if x == m.exponents@ {
                    assert(before[p as int].exponents@ == x);
                }
            }
        }
        return;
    }
    proof {
        if p < n {
            crate::types::monomial::lemma_entries_order_antisym(before[p as int].exponents@, m.exponents@);
        }
    }
    out.insert(p, m);
    proof {
        let s = out@;
        assert(s == before.insert(p as int, m));
        assert forall|i: int, j: int| 0 <= i < j < s.len() implies entries_order((#[trigger] s[i]).exponents@, (#[trigger] s[j]).exponents@) < 0 by {
            if j < p {
                assert(s[i] == before[i] && s[j] == before[j]);
            } else if j == p {
                assert(s[i] == before[i]);
            } else if i == p {
                assert(s[j] == before[j - 1]);
                if p < j - 1 {
                    crate::types::monomial::lemma_entries_order_trans(m.exponents@, before[p as int].exponents@, before[j - 1].exponents@);
                }
            } else if i < p {
                assert(s[i] == before[i] && s[j] == before[j - 1]);
            } else {
                assert(s[i] == before[i - 1] && s[j] == before[j - 1]);
            }
        }
        assert forall|x: Seq<(VariableId, u32)>| #[trigger] lists_entries(s, x) <==> lists_entries(before, x) || x == m.exponents@ by {
            if lists_entries(s, x) {
                let k = choose|k: int| 0 <= k < s.len() && (#[trigger] s[k]).exponents@ == x;
                if k < p {
                    assert(before[k] == s[k]);
                } else if k > p {
                    assert(before[k - 1] == s[k]);
                }
            }
            if lists_entries(before, x) {
                let k = choose|k: int| 0 <= k < before.len() && (#[trigger] before[k]).exponents@ == x;
                if k < p {
                    assert(s[k] == before[k]);
                } else {
                    assert(s[k + 1] == before[k]);
                }
            }
            if x == m.exponents@ {
                assert(s[p as int] == m);
            }
        }
    }
}

/// The product of two monomials, in normal form.
fn product_monomial(a: &Monomial, b: &Monomial) -> (m: Monomial)
    ensures
        m.exponents@ == product_entries(a.exponents@, b.exponents@),
{
    let m = crate::types::monomial::monomial_mul(a, b);
    proof {
        assert forall|v: VariableId| crate::types::monomial::exponent_of(m.exponents@, v) == crate::types::monomial::saturate(
            #[trigger] crate::types::monomial::total_exponent(a.exponents@ + b.exponents@, v),
        ) by {
            crate::types::monomial::lemma_total_concat(a.exponents@, b.exponents@, v);
        }
        crate::types::monomial::lemma_normal_form_of(m.exponents@, a.exponents@ + b.exponents@);
    }
    m
}

pub open spec fn support_views(s: Seq<Vec<Monomial>>) -> Seq<Seq<Monomial>> {
    s.map_values(|v: Vec<Monomial>| v@)
}

pub open spec fn product_at(relations: Seq<SparsePolynomialQ>, supports: Seq<Seq<Monomial>>, r: int, a: int, t: int, m: Seq<(VariableId, u32)>) -> bool {
    &&& 0 <= r < relations.len()
    &&& r < supports.len()
    &&& 0 <= a < supports[r].len()
    &&& 0 <= t < relations[r].terms@.len()
    &&& m == product_entries(supports[r][a].exponents@, relations[r].terms@[t].monomial.exponents@)
}

/// Some product row at a position before (r0, a0, t0) gives `m`.
pub open spec fn rows_upto(relations: Seq<SparsePolynomialQ>, supports: Seq<Seq<Monomial>>, r0: int, a0: int, t0: int, m: Seq<(VariableId, u32)>) -> bool {
    exists|r: int, a: int, t: int|
        #[trigger] product_at(relations, supports, r, a, t, m) && (r < r0 || (r == r0 && (a < a0 || (a == a0 && t < t0))))
}

proof fn lemma_rows_complete(relations: Seq<SparsePolynomialQ>, supports: Seq<Seq<Monomial>>, n: int, m: Seq<(VariableId, u32)>)
    requires
        n == if relations.len() <= supports.len() { relations.len() as int } else { supports.len() as int },
    ensures
        rows_upto(relations, supports, n, 0, 0, m) == is_product_row(relations, supports, m),
{
    if is_product_row(relations, supports, m) {
        let (r, a, t) = choose|r: int, a: int, t: int|
            0 <= r < relations.len() && r < supports.len() && 0 <= a < supports[r].len() && 0 <= t < relations[r].terms@.len() && m
                == #[trigger] product_entries(supports[r][a].exponents@, relations[r].terms@[t].monomial.exponents@);
        assert(product_at(relations, supports, r, a, t, m));
    }
}

/// Every monomial of the export support and every product of a multiplier with a term of its
/// relation, each once, in the order of entry lists.
fn build_row_monomial_support(
    relations: &[SparsePolynomialQ],
    export_support: &[Monomial],
    multiplier_supports: &[Vec<Monomial>],
) -> (out: Vec<Monomial>)
    ensures
        is_row_support(out@, export_support@, support_views(multiplier_supports@), relations@),
{
    let ghost sv = support_views(multiplier_supports@);
    let mut out: Vec<Monomial> = Vec::new();
    let ne = export_support.len();
    for q in 0..ne
        invariant
            ne == export_support@.len(),
            entries_sorted(out@),
            forall|x: Seq<(VariableId, u32)>| #[trigger] lists_entries(out@, x) <==> lists_entries(export_support@.take(q as int), x),
    {
        insert_by_entries(&mut out, Monomial { exponents: copy_entries(&export_support[q].exponents) });
        proof {
            assert forall|x: Seq<(VariableId, u32)>| #[trigger] lists_entries(export_support@.take(q + 1), x) <==> lists_entries(
                export_support@.take(q as int),
                x,
            ) || x == export_support@[q as int].exponents@ by {
                if lists_entries(export_support@.take(q + 1), x) {
                    let k = choose|k: int| 0 <= k < q + 1 && (#[trigger] export_support@.take(q + 1)[k]).exponents@ == x;
                    if k < q {
                        assert(export_support@.take(q as int)[k] == export_support@[k]);
                    }
                }
                if lists_entries(export_support@.take(q as int), x) {
                    let k = choose|k: int| 0 <= k < q && (#[trigger] export_support@.take(q as int)[k]).exponents@ == x;
                    assert(export_support@.take(q + 1)[k] == export_support@[k]);
                }
                if x == export_support@[q as int].exponents@ {
                    assert(export_support@.take(q + 1)[q as int] == export_support@[q as int]);
                }
            }
        }
    }
    proof {
        assert(export_support@.take(ne as int) == export_support@);
    }
    let n = if relations.len() <= multiplier_supports.len() {
        relations.len()
    } else {
        multiplier_supports.len()
    };
    for r in 0..n
        invariant
            n <= relations@.len(),
            n <= multiplier_supports@.len(),
            sv == support_views(multiplier_supports@),
            entries_sorted(out@),
            forall|x: Seq<(VariableId, u32)>| #[trigger] lists_entries(out@, x) <==> lists_entries(export_support@, x) || rows_upto(
                relations@,
                sv,
                r as int,
                0,
                0,
                x,
            ),
    {
        let support = &multiplier_supports[r];
        let relation = &relations[r];
        let na = support.len();
        proof {
            assert(sv[r as int] == support@);
        }
        for a in 0..na
            invariant
                n <= relations@.len(),
                n <= multiplier_supports@.len(),
                0 <= r < n,
                sv == support_views(multiplier_supports@),
                sv[r as int] == support@,
                na == support@.len(),
                support == &multiplier_supports[r as int],
                relation == &relations[r as int],
                entries_sorted(out@),
                forall|x: Seq<(VariableId, u32)>| #[trigger] lists_entries(out@, x) <==> lists_entries(export_support@, x) || rows_upto(
                    relations@,
                    sv,
                    r as int,
                    a as int,
                    0,
                    x,
                ),
        {
            let nt = relation.terms.len();
            for t in 0..nt
                invariant
                    n <= relations@.len(),
                    n <= multiplier_supports@.len(),
                    0 <= r < n,
                    0 <= a < na,
                    sv == support_views(multiplier_supports@),
                    sv[r as int] == support@,
                    na == support@.len(),
                    nt == relation.terms@.len(),
                    relation == &relations[r as int],
                    entries_sorted(out@),
                    forall|x: Seq<(VariableId, u32)>| #[trigger] lists_entries(out@, x) <==> lists_entries(export_support@, x) || rows_upto(
                        relations@,
                        sv,
                        r as int,
                        a as int,
                        t as int,
                        x,
                    ),
            {
                let m = product_monomial(&support[a], &relation.terms[t].monomial);
                insert_by_entries(&mut out, m);
                proof {
                    assert(product_at(relations@, sv, r as int, a as int, t as int, m.exponents@));
                    assert forall|x: Seq<(VariableId, u32)>| #[trigger] rows_upto(relations@, sv, r as int, a as int, t + 1, x) <==> rows_upto(
                        relations@,
                        sv,
                        r as int,
                        a as int,
                        t as int,
                        x,
                    ) || x == m.exponents@ by {
                        if rows_upto(relations@, sv, r as int, a as int, t + 1, x) {
                            let (rr, aa, tt) = choose|rr: int, aa: int, tt: int|
                                #[trigger] product_at(relations@, sv, rr, aa, tt, x) && (rr < r || (rr == r && (aa < a || (aa == a && tt < t + 1))));
                            if !(rr < r || (rr == r && (aa < a || (aa == a && tt < t)))) {
                                assert(rr == r && aa == a && tt == t);
                            }
                        }
                    }
                }
            }
            proof {
                assert forall|x: Seq<(VariableId, u32)>| #[trigger] rows_upto(relations@, sv, r as int, a + 1, 0, x) <==> rows_upto(
                    relations@,
                    sv,
                    r as int,
                    a as int,
                    nt as int,
                    x,
                ) by {
                    if rows_upto(relations@, sv, r as int, a + 1, 0, x) {
                        let (rr, aa, tt) = choose|rr: int, aa: int, tt: int|
                            #[trigger] product_at(relations@, sv, rr, aa, tt, x) && (rr < r || (rr == r && (aa < a + 1 || (aa == a + 1 && tt < 0))));
                        assert(rr < r || (rr == r && (aa < a || (aa == a && tt < nt))));
                    }
                }
            }
        }
        proof {
            assert forall|x: Seq<(VariableId, u32)>| #[trigger] rows_upto(relations@, sv, r + 1, 0, 0, x) <==> rows_upto(
                relations@,
                sv,
                r as int,
                na as int,
                0,
                x,
            ) by {
                if rows_upto(relations@, sv, r + 1, 0, 0, x) {
                    let (rr, aa, tt) = choose|rr: int, aa: int, tt: int|
                        #[trigger] product_at(relations@, sv, rr, aa, tt, x) && (rr < r + 1 || (rr == r + 1 && (aa < 0 || (aa == 0 && tt < 0))));
                    assert(rr < r || (rr == r && (aa < na || (aa == na && tt < 0))));
                }
            }
        }
    }
    proof {
        assert forall|x: Seq<(VariableId, u32)>| #[trigger] lists_entries(out@, x) <==> lists_entries(export_support@, x) || is_product_row(relations@, sv, x) by {
            lemma_rows_complete(relations@, sv, n as int, x);
        }
    }
    out
}

// ----- digests and supports -----

pub open spec fn monomial_chunks(ms: Seq<Monomial>) -> Seq<Seq<u8>> {
    ms.map_values(|m: Monomial| spec_monomial_bytes(m))
}

pub open spec fn spec_hash_monomials(tag: Seq<u8>, ms: Seq<Monomial>) -> Seq<u8> {
    spec_hash_sequence(tag, monomial_chunks(ms))
}

/// The digest of a monomial list under `tag`: one chunk per monomial.
fn hash_monomials(tag: &str, monomials: &[Monomial]) -> (h: hash::Hash)
    ensures
        h.0@ == spec_hash_monomials(tag.spec_bytes(), monomials@),
{
    let mut chunks: Vec<Vec<u8>> = Vec::new();
    let n = monomials.len();
    for i in 0..n
        invariant
            n == monomials@.len(),
            chunk_views(chunks@) == monomial_chunks(monomials@.take(i as int)),
    {
        push_chunk(&mut chunks, monomial_to_bytes(&monomials[i]));
        proof {
            assert(monomial_chunks(monomials@.take(i + 1)) == monomial_chunks(monomials@.take(i as int)).push(
                spec_monomial_bytes(monomials@[i as int]),
            ));
        }
    }
    proof {
        assert(monomials@.take(n as int) == monomials@);
    }
    hash_sequence(tag, chunks.as_slice())
}

proof fn lemma_dense_support_vars(list: Seq<Monomial>, a: Seq<VariableId>, b: Seq<VariableId>, d: nat)
    requires
        is_dense_support(list, a, d),
        forall|w: VariableId| #[trigger] a.contains(w) <==> b.contains(w),
    ensures
        is_dense_support(list, b, d),
{
    assert forall|m: Seq<(VariableId, u32)>| #[trigger] in_dense_support(m, b, d) == in_dense_support(m, a, d) by {
        if over_vars(m, a) {
            assert forall|i: int| 0 <= i < m.len() implies b.contains(#[trigger] m[i].0) by {
                assert(a.contains(m[i].0));
            }
        }
        if over_vars(m, b) {
            assert forall|i: int| 0 <= i < m.len() implies a.contains(#[trigger] m[i].0) by {
                assert(b.contains(m[i].0));
            }
        }
    }
}

/// `n` less `k`, or 0.
pub open spec fn sat_sub(n: nat, k: nat) -> nat {
    if n >= k {
        (n - k) as nat
    } else {
        0
    }
}

/// The multiplier degree of a relation under total degree `mtd`, as the enumeration reads it.
pub open spec fn multiplier_degree(mtd: nat, relation: SparsePolynomialQ) -> nat {
    (sat_sub(mtd, spec_total_degree(relation.terms@)) as u32) as nat
}

/// The export support: every monomial in the exported variables up to the export degree.
fn build_export_monomial_support(exported: &[VariableId], export_degree: usize) -> (out: Vec<Monomial>)
    ensures
        is_dense_support(out@, exported@, (export_degree as u32) as nat),
{
    let vars = sort_dedup_variables(exported);
    let out = monomials_total_degree_leq(vars.as_slice(), export_degree);
    proof {
        lemma_dense_support_vars(out@, vars@, exported@, (export_degree as u32) as nat);
    }
    out
}

/// One multiplier support per relation: every monomial in all the variables up to the
/// multiplier degree less the relation's degree.
fn build_multiplier_supports(
    relations: &[SparsePolynomialQ],
    eliminated: &[VariableId],
    exported: &[VariableId],
    multiplier_total_degree: usize,
) -> (out: Vec<Vec<Monomial>>)
    requires
        crate::planner::relation_preflight::relation_degrees_fit(relations@),
    ensures
        out@.len() == relations@.len(),
        forall|r: int|
            0 <= r < out@.len() ==> is_dense_support(
                (#[trigger] out@[r])@,
                eliminated@ + exported@,
                multiplier_degree(multiplier_total_degree as nat, relations@[r]),
            ),
{
    let variables = sorted_union(eliminated, exported);
    proof {
        assert forall|w: VariableId| #[trigger] variables@.contains(w) <==> (eliminated@ + exported@).contains(w) by {
            if (eliminated@ + exported@).contains(w) {
                let k = choose|k: int| 0 <= k < (eliminated@ + exported@).len() && (eliminated@ + exported@)[k] == w;
                if k < eliminated@.len() {
                    assert(eliminated@[k] == w);
                } else {
                    assert(exported@[k - eliminated@.len()] == w);
                }
            }
            if eliminated@.contains(w) {
                let k = choose|k: int| 0 <= k < eliminated@.len() && eliminated@[k] == w;
                assert((eliminated@ + exported@)[k] == w);
            }
            if exported@.contains(w) {
                let k = choose|k: int| 0 <= k < exported@.len() && exported@[k] == w;
                assert((eliminated@ + exported@)[eliminated@.len() + k] == w);
            }
        }
    }
    let mut out: Vec<Vec<Monomial>> = Vec::new();
    let n = relations.len();
    for r in 0..n
        invariant
            n == relations@.len(),
            crate::planner::relation_preflight::relation_degrees_fit(relations@),
            crate::types::id_set::var_ids_increasing(variables@),
            forall|w: VariableId| #[trigger] variables@.contains(w) <==> (eliminated@ + exported@).contains(w),
            out@.len() == r,
            forall|k: int|
                0 <= k < r ==> is_dense_support(
                    (#[trigger] out@[k])@,
                    eliminated@ + exported@,
                    multiplier_degree(multiplier_total_degree as nat, relations@[k]),
                ),
    {
        let relation_degree = poly_total_degree(&relations[r]) as usize;
        let degree = multiplier_total_degree.saturating_sub(relation_degree);
        let support = monomials_total_degree_leq(variables.as_slice(), degree);
        proof {
            lemma_dense_support_vars(support@, variables@, eliminated@ + exported@, (degree as u32) as nat);
        }
        out.push(support);
    }
    out
}

// ----- support descriptors -----

/// `v` lists, increasing, the variables of `a` and `b`.
pub open spec fn is_sorted_union_of(v: Seq<VariableId>, a: Seq<VariableId>, b: Seq<VariableId>) -> bool {
    var_ids_increasing(v) && forall|w: VariableId| #[trigger] v.contains(w) <==> a.contains(w) || b.contains(w)
}

/// `d` is a dense descriptor: over the exported variables when `export`, else over all of
/// them, with the given degree and count.
pub open spec fn descriptor_matches(
    d: SupportDescriptor,
    export: bool,
    eliminated: Seq<VariableId>,
    exported: Seq<VariableId>,
    degree: nat,
    count: SaturatingCount,
) -> bool {
    match d {
        SupportDescriptor::DenseTotalDegree { variables, degree: dg, estimated_count } => {
            &&& if export {
                variables@ == exported
            } else {
                is_sorted_union_of(variables@, eliminated, exported)
            }
            &&& dg == degree
            &&& estimated_count == count
        },
        SupportDescriptor::SparseFootprint { .. } => false,
    }
}

pub open spec fn paired_len(relations: Seq<SparsePolynomialQ>, e: RelationSearchStageEstimate) -> nat {
    if relations.len() <= e.multiplier_col_counts@.len() {
        relations.len()
    } else {
        e.multiplier_col_counts@.len()
    }
}

/// The descriptors of one stage: the export support, then one per relation paired with its
/// count.
pub open spec fn stage_descriptor_specs(relations: Seq<SparsePolynomialQ>, e: RelationSearchStageEstimate) -> Seq<(bool, nat, SaturatingCount)> {
    seq![(true, e.export_degree as nat, e.export_cols)] + Seq::new(
        paired_len(relations, e),
        |r: int| (false, sat_sub(e.multiplier_total_degree as nat, spec_total_degree(relations[r].terms@)), e.multiplier_col_counts@[r]),
    )
}

pub open spec fn descriptor_specs(relations: Seq<SparsePolynomialQ>, stages: Seq<RelationSearchStageEstimate>) -> Seq<(bool, nat, SaturatingCount)>
    decreases stages.len(),
{
    if stages.len() == 0 {
        Seq::empty()
    } else {
        descriptor_specs(relations, stages.drop_last()) + stage_descriptor_specs(relations, stages.last())
    }
}

pub open spec fn descriptors_match(
    ds: Seq<SupportDescriptor>,
    specs: Seq<(bool, nat, SaturatingCount)>,
    eliminated: Seq<VariableId>,
    exported: Seq<VariableId>,
) -> bool {
    &&& ds.len() == specs.len()
    &&& forall|k: int|
        0 <= k < ds.len() ==> descriptor_matches(#[trigger] ds[k], specs[k].0, eliminated, exported, specs[k].1, specs[k].2)
}

fn copy_variables(s: &Vec<VariableId>) -> (out: Vec<VariableId>)
    ensures
        out@ == s@,
{
    let mut out: Vec<VariableId> = Vec::new();
    let n = s.len();
    for i in 0..n
        invariant
            n == s@.len(),
            out@ == s@.take(i as int),
    {
        out.push(s[i]);
        proof {
            assert(s@.take(i + 1) == s@.take(i as int).push(s@[i as int]));
        }
    }
    proof {
        assert(s@.take(n as int) == s@);
    }
    out
}

/// For each stage estimate, the export support's descriptor, then one per relation.
fn build_support_descriptors(relations: &[SparsePolynomialQ], preflight: &DenseRelationSearchPreflight) -> (out: Vec<SupportDescriptor>)
    requires
        crate::planner::relation_preflight::relation_degrees_fit(relations@),
    ensures
        descriptors_match(
            out@,
            descriptor_specs(relations@, preflight.stage_estimates@),
            preflight.eliminated_variables@,
            preflight.exported_variables@,
        ),
{
    let all_variables = sorted_union(preflight.eliminated_variables.as_slice(), preflight.exported_variables.as_slice());
    let ghost elim = preflight.eliminated_variables@;
    let ghost exp = preflight.exported_variables@;
    let ghost stages = preflight.stage_estimates@;
    let mut out: Vec<SupportDescriptor> = Vec::new();
    let ns = preflight.stage_estimates.len();
    for i in 0..ns
        invariant
            ns == stages.len(),
            stages == preflight.stage_estimates@,
            elim == preflight.eliminated_variables@,
            exp == preflight.exported_variables@,
            crate::planner::relation_preflight::relation_degrees_fit(relations@),
            is_sorted_union_of(all_variables@, elim, exp),
            descriptors_match(out@, descriptor_specs(relations@, stages.take(i as int)), elim, exp),
    {
        let estimate = &preflight.stage_estimates[i];
        let ghost base = out@;
        let ghost prev = descriptor_specs(relations@, stages.take(i as int));
        let ghost here = stage_descriptor_specs(relations@, *estimate);
        proof {
            assert(stages.take(i + 1).drop_last() == stages.take(i as int));
            assert(stages.take(i + 1).last() == *estimate);
        }
        out.push(
            SupportDescriptor::DenseTotalDegree {
                variables: copy_variables(&preflight.exported_variables),
                degree: estimate.export_degree,
                estimated_count: estimate.export_cols,
            },
        );
        let n = if relations.len() <= estimate.multiplier_col_counts.len() {
            relations.len()
        } else {
            estimate.multiplier_col_counts.len()
        };
        for r in 0..n
            invariant
                n == paired_len(relations@, *estimate),
                n <= relations@.len(),
                n <= estimate.multiplier_col_counts@.len(),
                crate::planner::relation_preflight::relation_degrees_fit(relations@),
                is_sorted_union_of(all_variables@, elim, exp),
                here == stage_descriptor_specs(relations@, *estimate),
                descriptors_match(base, prev, elim, exp),
                descriptors_match(out@, prev + here.take(r + 1), elim, exp),
        {
            let relation_degree = poly_total_degree(&relations[r]) as usize;
            let ghost before = out@;
            out.push(
                SupportDescriptor::DenseTotalDegree {
                    variables: copy_variables(&all_variables),
                    degree: estimate.multiplier_total_degree.saturating_sub(relation_degree),
                    estimated_count: estimate.multiplier_col_counts[r],
                },
            );
            proof {
                let sp = prev + here.take(r + 2);
                assert(sp == (prev + here.take(r + 1)).push(here[r + 1]));
                assert(here[r + 1] == (false, sat_sub(estimate.multiplier_total_degree as nat, spec_total_degree(relations@[r as int].terms@)), estimate.multiplier_col_counts@[r as int]));
                assert forall|k: int| 0 <= k < out@.len() implies descriptor_matches(#[trigger] out@[k], sp[k].0, elim, exp, sp[k].1, sp[k].2) by {
                    if k < before.len() {
                        assert(out@[k] == before[k]);
                        assert(sp[k] == (prev + here.take(r + 1))[k]);
                    }
                }
            }
        }
        proof {
            assert(here.take(n + 1) == here);
            assert(descriptor_specs(relations@, stages.take(i + 1)) == prev + here);
        }
    }
    proof {
        assert(stages.take(ns as int) == stages);
    }
    out
}

// ----- stages and schedule -----

/// How many monomials `in_dense_support(_, vars, d)` admits.
pub open spec fn dense_size(vars: Seq<VariableId>, d: nat) -> nat {
    Set::new(|m: Seq<(VariableId, u32)>| in_dense_support(m, vars, d)).len()
}

/// The multiplier support sizes of the first `k` relations, summed.
pub open spec fn multiplier_sizes(relations: Seq<SparsePolynomialQ>, k: int, mtd: nat, vars: Seq<VariableId>) -> nat
    decreases k,
{
    if k <= 0 {
        0
    } else {
        multiplier_sizes(relations, k - 1, mtd, vars) + dense_size(vars, multiplier_degree(mtd, relations[k - 1]))
    }
}

/// The column count a materialized stage has.
pub open spec fn stage_columns(e: RelationSearchStageEstimate, relations: Seq<SparsePolynomialQ>, eliminated: Seq<VariableId>, exported: Seq<VariableId>) -> nat {
    dense_size(exported, (e.export_degree as u32) as nat) + multiplier_sizes(
        relations,
        relations.len() as int,
        e.multiplier_total_degree as nat,
        eliminated + exported,
    )
}

pub open spec fn total_len(s: Seq<Seq<Monomial>>, k: int) -> nat
    decreases k,
{
    if k <= 0 {
        0
    } else {
        total_len(s, k - 1) + s[k - 1].len()
    }
}

/// `st` is the stage materialized from estimate `e`: the export support, the multiplier
/// supports and the rows they give, with their digests and sizes.
pub open spec fn is_materialized_stage(
    st: RelationSearchStage,
    e: RelationSearchStageEstimate,
    relations: Seq<SparsePolynomialQ>,
    eliminated: Seq<VariableId>,
    exported: Seq<VariableId>,
) -> bool {
    &&& st.export_degree == e.export_degree
    &&& st.multiplier_total_degree == e.multiplier_total_degree
    &&& exists|export: Seq<Monomial>, supports: Seq<Seq<Monomial>>, rows: Seq<Monomial>|
        #[trigger] is_row_support(rows, export, supports, relations) && is_stage_parts(st, e, relations, eliminated, exported, export, supports, rows)
    &&& st.stage_hash.0@ == spec_hash_relation_search_stage(st)
}

pub open spec fn is_stage_parts(
    st: RelationSearchStage,
    e: RelationSearchStageEstimate,
    relations: Seq<SparsePolynomialQ>,
    eliminated: Seq<VariableId>,
    exported: Seq<VariableId>,
    export: Seq<Monomial>,
    supports: Seq<Seq<Monomial>>,
    rows: Seq<Monomial>,
) -> bool {
    &&& is_dense_support(export, exported, (e.export_degree as u32) as nat)
    &&& supports.len() == relations.len()
    &&& forall|r: int|
        0 <= r < relations.len() ==> is_dense_support(
            #[trigger] supports[r],
            eliminated + exported,
            multiplier_degree(e.multiplier_total_degree as nat, relations[r]),
        )
    &&& st.export_support_hash.0@ == spec_hash_monomials("rgq042-export-support".spec_bytes(), export)
    &&& st.multiplier_support_hashes@.len() == relations.len()
    &&& forall|r: int|
        0 <= r < relations.len() ==> (#[trigger] st.multiplier_support_hashes@[r]).0@ == spec_hash_monomials(
            "rgq042-multiplier-support".spec_bytes(),
            supports[r],
        )
    &&& st.row_monomial_hash.0@ == spec_hash_monomials("rgq042-row-monomials".spec_bytes(), rows)
    &&& st.row_monomial_count == rows.len()
    &&& st.matrix_rows == rows.len()
    &&& st.matrix_cols == export.len() + total_len(supports, supports.len() as int)
}

/// A dense support list has as many entries as the support has monomials.
proof fn lemma_dense_support_len(list: Seq<Monomial>, vars: Seq<VariableId>, d: nat)
    requires
        is_dense_support(list, vars, d),
    ensures
        list.len() == dense_size(vars, d),
{
    let es = list.map_values(|m: Monomial| m.exponents@);
    assert(es.no_duplicates()) by {
        assert forall|i: int, j: int| 0 <= i < es.len() && 0 <= j < es.len() && i != j implies es[i] != es[j] by {
            lemma_degree_before_total(es[i], es[i]);
            if i < j {
                assert(degree_before(list[i].exponents@, list[j].exponents@));
            } else {
                assert(degree_before(list[j].exponents@, list[i].exponents@));
            }
        }
    }
    es.unique_seq_to_set();
    assert(es.to_set() =~= Set::new(|m: Seq<(VariableId, u32)>| in_dense_support(m, vars, d))) by {
        assert forall|m: Seq<(VariableId, u32)>| #[trigger] es.to_set().contains(m) <==> in_dense_support(m, vars, d) by {
            if es.contains(m) {
                let k = choose|k: int| 0 <= k < es.len() && es[k] == m;
                assert(list[k].exponents@ == m);
            }
            if in_dense_support(m, vars, d) {
                let k = choose|k: int| 0 <= k < list.len() && (#[trigger] list[k]).exponents@ == m;
                assert(es[k] == m);
            }
        }
    }
}

/// Materializes one stage.
fn build_stage(
    relations: &[SparsePolynomialQ],
    eliminated: &Vec<VariableId>,
    exported: &Vec<VariableId>,
    e: &RelationSearchStageEstimate,
) -> (st: RelationSearchStage)
    requires
        relation_degrees_fit(relations@),
        stage_columns(*e, relations@, eliminated@, exported@) <= usize::MAX,
    ensures
        is_materialized_stage(st, *e, relations@, eliminated@, exported@),
{
    let export = build_export_monomial_support(exported.as_slice(), e.export_degree);
    let supports = build_multiplier_supports(relations, eliminated.as_slice(), exported.as_slice(), e.multiplier_total_degree);
    let rows = build_row_monomial_support(relations, export.as_slice(), supports.as_slice());
    let ghost sv = support_views(supports@);
    let export_support_hash = hash_monomials("rgq042-export-support", export.as_slice());
    let mut multiplier_support_hashes: Vec<hash::Hash> = Vec::new();
    let mut matrix_cols: usize = export.len();
    proof {
        lemma_dense_support_len(export@, exported@, (e.export_degree as u32) as nat);
    }
    let n = supports.len();
    for r in 0..n
        invariant
            n == supports@.len(),
            n == relations@.len(),
            sv == support_views(supports@),
            stage_columns(*e, relations@, eliminated@, exported@) <= usize::MAX,
            export@.len() == dense_size(exported@, (e.export_degree as u32) as nat),
            forall|k: int|
                0 <= k < relations@.len() ==> is_dense_support(
                    #[trigger] sv[k],
                    eliminated@ + exported@,
                    multiplier_degree(e.multiplier_total_degree as nat, relations@[k]),
                ),
            matrix_cols == export@.len() + total_len(sv, r as int),
            total_len(sv, r as int) == multiplier_sizes(relations@, r as int, e.multiplier_total_degree as nat, eliminated@ + exported@),
            multiplier_support_hashes@.len() == r,
            forall|k: int|
                0 <= k < r ==> (#[trigger] multiplier_support_hashes@[k]).0@ == spec_hash_monomials(
                    "rgq042-multiplier-support".spec_bytes(),
                    sv[k],
                ),
    {
        proof {
            assert(sv[r as int] == supports@[r as int]@);
            lemma_dense_support_len(sv[r as int], eliminated@ + exported@, multiplier_degree(e.multiplier_total_degree as nat, relations@[r as int]));
            lemma_sizes_prefix(relations@, r + 1, e.multiplier_total_degree as nat, eliminated@ + exported@);
        }
        multiplier_support_hashes.push(hash_monomials("rgq042-multiplier-support", supports[r].as_slice()));
        matrix_cols = matrix_cols + supports[r].len();
    }
    let row_monomial_hash = hash_monomials("rgq042-row-monomials", rows.as_slice());
    let matrix_rows = rows.len();
    let mut stage = RelationSearchStage {
        export_degree: e.export_degree,
        multiplier_total_degree: e.multiplier_total_degree,
        export_support_hash,
        multiplier_support_hashes,
        row_monomial_hash,
        row_monomial_count: matrix_rows,
        matrix_rows,
        matrix_cols,
        stage_hash: hash_sequence("rgq042-relation-search-stage", &[]),
    };
    stage.stage_hash = hash_relation_search_stage(&stage);
    proof {
        assert(is_stage_parts(stage, *e, relations@, eliminated@, exported@, export@, sv, rows@));
        assert(is_row_support(rows@, export@, sv, relations@));
    }
    stage
}

proof fn lemma_sizes_prefix(relations: Seq<SparsePolynomialQ>, k: int, mtd: nat, vars: Seq<VariableId>)
    requires
        0 <= k <= relations.len(),
    ensures
        multiplier_sizes(relations, k, mtd, vars) <= multiplier_sizes(relations, relations.len() as int, mtd, vars),
    decreases relations.len() - k,
{
    if k < relations.len() {
        lemma_sizes_prefix(relations, k + 1, mtd, vars);
    }
}

/// The materialization columns fit in `usize` for every preflight of these inputs that
/// allows materialization.
pub open spec fn columns_fit(
    relations: Seq<SparsePolynomialQ>,
    eliminated: Seq<VariableId>,
    exported: Seq<VariableId>,
    options: SolverOptions,
) -> bool {
    forall|p: DenseRelationSearchPreflight|
        #[trigger] is_dense_preflight(p, relations, eliminated, exported, options) && p.materialization_allowed ==> forall|i: int|
            0 <= i < p.stage_estimates@.len() ==> stage_columns(
                #[trigger] p.stage_estimates@[i],
                relations,
                p.eliminated_variables@,
                p.exported_variables@,
            ) <= usize::MAX
}

/// The dense relation search schedule: its preflight, the support descriptors of every
/// stage, and, when the preflight allows it, every stage materialized.
pub fn build_dense_relation_search_schedule(
    j: &[SparsePolynomialQ],
    eliminated: &[VariableId],
    exported: &[VariableId],
    options: &SolverOptions,
) -> (s: DenseRelationSearchSchedule)
    requires
        relation_degrees_fit(j@),
        columns_fit(j@, eliminated@, exported@, *options),
    ensures
        is_dense_preflight(s.preflight, j@, eliminated@, exported@, *options),
        s.eliminated_variables@ == s.preflight.eliminated_variables@,
        s.exported_variables@ == s.preflight.exported_variables@,
        s.z_seed == s.preflight.z_seed,
        s.e_cap == s.preflight.e_cap,
        s.d_max == s.preflight.d_max,
        descriptors_match(
            s.support_descriptors@,
            descriptor_specs(j@, s.preflight.stage_estimates@),
            s.preflight.eliminated_variables@,
            s.preflight.exported_variables@,
        ),
        s.preflight.materialization_allowed ==> s.stages@.len() == s.preflight.stage_estimates@.len(),
        !s.preflight.materialization_allowed ==> s.stages@.len() == 0,
        forall|i: int| 0 <= i < s.stages@.len() ==> (#[trigger] s.preflight.stage_estimates@[i]).feasible,
        forall|i: int|
            0 <= i < s.stages@.len() ==> is_materialized_stage(
                #[trigger] s.stages@[i],
                s.preflight.stage_estimates@[i],
                j@,
                s.preflight.eliminated_variables@,
                s.preflight.exported_variables@,
            ),
        s.schedule_hash.0@ == spec_hash_dense_relation_search_schedule(s),
{
    let preflight = estimate_dense_relation_search_schedule(j, eliminated, exported, options);
    proof {
        crate::planner::relation_preflight::lemma_materialization_needs_feasible_stages(
            preflight,
            j@,
            eliminated@,
            exported@,
            *options,
        );
    }
    let support_descriptors = build_support_descriptors(j, &preflight);
    let mut stages: Vec<RelationSearchStage> = Vec::new();
    if preflight.materialization_allowed {
        let n = preflight.stage_estimates.len();
        for i in 0..n
            invariant
                n == preflight.stage_estimates@.len(),
                preflight.materialization_allowed,
                is_dense_preflight(preflight, j@, eliminated@, exported@, *options),
                columns_fit(j@, eliminated@, exported@, *options),
                relation_degrees_fit(j@),
                stages@.len() == i,
                forall|k: int|
                    0 <= k < i ==> is_materialized_stage(
                        #[trigger] stages@[k],
                        preflight.stage_estimates@[k],
                        j@,
                        preflight.eliminated_variables@,
                        preflight.exported_variables@,
                    ),
        {
            proof {
                assert(stage_columns(preflight.stage_estimates@[i as int], j@, preflight.eliminated_variables@, preflight.exported_variables@) <= usize::MAX);
            }
            let stage = build_stage(j, &preflight.eliminated_variables, &preflight.exported_variables, &preflight.stage_estimates[i]);
            stages.push(stage);
        }
    }
    let mut schedule = DenseRelationSearchSchedule {
        eliminated_variables: copy_variables(&preflight.eliminated_variables),
        exported_variables: copy_variables(&preflight.exported_variables),
        z_seed: preflight.z_seed,
        e_cap: preflight.e_cap,
        d_max: preflight.d_max,
        preflight,
        support_descriptors,
        stages,
        schedule_hash: hash_sequence("rgq042-dense-relation-search-schedule", &[]),
    };
    schedule.schedule_hash = hash_dense_relation_search_schedule(&schedule);
    schedule
}

} // verus!
