//! The declared execution ladder of a block: admitted plans with enforceable budgets, cheapest
//! first, caller preferences in front and the universal fallback last.
use vstd::prelude::*;

use crate::planner::admission::KernelAdmission;
use crate::planner::cost_model::{cost_order, cost_order_value, KernelCostEstimate};
use crate::planner::kernel_kind::KernelKind;
use crate::planner::kernel_plan::{first_entry_of_kind, lemma_first_entry_skip, KernelExecutionPlan};

verus! {

/// A plan whose estimate and budget digests are current and whose budget caps are all positive.
pub open spec fn spec_enforceable(plan: KernelExecutionPlan) -> bool {
    &&& plan.algebraic_work_estimate.hash_is_current()
    &&& plan.route_budget.hash_is_current()
    &&& plan.route_budget.max_work_units.0 > 0
    &&& plan.route_budget.max_elapsed_steps > 0
    &&& plan.route_budget.max_input_terms_per_pair > 0
    &&& plan.route_budget.max_intermediate_terms > 0
    &&& plan.route_budget.max_output_terms > 0
    &&& plan.route_budget.max_keep_variables > 0
    &&& plan.route_budget.max_total_degree > 0
    &&& plan.route_budget.max_coefficient_height_bits > 0
}

fn has_enforceable_route_budget(plan: &KernelExecutionPlan) -> (r: bool)
    ensures
        r == spec_enforceable(*plan),
{
    plan.algebraic_work_estimate.is_hash_current() && plan.route_budget.is_hash_current()
        && plan.route_budget.max_work_units.0 > 0 && plan.route_budget.max_elapsed_steps > 0
        && plan.route_budget.max_input_terms_per_pair > 0
        && plan.route_budget.max_intermediate_terms > 0 && plan.route_budget.max_output_terms > 0
        && plan.route_budget.max_keep_variables > 0 && plan.route_budget.max_total_degree > 0
        && plan.route_budget.max_coefficient_height_bits > 0
}

/// The plans of the admissions that carry one with an enforceable budget, in admission order.
pub open spec fn ladder_candidates(admissions: Seq<KernelAdmission>) -> Seq<KernelExecutionPlan>
    decreases admissions.len(),
{
    if admissions.len() == 0 {
        Seq::empty()
    } else {
        let rest = ladder_candidates(admissions.drop_last());
        match admissions.last().execution_plan {
            Some(p) => if spec_enforceable(p) {
                rest.push(p)
            } else {
                rest
            },
            None => rest,
        }
    }
}

/// The position of the first cost estimate for `kind`.
pub open spec fn first_cost_of_kind(costs: Seq<KernelCostEstimate>, kind: KernelKind) -> Option<int>
    decreases costs.len(),
{
    if costs.len() == 0 {
        None
    } else if costs[0].kernel_kind == kind {
        Some(0)
    } else {
        match first_cost_of_kind(costs.drop_first(), kind) {
            Some(i) => Some(i + 1),
            None => None,
        }
    }
}

/// The cost estimate a plan is ranked by: the first one for its kernel.
pub open spec fn plan_cost(costs: Seq<KernelCostEstimate>, plan: KernelExecutionPlan) -> KernelCostEstimate {
    costs[first_cost_of_kind(costs, plan.kernel_kind)->0]
}

/// Whether `a` ranks strictly after `b`.
pub open spec fn ranks_after(costs: Seq<KernelCostEstimate>, a: KernelExecutionPlan, b: KernelExecutionPlan) -> bool {
    cost_order(plan_cost(costs, a), plan_cost(costs, b)) > 0
}

/// `x` inserted into `s` after every element that does not rank after it.
pub open spec fn insert_by_cost(
    costs: Seq<KernelCostEstimate>,
    s: Seq<KernelExecutionPlan>,
    x: KernelExecutionPlan,
) -> Seq<KernelExecutionPlan>
    decreases s.len(),
{
    if s.len() == 0 {
        seq![x]
    } else if ranks_after(costs, s[0], x) {
        seq![x] + s
    } else {
        seq![s[0]] + insert_by_cost(costs, s.drop_first(), x)
    }
}

/// The stable sort of `s` by cost: equal-ranked plans keep their relative order.
pub open spec fn sort_by_cost(costs: Seq<KernelCostEstimate>, s: Seq<KernelExecutionPlan>) -> Seq<KernelExecutionPlan>
    decreases s.len(),
{
    if s.len() == 0 {
        s
    } else {
        insert_by_cost(costs, sort_by_cost(costs, s.drop_last()), s.last())
    }
}

/// The preferred kernels, in preference order, each taking the first remaining plan of its
/// kind; the second part is what no preference took, in its old order.
pub open spec fn take_preferred(plans: Seq<KernelExecutionPlan>, preferred: Seq<KernelKind>) -> (
    Seq<KernelExecutionPlan>,
    Seq<KernelExecutionPlan>,
)
    decreases preferred.len(),
{
    if preferred.len() == 0 {
        (Seq::empty(), plans)
    } else {
        let (front, rest) = take_preferred(plans, preferred.drop_last());
        match first_entry_of_kind(rest, preferred.last()) {
            Some(i) => (front.push(rest[i]), rest.remove(i)),
            None => (front, rest),
        }
    }
}

/// The first universal plan moved to the end, unless the caller asked for the universal kernel.
pub open spec fn universal_last(plans: Seq<KernelExecutionPlan>, preferred: Seq<KernelKind>) -> Seq<KernelExecutionPlan> {
    if preferred.contains(KernelKind::UniversalTargetElimination) {
        plans
    } else {
        match first_entry_of_kind(plans, KernelKind::UniversalTargetElimination) {
            Some(i) => plans.remove(i).push(plans[i]),
            None => plans,
        }
    }
}

/// The declared ladder for these admissions, costs and preferences.
pub open spec fn spec_declared_ladder(
    admissions: Seq<KernelAdmission>,
    costs: Seq<KernelCostEstimate>,
    preferred: Seq<KernelKind>,
) -> Seq<KernelExecutionPlan> {
    let sorted = sort_by_cost(costs, ladder_candidates(admissions));
    let (front, rest) = take_preferred(sorted, preferred);
    universal_last(front + rest, preferred)
}

/// Every candidate plan can be ranked: there is a cost estimate for its kernel. Ranking is
/// only needed once there are two candidates.
pub open spec fn ladder_costs_cover(admissions: Seq<KernelAdmission>, costs: Seq<KernelCostEstimate>) -> bool {
    ladder_candidates(admissions).len() <= 1 || forall|i: int|
        0 <= i < ladder_candidates(admissions).len() ==> (#[trigger] first_cost_of_kind(
            costs,
            ladder_candidates(admissions)[i].kernel_kind,
        )) is Some
}

proof fn lemma_first_cost_bounds(costs: Seq<KernelCostEstimate>, kind: KernelKind)
    ensures
        first_cost_of_kind(costs, kind) matches Some(i) ==> 0 <= i < costs.len() && costs[i].kernel_kind == kind,
    decreases costs.len(),
{
    if costs.len() > 0 && costs[0].kernel_kind != kind {
        lemma_first_cost_bounds(costs.drop_first(), kind);
    }
}

proof fn lemma_first_cost_skip(costs: Seq<KernelCostEstimate>, kind: KernelKind, i: int)
    requires
        0 <= i < costs.len(),
    ensures
        first_cost_of_kind(costs.skip(i), kind) == if costs[i].kernel_kind == kind {
            Some(0int)
        } else {
            match first_cost_of_kind(costs.skip(i + 1), kind) {
                Some(k) => Some(k + 1),
                None => None,
            }
        },
{
    assert(costs.skip(i)[0] == costs[i]);
    assert(costs.skip(i).drop_first() == costs.skip(i + 1));
}

/// The index of the first cost estimate for `kind`.
fn find_cost(costs: &[KernelCostEstimate], kind: KernelKind) -> (r: usize)
    requires
        first_cost_of_kind(costs@, kind) is Some,
    ensures
        first_cost_of_kind(costs@, kind) == Some(r as int),
        r < costs@.len(),
{
    let ghost s = costs@;
    assert(s.skip(0) == s);
    let mut i: usize = 0;
    while i < costs.len()
        invariant
            i <= s.len(),
            s == costs@,
            first_cost_of_kind(s, kind) is Some,
            first_cost_of_kind(s, kind) == match first_cost_of_kind(s.skip(i as int), kind) {
                Some(k) => Some(k + i),
                None => None,
            },
        decreases s.len() - i,
    {
        proof {
            lemma_first_cost_skip(s, kind, i as int);
        }
        if costs[i].kernel_kind == kind {
            return i;
        }
        i += 1;
    }
    assert(s.skip(i as int).len() == 0);
    0
}

/// The index of the first plan of `kind`.
fn find_plan(plans: &Vec<KernelExecutionPlan>, kind: KernelKind) -> (r: Option<usize>)
    ensures
        match r {
            Some(i) => first_entry_of_kind(plans@, kind) == Some(i as int) && i < plans@.len(),
            None => first_entry_of_kind(plans@, kind) is None,
        },
{
    let ghost s = plans@;
    assert(s.skip(0) == s);
    let mut i: usize = 0;
    while i < plans.len()
        invariant
            i <= s.len(),
            s == plans@,
            first_entry_of_kind(s, kind) == match first_entry_of_kind(s.skip(i as int), kind) {
                Some(k) => Some(k + i),
                None => None,
            },
        decreases s.len() - i,
    {
        proof {
            lemma_first_entry_skip(s, kind, i as int);
        }
        if plans[i].kernel_kind == kind {
            return Some(i);
        }
        i += 1;
    }
    assert(s.skip(i as int).len() == 0);
    None
}

proof fn lemma_insert_at(
    costs: Seq<KernelCostEstimate>,
    s: Seq<KernelExecutionPlan>,
    x: KernelExecutionPlan,
    i: int,
)
    requires
        0 <= i <= s.len(),
        forall|j: int| 0 <= j < i ==> !ranks_after(costs, #[trigger] s[j], x),
        i < s.len() ==> ranks_after(costs, s[i], x),
    ensures
        insert_by_cost(costs, s, x) == s.take(i).push(x) + s.skip(i),
    decreases i,
{
    if i == 0 {
        assert(s.take(0).push(x) + s.skip(0) =~= seq![x] + s);
    } else {
        let t = s.drop_first();
        assert forall|j: int| 0 <= j < i - 1 implies !ranks_after(costs, #[trigger] t[j], x) by {
            assert(t[j] == s[j + 1]);
        }
        if i - 1 < t.len() {
            assert(t[i - 1] == s[i]);
        }
        lemma_insert_at(costs, t, x, i - 1);
        assert(!ranks_after(costs, s[0], x));
        assert(seq![s[0]] + (t.take(i - 1).push(x) + t.skip(i - 1)) =~= s.take(i).push(x) + s.skip(i));
    }
}

/// Whether the plan at `i` ranks after `x`.
fn ranks_after_exec(costs: &[KernelCostEstimate], a: &KernelExecutionPlan, x: &KernelExecutionPlan) -> (r: bool)
    requires
        first_cost_of_kind(costs@, a.kernel_kind) is Some,
        first_cost_of_kind(costs@, x.kernel_kind) is Some,
    ensures
        r == ranks_after(costs@, *a, *x),
{
    let ia = find_cost(costs, a.kernel_kind);
    let ix = find_cost(costs, x.kernel_kind);
    cost_order_value(&costs[ia], &costs[ix]) > 0
}

/// The candidates of the admissions, stably sorted by cost.
fn sorted_candidates(admissions: Vec<KernelAdmission>, costs: &[KernelCostEstimate]) -> (out: Vec<KernelExecutionPlan>)
    requires
        ladder_costs_cover(admissions@, costs@),
    ensures
        out@ == sort_by_cost(costs@, ladder_candidates(admissions@)),
{
    let ghost adm = admissions@;
    let ghost all = ladder_candidates(adm);
    let mut rest = admissions;
    let mut out: Vec<KernelExecutionPlan> = Vec::new();
    let ghost mut k: int = 0;
    assert(adm.skip(0) == adm);
    assert(adm.take(0).len() == 0);
    while rest.len() > 0
        invariant
            0 <= k <= adm.len(),
            rest@ == adm.skip(k),
            all == ladder_candidates(adm),
            ladder_costs_cover(adm, costs@),
            out@ == sort_by_cost(costs@, ladder_candidates(adm.take(k))),
            out@.len() == ladder_candidates(adm.take(k)).len(),
            all.len() >= 2 ==> forall|j: int|
                0 <= j < out@.len() ==> (#[trigger] first_cost_of_kind(costs@, out@[j].kernel_kind)) is Some,
        decreases rest@.len(),
    {
        let ghost before = adm.take(k);
        let ghost after = adm.take(k + 1);
        proof {
            assert(after.drop_last() == before);
            assert(adm.skip(k)[0] == adm[k]);
            assert(adm.skip(k).remove(0) == adm.skip(k + 1));
            lemma_candidates_prefix(adm, k + 1);
            lemma_sort_len(costs@, ladder_candidates(before));
        }
        let admission = rest.remove(0);
        proof {
            assert(after.last() == admission);
        }
        match admission.execution_plan {
            Some(x) => {
                if has_enforceable_route_budget(&x) {
                    let ghost m = ladder_candidates(before).len();
                    proof {
                        assert(ladder_candidates(after) == ladder_candidates(before).push(x));
                        assert(ladder_candidates(after)[m as int] == x);
                        assert(all[m as int] == x);
                    }
                    let mut i: usize = 0;
                    while i < out.len() && !ranks_after_exec(costs, &out[i], &x)
                        invariant
                            i <= out@.len(),
                            out@ == sort_by_cost(costs@, ladder_candidates(before)),
                            out@.len() == m,
                            m < all.len(),
                            all[m as int] == x,
                            ladder_costs_cover(adm, costs@),
                            all == ladder_candidates(adm),
                            all.len() >= 2 ==> forall|j: int|
                                0 <= j < out@.len() ==> (#[trigger] first_cost_of_kind(costs@, out@[j].kernel_kind)) is Some,
                            forall|j: int| 0 <= j < i ==> !ranks_after(costs@, #[trigger] out@[j], x),
                        decreases out@.len() - i,
                    {
                        i += 1;
                    }
                    proof {
                        lemma_insert_at(costs@, out@, x, i as int);
                        assert(ladder_candidates(after).drop_last() == ladder_candidates(before));
                        assert(ladder_candidates(after).last() == x);
                    }
                    let ghost old_out = out@;
                    out.insert(i, x);
                    proof {
                        assert(out@ == old_out.take(i as int).push(x) + old_out.skip(i as int));
                        if all.len() >= 2 {
                            assert forall|j: int| 0 <= j < out@.len() implies (#[trigger] first_cost_of_kind(
                                costs@,
                                out@[j].kernel_kind,
                            )) is Some by {
                                if j < i {
                                    assert(out@[j] == old_out[j]);
                                } else if j > i {
                                    assert(out@[j] == old_out[j - 1]);
                                } else {
                                    assert(out@[j] == all[m as int]);
                                }
                            }
                        }
                    }
                } else {
                    proof {
                        assert(ladder_candidates(after) == ladder_candidates(before));
                    }
                }
            },
            None => {
                proof {
                    assert(ladder_candidates(after) == ladder_candidates(before));
                }
            },
        }
        proof {
            k = k + 1;
        }
    }
    proof {
        assert(adm.take(k) == adm);
    }
    out
}

proof fn lemma_insert_len(costs: Seq<KernelCostEstimate>, s: Seq<KernelExecutionPlan>, x: KernelExecutionPlan)
    ensures
        insert_by_cost(costs, s, x).len() == s.len() + 1,
    decreases s.len(),
{
    if s.len() > 0 && !ranks_after(costs, s[0], x) {
        lemma_insert_len(costs, s.drop_first(), x);
    }
}

proof fn lemma_sort_len(costs: Seq<KernelCostEstimate>, s: Seq<KernelExecutionPlan>)
    ensures
        sort_by_cost(costs, s).len() == s.len(),
    decreases s.len(),
{
    if s.len() > 0 {
        lemma_sort_len(costs, s.drop_last());
        lemma_insert_len(costs, sort_by_cost(costs, s.drop_last()), s.last());
    }
}

/// The declared ladder of a block: the admitted plans whose budgets can be enforced, sorted
/// by cost (stably), the preferred kernels moved to the front in preference order, and the
/// universal fallback moved last unless it was itself preferred. Every candidate needs a
/// cost estimate for its kernel once there are two candidates to rank.
pub fn build_declared_ladder(
    admissions: Vec<KernelAdmission>,
    costs: &[KernelCostEstimate],
    preferred_order: &[KernelKind],
) -> (ladder: Vec<KernelExecutionPlan>)
    requires
        ladder_costs_cover(admissions@, costs@),
    ensures
        ladder@ == spec_declared_ladder(admissions@, costs@, preferred_order@),
{
    let ghost adm = admissions@;
    let sorted = sorted_candidates(admissions, costs);
    let ghost sorted_view = sorted@;
    let mut plans = sorted;
    let mut front: Vec<KernelExecutionPlan> = Vec::new();
    let n = preferred_order.len();
    for p in 0..n
        invariant
            n == preferred_order@.len(),
            (front@, plans@) == take_preferred(sorted_view, preferred_order@.take(p as int)),
    {
        proof {
            assert(preferred_order@.take(p + 1).drop_last() == preferred_order@.take(p as int));
            assert(preferred_order@.take(p + 1).last() == preferred_order@[p as int]);
        }
        match find_plan(&plans, preferred_order[p]) {
            Some(index) => {
                let entry = plans.remove(index);
                front.push(entry);
            },
            None => {},
        }
    }
    proof {
        assert(preferred_order@.take(n as int) == preferred_order@);
    }
    front.append(&mut plans);
    let mut universal_preferred = false;
    for p in 0..n
        invariant
            n == preferred_order@.len(),
            universal_preferred == exists|j: int|
                0 <= j < p && #[trigger] preferred_order@[j] == KernelKind::UniversalTargetElimination,
    {
        if preferred_order[p] == KernelKind::UniversalTargetElimination {
            universal_preferred = true;
        }
    }
    proof {
        if universal_preferred {
            let j = choose|j: int| 0 <= j < n && #[trigger] preferred_order@[j] == KernelKind::UniversalTargetElimination;
            assert(preferred_order@.contains(preferred_order@[j]));
        } else {
            assert forall|j: int| 0 <= j < preferred_order@.len() implies preferred_order@[j]
                != KernelKind::UniversalTargetElimination by {}
        }
    }
    if !universal_preferred {
        match find_plan(&front, KernelKind::UniversalTargetElimination) {
            Some(index) => {
                let universal = front.remove(index);
                front.push(universal);
            },
            None => {},
        }
    }
    front
}

proof fn lemma_candidates_prefix(admissions: Seq<KernelAdmission>, k: int)
    requires
        0 <= k <= admissions.len(),
    ensures
        ladder_candidates(admissions.take(k)).len() <= ladder_candidates(admissions).len(),
        forall|j: int| 0 <= j < ladder_candidates(admissions.take(k)).len() ==>
            ladder_candidates(admissions.take(k))[j] == #[trigger] ladder_candidates(admissions)[j],
    decreases admissions.len(),
{
    if k < admissions.len() {
        let d = admissions.drop_last();
        assert(d.take(k) == admissions.take(k));
        lemma_candidates_prefix(d, k);
    } else {
        assert(admissions.take(k) == admissions);
    }
}

proof fn lemma_first_entry_bounds(plans: Seq<KernelExecutionPlan>, kind: KernelKind)
    ensures
        first_entry_of_kind(plans, kind) matches Some(i) ==> 0 <= i < plans.len() && plans[i].kernel_kind == kind,
        first_entry_of_kind(plans, kind) is None ==> forall|i: int| 0 <= i < plans.len() ==> plans[i].kernel_kind != kind,
    decreases plans.len(),
{
    if plans.len() > 0 && plans[0].kernel_kind != kind {
        lemma_first_entry_bounds(plans.drop_first(), kind);
        if first_entry_of_kind(plans, kind) is None {
            assert forall|i: int| 0 <= i < plans.len() implies plans[i].kernel_kind != kind by {
                if i > 0 {
                    assert(plans[i] == plans.drop_first()[i - 1]);
                }
            }
        }
    }
}

/// The universal fallback goes last: unless the caller prefers it, a ladder that holds a
/// universal plan ends with one.
pub proof fn lemma_universal_plan_last(
    admissions: Seq<KernelAdmission>,
    costs: Seq<KernelCostEstimate>,
    preferred: Seq<KernelKind>,
    i: int,
)
    requires
        !preferred.contains(KernelKind::UniversalTargetElimination),
        0 <= i < spec_declared_ladder(admissions, costs, preferred).len(),
        spec_declared_ladder(admissions, costs, preferred)[i].kernel_kind == KernelKind::UniversalTargetElimination,
    ensures
        spec_declared_ladder(admissions, costs, preferred).last().kernel_kind == KernelKind::UniversalTargetElimination,
{
    let sorted = sort_by_cost(costs, ladder_candidates(admissions));
    let (front, rest) = take_preferred(sorted, preferred);
    let p = front + rest;
    lemma_first_entry_bounds(p, KernelKind::UniversalTargetElimination);
    match first_entry_of_kind(p, KernelKind::UniversalTargetElimination) {
        Some(k) => {
            let ladder = p.remove(k).push(p[k]);
            assert(spec_declared_ladder(admissions, costs, preferred) == ladder);
            assert(ladder.last() == p[k]);
        },
        None => {
            assert(spec_declared_ladder(admissions, costs, preferred) == p);
            assert(p[i].kernel_kind != KernelKind::UniversalTargetElimination);
        },
    }
}

} // verus!
