//! What the planner records about the kernels it considered for a projection block.
use vstd::prelude::*;
use vstd::string::{StrSliceExecFns, StringExecFns};

use crate::planner::admission::{KernelAdmission, KernelAdmissionStatus};
use crate::planner::cost_model::{KernelCostEstimate, RouteCostClass};
use crate::planner::kernel_kind::{kernel_kind_label, kernel_kind_name, KernelKind};
use crate::planner::kernel_plan::KernelExecutionPlan;
use crate::planner::relation_preflight::{
    dense_relation_search_decline_reason, estimate_dense_relation_search_schedule, is_dense_preflight,
    relation_degrees_fit, spec_decline_reason,
};
use crate::planner::relation_schedule::{first_reason_index, spec_display_value, DenseRelationSearchPreflight};
use crate::preprocess::compression::CompressedSystemQ;
use crate::problem::canonicalize::CanonicalRelationQ;
use crate::problem::context::SolverContext;
use crate::result::diagnostics::{detail_set, details_view, DiagnosticRecord};
use crate::result::status::StageId;
use crate::types::ids::{BlockId, RelationId, VariableId};
use crate::types::polynomial::{copy_poly, degrees_fit_u32, poly_view, terms_view, SparsePolynomialQ};

use crate::types::text::{decimal, decimal_string, hash_debug, push_hash_debug};

verus! {

/// What the planner reads of a projection block: its id, its local and exported variables
/// and the relations it holds.
#[derive(Debug, Clone, PartialEq, Eq)]
pub struct ProjectionBlock {
    pub block_id: BlockId,
    pub local_variables: Vec<VariableId>,
    pub exported_variables: Vec<VariableId>,
    pub relation_ids: Vec<RelationId>,
}

/// The local variables that are not exported, in their order.
pub open spec fn without_exported(local: Seq<VariableId>, exported: Seq<VariableId>) -> Seq<VariableId>
    decreases local.len(),
{
    if local.len() == 0 {
        Seq::empty()
    } else {
        let rest = without_exported(local.drop_last(), exported);
        if exported.contains(local.last()) {
            rest
        } else {
            rest.push(local.last())
        }
    }
}

/// The block's eliminated variables: local and not exported.
pub fn block_eliminated_variables(block: &ProjectionBlock) -> (v: Vec<VariableId>)
    ensures
        v@ == without_exported(block.local_variables@, block.exported_variables@),
{
    let local = &block.local_variables;
    let exported = &block.exported_variables;
    let mut out: Vec<VariableId> = Vec::new();
    for i in 0..local.len()
        invariant
            out@ == without_exported(local@.take(i as int), exported@),
    {
        proof {
            assert(local@.take(i + 1).drop_last() == local@.take(i as int));
            assert(local@.take(i + 1).last() == local@[i as int]);
        }
        let v = local[i];
        let mut found = false;
        for j in 0..exported.len()
            invariant
                found <==> exported@.take(j as int).contains(v),
        {
            let ghost pre = exported@.take(j as int);
            let ghost post = exported@.take(j + 1);
            proof {
                assert(post == pre.push(exported@[j as int]));
                assert forall|w: VariableId| pre.contains(w) implies post.contains(w) by {
                    let x = choose|x: int| 0 <= x < pre.len() && pre[x] == w;
                    assert(post[x] == w);
                }
                assert forall|w: VariableId| post.contains(w) implies pre.contains(w) || w == exported@[j as int] by {
                    let x = choose|x: int| 0 <= x < post.len() && post[x] == w;
                    if x < j {
                        assert(pre[x] == w);
                    }
                }
                assert(post[j as int] == exported@[j as int]);
            }
            if exported[j].0 == v.0 {
                found = true;
            }
        }
        proof {
            assert(exported@.take(exported@.len() as int) == exported@);
        }
        if !found {
            out.push(v);
        }
    }
    proof {
        assert(local@.take(local@.len() as int) == local@);
    }
    out
}

/// `k` is the first position of a relation with id `id`.
pub open spec fn is_first_with_id(rels: Seq<CanonicalRelationQ>, id: RelationId, k: int) -> bool {
    &&& 0 <= k < rels.len()
    &&& rels[k].id == id
    &&& forall|j: int| 0 <= j < k ==> (#[trigger] rels[j]).id != id
}

/// The first position of a relation with id `id`, if any.
pub open spec fn first_with_id(rels: Seq<CanonicalRelationQ>, id: RelationId) -> Option<int> {
    if exists|k: int| is_first_with_id(rels, id, k) {
        Some(choose|k: int| is_first_with_id(rels, id, k))
    } else {
        None
    }
}

proof fn lemma_first_with_id_unique(rels: Seq<CanonicalRelationQ>, id: RelationId, k: int)
    requires
        is_first_with_id(rels, id, k),
    ensures
        first_with_id(rels, id) == Some(k),
{
    let c = choose|c: int| is_first_with_id(rels, id, c);
    if c < k {
        assert(rels[c].id != id);
    } else if k < c {
        assert(rels[k].id != id);
    }
}

/// The polynomials of the block's relations, in the order of its relation ids, each taken
/// from the first relation of the system with that id; ids with no relation are skipped.
pub open spec fn block_relation_views(
    ids: Seq<RelationId>,
    rels: Seq<CanonicalRelationQ>,
) -> Seq<(Seq<(int, int, Seq<(VariableId, u32)>)>, crate::types::hash::Hash)>
    decreases ids.len(),
{
    if ids.len() == 0 {
        Seq::empty()
    } else {
        let rest = block_relation_views(ids.drop_last(), rels);
        match first_with_id(rels, ids.last()) {
            Some(k) => rest.push(poly_view(rels[k].polynomial)),
            None => rest,
        }
    }
}

pub open spec fn polys_view(ps: Seq<SparsePolynomialQ>) -> Seq<(Seq<(int, int, Seq<(VariableId, u32)>)>, crate::types::hash::Hash)> {
    ps.map_values(|p: SparsePolynomialQ| poly_view(p))
}

/// Every relation of the system has degrees that fit in `u32`.
pub open spec fn system_degrees_fit(rels: Seq<CanonicalRelationQ>) -> bool {
    forall|i: int| 0 <= i < rels.len() ==> degrees_fit_u32(#[trigger] rels[i].polynomial.terms@)
}

proof fn lemma_degrees_fit_view(a: SparsePolynomialQ, b: SparsePolynomialQ)
    requires
        poly_view(a) == poly_view(b),
        degrees_fit_u32(b.terms@),
    ensures
        degrees_fit_u32(a.terms@),
{
    assert(terms_view(a.terms@).len() == a.terms@.len());
    assert(terms_view(b.terms@).len() == b.terms@.len());
    assert forall|i: int| 0 <= i < a.terms@.len() implies crate::types::monomial::exponent_sum(
        #[trigger] a.terms@[i].monomial.exponents@,
    ) <= u32::MAX by {
        assert(terms_view(a.terms@)[i] == terms_view(b.terms@)[i]);
        assert(terms_view(a.terms@)[i].2 == a.terms@[i].monomial.exponents@);
        assert(terms_view(b.terms@)[i].2 == b.terms@[i].monomial.exponents@);
        assert(crate::types::monomial::exponent_sum(b.terms@[i].monomial.exponents@) <= u32::MAX);
    }
}

/// Copies of the block's relation polynomials.
pub fn block_relation_polys(block: &ProjectionBlock, system: &CompressedSystemQ) -> (ps: Vec<SparsePolynomialQ>)
    requires
        system_degrees_fit(system.relations@),
    ensures
        polys_view(ps@) == block_relation_views(block.relation_ids@, system.relations@),
        relation_degrees_fit(ps@),
{
    let ids = &block.relation_ids;
    let rels = &system.relations;
    let mut out: Vec<SparsePolynomialQ> = Vec::new();
    for i in 0..ids.len()
        invariant
            system_degrees_fit(rels@),
            polys_view(out@) == block_relation_views(ids@.take(i as int), rels@),
            relation_degrees_fit(out@),
    {
        proof {
            assert(ids@.take(i + 1).drop_last() == ids@.take(i as int));
            assert(ids@.take(i + 1).last() == ids@[i as int]);
        }
        let id = ids[i];
        let mut found: Option<usize> = None;
        let mut k: usize = 0;
        while k < rels.len()
            invariant
                k <= rels@.len(),
                found is None ==> forall|j: int| 0 <= j < k ==> (#[trigger] rels@[j]).id != id,
                found matches Some(f) ==> is_first_with_id(rels@, id, f as int),
            decreases rels@.len() - k,
        {
            if found.is_none() && rels[k].id.0 == id.0 {
                found = Some(k);
            }
            k = k + 1;
        }
        match found {
            Some(f) => {
                proof {
                    lemma_first_with_id_unique(rels@, id, f as int);
                }
                let p = copy_poly(&rels[f].polynomial);
                proof {
                    lemma_degrees_fit_view(p, rels@[f as int].polynomial);
                }
                let ghost before = out@;
                out.push(p);
                proof {
                    assert(polys_view(out@) =~= polys_view(before).push(poly_view(p)));
                    assert forall|j: int| 0 <= j < out@.len() implies degrees_fit_u32(#[trigger] out@[j].terms@) by {
                        if j < before.len() {
                            assert(out@[j] == before[j]);
                        }
                    }
                }
            },
            None => {
                proof {
                    assert(!exists|c: int| is_first_with_id(rels@, id, c)) by {
                        if exists|c: int| is_first_with_id(rels@, id, c) {
                            let c = choose|c: int| is_first_with_id(rels@, id, c);
                            assert(rels@[c].id != id);
                        }
                    }
                }
            },
        }
    }
    proof {
        assert(ids@.take(ids@.len() as int) == ids@);
    }
    out
}

/// `needle` occurs in `hay` as a run of consecutive characters.
pub open spec fn text_contains(hay: Seq<char>, needle: Seq<char>) -> bool {
    exists|i: int| 0 <= i && i + needle.len() <= hay.len() && #[trigger] hay.subrange(i, i + needle.len()) == needle
}

/// Whether `needle` occurs in `hay`.
pub fn str_contains(hay: &str, needle: &str) -> (r: bool)
    ensures
        r == text_contains(hay@, needle@),
{
    let hl = hay.unicode_len();
    let nl = needle.unicode_len();
    if nl > hl {
        proof {
            assert(!text_contains(hay@, needle@));
        }
        return false;
    }
    let last = hl - nl;
    let mut i: usize = 0;
    loop
        invariant
            hl == hay@.len(),
            nl == needle@.len(),
            last == hl - nl,
            i <= last,
            forall|x: int| 0 <= x < i ==> #[trigger] hay@.subrange(x, x + nl) != needle@,
        ensures
            forall|x: int| 0 <= x <= last ==> #[trigger] hay@.subrange(x, x + nl) != needle@,
        decreases last - i,
    {
        let mut same = true;
        let mut j: usize = 0;
        assert(hay@.subrange(i as int, i as int) =~= needle@.subrange(0, 0));
        while j < nl
            invariant
                hl == hay@.len(),
                nl == needle@.len(),
                i + nl <= hl,
                j <= nl,
                same <==> hay@.subrange(i as int, i + j) == needle@.subrange(0, j as int),
            decreases nl - j,
        {
            let a = hay.get_char(i + j);
            let b = needle.get_char(j);
            proof {
                assert(hay@.subrange(i as int, i + j + 1) == hay@.subrange(i as int, i + j).push(hay@[i + j]));
                assert(needle@.subrange(0, j + 1) == needle@.subrange(0, j as int).push(needle@[j as int]));
                if hay@.subrange(i as int, i + j + 1) == needle@.subrange(0, j + 1) {
                    assert(hay@.subrange(i as int, i + j + 1)[j as int] == needle@.subrange(0, j + 1)[j as int]);
                    assert(hay@.subrange(i as int, i + j) == hay@.subrange(i as int, i + j + 1).drop_last());
                    assert(needle@.subrange(0, j as int) == needle@.subrange(0, j + 1).drop_last());
                }
            }
            same = same && a == b;
            j = j + 1;
        }
        proof {
            assert(needle@.subrange(0, nl as int) == needle@);
        }
        if same {
            return true;
        }
        if i == last {
            break;
        }
        i = i + 1;
    }
    proof {
        assert forall|x: int| 0 <= x && x + needle@.len() <= hay@.len() implies #[trigger] hay@.subrange(x, x + needle@.len()) != needle@ by {
            assert(x <= last);
        }
    }
    false
}

/// `k` is the first position of an admission of kind `kind`.
pub open spec fn is_first_of_kind(adms: Seq<KernelAdmission>, kind: KernelKind, k: int) -> bool {
    &&& 0 <= k < adms.len()
    &&& adms[k].kind == kind
    &&& forall|j: int| 0 <= j < k ==> (#[trigger] adms[j]).kind != kind
}

/// The first position of an admission of kind `kind`, if any.
pub open spec fn first_of_kind(adms: Seq<KernelAdmission>, kind: KernelKind) -> Option<int> {
    if exists|k: int| is_first_of_kind(adms, kind, k) {
        Some(choose|k: int| is_first_of_kind(adms, kind, k))
    } else {
        None
    }
}

proof fn lemma_first_of_kind_unique(adms: Seq<KernelAdmission>, kind: KernelKind, k: int)
    requires
        is_first_of_kind(adms, kind, k),
    ensures
        first_of_kind(adms, kind) == Some(k),
{
    let c = choose|c: int| is_first_of_kind(adms, kind, c);
    if c < k {
        assert(adms[c].kind != kind);
    } else if k < c {
        assert(adms[k].kind != kind);
    }
}

/// The reason of a declined or cost-prohibited admission.
pub open spec fn status_reason(s: KernelAdmissionStatus) -> Option<Seq<char>> {
    match s {
        KernelAdmissionStatus::Declined { reason } => Some(reason@),
        KernelAdmissionStatus::CostProhibited { reason, .. } => Some(reason@),
        _ => None,
    }
}

/// The first `TargetRelationSearch` admission was declined or cost-prohibited with a reason
/// that names the dense route's prohibition.
pub open spec fn dense_route_prohibited(adms: Seq<KernelAdmission>) -> bool {
    match first_of_kind(adms, KernelKind::TargetRelationSearch) {
        Some(k) => match status_reason(adms[k].status) {
            Some(r) => text_contains(r, "CostProhibitedDenseRoute"@),
            None => false,
        },
        None => false,
    }
}

/// The details of the dense route's prohibition record, in the order they are recorded.
pub open spec fn dense_route_details(block_id: BlockId, p: DenseRelationSearchPreflight) -> Seq<(Seq<char>, Seq<char>)> {
    let base = seq![
        ("kernel"@, "TargetRelationSearch"@),
        ("route"@, "DenseTotalDegree"@),
        ("decision"@, "CostProhibitedDenseRoute"@),
        ("block_id"@, decimal(block_id.0 as nat)),
        ("stage_count"@, spec_display_value(p.planned_stage_count)),
        ("materialized_stage_cap"@, decimal(p.caps.max_materialized_stages as nat)),
        ("matrix_col_cap"@, decimal(p.caps.max_matrix_cols as nat)),
        ("matrix_row_cap"@, decimal(p.caps.max_matrix_rows as nat)),
        ("memory_cap_bytes"@, decimal(p.caps.max_estimated_memory_bytes as nat)),
    ];
    let with_stage = if p.stage_estimates@.len() > 0 {
        let st = p.stage_estimates@[0];
        base + seq![
            ("first_export_degree"@, decimal(st.export_degree as nat)),
            ("estimated_matrix_cols"@, spec_display_value(st.estimated_matrix_cols)),
            ("estimated_rows"@, spec_display_value(st.estimated_rows_upper_bound)),
            ("estimated_memory_bytes"@, spec_display_value(st.estimated_memory_bytes_upper_bound)),
        ]
    } else {
        base
    };
    match p.first_prohibited_stage {
        Some(s) => with_stage.push(("first_prohibited_stage"@, decimal(s as nat))),
        None => with_stage,
    }
}

/// `d` records the dense route's prohibition for block `block_id` with preflight `p`.
pub open spec fn is_dense_route_record(d: DiagnosticRecord, block_id: BlockId, p: DenseRelationSearchPreflight) -> bool {
    &&& d.name@ == "CostProhibitedDenseRoute"@
    &&& d.message@ == spec_decline_reason(p)
    &&& d.stage matches Some(st) && st.0@ == "PlanProjectionMessages"@
    &&& details_view(d.details@) == dense_route_details(block_id, p)
}

/// The context is the same but for its diagnostics.
pub open spec fn same_but_diagnostics(a: SolverContext, b: SolverContext) -> bool {
    &&& a.options == b.options
    &&& a.id_counter == b.id_counter
    &&& a.hash_config == b.hash_config
    &&& a.resource_meter == b.resource_meter
    &&& a.active_route_budget == b.active_route_budget
}

/// The declined or cost-prohibited reason of the first `TargetRelationSearch` admission.
fn target_relation_search_reason(admissions: &[KernelAdmission]) -> (r: Option<&String>)
    ensures
        match first_of_kind(admissions@, KernelKind::TargetRelationSearch) {
            Some(k) => match status_reason(admissions@[k].status) {
                Some(t) => r matches Some(s) && s@ == t,
                None => r is None,
            },
            None => r is None,
        },
{
    let mut i: usize = 0;
    while i < admissions.len()
        invariant
            i <= admissions@.len(),
            forall|j: int| 0 <= j < i ==> (#[trigger] admissions@[j]).kind != KernelKind::TargetRelationSearch,
        decreases admissions@.len() - i,
    {
        if admissions[i].kind == KernelKind::TargetRelationSearch {
            proof {
                lemma_first_of_kind_unique(admissions@, KernelKind::TargetRelationSearch, i as int);
            }
            return match &admissions[i].status {
                KernelAdmissionStatus::Declined { reason } => Some(reason),
                KernelAdmissionStatus::CostProhibited { reason, .. } => Some(reason),
                _ => None,
            };
        }
        i = i + 1;
    }
    proof {
        if exists|c: int| is_first_of_kind(admissions@, KernelKind::TargetRelationSearch, c) {
            let c = choose|c: int| is_first_of_kind(admissions@, KernelKind::TargetRelationSearch, c);
            assert(admissions@[c].kind != KernelKind::TargetRelationSearch);
        }
    }
    None
}

/// When the first `TargetRelationSearch` admission was refused for the dense route's
/// prohibition, records why: the dense preflight of the block's relations, eliminated and
/// exported variables under the context's options, its caps and its first stage. Otherwise
/// records nothing.
pub fn record_dense_relation_search_admission_diagnostics(
    block: &ProjectionBlock,
    system: &CompressedSystemQ,
    admissions: &[KernelAdmission],
    ctx: &mut SolverContext,
)
    requires
        system_degrees_fit(system.relations@),
    ensures
        same_but_diagnostics(*final(ctx), *old(ctx)),
        !dense_route_prohibited(admissions@) ==> final(ctx).diagnostics@ == old(ctx).diagnostics@,
        dense_route_prohibited(admissions@) ==> {
            &&& final(ctx).diagnostics@.len() == old(ctx).diagnostics@.len() + 1
            &&& final(ctx).diagnostics@.drop_last() == old(ctx).diagnostics@
            &&& exists|ps: Seq<SparsePolynomialQ>, p: DenseRelationSearchPreflight|
                #![trigger polys_view(ps), is_dense_route_record(final(ctx).diagnostics@.last(), block.block_id, p)]
                polys_view(ps) == block_relation_views(block.relation_ids@, system.relations@) && is_dense_preflight(
                    p,
                    ps,
                    without_exported(block.local_variables@, block.exported_variables@),
                    block.exported_variables@,
                    old(ctx).options,
                ) && is_dense_route_record(final(ctx).diagnostics@.last(), block.block_id, p)
        },
{
    let reason = match target_relation_search_reason(admissions) {
        Some(r) => r,
        None => {
            return;
        },
    };
    if !str_contains(reason.as_str(), "CostProhibitedDenseRoute") {
        return;
    }
    let relation_polys = block_relation_polys(block, system);
    let eliminated_variables = block_eliminated_variables(block);
    let preflight = estimate_dense_relation_search_schedule(
        relation_polys.as_slice(),
        eliminated_variables.as_slice(),
        block.exported_variables.as_slice(),
        &ctx.options,
    );
    let message = dense_relation_search_decline_reason(&preflight);
    let mut diagnostic = DiagnosticRecord::new(
        "CostProhibitedDenseRoute",
        message.as_str(),
        Some(StageId(String::from_str("PlanProjectionMessages"))),
    );
    diagnostic.add_detail("kernel", String::from_str("TargetRelationSearch"));
    diagnostic.add_detail("route", String::from_str("DenseTotalDegree"));
    diagnostic.add_detail("decision", String::from_str("CostProhibitedDenseRoute"));
    diagnostic.add_detail("block_id", decimal_string(block.block_id.0 as u128));
    diagnostic.add_detail("stage_count", preflight.planned_stage_count.display_value());
    diagnostic.add_detail("materialized_stage_cap", decimal_string(preflight.caps.max_materialized_stages as u128));
    diagnostic.add_detail("matrix_col_cap", decimal_string(preflight.caps.max_matrix_cols as u128));
    diagnostic.add_detail("matrix_row_cap", decimal_string(preflight.caps.max_matrix_rows as u128));
    diagnostic.add_detail("memory_cap_bytes", decimal_string(preflight.caps.max_estimated_memory_bytes as u128));
    let ghost base = details_view(diagnostic.details@);
    if preflight.stage_estimates.len() > 0 {
        let stage = &preflight.stage_estimates[0];
        diagnostic.add_detail("first_export_degree", decimal_string(stage.export_degree as u128));
        diagnostic.add_detail("estimated_matrix_cols", stage.estimated_matrix_cols.display_value());
        diagnostic.add_detail("estimated_rows", stage.estimated_rows_upper_bound.display_value());
        diagnostic.add_detail("estimated_memory_bytes", stage.estimated_memory_bytes_upper_bound.display_value());
    }
    match preflight.first_prohibited_stage {
        Some(stage) => {
            diagnostic.add_detail("first_prohibited_stage", decimal_string(stage as u128));
        },
        None => {},
    }
    proof {
        assert(details_view(diagnostic.details@) =~= dense_route_details(block.block_id, preflight));
    }
    let ghost old_diags = ctx.diagnostics@;
    ctx.diagnostics.push(diagnostic);
    proof {
        assert(ctx.diagnostics@.drop_last() =~= old_diags);
        assert(is_dense_route_record(ctx.diagnostics@.last(), block.block_id, preflight));
        assert(polys_view(relation_polys@) == block_relation_views(block.relation_ids@, system.relations@));
    }
}

/// The name of an admission status.
pub open spec fn status_label(s: KernelAdmissionStatus) -> Seq<char> {
    match s {
        KernelAdmissionStatus::Admitted => "Admitted"@,
        KernelAdmissionStatus::Declined { .. } => "Declined"@,
        KernelAdmissionStatus::CostProhibited { .. } => "CostProhibited"@,
        KernelAdmissionStatus::PlanProbeFailed { .. } => "PlanProbeFailed"@,
    }
}

pub fn admission_status_name(status: &KernelAdmissionStatus) -> (s: &'static str)
    ensures
        s@ == status_label(*status),
{
    match status {
        KernelAdmissionStatus::Admitted => "Admitted",
        KernelAdmissionStatus::Declined { .. } => "Declined",
        KernelAdmissionStatus::CostProhibited { .. } => "CostProhibited",
        KernelAdmissionStatus::PlanProbeFailed { .. } => "PlanProbeFailed",
    }
}

/// The name of a cost class, as `{:?}` prints it.
pub open spec fn cost_class_label(c: RouteCostClass) -> Seq<char> {
    match c {
        RouteCostClass::PreferredCompact => "PreferredCompact"@,
        RouteCostClass::Feasible => "Feasible"@,
        RouteCostClass::ExpensiveButAllowed => "ExpensiveButAllowed"@,
        RouteCostClass::CostProhibited => "CostProhibited"@,
    }
}

fn cost_class_name(c: RouteCostClass) -> (s: &'static str)
    ensures
        s@ == cost_class_label(c),
{
    match c {
        RouteCostClass::PreferredCompact => "PreferredCompact",
        RouteCostClass::Feasible => "Feasible",
        RouteCostClass::ExpensiveButAllowed => "ExpensiveButAllowed",
        RouteCostClass::CostProhibited => "CostProhibited",
    }
}

/// `true` or `false`, as `to_string` prints a boolean.
pub open spec fn bool_text(b: bool) -> Seq<char> {
    if b {
        "true"@
    } else {
        "false"@
    }
}

fn bool_string(b: bool) -> (s: String)
    ensures
        s@ == bool_text(b),
{
    if b {
        String::from_str("true")
    } else {
        String::from_str("false")
    }
}

/// The `{:?}` rendering of a digest.
pub fn hash_debug_string(h: &crate::types::hash::Hash) -> (s: String)
    ensures
        s@ == hash_debug(*h),
{
    let mut s = String::new();
    push_hash_debug(&mut s, h);
    assert(s@ =~= hash_debug(*h));
    s
}

/// `k` is the first position of a cost estimate for kernel `kind`.
pub open spec fn is_first_cost(costs: Seq<KernelCostEstimate>, kind: KernelKind, k: int) -> bool {
    &&& 0 <= k < costs.len()
    &&& costs[k].kernel_kind == kind
    &&& forall|j: int| 0 <= j < k ==> (#[trigger] costs[j]).kernel_kind != kind
}

/// The first cost estimate for kernel `kind`, if any.
pub open spec fn first_cost(costs: Seq<KernelCostEstimate>, kind: KernelKind) -> Option<KernelCostEstimate> {
    if exists|k: int| is_first_cost(costs, kind, k) {
        Some(costs[choose|k: int| is_first_cost(costs, kind, k)])
    } else {
        None
    }
}

fn find_cost(costs: &[KernelCostEstimate], kind: KernelKind) -> (r: Option<&KernelCostEstimate>)
    ensures
        match first_cost(costs@, kind) {
            Some(c) => r matches Some(x) && *x == c,
            None => r is None,
        },
{
    let mut i: usize = 0;
    while i < costs.len()
        invariant
            i <= costs@.len(),
            forall|j: int| 0 <= j < i ==> (#[trigger] costs@[j]).kernel_kind != kind,
        decreases costs@.len() - i,
    {
        if costs[i].kernel_kind == kind {
            proof {
                assert(is_first_cost(costs@, kind, i as int));
                let c = choose|c: int| is_first_cost(costs@, kind, c);
                if c < i {
                    assert(costs@[c].kernel_kind != kind);
                } else if i < c {
                    assert(costs@[i as int].kernel_kind != kind);
                }
            }
            return Some(&costs[i]);
        }
        i = i + 1;
    }
    proof {
        if exists|c: int| is_first_cost(costs@, kind, c) {
            let c = choose|c: int| is_first_cost(costs@, kind, c);
            assert(costs@[c].kernel_kind != kind);
        }
    }
    None
}

/// The message of a route record: kernel, block and admission status.
pub open spec fn route_message(a: KernelAdmission) -> Seq<char> {
    "kernel="@ + kernel_kind_label(a.kind) + " block_id="@ + decimal(a.block_id.0 as nat) + " admission_status="@
        + status_label(a.status)
}

/// The details an admission's execution plan adds.
pub open spec fn plan_details(ds: Seq<(Seq<char>, Seq<char>)>, plan: KernelExecutionPlan) -> Seq<(Seq<char>, Seq<char>)> {
    let e = plan.algebraic_work_estimate;
    let b = plan.route_budget;
    let d1 = detail_set(ds, "plan_hash"@, hash_debug(plan.plan_hash));
    let d2 = detail_set(d1, "algebraic_work_estimate_hash"@, hash_debug(e.estimate_hash));
    let d3 = detail_set(d2, "route_budget_hash"@, hash_debug(b.budget_hash));
    let d4 = detail_set(d3, "predicted_work_units"@, decimal(e.predicted_work_units.0 as nat));
    let d5 = match e.predicted_intermediate_terms {
        Some(t) => detail_set(d4, "predicted_intermediate_terms"@, decimal(t.0 as nat)),
        None => d4,
    };
    let d6 = match e.predicted_output_terms {
        Some(t) => detail_set(d5, "predicted_output_terms"@, decimal(t.0 as nat)),
        None => d5,
    };
    let d7 = detail_set(d6, "route_budget_max_work_units"@, decimal(b.max_work_units.0 as nat));
    let d8 = detail_set(d7, "route_budget_max_intermediate_terms"@, decimal(b.max_intermediate_terms as nat));
    detail_set(d8, "route_budget_max_output_terms"@, decimal(b.max_output_terms as nat))
}

/// The details a cost estimate adds.
pub open spec fn cost_details(ds: Seq<(Seq<char>, Seq<char>)>, c: KernelCostEstimate) -> Seq<(Seq<char>, Seq<char>)> {
    let d1 = detail_set(ds, "cost_class"@, cost_class_label(c.cost_class));
    let d2 = detail_set(d1, "estimated_rows"@, decimal(c.matrix_rows as nat));
    let d3 = detail_set(d2, "estimated_cols"@, decimal(c.matrix_cols as nat));
    let d4 = detail_set(d3, "estimated_rank"@, decimal(c.quotient_rank_estimate as nat));
    let d5 = detail_set(d4, "cost_estimate_hash"@, hash_debug(c.estimate_hash));
    detail_set(d5, "dominant_work_estimate_hash"@, hash_debug(c.algebraic_work_estimate.estimate_hash))
}

/// The details an admission's status adds; a cost prohibition overrides the cost class.
pub open spec fn status_details(ds: Seq<(Seq<char>, Seq<char>)>, s: KernelAdmissionStatus) -> Seq<(Seq<char>, Seq<char>)> {
    match s {
        KernelAdmissionStatus::Declined { reason } => detail_set(ds, "decline_reason"@, reason@),
        KernelAdmissionStatus::CostProhibited { reason, estimate_hash } => detail_set(
            detail_set(detail_set(ds, "decline_reason"@, reason@), "preflight_estimate_hash"@, hash_debug(estimate_hash)),
            "cost_class"@,
            "CostProhibited"@,
        ),
        KernelAdmissionStatus::PlanProbeFailed { reason, constructed_object_hash } => detail_set(
            detail_set(ds, "decline_reason"@, reason@),
            "constructed_object_hash"@,
            hash_debug(constructed_object_hash),
        ),
        KernelAdmissionStatus::Admitted => ds,
    }
}

/// The first prohibition reason of a dense preflight, as `first_prohibition_reason` gives it.
pub open spec fn first_prohibition_text(p: DenseRelationSearchPreflight) -> Option<Seq<char>> {
    match first_reason_index(p.stage_estimates@) {
        Some(i) => match p.stage_estimates@[i].prohibition_reason {
            Some(t) => Some(t@),
            None => None,
        },
        None => if !p.materialization_allowed {
            Some("stage count exceeds dense TargetRelationSearch materialization cap"@)
        } else {
            None
        },
    }
}

/// The details the dense preflight adds for `TargetRelationSearch`.
pub open spec fn dense_preflight_details(ds: Seq<(Seq<char>, Seq<char>)>, p: DenseRelationSearchPreflight) -> Seq<(Seq<char>, Seq<char>)> {
    let d1 = detail_set(ds, "preflight_estimate_hash"@, hash_debug(p.preflight_hash));
    let d2 = detail_set(d1, "planned_stage_count"@, spec_display_value(p.planned_stage_count));
    let d3 = detail_set(d2, "materialization_allowed"@, bool_text(p.materialization_allowed));
    match first_prohibition_text(p) {
        Some(r) => detail_set(d3, "preflight_decline_reason"@, r),
        None => d3,
    }
}

/// All details of the route record of admission `a`, with its cost estimate and, for
/// `TargetRelationSearch`, the dense preflight.
pub open spec fn route_details(
    a: KernelAdmission,
    cost: Option<KernelCostEstimate>,
    dense: Option<DenseRelationSearchPreflight>,
) -> Seq<(Seq<char>, Seq<char>)> {
    let d1 = detail_set(Seq::empty(), "kernel_kind"@, kernel_kind_label(a.kind));
    let d2 = detail_set(d1, "block_id"@, decimal(a.block_id.0 as nat));
    let d3 = detail_set(d2, "admission_status"@, status_label(a.status));
    let d4 = detail_set(d3, "admission_hash"@, hash_debug(a.admission_hash));
    let d5 = detail_set(d4, "exported_variables"@, decimal(a.exported_variables@.len()));
    let d6 = detail_set(d5, "eliminated_variables"@, decimal(a.eliminated_variables@.len()));
    let d7 = match a.execution_plan {
        Some(plan) => plan_details(d6, plan),
        None => d6,
    };
    let d8 = match cost {
        Some(c) => cost_details(d7, c),
        None => d7,
    };
    let d9 = status_details(d8, a.status);
    match dense {
        Some(p) => dense_preflight_details(d9, p),
        None => d9,
    }
}

/// `d` is the route record of admission `a`.
pub open spec fn is_route_record(
    d: DiagnosticRecord,
    a: KernelAdmission,
    cost: Option<KernelCostEstimate>,
    dense: Option<DenseRelationSearchPreflight>,
) -> bool {
    &&& d.name@ == "KernelRouteTrace"@
    &&& d.message@ == route_message(a)
    &&& d.stage matches Some(st) && st.0@ == "PlanProjectionMessages"@
    &&& details_view(d.details@) == route_details(a, cost, dense)
}

/// `d` is the route record of admission `a` of `block`: for `TargetRelationSearch` with the
/// dense preflight of the block's relations and variables under `options`.
pub open spec fn is_block_route_record(
    d: DiagnosticRecord,
    a: KernelAdmission,
    costs: Seq<KernelCostEstimate>,
    block: ProjectionBlock,
    system: CompressedSystemQ,
    options: crate::solver::options::SolverOptions,
) -> bool {
    if a.kind == KernelKind::TargetRelationSearch {
        exists|ps: Seq<SparsePolynomialQ>, p: DenseRelationSearchPreflight|
            #![trigger polys_view(ps), is_route_record(d, a, first_cost(costs, a.kind), Some(p))]
            polys_view(ps) == block_relation_views(block.relation_ids@, system.relations@) && is_dense_preflight(
                p,
                ps,
                without_exported(block.local_variables@, block.exported_variables@),
                block.exported_variables@,
                options,
            ) && is_route_record(d, a, first_cost(costs, a.kind), Some(p))
    } else {
        is_route_record(d, a, first_cost(costs, a.kind), None)
    }
}

/// The record's name, message and stage are kept.
pub open spec fn same_heading(a: DiagnosticRecord, b: DiagnosticRecord) -> bool {
    a.name == b.name && a.message == b.message && a.stage == b.stage
}

fn add_plan_details(d: &mut DiagnosticRecord, plan: &KernelExecutionPlan)
    ensures
        same_heading(*final(d), *old(d)),
        details_view(final(d).details@) == plan_details(details_view(old(d).details@), *plan),
{
    let e = &plan.algebraic_work_estimate;
    let b = &plan.route_budget;
    d.set_detail("plan_hash", hash_debug_string(&plan.plan_hash));
    d.set_detail("algebraic_work_estimate_hash", hash_debug_string(&e.estimate_hash));
    d.set_detail("route_budget_hash", hash_debug_string(&b.budget_hash));
    d.set_detail("predicted_work_units", decimal_string(e.predicted_work_units.0));
    match e.predicted_intermediate_terms {
        Some(t) => d.set_detail("predicted_intermediate_terms", decimal_string(t.0)),
        None => {},
    }
    match e.predicted_output_terms {
        Some(t) => d.set_detail("predicted_output_terms", decimal_string(t.0)),
        None => {},
    }
    d.set_detail("route_budget_max_work_units", decimal_string(b.max_work_units.0));
    d.set_detail("route_budget_max_intermediate_terms", decimal_string(b.max_intermediate_terms as u128));
    d.set_detail("route_budget_max_output_terms", decimal_string(b.max_output_terms as u128));
}

fn add_cost_details(d: &mut DiagnosticRecord, c: &KernelCostEstimate)
    ensures
        same_heading(*final(d), *old(d)),
        details_view(final(d).details@) == cost_details(details_view(old(d).details@), *c),
{
    d.set_detail("cost_class", String::from_str(cost_class_name(c.cost_class)));
    d.set_detail("estimated_rows", decimal_string(c.matrix_rows as u128));
    d.set_detail("estimated_cols", decimal_string(c.matrix_cols as u128));
    d.set_detail("estimated_rank", decimal_string(c.quotient_rank_estimate as u128));
    d.set_detail("cost_estimate_hash", hash_debug_string(&c.estimate_hash));
    d.set_detail("dominant_work_estimate_hash", hash_debug_string(&c.algebraic_work_estimate.estimate_hash));
}

fn add_status_details(d: &mut DiagnosticRecord, status: &KernelAdmissionStatus)
    ensures
        same_heading(*final(d), *old(d)),
        details_view(final(d).details@) == status_details(details_view(old(d).details@), *status),
{
    match status {
        KernelAdmissionStatus::Declined { reason } => {
            d.set_detail("decline_reason", reason.clone());
        },
        KernelAdmissionStatus::CostProhibited { reason, estimate_hash } => {
            d.set_detail("decline_reason", reason.clone());
            d.set_detail("preflight_estimate_hash", hash_debug_string(estimate_hash));
            d.set_detail("cost_class", String::from_str("CostProhibited"));
        },
        KernelAdmissionStatus::PlanProbeFailed { reason, constructed_object_hash } => {
            d.set_detail("decline_reason", reason.clone());
            d.set_detail("constructed_object_hash", hash_debug_string(constructed_object_hash));
        },
        KernelAdmissionStatus::Admitted => {},
    }
}

fn add_dense_preflight_details(d: &mut DiagnosticRecord, p: &DenseRelationSearchPreflight)
    ensures
        same_heading(*final(d), *old(d)),
        details_view(final(d).details@) == dense_preflight_details(details_view(old(d).details@), *p),
{
    d.set_detail("preflight_estimate_hash", hash_debug_string(&p.preflight_hash));
    d.set_detail("planned_stage_count", p.planned_stage_count.display_value());
    d.set_detail("materialization_allowed", bool_string(p.materialization_allowed));
    match p.first_prohibition_reason() {
        Some(reason) => d.set_detail("preflight_decline_reason", String::from_str(reason)),
        None => {},
    }
}

/// The route record of one admission.
fn route_record(
    block: &ProjectionBlock,
    system: &CompressedSystemQ,
    admission: &KernelAdmission,
    cost_estimates: &[KernelCostEstimate],
    options: &crate::solver::options::SolverOptions,
) -> (d: DiagnosticRecord)
    requires
        system_degrees_fit(system.relations@),
    ensures
        is_block_route_record(d, *admission, cost_estimates@, *block, *system, *options),
{
    let mut message = String::from_str("kernel=");
    message.append(kernel_kind_name(admission.kind));
    message.append(" block_id=");
    message.append(decimal_string(admission.block_id.0 as u128).as_str());
    message.append(" admission_status=");
    message.append(admission_status_name(&admission.status));
    let mut d = DiagnosticRecord::new(
        "KernelRouteTrace",
        message.as_str(),
        Some(StageId(String::from_str("PlanProjectionMessages"))),
    );
    let ghost heading = d;
    assert(details_view(d.details@) =~= Seq::<(Seq<char>, Seq<char>)>::empty());
    d.set_detail("kernel_kind", String::from_str(kernel_kind_name(admission.kind)));
    d.set_detail("block_id", decimal_string(admission.block_id.0 as u128));
    d.set_detail("admission_status", String::from_str(admission_status_name(&admission.status)));
    d.set_detail("admission_hash", hash_debug_string(&admission.admission_hash));
    d.set_detail("exported_variables", decimal_string(admission.exported_variables.len() as u128));
    d.set_detail("eliminated_variables", decimal_string(admission.eliminated_variables.len() as u128));
    let ghost v6 = details_view(d.details@);
    let ghost a = *admission;
    assert(v6 == {
        let d1 = detail_set(Seq::empty(), "kernel_kind"@, kernel_kind_label(a.kind));
        let d2 = detail_set(d1, "block_id"@, decimal(a.block_id.0 as nat));
        let d3 = detail_set(d2, "admission_status"@, status_label(a.status));
        let d4 = detail_set(d3, "admission_hash"@, hash_debug(a.admission_hash));
        let d5 = detail_set(d4, "exported_variables"@, decimal(a.exported_variables@.len()));
        detail_set(d5, "eliminated_variables"@, decimal(a.eliminated_variables@.len()))
    });
    match &admission.execution_plan {
        Some(plan) => add_plan_details(&mut d, plan),
        None => {},
    }
    let ghost v7 = details_view(d.details@);
    assert(v7 == match a.execution_plan {
        Some(plan) => plan_details(v6, plan),
        None => v6,
    });
    let cost = find_cost(cost_estimates, admission.kind);
    match cost {
        Some(c) => add_cost_details(&mut d, c),
        None => {},
    }
    let ghost v8 = details_view(d.details@);
    assert(v8 == match first_cost(cost_estimates@, a.kind) {
        Some(c) => cost_details(v7, c),
        None => v7,
    });
    add_status_details(&mut d, &admission.status);
    let ghost v9 = details_view(d.details@);
    assert(v9 == status_details(v8, a.status));
    assert(route_details(a, first_cost(cost_estimates@, a.kind), None) == v9);
    assert(same_heading(d, heading));
    if admission.kind == KernelKind::TargetRelationSearch {
        let relation_polys = block_relation_polys(block, system);
        let eliminated_variables = block_eliminated_variables(block);
        let preflight = estimate_dense_relation_search_schedule(
            relation_polys.as_slice(),
            eliminated_variables.as_slice(),
            block.exported_variables.as_slice(),
            options,
        );
        add_dense_preflight_details(&mut d, &preflight);
        proof {
            assert(message@ =~= route_message(*admission));
            assert(details_view(d.details@) == route_details(*admission, first_cost(cost_estimates@, admission.kind), Some(preflight)));
            assert(is_route_record(d, *admission, first_cost(cost_estimates@, admission.kind), Some(preflight)));
            assert(polys_view(relation_polys@) == block_relation_views(block.relation_ids@, system.relations@));
        }
    } else {
        proof {
            assert(message@ =~= route_message(*admission));
        }
    }
    d
}

/// Records, for each admission in order, a route trace: its kernel, block, status, hashes,
/// plan and budget figures, its cost estimate (the first one for its kernel) and, for
/// `TargetRelationSearch`, the dense preflight of the block.
pub fn record_kernel_route_admission_diagnostics(
    block: &ProjectionBlock,
    system: &CompressedSystemQ,
    admissions: &[KernelAdmission],
    cost_estimates: &[KernelCostEstimate],
    ctx: &mut SolverContext,
)
    requires
        system_degrees_fit(system.relations@),
    ensures
        same_but_diagnostics(*final(ctx), *old(ctx)),
        final(ctx).diagnostics@.len() == old(ctx).diagnostics@.len() + admissions@.len(),
        final(ctx).diagnostics@.take(old(ctx).diagnostics@.len() as int) == old(ctx).diagnostics@,
        forall|i: int|
            0 <= i < admissions@.len() ==> is_block_route_record(
                #[trigger] final(ctx).diagnostics@[old(ctx).diagnostics@.len() + i],
                admissions@[i],
                cost_estimates@,
                *block,
                *system,
                old(ctx).options,
            ),
{
    let ghost start = ctx.diagnostics@;
    let n = admissions.len();
    for i in 0..n
        invariant
            n == admissions@.len(),
            system_degrees_fit(system.relations@),
            same_but_diagnostics(*ctx, *old(ctx)),
            start == old(ctx).diagnostics@,
            ctx.diagnostics@.len() == start.len() + i,
            ctx.diagnostics@.take(start.len() as int) == start,
            forall|j: int|
                0 <= j < i ==> is_block_route_record(
                    #[trigger] ctx.diagnostics@[start.len() + j],
                    admissions@[j],
                    cost_estimates@,
                    *block,
                    *system,
                    old(ctx).options,
                ),
    {
        let d = route_record(block, system, &admissions[i], cost_estimates, &ctx.options);
        let ghost before = ctx.diagnostics@;
        ctx.diagnostics.push(d);
        proof {
            assert(ctx.diagnostics@.take(start.len() as int) =~= before.take(start.len() as int));
            assert forall|j: int| 0 <= j < i + 1 implies is_block_route_record(
                #[trigger] ctx.diagnostics@[start.len() + j],
                admissions@[j],
                cost_estimates@,
                *block,
                *system,
                old(ctx).options,
            ) by {
                if j < i {
                    assert(ctx.diagnostics@[start.len() + j] == before[start.len() + j]);
                }
            }
        }
    }
}

} // verus!
