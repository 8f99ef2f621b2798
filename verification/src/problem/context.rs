//! Solver state threaded through a solve: options, identifier counter, diagnostics and the
//! route budget of the kernel that is running.
use vstd::prelude::*;
use vstd::string::StringExecFns;

use crate::result::diagnostics::DiagnosticRecord;
use crate::result::status::{FailureKind, SolverError, SolverErrorKind, StageId};
use crate::solver::options::SolverOptions;
use crate::types::arith::{sat_add_usize, sat_add_u128};
use crate::types::hash;
use crate::types::ids::{BlockId, IdCounter};
use crate::types::text::{decimal, hash_debug, push_decimal, push_hash_debug};

verus! {

#[derive(Debug, Clone)]
pub struct SolverContext {
    pub options: SolverOptions,
    pub id_counter: IdCounter,
    pub hash_config: HashConfig,
    pub resource_meter: ResourceMeter,
    pub diagnostics: Vec<DiagnosticRecord>,
    pub active_route_budget: Option<ActiveRouteBudget>,
}

#[derive(Debug, Clone)]
pub struct HashConfig {
    pub domain_separator: String,
}

impl Default for HashConfig {
    fn default() -> (c: Self)
        ensures
            c.domain_separator@ == Seq::<char>::empty(),
    {
        HashConfig { domain_separator: String::new() }
    }
}

#[derive(Debug, Clone)]
pub struct ResourceMeter {
    pub observed_memory_bytes: Option<u64>,
}

impl Default for ResourceMeter {
    fn default() -> (m: Self)
        ensures
            m.observed_memory_bytes is None,
    {
        ResourceMeter { observed_memory_bytes: None }
    }
}

/// The budget of the route that is running, with what it has consumed so far.
#[derive(Debug, Clone, PartialEq, Eq)]
pub struct ActiveRouteBudget {
    pub block_id: BlockId,
    pub kernel_kind: String,
    pub plan_hash: hash::Hash,
    pub route_budget_hash: hash::Hash,
    pub algebraic_work_estimate_hash: hash::Hash,
    pub max_elapsed_steps: usize,
    pub max_work_units: u128,
    pub consumed_steps: usize,
    pub consumed_work_units: u128,
}

/// A fresh context: counter at zero, default hashing and metering, no diagnostics, no route.
pub open spec fn is_fresh_context(ctx: SolverContext, options: SolverOptions) -> bool {
    &&& ctx.options == options
    &&& ctx.id_counter.next_value() == 0
    &&& ctx.hash_config.domain_separator@ == Seq::<char>::empty()
    &&& ctx.resource_meter.observed_memory_bytes is None
    &&& ctx.diagnostics@ == Seq::<DiagnosticRecord>::empty()
    &&& ctx.active_route_budget is None
}

impl SolverContext {
    pub fn new(options: SolverOptions) -> (ctx: SolverContext)
        ensures
            is_fresh_context(ctx, options),
    {
        SolverContext {
            options,
            id_counter: IdCounter::new(0),
            hash_config: HashConfig::default(),
            resource_meter: ResourceMeter::default(),
            diagnostics: Vec::new(),
            active_route_budget: None,
        }
    }
}

pub fn new_context(options: SolverOptions) -> (ctx: SolverContext)
    ensures
        is_fresh_context(ctx, options),
{
    SolverContext::new(options)
}

/// Starts metering a route against `budget`.
pub fn begin_route_budget(ctx: &mut SolverContext, budget: ActiveRouteBudget)
    ensures
        final(ctx).active_route_budget == Some(budget),
        final(ctx).options == old(ctx).options,
        final(ctx).id_counter == old(ctx).id_counter,
        final(ctx).diagnostics@ == old(ctx).diagnostics@,
{
    ctx.active_route_budget = Some(budget);
}

/// Stops metering and hands back the budget with what was consumed.
pub fn end_route_budget(ctx: &mut SolverContext) -> (b: Option<ActiveRouteBudget>)
    ensures
        b == old(ctx).active_route_budget,
        final(ctx).active_route_budget is None,
        final(ctx).options == old(ctx).options,
        final(ctx).id_counter == old(ctx).id_counter,
        final(ctx).diagnostics@ == old(ctx).diagnostics@,
{
    ctx.active_route_budget.take()
}

/// The budget after one more checkpoint that charges `work_units` (at least one).
pub open spec fn charged(a: ActiveRouteBudget, work_units: u128) -> ActiveRouteBudget {
    ActiveRouteBudget {
        consumed_steps: if a.consumed_steps + 1 > usize::MAX {
            usize::MAX
        } else {
            (a.consumed_steps + 1) as usize
        },
        consumed_work_units: if a.consumed_work_units + (if work_units > 1 { work_units } else { 1 })
            > u128::MAX {
            u128::MAX
        } else {
            (a.consumed_work_units + (if work_units > 1 { work_units } else { 1 })) as u128
        },
        ..a
    }
}

/// The budget has run out: more steps or more work than it allows.
pub open spec fn over_budget(a: ActiveRouteBudget) -> bool {
    a.consumed_steps > a.max_elapsed_steps || a.consumed_work_units > a.max_work_units
}

/// The stage text of the failure a checkpoint reports when the budget has run out.
pub open spec fn budget_exceeded_message(a: ActiveRouteBudget, stage: Seq<char>) -> Seq<char> {
    "RouteBudget::"@ + a.kernel_kind@ + "::cooperative checkpoint exceeded route budget::"@ + stage
        + "; plan_hash="@ + hash_debug(a.plan_hash) + "; budget_hash="@ + hash_debug(a.route_budget_hash)
        + "; estimate_hash="@ + hash_debug(a.algebraic_work_estimate_hash) + "; consumed_steps="@
        + decimal(a.consumed_steps as nat) + "; max_elapsed_steps="@ + decimal(a.max_elapsed_steps as nat)
        + "; consumed_work_units="@ + decimal(a.consumed_work_units as nat) + "; max_work_units="@
        + decimal(a.max_work_units as nat)
}

/// The failure a checkpoint reports for an exhausted budget `a` at `stage`.
pub open spec fn is_budget_failure(e: SolverError, a: ActiveRouteBudget, stage: Seq<char>) -> bool {
    &&& e.target is None
    &&& e.kind matches SolverErrorKind::Failure(FailureKind::FiniteResourceFailure {
        stage: s,
        block_id,
        matrix_rows,
        matrix_cols,
        matrix_density,
        quotient_rank_estimate,
        coefficient_height_bits,
        memory_bytes,
    })
    &&& s.0@ == budget_exceeded_message(a, stage)
    &&& block_id == Some(a.block_id)
    &&& matrix_rows is None && matrix_cols is None && matrix_density is None
    &&& quotient_rank_estimate is None && coefficient_height_bits is None
    &&& memory_bytes == Some(if a.max_work_units > u64::MAX { u64::MAX } else { a.max_work_units as u64 })
}

fn budget_exceeded_text(a: &ActiveRouteBudget, stage: &StageId) -> (s: String)
    ensures
        s@ == budget_exceeded_message(*a, stage.0@),
{
    let mut s = String::new();
    s.append("RouteBudget::");
    s.append(a.kernel_kind.as_str());
    s.append("::cooperative checkpoint exceeded route budget::");
    s.append(stage.0.as_str());
    s.append("; plan_hash=");
    push_hash_debug(&mut s, &a.plan_hash);
    s.append("; budget_hash=");
    push_hash_debug(&mut s, &a.route_budget_hash);
    s.append("; estimate_hash=");
    push_hash_debug(&mut s, &a.algebraic_work_estimate_hash);
    s.append("; consumed_steps=");
    push_decimal(&mut s, a.consumed_steps as u128);
    s.append("; max_elapsed_steps=");
    push_decimal(&mut s, a.max_elapsed_steps as u128);
    s.append("; consumed_work_units=");
    push_decimal(&mut s, a.consumed_work_units);
    s.append("; max_work_units=");
    push_decimal(&mut s, a.max_work_units);
    assert(s@ =~= budget_exceeded_message(*a, stage.0@));
    s
}

/// A cooperative checkpoint that charges `work_units` (at least one) and a step to the
/// running route, failing once the route has run over its budget. Without a running route it
/// does nothing.
pub fn check_resource_work(ctx: &mut SolverContext, stage: StageId, work_units: u128) -> (r: Result<(), SolverError>)
    ensures
        final(ctx).options == old(ctx).options,
        final(ctx).id_counter == old(ctx).id_counter,
        final(ctx).diagnostics@ == old(ctx).diagnostics@,
        final(ctx).hash_config == old(ctx).hash_config,
        final(ctx).resource_meter == old(ctx).resource_meter,
        old(ctx).active_route_budget is None ==> r is Ok && final(ctx).active_route_budget is None,
        old(ctx).active_route_budget matches Some(a) ==> {
            &&& final(ctx).active_route_budget == Some(charged(a, work_units))
            &&& (r is Err <==> over_budget(charged(a, work_units)))
            &&& (r matches Err(e) ==> is_budget_failure(e, charged(a, work_units), stage.0@))
        },
{
    match ctx.active_route_budget.take() {
        None => Ok(()),
        Some(mut active) => {
            active.consumed_steps = sat_add_usize(active.consumed_steps, 1);
            let charge = if work_units > 1 {
                work_units
            } else {
                1
            };
            active.consumed_work_units = sat_add_u128(active.consumed_work_units, charge);
            let exceeded = active.consumed_steps > active.max_elapsed_steps
                || active.consumed_work_units > active.max_work_units;
            let mut result: Result<(), SolverError> = Ok(());
            if exceeded {
                let text = budget_exceeded_text(&active, &stage);
                let memory = if active.max_work_units > u64::MAX as u128 {
                    u64::MAX
                } else {
                    active.max_work_units as u64
                };
                result = Err(SolverError {
                    target: None,
                    kind: SolverErrorKind::Failure(FailureKind::FiniteResourceFailure {
                        stage: StageId(text),
                        block_id: Some(active.block_id),
                        matrix_rows: None,
                        matrix_cols: None,
                        matrix_density: None,
                        quotient_rank_estimate: None,
                        coefficient_height_bits: None,
                        memory_bytes: Some(memory),
                    }),
                });
            }
            ctx.active_route_budget = Some(active);
            result
        },
    }
}

/// A checkpoint charging one unit of work.
pub fn check_resource(ctx: &mut SolverContext, stage: StageId) -> (r: Result<(), SolverError>)
    ensures
        final(ctx).options == old(ctx).options,
        final(ctx).id_counter == old(ctx).id_counter,
        final(ctx).diagnostics@ == old(ctx).diagnostics@,
        final(ctx).hash_config == old(ctx).hash_config,
        final(ctx).resource_meter == old(ctx).resource_meter,
        old(ctx).active_route_budget is None ==> r is Ok && final(ctx).active_route_budget is None,
        old(ctx).active_route_budget matches Some(a) ==> {
            &&& final(ctx).active_route_budget == Some(charged(a, 1))
            &&& (r is Err <==> over_budget(charged(a, 1)))
            &&& (r matches Err(e) ==> is_budget_failure(e, charged(a, 1), stage.0@))
        },
{
    check_resource_work(ctx, stage, 1)
}

/// Records a diagnostic.
pub fn push_diagnostic(ctx: &mut SolverContext, diag: DiagnosticRecord)
    ensures
        final(ctx).diagnostics@ == old(ctx).diagnostics@.push(diag),
        final(ctx).options == old(ctx).options,
        final(ctx).id_counter == old(ctx).id_counter,
        final(ctx).active_route_budget == old(ctx).active_route_budget,
{
    ctx.diagnostics.push(diag);
}

/// Once a route has run over its budget, every further checkpoint finds it still over
/// budget: consumption only grows.
pub proof fn lemma_over_budget_persists(a: ActiveRouteBudget, work_units: u128)
    requires
        over_budget(a),
    ensures
        over_budget(charged(a, work_units)),
        charged(a, work_units).consumed_steps >= a.consumed_steps,
        charged(a, work_units).consumed_work_units >= a.consumed_work_units,
{
}

} // verus!
