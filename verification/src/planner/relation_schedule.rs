//! Preflight estimates and staged schedules for dense target relation search.
use vstd::prelude::*;
use vstd::string::{StringExecFns, StringSliceAdditionalSpecFns};

use crate::solver::options::SolverOptions;
use crate::types::arith::{imax, imin};
use crate::types::bytes::{be_bytes, u128_be, u64_be, usize_be};
use crate::types::chunks::{
    hash_chunks, push_chunk, push_hash_chunks, push_variable_chunks, variable_chunks,
};
use crate::types::hash::{self, chunk_views, hash_sequence, hash_to_vec, spec_hash_sequence};
use crate::types::ids::VariableId;
use crate::types::text::{decimal, decimal_string};

verus! {

pub const DEFAULT_DENSE_TRS_MAX_EXPORT_COLS: usize = 32_768;

pub const DEFAULT_DENSE_TRS_MAX_MULTIPLIER_COLS: usize = 65_536;

pub const DEFAULT_DENSE_TRS_MAX_MATRIX_ROWS: usize = 65_536;

pub const DEFAULT_DENSE_TRS_MAX_MATRIX_COLS: usize = 65_536;

pub const DEFAULT_DENSE_TRS_MAX_ESTIMATED_MEMORY_BYTES: u64 = 268435456;

pub const DEFAULT_DENSE_TRS_MAX_MATERIALIZED_STAGES: usize = 16;

/// A count that is either exact or known to have overflowed `u128`.
#[derive(Debug, Clone, Copy, PartialEq, Eq, Structural)]
pub struct SaturatingCount {
    pub value: Option<u128>,
    pub saturated: bool,
}

impl SaturatingCount {
    /// The count's exact value, when it has one.
    pub open spec fn exact_value(self) -> Option<u128> {
        if self.saturated {
            None
        } else {
            self.value
        }
    }

    pub fn exact(value: u128) -> (r: Self)
        ensures
            r.value == Some(value),
            !r.saturated,
    {
        Self { value: Some(value), saturated: false }
    }

    pub fn saturated() -> (r: Self)
        ensures
            r.value is None,
            r.saturated,
    {
        Self { value: None, saturated: true }
    }

    /// Exact sum when both are exact and it fits; saturated otherwise.
    pub fn add(self, rhs: Self) -> (r: Self)
        ensures
            r == count_add(self, rhs),
    {
        match (self.value, rhs.value) {
            (Some(lhs), Some(rhs_value)) => {
                if !self.saturated && !rhs.saturated {
                    match lhs.checked_add(rhs_value) {
                        Some(v) => Self::exact(v),
                        None => Self::saturated(),
                    }
                } else {
                    Self::saturated()
                }
            },
            _ => Self::saturated(),
        }
    }

    /// Exact product when exact and it fits; saturated otherwise.
    pub fn mul_u128(self, rhs: u128) -> (r: Self)
        ensures
            r == count_mul(self, rhs),
    {
        match self.value {
            Some(lhs) => {
                if !self.saturated {
                    match lhs.checked_mul(rhs) {
                        Some(v) => Self::exact(v),
                        None => Self::saturated(),
                    }
                } else {
                    Self::saturated()
                }
            },
            None => Self::saturated(),
        }
    }

    /// Whether the count is over `cap` (an unknown or saturated count always is).
    pub fn exceeds_usize(self, cap: usize) -> (r: bool)
        ensures
            r == (self.saturated || match self.value {
                Some(v) => v > cap,
                None => true,
            }),
    {
        if self.saturated {
            return true;
        }
        match self.value {
            Some(v) => v > cap as u128,
            None => true,
        }
    }

    pub fn exceeds_u64(self, cap: u64) -> (r: bool)
        ensures
            r == (self.saturated || match self.value {
                Some(v) => v > cap,
                None => true,
            }),
    {
        if self.saturated {
            return true;
        }
        match self.value {
            Some(v) => v > cap as u128,
            None => true,
        }
    }

    /// "saturated", the decimal value, or "unknown".
    pub fn display_value(self) -> (s: String)
        ensures
            s@ == spec_display_value(self),
    {
        if self.saturated {
            return String::from_str("saturated");
        }
        match self.value {
            Some(v) => decimal_string(v),
            None => String::from_str("unknown"),
        }
    }
}

/// The exact sum when both counts are exact and it fits in `u128`; saturated otherwise.
pub open spec fn count_add(a: SaturatingCount, b: SaturatingCount) -> SaturatingCount {
    match (a.exact_value(), b.exact_value()) {
        (Some(x), Some(y)) => if x + y <= u128::MAX {
            SaturatingCount { value: Some((x + y) as u128), saturated: false }
        } else {
            SaturatingCount { value: None, saturated: true }
        },
        _ => SaturatingCount { value: None, saturated: true },
    }
}

/// The exact product when the count is exact and it fits in `u128`; saturated otherwise.
pub open spec fn count_mul(a: SaturatingCount, m: u128) -> SaturatingCount {
    match a.exact_value() {
        Some(x) => if x * m <= u128::MAX {
            SaturatingCount { value: Some((x * m) as u128), saturated: false }
        } else {
            SaturatingCount { value: None, saturated: true }
        },
        None => SaturatingCount { value: None, saturated: true },
    }
}

/// The count is over `cap` (a saturated or unknown count always is).
pub open spec fn count_exceeds(c: SaturatingCount, cap: int) -> bool {
    c.saturated || match c.value {
        Some(v) => v > cap,
        None => true,
    }
}

pub open spec fn spec_display_value(c: SaturatingCount) -> Seq<char> {
    if c.saturated {
        "saturated"@
    } else {
        match c.value {
            Some(v) => decimal(v as nat),
            None => "unknown"@,
        }
    }
}

#[derive(Debug, Clone, PartialEq, Eq)]
pub struct RelationSearchPlanningCaps {
    pub max_export_cols: usize,
    pub max_total_multiplier_cols: usize,
    pub max_matrix_rows: usize,
    pub max_matrix_cols: usize,
    pub max_estimated_memory_bytes: u64,
    pub max_materialized_stages: usize,
}

pub open spec fn usize_or(v: Option<usize>, d: usize) -> int {
    match v {
        Some(x) => x as int,
        None => d as int,
    }
}

/// The caps the options give, never below the dense defaults.
pub open spec fn spec_planning_caps(options: SolverOptions) -> RelationSearchPlanningCaps {
    let rows = imax(usize_or(options.max_matrix_rows, DEFAULT_DENSE_TRS_MAX_MATRIX_ROWS), DEFAULT_DENSE_TRS_MAX_MATRIX_ROWS as int);
    let cols = imax(usize_or(options.max_matrix_cols, DEFAULT_DENSE_TRS_MAX_MATRIX_COLS), DEFAULT_DENSE_TRS_MAX_MATRIX_COLS as int);
    RelationSearchPlanningCaps {
        max_export_cols: imax(cols, DEFAULT_DENSE_TRS_MAX_EXPORT_COLS as int) as usize,
        max_total_multiplier_cols: imax(cols, DEFAULT_DENSE_TRS_MAX_MULTIPLIER_COLS as int) as usize,
        max_matrix_rows: rows as usize,
        max_matrix_cols: cols as usize,
        max_estimated_memory_bytes: imax(
            match options.max_memory_bytes {
                Some(m) => m as int,
                None => DEFAULT_DENSE_TRS_MAX_ESTIMATED_MEMORY_BYTES as int,
            },
            DEFAULT_DENSE_TRS_MAX_ESTIMATED_MEMORY_BYTES as int,
        ) as u64,
        max_materialized_stages: DEFAULT_DENSE_TRS_MAX_MATERIALIZED_STAGES,
    }
}

impl RelationSearchPlanningCaps {
    /// Caps from the options, never below the dense defaults.
    pub fn from_options(options: &SolverOptions) -> (c: Self)
        ensures
            c == spec_planning_caps(*options),
    {
        let rows = match options.max_matrix_rows {
            Some(r) => r,
            None => DEFAULT_DENSE_TRS_MAX_MATRIX_ROWS,
        };
        let max_matrix_rows = if rows >= DEFAULT_DENSE_TRS_MAX_MATRIX_ROWS {
            rows
        } else {
            DEFAULT_DENSE_TRS_MAX_MATRIX_ROWS
        };
        let cols = match options.max_matrix_cols {
            Some(c) => c,
            None => DEFAULT_DENSE_TRS_MAX_MATRIX_COLS,
        };
        let max_matrix_cols = if cols >= DEFAULT_DENSE_TRS_MAX_MATRIX_COLS {
            cols
        } else {
            DEFAULT_DENSE_TRS_MAX_MATRIX_COLS
        };
        let mem = match options.max_memory_bytes {
            Some(m) => m,
            None => DEFAULT_DENSE_TRS_MAX_ESTIMATED_MEMORY_BYTES,
        };
        Self {
            max_export_cols: if max_matrix_cols >= DEFAULT_DENSE_TRS_MAX_EXPORT_COLS {
                max_matrix_cols
            } else {
                DEFAULT_DENSE_TRS_MAX_EXPORT_COLS
            },
            max_total_multiplier_cols: if max_matrix_cols >= DEFAULT_DENSE_TRS_MAX_MULTIPLIER_COLS {
                max_matrix_cols
            } else {
                DEFAULT_DENSE_TRS_MAX_MULTIPLIER_COLS
            },
            max_matrix_rows,
            max_matrix_cols,
            max_estimated_memory_bytes: if mem >= DEFAULT_DENSE_TRS_MAX_ESTIMATED_MEMORY_BYTES {
                mem
            } else {
                DEFAULT_DENSE_TRS_MAX_ESTIMATED_MEMORY_BYTES
            },
            max_materialized_stages: DEFAULT_DENSE_TRS_MAX_MATERIALIZED_STAGES,
        }
    }
}

#[derive(Debug, Clone, Copy, PartialEq, Eq, Structural)]
pub struct RelationSearchBound {
    pub export_degree: usize,
    pub multiplier_total_degree: usize,
}

#[derive(Debug, Clone, PartialEq, Eq)]
pub enum SupportDescriptor {
    DenseTotalDegree { variables: Vec<VariableId>, degree: usize, estimated_count: SaturatingCount },
    SparseFootprint {
        variables: Vec<VariableId>,
        support_hash: hash::Hash,
        estimated_count: SaturatingCount,
    },
}

#[derive(Debug, Clone, PartialEq, Eq)]
pub struct RelationSearchStageEstimate {
    pub export_degree: usize,
    pub multiplier_total_degree: usize,
    pub export_cols: SaturatingCount,
    pub multiplier_col_counts: Vec<SaturatingCount>,
    pub total_multiplier_cols: SaturatingCount,
    pub estimated_matrix_cols: SaturatingCount,
    pub estimated_rows_upper_bound: SaturatingCount,
    pub estimated_memory_bytes_upper_bound: SaturatingCount,
    pub feasible: bool,
    pub prohibition_reason: Option<String>,
    pub estimate_hash: hash::Hash,
}

#[derive(Debug, Clone, PartialEq, Eq)]
pub struct DenseRelationSearchPreflight {
    pub eliminated_variables: Vec<VariableId>,
    pub exported_variables: Vec<VariableId>,
    pub z_seed: usize,
    pub e_cap: usize,
    pub d_max: usize,
    pub planned_stage_count: SaturatingCount,
    pub estimated_stage_count: usize,
    pub first_prohibited_stage: Option<usize>,
    pub caps: RelationSearchPlanningCaps,
    pub stage_estimates: Vec<RelationSearchStageEstimate>,
    pub materialization_allowed: bool,
    pub preflight_hash: hash::Hash,
}

/// The index of the first stage estimate that carries a prohibition reason.
pub open spec fn first_reason_index(stages: Seq<RelationSearchStageEstimate>) -> Option<int>
    decreases stages.len(),
{
    if stages.len() == 0 {
        None
    } else if stages[0].prohibition_reason is Some {
        Some(0)
    } else {
        match first_reason_index(stages.drop_first()) {
            Some(i) => Some(i + 1),
            None => None,
        }
    }
}

pub open spec fn shift_index(o: Option<int>, k: int) -> Option<int> {
    match o {
        Some(i) => Some(i + k),
        None => None,
    }
}

impl DenseRelationSearchPreflight {
    /// The first stage's prohibition reason, else the stage-cap reason when
    /// materialization is refused, else nothing.
    pub fn first_prohibition_reason(&self) -> (r: Option<&str>)
        ensures
            match first_reason_index(self.stage_estimates@) {
                Some(i) => r matches Some(s) && self.stage_estimates@[i].prohibition_reason matches Some(t) && s@ == t@,
                None => if !self.materialization_allowed {
                    r matches Some(s) && s@ == "stage count exceeds dense TargetRelationSearch materialization cap"@
                } else {
                    r is None
                },
            },
    {
        let n = self.stage_estimates.len();
        let ghost stages = self.stage_estimates@;
        assert(stages.skip(0) == stages);
        for i in 0..n
            invariant
                n == stages.len(),
                stages == self.stage_estimates@,
                forall|j: int| 0 <= j < i ==> stages[j].prohibition_reason is None,
                first_reason_index(stages) == shift_index(first_reason_index(stages.skip(i as int)), i as int),
        {
            proof {
                lemma_first_reason_step(stages, i as int);
            }
            match &self.stage_estimates[i].prohibition_reason {
                Some(reason) => {
                    return Some(reason.as_str());
                },
                None => {},
            }
        }
        proof {
            assert(stages.skip(n as int).len() == 0);
        }
        if !self.materialization_allowed {
            Some("stage count exceeds dense TargetRelationSearch materialization cap")
        } else {
            None
        }
    }
}

proof fn lemma_first_reason_step(stages: Seq<RelationSearchStageEstimate>, i: int)
    requires
        0 <= i < stages.len(),
    ensures
        first_reason_index(stages.skip(i)) == if stages[i].prohibition_reason is Some {
            Some(0int)
        } else {
            shift_index(first_reason_index(stages.skip(i + 1)), 1)
        },
{
    assert(stages.skip(i)[0] == stages[i]);
    assert(stages.skip(i).drop_first() == stages.skip(i + 1));
}

#[derive(Debug, Clone, PartialEq, Eq)]
pub struct RelationSearchStage {
    pub export_degree: usize,
    pub multiplier_total_degree: usize,
    pub export_support_hash: hash::Hash,
    pub multiplier_support_hashes: Vec<hash::Hash>,
    pub row_monomial_hash: hash::Hash,
    pub row_monomial_count: usize,
    pub matrix_rows: usize,
    pub matrix_cols: usize,
    pub stage_hash: hash::Hash,
}

#[derive(Debug, Clone, PartialEq, Eq)]
pub struct DenseRelationSearchSchedule {
    pub eliminated_variables: Vec<VariableId>,
    pub exported_variables: Vec<VariableId>,
    pub z_seed: usize,
    pub e_cap: usize,
    pub d_max: usize,
    pub preflight: DenseRelationSearchPreflight,
    pub support_descriptors: Vec<SupportDescriptor>,
    pub stages: Vec<RelationSearchStage>,
    pub schedule_hash: hash::Hash,
}

// ----- canonical hashes -----

/// The saturation flag byte, then the value (or `u128::MAX`) on sixteen bytes.
pub open spec fn count_chunk(c: SaturatingCount) -> Seq<u8> {
    seq![if c.saturated { 1u8 } else { 0u8 }] + be_bytes(
        match c.value {
            Some(v) => v as nat,
            None => u128::MAX as nat,
        },
        16,
    )
}

fn count_to_bytes(count: SaturatingCount) -> (out: Vec<u8>)
    ensures
        out@ == count_chunk(count),
{
    let mut out: Vec<u8> = Vec::new();
    out.push(if count.saturated {
        1u8
    } else {
        0u8
    });
    let v = match count.value {
        Some(v) => v,
        None => u128::MAX,
    };
    let b = u128_be(v);
    crate::types::bytes::extend_bytes(&mut out, b.as_slice());
    out
}

pub open spec fn count_chunks(cs: Seq<SaturatingCount>) -> Seq<Seq<u8>> {
    cs.map_values(|c: SaturatingCount| count_chunk(c))
}

pub open spec fn bool_chunk(b: bool) -> Seq<u8> {
    seq![if b { 1u8 } else { 0u8 }]
}

fn bool_bytes(b: bool) -> (out: Vec<u8>)
    ensures
        out@ == bool_chunk(b),
{
    let mut out: Vec<u8> = Vec::new();
    out.push(if b {
        1u8
    } else {
        0u8
    });
    out
}

pub open spec fn reason_chunk(r: Option<String>) -> Seq<u8> {
    match r {
        Some(s) => vstd::utf8::encode_utf8(s@),
        None => "".spec_bytes(),
    }
}

pub open spec fn stage_estimate_chunks(e: RelationSearchStageEstimate) -> Seq<Seq<u8>> {
    seq![
        be_bytes(e.export_degree as nat, 8),
        be_bytes(e.multiplier_total_degree as nat, 8),
        count_chunk(e.export_cols),
        count_chunk(e.total_multiplier_cols),
        count_chunk(e.estimated_matrix_cols),
        count_chunk(e.estimated_rows_upper_bound),
        count_chunk(e.estimated_memory_bytes_upper_bound),
        bool_chunk(e.feasible),
    ] + count_chunks(e.multiplier_col_counts@) + seq![Seq::<u8>::empty(), reason_chunk(e.prohibition_reason)]
}

pub open spec fn spec_hash_stage_estimate(e: RelationSearchStageEstimate) -> Seq<u8> {
    spec_hash_sequence("dense-trs-stage-estimate".spec_bytes(), stage_estimate_chunks(e))
}

fn push_count_chunks(chunks: &mut Vec<Vec<u8>>, cs: &[SaturatingCount])
    ensures
        chunk_views(final(chunks)@) == chunk_views(old(chunks)@) + count_chunks(cs@),
{
    let ghost start = chunk_views(chunks@);
    let n = cs.len();
    for i in 0..n
        invariant
            n == cs@.len(),
            chunk_views(chunks@) == start + count_chunks(cs@.take(i as int)),
    {
        push_chunk(chunks, count_to_bytes(cs[i]));
        assert(count_chunks(cs@.take(i + 1)) =~= count_chunks(cs@.take(i as int)).push(count_chunk(cs@[i as int])));
        assert(start + count_chunks(cs@.take(i + 1)) =~= (start + count_chunks(cs@.take(i as int))).push(count_chunk(cs@[i as int])));
    }
    assert(cs@.take(n as int) == cs@);
}

pub(crate) fn hash_stage_estimate(estimate: &RelationSearchStageEstimate) -> (h: hash::Hash)
    ensures
        h.0@ == spec_hash_stage_estimate(*estimate),
{
    let mut chunks: Vec<Vec<u8>> = Vec::new();
    push_chunk(&mut chunks, usize_be(estimate.export_degree));
    push_chunk(&mut chunks, usize_be(estimate.multiplier_total_degree));
    push_chunk(&mut chunks, count_to_bytes(estimate.export_cols));
    push_chunk(&mut chunks, count_to_bytes(estimate.total_multiplier_cols));
    push_chunk(&mut chunks, count_to_bytes(estimate.estimated_matrix_cols));
    push_chunk(&mut chunks, count_to_bytes(estimate.estimated_rows_upper_bound));
    push_chunk(&mut chunks, count_to_bytes(estimate.estimated_memory_bytes_upper_bound));
    push_chunk(&mut chunks, bool_bytes(estimate.feasible));
    let ghost head = chunk_views(chunks@);
    push_count_chunks(&mut chunks, estimate.multiplier_col_counts.as_slice());
    push_chunk(&mut chunks, Vec::new());
    let reason = match &estimate.prohibition_reason {
        Some(r) => crate::types::bytes::bytes_to_vec(r.as_str().as_bytes()),
        None => crate::types::bytes::bytes_to_vec("".as_bytes()),
    };
    push_chunk(&mut chunks, reason);
    assert(chunk_views(chunks@) =~= stage_estimate_chunks(*estimate));
    hash_sequence("dense-trs-stage-estimate", chunks.as_slice())
}

pub open spec fn stage_estimate_pairs(es: Seq<RelationSearchStageEstimate>) -> Seq<Seq<u8>>
    decreases es.len(),
{
    if es.len() == 0 {
        Seq::empty()
    } else {
        stage_estimate_pairs(es.drop_last()) + seq![es.last().estimate_hash.0@, spec_hash_stage_estimate(es.last())]
    }
}

pub open spec fn preflight_chunks(p: DenseRelationSearchPreflight) -> Seq<Seq<u8>> {
    seq![
        be_bytes(p.z_seed as nat, 8),
        be_bytes(p.e_cap as nat, 8),
        be_bytes(p.d_max as nat, 8),
        count_chunk(p.planned_stage_count),
        be_bytes(p.estimated_stage_count as nat, 8),
        be_bytes(
            match p.first_prohibited_stage {
                Some(s) => s as nat,
                None => usize::MAX as nat,
            },
            8,
        ),
        bool_chunk(p.materialization_allowed),
        be_bytes(p.caps.max_export_cols as nat, 8),
        be_bytes(p.caps.max_total_multiplier_cols as nat, 8),
        be_bytes(p.caps.max_matrix_rows as nat, 8),
        be_bytes(p.caps.max_matrix_cols as nat, 8),
        be_bytes(p.caps.max_estimated_memory_bytes as nat, 8),
        be_bytes(p.caps.max_materialized_stages as nat, 8),
    ] + variable_chunks(p.eliminated_variables@) + seq![Seq::<u8>::empty()] + variable_chunks(
        p.exported_variables@,
    ) + seq![Seq::<u8>::empty()] + stage_estimate_pairs(p.stage_estimates@)
}

pub open spec fn spec_hash_preflight(p: DenseRelationSearchPreflight) -> Seq<u8> {
    spec_hash_sequence("dense-trs-preflight".spec_bytes(), preflight_chunks(p))
}

pub(crate) fn hash_dense_relation_search_preflight(preflight: &DenseRelationSearchPreflight) -> (h: hash::Hash)
    ensures
        h.0@ == spec_hash_preflight(*preflight),
{
    let mut chunks: Vec<Vec<u8>> = Vec::new();
    push_chunk(&mut chunks, usize_be(preflight.z_seed));
    push_chunk(&mut chunks, usize_be(preflight.e_cap));
    push_chunk(&mut chunks, usize_be(preflight.d_max));
    push_chunk(&mut chunks, count_to_bytes(preflight.planned_stage_count));
    push_chunk(&mut chunks, usize_be(preflight.estimated_stage_count));
    let first = match preflight.first_prohibited_stage {
        Some(s) => s,
        None => usize::MAX,
    };
    push_chunk(&mut chunks, usize_be(first));
    push_chunk(&mut chunks, bool_bytes(preflight.materialization_allowed));
    push_chunk(&mut chunks, usize_be(preflight.caps.max_export_cols));
    push_chunk(&mut chunks, usize_be(preflight.caps.max_total_multiplier_cols));
    push_chunk(&mut chunks, usize_be(preflight.caps.max_matrix_rows));
    push_chunk(&mut chunks, usize_be(preflight.caps.max_matrix_cols));
    push_chunk(&mut chunks, u64_be(preflight.caps.max_estimated_memory_bytes));
    push_chunk(&mut chunks, usize_be(preflight.caps.max_materialized_stages));
    push_variable_chunks(&mut chunks, preflight.eliminated_variables.as_slice());
    push_chunk(&mut chunks, Vec::new());
    push_variable_chunks(&mut chunks, preflight.exported_variables.as_slice());
    push_chunk(&mut chunks, Vec::new());
    let ghost head = chunk_views(chunks@);
    let n = preflight.stage_estimates.len();
    for i in 0..n
        invariant
            n == preflight.stage_estimates@.len(),
            chunk_views(chunks@) == head + stage_estimate_pairs(preflight.stage_estimates@.take(i as int)),
    {
        let e = &preflight.stage_estimates[i];
        push_chunk(&mut chunks, hash_to_vec(&e.estimate_hash));
        let h = hash_stage_estimate(e);
        push_chunk(&mut chunks, hash_to_vec(&h));
        proof {
            let t = preflight.stage_estimates@.take(i + 1);
            assert(t.drop_last() == preflight.stage_estimates@.take(i as int));
            assert(t.last() == preflight.stage_estimates@[i as int]);
        }
    }
    assert(preflight.stage_estimates@.take(n as int) == preflight.stage_estimates@);
    assert(chunk_views(chunks@) =~= preflight_chunks(*preflight));
    hash_sequence("dense-trs-preflight", chunks.as_slice())
}

pub open spec fn support_descriptor_chunks(d: SupportDescriptor) -> Seq<Seq<u8>> {
    match d {
        SupportDescriptor::DenseTotalDegree { variables, degree, estimated_count } => seq![
            "DenseTotalDegree".spec_bytes(),
            be_bytes(degree as nat, 8),
            count_chunk(estimated_count),
        ] + variable_chunks(variables@),
        SupportDescriptor::SparseFootprint { variables, support_hash, estimated_count } => seq![
            "SparseFootprint".spec_bytes(),
            support_hash.0@,
            count_chunk(estimated_count),
        ] + variable_chunks(variables@),
    }
}

pub open spec fn spec_hash_support_descriptor(d: SupportDescriptor) -> Seq<u8> {
    spec_hash_sequence("support-descriptor".spec_bytes(), support_descriptor_chunks(d))
}

pub(crate) fn hash_support_descriptor(descriptor: &SupportDescriptor) -> (h: hash::Hash)
    ensures
        h.0@ == spec_hash_support_descriptor(*descriptor),
{
    let mut chunks: Vec<Vec<u8>> = Vec::new();
    match descriptor {
        SupportDescriptor::DenseTotalDegree { variables, degree, estimated_count } => {
            push_chunk(&mut chunks, crate::types::bytes::bytes_to_vec("DenseTotalDegree".as_bytes()));
            push_chunk(&mut chunks, usize_be(*degree));
            push_chunk(&mut chunks, count_to_bytes(*estimated_count));
            push_variable_chunks(&mut chunks, variables.as_slice());
        },
        SupportDescriptor::SparseFootprint { variables, support_hash, estimated_count } => {
            push_chunk(&mut chunks, crate::types::bytes::bytes_to_vec("SparseFootprint".as_bytes()));
            push_chunk(&mut chunks, hash_to_vec(support_hash));
            push_chunk(&mut chunks, count_to_bytes(*estimated_count));
            push_variable_chunks(&mut chunks, variables.as_slice());
        },
    }
    assert(chunk_views(chunks@) =~= support_descriptor_chunks(*descriptor));
    hash_sequence("support-descriptor", chunks.as_slice())
}

pub open spec fn stage_chunks(s: RelationSearchStage) -> Seq<Seq<u8>> {
    seq![
        be_bytes(s.export_degree as nat, 8),
        be_bytes(s.multiplier_total_degree as nat, 8),
        s.export_support_hash.0@,
    ] + hash_chunks(s.multiplier_support_hashes@) + seq![
        Seq::<u8>::empty(),
        s.row_monomial_hash.0@,
        be_bytes(s.row_monomial_count as nat, 8),
        be_bytes(s.matrix_rows as nat, 8),
        be_bytes(s.matrix_cols as nat, 8),
    ]
}

pub open spec fn spec_hash_relation_search_stage(s: RelationSearchStage) -> Seq<u8> {
    spec_hash_sequence("rgq042-relation-search-stage".spec_bytes(), stage_chunks(s))
}

pub fn hash_relation_search_stage(stage: &RelationSearchStage) -> (h: hash::Hash)
    ensures
        h.0@ == spec_hash_relation_search_stage(*stage),
{
    let mut chunks: Vec<Vec<u8>> = Vec::new();
    push_chunk(&mut chunks, usize_be(stage.export_degree));
    push_chunk(&mut chunks, usize_be(stage.multiplier_total_degree));
    push_chunk(&mut chunks, hash_to_vec(&stage.export_support_hash));
    push_hash_chunks(&mut chunks, stage.multiplier_support_hashes.as_slice());
    push_chunk(&mut chunks, Vec::new());
    push_chunk(&mut chunks, hash_to_vec(&stage.row_monomial_hash));
    push_chunk(&mut chunks, usize_be(stage.row_monomial_count));
    push_chunk(&mut chunks, usize_be(stage.matrix_rows));
    push_chunk(&mut chunks, usize_be(stage.matrix_cols));
    assert(chunk_views(chunks@) =~= stage_chunks(*stage));
    hash_sequence("rgq042-relation-search-stage", chunks.as_slice())
}

pub open spec fn descriptor_hash_chunks(ds: Seq<SupportDescriptor>) -> Seq<Seq<u8>> {
    ds.map_values(|d: SupportDescriptor| spec_hash_support_descriptor(d))
}

pub open spec fn stage_pairs(ss: Seq<RelationSearchStage>) -> Seq<Seq<u8>>
    decreases ss.len(),
{
    if ss.len() == 0 {
        Seq::empty()
    } else {
        stage_pairs(ss.drop_last()) + seq![ss.last().stage_hash.0@, spec_hash_relation_search_stage(ss.last())]
    }
}

pub open spec fn schedule_chunks(s: DenseRelationSearchSchedule) -> Seq<Seq<u8>> {
    seq![
        be_bytes(s.z_seed as nat, 8),
        be_bytes(s.e_cap as nat, 8),
        be_bytes(s.d_max as nat, 8),
        s.preflight.preflight_hash.0@,
    ] + variable_chunks(s.eliminated_variables@) + seq![Seq::<u8>::empty()] + variable_chunks(
        s.exported_variables@,
    ) + seq![Seq::<u8>::empty()] + descriptor_hash_chunks(s.support_descriptors@) + seq![
        Seq::<u8>::empty(),
    ] + stage_pairs(s.stages@)
}

pub open spec fn spec_hash_dense_relation_search_schedule(s: DenseRelationSearchSchedule) -> Seq<u8> {
    spec_hash_sequence("rgq042-dense-relation-search-schedule".spec_bytes(), schedule_chunks(s))
}

pub fn hash_dense_relation_search_schedule(schedule: &DenseRelationSearchSchedule) -> (h: hash::Hash)
    ensures
        h.0@ == spec_hash_dense_relation_search_schedule(*schedule),
{
    let mut chunks: Vec<Vec<u8>> = Vec::new();
    push_chunk(&mut chunks, usize_be(schedule.z_seed));
    push_chunk(&mut chunks, usize_be(schedule.e_cap));
    push_chunk(&mut chunks, usize_be(schedule.d_max));
    push_chunk(&mut chunks, hash_to_vec(&schedule.preflight.preflight_hash));
    push_variable_chunks(&mut chunks, schedule.eliminated_variables.as_slice());
    push_chunk(&mut chunks, Vec::new());
    push_variable_chunks(&mut chunks, schedule.exported_variables.as_slice());
    push_chunk(&mut chunks, Vec::new());
    let ghost head = chunk_views(chunks@);
    let n = schedule.support_descriptors.len();
    for i in 0..n
        invariant
            n == schedule.support_descriptors@.len(),
            chunk_views(chunks@) == head + descriptor_hash_chunks(schedule.support_descriptors@.take(i as int)),
    {
        let h = hash_support_descriptor(&schedule.support_descriptors[i]);
        push_chunk(&mut chunks, hash_to_vec(&h));
        proof {
            let ds = schedule.support_descriptors@;
            assert(descriptor_hash_chunks(ds.take(i + 1)) =~= descriptor_hash_chunks(ds.take(i as int)).push(spec_hash_support_descriptor(ds[i as int])));
            assert(head + descriptor_hash_chunks(ds.take(i + 1)) =~= (head + descriptor_hash_chunks(ds.take(i as int))).push(spec_hash_support_descriptor(ds[i as int])));
        }
    }
    assert(schedule.support_descriptors@.take(n as int) == schedule.support_descriptors@);
    push_chunk(&mut chunks, Vec::new());
    let ghost mid = chunk_views(chunks@);
    let m = schedule.stages.len();
    for i in 0..m
        invariant
            m == schedule.stages@.len(),
            chunk_views(chunks@) == mid + stage_pairs(schedule.stages@.take(i as int)),
    {
        let st = &schedule.stages[i];
        push_chunk(&mut chunks, hash_to_vec(&st.stage_hash));
        let h = hash_relation_search_stage(st);
        push_chunk(&mut chunks, hash_to_vec(&h));
        proof {
            let t = schedule.stages@.take(i + 1);
            assert(t.drop_last() == schedule.stages@.take(i as int));
            assert(t.last() == schedule.stages@[i as int]);
        }
    }
    assert(schedule.stages@.take(m as int) == schedule.stages@);
    assert(chunk_views(chunks@) =~= schedule_chunks(*schedule));
    hash_sequence("rgq042-dense-relation-search-schedule", chunks.as_slice())
}

} // verus!
