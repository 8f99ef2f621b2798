//! Column, row and memory estimates of dense target relation search, stage by stage.
use vstd::prelude::*;

use vstd::string::StringExecFns;

use crate::planner::relation_schedule::{
    hash_dense_relation_search_preflight, spec_hash_preflight, spec_planning_caps,
    first_reason_index, DenseRelationSearchPreflight,
    count_add, count_exceeds, count_mul, hash_stage_estimate, spec_display_value,
    spec_hash_stage_estimate, RelationSearchPlanningCaps, RelationSearchStageEstimate, SaturatingCount,
};
use crate::types::arith::{clamp_usize, sat_add_usize};
use crate::types::hash::hash_sequence;
use crate::types::id_set::{contains_variable, sort_dedup_variables, sorted_union, var_ids_increasing};
use crate::types::ids::VariableId;
use crate::types::monomial::exponent_sum;
use crate::types::polynomial::{degrees_fit_u32, poly_total_degree, spec_total_degree, SparsePolynomialQ, TermQ};
use crate::solver::options::SolverOptions;
use crate::types::text::{decimal, push_decimal};

verus! {

/// The binomial coefficient `n choose k`, by Pascal's rule.
pub open spec fn binom(n: nat, k: nat) -> nat
    decreases n,
{
    if k == 0 {
        1
    } else if n == 0 {
        0
    } else {
        binom((n - 1) as nat, (k - 1) as nat) + binom((n - 1) as nat, k)
    }
}

pub proof fn lemma_binom_above(n: nat, k: nat)
    requires
        k > n,
    ensures
        binom(n, k) == 0,
    decreases n,
{
    if n > 0 {
        lemma_binom_above((n - 1) as nat, (k - 1) as nat);
        lemma_binom_above((n - 1) as nat, k);
    }
}

pub proof fn lemma_binom_diagonal(n: nat)
    ensures
        binom(n, n) == 1,
    decreases n,
{
    if n > 0 {
        lemma_binom_diagonal((n - 1) as nat);
        lemma_binom_above((n - 1) as nat, n);
    }
}

/// Absorption: `k * C(n, k) == n * C(n - 1, k - 1)`.
pub proof fn lemma_binom_absorb(n: nat, k: nat)
    requires
        n >= 1,
        k >= 1,
    ensures
        k * binom(n, k) == n * binom((n - 1) as nat, (k - 1) as nat),
    decreases n,
{
    if n == 1 {
        if k > 1 {
            lemma_binom_above(1, k);
            lemma_binom_above(0, (k - 1) as nat);
            assert(k * binom(n, k) == 0);
            assert(n * binom((n - 1) as nat, (k - 1) as nat) == 0);
        } else {
            assert(binom(1, 1) == binom(0, 0) + binom(0, 1));
            assert(binom(1, 1) == 1);
        }
    } else {
        let a = binom((n - 1) as nat, (k - 1) as nat);
        let b = binom((n - 1) as nat, k);
        assert(binom(n, k) == a + b);
        lemma_binom_absorb((n - 1) as nat, k);
        assert(k * b == (n - 1) * binom((n - 2) as nat, (k - 1) as nat));
        if k == 1 {
            assert(a == 1);
            assert(binom((n - 2) as nat, 0) == 1);
            assert(k * binom(n, k) == n * a) by (nonlinear_arith)
                requires
                    k == 1,
                    a == 1,
                    binom(n, k) == a + b,
                    k * b == (n - 1) * binom((n - 2) as nat, (k - 1) as nat),
                    binom((n - 2) as nat, (k - 1) as nat) == 1,
            ;
        } else {
            lemma_binom_absorb((n - 1) as nat, (k - 1) as nat);
            let c = binom((n - 2) as nat, (k - 2) as nat);
            let d = binom((n - 2) as nat, (k - 1) as nat);
            assert((k - 1) * a == (n - 1) * c);
            assert(a == c + d);
            assert(k * binom(n, k) == n * a) by (nonlinear_arith)
                requires
                    binom(n, k) == a + b,
                    k * b == (n - 1) * d,
                    (k - 1) * a == (n - 1) * c,
                    a == c + d,
            ;
        }
    }
}

/// Symmetry: `C(n, k) == C(n, n - k)`.
pub proof fn lemma_binom_symmetric(n: nat, k: nat)
    requires
        k <= n,
    ensures
        binom(n, k) == binom(n, (n - k) as nat),
    decreases n,
{
    if k == 0 {
        lemma_binom_diagonal(n);
    } else if k == n {
        lemma_binom_diagonal(n);
    } else {
        lemma_binom_symmetric((n - 1) as nat, (k - 1) as nat);
        lemma_binom_symmetric((n - 1) as nat, k);
        assert(binom(n, (n - k) as nat) == binom((n - 1) as nat, (n - k - 1) as nat) + binom(
            (n - 1) as nat,
            (n - k) as nat,
        ));
    }
}

/// Whether every intermediate product of the multiplicative binomial loop fits in `u128`:
/// step `i` (for `i` from 1 to `k`) forms `i * C(m + i, i)`.
pub open spec fn binomial_steps_fit(m: nat, k: nat) -> bool {
    forall|i: nat| 1 <= i <= k ==> #[trigger] (i * binom(m + i, i)) <= u128::MAX
}

/// What `binomial_saturating(n, k)` returns.
pub open spec fn spec_binomial_saturating(n: nat, k: nat) -> SaturatingCount {
    if k > n {
        SaturatingCount { value: Some(0), saturated: false }
    } else {
        let kk: nat = if k <= n - k { k } else { (n - k) as nat };
        if binomial_steps_fit((n - kk) as nat, kk) {
            SaturatingCount { value: Some(binom(n, k) as u128), saturated: false }
        } else {
            SaturatingCount { value: None, saturated: true }
        }
    }
}

/// `n choose k` computed multiplicatively over the smaller of `k` and `n - k`; saturated as
/// soon as an intermediate product overflows `u128`.
pub fn binomial_saturating(n: usize, k: usize) -> (r: SaturatingCount)
    ensures
        r == spec_binomial_saturating(n as nat, k as nat),
        r.value matches Some(v) ==> v == binom(n as nat, k as nat),
{
    if k > n {
        proof {
            lemma_binom_above(n as nat, k as nat);
        }
        return SaturatingCount::exact(0);
    }
    let kk = if k <= n - k {
        k
    } else {
        n - k
    };
    let m = n - kk;
    let ghost gm = m as nat;
    let mut result: u128 = 1;
    let mut i: usize = 0;
    while i < kk
        invariant
            i <= kk,
            kk <= n,
            k <= n,
            kk == (if k <= n - k {
                k
            } else {
                (n - k) as usize
            }),
            m == n - kk,
            gm == m as nat,
            gm == (n - kk) as nat,
            result == binom(gm + i as nat, i as nat),
            forall|j: nat| 1 <= j <= i ==> #[trigger] (j * binom(gm + j, j)) <= u128::MAX,
        decreases kk - i,
    {
        let step = i + 1;
        let numerator = (m + step) as u128;
        let ghost gi = step as nat;
        proof {
            lemma_binom_absorb(gm + gi, gi);
            assert(((gm + gi) - 1) as nat == gm + i as nat);
            assert((gi - 1) as nat == i as nat);
            assert(gi * binom(gm + gi, gi) == numerator * result) by (nonlinear_arith)
                requires
                    gi * binom(gm + gi, gi) == (gm + gi) * binom(((gm + gi) - 1) as nat, (gi - 1) as nat),
                    ((gm + gi) - 1) as nat == gm + i as nat,
                    (gi - 1) as nat == i as nat,
                    result == binom(gm + i as nat, i as nat),
                    numerator == gm + gi,
            ;
        }
        match result.checked_mul(numerator) {
            Some(product) => {
                proof {
                    assert(product == gi * binom(gm + gi, gi)) by (nonlinear_arith)
                        requires
                            product == result * numerator,
                            gi * binom(gm + gi, gi) == numerator * result,
                    ;
                    assert(product / (step as u128) == binom(gm + gi, gi)) by (nonlinear_arith)
                        requires
                            product == gi * binom(gm + gi, gi),
                            gi >= 1,
                            gi == step,
                    ;
                }
                result = product / (step as u128);
                proof {
                    assert forall|j: nat| 1 <= j <= step implies #[trigger] (j * binom(gm + j, j)) <= u128::MAX by {
                        if j == gi {
                            assert(j * binom(gm + j, j) == product);
                        }
                    }
                }
            },
            None => {
                proof {
                    assert(gi * binom(gm + gi, gi) > u128::MAX);
                    assert(1 <= gi <= kk);
                    assert(!binomial_steps_fit(gm, kk as nat));
                    let skk: nat = if (k as nat) <= (n as nat) - (k as nat) {
                        k as nat
                    } else {
                        ((n as nat) - (k as nat)) as nat
                    };
                    assert(skk == kk as nat);
                    assert(((n as nat) - skk) as nat == gm);
                    assert(!binomial_steps_fit(((n as nat) - skk) as nat, skk));
                }
                return SaturatingCount::saturated();
            },
        }
        i = step;
    }
    proof {
        assert(gm + kk as nat == n as nat);
        if kk != k {
            lemma_binom_symmetric(n as nat, k as nat);
        }
        assert(binomial_steps_fit(gm, kk as nat));
    }
    SaturatingCount::exact(result)
}

/// The number of monomials in `variable_count` variables of total degree at most
/// `max_degree`: `C(v + d, d)`, with `v + d` clamped to `usize`.
pub fn monomial_count_total_degree_leq(variable_count: usize, max_degree: usize) -> (r: SaturatingCount)
    ensures
        r == spec_binomial_saturating(clamp_usize(variable_count + max_degree) as nat, max_degree as nat),
{
    let n = crate::types::arith::sat_add_usize(variable_count, max_degree);
    binomial_saturating(n, max_degree)
}

/// `spec_binomial_saturating(v + d, d)`, the monomial count `C(v + d, d)` with `v + d` clamped.
pub open spec fn spec_monomial_count(v: nat, d: nat) -> SaturatingCount {
    spec_binomial_saturating(clamp_usize((v + d) as int) as nat, d)
}

/// The number of distinct variables in two lists together.
pub open spec fn union_count(a: Seq<VariableId>, b: Seq<VariableId>) -> nat {
    a.to_set().union(b.to_set()).len()
}

/// `a - b`, or zero when `b` is larger.
pub open spec fn sat_sub(a: nat, b: nat) -> nat {
    if b > a {
        0
    } else {
        (a - b) as nat
    }
}

/// The saturating sum of a list of counts, from exact zero.
pub open spec fn count_sum(cs: Seq<SaturatingCount>) -> SaturatingCount
    decreases cs.len(),
{
    if cs.len() == 0 {
        SaturatingCount { value: Some(0), saturated: false }
    } else {
        count_add(count_sum(cs.drop_last()), cs.last())
    }
}

/// Per relation: the multiplier monomials of degree up to the multiplier degree minus the
/// relation's degree, over all `all_count` variables.
pub open spec fn multiplier_counts(relations: Seq<SparsePolynomialQ>, all_count: nat, mtd: nat) -> Seq<SaturatingCount> {
    Seq::new(
        relations.len(),
        |i: int| spec_monomial_count(all_count, sat_sub(mtd, spec_total_degree(relations[i].terms@))),
    )
}

/// Per relation: its multiplier count times its number of terms.
pub open spec fn row_term_counts(relations: Seq<SparsePolynomialQ>, counts: Seq<SaturatingCount>) -> Seq<SaturatingCount> {
    Seq::new(relations.len(), |i: int| count_mul(counts[i], relations[i].terms@.len() as u128))
}

/// `"<label> <count> exceeds cap <cap>"`.
pub open spec fn exceeds_text(label: Seq<char>, c: SaturatingCount, cap: nat) -> Seq<char> {
    label + " "@ + spec_display_value(c) + " exceeds cap "@ + decimal(cap)
}

/// The reason for `label` when the count is over the cap, none otherwise.
pub open spec fn reason_if(label: Seq<char>, c: SaturatingCount, cap: nat) -> Seq<Seq<char>> {
    if count_exceeds(c, cap as int) {
        seq![exceeds_text(label, c, cap)]
    } else {
        Seq::empty()
    }
}

/// Parts joined with `"; "`.
pub open spec fn join_reasons(parts: Seq<Seq<char>>) -> Seq<char>
    decreases parts.len(),
{
    if parts.len() == 0 {
        Seq::empty()
    } else if parts.len() == 1 {
        parts[0]
    } else {
        join_reasons(parts.drop_last()) + "; "@ + parts.last()
    }
}

/// The caps a stage breaks, in a fixed order, each with its count and cap.
pub open spec fn stage_reasons(
    export_cols: SaturatingCount,
    total: SaturatingCount,
    cols: SaturatingCount,
    rows: SaturatingCount,
    memory: SaturatingCount,
    caps: RelationSearchPlanningCaps,
) -> Seq<Seq<char>> {
    reason_if("export_cols"@, export_cols, caps.max_export_cols as nat) + reason_if(
        "total_multiplier_cols"@,
        total,
        caps.max_total_multiplier_cols as nat,
    ) + reason_if("estimated_matrix_cols"@, cols, caps.max_matrix_cols as nat) + reason_if(
        "estimated_rows"@,
        rows,
        caps.max_matrix_rows as nat,
    ) + reason_if("estimated_memory_bytes"@, memory, caps.max_estimated_memory_bytes as nat)
}

/// What a stage estimate for `export_degree` holds, given the relations, the number of
/// exported and of all variables, the largest relation degree and the caps.
#[verifier::opaque]
pub open spec fn is_stage_estimate(
    e: RelationSearchStageEstimate,
    relations: Seq<SparsePolynomialQ>,
    exported_count: nat,
    all_count: nat,
    d_max: nat,
    export_degree: nat,
    caps: RelationSearchPlanningCaps,
) -> bool {
    let mtd = clamp_usize((export_degree + d_max) as int) as nat;
    let export_cols = spec_monomial_count(exported_count, export_degree);
    let counts = multiplier_counts(relations, all_count, mtd);
    let total = count_sum(counts);
    let cols = count_add(export_cols, total);
    let rows = count_add(export_cols, count_sum(row_term_counts(relations, counts)));
    let memory = count_mul(count_add(rows, cols), 128);
    let reasons = stage_reasons(export_cols, total, cols, rows, memory, caps);
    &&& e.export_degree == export_degree
    &&& e.multiplier_total_degree == mtd
    &&& e.export_cols == export_cols
    &&& e.multiplier_col_counts@ == counts
    &&& e.total_multiplier_cols == total
    &&& e.estimated_matrix_cols == cols
    &&& e.estimated_rows_upper_bound == rows
    &&& e.estimated_memory_bytes_upper_bound == memory
    &&& e.feasible == (reasons.len() == 0)
    &&& (if reasons.len() == 0 {
        e.prohibition_reason is None
    } else {
        e.prohibition_reason matches Some(text) && text@ == join_reasons(reasons)
    })
    &&& e.estimate_hash.0@ == spec_hash_stage_estimate(e)
}

/// Every relation's term degrees sum within `u32`.
pub open spec fn relation_degrees_fit(relations: Seq<SparsePolynomialQ>) -> bool {
    forall|i: int| 0 <= i < relations.len() ==> degrees_fit_u32(#[trigger] relations[i].terms@)
}

proof fn lemma_union_len(out: Seq<VariableId>, a: Seq<VariableId>, b: Seq<VariableId>)
    requires
        var_ids_increasing(out),
        forall|w: VariableId| #[trigger] out.contains(w) <==> a.contains(w) || b.contains(w),
    ensures
        out.len() == union_count(a, b),
{
    assert(out.no_duplicates()) by {
        assert forall|i: int, j: int| 0 <= i < out.len() && 0 <= j < out.len() && i != j implies out[i] != out[j] by {
            if i < j {
                assert(out[i].0 < out[j].0);
            } else {
                assert(out[j].0 < out[i].0);
            }
        }
    }
    out.unique_seq_to_set();
    assert(out.to_set() =~= a.to_set().union(b.to_set()));
}

proof fn lemma_join_push(parts: Seq<Seq<char>>, x: Seq<char>)
    ensures
        join_reasons(parts.push(x)) == if parts.len() == 0 {
            x
        } else {
            join_reasons(parts) + "; "@ + x
        },
{
    assert(parts.push(x).drop_last() == parts);
    if parts.len() == 0 {
        assert(parts.push(x)[0] == x);
    }
}

/// Appends a reason to the `"; "`-joined text.
fn append_reason(text: &mut String, first: bool, label: &str, c: SaturatingCount, cap: u64)
    ensures
        final(text)@ == if first {
            old(text)@ + exceeds_text(label@, c, cap as nat)
        } else {
            old(text)@ + "; "@ + exceeds_text(label@, c, cap as nat)
        },
{
    if !first {
        text.append("; ");
    }
    text.append(label);
    text.append(" ");
    let shown = c.display_value();
    text.append(shown.as_str());
    text.append(" exceeds cap ");
    push_decimal(text, cap as u128);
}

/// The `"; "`-joined reasons a stage breaks its caps, and whether there are any.
fn prohibition_text(
    export_cols: SaturatingCount,
    total: SaturatingCount,
    cols: SaturatingCount,
    rows: SaturatingCount,
    memory: SaturatingCount,
    caps: &RelationSearchPlanningCaps,
) -> (r: (String, bool))
    ensures
        r.0@ == join_reasons(stage_reasons(export_cols, total, cols, rows, memory, *caps)),
        r.1 == (stage_reasons(export_cols, total, cols, rows, memory, *caps).len() > 0),
{
    let ghost r1 = reason_if("export_cols"@, export_cols, caps.max_export_cols as nat);
    let ghost r2 = reason_if("total_multiplier_cols"@, total, caps.max_total_multiplier_cols as nat);
    let ghost r3 = reason_if("estimated_matrix_cols"@, cols, caps.max_matrix_cols as nat);
    let ghost r4 = reason_if("estimated_rows"@, rows, caps.max_matrix_rows as nat);
    let ghost r5 = reason_if(
        "estimated_memory_bytes"@,
        memory,
        caps.max_estimated_memory_bytes as nat,
    );
    let mut text = String::new();
    let mut any = false;
    let ghost mut parts: Seq<Seq<char>> = Seq::empty();
    if export_cols.exceeds_usize(caps.max_export_cols) {
        proof {
            lemma_join_push(parts, exceeds_text("export_cols"@, export_cols, caps.max_export_cols as nat));
        }
        append_reason(&mut text, !any, "export_cols", export_cols, caps.max_export_cols as u64);
        proof {
            parts = parts.push(exceeds_text("export_cols"@, export_cols, caps.max_export_cols as nat));
        }
        any = true;
    }
    assert(parts =~= r1);
    if total.exceeds_usize(caps.max_total_multiplier_cols) {
        proof {
            lemma_join_push(parts, exceeds_text("total_multiplier_cols"@, total, caps.max_total_multiplier_cols as nat));
        }
        append_reason(&mut text, !any, "total_multiplier_cols", total, caps.max_total_multiplier_cols as u64);
        proof {
            parts = parts.push(exceeds_text("total_multiplier_cols"@, total, caps.max_total_multiplier_cols as nat));
        }
        any = true;
    }
    assert(parts =~= r1 + r2);
    if cols.exceeds_usize(caps.max_matrix_cols) {
        proof {
            lemma_join_push(parts, exceeds_text("estimated_matrix_cols"@, cols, caps.max_matrix_cols as nat));
        }
        append_reason(&mut text, !any, "estimated_matrix_cols", cols, caps.max_matrix_cols as u64);
        proof {
            parts = parts.push(exceeds_text("estimated_matrix_cols"@, cols, caps.max_matrix_cols as nat));
        }
        any = true;
    }
    assert(parts =~= r1 + r2 + r3);
    if rows.exceeds_usize(caps.max_matrix_rows) {
        proof {
            lemma_join_push(parts, exceeds_text("estimated_rows"@, rows, caps.max_matrix_rows as nat));
        }
        append_reason(&mut text, !any, "estimated_rows", rows, caps.max_matrix_rows as u64);
        proof {
            parts = parts.push(exceeds_text("estimated_rows"@, rows, caps.max_matrix_rows as nat));
        }
        any = true;
    }
    assert(parts =~= r1 + r2 + r3 + r4);
    if memory.exceeds_u64(caps.max_estimated_memory_bytes) {
        proof {
            lemma_join_push(parts, exceeds_text("estimated_memory_bytes"@, memory, caps.max_estimated_memory_bytes as nat));
        }
        append_reason(&mut text, !any, "estimated_memory_bytes", memory, caps.max_estimated_memory_bytes as u64);
        proof {
            parts = parts.push(exceeds_text("estimated_memory_bytes"@, memory, caps.max_estimated_memory_bytes as nat));
        }
        any = true;
    }
    assert(parts =~= r1 + r2 + r3 + r4 + r5);
    assert(text@ == join_reasons(parts));
    assert(any == (parts.len() > 0));
    (text, any)
}

/// The column, row and memory estimate of the dense relation search stage that exports
/// degree `export_degree`, with the reasons it breaks the caps, if any.
pub fn estimate_relation_search_stage(
    relations: &[SparsePolynomialQ],
    eliminated: &[VariableId],
    exported: &[VariableId],
    d_max: usize,
    export_degree: usize,
    caps: &RelationSearchPlanningCaps,
) -> (e: RelationSearchStageEstimate)
    requires
        relation_degrees_fit(relations@),
    ensures
        is_stage_estimate(
            e,
            relations@,
            exported@.len(),
            union_count(eliminated@, exported@),
            d_max as nat,
            export_degree as nat,
            *caps,
        ),
{
    let all_variables = sorted_union(eliminated, exported);
    proof {
        lemma_union_len(all_variables@, eliminated@, exported@);
    }
    let all_count = all_variables.len();
    let multiplier_total_degree = sat_add_usize(export_degree, d_max);
    let export_cols = monomial_count_total_degree_leq(exported.len(), export_degree);
    let ghost counts = multiplier_counts(relations@, all_count as nat, multiplier_total_degree as nat);
    let ghost row_counts = row_term_counts(relations@, counts);
    let mut multiplier_col_counts: Vec<SaturatingCount> = Vec::new();
    let mut total_multiplier_cols = SaturatingCount::exact(0);
    let mut row_sum = SaturatingCount::exact(0);
    let n = relations.len();
    for i in 0..n
        invariant
            n == relations@.len(),
            relation_degrees_fit(relations@),
            counts == multiplier_counts(relations@, all_count as nat, multiplier_total_degree as nat),
            row_counts == row_term_counts(relations@, counts),
            multiplier_col_counts@ == counts.take(i as int),
            total_multiplier_cols == count_sum(counts.take(i as int)),
            row_sum == count_sum(row_counts.take(i as int)),
    {
        let relation_degree = poly_total_degree(&relations[i]) as usize;
        let multiplier_degree = if relation_degree > multiplier_total_degree {
            0
        } else {
            multiplier_total_degree - relation_degree
        };
        let count = monomial_count_total_degree_leq(all_count, multiplier_degree);
        proof {
            assert(counts[i as int] == count);
            assert(counts.take(i + 1) == counts.take(i as int).push(count));
            assert(row_counts.take(i + 1) == row_counts.take(i as int).push(row_counts[i as int]));
        }
        multiplier_col_counts.push(count);
        total_multiplier_cols = total_multiplier_cols.add(count);
        row_sum = row_sum.add(count.mul_u128(relations[i].terms.len() as u128));
        proof {
            assert(counts.take(i + 1).drop_last() == counts.take(i as int));
            assert(row_counts.take(i + 1).drop_last() == row_counts.take(i as int));
            assert(row_counts[i as int] == count_mul(count, relations@[i as int].terms@.len() as u128));
        }
    }
    proof {
        assert(counts.take(n as int) == counts);
        assert(row_counts.take(n as int) == row_counts);
    }
    let estimated_matrix_cols = export_cols.add(total_multiplier_cols);
    let estimated_rows_upper_bound = export_cols.add(row_sum);
    let estimated_memory_bytes_upper_bound = estimated_rows_upper_bound.add(estimated_matrix_cols).mul_u128(128);
    let (text, any) = prohibition_text(
        export_cols,
        total_multiplier_cols,
        estimated_matrix_cols,
        estimated_rows_upper_bound,
        estimated_memory_bytes_upper_bound,
        caps,
    );
    let feasible = !any;
    let mut estimate = RelationSearchStageEstimate {
        export_degree,
        multiplier_total_degree,
        export_cols,
        multiplier_col_counts,
        total_multiplier_cols,
        estimated_matrix_cols,
        estimated_rows_upper_bound,
        estimated_memory_bytes_upper_bound,
        feasible,
        prohibition_reason: if feasible {
            None
        } else {
            Some(text)
        },
        estimate_hash: hash_sequence("dense-trs-stage-estimate", &[]),
    };
    estimate.estimate_hash = hash_stage_estimate(&estimate);
    proof {
        reveal(is_stage_estimate);
    }
    estimate
}

/// The largest total degree among the relations (0 for none).
pub open spec fn spec_d_max(relations: Seq<SparsePolynomialQ>) -> nat
    decreases relations.len(),
{
    if relations.len() == 0 {
        0
    } else {
        let d = spec_total_degree(relations.last().terms@);
        let rest = spec_d_max(relations.drop_last());
        if d >= rest {
            d
        } else {
            rest
        }
    }
}

fn max_relation_degree(relations: &[SparsePolynomialQ]) -> (d: usize)
    requires
        relation_degrees_fit(relations@),
    ensures
        d == spec_d_max(relations@),
{
    let mut best: usize = 0;
    let n = relations.len();
    for i in 0..n
        invariant
            n == relations@.len(),
            relation_degrees_fit(relations@),
            best == spec_d_max(relations@.take(i as int)),
    {
        proof {
            assert(relations@.take(i + 1).drop_last() == relations@.take(i as int));
        }
        let d = poly_total_degree(&relations[i]) as usize;
        if d >= best {
            best = d;
        }
    }
    assert(relations@.take(n as int) == relations@);
    best
}

/// The sum of the exponents of the variables in `ex`.
pub open spec fn exported_degree(s: Seq<(VariableId, u32)>, ex: Set<VariableId>) -> nat
    decreases s.len(),
{
    if s.len() == 0 {
        0
    } else {
        exported_degree(s.drop_last(), ex) + if ex.contains(s.last().0) {
            s.last().1 as nat
        } else {
            0
        }
    }
}

/// The largest exported degree over a term list (0 for none).
pub open spec fn max_exported_degree_terms(terms: Seq<TermQ>, ex: Set<VariableId>) -> nat
    decreases terms.len(),
{
    if terms.len() == 0 {
        0
    } else {
        let d = exported_degree(terms.last().monomial.exponents@, ex);
        let rest = max_exported_degree_terms(terms.drop_last(), ex);
        if d >= rest {
            d
        } else {
            rest
        }
    }
}

/// The largest exported degree over every term of every relation (0 for none).
pub open spec fn max_exported_degree(relations: Seq<SparsePolynomialQ>, ex: Set<VariableId>) -> nat
    decreases relations.len(),
{
    if relations.len() == 0 {
        0
    } else {
        let d = max_exported_degree_terms(relations.last().terms@, ex);
        let rest = max_exported_degree(relations.drop_last(), ex);
        if d >= rest {
            d
        } else {
            rest
        }
    }
}

/// The first export degree searched: the largest exported degree of any term, at least 1.
pub open spec fn spec_z_seed(relations: Seq<SparsePolynomialQ>, ex: Set<VariableId>) -> nat {
    let d = max_exported_degree(relations, ex);
    if d >= 1 {
        d
    } else {
        1
    }
}

proof fn lemma_exported_le_sum(s: Seq<(VariableId, u32)>, ex: Set<VariableId>)
    ensures
        exported_degree(s, ex) <= exponent_sum(s),
    decreases s.len(),
{
    if s.len() > 0 {
        lemma_exported_le_sum(s.drop_last(), ex);
    }
}

fn term_exported_degree(entries: &Vec<(VariableId, u32)>, exported: &[VariableId]) -> (d: usize)
    requires
        exponent_sum(entries@) <= u32::MAX,
    ensures
        d == exported_degree(entries@, exported@.to_set()),
{
    let mut d: usize = 0;
    let n = entries.len();
    for i in 0..n
        invariant
            n == entries@.len(),
            exponent_sum(entries@) <= u32::MAX,
            d == exported_degree(entries@.take(i as int), exported@.to_set()),
    {
        let ghost t = entries@.take(i + 1);
        proof {
            assert(t.drop_last() == entries@.take(i as int));
            crate::types::monomial::lemma_exponent_sum_prefix(entries@, i + 1);
            lemma_exported_le_sum(t, exported@.to_set());
        }
        if contains_variable(exported, entries[i].0) {
            d = d + entries[i].1 as usize;
        }
    }
    assert(entries@.take(n as int) == entries@);
    d
}

/// The first export degree of dense relation search: the largest degree any relation term
/// has in the exported variables, at least 1.
pub fn relation_search_z_seed(relations: &[SparsePolynomialQ], exported: &[VariableId]) -> (z: usize)
    requires
        relation_degrees_fit(relations@),
    ensures
        z == spec_z_seed(relations@, exported@.to_set()),
{
    let ghost ex = exported@.to_set();
    let mut best: usize = 0;
    let n = relations.len();
    for i in 0..n
        invariant
            n == relations@.len(),
            relation_degrees_fit(relations@),
            ex == exported@.to_set(),
            best == max_exported_degree(relations@.take(i as int), ex),
    {
        proof {
            assert(relations@.take(i + 1).drop_last() == relations@.take(i as int));
        }
        let terms = &relations[i].terms;
        let m = terms.len();
        let mut local: usize = 0;
        for t in 0..m
            invariant
                m == terms@.len(),
                degrees_fit_u32(terms@),
                ex == exported@.to_set(),
                local == max_exported_degree_terms(terms@.take(t as int), ex),
        {
            proof {
                assert(terms@.take(t + 1).drop_last() == terms@.take(t as int));
                assert(exponent_sum(terms@[t as int].monomial.exponents@) <= u32::MAX);
            }
            let d = term_exported_degree(&terms[t].monomial.exponents, exported);
            if d >= local {
                local = d;
            }
        }
        assert(terms@.take(m as int) == terms@);
        if local >= best {
            best = local;
        }
    }
    assert(relations@.take(n as int) == relations@);
    if best >= 1 {
        best
    } else {
        1
    }
}

/// The default last export degree: the z seed, or twice the largest relation degree plus
/// the variable counts if that is larger (each step saturating).
pub open spec fn spec_default_export_degree_cap(
    relations: Seq<SparsePolynomialQ>,
    eliminated_len: nat,
    exported_len: nat,
    ex: Set<VariableId>,
) -> nat {
    let z = spec_z_seed(relations, ex);
    let doubled = clamp_usize((2 * spec_d_max(relations)) as int);
    let with_eliminated = clamp_usize(doubled + eliminated_len);
    let b = clamp_usize(with_eliminated + exported_len) as nat;
    if z >= b {
        z
    } else {
        b
    }
}

pub fn relation_search_default_export_degree_cap(
    relations: &[SparsePolynomialQ],
    eliminated: &[VariableId],
    exported: &[VariableId],
) -> (cap: usize)
    requires
        relation_degrees_fit(relations@),
    ensures
        cap == spec_default_export_degree_cap(relations@, eliminated@.len(), exported@.len(), exported@.to_set()),
{
    let d_max = max_relation_degree(relations);
    let z_seed = relation_search_z_seed(relations, exported);
    let doubled = crate::types::arith::sat_mul_usize(2, d_max);
    let b = sat_add_usize(sat_add_usize(doubled, eliminated.len()), exported.len());
    if z_seed >= b {
        z_seed
    } else {
        b
    }
}

/// The number of stages from `z` to `e_cap` inclusive (none when `e_cap < z`).
pub open spec fn planned_stages(e_cap: nat, z: nat) -> nat {
    if e_cap >= z {
        clamp_usize(e_cap - z + 1) as nat
    } else {
        0
    }
}

/// How many stages the preflight estimates: all planned ones, or one past the cap.
pub open spec fn estimated_stages(planned: nat, max_stages: nat) -> nat {
    let extra: int = if planned > max_stages {
        1
    } else {
        0
    };
    let limit = clamp_usize(max_stages + extra) as nat;
    if planned <= limit {
        planned
    } else {
        limit
    }
}

/// The position of the first infeasible stage.
pub open spec fn first_infeasible(stages: Seq<RelationSearchStageEstimate>) -> Option<int>
    decreases stages.len(),
{
    if stages.len() == 0 {
        None
    } else if !stages[0].feasible {
        Some(0)
    } else {
        match first_infeasible(stages.drop_first()) {
            Some(i) => Some(i + 1),
            None => None,
        }
    }
}

proof fn lemma_first_infeasible_skip(stages: Seq<RelationSearchStageEstimate>, i: int)
    requires
        0 <= i < stages.len(),
    ensures
        first_infeasible(stages.skip(i)) == if !stages[i].feasible {
            Some(0int)
        } else {
            match first_infeasible(stages.skip(i + 1)) {
                Some(k) => Some(k + 1),
                None => None,
            }
        },
{
    assert(stages.skip(i)[0] == stages[i]);
    assert(stages.skip(i).drop_first() == stages.skip(i + 1));
}

/// The export degree of the first stage that breaks a cap; past the stage cap when there
/// are too many stages and none breaks one.
pub open spec fn spec_first_prohibited_stage(
    stages: Seq<RelationSearchStageEstimate>,
    too_many: bool,
    z: nat,
    max_stages: nat,
) -> Option<usize> {
    match first_infeasible(stages) {
        Some(i) => Some(stages[i].export_degree),
        None => if too_many && z + max_stages <= usize::MAX {
            Some((z + max_stages) as usize)
        } else {
            None
        },
    }
}

fn find_first_infeasible(stages: &Vec<RelationSearchStageEstimate>) -> (r: Option<usize>)
    ensures
        match first_infeasible(stages@) {
            Some(i) => r == Some(stages@[i].export_degree),
            None => r is None,
        },
{
    let ghost s = stages@;
    assert(s.skip(0) == s);
    let n = stages.len();
    for i in 0..n
        invariant
            n == s.len(),
            s == stages@,
            first_infeasible(s) == match first_infeasible(s.skip(i as int)) {
                Some(k) => Some(k + i),
                None => None,
            },
    {
        proof {
            lemma_first_infeasible_skip(s, i as int);
        }
        if !stages[i].feasible {
            return Some(stages[i].export_degree);
        }
    }
    assert(s.skip(n as int).len() == 0);
    None
}

/// What the dense relation search preflight of these relations, variables and options holds.
pub open spec fn is_dense_preflight(
    p: DenseRelationSearchPreflight,
    relations: Seq<SparsePolynomialQ>,
    eliminated: Seq<VariableId>,
    exported: Seq<VariableId>,
    options: SolverOptions,
) -> bool {
    let caps = spec_planning_caps(options);
    let z = spec_z_seed(relations, exported.to_set());
    let d_max = spec_d_max(relations);
    let e_cap: nat = match options.max_relation_search_export_degree {
        Some(c) => c as nat,
        None => spec_default_export_degree_cap(
            relations,
            eliminated.to_set().len(),
            exported.to_set().len(),
            exported.to_set(),
        ),
    };
    let planned = planned_stages(e_cap, z);
    let estimated = estimated_stages(planned, caps.max_materialized_stages as nat);
    let too_many = planned > caps.max_materialized_stages;
    &&& var_ids_increasing(p.eliminated_variables@)
    &&& p.eliminated_variables@.to_set() == eliminated.to_set()
    &&& var_ids_increasing(p.exported_variables@)
    &&& p.exported_variables@.to_set() == exported.to_set()
    &&& p.z_seed == z
    &&& p.e_cap == e_cap
    &&& p.d_max == d_max
    &&& p.planned_stage_count == SaturatingCount { value: Some(planned as u128), saturated: false }
    &&& p.estimated_stage_count == estimated
    &&& p.caps == caps
    &&& p.stage_estimates@.len() == estimated
    &&& forall|i: int|
        0 <= i < estimated ==> is_stage_estimate(
            #[trigger] p.stage_estimates@[i],
            relations,
            exported.to_set().len(),
            union_count(eliminated, exported),
            d_max,
            (z + i) as nat,
            caps,
        )
    &&& p.first_prohibited_stage == spec_first_prohibited_stage(
        p.stage_estimates@,
        too_many,
        z,
        caps.max_materialized_stages as nat,
    )
    &&& p.materialization_allowed == (planned != 0 && !too_many && estimated == planned && first_infeasible(
        p.stage_estimates@,
    ) is None)
    &&& p.preflight_hash.0@ == spec_hash_preflight(p)
}

/// A stage estimate is feasible exactly when none of its export columns, total multiplier
/// columns, matrix columns, rows and memory bytes exceeds its cap.
pub proof fn lemma_stage_feasible_within_caps(
    e: RelationSearchStageEstimate,
    relations: Seq<SparsePolynomialQ>,
    exported_count: nat,
    all_count: nat,
    d_max: nat,
    export_degree: nat,
    caps: RelationSearchPlanningCaps,
)
    requires
        is_stage_estimate(e, relations, exported_count, all_count, d_max, export_degree, caps),
    ensures
        e.feasible <==> (!count_exceeds(e.export_cols, caps.max_export_cols as int) && !count_exceeds(
            e.total_multiplier_cols,
            caps.max_total_multiplier_cols as int,
        ) && !count_exceeds(e.estimated_matrix_cols, caps.max_matrix_cols as int) && !count_exceeds(
            e.estimated_rows_upper_bound,
            caps.max_matrix_rows as int,
        ) && !count_exceeds(e.estimated_memory_bytes_upper_bound, caps.max_estimated_memory_bytes as int)),
{
    reveal(is_stage_estimate);
}

/// No stage is infeasible exactly when every stage is feasible.
pub proof fn lemma_first_infeasible_none(stages: Seq<RelationSearchStageEstimate>)
    ensures
        first_infeasible(stages) is None <==> forall|i: int| 0 <= i < stages.len() ==> (#[trigger] stages[i]).feasible,
    decreases stages.len(),
{
    if stages.len() > 0 {
        let rest = stages.drop_first();
        lemma_first_infeasible_none(rest);
        if stages[0].feasible && first_infeasible(rest) is None {
            assert forall|i: int| 0 <= i < stages.len() implies (#[trigger] stages[i]).feasible by {
                if i > 0 {
                    assert(stages[i] == rest[i - 1]);
                }
            }
        } else if stages[0].feasible {
            let i = choose|i: int| 0 <= i < rest.len() && !(#[trigger] rest[i]).feasible;
            assert(stages[i + 1] == rest[i]);
        }
    }
}

/// A dense preflight allows materialization only when there are planned stages, each stage
/// was estimated and every stage estimate is feasible.
pub proof fn lemma_materialization_needs_feasible_stages(
    p: DenseRelationSearchPreflight,
    relations: Seq<SparsePolynomialQ>,
    eliminated: Seq<VariableId>,
    exported: Seq<VariableId>,
    options: SolverOptions,
)
    requires
        is_dense_preflight(p, relations, eliminated, exported, options),
    ensures
        p.materialization_allowed ==> forall|i: int| 0 <= i < p.stage_estimates@.len() ==> (#[trigger] p.stage_estimates@[i]).feasible,
        p.materialization_allowed ==> p.stage_estimates@.len() > 0,
        (exists|i: int| 0 <= i < p.stage_estimates@.len() && !(#[trigger] p.stage_estimates@[i]).feasible) ==> !p.materialization_allowed,
        p.materialization_allowed ==> p.stage_estimates@.len() <= p.caps.max_materialized_stages,
        p.materialization_allowed ==> p.planned_stage_count.value == Some(p.stage_estimates@.len() as u128),
        p.materialization_allowed ==> forall|i: int|
            0 <= i < p.stage_estimates@.len() ==> !count_exceeds(
                (#[trigger] p.stage_estimates@[i]).estimated_matrix_cols,
                p.caps.max_matrix_cols as int,
            ) && !count_exceeds(p.stage_estimates@[i].estimated_rows_upper_bound, p.caps.max_matrix_rows as int)
                && !count_exceeds(p.stage_estimates@[i].export_cols, p.caps.max_export_cols as int) && !count_exceeds(
                p.stage_estimates@[i].total_multiplier_cols,
                p.caps.max_total_multiplier_cols as int,
            ) && !count_exceeds(
                p.stage_estimates@[i].estimated_memory_bytes_upper_bound,
                p.caps.max_estimated_memory_bytes as int,
            ),
{
    lemma_first_infeasible_none(p.stage_estimates@);
    if p.materialization_allowed {
        let caps = spec_planning_caps(options);
        let z = spec_z_seed(relations, exported.to_set());
        assert forall|i: int| 0 <= i < p.stage_estimates@.len() implies !count_exceeds(
            (#[trigger] p.stage_estimates@[i]).estimated_matrix_cols,
            p.caps.max_matrix_cols as int,
        ) && !count_exceeds(p.stage_estimates@[i].estimated_rows_upper_bound, p.caps.max_matrix_rows as int)
            && !count_exceeds(p.stage_estimates@[i].export_cols, p.caps.max_export_cols as int) && !count_exceeds(
            p.stage_estimates@[i].total_multiplier_cols,
            p.caps.max_total_multiplier_cols as int,
        ) && !count_exceeds(
            p.stage_estimates@[i].estimated_memory_bytes_upper_bound,
            p.caps.max_estimated_memory_bytes as int,
        ) by {
            lemma_stage_feasible_within_caps(
                p.stage_estimates@[i],
                relations,
                exported.to_set().len(),
                union_count(eliminated, exported),
                spec_d_max(relations),
                (z + i) as nat,
                caps,
            );
        }
    }
}

proof fn lemma_sorted_len(out: Seq<VariableId>, a: Seq<VariableId>)
    requires
        var_ids_increasing(out),
        forall|w: VariableId| #[trigger] out.contains(w) <==> a.contains(w),
    ensures
        out.len() == a.to_set().len(),
        out.to_set() == a.to_set(),
{
    assert(out.no_duplicates()) by {
        assert forall|i: int, j: int| 0 <= i < out.len() && 0 <= j < out.len() && i != j implies out[i] != out[j] by {
            if i < j {
                assert(out[i].0 < out[j].0);
            } else {
                assert(out[j].0 < out[i].0);
            }
        }
    }
    out.unique_seq_to_set();
    assert(out.to_set() =~= a.to_set());
}

proof fn lemma_first_infeasible_bounds(stages: Seq<RelationSearchStageEstimate>)
    ensures
        first_infeasible(stages) matches Some(i) ==> 0 <= i < stages.len() && !stages[i].feasible,
    decreases stages.len(),
{
    if stages.len() > 0 && stages[0].feasible {
        lemma_first_infeasible_bounds(stages.drop_first());
    }
}

/// Estimates for the stages exporting degrees `z_seed`, `z_seed + 1`, ... (`count` of them).
fn estimate_stages(
    relations: &[SparsePolynomialQ],
    eliminated: &[VariableId],
    exported: &[VariableId],
    z_seed: usize,
    d_max: usize,
    count: usize,
    caps: &RelationSearchPlanningCaps,
) -> (stages: Vec<RelationSearchStageEstimate>)
    requires
        relation_degrees_fit(relations@),
        z_seed + count <= usize::MAX + 1,
    ensures
        stages@.len() == count,
        forall|i: int|
            0 <= i < count ==> is_stage_estimate(
                #[trigger] stages@[i],
                relations@,
                exported@.len(),
                union_count(eliminated@, exported@),
                d_max as nat,
                (z_seed + i) as nat,
                *caps,
            ),
{
    let mut stage_estimates: Vec<RelationSearchStageEstimate> = Vec::new();
    let mut offset: usize = 0;
    while offset < count
        invariant
            offset <= count,
            z_seed + count <= usize::MAX + 1,
            relation_degrees_fit(relations@),
            stage_estimates@.len() == offset,
            forall|i: int|
                0 <= i < offset ==> is_stage_estimate(
                    #[trigger] stage_estimates@[i],
                    relations@,
                    exported@.len(),
                    union_count(eliminated@, exported@),
                    d_max as nat,
                    (z_seed + i) as nat,
                    *caps,
                ),
        decreases count - offset,
    {
        let export_degree = z_seed + offset;
        let estimate = estimate_relation_search_stage(relations, eliminated, exported, d_max, export_degree, caps);
        stage_estimates.push(estimate);
        offset = offset + 1;
    }
    stage_estimates
}

fn all_stages_feasible(stages: &Vec<RelationSearchStageEstimate>) -> (r: bool)
    ensures
        r == (first_infeasible(stages@) is None),
{
    let mut all_feasible = true;
    let n = stages.len();
    for i in 0..n
        invariant
            n == stages@.len(),
            all_feasible == forall|j: int| 0 <= j < i ==> #[trigger] stages@[j].feasible,
    {
        if !stages[i].feasible {
            all_feasible = false;
        }
    }
    proof {
        lemma_first_infeasible_none(stages@);
    }
    all_feasible
}

/// The dense relation search preflight: the stages from the z seed to the export cap (at
/// most one past the stage cap), each with its estimate, and whether materializing all of
/// them stays within every cap.
#[verifier::rlimit(60)]
pub fn estimate_dense_relation_search_schedule(
    relations: &[SparsePolynomialQ],
    eliminated: &[VariableId],
    exported: &[VariableId],
    options: &SolverOptions,
) -> (p: DenseRelationSearchPreflight)
    requires
        relation_degrees_fit(relations@),
    ensures
        is_dense_preflight(p, relations@, eliminated@, exported@, *options),
        p.materialization_allowed ==> forall|i: int| 0 <= i < p.stage_estimates@.len() ==> (#[trigger] p.stage_estimates@[i]).feasible,
{
    let eliminated_variables = sort_dedup_variables(eliminated);
    let exported_variables = sort_dedup_variables(exported);
    proof {
        lemma_sorted_len(eliminated_variables@, eliminated@);
        lemma_sorted_len(exported_variables@, exported@);
        assert(union_count(eliminated_variables@, exported_variables@) == union_count(eliminated@, exported@));
    }
    let z_seed = relation_search_z_seed(relations, exported_variables.as_slice());
    let d_max = max_relation_degree(relations);
    let default_cap = relation_search_default_export_degree_cap(
        relations,
        eliminated_variables.as_slice(),
        exported_variables.as_slice(),
    );
    let e_cap = match options.max_relation_search_export_degree {
        Some(c) => c,
        None => default_cap,
    };
    let caps = RelationSearchPlanningCaps::from_options(options);
    let planned: usize = if e_cap >= z_seed {
        sat_add_usize(e_cap - z_seed, 1)
    } else {
        0
    };
    let planned_stage_count = SaturatingCount::exact(planned as u128);
    let extra: usize = if planned > caps.max_materialized_stages {
        1
    } else {
        0
    };
    let limit = sat_add_usize(caps.max_materialized_stages, extra);
    let estimated_stage_count = if planned <= limit {
        planned
    } else {
        limit
    };
    let stage_estimates = estimate_stages(
        relations,
        eliminated_variables.as_slice(),
        exported_variables.as_slice(),
        z_seed,
        d_max,
        estimated_stage_count,
        &caps,
    );
    let too_many_stages = planned > caps.max_materialized_stages;
    let no_stages = planned == 0;
    let first_infeasible_degree = find_first_infeasible(&stage_estimates);
    let first_prohibited_stage = match first_infeasible_degree {
        Some(d) => Some(d),
        None => if too_many_stages {
            z_seed.checked_add(caps.max_materialized_stages)
        } else {
            None
        },
    };
    let all_feasible = all_stages_feasible(&stage_estimates);
    let materialization_allowed = !no_stages && !too_many_stages && stage_estimates.len() == planned
        && all_feasible;
    let mut preflight = DenseRelationSearchPreflight {
        eliminated_variables,
        exported_variables,
        z_seed,
        e_cap,
        d_max,
        planned_stage_count,
        estimated_stage_count,
        first_prohibited_stage,
        caps,
        stage_estimates,
        materialization_allowed,
        preflight_hash: hash_sequence("dense-trs-preflight", &[]),
    };
    preflight.preflight_hash = hash_dense_relation_search_preflight(&preflight);
    proof {
        let p = preflight;
        let caps_s = spec_planning_caps(*options);
        let z = spec_z_seed(relations@, exported@.to_set());
        assert(p.z_seed == z);
        assert(p.caps == caps_s);
        assert(p.d_max == spec_d_max(relations@));
        let e_cap: nat = match options.max_relation_search_export_degree {
            Some(c) => c as nat,
            None => spec_default_export_degree_cap(
                relations@,
                eliminated@.to_set().len(),
                exported@.to_set().len(),
                exported@.to_set(),
            ),
        };
        assert(p.e_cap == e_cap);
        let planned_s = planned_stages(e_cap, z);
        assert(planned == planned_s);
        let estimated_s = estimated_stages(planned_s, caps_s.max_materialized_stages as nat);
        assert(p.estimated_stage_count == estimated_s);
        assert(p.stage_estimates@.len() == estimated_s);
        assert(p.first_prohibited_stage == spec_first_prohibited_stage(
            p.stage_estimates@,
            planned_s > caps_s.max_materialized_stages,
            z,
            caps_s.max_materialized_stages as nat,
        ));
        assert(p.preflight_hash.0@ == spec_hash_preflight(p));
        lemma_materialization_needs_feasible_stages(p, relations@, eliminated@, exported@, *options);
    }
    preflight
}

/// The first prohibition reason of a preflight, as `first_prohibition_reason` gives it.
pub open spec fn spec_prohibition_reason(p: DenseRelationSearchPreflight) -> Option<Seq<char>> {
    match first_reason_index(p.stage_estimates@) {
        Some(i) => match p.stage_estimates@[i].prohibition_reason {
            Some(t) => Some(t@),
            None => None,
        },
        None => if !p.materialization_allowed {
            Some("stage count exceeds dense TargetRelationSearch materialization cap"@)
        } else {
            None
        },
    }
}

/// The first stage's degree and estimates, or `first_export_degree=none`.
pub open spec fn first_stage_text(p: DenseRelationSearchPreflight) -> Seq<char> {
    if p.stage_estimates@.len() == 0 {
        "first_export_degree=none"@
    } else {
        let st = p.stage_estimates@[0];
        "first_export_degree="@ + decimal(st.export_degree as nat) + ", estimated_matrix_cols="@
            + spec_display_value(st.estimated_matrix_cols) + ", estimated_rows="@ + spec_display_value(
            st.estimated_rows_upper_bound,
        ) + ", estimated_memory_bytes="@ + spec_display_value(st.estimated_memory_bytes_upper_bound)
    }
}

/// The caps and stage count part of the decline text.
pub open spec fn caps_text(p: DenseRelationSearchPreflight) -> Seq<char> {
    " matrix_col_cap="@ + decimal(p.caps.max_matrix_cols as nat) + " matrix_row_cap="@ + decimal(
        p.caps.max_matrix_rows as nat,
    ) + " memory_cap_bytes="@ + decimal(p.caps.max_estimated_memory_bytes as nat) + " stage_count="@
        + spec_display_value(p.planned_stage_count) + " materialized_stage_cap="@ + decimal(
        p.caps.max_materialized_stages as nat,
    )
}

/// The reason part of the decline text.
pub open spec fn reason_text(p: DenseRelationSearchPreflight) -> Seq<char> {
    " reason="@ + match spec_prohibition_reason(p) {
        Some(r) => r,
        None => "dense TargetRelationSearch preflight did not admit materialization"@,
    }
}

/// The diagnostic text of a declined dense relation search.
pub open spec fn spec_decline_reason(p: DenseRelationSearchPreflight) -> Seq<char> {
    "CostProhibitedDenseRoute: kernel=TargetRelationSearch route=DenseTotalDegree decision=CostProhibitedDenseRoute "@
        + first_stage_text(p) + caps_text(p) + reason_text(p)
}

fn push_first_stage_text(text: &mut String, preflight: &DenseRelationSearchPreflight)
    ensures
        final(text)@ == old(text)@ + first_stage_text(*preflight),
{
    let ghost start = text@;
    if preflight.stage_estimates.len() == 0 {
        text.append("first_export_degree=none");
    } else {
        let stage = &preflight.stage_estimates[0];
        text.append("first_export_degree=");
        push_decimal(text, stage.export_degree as u128);
        text.append(", estimated_matrix_cols=");
        let cols = stage.estimated_matrix_cols.display_value();
        text.append(cols.as_str());
        text.append(", estimated_rows=");
        let rows = stage.estimated_rows_upper_bound.display_value();
        text.append(rows.as_str());
        text.append(", estimated_memory_bytes=");
        let memory = stage.estimated_memory_bytes_upper_bound.display_value();
        text.append(memory.as_str());
    }
    assert(text@ =~= start + first_stage_text(*preflight));
}

fn push_caps_text(text: &mut String, preflight: &DenseRelationSearchPreflight)
    ensures
        final(text)@ == old(text)@ + caps_text(*preflight),
{
    let ghost start = text@;
    text.append(" matrix_col_cap=");
    push_decimal(text, preflight.caps.max_matrix_cols as u128);
    text.append(" matrix_row_cap=");
    push_decimal(text, preflight.caps.max_matrix_rows as u128);
    text.append(" memory_cap_bytes=");
    push_decimal(text, preflight.caps.max_estimated_memory_bytes as u128);
    text.append(" stage_count=");
    let count = preflight.planned_stage_count.display_value();
    text.append(count.as_str());
    text.append(" materialized_stage_cap=");
    push_decimal(text, preflight.caps.max_materialized_stages as u128);
    assert(text@ =~= start + caps_text(*preflight));
}

fn push_reason_text(text: &mut String, preflight: &DenseRelationSearchPreflight)
    ensures
        final(text)@ == old(text)@ + reason_text(*preflight),
{
    let ghost start = text@;
    text.append(" reason=");
    match preflight.first_prohibition_reason() {
        Some(reason) => text.append(reason),
        None => text.append("dense TargetRelationSearch preflight did not admit materialization"),
    }
    assert(text@ =~= start + reason_text(*preflight));
}

/// Why dense relation search was declined: the route, the first stage's estimates, the caps
/// and the first prohibition reason.
pub fn dense_relation_search_decline_reason(preflight: &DenseRelationSearchPreflight) -> (text: String)
    ensures
        text@ == spec_decline_reason(*preflight),
{
    let mut text = String::new();
    text.append(
        "CostProhibitedDenseRoute: kernel=TargetRelationSearch route=DenseTotalDegree decision=CostProhibitedDenseRoute ",
    );
    push_first_stage_text(&mut text, preflight);
    push_caps_text(&mut text, preflight);
    push_reason_text(&mut text, preflight);
    assert(text@ =~= spec_decline_reason(*preflight));
    text
}

} // verus!
