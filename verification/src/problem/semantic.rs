//! Real-constraint encodings: which relations and slack variables encode an inequality.
use vstd::prelude::*;
use vstd::string::StringSliceAdditionalSpecFns;

use crate::types::bytes::{be_bytes, extend_bytes, u32_be};
use crate::types::hash::{self, chunk_views, hash_sequence, spec_hash_sequence};
use crate::types::id_set::{contains_relation, contains_variable, insert_relation_sorted, relation_ids_increasing};
use crate::types::ids::{RelationId, VariableId};
use crate::types::text::str_bytes;
use crate::types::chunks::push_chunk;

verus! {

#[derive(Debug, Clone, Copy, PartialEq, Eq, Structural)]
pub enum RealConstraintKind {
    NonNegative,
    Positive,
    NonZero,
    BranchChoice,
    Other,
}

#[derive(Debug, Clone, PartialEq, Eq)]
pub struct RealConstraintEncoding {
    pub original_kind: RealConstraintKind,
    pub encoded_relation_ids: Vec<RelationId>,
    pub slack_variables: Vec<VariableId>,
    pub semantic_hash: hash::Hash,
}

/// A semantic encoding refers to a relation or variable the problem does not have.
#[derive(Debug, Clone, Copy, PartialEq, Eq, Structural)]
pub struct InvalidInput;

/// The variant's name, as `{:?}` prints it.
pub open spec fn real_constraint_kind_label(kind: RealConstraintKind) -> Seq<char> {
    match kind {
        RealConstraintKind::NonNegative => "NonNegative"@,
        RealConstraintKind::Positive => "Positive"@,
        RealConstraintKind::NonZero => "NonZero"@,
        RealConstraintKind::BranchChoice => "BranchChoice"@,
        RealConstraintKind::Other => "Other"@,
    }
}

fn real_constraint_kind_name(kind: RealConstraintKind) -> (s: &'static str)
    ensures
        s@ == real_constraint_kind_label(kind),
{
    match kind {
        RealConstraintKind::NonNegative => "NonNegative",
        RealConstraintKind::Positive => "Positive",
        RealConstraintKind::NonZero => "NonZero",
        RealConstraintKind::BranchChoice => "BranchChoice",
        RealConstraintKind::Other => "Other",
    }
}

/// The relation ids written one after another, four big-endian bytes each.
pub open spec fn relation_id_bytes(rs: Seq<RelationId>) -> Seq<u8>
    decreases rs.len(),
{
    if rs.len() == 0 {
        Seq::empty()
    } else {
        relation_id_bytes(rs.drop_last()) + be_bytes(rs.last().0 as nat, 4)
    }
}

/// The variable ids written one after another, four big-endian bytes each.
pub open spec fn variable_id_bytes(vs: Seq<VariableId>) -> Seq<u8>
    decreases vs.len(),
{
    if vs.len() == 0 {
        Seq::empty()
    } else {
        variable_id_bytes(vs.drop_last()) + be_bytes(vs.last().0 as nat, 4)
    }
}

pub fn relation_ids_to_bytes(rs: &[RelationId]) -> (out: Vec<u8>)
    ensures
        out@ == relation_id_bytes(rs@),
{
    let mut out: Vec<u8> = Vec::new();
    let n = rs.len();
    for i in 0..n
        invariant
            n == rs@.len(),
            out@ == relation_id_bytes(rs@.take(i as int)),
    {
        let b = u32_be(rs[i].0);
        extend_bytes(&mut out, b.as_slice());
        assert(rs@.take(i + 1).drop_last() == rs@.take(i as int));
    }
    assert(rs@.take(n as int) == rs@);
    out
}

pub fn variable_ids_to_bytes(vs: &[VariableId]) -> (out: Vec<u8>)
    ensures
        out@ == variable_id_bytes(vs@),
{
    let mut out: Vec<u8> = Vec::new();
    let n = vs.len();
    for i in 0..n
        invariant
            n == vs@.len(),
            out@ == variable_id_bytes(vs@.take(i as int)),
    {
        let b = u32_be(vs[i].0);
        extend_bytes(&mut out, b.as_slice());
        assert(vs@.take(i + 1).drop_last() == vs@.take(i as int));
    }
    assert(vs@.take(n as int) == vs@);
    out
}

/// The digest binding an encoding's kind, relations and slack variables.
pub open spec fn spec_semantic_hash(
    kind: RealConstraintKind,
    relations: Seq<RelationId>,
    slacks: Seq<VariableId>,
) -> Seq<u8> {
    spec_hash_sequence(
        "real-constraint".spec_bytes(),
        seq![
            vstd::utf8::encode_utf8(real_constraint_kind_label(kind)),
            relation_id_bytes(relations),
            variable_id_bytes(slacks),
        ],
    )
}

/// Records that `kind` is encoded by these relations and slack variables.
pub fn register_slack_encoding(
    kind: RealConstraintKind,
    encoded_relation_ids: Vec<RelationId>,
    slack_variables: Vec<VariableId>,
) -> (e: RealConstraintEncoding)
    ensures
        e.original_kind == kind,
        e.encoded_relation_ids@ == encoded_relation_ids@,
        e.slack_variables@ == slack_variables@,
        e.semantic_hash.0@ == spec_semantic_hash(kind, encoded_relation_ids@, slack_variables@),
{
    let mut chunks: Vec<Vec<u8>> = Vec::new();
    push_chunk(&mut chunks, str_bytes(real_constraint_kind_name(kind)));
    push_chunk(&mut chunks, relation_ids_to_bytes(encoded_relation_ids.as_slice()));
    push_chunk(&mut chunks, variable_ids_to_bytes(slack_variables.as_slice()));
    let semantic_hash = hash_sequence("real-constraint", chunks.as_slice());
    assert(chunk_views(chunks@) =~= seq![
        vstd::utf8::encode_utf8(real_constraint_kind_label(kind)),
        relation_id_bytes(encoded_relation_ids@),
        variable_id_bytes(slack_variables@),
    ]);
    RealConstraintEncoding { original_kind: kind, encoded_relation_ids, slack_variables, semantic_hash }
}

/// Some encoding lists relation `r`.
pub open spec fn encodes_relation(sem: Seq<RealConstraintEncoding>, r: RelationId) -> bool {
    exists|i: int, j: int|
        0 <= i < sem.len() && 0 <= j < sem[i].encoded_relation_ids@.len()
            && #[trigger] sem[i].encoded_relation_ids@[j] == r
}

/// The relations the encodings use, each once, in increasing id order.
pub fn semantic_relations(sem: &[RealConstraintEncoding]) -> (out: Vec<RelationId>)
    ensures
        relation_ids_increasing(out@),
        forall|r: RelationId| #[trigger] out@.contains(r) <==> encodes_relation(sem@, r),
{
    let mut out: Vec<RelationId> = Vec::new();
    let n = sem.len();
    for i in 0..n
        invariant
            n == sem@.len(),
            relation_ids_increasing(out@),
            forall|r: RelationId| #[trigger] out@.contains(r) <==> encodes_relation(sem@.take(i as int), r),
    {
        let ids = &sem[i].encoded_relation_ids;
        let m = ids.len();
        for j in 0..m
            invariant
                n == sem@.len(),
                i < n,
                ids@ == sem@[i as int].encoded_relation_ids@,
                m == ids@.len(),
                relation_ids_increasing(out@),
                forall|r: RelationId| #[trigger] out@.contains(r) <==> encodes_relation(sem@.take(i as int), r)
                    || exists|b: int| 0 <= b < j && #[trigger] ids@[b] == r,
        {
            insert_relation_sorted(&mut out, ids[j]);
            proof {
                assert forall|r: RelationId| #[trigger] out@.contains(r) <==> encodes_relation(sem@.take(i as int), r)
                    || exists|b: int| 0 <= b < j + 1 && #[trigger] ids@[b] == r by {
                    if r == ids@[j as int] {
                        assert(exists|b: int| 0 <= b < j + 1 && #[trigger] ids@[b] == r);
                    }
                    if exists|b: int| 0 <= b < j + 1 && #[trigger] ids@[b] == r {
                        let b = choose|b: int| 0 <= b < j + 1 && #[trigger] ids@[b] == r;
                        if b < j {
                            assert(exists|b: int| 0 <= b < j && #[trigger] ids@[b] == r);
                        }
                    }
                }
            }
        }
        proof {
            let before = sem@.take(i as int);
            let after = sem@.take(i + 1);
            assert forall|r: RelationId| #[trigger] out@.contains(r) <==> encodes_relation(after, r) by {
                if encodes_relation(after, r) {
                    let (a, b) = choose|a: int, b: int|
                        0 <= a < after.len() && 0 <= b < after[a].encoded_relation_ids@.len()
                            && #[trigger] after[a].encoded_relation_ids@[b] == r;
                    if a < i {
                        assert(before[a] == after[a]);
                        assert(encodes_relation(before, r));
                    } else {
                        assert(ids@[b] == r);
                    }
                }
                if encodes_relation(before, r) {
                    let (a, b) = choose|a: int, b: int|
                        0 <= a < before.len() && 0 <= b < before[a].encoded_relation_ids@.len()
                            && #[trigger] before[a].encoded_relation_ids@[b] == r;
                    assert(after[a] == before[a]);
                    assert(after[a].encoded_relation_ids@[b] == r);
                }
                if exists|b: int| 0 <= b < m && #[trigger] ids@[b] == r {
                    let b = choose|b: int| 0 <= b < m && #[trigger] ids@[b] == r;
                    assert(after[i as int] == sem@[i as int]);
                    assert(after[i as int].encoded_relation_ids@[b] == r);
                }
            }
        }
    }
    assert(sem@.take(n as int) == sem@);
    out
}

/// Every relation an encoding lists is among `relations`, and every slack variable among `variables`.
pub open spec fn semantic_references_resolve(
    sem: Seq<RealConstraintEncoding>,
    relations: Seq<RelationId>,
    variables: Seq<VariableId>,
) -> bool {
    &&& forall|i: int, j: int|
        0 <= i < sem.len() && 0 <= j < sem[i].encoded_relation_ids@.len() ==> relations.contains(
            #[trigger] sem[i].encoded_relation_ids@[j],
        )
    &&& forall|i: int, j: int|
        0 <= i < sem.len() && 0 <= j < sem[i].slack_variables@.len() ==> variables.contains(
            #[trigger] sem[i].slack_variables@[j],
        )
}

/// Checks that the encodings refer only to the given relations and variables.
pub fn verify_semantic_references(
    sem: &[RealConstraintEncoding],
    relations: &[RelationId],
    variables: &[VariableId],
) -> (r: Result<(), InvalidInput>)
    ensures
        r is Ok <==> semantic_references_resolve(sem@, relations@, variables@),
{
    let n = sem.len();
    for i in 0..n
        invariant
            n == sem@.len(),
            forall|a: int, b: int|
                0 <= a < i && 0 <= b < sem@[a].encoded_relation_ids@.len() ==> relations@.contains(
                    #[trigger] sem@[a].encoded_relation_ids@[b],
                ),
    {
        let m = sem[i].encoded_relation_ids.len();
        for j in 0..m
            invariant
                n == sem@.len(),
                i < n,
                m == sem@[i as int].encoded_relation_ids@.len(),
                forall|a: int, b: int|
                    0 <= a < i && 0 <= b < sem@[a].encoded_relation_ids@.len() ==> relations@.contains(
                        #[trigger] sem@[a].encoded_relation_ids@[b],
                    ),
                forall|b: int| 0 <= b < j ==> relations@.contains(#[trigger] sem@[i as int].encoded_relation_ids@[b]),
        {
            if !contains_relation(relations, sem[i].encoded_relation_ids[j]) {
                return Err(InvalidInput);
            }
        }
    }
    for i in 0..n
        invariant
            n == sem@.len(),
            forall|a: int, b: int|
                0 <= a < n && 0 <= b < sem@[a].encoded_relation_ids@.len() ==> relations@.contains(
                    #[trigger] sem@[a].encoded_relation_ids@[b],
                ),
            forall|a: int, b: int|
                0 <= a < i && 0 <= b < sem@[a].slack_variables@.len() ==> variables@.contains(
                    #[trigger] sem@[a].slack_variables@[b],
                ),
    {
        let m = sem[i].slack_variables.len();
        for j in 0..m
            invariant
                n == sem@.len(),
                i < n,
                m == sem@[i as int].slack_variables@.len(),
                forall|a: int, b: int|
                    0 <= a < i && 0 <= b < sem@[a].slack_variables@.len() ==> variables@.contains(
                        #[trigger] sem@[a].slack_variables@[b],
                    ),
                forall|b: int| 0 <= b < j ==> variables@.contains(#[trigger] sem@[i as int].slack_variables@[b]),
        {
            if !contains_variable(variables, sem[i].slack_variables[j]) {
                return Err(InvalidInput);
            }
        }
    }
    Ok(())
}

} // verus!
