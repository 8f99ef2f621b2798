//! The solver's input: variables, the target, polynomial equations, semantic encodings and
//! variable roles, bound together by the input digest.
use vstd::prelude::*;
use vstd::string::StringSliceAdditionalSpecFns;

use crate::problem::semantic::{variable_id_bytes, variable_ids_to_bytes, RealConstraintEncoding};
use crate::types::bytes::{be_bytes, u32_be};
use crate::types::chunks::push_chunk;
use crate::types::hash::{self, chunk_views, hash_sequence, hash_to_vec, spec_hash_sequence};
use crate::types::ids::VariableId;
use crate::types::polynomial::SparsePolynomialQ;
use crate::types::text::str_bytes;

verus! {

#[derive(Debug, Clone, PartialEq, Eq)]
pub struct RationalTargetProblem {
    pub variables: Vec<VariableId>,
    pub target: VariableId,
    pub equations: Vec<SparsePolynomialQ>,
    pub semantic_encodings: Vec<RealConstraintEncoding>,
    pub variable_roles: Vec<VariableRoleRecord>,
    pub input_hash: hash::Hash,
}

/// A name given to a variable (a coordinate, a slack, ...); it does not change solving.
#[derive(Debug, Clone, PartialEq, Eq)]
pub struct VariableRoleRecord {
    pub variable: VariableId,
    pub role_name: String,
}

/// The chunks of the role records: the variable, then the role name's bytes, per record.
pub open spec fn role_chunks(roles: Seq<VariableRoleRecord>) -> Seq<Seq<u8>>
    decreases roles.len(),
{
    if roles.len() == 0 {
        Seq::empty()
    } else {
        role_chunks(roles.drop_last()).push(be_bytes(roles.last().variable.0 as nat, 4)).push(
            vstd::utf8::encode_utf8(roles.last().role_name@),
        )
    }
}

/// What the input digest covers: the target, the variables, each equation's digest, each
/// encoding's digest and the roles.
pub open spec fn input_chunks(
    variables: Seq<VariableId>,
    target: VariableId,
    equations: Seq<SparsePolynomialQ>,
    encodings: Seq<RealConstraintEncoding>,
    roles: Seq<VariableRoleRecord>,
) -> Seq<Seq<u8>> {
    seq![be_bytes(target.0 as nat, 4), variable_id_bytes(variables)] + equations.map_values(
        |p: SparsePolynomialQ| p.hash.0@,
    ) + encodings.map_values(|e: RealConstraintEncoding| e.semantic_hash.0@) + role_chunks(roles)
}

pub open spec fn spec_input_hash(
    variables: Seq<VariableId>,
    target: VariableId,
    equations: Seq<SparsePolynomialQ>,
    encodings: Seq<RealConstraintEncoding>,
    roles: Seq<VariableRoleRecord>,
) -> Seq<u8> {
    spec_hash_sequence("problem-input".spec_bytes(), input_chunks(variables, target, equations, encodings, roles))
}

/// The digest of a problem's input.
pub fn hash_problem_input(
    variables: &[VariableId],
    target: VariableId,
    equations: &[SparsePolynomialQ],
    semantic_encodings: &[RealConstraintEncoding],
    variable_roles: &[VariableRoleRecord],
) -> (h: hash::Hash)
    ensures
        h.0@ == spec_input_hash(variables@, target, equations@, semantic_encodings@, variable_roles@),
{
    let mut chunks: Vec<Vec<u8>> = Vec::new();
    push_chunk(&mut chunks, u32_be(target.0));
    push_chunk(&mut chunks, variable_ids_to_bytes(variables));
    let ghost head = chunk_views(chunks@);
    let n = equations.len();
    for i in 0..n
        invariant
            n == equations@.len(),
            chunk_views(chunks@) == head + equations@.take(i as int).map_values(|p: SparsePolynomialQ| p.hash.0@),
    {
        push_chunk(&mut chunks, hash_to_vec(&equations[i].hash));
        assert(equations@.take(i + 1).map_values(|p: SparsePolynomialQ| p.hash.0@) =~= equations@.take(
            i as int,
        ).map_values(|p: SparsePolynomialQ| p.hash.0@).push(equations@[i as int].hash.0@));
    }
    assert(equations@.take(n as int) == equations@);
    let ghost mid = chunk_views(chunks@);
    let k = semantic_encodings.len();
    for i in 0..k
        invariant
            k == semantic_encodings@.len(),
            chunk_views(chunks@) == mid + semantic_encodings@.take(i as int).map_values(
                |e: RealConstraintEncoding| e.semantic_hash.0@,
            ),
    {
        push_chunk(&mut chunks, hash_to_vec(&semantic_encodings[i].semantic_hash));
        assert(semantic_encodings@.take(i + 1).map_values(|e: RealConstraintEncoding| e.semantic_hash.0@)
            =~= semantic_encodings@.take(i as int).map_values(|e: RealConstraintEncoding| e.semantic_hash.0@).push(
            semantic_encodings@[i as int].semantic_hash.0@,
        ));
    }
    assert(semantic_encodings@.take(k as int) == semantic_encodings@);
    let ghost tail = chunk_views(chunks@);
    let r = variable_roles.len();
    for i in 0..r
        invariant
            r == variable_roles@.len(),
            chunk_views(chunks@) == tail + role_chunks(variable_roles@.take(i as int)),
    {
        push_chunk(&mut chunks, u32_be(variable_roles[i].variable.0));
        push_chunk(&mut chunks, str_bytes(variable_roles[i].role_name.as_str()));
        proof {
            let t = variable_roles@.take(i + 1);
            assert(t.drop_last() == variable_roles@.take(i as int));
            assert(t.last() == variable_roles@[i as int]);
        }
    }
    assert(variable_roles@.take(r as int) == variable_roles@);
    assert(chunk_views(chunks@) =~= input_chunks(
        variables@,
        target,
        equations@,
        semantic_encodings@,
        variable_roles@,
    ));
    hash_sequence("problem-input", chunks.as_slice())
}

/// A problem with roles, its input digest computed.
pub fn make_problem_with_roles(
    variables: Vec<VariableId>,
    target: VariableId,
    equations: Vec<SparsePolynomialQ>,
    semantic_encodings: Vec<RealConstraintEncoding>,
    variable_roles: Vec<VariableRoleRecord>,
) -> (p: RationalTargetProblem)
    ensures
        p.variables@ == variables@,
        p.target == target,
        p.equations@ == equations@,
        p.semantic_encodings@ == semantic_encodings@,
        p.variable_roles@ == variable_roles@,
        p.input_hash.0@ == spec_input_hash(variables@, target, equations@, semantic_encodings@, variable_roles@),
{
    let input_hash = hash_problem_input(
        variables.as_slice(),
        target,
        equations.as_slice(),
        semantic_encodings.as_slice(),
        variable_roles.as_slice(),
    );
    RationalTargetProblem { variables, target, equations, semantic_encodings, variable_roles, input_hash }
}

/// A problem without roles.
pub fn make_problem(
    variables: Vec<VariableId>,
    target: VariableId,
    equations: Vec<SparsePolynomialQ>,
    semantic_encodings: Vec<RealConstraintEncoding>,
) -> (p: RationalTargetProblem)
    ensures
        p.variables@ == variables@,
        p.target == target,
        p.equations@ == equations@,
        p.semantic_encodings@ == semantic_encodings@,
        p.variable_roles@.len() == 0,
        p.input_hash.0@ == spec_input_hash(variables@, target, equations@, semantic_encodings@, Seq::empty()),
{
    make_problem_with_roles(variables, target, equations, semantic_encodings, Vec::new())
}

} // verus!
