//! Input validation: the target is a declared variable, no polynomial holds a zero term or an
//! undeclared variable, and the semantic encodings refer to existing relations and variables.
use vstd::prelude::*;

use crate::problem::input::RationalTargetProblem;
use crate::problem::semantic::{semantic_references_resolve, verify_semantic_references};
use crate::result::status::{SolverError, SolverErrorKind};
use crate::types::id_set::contains_variable;
use crate::types::ids::{RelationId, VariableId};
use crate::types::polynomial::{SparsePolynomialQ, TermQ};
use crate::types::rational::is_zero_q;

verus! {

#[derive(Debug, Clone)]
pub struct ValidatedProblem {
    pub problem: RationalTargetProblem,
}

/// What is wrong with a term, if anything: 0 for a zero coefficient, 1 for an undeclared
/// variable (the zero check comes first).
pub open spec fn term_defect(t: TermQ, declared: Seq<VariableId>) -> Option<int> {
    if t.coeff.num@ == 0 {
        Some(0)
    } else if exists|j: int| 0 <= j < t.monomial.exponents@.len() && !declared.contains(#[trigger] t.monomial.exponents@[j].0) {
        Some(1)
    } else {
        None
    }
}

/// The defect of the first defective term.
pub open spec fn first_term_defect(ts: Seq<TermQ>, declared: Seq<VariableId>) -> Option<int>
    decreases ts.len(),
{
    if ts.len() == 0 {
        None
    } else if term_defect(ts[0], declared) is Some {
        term_defect(ts[0], declared)
    } else {
        first_term_defect(ts.drop_first(), declared)
    }
}

/// The defect of the first defective term of the first polynomial that has one.
pub open spec fn first_defect(eqs: Seq<SparsePolynomialQ>, declared: Seq<VariableId>) -> Option<int>
    decreases eqs.len(),
{
    if eqs.len() == 0 {
        None
    } else if first_term_defect(eqs[0].terms@, declared) is Some {
        first_term_defect(eqs[0].terms@, declared)
    } else {
        first_defect(eqs.drop_first(), declared)
    }
}

/// A term has a nonzero coefficient and names only declared variables.
pub open spec fn term_ok(t: TermQ, declared: Seq<VariableId>) -> bool {
    &&& t.coeff.num@ != 0
    &&& forall|k: int| 0 <= k < t.monomial.exponents@.len() ==> declared.contains(#[trigger] t.monomial.exponents@[k].0)
}

/// Every term of every equation is fine.
pub open spec fn equations_ok(eqs: Seq<SparsePolynomialQ>, declared: Seq<VariableId>) -> bool {
    forall|i: int, j: int|
        0 <= i < eqs.len() && 0 <= j < eqs[i].terms@.len() ==> term_ok(#[trigger] eqs[i].terms@[j], declared)
}

/// A list of terms has no defect exactly when every term is fine.
pub proof fn lemma_first_term_defect_none(ts: Seq<TermQ>, declared: Seq<VariableId>)
    ensures
        first_term_defect(ts, declared) is None <==> forall|j: int| 0 <= j < ts.len() ==> term_ok(#[trigger] ts[j], declared),
    decreases ts.len(),
{
    if ts.len() > 0 {
        lemma_first_term_defect_none(ts.drop_first(), declared);
        assert forall|j: int| 0 < j < ts.len() implies ts[j] == ts.drop_first()[j - 1] by {}
        if term_defect(ts[0], declared) is None {
            assert(term_ok(ts[0], declared));
            if forall|j: int| 0 <= j < ts.drop_first().len() ==> term_ok(#[trigger] ts.drop_first()[j], declared) {
                assert forall|j: int| 0 <= j < ts.len() implies term_ok(#[trigger] ts[j], declared) by {
                    if j > 0 {
                        assert(term_ok(ts.drop_first()[j - 1], declared));
                    }
                }
            } else {
                let j = choose|j: int| 0 <= j < ts.drop_first().len() && !term_ok(#[trigger] ts.drop_first()[j], declared);
                assert(ts[j + 1] == ts.drop_first()[j]);
                assert(!term_ok(ts[j + 1], declared));
            }
        } else {
            assert(!term_ok(ts[0], declared));
        }
    }
}

/// The defect reported for a list of terms is the kind of some term's defect: a zero
/// coefficient only if some term has one, an undeclared variable only if some term has one.
pub proof fn lemma_first_term_defect_kind(ts: Seq<TermQ>, declared: Seq<VariableId>)
    ensures
        first_term_defect(ts, declared) is None || first_term_defect(ts, declared) == Some(0int) || first_term_defect(ts, declared)
            == Some(1int),
        first_term_defect(ts, declared) == Some(0int) ==> exists|j: int| 0 <= j < ts.len() && (#[trigger] ts[j]).coeff.num@ == 0,
        first_term_defect(ts, declared) == Some(1int) ==> exists|j: int, k: int|
            0 <= j < ts.len() && 0 <= k < ts[j].monomial.exponents@.len() && !declared.contains(
                #[trigger] ts[j].monomial.exponents@[k].0,
            ),
    decreases ts.len(),
{
    if ts.len() > 0 {
        lemma_first_term_defect_kind(ts.drop_first(), declared);
        if term_defect(ts[0], declared) is None {
            if first_term_defect(ts.drop_first(), declared) == Some(0int) {
                let j = choose|j: int| 0 <= j < ts.drop_first().len() && (#[trigger] ts.drop_first()[j]).coeff.num@ == 0;
                assert(ts[j + 1] == ts.drop_first()[j]);
            }
            if first_term_defect(ts.drop_first(), declared) == Some(1int) {
                let (j, k) = choose|j: int, k: int|
                    0 <= j < ts.drop_first().len() && 0 <= k < ts.drop_first()[j].monomial.exponents@.len() && !declared.contains(
                        #[trigger] ts.drop_first()[j].monomial.exponents@[k].0,
                    );
                assert(ts[j + 1] == ts.drop_first()[j]);
            }
        }
    }
}

/// The defect reported for equations is the kind of some term's defect.
pub proof fn lemma_first_defect_kind(eqs: Seq<SparsePolynomialQ>, declared: Seq<VariableId>)
    ensures
        first_defect(eqs, declared) is None || first_defect(eqs, declared) == Some(0int) || first_defect(eqs, declared) == Some(1int),
        first_defect(eqs, declared) == Some(0int) ==> exists|i: int, j: int|
            0 <= i < eqs.len() && 0 <= j < eqs[i].terms@.len() && (#[trigger] eqs[i].terms@[j]).coeff.num@ == 0,
        first_defect(eqs, declared) == Some(1int) ==> exists|i: int, j: int, k: int|
            0 <= i < eqs.len() && 0 <= j < eqs[i].terms@.len() && 0 <= k < eqs[i].terms@[j].monomial.exponents@.len()
                && !declared.contains(#[trigger] eqs[i].terms@[j].monomial.exponents@[k].0),
    decreases eqs.len(),
{
    if eqs.len() > 0 {
        let rest = eqs.drop_first();
        lemma_first_defect_kind(rest, declared);
        lemma_first_term_defect_kind(eqs[0].terms@, declared);
        if first_term_defect(eqs[0].terms@, declared) == Some(0int) {
            let j = choose|j: int| 0 <= j < eqs[0].terms@.len() && (#[trigger] eqs[0].terms@[j]).coeff.num@ == 0;
            assert(eqs[0].terms@[j].coeff.num@ == 0);
        } else if first_term_defect(eqs[0].terms@, declared) == Some(1int) {
            let (j, k) = choose|j: int, k: int|
                0 <= j < eqs[0].terms@.len() && 0 <= k < eqs[0].terms@[j].monomial.exponents@.len() && !declared.contains(
                    #[trigger] eqs[0].terms@[j].monomial.exponents@[k].0,
                );
            assert(!declared.contains(eqs[0].terms@[j].monomial.exponents@[k].0));
        } else {
            if first_defect(rest, declared) == Some(0int) {
                let (i, j) = choose|i: int, j: int|
                    0 <= i < rest.len() && 0 <= j < rest[i].terms@.len() && (#[trigger] rest[i].terms@[j]).coeff.num@ == 0;
                assert(eqs[i + 1] == rest[i]);
                assert(eqs[i + 1].terms@[j].coeff.num@ == 0);
            }
            if first_defect(rest, declared) == Some(1int) {
                let (i, j, k) = choose|i: int, j: int, k: int|
                    0 <= i < rest.len() && 0 <= j < rest[i].terms@.len() && 0 <= k < rest[i].terms@[j].monomial.exponents@.len()
                        && !declared.contains(#[trigger] rest[i].terms@[j].monomial.exponents@[k].0);
                assert(eqs[i + 1] == rest[i]);
                assert(!declared.contains(eqs[i + 1].terms@[j].monomial.exponents@[k].0));
            }
        }
    }
}

/// Equations have no defect exactly when every term of every equation is fine: a nonzero
/// coefficient and declared variables only.
pub proof fn lemma_first_defect_none(eqs: Seq<SparsePolynomialQ>, declared: Seq<VariableId>)
    ensures
        first_defect(eqs, declared) is None <==> equations_ok(eqs, declared),
    decreases eqs.len(),
{
    if eqs.len() > 0 {
        let rest = eqs.drop_first();
        lemma_first_defect_none(rest, declared);
        lemma_first_term_defect_none(eqs[0].terms@, declared);
        if first_term_defect(eqs[0].terms@, declared) is None {
            if equations_ok(rest, declared) {
                assert forall|i: int, j: int| 0 <= i < eqs.len() && 0 <= j < eqs[i].terms@.len() implies term_ok(
                    #[trigger] eqs[i].terms@[j],
                    declared,
                ) by {
                    if i > 0 {
                        assert(eqs[i] == rest[i - 1]);
                        assert(term_ok(rest[i - 1].terms@[j], declared));
                    }
                }
            } else {
                let (i, j) = choose|i: int, j: int|
                    0 <= i < rest.len() && 0 <= j < rest[i].terms@.len() && !term_ok(#[trigger] rest[i].terms@[j], declared);
                assert(eqs[i + 1] == rest[i]);
                assert(!term_ok(eqs[i + 1].terms@[j], declared));
            }
        } else {
            let j = choose|j: int| 0 <= j < eqs[0].terms@.len() && !term_ok(#[trigger] eqs[0].terms@[j], declared);
            assert(!term_ok(eqs[0].terms@[j], declared));
        }
    }
}

/// The relation ids `0, 1, ..., n - 1`.
pub open spec fn relation_id_seq(n: nat) -> Seq<RelationId> {
    Seq::new(n, |i: int| RelationId(i as u32))
}

/// An invalid-input error for the target with this message.
pub open spec fn is_invalid_input(e: SolverError, target: VariableId, message: Seq<char>) -> bool {
    &&& e.target == Some(target)
    &&& e.kind matches SolverErrorKind::InvalidInput { message: m } && m@ == message
}

fn term_defect_exec(t: &TermQ, declared: &[VariableId]) -> (r: Option<u8>)
    ensures
        match term_defect(*t, declared@) {
            Some(k) => r == Some(k as u8),
            None => r is None,
        },
{
    if is_zero_q(&t.coeff) {
        return Some(0);
    }
    let n = t.monomial.exponents.len();
    for j in 0..n
        invariant
            n == t.monomial.exponents@.len(),
            t.coeff.num@ != 0,
            forall|k: int| 0 <= k < j ==> declared@.contains(#[trigger] t.monomial.exponents@[k].0),
    {
        if !contains_variable(declared, t.monomial.exponents[j].0) {
            proof {
                assert(!declared@.contains(t.monomial.exponents@[j as int].0));
                assert(t.coeff.num@ != 0);
                assert(term_defect(*t, declared@) == Some(1int));
            }
            return Some(1);
        }
    }
    None
}

fn first_defect_exec(eqs: &[SparsePolynomialQ], declared: &[VariableId]) -> (r: Option<u8>)
    ensures
        match first_defect(eqs@, declared@) {
            Some(k) => r == Some(k as u8),
            None => r is None,
        },
{
    let n = eqs.len();
    assert(eqs@.skip(0) == eqs@);
    for i in 0..n
        invariant
            n == eqs@.len(),
            first_defect(eqs@, declared@) == first_defect(eqs@.skip(i as int), declared@),
    {
        let ts = &eqs[i].terms;
        let m = ts.len();
        proof {
            assert(eqs@.skip(i as int)[0] == eqs@[i as int]);
            assert(eqs@.skip(i as int).drop_first() == eqs@.skip(i + 1));
            assert(ts@.skip(0) == ts@);
        }
        for j in 0..m
            invariant
                m == ts@.len(),
                i < n,
                n == eqs@.len(),
                ts@ == eqs@[i as int].terms@,
                eqs@.skip(i as int)[0] == eqs@[i as int],
                first_defect(eqs@, declared@) == first_defect(eqs@.skip(i as int), declared@),
                first_term_defect(ts@, declared@) == first_term_defect(ts@.skip(j as int), declared@),
        {
            proof {
                assert(ts@.skip(j as int)[0] == ts@[j as int]);
                assert(ts@.skip(j as int).drop_first() == ts@.skip(j + 1));
            }
            let d = term_defect_exec(&ts[j], declared);
            if d.is_some() {
                proof {
                    assert(term_defect(ts@[j as int], declared@) is Some);
                    assert(first_term_defect(ts@.skip(j as int), declared@) == term_defect(ts@[j as int], declared@));
                    assert(eqs@.skip(i as int)[0].terms@ == ts@);
                    assert(first_defect(eqs@.skip(i as int), declared@) == first_term_defect(ts@, declared@));
                }
                return d;
            }
        }
        proof {
            assert(ts@.skip(m as int).len() == 0);
        }
    }
    assert(eqs@.skip(n as int).len() == 0);
    None
}

/// The ids `RelationId(0)`, ..., one per equation.
pub fn relation_ids_for(n: usize) -> (ids: Vec<RelationId>)
    ensures
        ids@ == relation_id_seq(n as nat),
{
    let mut ids: Vec<RelationId> = Vec::new();
    for i in 0..n
        invariant
            ids@ == relation_id_seq(i as nat),
    {
        #[verifier::truncate]
        let id = RelationId(i as u32);
        ids.push(id);
        assert(ids@ =~= relation_id_seq((i + 1) as nat));
    }
    ids
}

/// Accepts a problem whose target is declared, whose polynomial terms all have nonzero
/// coefficients over declared variables, and whose semantic encodings resolve; the first
/// failing check gives the error.
pub fn validate_input(problem: RationalTargetProblem) -> (r: Result<ValidatedProblem, SolverError>)
    ensures
        !problem.variables@.contains(problem.target) ==> (r matches Err(e) && is_invalid_input(
            e,
            problem.target,
            "target is not listed as a variable"@,
        )),
        problem.variables@.contains(problem.target) && first_defect(problem.equations@, problem.variables@) == Some(0int)
            ==> (r matches Err(e) && is_invalid_input(
            e,
            problem.target,
            "polynomial contains non-normalized zero coefficient term"@,
        )),
        problem.variables@.contains(problem.target) && first_defect(problem.equations@, problem.variables@) == Some(1int)
            ==> (r matches Err(e) && is_invalid_input(e, problem.target, "polynomial references undeclared variable"@)),
        problem.variables@.contains(problem.target) && first_defect(problem.equations@, problem.variables@) is None
            && !semantic_references_resolve(
            problem.semantic_encodings@,
            relation_id_seq(problem.equations@.len()),
            problem.variables@,
        ) ==> (r matches Err(e) && is_invalid_input(
            e,
            problem.target,
            "semantic encoding references unknown relation or variable"@,
        )),
        r is Ok <==> problem.variables@.contains(problem.target) && first_defect(
            problem.equations@,
            problem.variables@,
        ) is None && semantic_references_resolve(
            problem.semantic_encodings@,
            relation_id_seq(problem.equations@.len()),
            problem.variables@,
        ),
        r matches Ok(v) ==> v.problem == problem,
        r is Ok ==> equations_ok(problem.equations@, problem.variables@),
        problem.variables@.contains(problem.target) && !equations_ok(problem.equations@, problem.variables@) ==> (r matches Err(
            e,
        ) && e.kind is InvalidInput),
{
    proof {
        lemma_first_defect_none(problem.equations@, problem.variables@);
        lemma_first_defect_kind(problem.equations@, problem.variables@);
    }
    if !contains_variable(problem.variables.as_slice(), problem.target) {
        return Err(SolverError::invalid_input(Some(problem.target), "target is not listed as a variable"));
    }
    match first_defect_exec(problem.equations.as_slice(), problem.variables.as_slice()) {
        Some(0) => {
            return Err(
                SolverError::invalid_input(
                    Some(problem.target),
                    "polynomial contains non-normalized zero coefficient term",
                ),
            );
        },
        Some(_) => {
            return Err(SolverError::invalid_input(Some(problem.target), "polynomial references undeclared variable"));
        },
        None => {},
    }
    let relation_ids = relation_ids_for(problem.equations.len());
    match verify_semantic_references(
        problem.semantic_encodings.as_slice(),
        relation_ids.as_slice(),
        problem.variables.as_slice(),
    ) {
        Err(_) => {
            return Err(
                SolverError::invalid_input(
                    Some(problem.target),
                    "semantic encoding references unknown relation or variable",
                ),
            );
        },
        Ok(()) => {},
    }
    Ok(ValidatedProblem { problem })
}

} // verus!
