//! Monomials as sorted lists of (variable, exponent) pairs.
use vstd::prelude::*;

use crate::types::bytes::{be_bytes, extend_bytes, u32_be, u64_be};
use crate::types::ids::VariableId;

verus! {

/// A power product. Normal form: variables strictly increasing, every exponent positive.
#[derive(Clone, Debug, PartialEq, Eq, PartialOrd, Ord, Hash)]
pub struct Monomial {
    pub exponents: Vec<(VariableId, u32)>,
}

pub open spec fn vars_increasing(s: Seq<(VariableId, u32)>) -> bool {
    forall|i: int, j: int| 0 <= i < j < s.len() ==> #[trigger] s[i].0.0 < #[trigger] s[j].0.0
}

pub open spec fn exponents_positive(s: Seq<(VariableId, u32)>) -> bool {
    forall|i: int| 0 <= i < s.len() ==> #[trigger] s[i].1 > 0
}

pub open spec fn is_normal_entries(s: Seq<(VariableId, u32)>) -> bool {
    vars_increasing(s) && exponents_positive(s)
}

impl Monomial {
    /// Sorted by variable, no repeated variable, no zero exponent.
    pub open spec fn is_normal(&self) -> bool {
        is_normal_entries(self.exponents@)
    }
}

/// Whether some entry names `v`.
pub open spec fn occurs(s: Seq<(VariableId, u32)>, v: VariableId) -> bool {
    exists|i: int| 0 <= i < s.len() && #[trigger] s[i].0 == v
}

/// The exponent an entry list with distinct variables gives `v` (0 when absent).
pub open spec fn exponent_of(s: Seq<(VariableId, u32)>, v: VariableId) -> nat {
    if occurs(s, v) {
        s[choose|i: int| 0 <= i < s.len() && #[trigger] s[i].0 == v].1 as nat
    } else {
        0
    }
}

/// The sum of all exponents an arbitrary entry list gives `v`.
pub open spec fn total_exponent(s: Seq<(VariableId, u32)>, v: VariableId) -> nat
    decreases s.len(),
{
    if s.len() == 0 {
        0
    } else {
        total_exponent(s.drop_last(), v) + if s.last().0 == v {
            s.last().1 as nat
        } else {
            0nat
        }
    }
}

/// `n` clamped to `u32::MAX`, as `u32::saturating_add` does.
pub open spec fn saturate(n: nat) -> nat {
    if n > u32::MAX {
        u32::MAX as nat
    } else {
        n
    }
}

pub proof fn lemma_exponent_at(s: Seq<(VariableId, u32)>, i: int)
    requires
        vars_increasing(s),
        0 <= i < s.len(),
    ensures
        occurs(s, s[i].0),
        exponent_of(s, s[i].0) == s[i].1,
{
    let v = s[i].0;
    assert(s[i].0 == v);
    let j = choose|j: int| 0 <= j < s.len() && #[trigger] s[j].0 == v;
    if j < i {
        assert(s[j].0.0 < s[i].0.0);
    } else if i < j {
        assert(s[i].0.0 < s[j].0.0);
    }
}

pub proof fn lemma_exponent_absent(s: Seq<(VariableId, u32)>, v: VariableId)
    requires
        forall|i: int| 0 <= i < s.len() ==> s[i].0 != v,
    ensures
        !occurs(s, v),
        exponent_of(s, v) == 0,
{
}

/// Two variable-sorted lists with the same entries except for variable `w`
/// agree on every other variable.
proof fn lemma_exponent_frame(
    s: Seq<(VariableId, u32)>,
    t: Seq<(VariableId, u32)>,
    w: VariableId,
    v: VariableId,
)
    requires
        vars_increasing(s),
        vars_increasing(t),
        v != w,
        forall|i: int| 0 <= i < s.len() && s[i].0 != w ==> exists|j: int| 0 <= j < t.len() && t[j] == s[i],
        forall|j: int| 0 <= j < t.len() && t[j].0 != w ==> exists|i: int| 0 <= i < s.len() && s[i] == t[j],
    ensures
        exponent_of(s, v) == exponent_of(t, v),
        occurs(s, v) == occurs(t, v),
{
    if occurs(s, v) {
        let i = choose|i: int| 0 <= i < s.len() && #[trigger] s[i].0 == v;
        lemma_exponent_at(s, i);
        let j = choose|j: int| 0 <= j < t.len() && t[j] == s[i];
        lemma_exponent_at(t, j);
    } else if occurs(t, v) {
        let j = choose|j: int| 0 <= j < t.len() && #[trigger] t[j].0 == v;
        let i = choose|i: int| 0 <= i < s.len() && s[i] == t[j];
        assert(s[i].0 == v);
    }
}

/// Position of the first entry whose variable is not below `var`.
fn lower_bound(s: &Vec<(VariableId, u32)>, var: VariableId) -> (i: usize)
    requires
        vars_increasing(s@),
    ensures
        i <= s@.len(),
        forall|j: int| 0 <= j < i ==> s@[j].0.0 < var.0,
        forall|j: int| i <= j < s@.len() ==> s@[j].0.0 >= var.0,
{
    let mut i: usize = 0;
    while i < s.len() && s[i].0.0 < var.0
        invariant
            i <= s@.len(),
            vars_increasing(s@),
            forall|j: int| 0 <= j < i ==> s@[j].0.0 < var.0,
        decreases s@.len() - i,
    {
        i += 1;
    }
    proof {
        assert forall|j: int| i <= j < s@.len() implies s@[j].0.0 >= var.0 by {
            if i < j {
                assert(s@[i as int].0.0 < s@[j].0.0);
            }
        }
    }
    i
}

/// Overwriting the entry at position `i` keeps the list sorted and changes only `var`.
proof fn lemma_update_entries(
    s0: Seq<(VariableId, u32)>,
    i: int,
    var: VariableId,
    e: u32,
)
    requires
        vars_increasing(s0),
        0 <= i < s0.len(),
        s0[i].0 == var,
    ensures
        vars_increasing(s0.update(i, (var, e))),
        occurs(s0.update(i, (var, e)), var),
        exponent_of(s0.update(i, (var, e)), var) == e,
        forall|v: VariableId|
            v != var ==> exponent_of(#[trigger] s0.update(i, (var, e)), v) == exponent_of(s0, v)
                && occurs(s0.update(i, (var, e)), v) == occurs(s0, v),
        exponents_positive(s0) && e > 0 ==> exponents_positive(s0.update(i, (var, e))),
{
    let s1 = s0.update(i, (var, e));
    assert forall|a: int, b: int| 0 <= a < b < s1.len() implies #[trigger] s1[a].0.0
        < #[trigger] s1[b].0.0 by {
        assert(s0[a].0.0 < s0[b].0.0);
    }
    lemma_exponent_at(s1, i);
    assert forall|v: VariableId| v != var implies #[trigger] exponent_of(s1, v) == exponent_of(
        s0,
        v,
    ) && occurs(s1, v) == occurs(s0, v) by {
        assert forall|a: int| 0 <= a < s0.len() && s0[a].0 != var implies exists|b: int|
            0 <= b < s1.len() && s1[b] == s0[a] by {
            assert(s1[a] == s0[a]);
        }
        assert forall|b: int| 0 <= b < s1.len() && s1[b].0 != var implies exists|a: int|
            0 <= a < s0.len() && s0[a] == s1[b] by {
            assert(s1[b] == s0[b]);
        }
        lemma_exponent_frame(s0, s1, var, v);
    }
}

/// Inserting a new variable at its sorted position keeps the list sorted and changes only `var`.
#[verifier::spinoff_prover]
#[verifier::rlimit(40)]
proof fn lemma_insert_entries(
    s0: Seq<(VariableId, u32)>,
    i: int,
    var: VariableId,
    e: u32,
)
    requires
        vars_increasing(s0),
        0 <= i <= s0.len(),
        forall|j: int| 0 <= j < i ==> s0[j].0.0 < var.0,
        forall|j: int| i <= j < s0.len() ==> s0[j].0.0 > var.0,
    ensures
        vars_increasing(s0.insert(i, (var, e))),
        occurs(s0.insert(i, (var, e)), var),
        exponent_of(s0.insert(i, (var, e)), var) == e,
        forall|v: VariableId|
            v != var ==> exponent_of(#[trigger] s0.insert(i, (var, e)), v) == exponent_of(s0, v)
                && occurs(s0.insert(i, (var, e)), v) == occurs(s0, v),
        exponents_positive(s0) && e > 0 ==> exponents_positive(s0.insert(i, (var, e))),
{
    let s1 = s0.insert(i, (var, e));
    assert forall|a: int, b: int| 0 <= a < b < s1.len() implies #[trigger] s1[a].0.0
        < #[trigger] s1[b].0.0 by {
        if b < i {
            assert(s0[a].0.0 < s0[b].0.0);
        } else if a < i && b == i {
        } else if a < i && b > i {
            assert(s1[b] == s0[b - 1]);
        } else if a == i {
            assert(s1[b] == s0[b - 1]);
        } else {
            assert(s1[a] == s0[a - 1]);
            assert(s1[b] == s0[b - 1]);
            assert(s0[a - 1].0.0 < s0[b - 1].0.0);
        }
    }
    assert(s1[i] == (var, e));
    lemma_exponent_at(s1, i);
    assert forall|v: VariableId| v != var implies #[trigger] exponent_of(s1, v) == exponent_of(
        s0,
        v,
    ) && occurs(s1, v) == occurs(s0, v) by {
        assert forall|a: int| 0 <= a < s0.len() && s0[a].0 != var implies exists|b: int|
            0 <= b < s1.len() && s1[b] == s0[a] by {
            if a < i {
                assert(s1[a] == s0[a]);
            } else {
                assert(s1[a + 1] == s0[a]);
            }
        }
        assert forall|b: int| 0 <= b < s1.len() && s1[b].0 != var implies exists|a: int|
            0 <= a < s0.len() && s0[a] == s1[b] by {
            if b < i {
                assert(s1[b] == s0[b]);
            } else {
                assert(b != i);
                assert(s1[b] == s0[b - 1]);
            }
        }
        lemma_exponent_frame(s0, s1, var, v);
    }
    if exponents_positive(s0) && e > 0 {
        assert forall|a: int| 0 <= a < s1.len() implies #[trigger] s1[a].1 > 0 by {
            if a < i {
                assert(s1[a] == s0[a]);
            } else if a > i {
                assert(s1[a] == s0[a - 1]);
            }
        }
    }
}

/// Sets the entry for `var` to `e` in a variable-sorted list (inserting it if absent).
fn entries_set(s: &mut Vec<(VariableId, u32)>, var: VariableId, e: u32)
    requires
        vars_increasing(old(s)@),
    ensures
        vars_increasing(final(s)@),
        occurs(final(s)@, var),
        exponent_of(final(s)@, var) == e,
        forall|v: VariableId|
            v != var ==> exponent_of(#[trigger] final(s)@, v) == exponent_of(old(s)@, v) && occurs(
                final(s)@,
                v,
            ) == occurs(old(s)@, v),
        exponents_positive(old(s)@) && e > 0 ==> exponents_positive(final(s)@),
{
    let ghost s0 = s@;
    let i = lower_bound(s, var);
    if i < s.len() && s[i].0.0 == var.0 {
        proof {
            assert(s0[i as int].0 == var);
            lemma_update_entries(s0, i as int, var, e);
        }
        s.set(i, (var, e));
    } else {
        proof {
            assert forall|j: int| i <= j < s0.len() implies s0[j].0.0 > var.0 by {
                if j > i {
                    assert(s0[i as int].0.0 < s0[j].0.0);
                }
            }
            lemma_insert_entries(s0, i as int, var, e);
        }
        s.insert(i, (var, e));
    }
}

/// The entries of `a` followed by those of `b`.
fn concat_entries(a: &Vec<(VariableId, u32)>, b: &Vec<(VariableId, u32)>) -> (out: Vec<
    (VariableId, u32),
>)
    ensures
        out@ == a@ + b@,
{
    let mut out: Vec<(VariableId, u32)> = Vec::new();
    let n = a.len();
    for i in 0..n
        invariant
            n == a@.len(),
            out@ == a@.subrange(0, i as int),
    {
        out.push(a[i]);
        assert(a@.subrange(0, i + 1) == a@.subrange(0, i as int).push(a@[i as int]));
    }
    let m = b.len();
    for i in 0..m
        invariant
            m == b@.len(),
            out@ == a@.subrange(0, n as int) + b@.subrange(0, i as int),
    {
        out.push(b[i]);
        assert(b@.subrange(0, i + 1) == b@.subrange(0, i as int).push(b@[i as int]));
    }
    assert(a@.subrange(0, n as int) == a@);
    assert(b@.subrange(0, m as int) == b@);
    out
}

proof fn lemma_total_take_step(s: Seq<(VariableId, u32)>, k: int, v: VariableId)
    requires
        0 <= k < s.len(),
    ensures
        total_exponent(s.take(k + 1), v) == total_exponent(s.take(k), v) + if s[k].0 == v {
            s[k].1 as nat
        } else {
            0nat
        },
{
    assert(s.take(k + 1).drop_last() == s.take(k));
}

/// Merges the entries of a power product: zero exponents are dropped, repeated
/// variables have their exponents added (saturating at `u32::MAX`), and the
/// result is sorted by variable.
pub fn normalize_monomial(entries: Vec<(VariableId, u32)>) -> (m: Monomial)
    ensures
        m.is_normal(),
        forall|v: VariableId|
            exponent_of(#[trigger] m.exponents@, v) == saturate(total_exponent(entries@, v)),
{
    let n = entries.len();
    let mut res: Vec<(VariableId, u32)> = Vec::new();
    for k in 0..n
        invariant
            n == entries@.len(),
            is_normal_entries(res@),
            forall|v: VariableId|
                exponent_of(#[trigger] res@, v) == saturate(total_exponent(entries@.take(k as int), v)),
    {
        let (var, exp) = entries[k];
        let ghost r0 = res@;
        proof {
            assert forall|v: VariableId| #[trigger]
                total_exponent(entries@.take(k + 1), v) == total_exponent(entries@.take(k as int), v)
                    + if entries@[k as int].0 == v {
                    entries@[k as int].1 as nat
                } else {
                    0nat
                } by {
                lemma_total_take_step(entries@, k as int, v);
            }
        }
        if exp != 0 {
            let i = lower_bound(&res, var);
            if i < res.len() && res[i].0.0 == var.0 {
                proof {
                    assert(res@[i as int].0 == var);
                    lemma_exponent_at(res@, i as int);
                }
                let next = res[i].1.saturating_add(exp);
                entries_set(&mut res, var, next);
            } else {
                proof {
                    assert forall|j: int| 0 <= j < res@.len() implies res@[j].0 != var by {
                        if j >= i {
                            assert(res@[j].0.0 >= var.0);
                            if j > i {
                                assert(res@[i as int].0.0 < res@[j].0.0);
                            }
                        }
                    }
                    lemma_exponent_absent(res@, var);
                }
                entries_set(&mut res, var, exp);
            }
        }
    }
    assert(entries@.take(n as int) == entries@);
    Monomial { exponents: res }
}

pub proof fn lemma_total_concat(a: Seq<(VariableId, u32)>, b: Seq<(VariableId, u32)>, v: VariableId)
    ensures
        total_exponent(a + b, v) == total_exponent(a, v) + total_exponent(b, v),
    decreases b.len(),
{
    if b.len() == 0 {
        assert(a + b == a);
    } else {
        assert((a + b).drop_last() == a + b.drop_last());
        lemma_total_concat(a, b.drop_last(), v);
    }
}

/// On a normal entry list the total exponent is the single entry's exponent.
pub proof fn lemma_total_of_normal(s: Seq<(VariableId, u32)>, v: VariableId)
    requires
        vars_increasing(s),
    ensures
        total_exponent(s, v) == exponent_of(s, v),
    decreases s.len(),
{
    if s.len() > 0 {
        let p = s.drop_last();
        assert(vars_increasing(p)) by {
            assert forall|i: int, j: int| 0 <= i < j < p.len() implies #[trigger] p[i].0.0
                < #[trigger] p[j].0.0 by {
                assert(s[i].0.0 < s[j].0.0);
            }
        }
        lemma_total_of_normal(p, v);
        let last = s.len() - 1;
        if s.last().0 == v {
            lemma_exponent_at(s, last);
            assert forall|i: int| 0 <= i < p.len() implies p[i].0 != v by {
                assert(s[i].0.0 < s[last].0.0);
            }
            lemma_exponent_absent(p, v);
        } else {
            if occurs(p, v) {
                let i = choose|i: int| 0 <= i < p.len() && #[trigger] p[i].0 == v;
                lemma_exponent_at(p, i);
                assert(s[i] == p[i]);
                lemma_exponent_at(s, i);
            } else {
                assert forall|i: int| 0 <= i < s.len() implies s[i].0 != v by {
                    if i < p.len() {
                        assert(s[i] == p[i]);
                    }
                }
                lemma_exponent_absent(s, v);
            }
        }
    }
}

/// `m` is the product of `a` and `b`: in normal form, each exponent the (saturated) sum of
/// the two exponents of that variable.
pub open spec fn is_monomial_product(m: Seq<(VariableId, u32)>, a: Seq<(VariableId, u32)>, b: Seq<(VariableId, u32)>) -> bool {
    &&& is_normal_entries(m)
    &&& forall|v: VariableId|
        #[trigger] exponent_of(m, v) == saturate(total_exponent(a, v) + total_exponent(b, v))
}

/// Multiplication of monomials commutes: the product of `a` and `b` is the product of `b`
/// and `a`.
pub proof fn lemma_monomial_mul_commutes(
    m1: Seq<(VariableId, u32)>,
    m2: Seq<(VariableId, u32)>,
    a: Seq<(VariableId, u32)>,
    b: Seq<(VariableId, u32)>,
)
    requires
        is_monomial_product(m1, a, b),
        is_monomial_product(m2, b, a),
    ensures
        m1 == m2,
{
    assert forall|v: VariableId| #[trigger] exponent_of(m1, v) == exponent_of(m2, v) by {
        assert(exponent_of(m1, v) == saturate(total_exponent(a, v) + total_exponent(b, v)));
        assert(exponent_of(m2, v) == saturate(total_exponent(b, v) + total_exponent(a, v)));
    }
    lemma_normal_unique(m1, m2);
}

/// Division undoes multiplication: when no exponent of the product saturates, the product of
/// `a` and `b` is divisible by `b`, and the quotient (the normal monomial with the exponent
/// differences) is `a`.
pub proof fn lemma_monomial_div_undoes_mul(
    m: Seq<(VariableId, u32)>,
    a: Seq<(VariableId, u32)>,
    b: Seq<(VariableId, u32)>,
    q: Seq<(VariableId, u32)>,
)
    requires
        is_normal_entries(a),
        is_normal_entries(b),
        is_monomial_product(m, a, b),
        forall|v: VariableId| #[trigger] exponent_of(a, v) + exponent_of(b, v) <= u32::MAX,
    ensures
        forall|v: VariableId| exponent_of(b, v) <= #[trigger] exponent_of(m, v),
        (is_normal_entries(q) && forall|v: VariableId| #[trigger] exponent_of(q, v) == exponent_of(m, v) - exponent_of(b, v))
            ==> q == a,
{
    assert forall|v: VariableId| #[trigger] exponent_of(m, v) == exponent_of(a, v) + exponent_of(b, v) by {
        lemma_total_of_normal(a, v);
        lemma_total_of_normal(b, v);
        assert(exponent_of(a, v) + exponent_of(b, v) <= u32::MAX);
    }
    if is_normal_entries(q) && forall|v: VariableId| #[trigger] exponent_of(q, v) == exponent_of(m, v) - exponent_of(b, v) {
        assert forall|v: VariableId| #[trigger] exponent_of(q, v) == exponent_of(a, v) by {
            assert(exponent_of(m, v) == exponent_of(a, v) + exponent_of(b, v));
        }
        lemma_normal_unique(q, a);
    }
}

/// The product of two power products.
pub fn monomial_mul(a: &Monomial, b: &Monomial) -> (m: Monomial)
    ensures
        m.is_normal(),
        forall|v: VariableId|
            exponent_of(#[trigger] m.exponents@, v) == saturate(
                total_exponent(a.exponents@, v) + total_exponent(b.exponents@, v),
            ),
        is_monomial_product(m.exponents@, a.exponents@, b.exponents@),
{
    let entries = concat_entries(&a.exponents, &b.exponents);
    let ghost e = entries@;
    let m = normalize_monomial(entries);
    proof {
        assert forall|v: VariableId| exponent_of(#[trigger] m.exponents@, v) == saturate(
            total_exponent(a.exponents@, v) + total_exponent(b.exponents@, v),
        ) by {
            lemma_total_concat(a.exponents@, b.exponents@, v);
        }
    }
    m
}

/// Multiplication of normal monomials adds exponents (saturating) and is commutative.
pub proof fn lemma_monomial_mul_normal(a: Monomial, b: Monomial, v: VariableId)
    requires
        a.is_normal(),
        b.is_normal(),
    ensures
        saturate(total_exponent(a.exponents@, v) + total_exponent(b.exponents@, v)) == saturate(
            exponent_of(a.exponents@, v) + exponent_of(b.exponents@, v),
        ),
{
    lemma_total_of_normal(a.exponents@, v);
    lemma_total_of_normal(b.exponents@, v);
}

/// The exponent stored for `var` (0 when absent).
fn entries_get(s: &Vec<(VariableId, u32)>, var: VariableId) -> (e: u32)
    requires
        vars_increasing(s@),
    ensures
        e == exponent_of(s@, var),
        e == 0 ==> !occurs(s@, var) || exists|i: int| 0 <= i < s@.len() && s@[i] == (var, 0u32),
{
    let i = lower_bound(s, var);
    if i < s.len() && s[i].0.0 == var.0 {
        proof {
            assert(s@[i as int].0 == var);
            lemma_exponent_at(s@, i as int);
        }
        s[i].1
    } else {
        proof {
            assert forall|j: int| 0 <= j < s@.len() implies s@[j].0 != var by {
                if j > i {
                    assert(s@[i as int].0.0 < s@[j].0.0);
                }
            }
            lemma_exponent_absent(s@, var);
        }
        0
    }
}

/// Removes the entry for `var`, if any, from a variable-sorted list.
#[verifier::spinoff_prover]
fn entries_remove(s: &mut Vec<(VariableId, u32)>, var: VariableId)
    requires
        vars_increasing(old(s)@),
    ensures
        vars_increasing(final(s)@),
        !occurs(final(s)@, var),
        exponent_of(final(s)@, var) == 0,
        forall|v: VariableId|
            v != var ==> exponent_of(#[trigger] final(s)@, v) == exponent_of(old(s)@, v) && occurs(
                final(s)@,
                v,
            ) == occurs(old(s)@, v),
        exponents_positive(old(s)@) ==> exponents_positive(final(s)@),
{
    let ghost s0 = s@;
    let i = lower_bound(s, var);
    if i < s.len() && s[i].0.0 == var.0 {
        s.remove(i);
        proof {
            let s1 = s@;
            assert forall|a: int, b: int| 0 <= a < b < s1.len() implies #[trigger] s1[a].0.0
                < #[trigger] s1[b].0.0 by {
                if b < i {
                    assert(s0[a].0.0 < s0[b].0.0);
                } else if a < i {
                    assert(s1[b] == s0[b + 1]);
                    assert(s0[a].0.0 < s0[b + 1].0.0);
                } else {
                    assert(s0[a + 1].0.0 < s0[b + 1].0.0);
                }
            }
            assert forall|j: int| 0 <= j < s1.len() implies s1[j].0 != var by {
                if j < i {
                    assert(s0[j].0.0 < var.0);
                } else {
                    assert(s1[j] == s0[j + 1]);
                    assert(s0[i as int].0.0 < s0[j + 1].0.0);
                }
            }
            lemma_exponent_absent(s1, var);
            assert forall|v: VariableId| v != var implies #[trigger] exponent_of(s1, v)
                == exponent_of(s0, v) && occurs(s1, v) == occurs(s0, v) by {
                assert forall|a: int| 0 <= a < s0.len() && s0[a].0 != var implies exists|b: int|
                    0 <= b < s1.len() && s1[b] == s0[a] by {
                    if a < i {
                        assert(s1[a] == s0[a]);
                    } else {
                        assert(a != i);
                        assert(s1[a - 1] == s0[a]);
                    }
                }
                assert forall|b: int| 0 <= b < s1.len() && s1[b].0 != var implies exists|a: int|
                    0 <= a < s0.len() && s0[a] == s1[b] by {
                    if b < i {
                        assert(s1[b] == s0[b]);
                    } else {
                        assert(s1[b] == s0[b + 1]);
                    }
                }
                lemma_exponent_frame(s0, s1, var, v);
            }
            if exponents_positive(s0) {
                assert forall|a: int| 0 <= a < s1.len() implies #[trigger] s1[a].1 > 0 by {
                    if a < i {
                        assert(s1[a] == s0[a]);
                    } else {
                        assert(s1[a] == s0[a + 1]);
                    }
                }
            }
        }
    } else {
        proof {
            assert forall|j: int| 0 <= j < s0.len() implies s0[j].0 != var by {
                if j > i {
                    assert(s0[i as int].0.0 < s0[j].0.0);
                }
            }
            lemma_exponent_absent(s0, var);
        }
    }
}

proof fn lemma_normal_take(s: Seq<(VariableId, u32)>, k: int)
    requires
        is_normal_entries(s),
        0 <= k <= s.len(),
    ensures
        is_normal_entries(s.take(k)),
        forall|v: VariableId| #[trigger] total_exponent(s.take(k), v) == exponent_of(s.take(k), v),
        k < s.len() ==> total_exponent(s.take(k), s[k].0) == 0,
{
    let t = s.take(k);
    assert forall|i: int, j: int| 0 <= i < j < t.len() implies #[trigger] t[i].0.0
        < #[trigger] t[j].0.0 by {
        assert(s[i].0.0 < s[j].0.0);
    }
    assert forall|v: VariableId| #[trigger] total_exponent(t, v) == exponent_of(t, v) by {
        lemma_total_of_normal(t, v);
    }
    if k < s.len() {
        assert forall|j: int| 0 <= j < t.len() implies t[j].0 != s[k].0 by {
            assert(s[j].0.0 < s[k].0.0);
        }
        lemma_exponent_absent(t, s[k].0);
    }
}

/// Exact division of power products: `None` when some exponent of `b` exceeds that of `a`.
pub fn monomial_div(a: &Monomial, b: &Monomial) -> (r: Option<Monomial>)
    ensures
        r matches Some(q) ==> vars_increasing(q.exponents@),
        a.is_normal() && b.is_normal() ==> {
            &&& r is Some <==> forall|v: VariableId|
                exponent_of(b.exponents@, v) <= #[trigger] exponent_of(a.exponents@, v)
            &&& r matches Some(q) ==> q.is_normal() && forall|v: VariableId| #[trigger]
                exponent_of(q.exponents@, v) == exponent_of(a.exponents@, v) - exponent_of(
                    b.exponents@,
                    v,
                )
        },
{
    let ghost normal = a.is_normal() && b.is_normal();
    let mut map: Vec<(VariableId, u32)> = Vec::new();
    let n = a.exponents.len();
    for k in 0..n
        invariant
            n == a.exponents@.len(),
            normal == (a.is_normal() && b.is_normal()),
            vars_increasing(map@),
            normal ==> exponents_positive(map@),
            normal ==> forall|v: VariableId| #[trigger]
                exponent_of(map@, v) == total_exponent(a.exponents@.take(k as int), v),
    {
        let (var, e) = a.exponents[k];
        proof {
            if normal {
                lemma_normal_take(a.exponents@, k as int);
                assert forall|v: VariableId| #[trigger]
                    total_exponent(a.exponents@.take(k + 1), v) == total_exponent(
                        a.exponents@.take(k as int),
                        v,
                    ) + if a.exponents@[k as int].0 == v {
                        a.exponents@[k as int].1 as nat
                    } else {
                        0nat
                    } by {
                    lemma_total_take_step(a.exponents@, k as int, v);
                }
                assert(e > 0);
            }
        }
        entries_set(&mut map, var, e);
    }
    proof {
        assert(a.exponents@.take(n as int) == a.exponents@);
        if normal {
            assert forall|v: VariableId| #[trigger] exponent_of(map@, v) == exponent_of(
                a.exponents@,
                v,
            ) by {
                lemma_total_of_normal(a.exponents@, v);
            }
        }
    }
    let m = b.exponents.len();
    for k in 0..m
        invariant
            m == b.exponents@.len(),
            normal == (a.is_normal() && b.is_normal()),
            vars_increasing(map@),
            normal ==> exponents_positive(map@),
            normal ==> forall|v: VariableId| #[trigger]
                exponent_of(map@, v) + total_exponent(b.exponents@.take(k as int), v)
                    == exponent_of(a.exponents@, v),
    {
        let (var, b_exp) = b.exponents[k];
        proof {
            if normal {
                lemma_normal_take(b.exponents@, k as int);
                assert forall|v: VariableId| #[trigger]
                    total_exponent(b.exponents@.take(k + 1), v) == total_exponent(
                        b.exponents@.take(k as int),
                        v,
                    ) + if b.exponents@[k as int].0 == v {
                        b.exponents@[k as int].1 as nat
                    } else {
                        0nat
                    } by {
                    lemma_total_take_step(b.exponents@, k as int, v);
                }
            }
        }
        let a_exp = entries_get(&map, var);
        if a_exp < b_exp {
            proof {
                if normal {
                    lemma_exponent_at(b.exponents@, k as int);
                    assert(exponent_of(b.exponents@, var) > exponent_of(a.exponents@, var));
                }
            }
            return None;
        }
        let remaining = a_exp - b_exp;
        if remaining == 0 {
            entries_remove(&mut map, var);
        } else {
            entries_set(&mut map, var, remaining);
        }
    }
    proof {
        assert(b.exponents@.take(m as int) == b.exponents@);
        if normal {
            assert forall|v: VariableId| #[trigger] exponent_of(map@, v) == exponent_of(
                a.exponents@,
                v,
            ) - exponent_of(b.exponents@, v) by {
                lemma_total_of_normal(b.exponents@, v);
            }
            assert forall|v: VariableId| exponent_of(b.exponents@, v) <= #[trigger] exponent_of(
                a.exponents@,
                v,
            ) by {
                lemma_total_of_normal(b.exponents@, v);
                assert(exponent_of(map@, v) + total_exponent(b.exponents@.take(m as int), v)
                    == exponent_of(a.exponents@, v));
            }
        }
    }
    Some(Monomial { exponents: map })
}

/// Sum of the exponents of an entry list.
pub open spec fn exponent_sum(s: Seq<(VariableId, u32)>) -> nat
    decreases s.len(),
{
    if s.len() == 0 {
        0
    } else {
        exponent_sum(s.drop_last()) + s.last().1 as nat
    }
}

/// Total degree. The sum must fit in `u32` (the original's sum overflows otherwise).
pub fn monomial_degree(m: &Monomial) -> (d: u32)
    requires
        exponent_sum(m.exponents@) <= u32::MAX,
    ensures
        d == exponent_sum(m.exponents@),
{
    let n = m.exponents.len();
    let mut d: u32 = 0;
    for i in 0..n
        invariant
            n == m.exponents@.len(),
            exponent_sum(m.exponents@) <= u32::MAX,
            d == exponent_sum(m.exponents@.take(i as int)),
    {
        proof {
            let t = m.exponents@.take(i + 1);
            assert(t.drop_last() == m.exponents@.take(i as int));
            lemma_exponent_sum_prefix(m.exponents@, i + 1);
        }
        d = d + m.exponents[i].1;
    }
    assert(m.exponents@.take(n as int) == m.exponents@);
    d
}

pub proof fn lemma_exponent_sum_prefix(s: Seq<(VariableId, u32)>, k: int)
    requires
        0 <= k <= s.len(),
    ensures
        exponent_sum(s.take(k)) <= exponent_sum(s),
    decreases s.len(),
{
    if k < s.len() {
        assert(s.drop_last().take(k) == s.take(k));
        lemma_exponent_sum_prefix(s.drop_last(), k);
    } else {
        assert(s.take(k) == s);
    }
}

/// The variables of a power product, sorted and without repetition.
pub fn monomial_variables(m: &Monomial) -> (vars: Vec<VariableId>)
    ensures
        crate::types::id_set::var_ids_increasing(vars@),
        forall|v: VariableId| #[trigger] vars@.contains(v) <==> occurs(m.exponents@, v),
{
    let mut out: Vec<VariableId> = Vec::new();
    let n = m.exponents.len();
    for k in 0..n
        invariant
            n == m.exponents@.len(),
            crate::types::id_set::var_ids_increasing(out@),
            forall|v: VariableId| #[trigger] out@.contains(v) <==> occurs(m.exponents@.take(k as int), v),
    {
        crate::types::id_set::insert_variable_sorted(&mut out, m.exponents[k].0);
        proof {
            let t0 = m.exponents@.take(k as int);
            let t1 = m.exponents@.take(k + 1);
            assert forall|v: VariableId| #[trigger] occurs(t1, v) <==> occurs(t0, v) || v
                == m.exponents@[k as int].0 by {
                if occurs(t1, v) {
                    let i = choose|i: int| 0 <= i < t1.len() && #[trigger] t1[i].0 == v;
                    if i < k {
                        assert(t0[i].0 == v);
                    }
                }
                if occurs(t0, v) {
                    let i = choose|i: int| 0 <= i < t0.len() && #[trigger] t0[i].0 == v;
                    assert(t1[i].0 == v);
                }
                if v == m.exponents@[k as int].0 {
                    assert(t1[k as int].0 == v);
                }
            }
        }
    }
    assert(m.exponents@.take(n as int) == m.exponents@);
    out
}

/// Canonical bytes of the entries: each variable then its exponent, four big-endian bytes each.
pub open spec fn entries_bytes(s: Seq<(VariableId, u32)>) -> Seq<u8>
    decreases s.len(),
{
    if s.len() == 0 {
        Seq::empty()
    } else {
        entries_bytes(s.drop_last()) + be_bytes(s.last().0.0 as nat, 4) + be_bytes(
            s.last().1 as nat,
            4,
        )
    }
}

/// Canonical bytes of a monomial: the entry count on eight bytes, then the entries.
pub open spec fn spec_monomial_bytes(m: Monomial) -> Seq<u8> {
    be_bytes(m.exponents@.len(), 8) + entries_bytes(m.exponents@)
}

pub fn monomial_to_bytes(m: &Monomial) -> (out: Vec<u8>)
    ensures
        out@ == spec_monomial_bytes(*m),
{
    let n = m.exponents.len();
    let mut out = u64_be(n as u64);
    for i in 0..n
        invariant
            n == m.exponents@.len(),
            out@ == be_bytes(n as nat, 8) + entries_bytes(m.exponents@.take(i as int)),
    {
        let (var, exp) = m.exponents[i];
        let vb = u32_be(var.0);
        let eb = u32_be(exp);
        extend_bytes(&mut out, vb.as_slice());
        extend_bytes(&mut out, eb.as_slice());
        proof {
            assert(m.exponents@.take(i + 1).drop_last() == m.exponents@.take(i as int));
        }
    }
    assert(m.exponents@.take(n as int) == m.exponents@);
    out
}

/// The normal form of an entry list: the normal entries with its summed (saturated) exponents.
pub open spec fn normal_form(entries: Seq<(VariableId, u32)>) -> Seq<(VariableId, u32)> {
    choose|m: Seq<(VariableId, u32)>|
        is_normal_entries(m) && forall|v: VariableId| exponent_of(m, v) == saturate(#[trigger] total_exponent(entries, v))
}

proof fn lemma_exponent_drop_first(s: Seq<(VariableId, u32)>, v: VariableId)
    requires
        is_normal_entries(s),
        s.len() > 0,
        v != s[0].0,
    ensures
        exponent_of(s.drop_first(), v) == exponent_of(s, v),
{
    let t = s.drop_first();
    if occurs(s, v) {
        let i = choose|i: int| 0 <= i < s.len() && #[trigger] s[i].0 == v;
        lemma_exponent_at(s, i);
        assert(i > 0);
        assert(t[i - 1] == s[i]);
        lemma_exponent_at(t, i - 1);
    } else {
        assert forall|j: int| 0 <= j < t.len() implies t[j].0 != v by {
            assert(t[j] == s[j + 1]);
        }
        lemma_exponent_absent(t, v);
    }
}

/// Two normal entry lists with the same exponents are the same list.
pub proof fn lemma_normal_unique(a: Seq<(VariableId, u32)>, b: Seq<(VariableId, u32)>)
    requires
        is_normal_entries(a),
        is_normal_entries(b),
        forall|v: VariableId| #[trigger] exponent_of(a, v) == exponent_of(b, v),
    ensures
        a == b,
    decreases a.len() + b.len(),
{
    if a.len() == 0 && b.len() == 0 {
        assert(a =~= b);
    } else if a.len() == 0 {
        lemma_exponent_at(b, 0);
        lemma_exponent_absent(a, b[0].0);
        assert(exponent_of(a, b[0].0) == exponent_of(b, b[0].0));
    } else if b.len() == 0 {
        lemma_exponent_at(a, 0);
        lemma_exponent_absent(b, a[0].0);
        assert(exponent_of(a, a[0].0) == exponent_of(b, a[0].0));
    } else {
        lemma_exponent_at(a, 0);
        lemma_exponent_at(b, 0);
        if a[0].0.0 < b[0].0.0 {
            assert forall|j: int| 0 <= j < b.len() implies b[j].0 != a[0].0 by {
                if j > 0 {
                    assert(b[0].0.0 < b[j].0.0);
                }
            }
            lemma_exponent_absent(b, a[0].0);
            assert(exponent_of(a, a[0].0) == exponent_of(b, a[0].0));
        } else if b[0].0.0 < a[0].0.0 {
            assert forall|j: int| 0 <= j < a.len() implies a[j].0 != b[0].0 by {
                if j > 0 {
                    assert(a[0].0.0 < a[j].0.0);
                }
            }
            lemma_exponent_absent(a, b[0].0);
            assert(exponent_of(a, b[0].0) == exponent_of(b, b[0].0));
        } else {
            assert(a[0].0 == b[0].0);
            assert(exponent_of(a, a[0].0) == exponent_of(b, a[0].0));
            assert(a[0] == b[0]);
            let ta = a.drop_first();
            let tb = b.drop_first();
            assert forall|v: VariableId| #[trigger] exponent_of(ta, v) == exponent_of(tb, v) by {
                if v == a[0].0 {
                    assert forall|j: int| 0 <= j < ta.len() implies ta[j].0 != v by {
                        assert(ta[j] == a[j + 1]);
                        assert(a[0].0.0 < a[j + 1].0.0);
                    }
                    assert forall|j: int| 0 <= j < tb.len() implies tb[j].0 != v by {
                        assert(tb[j] == b[j + 1]);
                        assert(b[0].0.0 < b[j + 1].0.0);
                    }
                    lemma_exponent_absent(ta, v);
                    lemma_exponent_absent(tb, v);
                } else {
                    lemma_exponent_drop_first(a, v);
                    lemma_exponent_drop_first(b, v);
                }
            }
            assert(is_normal_entries(ta)) by {
                assert forall|i: int, j: int| 0 <= i < j < ta.len() implies #[trigger] ta[i].0.0 < #[trigger] ta[j].0.0 by {
                    assert(ta[i] == a[i + 1] && ta[j] == a[j + 1]);
                }
                assert forall|i: int| 0 <= i < ta.len() implies #[trigger] ta[i].1 > 0 by {
                    assert(ta[i] == a[i + 1]);
                }
            }
            assert(is_normal_entries(tb)) by {
                assert forall|i: int, j: int| 0 <= i < j < tb.len() implies #[trigger] tb[i].0.0 < #[trigger] tb[j].0.0 by {
                    assert(tb[i] == b[i + 1] && tb[j] == b[j + 1]);
                }
                assert forall|i: int| 0 <= i < tb.len() implies #[trigger] tb[i].1 > 0 by {
                    assert(tb[i] == b[i + 1]);
                }
            }
            lemma_normal_unique(ta, tb);
            assert(a =~= seq![a[0]] + ta);
            assert(b =~= seq![b[0]] + tb);
        }
    }
}

/// What `normalize_monomial` returns is the normal form of its input.
pub proof fn lemma_normal_form_of(m: Seq<(VariableId, u32)>, entries: Seq<(VariableId, u32)>)
    requires
        is_normal_entries(m),
        forall|v: VariableId| exponent_of(m, v) == saturate(#[trigger] total_exponent(entries, v)),
    ensures
        normal_form(entries) == m,
{
    let n = normal_form(entries);
    assert(is_normal_entries(n) && forall|v: VariableId| exponent_of(n, v) == saturate(#[trigger] total_exponent(entries, v)));
    assert forall|v: VariableId| #[trigger] exponent_of(n, v) == exponent_of(m, v) by {
        assert(exponent_of(n, v) == saturate(total_exponent(entries, v)));
    }
    lemma_normal_unique(n, m);
}

/// The order the derived `Ord` of entry lists gives: lexicographic on (variable, exponent)
/// pairs, a proper prefix first. Negative, zero or positive.
pub open spec fn entries_order(a: Seq<(VariableId, u32)>, b: Seq<(VariableId, u32)>) -> int
    decreases a.len(),
{
    if a.len() == 0 && b.len() == 0 {
        0
    } else if a.len() == 0 {
        -1
    } else if b.len() == 0 {
        1
    } else if a[0].0.0 < b[0].0.0 {
        -1
    } else if a[0].0.0 > b[0].0.0 {
        1
    } else if a[0].1 < b[0].1 {
        -1
    } else if a[0].1 > b[0].1 {
        1
    } else {
        entries_order(a.drop_first(), b.drop_first())
    }
}

pub proof fn lemma_entries_order_zero(a: Seq<(VariableId, u32)>, b: Seq<(VariableId, u32)>)
    ensures
        (entries_order(a, b) == 0) == (a == b),
    decreases a.len(),
{
    if a.len() > 0 && b.len() > 0 && a[0] == b[0] {
        lemma_entries_order_zero(a.drop_first(), b.drop_first());
        if a.drop_first() == b.drop_first() {
            assert(a =~= seq![a[0]] + a.drop_first());
            assert(b =~= seq![b[0]] + b.drop_first());
        }
    }
    if a.len() > 0 && b.len() > 0 && a[0].0.0 == b[0].0.0 && a[0].1 == b[0].1 {
        assert(a[0].0 == b[0].0);
        assert(a[0] == b[0]);
    }
    if a.len() == 0 && b.len() == 0 {
        assert(a =~= b);
    }
}

pub proof fn lemma_entries_order_antisym(a: Seq<(VariableId, u32)>, b: Seq<(VariableId, u32)>)
    ensures
        entries_order(a, b) == -entries_order(b, a),
    decreases a.len(),
{
    if a.len() > 0 && b.len() > 0 && a[0].0.0 == b[0].0.0 && a[0].1 == b[0].1 {
        lemma_entries_order_antisym(a.drop_first(), b.drop_first());
    }
}

pub proof fn lemma_entries_order_trans(a: Seq<(VariableId, u32)>, b: Seq<(VariableId, u32)>, c: Seq<(VariableId, u32)>)
    requires
        entries_order(a, b) < 0,
        entries_order(b, c) < 0,
    ensures
        entries_order(a, c) < 0,
    decreases a.len(),
{
    if a.len() > 0 && b.len() > 0 && c.len() > 0 && a[0].0.0 == b[0].0.0 && a[0].1 == b[0].1
        && b[0].0.0 == c[0].0.0 && b[0].1 == c[0].1 {
        lemma_entries_order_trans(a.drop_first(), b.drop_first(), c.drop_first());
    }
}

/// Compares two entry lists as the derived `Ord` of monomials does.
pub fn entries_order_exec(a: &Vec<(VariableId, u32)>, b: &Vec<(VariableId, u32)>) -> (r: i8)
    ensures
        r == entries_order(a@, b@),
{
    let n = a.len();
    let m = b.len();
    let mut i: usize = 0;
    assert(a@.skip(0) == a@);
    assert(b@.skip(0) == b@);
    while i < n && i < m
        invariant
            i <= n,
            i <= m,
            n == a@.len(),
            m == b@.len(),
            entries_order(a@, b@) == entries_order(a@.skip(i as int), b@.skip(i as int)),
        decreases n - i,
    {
        let x = a[i];
        let y = b[i];
        proof {
            assert(a@.skip(i as int)[0] == x);
            assert(b@.skip(i as int)[0] == y);
            assert(a@.skip(i as int).drop_first() == a@.skip(i + 1));
            assert(b@.skip(i as int).drop_first() == b@.skip(i + 1));
        }
        if x.0.0 < y.0.0 {
            return -1;
        }
        if x.0.0 > y.0.0 {
            return 1;
        }
        if x.1 < y.1 {
            return -1;
        }
        if x.1 > y.1 {
            return 1;
        }
        i += 1;
    }
    if i == n && i == m {
        0
    } else if i == n {
        -1
    } else {
        1
    }
}

/// A copy of an entry list.
pub fn copy_entries(s: &Vec<(VariableId, u32)>) -> (out: Vec<(VariableId, u32)>)
    ensures
        out@ == s@,
{
    let mut out: Vec<(VariableId, u32)> = Vec::new();
    let n = s.len();
    for i in 0..n
        invariant
            n == s@.len(),
            out@ == s@.take(i as int),
    {
        out.push(s[i]);
        assert(s@.take(i + 1) == s@.take(i as int).push(s@[i as int]));
    }
    assert(s@.take(n as int) == s@);
    out
}

} // verus!
