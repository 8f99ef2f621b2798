//! Sparse and dense matrices, their shapes, densities and canonical digests.
use vstd::prelude::*;
use vstd::multiset::Multiset;
use vstd::string::StringSliceAdditionalSpecFns;

use crate::types::bigint::{big_mul, from_usize};
use crate::types::bytes::{be_bytes, extend_bytes, u64_be, usize_be};
use crate::types::chunks::push_chunk;
use crate::types::hash::{self, chunk_views, hash_sequence, spec_hash_sequence};
use crate::types::polynomial::{copy_q, lemma_ratio_add, lemma_ratio_zero};
use crate::types::rational::{
    add_q, int_q, is_canonical, is_zero_q, new_q, rational_to_bytes, same_ratio, spec_rational_bytes, RationalQ,
};

verus! {

#[derive(Debug, Clone, PartialEq, Eq)]
pub struct SparseMatrixQ {
    pub rows: usize,
    pub cols: usize,
    pub entries: Vec<(usize, usize, RationalQ)>,
}

#[derive(Debug, Clone, PartialEq, Eq)]
pub struct SparseMatrixFp {
    pub rows: usize,
    pub cols: usize,
    pub entries: Vec<(usize, usize, u64)>,
}

#[derive(Debug, Clone, PartialEq, Eq)]
pub struct DenseMatrixFp {
    pub rows: usize,
    pub cols: usize,
    pub entries_row_major: Vec<u64>,
}

#[derive(Debug, Clone, PartialEq, Eq)]
pub struct VectorQ {
    pub entries: Vec<RationalQ>,
}

#[derive(Debug, Clone, PartialEq, Eq)]
pub struct VectorFp {
    pub entries: Vec<u64>,
}

/// A matrix with a shape, a count of nonzero entries and canonical bytes.
pub trait MatrixShape {
    /// The entries are usable: every rational entry has a nonzero denominator.
    spec fn matrix_wf(&self) -> bool;

    /// (rows, columns).
    spec fn shape_view(&self) -> (usize, usize);

    /// The number of nonzero positions.
    spec fn nonzero_view(&self) -> nat;

    /// Whether `bytes` are the matrix's canonical bytes.
    spec fn is_canonical_bytes(&self, bytes: Seq<u8>) -> bool;

    fn shape(&self) -> (r: (usize, usize))
        ensures
            r == self.shape_view(),
    ;

    fn nonzero_count(&self) -> (r: usize)
        requires
            self.matrix_wf(),
        ensures
            r == self.nonzero_view(),
    ;

    fn canonical_bytes(&self) -> (r: Vec<u8>)
        requires
            self.matrix_wf(),
        ensures
            self.is_canonical_bytes(r@),
    ;
}

// ----- rational sparse matrices -----

pub open spec fn key_lt(a: (usize, usize), b: (usize, usize)) -> bool {
    a.0 < b.0 || (a.0 == b.0 && a.1 < b.1)
}

pub open spec fn entry_key<V>(e: (usize, usize, V)) -> (usize, usize) {
    (e.0, e.1)
}

/// Entries as plain values: row, column, numerator, denominator.
pub open spec fn entries_view(es: Seq<(usize, usize, RationalQ)>) -> Seq<(usize, usize, int, int)> {
    es.map_values(|e: (usize, usize, RationalQ)| (e.0, e.1, e.2.num@, e.2.den@))
}

/// The sum of the nonzero in-range entries at `k`, as an unreduced fraction.
pub open spec fn entry_sum(v: Seq<(usize, usize, int, int)>, rows: usize, cols: usize, k: (usize, usize)) -> (int, int)
    decreases v.len(),
{
    if v.len() == 0 {
        (0, 1)
    } else {
        let prev = entry_sum(v.drop_last(), rows, cols, k);
        let t = v.last();
        if t.0 < rows && t.1 < cols && t.2 != 0 && (t.0, t.1) == k {
            (prev.0 * t.3 + t.2 * prev.1, prev.1 * t.3)
        } else {
            prev
        }
    }
}

pub open spec fn dens_nonzero(v: Seq<(usize, usize, int, int)>) -> bool {
    forall|i: int| 0 <= i < v.len() ==> (#[trigger] v[i]).3 != 0
}

/// `out` holds one entry per in-range position whose entries do not sum to zero, with that
/// sum, in increasing (row, column) order.
pub open spec fn is_entry_normalization(
    out: Seq<(usize, usize, RationalQ)>,
    v: Seq<(usize, usize, int, int)>,
    rows: usize,
    cols: usize,
) -> bool {
    &&& forall|i: int, j: int| 0 <= i < j < out.len() ==> key_lt(entry_key(#[trigger] out[i]), entry_key(#[trigger] out[j]))
    &&& forall|i: int|
        0 <= i < out.len() ==> {
            let e = #[trigger] out[i];
            let s = entry_sum(v, rows, cols, entry_key(e));
            &&& e.0 < rows
            &&& e.1 < cols
            &&& e.2.num@ != 0
            &&& e.2.den@ != 0
            &&& same_ratio(e.2.num@, e.2.den@, s.0, s.1)
        }
    &&& forall|k: (usize, usize)|
        k.0 < rows && k.1 < cols && (#[trigger] entry_sum(v, rows, cols, k)).0 != 0 ==> exists|i: int|
            0 <= i < out.len() && entry_key(out[i]) == k
}

proof fn lemma_entry_sum_den(v: Seq<(usize, usize, int, int)>, rows: usize, cols: usize, k: (usize, usize))
    requires
        dens_nonzero(v),
    ensures
        entry_sum(v, rows, cols, k).1 != 0,
    decreases v.len(),
{
    if v.len() > 0 {
        let d = v.drop_last();
        assert(dens_nonzero(d)) by {
            assert forall|i: int| 0 <= i < d.len() implies (#[trigger] d[i]).3 != 0 by {
                assert(d[i] == v[i]);
            }
        }
        lemma_entry_sum_den(d, rows, cols, k);
        let prev = entry_sum(d, rows, cols, k);
        let t = v.last();
        assert(t.3 != 0);
        assert(prev.1 * t.3 != 0) by (nonlinear_arith)
            requires
                prev.1 != 0,
                t.3 != 0,
        ;
    }
}

proof fn lemma_entry_keeps(
    old: Seq<(usize, usize, RationalQ)>,
    new: Seq<(usize, usize, RationalQ)>,
    before: Seq<(usize, usize, int, int)>,
    after: Seq<(usize, usize, int, int)>,
    rows: usize,
    cols: usize,
    k: (usize, usize),
)
    requires
        is_entry_normalization(old, before, rows, cols),
        forall|m: (usize, usize)| m != k ==> #[trigger] entry_sum(after, rows, cols, m) == entry_sum(before, rows, cols, m),
        forall|i: int, j: int| 0 <= i < j < new.len() ==> key_lt(entry_key(#[trigger] new[i]), entry_key(#[trigger] new[j])),
        forall|i: int|
            0 <= i < new.len() && entry_key(new[i]) != k ==> exists|j: int| 0 <= j < old.len() && #[trigger] old[j] == new[i],
        forall|j: int|
            0 <= j < old.len() && entry_key(old[j]) != k ==> exists|i: int| 0 <= i < new.len() && new[i] == #[trigger] old[j],
        forall|i: int|
            0 <= i < new.len() && entry_key(#[trigger] new[i]) == k ==> {
                let e = new[i];
                let s = entry_sum(after, rows, cols, k);
                &&& e.0 < rows
                &&& e.1 < cols
                &&& e.2.num@ != 0
                &&& e.2.den@ != 0
                &&& same_ratio(e.2.num@, e.2.den@, s.0, s.1)
            },
        k.0 < rows && k.1 < cols && entry_sum(after, rows, cols, k).0 != 0 ==> exists|i: int| 0 <= i < new.len() && entry_key(new[i]) == k,
    ensures
        is_entry_normalization(new, after, rows, cols),
{
    assert forall|i: int| 0 <= i < new.len() implies {
        let e = #[trigger] new[i];
        let s = entry_sum(after, rows, cols, entry_key(e));
        &&& e.0 < rows
        &&& e.1 < cols
        &&& e.2.num@ != 0
        &&& e.2.den@ != 0
        &&& same_ratio(e.2.num@, e.2.den@, s.0, s.1)
    } by {
        if entry_key(new[i]) != k {
            let j = choose|j: int| 0 <= j < old.len() && #[trigger] old[j] == new[i];
            assert(old[j] == new[i]);
        }
    }
    assert forall|m: (usize, usize)|
        m.0 < rows && m.1 < cols && (#[trigger] entry_sum(after, rows, cols, m)).0 != 0 implies exists|i: int|
        0 <= i < new.len() && entry_key(new[i]) == m by {
        if m != k {
            assert(entry_sum(before, rows, cols, m).0 != 0);
            let j = choose|j: int| 0 <= j < old.len() && entry_key(old[j]) == m;
            let i = choose|i: int| 0 <= i < new.len() && new[i] == #[trigger] old[j];
            assert(entry_key(new[i]) == m);
        }
    }
}

pub open spec fn keys_sorted<V>(out: Seq<(usize, usize, V)>) -> bool {
    forall|i: int, j: int| 0 <= i < j < out.len() ==> key_lt(entry_key(#[trigger] out[i]), entry_key(#[trigger] out[j]))
}

/// The entry `e` is a valid canonical entry at `k` for the sums of `v`.
pub open spec fn entry_matches(e: (usize, usize, RationalQ), v: Seq<(usize, usize, int, int)>, rows: usize, cols: usize) -> bool {
    let s = entry_sum(v, rows, cols, entry_key(e));
    &&& e.0 < rows
    &&& e.1 < cols
    &&& e.2.num@ != 0
    &&& e.2.den@ != 0
    &&& same_ratio(e.2.num@, e.2.den@, s.0, s.1)
}

proof fn lemma_remove_sorted_keys<V>(old_out: Seq<(usize, usize, V)>, pos: int)
    requires
        keys_sorted(old_out),
        0 <= pos < old_out.len(),
    ensures
        keys_sorted(old_out.remove(pos)),
        forall|a: int| 0 <= a < old_out.remove(pos).len() ==> entry_key(#[trigger] old_out.remove(pos)[a]) != entry_key(old_out[pos]),
{
    let out = old_out.remove(pos);
    assert forall|a: int, b: int| 0 <= a < b < out.len() implies key_lt(entry_key(#[trigger] out[a]), entry_key(#[trigger] out[b])) by {
        let oa = if a < pos { a } else { a + 1 };
        let ob = if b < pos { b } else { b + 1 };
        assert(out[a] == old_out[oa] && out[b] == old_out[ob]);
    }
    assert forall|a: int| 0 <= a < out.len() implies entry_key(#[trigger] out[a]) != entry_key(old_out[pos]) by {
        let oa = if a < pos { a } else { a + 1 };
        assert(out[a] == old_out[oa]);
        if oa < pos {
            assert(key_lt(entry_key(old_out[oa]), entry_key(old_out[pos])));
        } else {
            assert(key_lt(entry_key(old_out[pos]), entry_key(old_out[oa])));
        }
    }
}

proof fn lemma_remove_kept<V>(old_out: Seq<(usize, usize, V)>, pos: int)
    requires
        0 <= pos < old_out.len(),
    ensures
        forall|a: int| 0 <= a < old_out.remove(pos).len() && entry_key(old_out.remove(pos)[a]) != entry_key(old_out[pos]) ==> exists|j: int|
            0 <= j < old_out.len() && #[trigger] old_out[j] == old_out.remove(pos)[a],
        forall|j: int| 0 <= j < old_out.len() && entry_key(old_out[j]) != entry_key(old_out[pos]) ==> exists|a: int|
            0 <= a < old_out.remove(pos).len() && old_out.remove(pos)[a] == #[trigger] old_out[j],
{
    let out = old_out.remove(pos);
    let k = entry_key(old_out[pos]);
    assert forall|a: int| 0 <= a < out.len() && entry_key(out[a]) != k implies exists|j: int|
        0 <= j < old_out.len() && #[trigger] old_out[j] == out[a] by {
        let oa = if a < pos { a } else { a + 1 };
        assert(old_out[oa] == out[a]);
    }
    assert forall|j: int| 0 <= j < old_out.len() && entry_key(old_out[j]) != k implies exists|a: int|
        0 <= a < out.len() && out[a] == #[trigger] old_out[j] by {
        if j < pos {
            assert(out[j] == old_out[j]);
        } else {
            assert(j != pos);
            assert(out[j - 1] == old_out[j]);
        }
    }
}

proof fn lemma_merge_remove(
    old_out: Seq<(usize, usize, RationalQ)>,
    pos: int,
    before: Seq<(usize, usize, int, int)>,
    after: Seq<(usize, usize, int, int)>,
    rows: usize,
    cols: usize,
    k: (usize, usize),
)
    requires
        is_entry_normalization(old_out, before, rows, cols),
        0 <= pos < old_out.len(),
        entry_key(old_out[pos]) == k,
        forall|m: (usize, usize)| m != k ==> #[trigger] entry_sum(after, rows, cols, m) == entry_sum(before, rows, cols, m),
        entry_sum(after, rows, cols, k).0 == 0,
    ensures
        is_entry_normalization(old_out.remove(pos), after, rows, cols),
{
    lemma_remove_sorted_keys(old_out, pos);
    lemma_remove_kept(old_out, pos);
    lemma_entry_keeps(old_out, old_out.remove(pos), before, after, rows, cols, k);
}

proof fn lemma_merge_set(
    old_out: Seq<(usize, usize, RationalQ)>,
    pos: int,
    e: (usize, usize, RationalQ),
    before: Seq<(usize, usize, int, int)>,
    after: Seq<(usize, usize, int, int)>,
    rows: usize,
    cols: usize,
    k: (usize, usize),
)
    requires
        is_entry_normalization(old_out, before, rows, cols),
        0 <= pos < old_out.len(),
        entry_key(old_out[pos]) == k,
        entry_key(e) == k,
        entry_matches(e, after, rows, cols),
        forall|m: (usize, usize)| m != k ==> #[trigger] entry_sum(after, rows, cols, m) == entry_sum(before, rows, cols, m),
    ensures
        is_entry_normalization(old_out.update(pos, e), after, rows, cols),
{
    let out = old_out.update(pos, e);
    assert forall|a: int, b: int| 0 <= a < b < out.len() implies key_lt(entry_key(#[trigger] out[a]), entry_key(#[trigger] out[b])) by {
        assert(entry_key(out[a]) == entry_key(old_out[a]));
        assert(entry_key(out[b]) == entry_key(old_out[b]));
    }
    assert forall|a: int| 0 <= a < out.len() && entry_key(out[a]) != k implies exists|j: int|
        0 <= j < old_out.len() && #[trigger] old_out[j] == out[a] by {
        assert(old_out[a] == out[a]);
    }
    assert forall|j: int| 0 <= j < old_out.len() && entry_key(old_out[j]) != k implies exists|a: int|
        0 <= a < out.len() && out[a] == #[trigger] old_out[j] by {
        assert(out[j] == old_out[j]);
    }
    assert forall|a: int| 0 <= a < out.len() && entry_key(#[trigger] out[a]) == k implies a == pos by {
        if a < pos {
            assert(key_lt(entry_key(old_out[a]), entry_key(old_out[pos])));
        } else if a > pos {
            assert(key_lt(entry_key(old_out[pos]), entry_key(old_out[a])));
        }
    }
    assert(out[pos] == e);
    lemma_entry_keeps(old_out, out, before, after, rows, cols, k);
}

proof fn lemma_merge_insert(
    old_out: Seq<(usize, usize, RationalQ)>,
    pos: int,
    e: (usize, usize, RationalQ),
    before: Seq<(usize, usize, int, int)>,
    after: Seq<(usize, usize, int, int)>,
    rows: usize,
    cols: usize,
    k: (usize, usize),
)
    requires
        is_entry_normalization(old_out, before, rows, cols),
        0 <= pos <= old_out.len(),
        forall|j: int| 0 <= j < pos ==> key_lt(entry_key(#[trigger] old_out[j]), k),
        pos < old_out.len() ==> key_lt(k, entry_key(old_out[pos])),
        entry_key(e) == k,
        entry_matches(e, after, rows, cols),
        forall|m: (usize, usize)| m != k ==> #[trigger] entry_sum(after, rows, cols, m) == entry_sum(before, rows, cols, m),
    ensures
        is_entry_normalization(old_out.insert(pos, e), after, rows, cols),
{
    lemma_insert_structure(old_out, pos, e);
    lemma_entry_keeps(old_out, old_out.insert(pos, e), before, after, rows, cols, k);
}

/// The first position whose key is not below `(row, col)`.
fn key_position<V>(out: &Vec<(usize, usize, V)>, row: usize, col: usize) -> (pos: usize)
    ensures
        pos <= out@.len(),
        forall|j: int| 0 <= j < pos ==> key_lt(entry_key(#[trigger] out@[j]), (row, col)),
        pos < out@.len() ==> !key_lt(entry_key(out@[pos as int]), (row, col)),
{
    let mut pos: usize = 0;
    while pos < out.len()
        invariant
            pos <= out@.len(),
            forall|j: int| 0 <= j < pos ==> key_lt(entry_key(#[trigger] out@[j]), (row, col)),
        decreases out@.len() - pos,
    {
        let r = out[pos].0;
        let c = out[pos].1;
        if !(r < row || (r == row && c < col)) {
            return pos;
        }
        pos += 1;
    }
    pos
}

/// Adds one nonzero in-range entry into the canonical entries built so far.
fn merge_entry(
    out: &mut Vec<(usize, usize, RationalQ)>,
    row: usize,
    col: usize,
    value: &RationalQ,
    rows: usize,
    cols: usize,
    Ghost(before): Ghost<Seq<(usize, usize, int, int)>>,
    Ghost(after): Ghost<Seq<(usize, usize, int, int)>>,
)
    requires
        is_entry_normalization(old(out)@, before, rows, cols),
        after == before.push((row, col, value.num@, value.den@)),
        dens_nonzero(after),
        dens_nonzero(before),
        row < rows,
        col < cols,
        value.num@ != 0,
    ensures
        is_entry_normalization(final(out)@, after, rows, cols),
{
    let ghost k = (row, col);
    proof {
        assert(after.drop_last() == before);
        lemma_entry_sum_den(before, rows, cols, k);
        lemma_entry_sum_den(after, rows, cols, k);
        assert forall|m: (usize, usize)| m != k implies #[trigger] entry_sum(after, rows, cols, m) == entry_sum(before, rows, cols, m) by {}
        assert(value.den@ != 0) by {
            assert(after[after.len() - 1] == (row, col, value.num@, value.den@));
        }
    }
    let pos = key_position(out, row, col);
    let ghost old_out = out@;
    let found = pos < out.len() && out[pos].0 == row && out[pos].1 == col;
    if found {
        let sum = add_q(&out[pos].2, value);
        proof {
            let o = old_out[pos as int].2;
            let s0 = entry_sum(before, rows, cols, k);
            assert(entry_key(old_out[pos as int]) == k);
            lemma_ratio_add(sum.num@, sum.den@, o.num@, o.den@, s0.0, s0.1, value.num@, value.den@);
            lemma_ratio_zero(sum.num@, sum.den@, entry_sum(after, rows, cols, k).0, entry_sum(after, rows, cols, k).1);
        }
        if is_zero_q(&sum) {
            out.remove(pos);
            proof {
                lemma_merge_remove(old_out, pos as int, before, after, rows, cols, k);
            }
        } else {
            let ghost e = (row, col, sum);
            out.set(pos, (row, col, sum));
            proof {
                lemma_merge_set(old_out, pos as int, e, before, after, rows, cols, k);
            }
        }
    } else {
        let c = copy_q(value);
        proof {
            let s0 = entry_sum(before, rows, cols, k);
            if s0.0 != 0 {
                let j = choose|j: int| 0 <= j < old_out.len() && entry_key(old_out[j]) == k;
                if j < pos {
                    assert(key_lt(entry_key(old_out[j]), k));
                } else if j > pos {
                    assert(key_lt(entry_key(old_out[pos as int]), entry_key(old_out[j])));
                }
            }
            assert(s0.0 == 0);
            assert(entry_sum(after, rows, cols, k) == (s0.0 * value.den@ + value.num@ * s0.1, s0.1 * value.den@));
            assert(same_ratio(c.num@, c.den@, entry_sum(after, rows, cols, k).0, entry_sum(after, rows, cols, k).1)) by (nonlinear_arith)
                requires
                    s0.0 == 0,
                    c.num@ == value.num@,
                    c.den@ == value.den@,
                    entry_sum(after, rows, cols, k) == (s0.0 * value.den@ + value.num@ * s0.1, s0.1 * value.den@),
            ;
        }
        let ghost e = (row, col, c);
        out.insert(pos, (row, col, c));
        proof {
            lemma_merge_insert(old_out, pos as int, e, before, after, rows, cols, k);
        }
    }
}

/// The canonical entries of a rational sparse matrix: in-range entries summed by position,
/// zero sums and zero entries dropped, in increasing (row, column) order.
fn canonical_sparse_q_entries(matrix: &SparseMatrixQ) -> (out: Vec<(usize, usize, RationalQ)>)
    requires
        dens_nonzero(entries_view(matrix.entries@)),
    ensures
        is_entry_normalization(out@, entries_view(matrix.entries@), matrix.rows, matrix.cols),
{
    let rows = matrix.rows;
    let cols = matrix.cols;
    let ghost all = entries_view(matrix.entries@);
    let mut out: Vec<(usize, usize, RationalQ)> = Vec::new();
    let n = matrix.entries.len();
    for i in 0..n
        invariant
            n == matrix.entries@.len(),
            all == entries_view(matrix.entries@),
            rows == matrix.rows,
            cols == matrix.cols,
            dens_nonzero(all),
            is_entry_normalization(out@, all.take(i as int), rows, cols),
    {
        let ghost before = all.take(i as int);
        let ghost after = all.take(i + 1);
        let row = matrix.entries[i].0;
        let col = matrix.entries[i].1;
        let value = &matrix.entries[i].2;
        proof {
            assert(after.drop_last() == before);
            assert(after == before.push(all[i as int]));
            assert(all[i as int] == (row, col, value.num@, value.den@));
            assert(dens_nonzero(before)) by {
                assert forall|q: int| 0 <= q < before.len() implies (#[trigger] before[q]).3 != 0 by {
                    assert(before[q] == all[q]);
                }
            }
            assert(dens_nonzero(after)) by {
                assert forall|q: int| 0 <= q < after.len() implies (#[trigger] after[q]).3 != 0 by {
                    assert(after[q] == all[q]);
                }
            }
        }
        if row >= rows || col >= cols || is_zero_q(value) {
            proof {
                assert forall|m: (usize, usize)| #[trigger] entry_sum(after, rows, cols, m) == entry_sum(before, rows, cols, m) by {}
                assert forall|q: int| 0 <= q < out@.len() implies entry_sum(after, rows, cols, entry_key(#[trigger] out@[q]))
                    == entry_sum(before, rows, cols, entry_key(out@[q])) by {}
            }
        } else {
            merge_entry(&mut out, row, col, value, rows, cols, Ghost(before), Ghost(after));
        }
    }
    assert(all.take(n as int) == all);
    out
}

// ----- residue sparse matrices -----

/// The residues of the nonzero in-range entries at `k`.
pub open spec fn fp_values(v: Seq<(usize, usize, u64)>, rows: usize, cols: usize, k: (usize, usize)) -> Multiset<u64>
    decreases v.len(),
{
    if v.len() == 0 {
        Multiset::empty()
    } else {
        let prev = fp_values(v.drop_last(), rows, cols, k);
        let t = v.last();
        if t.0 < rows && t.1 < cols && t.2 != 0 && (t.0, t.1) == k {
            prev.insert(t.2)
        } else {
            prev
        }
    }
}

pub open spec fn sorted_values(s: Seq<u64>) -> bool {
    forall|i: int, j: int| 0 <= i <= j < s.len() ==> s[i] <= s[j]
}

/// The entry holds, in increasing order, exactly the residues at its position.
pub open spec fn fp_entry_matches(e: (usize, usize, Vec<u64>), v: Seq<(usize, usize, u64)>, rows: usize, cols: usize) -> bool {
    &&& e.0 < rows
    &&& e.1 < cols
    &&& e.2@.len() > 0
    &&& sorted_values(e.2@)
    &&& e.2@.to_multiset() == fp_values(v, rows, cols, entry_key(e))
}

/// `out` holds one entry per in-range position with a nonzero residue, in increasing
/// (row, column) order, each with the sorted residues of that position.
pub open spec fn is_fp_normalization(
    out: Seq<(usize, usize, Vec<u64>)>,
    v: Seq<(usize, usize, u64)>,
    rows: usize,
    cols: usize,
) -> bool {
    &&& keys_sorted(out)
    &&& forall|i: int| 0 <= i < out.len() ==> fp_entry_matches(#[trigger] out[i], v, rows, cols)
    &&& forall|k: (usize, usize)|
        k.0 < rows && k.1 < cols && (#[trigger] fp_values(v, rows, cols, k)).len() > 0 ==> exists|i: int|
            0 <= i < out.len() && entry_key(out[i]) == k
}

proof fn lemma_fp_keeps(
    old: Seq<(usize, usize, Vec<u64>)>,
    new: Seq<(usize, usize, Vec<u64>)>,
    before: Seq<(usize, usize, u64)>,
    after: Seq<(usize, usize, u64)>,
    rows: usize,
    cols: usize,
    k: (usize, usize),
)
    requires
        is_fp_normalization(old, before, rows, cols),
        forall|m: (usize, usize)| m != k ==> #[trigger] fp_values(after, rows, cols, m) == fp_values(before, rows, cols, m),
        keys_sorted(new),
        forall|i: int|
            0 <= i < new.len() && entry_key(new[i]) != k ==> exists|j: int| 0 <= j < old.len() && #[trigger] old[j] == new[i],
        forall|j: int|
            0 <= j < old.len() && entry_key(old[j]) != k ==> exists|i: int| 0 <= i < new.len() && new[i] == #[trigger] old[j],
        forall|i: int| 0 <= i < new.len() && entry_key(#[trigger] new[i]) == k ==> fp_entry_matches(new[i], after, rows, cols),
        k.0 < rows && k.1 < cols && fp_values(after, rows, cols, k).len() > 0 ==> exists|i: int| 0 <= i < new.len() && entry_key(new[i]) == k,
    ensures
        is_fp_normalization(new, after, rows, cols),
{
    assert forall|i: int| 0 <= i < new.len() implies fp_entry_matches(#[trigger] new[i], after, rows, cols) by {
        if entry_key(new[i]) != k {
            let j = choose|j: int| 0 <= j < old.len() && #[trigger] old[j] == new[i];
            assert(fp_entry_matches(old[j], before, rows, cols));
            assert(fp_values(after, rows, cols, entry_key(new[i])) == fp_values(before, rows, cols, entry_key(new[i])));
        }
    }
    assert forall|m: (usize, usize)|
        m.0 < rows && m.1 < cols && (#[trigger] fp_values(after, rows, cols, m)).len() > 0 implies exists|i: int|
        0 <= i < new.len() && entry_key(new[i]) == m by {
        if m != k {
            assert(fp_values(before, rows, cols, m).len() > 0);
            let j = choose|j: int| 0 <= j < old.len() && entry_key(old[j]) == m;
            let i = choose|i: int| 0 <= i < new.len() && new[i] == #[trigger] old[j];
            assert(entry_key(new[i]) == m);
        }
    }
}

/// Replacing the entry at `pos` by one with the same key keeps the keys sorted and every
/// other entry.
proof fn lemma_update_structure<V>(old_out: Seq<(usize, usize, V)>, pos: int, e: (usize, usize, V))
    requires
        keys_sorted(old_out),
        0 <= pos < old_out.len(),
        entry_key(e) == entry_key(old_out[pos]),
    ensures
        keys_sorted(old_out.update(pos, e)),
        forall|a: int| 0 <= a < old_out.len() && entry_key(old_out.update(pos, e)[a]) != entry_key(e) ==> exists|j: int|
            0 <= j < old_out.len() && #[trigger] old_out[j] == old_out.update(pos, e)[a],
        forall|j: int| 0 <= j < old_out.len() && entry_key(old_out[j]) != entry_key(e) ==> exists|a: int|
            0 <= a < old_out.len() && old_out.update(pos, e)[a] == #[trigger] old_out[j],
        forall|a: int| 0 <= a < old_out.len() && entry_key(#[trigger] old_out.update(pos, e)[a]) == entry_key(e) ==> a == pos,
{
    let out = old_out.update(pos, e);
    let k = entry_key(e);
    assert forall|a: int, b: int| 0 <= a < b < out.len() implies key_lt(entry_key(#[trigger] out[a]), entry_key(#[trigger] out[b])) by {
        assert(entry_key(out[a]) == entry_key(old_out[a]));
        assert(entry_key(out[b]) == entry_key(old_out[b]));
    }
    assert forall|a: int| 0 <= a < out.len() && entry_key(out[a]) != k implies exists|j: int|
        0 <= j < old_out.len() && #[trigger] old_out[j] == out[a] by {
        assert(old_out[a] == out[a]);
    }
    assert forall|j: int| 0 <= j < old_out.len() && entry_key(old_out[j]) != k implies exists|a: int|
        0 <= a < out.len() && out[a] == #[trigger] old_out[j] by {
        assert(out[j] == old_out[j]);
    }
    assert forall|a: int| 0 <= a < out.len() && entry_key(#[trigger] out[a]) == k implies a == pos by {
        if a < pos {
            assert(key_lt(entry_key(old_out[a]), entry_key(old_out[pos])));
        } else if a > pos {
            assert(key_lt(entry_key(old_out[pos]), entry_key(old_out[a])));
        }
    }
}

proof fn lemma_insert_sorted_keys<V>(old_out: Seq<(usize, usize, V)>, pos: int, e: (usize, usize, V))
    requires
        keys_sorted(old_out),
        0 <= pos <= old_out.len(),
        forall|j: int| 0 <= j < pos ==> key_lt(entry_key(#[trigger] old_out[j]), entry_key(e)),
        pos < old_out.len() ==> key_lt(entry_key(e), entry_key(old_out[pos])),
    ensures
        keys_sorted(old_out.insert(pos, e)),
{
    let out = old_out.insert(pos, e);
    assert forall|a: int, b: int| 0 <= a < b < out.len() implies key_lt(entry_key(#[trigger] out[a]), entry_key(#[trigger] out[b])) by {
        if b < pos {
            assert(out[a] == old_out[a] && out[b] == old_out[b]);
        } else if b == pos {
            assert(out[a] == old_out[a]);
        } else if a > pos {
            assert(out[a] == old_out[a - 1] && out[b] == old_out[b - 1]);
        } else {
            assert(out[b] == old_out[b - 1]);
            if b - 1 > pos {
                assert(key_lt(entry_key(old_out[pos]), entry_key(old_out[b - 1])));
            }
            if a < pos {
                assert(out[a] == old_out[a]);
                assert(key_lt(entry_key(old_out[a]), entry_key(e)));
            }
        }
    }
}

proof fn lemma_insert_new_from_old<V>(old_out: Seq<(usize, usize, V)>, pos: int, e: (usize, usize, V))
    requires
        0 <= pos <= old_out.len(),
    ensures
        forall|a: int| 0 <= a < old_out.insert(pos, e).len() && entry_key(old_out.insert(pos, e)[a]) != entry_key(e) ==> exists|j: int|
            0 <= j < old_out.len() && #[trigger] old_out[j] == old_out.insert(pos, e)[a],
{
    let out = old_out.insert(pos, e);
    assert forall|a: int| 0 <= a < out.len() && entry_key(out[a]) != entry_key(e) implies exists|j: int|
        0 <= j < old_out.len() && #[trigger] old_out[j] == out[a] by {
        if a < pos {
            assert(old_out[a] == out[a]);
        } else {
            assert(a != pos);
            assert(old_out[a - 1] == out[a]);
        }
    }
}

proof fn lemma_insert_old_in_new<V>(old_out: Seq<(usize, usize, V)>, pos: int, e: (usize, usize, V))
    requires
        0 <= pos <= old_out.len(),
    ensures
        forall|j: int| 0 <= j < old_out.len() && entry_key(old_out[j]) != entry_key(e) ==> exists|a: int|
            0 <= a < old_out.insert(pos, e).len() && old_out.insert(pos, e)[a] == #[trigger] old_out[j],
{
    let out = old_out.insert(pos, e);
    assert forall|j: int| 0 <= j < old_out.len() && entry_key(old_out[j]) != entry_key(e) implies exists|a: int|
        0 <= a < out.len() && out[a] == #[trigger] old_out[j] by {
        if j < pos {
            assert(out[j] == old_out[j]);
        } else {
            assert(out[j + 1] == old_out[j]);
        }
    }
}

proof fn lemma_insert_key_once<V>(old_out: Seq<(usize, usize, V)>, pos: int, e: (usize, usize, V))
    requires
        keys_sorted(old_out),
        0 <= pos <= old_out.len(),
        forall|j: int| 0 <= j < pos ==> key_lt(entry_key(#[trigger] old_out[j]), entry_key(e)),
        pos < old_out.len() ==> key_lt(entry_key(e), entry_key(old_out[pos])),
    ensures
        forall|a: int| 0 <= a < old_out.insert(pos, e).len() && entry_key(#[trigger] old_out.insert(pos, e)[a]) == entry_key(e) ==> a == pos,
{
    let out = old_out.insert(pos, e);
    let k = entry_key(e);
    assert forall|a: int| 0 <= a < out.len() && entry_key(#[trigger] out[a]) == k implies a == pos by {
        if a < pos {
            assert(out[a] == old_out[a]);
        } else if a > pos {
            assert(out[a] == old_out[a - 1]);
            if a - 1 > pos {
                assert(key_lt(entry_key(old_out[pos]), entry_key(old_out[a - 1])));
            }
        }
    }
}

/// Inserting an entry with a new key at its place keeps the keys sorted and every other entry.
proof fn lemma_insert_structure<V>(old_out: Seq<(usize, usize, V)>, pos: int, e: (usize, usize, V))
    requires
        keys_sorted(old_out),
        0 <= pos <= old_out.len(),
        forall|j: int| 0 <= j < pos ==> key_lt(entry_key(#[trigger] old_out[j]), entry_key(e)),
        pos < old_out.len() ==> key_lt(entry_key(e), entry_key(old_out[pos])),
    ensures
        keys_sorted(old_out.insert(pos, e)),
        old_out.insert(pos, e)[pos] == e,
        forall|a: int| 0 <= a < old_out.insert(pos, e).len() && entry_key(old_out.insert(pos, e)[a]) != entry_key(e) ==> exists|j: int|
            0 <= j < old_out.len() && #[trigger] old_out[j] == old_out.insert(pos, e)[a],
        forall|j: int| 0 <= j < old_out.len() && entry_key(old_out[j]) != entry_key(e) ==> exists|a: int|
            0 <= a < old_out.insert(pos, e).len() && old_out.insert(pos, e)[a] == #[trigger] old_out[j],
        forall|a: int| 0 <= a < old_out.insert(pos, e).len() && entry_key(#[trigger] old_out.insert(pos, e)[a]) == entry_key(e) ==> a == pos,
{
    lemma_insert_sorted_keys(old_out, pos, e);
    lemma_insert_new_from_old(old_out, pos, e);
    lemma_insert_old_in_new(old_out, pos, e);
    lemma_insert_key_once(old_out, pos, e);
}

/// The first position whose residue exceeds `x`.
fn value_position(values: &Vec<u64>, x: u64) -> (p: usize)
    ensures
        p <= values@.len(),
        forall|j: int| 0 <= j < p ==> values@[j] <= x,
        p < values@.len() ==> values@[p as int] > x,
{
    let mut p: usize = 0;
    while p < values.len()
        invariant
            p <= values@.len(),
            forall|j: int| 0 <= j < p ==> values@[j] <= x,
        decreases values@.len() - p,
    {
        if values[p] > x {
            return p;
        }
        p += 1;
    }
    p
}

proof fn lemma_insert_sorted(old_values: Seq<u64>, p: int, x: u64)
    requires
        sorted_values(old_values),
        0 <= p <= old_values.len(),
        forall|j: int| 0 <= j < p ==> old_values[j] <= x,
        p < old_values.len() ==> old_values[p] > x,
    ensures
        sorted_values(old_values.insert(p, x)),
{
    let values = old_values.insert(p, x);
    assert forall|i: int, j: int| 0 <= i <= j < values.len() implies values[i] <= values[j] by {
        if j < p {
        } else if i < p && j == p {
        } else if i < p {
            assert(values[j] == old_values[j - 1]);
            assert(old_values[i] <= x);
        } else if i == p {
            if j > p {
                assert(values[j] == old_values[j - 1]);
                assert(old_values[p] <= old_values[j - 1]);
            }
        } else {
            assert(values[i] == old_values[i - 1] && values[j] == old_values[j - 1]);
        }
    }
}

/// Inserts `x` into sorted residues, keeping them sorted.
fn insert_sorted(values: &mut Vec<u64>, x: u64)
    requires
        sorted_values(old(values)@),
    ensures
        sorted_values(final(values)@),
        final(values)@.to_multiset() == old(values)@.to_multiset().insert(x),
        final(values)@.len() == old(values)@.len() + 1,
{
    let p = value_position(values, x);
    let ghost old_values = values@;
    values.insert(p, x);
    proof {
        broadcast use vstd::seq_lib::group_to_multiset_ensures;
        lemma_insert_sorted(old_values, p as int, x);
    }
}

/// The residue `x` joins the existing entry at `pos`.
fn merge_fp_found(
    out: &mut Vec<(usize, usize, Vec<u64>)>,
    pos: usize,
    x: u64,
    rows: usize,
    cols: usize,
    Ghost(before): Ghost<Seq<(usize, usize, u64)>>,
    Ghost(after): Ghost<Seq<(usize, usize, u64)>>,
)
    requires
        is_fp_normalization(old(out)@, before, rows, cols),
        pos < old(out)@.len(),
        forall|m: (usize, usize)| m != entry_key(old(out)@[pos as int]) ==> #[trigger] fp_values(after, rows, cols, m) == fp_values(before, rows, cols, m),
        fp_values(after, rows, cols, entry_key(old(out)@[pos as int])) == fp_values(before, rows, cols, entry_key(old(out)@[pos as int])).insert(x),
    ensures
        is_fp_normalization(final(out)@, after, rows, cols),
{
    let ghost old_out = out@;
    let ghost k = entry_key(old_out[pos as int]);
    let (r, c, mut values) = out.remove(pos);
    proof {
        assert(old_out[pos as int] == (r, c, values));
        assert(fp_entry_matches(old_out[pos as int], before, rows, cols));
    }
    insert_sorted(&mut values, x);
    let ghost e = (r, c, values);
    out.insert(pos, (r, c, values));
    proof {
        assert(out@ == old_out.update(pos as int, e));
        assert(fp_entry_matches(e, after, rows, cols));
        assert(entry_key(out@[pos as int]) == k);
        lemma_update_structure(old_out, pos as int, e);
        lemma_fp_keeps(old_out, out@, before, after, rows, cols, k);
    }
}

proof fn lemma_single_multiset(x: u64)
    ensures
        Seq::<u64>::empty().push(x).to_multiset() == Multiset::<u64>::empty().insert(x),
{
    broadcast use vstd::seq_lib::group_to_multiset_ensures;
    broadcast use vstd::multiset::lemma_multiset_empty_len;
    assert(Seq::<u64>::empty().to_multiset().len() == 0);
}

/// The residue `x` starts a new entry at `pos`.
fn merge_fp_new(
    out: &mut Vec<(usize, usize, Vec<u64>)>,
    pos: usize,
    row: usize,
    col: usize,
    x: u64,
    rows: usize,
    cols: usize,
    Ghost(before): Ghost<Seq<(usize, usize, u64)>>,
    Ghost(after): Ghost<Seq<(usize, usize, u64)>>,
)
    requires
        is_fp_normalization(old(out)@, before, rows, cols),
        pos <= old(out)@.len(),
        row < rows,
        col < cols,
        forall|j: int| 0 <= j < pos ==> key_lt(entry_key(#[trigger] old(out)@[j]), (row, col)),
        pos < old(out)@.len() ==> key_lt((row, col), entry_key(old(out)@[pos as int])),
        forall|m: (usize, usize)| m != (row, col) ==> #[trigger] fp_values(after, rows, cols, m) == fp_values(before, rows, cols, m),
        fp_values(after, rows, cols, (row, col)) == fp_values(before, rows, cols, (row, col)).insert(x),
    ensures
        is_fp_normalization(final(out)@, after, rows, cols),
{
    let ghost k = (row, col);
    let ghost old_out = out@;
    let mut values: Vec<u64> = Vec::new();
    values.push(x);
    proof {
        let m0 = fp_values(before, rows, cols, k);
        if m0.len() > 0 {
            let j = choose|j: int| 0 <= j < old_out.len() && entry_key(old_out[j]) == k;
            if j < pos {
                assert(key_lt(entry_key(old_out[j]), k));
            } else {
                assert(key_lt(k, entry_key(old_out[pos as int])));
                if j > pos {
                    assert(key_lt(entry_key(old_out[pos as int]), entry_key(old_out[j])));
                }
            }
        }
        assert(m0 =~= Multiset::empty()) by {
            broadcast use vstd::multiset::lemma_multiset_empty_len;
        }
        assert(values@ == Seq::<u64>::empty().push(x));
        lemma_single_multiset(x);
    }
    let ghost e = (row, col, values);
    proof {
        assert(fp_entry_matches(e, after, rows, cols));
        lemma_insert_structure(old_out, pos as int, e);
    }
    out.insert(pos, (row, col, values));
    proof {
        lemma_fp_keeps(old_out, out@, before, after, rows, cols, k);
    }
}

/// Adds one nonzero in-range residue into the canonical entries built so far.
fn merge_fp_entry(
    out: &mut Vec<(usize, usize, Vec<u64>)>,
    row: usize,
    col: usize,
    x: u64,
    rows: usize,
    cols: usize,
    Ghost(before): Ghost<Seq<(usize, usize, u64)>>,
    Ghost(after): Ghost<Seq<(usize, usize, u64)>>,
)
    requires
        is_fp_normalization(old(out)@, before, rows, cols),
        after == before.push((row, col, x)),
        row < rows,
        col < cols,
        x != 0,
    ensures
        is_fp_normalization(final(out)@, after, rows, cols),
{
    let ghost k = (row, col);
    proof {
        assert(after.drop_last() == before);
        assert(fp_values(after, rows, cols, k) == fp_values(before, rows, cols, k).insert(x));
        assert forall|m: (usize, usize)| m != k implies #[trigger] fp_values(after, rows, cols, m) == fp_values(before, rows, cols, m) by {}
    }
    let pos = key_position(out, row, col);
    let found = pos < out.len() && out[pos].0 == row && out[pos].1 == col;
    if found {
        merge_fp_found(out, pos, x, rows, cols, Ghost(before), Ghost(after));
    } else {
        proof {
            if pos < out@.len() {
                assert(!key_lt(entry_key(out@[pos as int]), k));
                assert(entry_key(out@[pos as int]) != k);
            }
        }
        merge_fp_new(out, pos, row, col, x, rows, cols, Ghost(before), Ghost(after));
    }
}

/// The canonical entries of a residue sparse matrix: in-range nonzero residues grouped by
/// position in increasing (row, column) order, each group sorted. The matrix does not carry
/// its modulus, so residues at one position are kept as a multiset, not summed.
fn canonical_sparse_fp_entries(matrix: &SparseMatrixFp) -> (out: Vec<(usize, usize, Vec<u64>)>)
    ensures
        is_fp_normalization(out@, matrix.entries@, matrix.rows, matrix.cols),
{
    let rows = matrix.rows;
    let cols = matrix.cols;
    let ghost all = matrix.entries@;
    let mut out: Vec<(usize, usize, Vec<u64>)> = Vec::new();
    let n = matrix.entries.len();
    for i in 0..n
        invariant
            n == matrix.entries@.len(),
            all == matrix.entries@,
            rows == matrix.rows,
            cols == matrix.cols,
            is_fp_normalization(out@, all.take(i as int), rows, cols),
    {
        let ghost before = all.take(i as int);
        let ghost after = all.take(i + 1);
        let (row, col, x) = matrix.entries[i];
        proof {
            assert(after.drop_last() == before);
            assert(after == before.push(all[i as int]));
        }
        if row >= rows || col >= cols || x == 0 {
            proof {
                assert forall|m: (usize, usize)| #[trigger] fp_values(after, rows, cols, m) == fp_values(before, rows, cols, m) by {}
                assert forall|q: int| 0 <= q < out@.len() implies fp_values(after, rows, cols, entry_key(#[trigger] out@[q]))
                    == fp_values(before, rows, cols, entry_key(out@[q])) by {}
            }
        } else {
            merge_fp_entry(&mut out, row, col, x, rows, cols, Ghost(before), Ghost(after));
        }
    }
    assert(all.take(n as int) == all);
    out
}

// ----- the three matrix kinds -----

/// The in-range positions whose rational entries do not sum to zero.
pub open spec fn q_nonzero_positions(m: SparseMatrixQ) -> Set<(usize, usize)> {
    Set::new(|k: (usize, usize)| k.0 < m.rows && k.1 < m.cols && entry_sum(entries_view(m.entries@), m.rows, m.cols, k).0 != 0)
}

/// The in-range positions that hold a nonzero residue.
pub open spec fn fp_nonzero_positions(m: SparseMatrixFp) -> Set<(usize, usize)> {
    Set::new(|k: (usize, usize)| k.0 < m.rows && k.1 < m.cols && fp_values(m.entries@, m.rows, m.cols, k).len() > 0)
}

/// The number of nonzero values.
pub open spec fn count_nonzero(s: Seq<u64>) -> nat
    decreases s.len(),
{
    if s.len() == 0 {
        0
    } else {
        count_nonzero(s.drop_last()) + if s.last() != 0 { 1nat } else { 0nat }
    }
}

/// Eight big-endian bytes per value.
pub open spec fn u64s_bytes(s: Seq<u64>) -> Seq<u8>
    decreases s.len(),
{
    if s.len() == 0 {
        Seq::empty()
    } else {
        u64s_bytes(s.drop_last()) + be_bytes(s.last() as nat, 8)
    }
}

/// Row, column and value bytes of each rational entry.
pub open spec fn q_entries_bytes(es: Seq<(usize, usize, RationalQ)>) -> Seq<u8>
    decreases es.len(),
{
    if es.len() == 0 {
        Seq::empty()
    } else {
        let e = es.last();
        q_entries_bytes(es.drop_last()) + be_bytes(e.0 as nat, 8) + be_bytes(e.1 as nat, 8) + spec_rational_bytes(e.2)
    }
}

/// Row, column, residue count and residue bytes of each residue entry.
pub open spec fn fp_entries_bytes(es: Seq<(usize, usize, Vec<u64>)>) -> Seq<u8>
    decreases es.len(),
{
    if es.len() == 0 {
        Seq::empty()
    } else {
        let e = es.last();
        fp_entries_bytes(es.drop_last()) + be_bytes(e.0 as nat, 8) + be_bytes(e.1 as nat, 8) + be_bytes(e.2@.len(), 8)
            + u64s_bytes(e.2@)
    }
}

pub open spec fn shape_bytes(rows: usize, cols: usize) -> Seq<u8> {
    be_bytes(rows as nat, 8) + be_bytes(cols as nat, 8)
}

proof fn lemma_q_count(m: SparseMatrixQ, out: Seq<(usize, usize, RationalQ)>)
    requires
        dens_nonzero(entries_view(m.entries@)),
        is_entry_normalization(out, entries_view(m.entries@), m.rows, m.cols),
    ensures
        out.len() == q_nonzero_positions(m).len(),
{
    let v = entries_view(m.entries@);
    let keys = out.map_values(|e: (usize, usize, RationalQ)| entry_key(e));
    assert(keys.no_duplicates()) by {
        assert forall|i: int, j: int| 0 <= i < keys.len() && 0 <= j < keys.len() && i != j implies keys[i] != keys[j] by {
            if i < j {
                assert(key_lt(entry_key(out[i]), entry_key(out[j])));
            } else {
                assert(key_lt(entry_key(out[j]), entry_key(out[i])));
            }
        }
    }
    assert(keys.to_set() =~= q_nonzero_positions(m)) by {
        assert forall|k: (usize, usize)| keys.to_set().contains(k) implies q_nonzero_positions(m).contains(k) by {
            let i = choose|i: int| 0 <= i < keys.len() && keys[i] == k;
            let e = out[i];
            let s0 = entry_sum(v, m.rows, m.cols, k);
            lemma_entry_sum_den(v, m.rows, m.cols, k);
            lemma_ratio_zero(e.2.num@, e.2.den@, s0.0, s0.1);
        }
        assert forall|k: (usize, usize)| q_nonzero_positions(m).contains(k) implies keys.to_set().contains(k) by {
            assert(entry_sum(v, m.rows, m.cols, k).0 != 0);
            let i = choose|i: int| 0 <= i < out.len() && entry_key(out[i]) == k;
            assert(keys[i] == k);
        }
    }
    keys.unique_seq_to_set();
}

proof fn lemma_fp_count(m: SparseMatrixFp, out: Seq<(usize, usize, Vec<u64>)>)
    requires
        is_fp_normalization(out, m.entries@, m.rows, m.cols),
    ensures
        out.len() == fp_nonzero_positions(m).len(),
{
    broadcast use vstd::seq_lib::group_to_multiset_ensures;
    let keys = out.map_values(|e: (usize, usize, Vec<u64>)| entry_key(e));
    assert(keys.no_duplicates()) by {
        assert forall|i: int, j: int| 0 <= i < keys.len() && 0 <= j < keys.len() && i != j implies keys[i] != keys[j] by {
            if i < j {
                assert(key_lt(entry_key(out[i]), entry_key(out[j])));
            } else {
                assert(key_lt(entry_key(out[j]), entry_key(out[i])));
            }
        }
    }
    assert(keys.to_set() =~= fp_nonzero_positions(m)) by {
        assert forall|k: (usize, usize)| keys.to_set().contains(k) implies fp_nonzero_positions(m).contains(k) by {
            let i = choose|i: int| 0 <= i < keys.len() && keys[i] == k;
            assert(fp_entry_matches(out[i], m.entries@, m.rows, m.cols));
        }
        assert forall|k: (usize, usize)| fp_nonzero_positions(m).contains(k) implies keys.to_set().contains(k) by {
            assert(fp_values(m.entries@, m.rows, m.cols, k).len() > 0);
            let i = choose|i: int| 0 <= i < out.len() && entry_key(out[i]) == k;
            assert(keys[i] == k);
        }
    }
    keys.unique_seq_to_set();
}

impl MatrixShape for SparseMatrixQ {
    open spec fn matrix_wf(&self) -> bool {
        dens_nonzero(entries_view(self.entries@))
    }

    open spec fn shape_view(&self) -> (usize, usize) {
        (self.rows, self.cols)
    }

    open spec fn nonzero_view(&self) -> nat {
        q_nonzero_positions(*self).len()
    }

    open spec fn is_canonical_bytes(&self, bytes: Seq<u8>) -> bool {
        exists|out: Seq<(usize, usize, RationalQ)>|
            is_entry_normalization(out, entries_view(self.entries@), self.rows, self.cols)
                && bytes == shape_bytes(self.rows, self.cols) + q_entries_bytes(out)
    }

    fn shape(&self) -> (r: (usize, usize)) {
        (self.rows, self.cols)
    }

    fn nonzero_count(&self) -> (r: usize) {
        let out = canonical_sparse_q_entries(self);
        proof {
            lemma_q_count(*self, out@);
        }
        out.len()
    }

    fn canonical_bytes(&self) -> (r: Vec<u8>) {
        let out = canonical_sparse_q_entries(self);
        let mut bytes = usize_be(self.rows);
        let c = usize_be(self.cols);
        extend_bytes(&mut bytes, c.as_slice());
        let n = out.len();
        for i in 0..n
            invariant
                n == out@.len(),
                bytes@ == shape_bytes(self.rows, self.cols) + q_entries_bytes(out@.take(i as int)),
        {
            let r = usize_be(out[i].0);
            let cb = usize_be(out[i].1);
            let v = rational_to_bytes(&out[i].2);
            extend_bytes(&mut bytes, r.as_slice());
            extend_bytes(&mut bytes, cb.as_slice());
            extend_bytes(&mut bytes, v.as_slice());
            proof {
                assert(out@.take(i + 1).drop_last() == out@.take(i as int));
                assert(out@.take(i + 1).last() == out@[i as int]);
            }
        }
        assert(out@.take(n as int) == out@);
        bytes
    }
}

impl MatrixShape for SparseMatrixFp {
    open spec fn matrix_wf(&self) -> bool {
        true
    }

    open spec fn shape_view(&self) -> (usize, usize) {
        (self.rows, self.cols)
    }

    open spec fn nonzero_view(&self) -> nat {
        fp_nonzero_positions(*self).len()
    }

    open spec fn is_canonical_bytes(&self, bytes: Seq<u8>) -> bool {
        exists|out: Seq<(usize, usize, Vec<u64>)>|
            is_fp_normalization(out, self.entries@, self.rows, self.cols) && bytes == shape_bytes(self.rows, self.cols)
                + fp_entries_bytes(out)
    }

    fn shape(&self) -> (r: (usize, usize)) {
        (self.rows, self.cols)
    }

    fn nonzero_count(&self) -> (r: usize) {
        let out = canonical_sparse_fp_entries(self);
        proof {
            lemma_fp_count(*self, out@);
        }
        out.len()
    }

    fn canonical_bytes(&self) -> (r: Vec<u8>) {
        let out = canonical_sparse_fp_entries(self);
        let mut bytes = usize_be(self.rows);
        let c = usize_be(self.cols);
        extend_bytes(&mut bytes, c.as_slice());
        let n = out.len();
        for i in 0..n
            invariant
                n == out@.len(),
                bytes@ == shape_bytes(self.rows, self.cols) + fp_entries_bytes(out@.take(i as int)),
        {
            let r = usize_be(out[i].0);
            let cb = usize_be(out[i].1);
            let values = &out[i].2;
            let l = usize_be(values.len());
            extend_bytes(&mut bytes, r.as_slice());
            extend_bytes(&mut bytes, cb.as_slice());
            extend_bytes(&mut bytes, l.as_slice());
            let vb = u64s_to_bytes(values);
            extend_bytes(&mut bytes, vb.as_slice());
            proof {
                assert(out@.take(i + 1).drop_last() == out@.take(i as int));
                assert(out@.take(i + 1).last() == out@[i as int]);
            }
        }
        assert(out@.take(n as int) == out@);
        bytes
    }
}

/// Eight big-endian bytes per value.
fn u64s_to_bytes(values: &Vec<u64>) -> (out: Vec<u8>)
    ensures
        out@ == u64s_bytes(values@),
{
    let mut out: Vec<u8> = Vec::new();
    let n = values.len();
    for i in 0..n
        invariant
            n == values@.len(),
            out@ == u64s_bytes(values@.take(i as int)),
    {
        let b = u64_be(values[i]);
        extend_bytes(&mut out, b.as_slice());
        proof {
            assert(values@.take(i + 1).drop_last() == values@.take(i as int));
        }
    }
    assert(values@.take(n as int) == values@);
    out
}

impl MatrixShape for DenseMatrixFp {
    open spec fn matrix_wf(&self) -> bool {
        true
    }

    open spec fn shape_view(&self) -> (usize, usize) {
        (self.rows, self.cols)
    }

    open spec fn nonzero_view(&self) -> nat {
        count_nonzero(self.entries_row_major@)
    }

    open spec fn is_canonical_bytes(&self, bytes: Seq<u8>) -> bool {
        bytes == shape_bytes(self.rows, self.cols) + u64s_bytes(self.entries_row_major@)
    }

    fn shape(&self) -> (r: (usize, usize)) {
        (self.rows, self.cols)
    }

    fn nonzero_count(&self) -> (r: usize) {
        let mut count: usize = 0;
        let n = self.entries_row_major.len();
        for i in 0..n
            invariant
                n == self.entries_row_major@.len(),
                count == count_nonzero(self.entries_row_major@.take(i as int)),
                count <= i,
        {
            proof {
                assert(self.entries_row_major@.take(i + 1).drop_last() == self.entries_row_major@.take(i as int));
            }
            if self.entries_row_major[i] != 0 {
                count += 1;
            }
        }
        assert(self.entries_row_major@.take(n as int) == self.entries_row_major@);
        count
    }

    fn canonical_bytes(&self) -> (r: Vec<u8>) {
        let mut bytes = usize_be(self.rows);
        let c = usize_be(self.cols);
        extend_bytes(&mut bytes, c.as_slice());
        let v = u64s_to_bytes(&self.entries_row_major);
        extend_bytes(&mut bytes, v.as_slice());
        bytes
    }
}

// ----- shape, density and digest -----

/// (rows, columns) of a matrix.
pub fn matrix_shape<M: MatrixShape>(m: &M) -> (r: (usize, usize))
    ensures
        r == m.shape_view(),
{
    m.shape()
}

/// The share of nonzero positions among all positions, in lowest terms; zero for a matrix
/// with no rows or no columns.
pub fn matrix_density<M: MatrixShape>(m: &M) -> (r: RationalQ)
    requires
        m.matrix_wf(),
    ensures
        m.shape_view().0 == 0 || m.shape_view().1 == 0 ==> r.num@ == 0 && r.den@ == 1,
        m.shape_view().0 != 0 && m.shape_view().1 != 0 ==> is_canonical(r) && same_ratio(
            r.num@,
            r.den@,
            m.nonzero_view() as int,
            m.shape_view().0 * m.shape_view().1,
        ),
{
    let (rows, cols) = m.shape();
    if rows == 0 || cols == 0 {
        return int_q(0);
    }
    let count = m.nonzero_count();
    let r = from_usize(rows);
    let c = from_usize(cols);
    let size = big_mul(&r, &c);
    assert(size@ != 0) by (nonlinear_arith)
        requires
            size@ == r@ * c@,
            r@ > 0,
            c@ > 0,
    ;
    new_q(from_usize(count), size)
}

/// The digest of a matrix's canonical bytes under the tag "matrix".
pub fn hash_matrix<M: MatrixShape>(m: &M) -> (h: hash::Hash)
    requires
        m.matrix_wf(),
    ensures
        exists|bytes: Seq<u8>| m.is_canonical_bytes(bytes) && h.0@ == spec_hash_sequence("matrix".spec_bytes(), seq![bytes]),
{
    let bytes = m.canonical_bytes();
    let mut chunks: Vec<Vec<u8>> = Vec::new();
    let ghost b = bytes@;
    push_chunk(&mut chunks, bytes);
    proof {
        assert(chunk_views(chunks@) =~= seq![b]);
    }
    hash_sequence("matrix", chunks.as_slice())
}

} // verus!
