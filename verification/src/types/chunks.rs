//! Building the chunk lists that the tagged hashes cover.
use vstd::prelude::*;

use crate::types::bytes::{be_bytes, u32_be};
use crate::types::hash::{self, chunk_views, hash_to_vec};
use crate::types::ids::{BlockId, RelationId, VariableId};

verus! {

pub open spec fn hash_chunks(hs: Seq<hash::Hash>) -> Seq<Seq<u8>> {
    hs.map_values(|h: hash::Hash| h.0@)
}

pub open spec fn variable_chunks(vs: Seq<VariableId>) -> Seq<Seq<u8>> {
    vs.map_values(|v: VariableId| be_bytes(v.0 as nat, 4))
}

pub open spec fn relation_chunks(rs: Seq<RelationId>) -> Seq<Seq<u8>> {
    rs.map_values(|r: RelationId| be_bytes(r.0 as nat, 4))
}

pub open spec fn block_chunks(bs: Seq<BlockId>) -> Seq<Seq<u8>> {
    bs.map_values(|b: BlockId| be_bytes(b.0 as nat, 4))
}

/// Appends one chunk.
pub fn push_chunk(chunks: &mut Vec<Vec<u8>>, c: Vec<u8>)
    ensures
        chunk_views(final(chunks)@) == chunk_views(old(chunks)@).push(c@),
{
    let ghost before = chunks@;
    chunks.push(c);
    assert(chunk_views(chunks@) =~= chunk_views(before).push(c@));
}

/// Appends one chunk per digest.
pub fn push_hash_chunks(chunks: &mut Vec<Vec<u8>>, hs: &[hash::Hash])
    ensures
        chunk_views(final(chunks)@) == chunk_views(old(chunks)@) + hash_chunks(hs@),
{
    let ghost start = chunk_views(chunks@);
    let n = hs.len();
    for i in 0..n
        invariant
            n == hs@.len(),
            chunk_views(chunks@) == start + hash_chunks(hs@.take(i as int)),
    {
        push_chunk(chunks, hash_to_vec(&hs[i]));
        assert(hash_chunks(hs@.take(i + 1)) =~= hash_chunks(hs@.take(i as int)).push(hs@[i as int].0@));
        assert(start + hash_chunks(hs@.take(i + 1)) =~= (start + hash_chunks(hs@.take(i as int))).push(hs@[i as int].0@));
    }
    assert(hs@.take(n as int) == hs@);
}

/// Appends one four-byte chunk per variable.
pub fn push_variable_chunks(chunks: &mut Vec<Vec<u8>>, vs: &[VariableId])
    ensures
        chunk_views(final(chunks)@) == chunk_views(old(chunks)@) + variable_chunks(vs@),
{
    let ghost start = chunk_views(chunks@);
    let n = vs.len();
    for i in 0..n
        invariant
            n == vs@.len(),
            chunk_views(chunks@) == start + variable_chunks(vs@.take(i as int)),
    {
        push_chunk(chunks, u32_be(vs[i].0));
        assert(variable_chunks(vs@.take(i + 1)) =~= variable_chunks(vs@.take(i as int)).push(be_bytes(vs@[i as int].0 as nat, 4)));
        assert(start + variable_chunks(vs@.take(i + 1)) =~= (start + variable_chunks(vs@.take(i as int))).push(be_bytes(vs@[i as int].0 as nat, 4)));
    }
    assert(vs@.take(n as int) == vs@);
}

/// Appends one four-byte chunk per relation.
pub fn push_relation_chunks(chunks: &mut Vec<Vec<u8>>, rs: &[RelationId])
    ensures
        chunk_views(final(chunks)@) == chunk_views(old(chunks)@) + relation_chunks(rs@),
{
    let ghost start = chunk_views(chunks@);
    let n = rs.len();
    for i in 0..n
        invariant
            n == rs@.len(),
            chunk_views(chunks@) == start + relation_chunks(rs@.take(i as int)),
    {
        push_chunk(chunks, u32_be(rs[i].0));
        assert(relation_chunks(rs@.take(i + 1)) =~= relation_chunks(rs@.take(i as int)).push(be_bytes(rs@[i as int].0 as nat, 4)));
        assert(start + relation_chunks(rs@.take(i + 1)) =~= (start + relation_chunks(rs@.take(i as int))).push(be_bytes(rs@[i as int].0 as nat, 4)));
    }
    assert(rs@.take(n as int) == rs@);
}

/// Appends one four-byte chunk per block.
pub fn push_block_chunks(chunks: &mut Vec<Vec<u8>>, bs: &[BlockId])
    ensures
        chunk_views(final(chunks)@) == chunk_views(old(chunks)@) + block_chunks(bs@),
{
    let ghost start = chunk_views(chunks@);
    let n = bs.len();
    for i in 0..n
        invariant
            n == bs@.len(),
            chunk_views(chunks@) == start + block_chunks(bs@.take(i as int)),
    {
        push_chunk(chunks, u32_be(bs[i].0));
        assert(block_chunks(bs@.take(i + 1)) =~= block_chunks(bs@.take(i as int)).push(be_bytes(bs@[i as int].0 as nat, 4)));
        assert(start + block_chunks(bs@.take(i + 1)) =~= (start + block_chunks(bs@.take(i as int))).push(be_bytes(bs@[i as int].0 as nat, 4)));
    }
    assert(bs@.take(n as int) == bs@);
}

} // verus!
