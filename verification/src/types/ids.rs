//! Identifiers of variables, relations, blocks, packages and plans.
use vstd::prelude::*;
use vstd::string::StringSliceAdditionalSpecFns;

use crate::types::hash::{hash_tagged, spec_hash_tagged};

verus! {

#[derive(Clone, Copy, Debug, PartialEq, Eq, Structural, PartialOrd, Ord, Hash)]
pub struct VariableId(pub u32);

#[derive(Clone, Copy, Debug, PartialEq, Eq, Structural, PartialOrd, Ord, Hash)]
pub struct RelationId(pub u32);

#[derive(Clone, Copy, Debug, PartialEq, Eq, Structural, PartialOrd, Ord, Hash)]
pub struct BlockId(pub u32);

#[derive(Clone, Copy, Debug, PartialEq, Eq, Structural, PartialOrd, Ord, Hash)]
pub struct PackageId(pub u32);

#[derive(Clone, Copy, Debug, PartialEq, Eq, Structural, PartialOrd, Ord, Hash)]
pub struct KernelPlanId(pub u32);

#[derive(Clone, Copy, Debug, PartialEq, Eq, PartialOrd, Ord, Hash)]
pub struct StableId(pub [u8; 32]);

/// A source of fresh identifiers: each call hands out the next number.
#[derive(Clone, Copy, Debug, PartialEq, Eq, Structural)]
pub struct IdCounter {
    next: u32,
}

impl IdCounter {
    /// The number the next fresh identifier will carry.
    pub closed spec fn next_value(self) -> u32 {
        self.next
    }

    pub fn new(start: u32) -> (c: Self)
        ensures
            c.next_value() == start,
    {
        Self { next: start }
    }
}

/// A fresh variable identifier; the counter moves on by one.
/// The counter must not be exhausted (the original panics on overflow).
pub fn fresh_variable_id(counter: &mut IdCounter) -> (id: VariableId)
    requires
        old(counter).next_value() < u32::MAX,
    ensures
        id == VariableId(old(counter).next_value()),
        final(counter).next_value() == old(counter).next_value() + 1,
{
    let id = VariableId(counter.next);
    counter.next = counter.next + 1;
    id
}

/// A fresh relation identifier; the counter moves on by one.
pub fn fresh_relation_id(counter: &mut IdCounter) -> (id: RelationId)
    requires
        old(counter).next_value() < u32::MAX,
    ensures
        id == RelationId(old(counter).next_value()),
        final(counter).next_value() == old(counter).next_value() + 1,
{
    let id = RelationId(counter.next);
    counter.next = counter.next + 1;
    id
}

/// The payload a stable identifier hashes: namespace, a zero byte, then the name.
pub open spec fn stable_id_payload(name: Seq<u8>, namespace: Seq<u8>) -> Seq<u8> {
    namespace.push(0u8) + name
}

/// A name-derived identifier bound to its namespace.
pub fn stable_id_from_name(name: &str, namespace: &str) -> (id: StableId)
    ensures
        id.0@ == spec_hash_tagged(
            "stable-id".spec_bytes(),
            stable_id_payload(name.spec_bytes(), namespace.spec_bytes()),
        ),
{
    let mut bytes: Vec<u8> = Vec::new();
    crate::types::bytes::extend_bytes(&mut bytes, namespace.as_bytes());
    bytes.push(0);
    crate::types::bytes::extend_bytes(&mut bytes, name.as_bytes());
    StableId(hash_tagged("stable-id", bytes.as_slice()).0)
}

/// Fresh identifiers taken one after another from a counter strictly increase: the second
/// is drawn from the counter the first call left behind.
pub proof fn lemma_fresh_ids_increase(c0: IdCounter, c1: IdCounter, c2: IdCounter, first: VariableId, second: VariableId)
    requires
        first == VariableId(c0.next_value()),
        c1.next_value() == c0.next_value() + 1,
        second == VariableId(c1.next_value()),
        c2.next_value() == c1.next_value() + 1,
    ensures
        first.0 < second.0,
        c2.next_value() > second.0,
{
}

} // verus!
