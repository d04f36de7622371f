//! Compressed sets of numbers, by the `roaring` crate.

use roaring::RoaringTreemap;
use vstd::prelude::*;

verus! {

/// A compressed set of the `roaring` crate.
#[verifier::external_type_specification]
#[verifier::external_body]
pub struct ExRoaringTreemap(roaring::RoaringTreemap);

/// The numbers that a compressed set holds.
pub uninterp spec fn members(set: roaring::RoaringTreemap) -> Set<u64>;

/// The numbers in the compressed set that `bytes` start with; none where they
/// do not start with one.
pub uninterp spec fn treemap_read(bytes: Seq<u8>) -> Option<Set<u64>>;

/// The bytes that a compressed set is written as. They go by how the set holds
/// its numbers too, so that two sets of the same numbers may differ in them.
pub uninterp spec fn treemap_bytes(set: roaring::RoaringTreemap) -> Seq<u8>;

/// Calls `RoaringTreemap::new`: a set with nothing in it.
#[verifier::external_body]
pub(crate) fn new_treemap() -> (r: roaring::RoaringTreemap)
    ensures
        members(r) == Set::<u64>::empty(),
{
    RoaringTreemap::new()
}

/// Calls `RoaringTreemap::insert`, which says whether the value was not there.
#[verifier::external_body]
pub(crate) fn treemap_insert(set: &mut roaring::RoaringTreemap, value: u64) -> (new: bool)
    ensures
        members(*final(set)) == members(*old(set)).insert(value),
        new == !members(*old(set)).contains(value),
{
    set.insert(value)
}

/// Calls `RoaringTreemap::is_empty`.
#[verifier::external_body]
pub(crate) fn treemap_is_empty(set: &roaring::RoaringTreemap) -> (empty: bool)
    ensures
        empty == (members(*set) == Set::<u64>::empty()),
{
    set.is_empty()
}

/// Calls the `|=` of `RoaringTreemap`: the union of both sets.
#[verifier::external_body]
pub(crate) fn treemap_union(set: &mut roaring::RoaringTreemap, other: &roaring::RoaringTreemap)
    ensures
        members(*final(set)) == members(*old(set)).union(members(*other)),
{
    *set |= other;
}

/// Calls `RoaringTreemap::iter`, which walks the set in ascending order.
#[verifier::external_body]
pub(crate) fn treemap_values(set: &roaring::RoaringTreemap) -> (values: Vec<u64>)
    ensures
        forall|i: int, j: int| 0 <= i < j < values@.len() ==> values@[i] < values@[j],
        values@.to_set() == members(*set),
{
    set.iter().collect()
}

/// Calls `RoaringTreemap::clone`.
#[verifier::external_body]
pub(crate) fn treemap_clone(set: &roaring::RoaringTreemap) -> (r: roaring::RoaringTreemap)
    ensures
        members(r) == members(*set),
{
    set.clone()
}

/// Calls `RoaringTreemap::serialize_into` over a vector, which cannot fail to
/// take the bytes. They are those of the set as it stands, at least one, and
/// reading them gives the set back.
#[verifier::external_body]
pub(crate) fn treemap_to_bytes(set: &roaring::RoaringTreemap) -> (r: Vec<u8>)
    ensures
        r@ == treemap_bytes(*set),
        treemap_read(r@) == Some(members(*set)),
        r@.len() > 0,
{
    let mut out = Vec::new();
    let _ = set.serialize_into(&mut out);
    out
}

/// Calls `RoaringTreemap::deserialize_from`, which checks what it reads.
#[verifier::external_body]
pub(crate) fn treemap_from_bytes(bytes: &[u8]) -> (r: Option<roaring::RoaringTreemap>)
    ensures
        match r {
            Some(set) => treemap_read(bytes@) == Some(members(set)),
            None => treemap_read(bytes@) is None,
        },
{
    RoaringTreemap::deserialize_from(bytes).ok()
}

} // verus!
