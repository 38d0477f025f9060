//! The two concurrent maps of the block graph, kept by the dashmap crate:
//! blocks by hash, and hashes by height.
use crate::block::{Block, H256};
use vstd::prelude::*;

verus! {

#[verifier::external_type_specification]
#[verifier::external_body]
#[verifier::reject_recursive_types(K)]
#[verifier::reject_recursive_types(V)]
#[verifier::reject_recursive_types(S)]
pub struct ExDashMap<K, V, S>(dashmap::DashMap<K, V, S>);

/// The blocks that a map holds, each under its hash. The map itself is
/// keyed by the two halves of the hash.
pub uninterp spec fn blocks_held(m: dashmap::DashMap<(u128, u128), Block>) -> Map<H256, Block>;

/// The hashes that a map holds, each under its height.
pub uninterp spec fn numbers_held(m: dashmap::DashMap<u64, H256>) -> Map<u64, H256>;

/// Calls `DashMap::new` of dashmap: a map that holds nothing.
#[verifier::external_body]
pub(crate) fn blocks_new() -> (r: dashmap::DashMap<(u128, u128), Block>)
    ensures
        blocks_held(r) =~= Map::empty(),
{
    dashmap::DashMap::new()
}

/// Calls `DashMap::insert` of dashmap: the block stands under the hash
/// afterwards, and what stood there before is returned.
#[verifier::external_body]
pub(crate) fn blocks_insert(
    m: &mut dashmap::DashMap<(u128, u128), Block>,
    hash: H256,
    block: Block,
) -> (r: Option<Block>)
    ensures
        blocks_held(*final(m)) == blocks_held(*old(m)).insert(hash, block),
        r == if blocks_held(*old(m)).dom().contains(hash) {
            Some(blocks_held(*old(m))[hash])
        } else {
            None
        },
{
    m.insert((hash.hi, hash.lo), block)
}

/// Calls `DashMap::get` of dashmap and copies the block out: the block
/// under the hash, if there is one.
#[verifier::external_body]
pub(crate) fn blocks_get(m: &dashmap::DashMap<(u128, u128), Block>, hash: &H256) -> (r: Option<
    Block,
>)
    ensures
        r == if blocks_held(*m).dom().contains(*hash) {
            Some(blocks_held(*m)[*hash])
        } else {
            None
        },
{
    m.get(&(hash.hi, hash.lo)).map(|found| *found)
}

/// Calls `DashMap::new` of dashmap: a map that holds nothing.
#[verifier::external_body]
pub(crate) fn numbers_new() -> (r: dashmap::DashMap<u64, H256>)
    ensures
        numbers_held(r) =~= Map::empty(),
{
    dashmap::DashMap::new()
}

/// Calls `DashMap::insert` of dashmap: the hash stands under the height
/// afterwards, and what stood there before is returned.
#[verifier::external_body]
pub(crate) fn numbers_insert(m: &mut dashmap::DashMap<u64, H256>, num: u64, hash: H256) -> (r:
    Option<H256>)
    ensures
        numbers_held(*final(m)) == numbers_held(*old(m)).insert(num, hash),
        r == if numbers_held(*old(m)).dom().contains(num) {
            Some(numbers_held(*old(m))[num])
        } else {
            None
        },
{
    m.insert(num, hash)
}

/// Calls `DashMap::get` of dashmap and copies the hash out: the hash under
/// the height, if there is one.
#[verifier::external_body]
pub(crate) fn numbers_get(m: &dashmap::DashMap<u64, H256>, num: u64) -> (r: Option<H256>)
    ensures
        r == if numbers_held(*m).dom().contains(num) {
            Some(numbers_held(*m)[num])
        } else {
            None
        },
{
    m.get(&num).map(|found| *found)
}

} // verus!
