//! The last head seen from each upstream, kept by the hashbrown crate.
use crate::block::H256;
use vstd::prelude::*;

verus! {

/// hashbrown's map from the position of an upstream in the pool to the head
/// last seen from it. Verus sees nothing inside it, and nothing but this
/// file reaches it.
#[verifier::external_body]
pub struct ConnectionHeads {
    inner: hashbrown::HashMap<usize, H256, std::collections::hash_map::RandomState>,
}

/// The heads that a map holds, each under the position of its upstream.
pub uninterp spec fn heads_held(m: ConnectionHeads) -> Map<usize, H256>;

/// Calls `HashMap::default` of hashbrown: a map that holds nothing.
#[verifier::external_body]
pub(crate) fn heads_new() -> (r: ConnectionHeads)
    ensures
        heads_held(r) =~= Map::empty(),
{
    ConnectionHeads { inner: hashbrown::HashMap::default() }
}

/// Calls `HashMap::insert` of hashbrown: the head stands under the position
/// afterwards, and what stood there before is returned.
#[verifier::external_body]
pub(crate) fn heads_insert(m: &mut ConnectionHeads, rpc: usize, head: H256) -> (r: Option<H256>)
    ensures
        heads_held(*final(m)) == heads_held(*old(m)).insert(rpc, head),
        r == if heads_held(*old(m)).dom().contains(rpc) {
            Some(heads_held(*old(m))[rpc])
        } else {
            None
        },
{
    m.inner.insert(rpc, head)
}

/// Calls `HashMap::remove` of hashbrown: nothing stands under the position
/// afterwards, and what stood there before is returned.
#[verifier::external_body]
pub(crate) fn heads_remove(m: &mut ConnectionHeads, rpc: usize) -> (r: Option<H256>)
    ensures
        heads_held(*final(m)) == heads_held(*old(m)).remove(rpc),
        r == if heads_held(*old(m)).dom().contains(rpc) {
            Some(heads_held(*old(m))[rpc])
        } else {
            None
        },
{
    m.inner.remove(&rpc)
}

/// Calls `HashMap::get` of hashbrown and copies the head out: the head under
/// the position, if there is one.
#[verifier::external_body]
pub(crate) fn heads_get(m: &ConnectionHeads, rpc: usize) -> (r: Option<H256>)
    ensures
        r == if heads_held(*m).dom().contains(rpc) {
            Some(heads_held(*m)[rpc])
        } else {
            None
        },
{
    m.inner.get(&rpc).map(|head| *head)
}

/// The heads of a pool of `n` upstreams in pool order, read from what the
/// map holds.
pub open spec fn heads_of(held: Map<usize, H256>, n: nat) -> Seq<Option<H256>> {
    Seq::new(
        n,
        |i: int|
            if 0 <= i <= usize::MAX && held.dom().contains(i as usize) {
                Some(held[i as usize])
            } else {
                None
            },
    )
}

} // verus!
