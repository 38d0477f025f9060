use web3_proxy::block::{Block, BlockId, H256, U256};
use web3_proxy::blockchain::{heavier, BlockLookup, Web3Connections};
use web3_proxy::connection::{PoolClock, Web3Connection};
use web3_proxy::errors::Web3ProxyError;

fn hash(n: u128) -> H256 {
    H256 { hi: 0, lo: n }
}

fn block(h: u128, num: u64, parent: u128, td: u128) -> Block {
    Block {
        hash: Some(hash(h)),
        number: Some(num),
        parent_hash: hash(parent),
        total_difficulty: Some(U256 { hi: 0, lo: td }),
    }
}

fn tracker(n: usize, min_sum_soft_limit: u32, min_synced_rpcs: usize) -> Web3Connections {
    let clock = PoolClock::new();
    let mut conns = Vec::new();
    for i in 0..n {
        conns.push(Web3Connection::new(format!("U{}", i + 1), 10, 0, &clock));
    }
    Web3Connections::new(conns, min_sum_soft_limit, min_synced_rpcs)
}

fn cached(lookup: BlockLookup) -> Option<Block> {
    match lookup {
        BlockLookup::Cached(b) => Some(b),
        BlockLookup::Fetch => None,
    }
}

#[test]
fn u256_compares_high_half_first() {
    let a = U256 { hi: 1, lo: 0 };
    let b = U256 { hi: 0, lo: u128::MAX };
    assert!(a.gt(&b));
    assert!(!b.gt(&a));
    assert!(!a.gt(&a));
    assert!(U256 { hi: 3, lo: 5 }.gt(&U256 { hi: 3, lo: 4 }));
}

#[test]
fn heavier_counts_absent_difficulty_as_zero() {
    let with = block(1, 1, 0, 7);
    let mut without = block(2, 1, 0, 0);
    without.total_difficulty = None;
    assert!(heavier(&with, &without));
    assert!(!heavier(&without, &with));
    assert!(!heavier(&without, &without));
}

#[test]
fn save_block_refuses_incomplete_blocks() {
    let mut t = tracker(1, 0, 0);
    let mut b = block(1, 5, 0, 10);
    b.total_difficulty = None;
    assert_eq!(t.save_block(&b, true), Err(Web3ProxyError::IncompleteBlock));
    let mut b = block(1, 5, 0, 10);
    b.hash = None;
    assert_eq!(t.save_block(&b, true), Err(Web3ProxyError::IncompleteBlock));
    let mut b = block(1, 5, 0, 10);
    b.number = None;
    assert_eq!(t.save_block(&b, true), Err(Web3ProxyError::IncompleteBlock));
    assert!(cached(t.block(&hash(1))).is_none());
    assert_eq!(t.cannonical_block(5).unwrap_err(), Web3ProxyError::NoServers);
}

#[test]
fn save_block_is_idempotent() {
    let mut t = tracker(1, 0, 0);
    let first = block(1, 5, 0, 10);
    assert_eq!(t.save_block(&first, false), Ok(()));
    let again = block(1, 5, 9, 99);
    assert_eq!(t.save_block(&again, false), Ok(()));
    let stored = cached(t.block(&hash(1))).unwrap();
    assert_eq!(stored.parent_hash, hash(0));
    assert_eq!(stored.total_difficulty, Some(U256 { hi: 0, lo: 10 }));
    assert_eq!(t.block_hash(5).unwrap_err(), Web3ProxyError::NoServers);
}

#[test]
fn heaviest_chain_block_becomes_canonical_and_may_be_overwritten() {
    let mut t = tracker(1, 0, 0);
    assert_eq!(t.save_block(&block(1, 5, 0, 10), true), Ok(()));
    assert_eq!(t.block_hash(5), Ok(Some(hash(1))));
    assert_eq!(t.save_block(&block(2, 5, 0, 11), true), Ok(()));
    assert_eq!(t.block_hash(5), Ok(Some(hash(2))));
    assert_eq!(cached(t.cannonical_block(5).unwrap()).unwrap().hash, Some(hash(2)));
    assert!(cached(t.block(&hash(1))).is_some());
}

#[test]
fn canonical_block_above_head_is_a_future_block() {
    let mut t = tracker(1, 0, 1);
    assert_eq!(t.cannonical_block(3).unwrap_err(), Web3ProxyError::NoServers);
    let published = t.process_block_from_rpc(&block(1, 10, 0, 100), 0).unwrap();
    assert_eq!(published.unwrap().hash, Some(hash(1)));
    assert_eq!(t.head_block_num(), Some(10));
    assert_eq!(t.cannonical_block(11).unwrap_err(), Web3ProxyError::FutureBlock);
    assert!(matches!(t.cannonical_block(10), Ok(BlockLookup::Fetch)));
    assert!(matches!(t.cannonical_block(9), Ok(BlockLookup::Fetch)));
    assert_eq!(t.block_hash(10), Ok(None));
}

#[test]
fn tracker_ignores_blocks_numbered_zero() {
    let mut t = tracker(2, 0, 1);
    t.process_block_from_rpc(&block(1, 10, 0, 100), 0).unwrap();
    assert_eq!(t.connection_head(0), Some(hash(1)));
    let r = t.process_block_from_rpc(&block(7, 0, 0, 1), 0).unwrap();
    assert!(r.is_none());
    assert_eq!(t.connection_head(0), None);
    assert!(cached(t.block(&hash(7))).is_none());
    let mut no_hash = block(8, 4, 0, 1);
    no_hash.hash = None;
    t.process_block_from_rpc(&block(1, 10, 0, 100), 1).unwrap();
    assert_eq!(t.connection_head(1), Some(hash(1)));
    t.process_block_from_rpc(&no_hash, 1).unwrap();
    assert_eq!(t.connection_head(1), None);
}

#[test]
fn tracker_refuses_a_head_without_total_difficulty() {
    let mut t = tracker(1, 0, 1);
    t.process_block_from_rpc(&block(1, 10, 0, 100), 0).unwrap();
    let mut b = block(2, 11, 1, 0);
    b.total_difficulty = None;
    assert_eq!(t.process_block_from_rpc(&b, 0).unwrap_err(), Web3ProxyError::IncompleteBlock);
    assert_eq!(t.connection_head(0), Some(hash(1)));
    assert_eq!(t.synced_connections().head_block_id, Some(BlockId { hash: hash(1), num: 10 }));
}

#[test]
fn heaviest_chain_selection_walks_to_the_parent() {
    // three upstreams of soft limit 10; a quorum needs 20 and two upstreams
    let mut t = tracker(3, 20, 2);
    let parent = block(9, 9, 8, 90);
    let h_a = block(100, 10, 9, 100);
    let h_b = block(101, 10, 9, 101);
    assert!(t.process_block_from_rpc(&parent, 0).unwrap().is_none());
    assert!(t.synced_connections().head_block_id.is_none());
    let first = t.process_block_from_rpc(&parent, 1).unwrap();
    assert_eq!(first.unwrap().hash, Some(hash(9)));
    assert_eq!(t.synced_connections().conns, vec![0, 1]);
    // the heaviest head has one upstream only: the parent is the head
    assert!(t.process_block_from_rpc(&h_b, 2).unwrap().is_none());
    assert_eq!(t.synced_connections().head_block_id, Some(BlockId { hash: hash(9), num: 9 }));
    assert_eq!(t.synced_connections().conns, vec![2, 0, 1]);
    // one upstream moves on: still the parent, with all three
    assert!(t.process_block_from_rpc(&h_a, 0).unwrap().is_none());
    assert_eq!(t.synced_connections().head_block_id, Some(BlockId { hash: hash(9), num: 9 }));
    assert_eq!(t.synced_connections().conns, vec![2, 1]);
}

#[test]
fn lighter_fork_with_quorum_is_not_reached_from_the_heaviest_head() {
    let mut t = tracker(3, 20, 2);
    let h_a = block(100, 10, 9, 100);
    let h_b = block(101, 10, 9, 101);
    assert!(t.process_block_from_rpc(&h_a, 0).unwrap().is_none());
    let head = t.process_block_from_rpc(&h_a, 1).unwrap();
    assert_eq!(head.unwrap().hash, Some(hash(100)));
    assert_eq!(t.synced_connections().conns, vec![0, 1]);
    // the heaviest head has too few upstreams and its parent is not stored
    assert!(t.process_block_from_rpc(&h_b, 2).unwrap().is_none());
    assert!(t.synced_connections().head_block_id.is_none());
    assert!(t.synced_connections().conns.is_empty());
}

#[test]
fn reorg_at_equal_height_is_published_once() {
    let mut t = tracker(1, 10, 1);
    let h1 = block(1, 10, 0, 100);
    let h2 = block(2, 10, 0, 200);
    assert_eq!(t.process_block_from_rpc(&h1, 0).unwrap().unwrap().hash, Some(hash(1)));
    assert!(t.process_block_from_rpc(&h1, 0).unwrap().is_none());
    assert_eq!(t.process_block_from_rpc(&h2, 0).unwrap().unwrap().hash, Some(hash(2)));
    assert!(t.process_block_from_rpc(&h2, 0).unwrap().is_none());
    assert_eq!(t.synced_connections().head_block_id, Some(BlockId { hash: hash(2), num: 10 }));
}

#[test]
fn rollback_and_advance_are_published() {
    let mut t = tracker(1, 10, 1);
    assert!(t.process_block_from_rpc(&block(5, 10, 4, 100), 0).unwrap().is_some());
    let back = t.process_block_from_rpc(&block(4, 9, 3, 90), 0).unwrap();
    assert_eq!(back.unwrap().number, Some(9));
    let on = t.process_block_from_rpc(&block(6, 11, 5, 110), 0).unwrap();
    assert_eq!(on.unwrap().number, Some(11));
}

#[test]
fn heaviest_head_is_the_first_of_equal_difficulty() {
    let mut t = tracker(2, 10, 1);
    t.process_block_from_rpc(&block(1, 10, 0, 100), 1).unwrap();
    t.process_block_from_rpc(&block(2, 10, 0, 100), 0).unwrap();
    assert_eq!(t.synced_connections().head_block_id, Some(BlockId { hash: hash(2), num: 10 }));
    assert_eq!(t.synced_connections().conns, vec![0]);
    assert_eq!(t.num_conns(), 2);
}

#[test]
fn block_id_is_made_from_hash_and_number() {
    let id: BlockId = (hash(4), 12).into();
    assert_eq!(id, BlockId { hash: hash(4), num: 12 });
    assert!(block(1, 2, 0, 3).is_complete());
    let mut b = block(1, 2, 0, 3);
    b.number = None;
    assert!(!b.is_complete());
}

#[test]
fn clearing_the_last_head_empties_the_snapshot() {
    let mut t = tracker(1, 10, 1);
    let head = t.process_block_from_rpc(&block(1, 10, 0, 100), 0).unwrap();
    assert_eq!(head.unwrap().hash, Some(hash(1)));
    assert_eq!(t.synced_connections().head_block_id, Some(BlockId { hash: hash(1), num: 10 }));
    assert_eq!(t.synced_connections().conns, vec![0]);
    // the upstream reports that it is syncing again: no head is left
    let r = t.process_block_from_rpc(&block(2, 0, 0, 1), 0).unwrap();
    assert!(r.is_none());
    assert_eq!(t.connection_head(0), None);
    assert!(t.synced_connections().head_block_id.is_none());
    assert!(t.synced_connections().conns.is_empty());
    assert_eq!(t.head_block_num(), None);
    // the same after a block without hash
    t.process_block_from_rpc(&block(1, 10, 0, 100), 0).unwrap();
    let mut no_hash = block(3, 11, 1, 101);
    no_hash.hash = None;
    assert!(t.process_block_from_rpc(&no_hash, 0).unwrap().is_none());
    assert!(t.synced_connections().head_block_id.is_none());
    assert!(t.synced_connections().conns.is_empty());
    // the next head is a first consensus again and is published
    let again = t.process_block_from_rpc(&block(1, 10, 0, 100), 0).unwrap();
    assert_eq!(again.unwrap().hash, Some(hash(1)));
}
