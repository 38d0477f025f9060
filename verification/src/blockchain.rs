//! The block graph and the consensus-head tracker of a set of upstreams.
use crate::block_maps::{
    blocks_get, blocks_held, blocks_insert, blocks_new, numbers_get, numbers_held, numbers_insert,
    numbers_new,
};
use crate::block::{Block, BlockId, H256, U256};
use crate::head_map::{
    heads_get, heads_held, heads_insert, heads_new, heads_of, heads_remove, ConnectionHeads,
};
use crate::connection::Web3Connection;
use crate::errors::Web3ProxyError;
use vstd::prelude::*;

verus! {

/// How many blocks, the candidate included, the tracker looks at on the way
/// from the heaviest head towards the root.
pub const MAX_ANCESTOR_DEPTH: u8 = 3;

/// The published snapshot: the consensus head and the upstreams that serve
/// it, each named by its position in the pool.
pub struct SyncedConnections {
    pub head_block_id: Option<BlockId>,
    pub conns: Vec<usize>,
}

/// What a cache lookup says: the block, or that it has to be fetched.
#[derive(Clone, Copy, Debug)]
pub enum BlockLookup {
    Cached(Block),
    Fetch,
}

/// The block graph as mathematics.
pub ghost struct GraphView {
    /// Complete blocks by hash.
    pub hashes: Map<H256, Block>,
    /// The canonical hash of each height.
    pub numbers: Map<u64, H256>,
    /// Parent-to-child edges, in the order in which blocks were stored.
    pub edges: Seq<(H256, H256)>,
}

/// The graph after a complete block was saved into it.
pub open spec fn graph_with(g: GraphView, block: Block, heaviest_chain: bool) -> GraphView {
    let hash = block.hash.unwrap();
    let known = g.hashes.dom().contains(hash);
    GraphView {
        hashes: if known {
            g.hashes
        } else {
            g.hashes.insert(hash, block)
        },
        numbers: if heaviest_chain {
            g.numbers.insert(block.number.unwrap(), hash)
        } else {
            g.numbers
        },
        edges: if known {
            g.edges
        } else {
            g.edges.push((block.parent_hash, hash))
        },
    }
}

/// Whether the edges are those of the stored blocks: each edge leads from
/// the parent hash of a stored block to that block, no block has two, and
/// every stored block has one.
pub open spec fn edges_follow_blocks(g: GraphView) -> bool {
    &&& forall|i: int|
        0 <= i < g.edges.len() ==> g.hashes.dom().contains((#[trigger] g.edges[i]).1)
            && g.hashes[g.edges[i].1].parent_hash == g.edges[i].0
    &&& forall|i: int, j: int|
        #![trigger g.edges[i], g.edges[j]]
        0 <= i < j < g.edges.len() ==> g.edges[i].1 != g.edges[j].1
    &&& forall|h: H256| #[trigger]
        g.hashes.dom().contains(h) ==> exists|i: int|
            0 <= i < g.edges.len() && (#[trigger] g.edges[i]).1 == h
}

/// Whether a snapshot follows the heads of the upstreams: without a head it
/// names no upstream; its head is a stored block with the number that the
/// snapshot gives; and each of its upstreams is one of the pool whose head
/// is the published head or a block from which the walk towards the root
/// comes to it within the steps that the tracker takes.
pub open spec fn snapshot_follows(
    hashes: Map<H256, Block>,
    heads: Seq<Option<H256>>,
    head: Option<BlockId>,
    conns: Seq<usize>,
) -> bool {
    &&& head.is_none() ==> conns.len() == 0
    &&& head.is_some() ==> hashes.dom().contains(head.unwrap().hash)
        && hashes[head.unwrap().hash].number == Some(head.unwrap().num)
    &&& forall|k: int|
        0 <= k < conns.len() ==> (#[trigger] conns[k]) < heads.len()
            && heads[conns[k] as int].is_some() && reaches(
            hashes,
            heads[conns[k] as int].unwrap(),
            head.unwrap().hash,
            (MAX_ANCESTOR_DEPTH - 1) as nat,
        )
}

/// The head that an upstream is taken to be on after it reported a block:
/// none while the block lacks hash or number, or while its number is zero.
pub open spec fn reported_head(block: Block) -> Option<H256> {
    if block.hash.is_some() && block.number.is_some() && block.number.unwrap() != 0 {
        block.hash
    } else {
        None
    }
}

/// The block of greatest total difficulty among the heads, the first such in
/// pool order; none where no upstream has a head.
pub open spec fn heaviest_of(hashes: Map<H256, Block>, heads: Seq<Option<H256>>) -> Option<Block>
    decreases heads.len(),
{
    if heads.len() == 0 {
        None
    } else {
        let rest = heaviest_of(hashes, heads.drop_last());
        match heads.last() {
            None => rest,
            Some(h) => {
                let block = hashes[h];
                if rest.is_none() || block.work() > rest.unwrap().work() {
                    Some(block)
                } else {
                    rest
                }
            },
        }
    }
}

/// The first `n` upstreams whose head is `h`, in pool order.
pub open spec fn rpcs_at(heads: Seq<Option<H256>>, h: Option<H256>, n: nat) -> Seq<usize>
    decreases n,
{
    if n == 0 || n > heads.len() {
        Seq::empty()
    } else {
        let rest = rpcs_at(heads, h, (n - 1) as nat);
        if heads[n - 1].is_some() && heads[n - 1] == h {
            rest.push((n - 1) as usize)
        } else {
            rest
        }
    }
}

/// The sum of the soft limits of the listed upstreams.
pub open spec fn sum_soft_limit(conns: Seq<Web3Connection>, rpcs: Seq<usize>) -> nat
    decreases rpcs.len(),
{
    if rpcs.len() == 0 {
        0
    } else {
        let last = rpcs.last();
        sum_soft_limit(conns, rpcs.drop_last()) + if last < conns.len() {
            conns[last as int].soft_limit() as nat
        } else {
            0
        }
    }
}

/// The walk from `block` towards the root over at most `depth` blocks. The
/// upstreams on each block visited are added to those gathered so far; the
/// first block at which they meet both floors is the consensus head. The walk
/// gives up where a parent is not stored.
pub open spec fn consensus_from(
    hashes: Map<H256, Block>,
    heads: Seq<Option<H256>>,
    conns: Seq<Web3Connection>,
    min_sum_soft_limit: u32,
    min_synced_rpcs: usize,
    block: Block,
    depth: nat,
    gathered: Seq<usize>,
) -> Option<(Block, Seq<usize>)>
    decreases depth,
{
    if depth == 0 {
        None
    } else {
        let heavy = gathered + rpcs_at(heads, block.hash, heads.len());
        if sum_soft_limit(conns, heavy) >= min_sum_soft_limit && heavy.len() >= min_synced_rpcs {
            Some((block, heavy))
        } else if hashes.dom().contains(block.parent_hash) {
            consensus_from(
                hashes,
                heads,
                conns,
                min_sum_soft_limit,
                min_synced_rpcs,
                hashes[block.parent_hash],
                (depth - 1) as nat,
                heavy,
            )
        } else {
            None
        }
    }
}

/// Whether a new consensus head is sent to the subscribers: always, but when
/// it is the head that was published before.
pub open spec fn head_changed(previous: Option<BlockId>, new: BlockId) -> bool {
    previous != Some(new)
}

/// The upstreams of a chain, the blocks seen from them, and the consensus
/// that they have reached.
pub struct Web3Connections {
    conns: Vec<Web3Connection>,
    min_sum_soft_limit: u32,
    min_synced_rpcs: usize,
    block_hashes: dashmap::DashMap<(u128, u128), Block>,
    block_numbers: dashmap::DashMap<u64, H256>,
    blockchain_edges: Vec<(H256, H256)>,
    connection_heads: ConnectionHeads,
    synced_connections: SyncedConnections,
}

impl Web3Connections {
    pub closed spec fn conns(&self) -> Seq<Web3Connection> {
        self.conns@
    }

    pub closed spec fn min_sum_soft_limit(&self) -> u32 {
        self.min_sum_soft_limit
    }

    pub closed spec fn min_synced_rpcs(&self) -> usize {
        self.min_synced_rpcs
    }

    /// The block graph.
    pub closed spec fn graph(&self) -> GraphView {
        GraphView {
            hashes: blocks_held(self.block_hashes),
            numbers: numbers_held(self.block_numbers),
            edges: self.blockchain_edges@,
        }
    }

    /// The last head seen from each upstream, by its position in the pool.
    pub closed spec fn heads(&self) -> Seq<Option<H256>> {
        heads_of(heads_held(self.connection_heads), self.conns@.len())
    }

    pub closed spec fn synced_head(&self) -> Option<BlockId> {
        self.synced_connections.head_block_id
    }

    pub closed spec fn synced_conns(&self) -> Seq<usize> {
        self.synced_connections.conns@
    }

    /// Every stored block is complete and stored under its own hash, every
    /// canonical hash and every head is stored, each upstream has one slot
    /// for its head, and the published snapshot follows the heads.
    pub closed spec fn wf(&self) -> bool {
        &&& self.graph_wf()
        &&& snapshot_follows(
            self.graph().hashes,
            self.heads(),
            self.synced_head(),
            self.synced_conns(),
        )
    }

    /// The published snapshot follows the heads: without a head it names
    /// no upstream; its head is a stored block; and each of its upstreams
    /// has a head from which the walk towards the root comes to the
    /// published head.
    pub proof fn lemma_snapshot_follows_heads(&self)
        requires
            self.wf(),
        ensures
            snapshot_follows(
                self.graph().hashes,
                self.heads(),
                self.synced_head(),
                self.synced_conns(),
            ),
    {
    }

    /// What holds of the graph and the heads, whatever is published.
    spec fn graph_wf(&self) -> bool {
        &&& forall|h: H256| #[trigger]
            self.graph().hashes.dom().contains(h) ==> self.graph().hashes[h].complete()
                && self.graph().hashes[h].hash == Some(h)
        &&& forall|n: u64| #[trigger]
            self.graph().numbers.dom().contains(n) ==> self.graph().hashes.dom().contains(
                self.graph().numbers[n],
            )
        &&& self.conns@.len() <= usize::MAX
        &&& forall|i: int|
            0 <= i < self.heads().len() && (#[trigger] self.heads()[i]).is_some()
                ==> self.graph().hashes.dom().contains(self.heads()[i].unwrap())
        &&& edges_follow_blocks(self.graph())
    }

    /// Every edge leads from the parent hash of a stored block to that
    /// block, and every stored block has exactly one such edge.
    pub proof fn lemma_edges_follow_blocks(&self)
        requires
            self.wf(),
        ensures
            edges_follow_blocks(self.graph()),
    {
    }

    /// The hash that is canonical at a height is the hash of a stored block.
    pub proof fn lemma_canonical_hashes_are_stored(&self, n: u64)
        requires
            self.wf(),
            self.graph().numbers.dom().contains(n),
        ensures
            self.graph().hashes.dom().contains(self.graph().numbers[n]),
            self.graph().hashes[self.graph().numbers[n]].hash == Some(self.graph().numbers[n]),
    {
    }

    /// A stored block is complete and is stored under its own hash.
    pub proof fn lemma_stored_blocks_are_complete(&self, h: H256)
        requires
            self.wf(),
            self.graph().hashes.dom().contains(h),
        ensures
            self.graph().hashes[h].complete(),
            self.graph().hashes[h].hash == Some(h),
    {
    }

    /// Each upstream has one slot for its head.
    pub proof fn lemma_one_head_per_conn(&self)
        requires
            self.wf(),
        ensures
            self.heads().len() == self.conns().len(),
    {
    }

    /// The head of an upstream is the hash of a stored block.
    pub proof fn lemma_heads_are_stored(&self, rpc: int)
        requires
            self.wf(),
            0 <= rpc < self.heads().len(),
            self.heads()[rpc].is_some(),
        ensures
            self.heads().len() == self.conns().len(),
            self.graph().hashes.dom().contains(self.heads()[rpc].unwrap()),
    {
    }

    /// A tracker over the given upstreams that has seen no block yet.
    pub fn new(conns: Vec<Web3Connection>, min_sum_soft_limit: u32, min_synced_rpcs: usize) -> (r:
        Web3Connections)
        ensures
            r.wf(),
            r.conns() == conns@,
            r.min_sum_soft_limit() == min_sum_soft_limit,
            r.min_synced_rpcs() == min_synced_rpcs,
            r.graph() == (GraphView {
                hashes: Map::empty(),
                numbers: Map::empty(),
                edges: Seq::empty(),
            }),
            r.heads() == Seq::new(conns@.len(), |i: int| None::<H256>),
            r.synced_head().is_none(),
            r.synced_conns() == Seq::<usize>::empty(),
    {
        let pool: usize = conns.len();
        let r = Web3Connections {
            conns,
            min_sum_soft_limit,
            min_synced_rpcs,
            block_hashes: blocks_new(),
            block_numbers: numbers_new(),
            blockchain_edges: Vec::new(),
            connection_heads: heads_new(),
            synced_connections: SyncedConnections { head_block_id: None, conns: Vec::new() },
        };
        assert(r.blockchain_edges@ =~= Seq::empty());
        assert(r.synced_connections.conns@ =~= Seq::<usize>::empty());
        r
    }

    pub fn num_conns(&self) -> (r: usize)
        ensures
            r == self.conns().len(),
    {
        self.conns.len()
    }

    /// The published snapshot.
    pub fn synced_connections(&self) -> (r: &SyncedConnections)
        ensures
            r.head_block_id == self.synced_head(),
            r.conns@ == self.synced_conns(),
    {
        &self.synced_connections
    }

    /// The head last seen from an upstream.
    pub fn connection_head(&self, rpc: usize) -> (r: Option<H256>)
        ensures
            r == if rpc < self.heads().len() {
                self.heads()[rpc as int]
            } else {
                None
            },
    {
        if rpc < self.conns.len() {
            heads_get(&self.connection_heads, rpc)
        } else {
            None
        }
    }

    /// The number of the consensus head, if there is one.
    pub fn head_block_num(&self) -> (r: Option<u64>)
        ensures
            r == match self.synced_head() {
                Some(id) => Some(id.num),
                None => None,
            },
    {
        match self.synced_connections.head_block_id {
            Some(id) => Some(id.num),
            None => None,
        }
    }

    /// Looks a block up by its hash.
    pub fn block(&self, hash: &H256) -> (r: BlockLookup)
        ensures
            r == if self.graph().hashes.dom().contains(*hash) {
                BlockLookup::Cached(self.graph().hashes[*hash])
            } else {
                BlockLookup::Fetch
            },
    {
        match blocks_get(&self.block_hashes, hash) {
            Some(block) => BlockLookup::Cached(block),
            None => BlockLookup::Fetch,
        }
    }

    /// Adds a block to the graph. An incomplete block is refused and leaves
    /// the graph as it was. On the heaviest chain the block's hash becomes
    /// canonical at its height, whatever was canonical there before. A block
    /// whose hash is stored already is not stored again.
    pub fn save_block(&mut self, block: &Block, heaviest_chain: bool) -> (r: Result<
        (),
        Web3ProxyError,
    >)
        requires
            old(self).wf(),
        ensures
            final(self).wf(),
            final(self).conns() == old(self).conns(),
            final(self).min_sum_soft_limit() == old(self).min_sum_soft_limit(),
            final(self).min_synced_rpcs() == old(self).min_synced_rpcs(),
            final(self).heads() == old(self).heads(),
            final(self).synced_head() == old(self).synced_head(),
            final(self).synced_conns() == old(self).synced_conns(),
            r.is_ok() <==> block.complete(),
            r.is_err() ==> r == Err::<(), Web3ProxyError>(Web3ProxyError::IncompleteBlock)
                && final(self).graph() == old(self).graph(),
            r.is_ok() ==> final(self).graph() == graph_with(
                old(self).graph(),
                *block,
                heaviest_chain,
            ),
    {
        let (block_hash, block_num) = match (block.hash, block.number, block.total_difficulty) {
            (Some(h), Some(n), Some(_)) => (h, n),
            _ => {
                return Err(Web3ProxyError::IncompleteBlock);
            },
        };
        if heaviest_chain {
            let _previous = numbers_insert(&mut self.block_numbers, block_num, block_hash);
        }
        if blocks_get(&self.block_hashes, &block_hash).is_some() {
            proof {
                self.lemma_saved(*old(self), *block, heaviest_chain);
            }
            return Ok(());
        }
        let _overwritten = blocks_insert(&mut self.block_hashes, block_hash, *block);
        self.blockchain_edges.push((block.parent_hash, block_hash));
        proof {
            self.lemma_saved(*old(self), *block, heaviest_chain);
        }
        Ok(())
    }

    proof fn lemma_saved(&self, before: Web3Connections, block: Block, heaviest_chain: bool)
        requires
            before.wf(),
            block.complete(),
            self.graph() == graph_with(before.graph(), block, heaviest_chain),
            self.connection_heads == before.connection_heads,
            self.conns == before.conns,
            self.synced_connections == before.synced_connections,
        ensures
            self.wf(),
    {
        let g0 = before.graph();
        let g1 = self.graph();
        assert forall|k: int| 0 <= k < self.synced_conns().len() implies reaches(
            g1.hashes,
            self.heads()[(#[trigger] self.synced_conns()[k]) as int].unwrap(),
            self.synced_head().unwrap().hash,
            (MAX_ANCESTOR_DEPTH - 1) as nat,
        ) by {
            lemma_reaches_grows(
                g0.hashes,
                g1.hashes,
                self.heads()[self.synced_conns()[k] as int].unwrap(),
                self.synced_head().unwrap().hash,
                (MAX_ANCESTOR_DEPTH - 1) as nat,
            );
        }
        assert forall|h: H256| #[trigger] g1.hashes.dom().contains(h) implies g1.hashes[h].complete()
            && g1.hashes[h].hash == Some(h) by {
            if h != block.hash.unwrap() {
                assert(g0.hashes.dom().contains(h));
            }
        }
        assert forall|n: u64| #[trigger] g1.numbers.dom().contains(n) implies g1.hashes.dom().contains(
            g1.numbers[n],
        ) by {
            if !(heaviest_chain && n == block.number.unwrap()) {
                assert(g0.numbers.dom().contains(n));
                assert(g0.hashes.dom().contains(g0.numbers[n]));
            }
        }
        assert forall|i: int|
            0 <= i < self.heads().len() && (
            #[trigger] self.heads()[i]).is_some() implies g1.hashes.dom().contains(
            self.heads()[i].unwrap(),
        ) by {
            assert(before.heads()[i] == self.heads()[i]);
            assert(g0.hashes.dom().contains(before.heads()[i].unwrap()));
        }
        let hash = block.hash.unwrap();
        assert forall|i: int| 0 <= i < g1.edges.len() implies g1.hashes.dom().contains(
            (#[trigger] g1.edges[i]).1,
        ) && g1.hashes[g1.edges[i].1].parent_hash == g1.edges[i].0 by {
            if i < g0.edges.len() {
                assert(g1.edges[i] == g0.edges[i]);
                assert(g0.hashes.dom().contains(g0.edges[i].1));
            }
        }
        assert forall|i: int, j: int| 0 <= i < j < g1.edges.len() implies (#[trigger] g1.edges[i]).1
            != (#[trigger] g1.edges[j]).1 by {
            assert(g1.edges[i] == g0.edges[i]);
            assert(g0.hashes.dom().contains(g0.edges[i].1));
            if j < g0.edges.len() {
                assert(g1.edges[j] == g0.edges[j]);
            }
        }
        assert forall|h: H256| #[trigger] g1.hashes.dom().contains(h) implies exists|i: int|
            0 <= i < g1.edges.len() && (#[trigger] g1.edges[i]).1 == h by {
            if g0.hashes.dom().contains(h) {
                let i = choose|i: int| 0 <= i < g0.edges.len() && (#[trigger] g0.edges[i]).1 == h;
                assert(g1.edges[i].1 == h);
            } else {
                assert(g1.edges[g1.edges.len() - 1].1 == h);
            }
        }
    }
}

impl Web3Connections {
    /// Looks up the block that is canonical at a height. A block above the
    /// consensus head is refused before anything is fetched.
    pub fn cannonical_block(&self, num: u64) -> (r: Result<BlockLookup, Web3ProxyError>)
        requires
            self.wf(),
        ensures
            r == if self.graph().numbers.dom().contains(num) {
                Ok(BlockLookup::Cached(self.graph().hashes[self.graph().numbers[num]]))
            } else if self.synced_head().is_none() {
                Err(Web3ProxyError::NoServers)
            } else if num > self.synced_head().unwrap().num {
                Err(Web3ProxyError::FutureBlock)
            } else {
                Ok(BlockLookup::Fetch)
            },
    {
        match numbers_get(&self.block_numbers, num) {
            Some(hash) => Ok(self.block(&hash)),
            None => {
                match self.head_block_num() {
                    None => Err(Web3ProxyError::NoServers),
                    Some(head_block_num) => {
                        if num > head_block_num {
                            Err(Web3ProxyError::FutureBlock)
                        } else {
                            Ok(BlockLookup::Fetch)
                        }
                    },
                }
            },
        }
    }

    /// The hash that is canonical at a height, where it is known.
    pub fn block_hash(&self, num: u64) -> (r: Result<Option<H256>, Web3ProxyError>)
        requires
            self.wf(),
        ensures
            r == if self.graph().numbers.dom().contains(num) {
                Ok(Some(self.graph().numbers[num]))
            } else if self.synced_head().is_none() {
                Err(Web3ProxyError::NoServers)
            } else if num > self.synced_head().unwrap().num {
                Err(Web3ProxyError::FutureBlock)
            } else {
                Ok(None)
            },
    {
        match self.cannonical_block(num) {
            Ok(BlockLookup::Cached(block)) => Ok(block.hash),
            Ok(BlockLookup::Fetch) => Ok(None),
            Err(e) => Err(e),
        }
    }

    /// The heaviest block among the heads of the upstreams.
    fn heaviest_head(&self) -> (r: Option<Block>)
        requires
            self.graph_wf(),
        ensures
            r == heaviest_of(self.graph().hashes, self.heads()),
            r.is_some() ==> r.unwrap().complete(),
    {
        let mut best: Option<Block> = None;
        let mut i: usize = 0;
        while i < self.conns.len()
            invariant
                self.graph_wf(),
                i <= self.heads().len(),
                best == heaviest_of(self.graph().hashes, self.heads().take(i as int)),
                best.is_some() ==> best.unwrap().complete(),
            decreases self.heads().len() - i,
        {
            proof {
                assert(self.heads().take(i + 1).drop_last() =~= self.heads().take(i as int));
            }
            match heads_get(&self.connection_heads, i) {
                None => {},
                Some(h) => {
                    let found = self.block(&h);
                    match found {
                        BlockLookup::Fetch => {
                            assert(false);
                        },
                        BlockLookup::Cached(block) => {
                            let better = match best {
                                None => true,
                                Some(current) => heavier(&block, &current),
                            };
                            if better {
                                best = Some(block);
                            }
                        },
                    }
                },
            }
            i = i + 1;
        }
        assert(self.heads().take(i as int) =~= self.heads());
        best
    }

    /// Adds to `heavy` the upstreams whose head is `hash`, and their soft
    /// limits to `sum`.
    fn gather_rpcs(&self, hash: Option<H256>, heavy: &mut Vec<usize>, sum: &mut u128)
        requires
            self.graph_wf(),
            *old(sum) == sum_soft_limit(self.conns(), old(heavy)@),
            *old(sum) <= old(heavy)@.len() * 0xffff_ffff,
        ensures
            final(heavy)@ == old(heavy)@ + rpcs_at(self.heads(), hash, self.heads().len()),
            *final(sum) == sum_soft_limit(self.conns(), final(heavy)@),
            *final(sum) <= final(heavy)@.len() * 0xffff_ffff,
    {
        let mut i: usize = 0;
        assert(heavy@ =~= old(heavy)@ + rpcs_at(self.heads(), hash, 0));
        while i < self.conns.len()
            invariant
                self.graph_wf(),
                i <= self.heads().len(),
                heavy@ == old(heavy)@ + rpcs_at(self.heads(), hash, i as nat),
                *sum == sum_soft_limit(self.conns(), heavy@),
                *sum <= heavy@.len() * 0xffff_ffff,
            decreases self.heads().len() - i,
        {
            let on_it = match (heads_get(&self.connection_heads, i), hash) {
                (Some(a), Some(b)) => a == b,
                _ => false,
            };
            if on_it {
                let ghost before = heavy@;
                let limit: u32 = self.conns[i].get_soft_limit();
                let count: usize = heavy.len();
                assert(*sum + limit <= (count + 1) * 0xffff_ffff);
                *sum = *sum + limit as u128;
                heavy.push(i);
                proof {
                    assert(heavy@.drop_last() =~= before);
                    assert(heavy@ =~= old(heavy)@ + rpcs_at(self.heads(), hash, (i + 1) as nat));
                }
            }
            i = i + 1;
        }
    }

    /// Walks from the candidate towards the root until the upstreams
    /// gathered on the way meet both floors.
    fn find_consensus(&self, candidate: Block) -> (r: Option<(Block, Vec<usize>)>)
        requires
            self.graph_wf(),
            candidate.complete(),
        ensures
            match r {
                Some((block, conns)) => consensus_from(
                    self.graph().hashes,
                    self.heads(),
                    self.conns(),
                    self.min_sum_soft_limit(),
                    self.min_synced_rpcs(),
                    candidate,
                    MAX_ANCESTOR_DEPTH as nat,
                    Seq::empty(),
                ) == Some((block, conns@)) && block.complete(),
                None => consensus_from(
                    self.graph().hashes,
                    self.heads(),
                    self.conns(),
                    self.min_sum_soft_limit(),
                    self.min_synced_rpcs(),
                    candidate,
                    MAX_ANCESTOR_DEPTH as nat,
                    Seq::empty(),
                ).is_none(),
            },
    {
        let mut heavy: Vec<usize> = Vec::new();
        let mut sum: u128 = 0;
        let mut current: Block = candidate;
        let mut left: u8 = MAX_ANCESTOR_DEPTH;
        let ghost goal = consensus_from(
            self.graph().hashes,
            self.heads(),
            self.conns(),
            self.min_sum_soft_limit(),
            self.min_synced_rpcs(),
            candidate,
            MAX_ANCESTOR_DEPTH as nat,
            Seq::empty(),
        );
        assert(heavy@ =~= Seq::<usize>::empty());
        while left > 0
            invariant
                self.graph_wf(),
                sum == sum_soft_limit(self.conns(), heavy@),
                sum <= heavy@.len() * 0xffff_ffff,
                current.complete(),
                goal == consensus_from(
                    self.graph().hashes,
                    self.heads(),
                    self.conns(),
                    self.min_sum_soft_limit(),
                    self.min_synced_rpcs(),
                    candidate,
                    MAX_ANCESTOR_DEPTH as nat,
                    Seq::empty(),
                ),
                goal == consensus_from(
                    self.graph().hashes,
                    self.heads(),
                    self.conns(),
                    self.min_sum_soft_limit(),
                    self.min_synced_rpcs(),
                    current,
                    left as nat,
                    heavy@,
                ),
            decreases left,
        {
            let ghost gathered = heavy@;
            self.gather_rpcs(current.hash, &mut heavy, &mut sum);
            assert(heavy@ == gathered + rpcs_at(self.heads(), current.hash, self.heads().len()));
            assert(left as nat != 0);
            if sum >= self.min_sum_soft_limit as u128 && heavy.len() >= self.min_synced_rpcs {
                return Some((current, heavy));
            }
            match self.block(&current.parent_hash) {
                BlockLookup::Cached(parent) => {
                    current = parent;
                    left = left - 1;
                },
                BlockLookup::Fetch => {
                    return None;
                },
            }
        }
        None
    }

    /// Takes in the head that an upstream reported and works out the
    /// consensus anew.
    ///
    /// The upstream's head is set, or cleared while the block has no hash or
    /// number or is numbered zero; a block that sets it is saved first, and
    /// where that block is incomplete nothing changes at all. Then the
    /// heaviest head is the candidate. Where the walk from it finds a block
    /// with enough upstreams, that block and those upstreams become the
    /// snapshot, and the block is returned for the subscribers unless it is
    /// the head published before. Where the walk finds none, and where no
    /// upstream has a head to walk from, the snapshot becomes empty and
    /// nothing is returned for the subscribers.
    pub fn process_block_from_rpc(&mut self, rpc_head_block: &Block, rpc: usize) -> (r: Result<
        Option<Block>,
        Web3ProxyError,
    >)
        requires
            old(self).wf(),
            rpc < old(self).conns().len(),
        ensures
            final(self).wf(),
            final(self).conns() == old(self).conns(),
            final(self).min_sum_soft_limit() == old(self).min_sum_soft_limit(),
            final(self).min_synced_rpcs() == old(self).min_synced_rpcs(),
            r.is_err() <==> reported_head(*rpc_head_block).is_some() && !rpc_head_block.complete(),
            r.is_err() ==> r == Err::<Option<Block>, Web3ProxyError>(
                Web3ProxyError::IncompleteBlock,
            ) && final(self).graph() == old(self).graph() && final(self).heads() == old(self).heads() && final(self).synced_head() == old(self).synced_head() && final(self).synced_conns() == old(self).synced_conns(),
            r.is_ok() ==> final(self).heads() == old(self).heads().update(
                rpc as int,
                reported_head(*rpc_head_block),
            ),
            r.is_ok() ==> final(self).graph() == if reported_head(*rpc_head_block).is_some() {
                graph_with(old(self).graph(), *rpc_head_block, false)
            } else {
                old(self).graph()
            },
            r.is_ok() ==> match heaviest_of(final(self).graph().hashes, final(self).heads()) {
                None => {
                    &&& r == Ok::<Option<Block>, Web3ProxyError>(None)
                    &&& final(self).synced_head().is_none()
                    &&& final(self).synced_conns() == Seq::<usize>::empty()
                },
                Some(candidate) => match consensus_from(
                    final(self).graph().hashes,
                    final(self).heads(),
                    final(self).conns(),
                    final(self).min_sum_soft_limit(),
                    final(self).min_synced_rpcs(),
                    candidate,
                    MAX_ANCESTOR_DEPTH as nat,
                    Seq::empty(),
                ) {
                    None => {
                        &&& r == Ok::<Option<Block>, Web3ProxyError>(None)
                        &&& final(self).synced_head().is_none()
                        &&& final(self).synced_conns() == Seq::<usize>::empty()
                    },
                    Some((head, conns)) => {
                        &&& final(self).synced_head() == Some(BlockId::of(head))
                        &&& final(self).synced_conns() == conns
                        &&& r == Ok::<Option<Block>, Web3ProxyError>(
                            if head_changed(old(self).synced_head(), BlockId::of(head)) {
                                Some(head)
                            } else {
                                None
                            },
                        )
                    },
                },
            },
    {
        let reported = match (rpc_head_block.hash, rpc_head_block.number) {
            (Some(hash), Some(num)) => if num == 0 {
                None
            } else {
                Some(hash)
            },
            _ => None,
        };
        if reported.is_some() {
            let saved = self.save_block(rpc_head_block, false);
            if saved.is_err() {
                return Err(Web3ProxyError::IncompleteBlock);
            }
        }
        let ghost heads_before = self.heads();
        match reported {
            Some(head) => {
                let _previous = heads_insert(&mut self.connection_heads, rpc, head);
            },
            None => {
                let _previous = heads_remove(&mut self.connection_heads, rpc);
            },
        }
        assert(self.heads() =~= heads_before.update(rpc as int, reported));
        let candidate = match self.heaviest_head() {
            None => {
                self.synced_connections =
                SyncedConnections { head_block_id: None, conns: Vec::new() };
                assert(self.synced_connections.conns@ =~= Seq::<usize>::empty());
                return Ok(None);
            },
            Some(candidate) => candidate,
        };
        match self.find_consensus(candidate) {
            None => {
                self.synced_connections =
                SyncedConnections { head_block_id: None, conns: Vec::new() };
                assert(self.synced_connections.conns@ =~= Seq::<usize>::empty());
                Ok(None)
            },
            Some((heavy_block, conns)) => {
                let heavy_block_id = match (heavy_block.hash, heavy_block.number) {
                    (Some(hash), Some(num)) => BlockId { hash, num },
                    _ => {
                        assert(false);
                        return Ok(None);
                    },
                };
                let publish = match self.synced_connections.head_block_id {
                    None => true,
                    Some(old_block_id) => {
                        if heavy_block_id.num == old_block_id.num {
                            !(heavy_block_id.hash == old_block_id.hash)
                        } else {
                            true
                        }
                    },
                };
                let pool: usize = self.conns.len();
                proof {
                    let hashes = self.graph().hashes;
                    let heads = self.heads();
                    assert(heads.len() == pool);
                    lemma_heaviest_is_heaviest(hashes, heads);
                    lemma_consensus_conns_on_chain(
                        hashes,
                        heads,
                        self.conns(),
                        self.min_sum_soft_limit(),
                        self.min_synced_rpcs(),
                        candidate,
                        MAX_ANCESTOR_DEPTH as nat,
                        Seq::empty(),
                        0,
                    );
                }
                self.synced_connections =
                SyncedConnections { head_block_id: Some(heavy_block_id), conns };
                if publish {
                    Ok(Some(heavy_block))
                } else {
                    Ok(None)
                }
            },
        }
    }
}

/// Whether the first block has strictly more total difficulty than the
/// second; an absent total difficulty counts as zero.
pub fn heavier(a: &Block, b: &Block) -> (r: bool)
    ensures
        r == (a.work() > b.work()),
{
    let zero = U256 { hi: 0, lo: 0 };
    let x = match a.total_difficulty {
        Some(td) => td,
        None => zero,
    };
    let y = match b.total_difficulty {
        Some(td) => td,
        None => zero,
    };
    assert(zero.value() == 0) by (nonlinear_arith)
        requires
            zero.value() == (0 as nat) * (u128::MAX as nat + 1) + (0 as nat),
    ;
    x.gt(&y)
}

/// Saving a block a second time changes nothing: the graph after two saves
/// of one complete block is the graph after the first.
pub proof fn lemma_save_block_idempotent(g: GraphView, block: Block, heaviest_chain: bool)
    requires
        block.complete(),
    ensures
        graph_with(graph_with(g, block, heaviest_chain), block, heaviest_chain) == graph_with(
            g,
            block,
            heaviest_chain,
        ),
{
    let once = graph_with(g, block, heaviest_chain);
    let twice = graph_with(once, block, heaviest_chain);
    assert(once.hashes.dom().contains(block.hash.unwrap()));
    assert(twice.numbers =~= once.numbers);
}

/// A block that is numbered zero, or lacks hash or number, sets no head.
pub proof fn lemma_unsynced_block_sets_no_head(block: Block)
    requires
        block.number == Some(0u64) || block.number.is_none() || block.hash.is_none(),
    ensures
        reported_head(block).is_none(),
{
}

/// Whether the walk from the block of hash `from` towards the root comes to
/// the hash `to` within `steps` steps.
pub open spec fn reaches(hashes: Map<H256, Block>, from: H256, to: H256, steps: nat) -> bool
    decreases steps,
{
    from == to || (steps > 0 && hashes.dom().contains(from) && reaches(
        hashes,
        hashes[from].parent_hash,
        to,
        (steps - 1) as nat,
    ))
}

/// Every upstream that `rpcs_at` lists is one of the first `n` and has the
/// head asked for.
pub proof fn lemma_rpcs_at(heads: Seq<Option<H256>>, h: Option<H256>, n: nat)
    requires
        heads.len() <= usize::MAX,
    ensures
        forall|k: int|
            0 <= k < rpcs_at(heads, h, n).len() ==> (#[trigger] rpcs_at(heads, h, n)[k]) < n
                && rpcs_at(heads, h, n)[k] < heads.len() && h.is_some() && heads[rpcs_at(
                heads,
                h,
                n,
            )[k] as int] == h,
    decreases n,
{
    if n > 0 && n <= heads.len() {
        lemma_rpcs_at(heads, h, (n - 1) as nat);
        let all = rpcs_at(heads, h, n);
        let rest = rpcs_at(heads, h, (n - 1) as nat);
        assert forall|k: int| 0 <= k < all.len() implies (#[trigger] all[k]) < n && all[k]
            < heads.len() && h.is_some() && heads[all[k] as int] == h by {
            if k < rest.len() {
                assert(all[k] == rest[k]);
            }
        }
    }
}

/// A walk arrives all the same in a graph that holds more blocks.
pub proof fn lemma_reaches_grows(
    hashes: Map<H256, Block>,
    more: Map<H256, Block>,
    from: H256,
    to: H256,
    steps: nat,
)
    requires
        reaches(hashes, from, to, steps),
        forall|h: H256| #[trigger] hashes.dom().contains(h) ==> more.dom().contains(h) && more[h]
            == hashes[h],
    ensures
        reaches(more, from, to, steps),
    decreases steps,
{
    if from != to {
        lemma_reaches_grows(hashes, more, hashes[from].parent_hash, to, (steps - 1) as nat);
    }
}

/// A walk that arrives within some steps arrives within more.
pub proof fn lemma_reaches_within_more(
    hashes: Map<H256, Block>,
    from: H256,
    to: H256,
    steps: nat,
    more: nat,
)
    requires
        reaches(hashes, from, to, steps),
    ensures
        reaches(hashes, from, to, steps + more),
    decreases steps,
{
    if from != to {
        lemma_reaches_within_more(
            hashes,
            hashes[from].parent_hash,
            to,
            (steps - 1) as nat,
            more,
        );
    }
}

/// A walk that arrives at a stored block arrives at its parent one step
/// later.
pub proof fn lemma_reaches_parent(hashes: Map<H256, Block>, from: H256, mid: H256, steps: nat)
    requires
        reaches(hashes, from, mid, steps),
        hashes.dom().contains(mid),
    ensures
        reaches(hashes, from, hashes[mid].parent_hash, steps + 1),
    decreases steps,
{
    let to = hashes[mid].parent_hash;
    if from == mid {
        assert(reaches(hashes, hashes[from].parent_hash, to, steps));
    } else {
        lemma_reaches_parent(hashes, hashes[from].parent_hash, mid, (steps - 1) as nat);
        assert(reaches(hashes, hashes[from].parent_hash, to, steps));
    }
    assert((steps + 1 - 1) as nat == steps);
}

/// Where the walk finds a consensus head, every upstream of the snapshot is
/// an upstream of the pool whose head is the consensus head or a block from
/// which the walk came to it: a descendant within the steps of the walk.
/// `slack` is the number of steps within which the upstreams gathered before
/// this walk come to its first block.
pub proof fn lemma_consensus_conns_on_chain(
    hashes: Map<H256, Block>,
    heads: Seq<Option<H256>>,
    conns: Seq<Web3Connection>,
    min_sum_soft_limit: u32,
    min_synced_rpcs: usize,
    block: Block,
    depth: nat,
    gathered: Seq<usize>,
    slack: nat,
)
    requires
        heads.len() <= usize::MAX,
        forall|h: H256| #[trigger] hashes.dom().contains(h) ==> hashes[h].hash == Some(h),
        block.hash.is_some(),
        hashes.dom().contains(block.hash.unwrap()),
        hashes[block.hash.unwrap()] == block,
        forall|k: int|
            0 <= k < gathered.len() ==> (#[trigger] gathered[k]) < heads.len()
                && heads[gathered[k] as int].is_some() && reaches(
                hashes,
                heads[gathered[k] as int].unwrap(),
                block.hash.unwrap(),
                slack,
            ),
        consensus_from(
            hashes,
            heads,
            conns,
            min_sum_soft_limit,
            min_synced_rpcs,
            block,
            depth,
            gathered,
        ).is_some(),
    ensures
        ({
            let found = consensus_from(
                hashes,
                heads,
                conns,
                min_sum_soft_limit,
                min_synced_rpcs,
                block,
                depth,
                gathered,
            ).unwrap();
            &&& found.0.hash.is_some()
            &&& hashes.dom().contains(found.0.hash.unwrap())
            &&& hashes[found.0.hash.unwrap()] == found.0
            &&& depth > 0
            &&& forall|k: int|
                0 <= k < found.1.len() ==> (#[trigger] found.1[k]) < heads.len()
                    && heads[found.1[k] as int].is_some() && reaches(
                    hashes,
                    heads[found.1[k] as int].unwrap(),
                    found.0.hash.unwrap(),
                    (slack + depth - 1) as nat,
                )
        }),
    decreases depth,
{
    let here = rpcs_at(heads, block.hash, heads.len());
    let heavy = gathered + here;
    let bh = block.hash.unwrap();
    lemma_rpcs_at(heads, block.hash, heads.len());
    assert forall|k: int| 0 <= k < heavy.len() implies (#[trigger] heavy[k]) < heads.len()
        && heads[heavy[k] as int].is_some() && reaches(
        hashes,
        heads[heavy[k] as int].unwrap(),
        bh,
        slack,
    ) by {
        if k < gathered.len() {
            assert(heavy[k] == gathered[k]);
        } else {
            assert(heavy[k] == here[k - gathered.len()]);
        }
    }
    if sum_soft_limit(conns, heavy) >= min_sum_soft_limit && heavy.len() >= min_synced_rpcs {
        assert forall|k: int| 0 <= k < heavy.len() implies reaches(
            hashes,
            heads[(#[trigger] heavy[k]) as int].unwrap(),
            bh,
            (slack + depth - 1) as nat,
        ) by {
            lemma_reaches_within_more(
                hashes,
                heads[heavy[k] as int].unwrap(),
                bh,
                slack,
                (depth - 1) as nat,
            );
        }
    } else {
        let parent = hashes[block.parent_hash];
        assert forall|k: int| 0 <= k < heavy.len() implies reaches(
            hashes,
            heads[(#[trigger] heavy[k]) as int].unwrap(),
            block.parent_hash,
            slack + 1,
        ) by {
            lemma_reaches_parent(hashes, heads[heavy[k] as int].unwrap(), bh, slack);
        }
        lemma_consensus_conns_on_chain(
            hashes,
            heads,
            conns,
            min_sum_soft_limit,
            min_synced_rpcs,
            parent,
            (depth - 1) as nat,
            heavy,
            slack + 1,
        );
    }
}

/// No head is heavier than the candidate, and the candidate is the block of
/// some upstream's head.
pub proof fn lemma_heaviest_is_heaviest(hashes: Map<H256, Block>, heads: Seq<Option<H256>>)
    ensures
        heaviest_of(hashes, heads).is_none() <==> forall|i: int|
            0 <= i < heads.len() ==> (#[trigger] heads[i]).is_none(),
        heaviest_of(hashes, heads).is_some() ==> {
            &&& exists|i: int|
                0 <= i < heads.len() && (#[trigger] heads[i]).is_some() && hashes[heads[i].unwrap()]
                    == heaviest_of(hashes, heads).unwrap()
            &&& forall|i: int|
                0 <= i < heads.len() && (#[trigger] heads[i]).is_some()
                    ==> hashes[heads[i].unwrap()].work() <= heaviest_of(
                    hashes,
                    heads,
                ).unwrap().work()
        },
    decreases heads.len(),
{
    if heads.len() > 0 {
        let rest = heads.drop_last();
        lemma_heaviest_is_heaviest(hashes, rest);
        assert forall|i: int| 0 <= i < rest.len() implies rest[i] == heads[i] by {}
        let best = heaviest_of(hashes, heads);
        if best.is_some() {
            if best == heaviest_of(hashes, rest) && heaviest_of(hashes, rest).is_some() {
                let i = choose|i: int|
                    0 <= i < rest.len() && (#[trigger] rest[i]).is_some() && hashes[rest[i].unwrap()]
                        == heaviest_of(hashes, rest).unwrap();
                assert(heads[i].is_some() && hashes[heads[i].unwrap()] == best.unwrap());
            } else {
                assert(heads[heads.len() - 1].is_some());
                assert(hashes[heads[heads.len() - 1].unwrap()] == best.unwrap());
            }
            assert forall|i: int| 0 <= i < heads.len() && (#[trigger] heads[i]).is_some() implies hashes[heads[i].unwrap()].work()
                <= best.unwrap().work() by {
                if i < rest.len() {
                    assert(rest[i] == heads[i]);
                }
            }
        } else {
            assert forall|i: int| 0 <= i < heads.len() implies (#[trigger] heads[i]).is_none() by {
                if i < rest.len() {
                    assert(rest[i] == heads[i]);
                }
            }
        }
        if forall|i: int| 0 <= i < heads.len() ==> (#[trigger] heads[i]).is_none() {
            assert forall|i: int| 0 <= i < rest.len() implies (#[trigger] rest[i]).is_none() by {
                assert(rest[i] == heads[i]);
            }
            assert(heads[heads.len() - 1].is_none());
        }
    }
}

} // verus!
