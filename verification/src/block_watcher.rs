//! The head number last seen from each upstream, and how far each lags.
use vstd::prelude::*;

verus! {

/// Where an upstream stands against the highest head known.
#[derive(Clone, Copy, Debug, PartialEq, Eq, Structural)]
pub enum SyncStatus {
    /// Within the allowed lag of the highest head; holds its own head number.
    Synced(u64),
    /// Further behind than allowed; holds its own head number.
    Behind(u64),
    /// No head was seen from it.
    Unknown,
}

/// The highest head number among the heads; zero where there is none.
pub open spec fn highest_head(heads: Seq<Option<u64>>) -> u64
    decreases heads.len(),
{
    if heads.len() == 0 {
        0
    } else {
        let rest = highest_head(heads.drop_last());
        match heads.last() {
            Some(n) if n > rest => n,
            _ => rest,
        }
    }
}

/// The status of one upstream: unknown without a head, synced where its head
/// is at most `allowed_lag` below the highest, behind otherwise.
pub open spec fn status_of(heads: Seq<Option<u64>>, rpc: int, allowed_lag: u64) -> SyncStatus {
    if 0 <= rpc < heads.len() && heads[rpc].is_some() {
        let head = heads[rpc].unwrap();
        if highest_head(heads) - head <= allowed_lag {
            SyncStatus::Synced(head)
        } else {
            SyncStatus::Behind(head)
        }
    } else {
        SyncStatus::Unknown
    }
}

/// No head is above the highest.
pub proof fn lemma_highest_head_bounds(heads: Seq<Option<u64>>, rpc: int)
    requires
        0 <= rpc < heads.len(),
        heads[rpc].is_some(),
    ensures
        heads[rpc].unwrap() <= highest_head(heads),
    decreases heads.len(),
{
    if rpc < heads.len() - 1 {
        lemma_highest_head_bounds(heads.drop_last(), rpc);
    }
}

pub struct BlockWatcher {
    heads: Vec<Option<u64>>,
}

impl BlockWatcher {
    /// The head number last seen from each upstream, by position in the pool.
    pub closed spec fn heads(&self) -> Seq<Option<u64>> {
        self.heads@
    }

    /// A watcher of `n` upstreams that has seen no head.
    pub fn new(n: usize) -> (r: BlockWatcher)
        ensures
            r.heads() == Seq::new(n as nat, |i: int| None::<u64>),
    {
        let mut heads: Vec<Option<u64>> = Vec::new();
        let mut i: usize = 0;
        while i < n
            invariant
                i <= n,
                heads@ == Seq::new(i as nat, |k: int| None::<u64>),
            decreases n - i,
        {
            heads.push(None);
            i = i + 1;
            assert(heads@ =~= Seq::new(i as nat, |k: int| None::<u64>));
        }
        BlockWatcher { heads }
    }

    /// Notes the head of an upstream; an upstream that the watcher does not
    /// know is left out.
    pub fn set_head(&mut self, rpc: usize, head: Option<u64>)
        ensures
            final(self).heads() == if rpc < old(self).heads().len() {
                old(self).heads().update(rpc as int, head)
            } else {
                old(self).heads()
            },
    {
        if rpc < self.heads.len() {
            self.heads.set(rpc, head);
        }
    }

    /// The highest head number seen.
    pub fn highest(&self) -> (r: u64)
        ensures
            r == highest_head(self.heads()),
    {
        let mut best: u64 = 0;
        let mut i: usize = 0;
        while i < self.heads.len()
            invariant
                i <= self.heads@.len(),
                best == highest_head(self.heads@.take(i as int)),
            decreases self.heads@.len() - i,
        {
            proof {
                assert(self.heads@.take(i + 1).drop_last() =~= self.heads@.take(i as int));
            }
            match self.heads[i] {
                Some(n) => {
                    if n > best {
                        best = n;
                    }
                },
                None => {},
            }
            i = i + 1;
        }
        assert(self.heads@.take(i as int) =~= self.heads@);
        best
    }

    /// The status of an upstream against the highest head.
    pub fn sync_status(&self, rpc: usize, allowed_lag: u64) -> (r: SyncStatus)
        ensures
            r == status_of(self.heads(), rpc as int, allowed_lag),
    {
        if rpc < self.heads.len() {
            match self.heads[rpc] {
                Some(head) => {
                    let highest = self.highest();
                    proof {
                        lemma_highest_head_bounds(self.heads@, rpc as int);
                    }
                    if highest - head <= allowed_lag {
                        SyncStatus::Synced(head)
                    } else {
                        SyncStatus::Behind(head)
                    }
                },
                None => SyncStatus::Unknown,
            }
        } else {
            SyncStatus::Unknown
        }
    }
}

} // verus!
