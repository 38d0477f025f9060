//! A tier of upstreams: the pool, the upstreams that are in sync in order of
//! preference, and the selection of one or of all that admit a request.
use crate::block_watcher::{status_of, BlockWatcher, SyncStatus};
use crate::connection::{PoolClock, Web3Connection};
use crate::errors::{NotUntil, Web3ProxyError};
use vstd::prelude::*;

verus! {

/// Synced upstreams rank first, those behind second, unknown ones last.
pub open spec fn status_rank(s: SyncStatus) -> int {
    match s {
        SyncStatus::Synced(_) => 0,
        SyncStatus::Behind(_) => 1,
        SyncStatus::Unknown => 2,
    }
}

/// The head number that a status holds; zero where it holds none.
pub open spec fn status_head(s: SyncStatus) -> int {
    match s {
        SyncStatus::Synced(n) => n as int,
        SyncStatus::Behind(n) => n as int,
        SyncStatus::Unknown => 0,
    }
}

/// Whether an upstream is strictly preferred to another: by rank, then by the
/// higher head, then by the lower number of requests in flight.
pub open spec fn preferred(a: SyncStatus, a_active: int, b: SyncStatus, b_active: int) -> bool {
    status_rank(a) < status_rank(b) || (status_rank(a) == status_rank(b) && (status_head(a)
        > status_head(b) || (status_head(a) == status_head(b) && a_active < b_active)))
}

/// Every upstream of a pool of `n` occurs in the order, and none twice.
pub open spec fn is_pool_order(order: Seq<usize>, n: nat) -> bool {
    &&& order.len() == n
    &&& forall|k: int| 0 <= k < order.len() ==> (#[trigger] order[k]) < n
    &&& forall|a: int, b: int|
        #![trigger order[a], order[b]]
        0 <= a < b < order.len() ==> order[a] != order[b]
    &&& forall|v: usize| v < n ==> #[trigger] order.contains(v)
}

/// No upstream stands behind one that it is strictly preferred to.
pub open spec fn by_preference(order: Seq<usize>, statuses: Seq<SyncStatus>, active: Seq<int>) -> bool {
    forall|a: int, b: int|
        #![trigger order[a], order[b]]
        0 <= a < b < order.len() ==> !preferred(
            statuses[order[b] as int],
            active[order[b] as int],
            statuses[order[a] as int],
            active[order[a] as int],
        )
}

/// The length of the longest prefix of the order whose upstreams are all
/// synced.
pub open spec fn synced_prefix_len(order: Seq<usize>, statuses: Seq<SyncStatus>) -> nat
    decreases order.len(),
{
    if order.len() == 0 {
        0
    } else if statuses[order[0] as int] is Synced {
        1 + synced_prefix_len(order.skip(1), statuses)
    } else {
        0
    }
}

/// Whether `synced` is the synced prefix of `order`, and `order` is the pool
/// by preference.
pub open spec fn is_synced_prefix_of(
    synced: Seq<usize>,
    order: Seq<usize>,
    statuses: Seq<SyncStatus>,
    active: Seq<int>,
) -> bool {
    &&& is_pool_order(order, statuses.len())
    &&& by_preference(order, statuses, active)
    &&& synced == order.take(synced_prefix_len(order, statuses) as int)
}

/// The statuses of the first `n` upstreams.
pub open spec fn pool_statuses(heads: Seq<Option<u64>>, n: nat, allowed_lag: u64) -> Seq<
    SyncStatus,
> {
    Seq::new(n, |i: int| status_of(heads, i, allowed_lag))
}

/// The counters after one more request is in flight on an upstream.
pub open spec fn acquired(active: Seq<int>, rpc: int) -> Seq<int> {
    active.update(rpc, active[rpc] + 1)
}

/// The counters after one admission on an upstream was given back.
pub open spec fn released(active: Seq<int>, rpc: int) -> Seq<int> {
    if 0 <= rpc < active.len() {
        active.update(
            rpc,
            if active[rpc] > 0 {
                active[rpc] - 1
            } else {
                0
            },
        )
    } else {
        active
    }
}

/// Giving back an admission undoes it: the counters are what they were
/// before the request was let in.
pub proof fn lemma_release_undoes_acquire(active: Seq<int>, rpc: int)
    requires
        0 <= rpc < active.len(),
        active[rpc] >= 0,
    ensures
        released(acquired(active, rpc), rpc) == active,
{
    assert(released(acquired(active, rpc), rpc) =~= active);
}

/// The counters after the synced upstreams were asked in order, given which
/// of them let the request in.
pub open spec fn acquired_all(active: Seq<int>, synced: Seq<usize>, outcomes: Seq<bool>) -> Seq<int>
    decreases synced.len(),
{
    if synced.len() == 0 || outcomes.len() != synced.len() {
        active
    } else {
        let rest = acquired_all(active, synced.drop_last(), outcomes.drop_last());
        if outcomes.last() {
            acquired(rest, synced.last() as int)
        } else {
            rest
        }
    }
}

/// The upstreams that let the request in, in the order in which they were
/// asked.
pub open spec fn admitted_rpcs(synced: Seq<usize>, outcomes: Seq<bool>) -> Seq<usize>
    decreases synced.len(),
{
    if synced.len() == 0 || outcomes.len() != synced.len() {
        Seq::empty()
    } else {
        let rest = admitted_rpcs(synced.drop_last(), outcomes.drop_last());
        if outcomes.last() {
            rest.push(synced.last())
        } else {
            rest
        }
    }
}

/// The earlier of the refusals seen so far and a new one; the one seen first
/// stays where both name the same instant.
pub open spec fn earlier(seen: Option<NotUntil>, new: NotUntil) -> NotUntil {
    match seen {
        None => new,
        Some(s) => if s.earliest_nanos > new.earliest_nanos {
            new
        } else {
            s
        },
    }
}

/// The earliest of a run of refusals, the first of those that name the same
/// instant; none where nothing refused.
pub open spec fn earliest_of(refusals: Seq<NotUntil>) -> Option<NotUntil>
    decreases refusals.len(),
{
    if refusals.len() == 0 {
        None
    } else {
        Some(earlier(earliest_of(refusals.drop_last()), refusals.last()))
    }
}

/// Whether a refusal is the earliest of some run of `n` refusals.
pub open spec fn is_earliest_of_run(earliest: Option<NotUntil>, n: nat) -> bool {
    exists|refusals: Seq<NotUntil>|
        refusals.len() == n && #[trigger] earliest_of(refusals) == earliest
}

/// No refusal of a run is earlier than its earliest, and the earliest is one
/// of the run.
pub proof fn lemma_earliest_of(refusals: Seq<NotUntil>)
    ensures
        earliest_of(refusals).is_none() <==> refusals.len() == 0,
        refusals.len() > 0 ==> refusals.contains(earliest_of(refusals).unwrap()),
        forall|i: int|
            0 <= i < refusals.len() ==> earliest_of(refusals).unwrap().earliest_nanos
                <= (#[trigger] refusals[i]).earliest_nanos,
    decreases refusals.len(),
{
    if refusals.len() > 0 {
        let rest = refusals.drop_last();
        lemma_earliest_of(rest);
        let e = earliest_of(refusals).unwrap();
        if e == refusals.last() {
            assert(refusals[refusals.len() - 1] == e);
        } else {
            let k = choose|k: int| 0 <= k < rest.len() && rest[k] == e;
            assert(refusals[k] == e);
        }
        assert forall|i: int| 0 <= i < refusals.len() implies e.earliest_nanos <= (
        #[trigger] refusals[i]).earliest_nanos by {
            if i < rest.len() {
                assert(rest[i] == refusals[i]);
            }
        }
    }
}

/// The counters after the admissions on the listed upstreams were given
/// back, the last of the list first.
pub open spec fn released_all(active: Seq<int>, rpcs: Seq<usize>) -> Seq<int>
    decreases rpcs.len(),
{
    if rpcs.len() == 0 {
        active
    } else {
        released_all(released(active, rpcs.last() as int), rpcs.drop_last())
    }
}

/// Asking the eligible upstreams changes no counter but those of upstreams
/// that admitted, and giving back every admission undoes them all: the
/// counters are what they were before the upstreams were asked.
pub proof fn lemma_release_all_undoes_acquire_all(
    active: Seq<int>,
    synced: Seq<usize>,
    outcomes: Seq<bool>,
)
    requires
        outcomes.len() == synced.len(),
        forall|k: int| 0 <= k < synced.len() ==> (#[trigger] synced[k]) < active.len(),
        forall|i: int| 0 <= i < active.len() ==> (#[trigger] active[i]) >= 0,
    ensures
        acquired_all(active, synced, outcomes).len() == active.len(),
        forall|i: int|
            0 <= i < active.len() ==> (#[trigger] acquired_all(active, synced, outcomes)[i])
                >= active[i],
        released_all(
            acquired_all(active, synced, outcomes),
            admitted_rpcs(synced, outcomes),
        ) == active,
    decreases synced.len(),
{
    if synced.len() > 0 {
        let s = synced.drop_last();
        let o = outcomes.drop_last();
        assert forall|k: int| 0 <= k < s.len() implies (#[trigger] s[k]) < active.len() by {
            assert(s[k] == synced[k]);
        }
        lemma_release_all_undoes_acquire_all(active, s, o);
        let rest = acquired_all(active, s, o);
        let x = synced[synced.len() - 1];
        if outcomes.last() {
            let all = acquired_all(active, synced, outcomes);
            let admitted = admitted_rpcs(synced, outcomes);
            assert(all == acquired(rest, x as int));
            assert(rest[x as int] >= 0);
            lemma_release_undoes_acquire(rest, x as int);
            assert(admitted.last() == x);
            assert(admitted.drop_last() =~= admitted_rpcs(s, o));
        }
    }
}

/// The earlier of the refusals seen so far and a new one; the one seen first
/// stays where both name the same instant.
pub fn earlier_of(seen: Option<NotUntil>, new: NotUntil) -> (r: NotUntil)
    ensures
        r == earlier(seen, new),
{
    match seen {
        None => new,
        Some(s) => {
            if s.earliest_possible() > new.earliest_possible() {
                new
            } else {
                s
            }
        },
    }
}

/// Whether the first upstream is strictly preferred to the second.
pub fn is_preferred(a: SyncStatus, a_active: u64, b: SyncStatus, b_active: u64) -> (r: bool)
    ensures
        r == preferred(a, a_active as int, b, b_active as int),
{
    let (a_rank, a_head): (u8, u64) = match a {
        SyncStatus::Synced(n) => (0, n),
        SyncStatus::Behind(n) => (1, n),
        SyncStatus::Unknown => (2, 0),
    };
    let (b_rank, b_head): (u8, u64) = match b {
        SyncStatus::Synced(n) => (0, n),
        SyncStatus::Behind(n) => (1, n),
        SyncStatus::Unknown => (2, 0),
    };
    a_rank < b_rank || (a_rank == b_rank && (a_head > b_head || (a_head == b_head && a_active
        < b_active)))
}

/// Orders the upstreams of a pool by preference. Upstreams of equal
/// preference keep their pool order.
pub fn sort_by_preference(statuses: &Vec<SyncStatus>, active: &Vec<u64>) -> (order: Vec<usize>)
    requires
        statuses@.len() == active@.len(),
    ensures
        is_pool_order(order@, statuses@.len()),
        by_preference(order@, statuses@, active@.map_values(|a: u64| a as int)),
{
    let n: usize = statuses.len();
    let ghost counts = active@.map_values(|a: u64| a as int);
    let mut order: Vec<usize> = Vec::new();
    let mut i: usize = 0;
    while i < n
        invariant
            n == statuses@.len(),
            n == active@.len(),
            counts == active@.map_values(|a: u64| a as int),
            i <= n,
            order@.len() == i,
            forall|k: int| 0 <= k < order@.len() ==> (#[trigger] order@[k]) < i,
            forall|a: int, b: int|
                #![trigger order@[a], order@[b]]
                0 <= a < b < order@.len() ==> order@[a] != order@[b],
            forall|v: usize| v < i ==> #[trigger] order@.contains(v),
            by_preference(order@, statuses@, counts),
        decreases n - i,
    {
        let mut p: usize = 0;
        while p < order.len() && !is_preferred(
            statuses[i],
            active[i],
            statuses[order[p]],
            active[order[p]],
        )
            invariant
                n == statuses@.len(),
                n == active@.len(),
                counts == active@.map_values(|a: u64| a as int),
                i < n,
                p <= order@.len(),
                forall|k: int| 0 <= k < order@.len() ==> (#[trigger] order@[k]) < i,
                forall|k: int|
                    0 <= k < p ==> !preferred(
                        statuses@[i as int],
                        counts[i as int],
                        statuses@[(#[trigger] order@[k]) as int],
                        counts[order@[k] as int],
                    ),
            decreases order@.len() - p,
        {
            p = p + 1;
        }
        let ghost before = order@;
        order.insert(p, i);
        proof {
            assert forall|v: usize| v < i + 1 implies #[trigger] order@.contains(v) by {
                if v == i {
                    assert(order@[p as int] == v);
                } else {
                    assert(before.contains(v));
                    let k0 = choose|k: int| 0 <= k < before.len() && before[k] == v;
                    if k0 < p {
                        assert(order@[k0] == v);
                    } else {
                        assert(order@[k0 + 1] == v);
                    }
                }
            }
            assert forall|a: int, b: int| 0 <= a < b < order@.len() implies !preferred(
                statuses@[(#[trigger] order@[b]) as int],
                counts[order@[b] as int],
                statuses@[(#[trigger] order@[a]) as int],
                counts[order@[a] as int],
            ) by {
                if b == p {
                    assert(order@[a] == before[a]);
                } else if a == p {
                    assert(order@[b] == before[b - 1]);
                    if p < before.len() {
                        assert(p == b - 1 || !preferred(
                            statuses@[before[b - 1] as int],
                            counts[before[b - 1] as int],
                            statuses@[before[p as int] as int],
                            counts[before[p as int] as int],
                        ));
                    }
                } else {
                    let a0 = if a < p {
                        a
                    } else {
                        a - 1
                    };
                    let b0 = if b < p {
                        b
                    } else {
                        b - 1
                    };
                    assert(order@[a] == before[a0] && order@[b] == before[b0]);
                }
            }
            assert forall|a: int, b: int| 0 <= a < b < order@.len() implies (#[trigger] order@[a])
                != (#[trigger] order@[b]) by {
                let a0 = if a < p {
                    a
                } else {
                    a - 1
                };
                let b0 = if b < p {
                    b
                } else {
                    b - 1
                };
                if a != p && b != p {
                    assert(order@[a] == before[a0] && order@[b] == before[b0]);
                } else if a == p {
                    assert(order@[b] == before[b0]);
                } else {
                    assert(order@[a] == before[a0]);
                }
            }
        }
        i = i + 1;
    }
    order
}

/// The synced prefix of an order ends at the first upstream that is not
/// synced.
pub proof fn lemma_synced_prefix_len(order: Seq<usize>, statuses: Seq<SyncStatus>, m: nat)
    requires
        m <= order.len(),
        forall|k: int| 0 <= k < m ==> statuses[(#[trigger] order[k]) as int] is Synced,
        m < order.len() ==> !(statuses[order[m as int] as int] is Synced),
    ensures
        synced_prefix_len(order, statuses) == m,
    decreases m,
{
    if m > 0 {
        let rest = order.skip(1);
        assert(statuses[order[0] as int] is Synced);
        assert forall|k: int| 0 <= k < m - 1 implies statuses[(#[trigger] rest[k]) as int] is Synced by {
            assert(rest[k] == order[k + 1]);
        }
        if m < order.len() {
            assert(rest[m - 1] == order[m as int]);
        }
        lemma_synced_prefix_len(rest, statuses, (m - 1) as nat);
    }
}

/// Load balances over a pool of upstreams.
pub struct Web3ProviderTier {
    synced_rpcs: Vec<usize>,
    rpcs: Vec<String>,
    connections: Vec<Web3Connection>,
}

impl Web3ProviderTier {
    /// The names of the upstreams, in pool order.
    pub closed spec fn names(&self) -> Seq<Seq<char>> {
        Seq::new(self.rpcs@.len(), |i: int| self.rpcs@[i]@)
    }

    /// The hard limits of the upstreams, in pool order.
    pub closed spec fn hard_limits(&self) -> Seq<u32> {
        Seq::new(self.connections@.len(), |i: int| self.connections@[i].hard_limit())
    }

    /// The requests in flight on each upstream, in pool order.
    pub closed spec fn active_counts(&self) -> Seq<int> {
        Seq::new(self.connections@.len(), |i: int| self.connections@[i].active_requests() as int)
    }

    /// The upstreams that are eligible to serve, by preference, each named
    /// by its position in the pool.
    pub closed spec fn synced(&self) -> Seq<usize> {
        self.synced_rpcs@
    }

    pub closed spec fn wf(&self) -> bool {
        &&& self.rpcs@.len() == self.connections@.len()
        &&& forall|i: int|
            0 <= i < self.connections@.len() ==> (#[trigger] self.connections@[i]).wf()
                && self.connections@[i].name() == self.rpcs@[i]@
                && self.connections@[i].soft_limit() == self.connections@[i].hard_limit()
        &&& forall|k: int|
            0 <= k < self.synced_rpcs@.len() ==> (#[trigger] self.synced_rpcs@[k])
                < self.connections@.len()
    }

    /// The pool has one name, one limit and one counter for each upstream,
    /// no counter is negative, and the eligible upstreams are of the pool.
    pub proof fn lemma_wf_shape(&self)
        requires
            self.wf(),
        ensures
            self.hard_limits().len() == self.names().len(),
            self.active_counts().len() == self.names().len(),
            forall|i: int| 0 <= i < self.active_counts().len() ==> 0 <= #[trigger] self.active_counts()[i] <= u64::MAX,
            forall|k: int| 0 <= k < self.synced().len() ==> (#[trigger] self.synced()[k]) < self.names().len(),
    {
    }

    /// A tier over the given servers, each a name with its hard limit in
    /// requests per second, where zero is unlimited. The soft limit of each
    /// is its hard limit. No upstream is eligible before the first update.
    pub fn try_new(servers: Vec<(String, u32)>, clock: &PoolClock) -> (r: Web3ProviderTier)
        ensures
            r.wf(),
            r.names() == Seq::new(servers@.len(), |i: int| servers@[i].0@),
            r.hard_limits() == Seq::new(servers@.len(), |i: int| servers@[i].1),
            r.active_counts() == Seq::new(servers@.len(), |i: int| 0int),
            r.synced() == Seq::<usize>::empty(),
    {
        let mut rpcs: Vec<String> = Vec::new();
        let mut connections: Vec<Web3Connection> = Vec::new();
        let mut i: usize = 0;
        while i < servers.len()
            invariant
                i <= servers@.len(),
                rpcs@.len() == i,
                connections@.len() == i,
                forall|k: int|
                    0 <= k < i ==> (#[trigger] connections@[k]).wf() && connections@[k].name()
                        == rpcs@[k]@ && connections@[k].hard_limit() == servers@[k].1
                        && connections@[k].soft_limit() == servers@[k].1
                        && connections@[k].active_requests() == 0,
                forall|k: int| 0 <= k < i ==> (#[trigger] rpcs@[k])@ == servers@[k].0@,
            decreases servers@.len() - i,
        {
            let name: String = servers[i].0.clone();
            let limit: u32 = servers[i].1;
            let connection = Web3Connection::new(name.clone(), limit, limit, clock);
            rpcs.push(name);
            connections.push(connection);
            i = i + 1;
        }
        let r = Web3ProviderTier { synced_rpcs: Vec::new(), rpcs, connections };
        assert(r.names() =~= Seq::new(servers@.len(), |i: int| servers@[i].0@));
        assert(r.hard_limits() =~= Seq::new(servers@.len(), |i: int| servers@[i].1));
        assert(r.active_counts() =~= Seq::new(servers@.len(), |i: int| 0int));
        assert(r.synced() =~= Seq::<usize>::empty());
        r
    }

    /// The upstreams of the pool.
    pub fn clone_connections(&self) -> (r: &Vec<Web3Connection>)
        requires
            self.wf(),
        ensures
            r@.len() == self.names().len(),
            forall|i: int|
                0 <= i < r@.len() ==> (#[trigger] r@[i]).name() == self.names()[i] && r@[i].wf()
                    && r@[i].hard_limit() == self.hard_limits()[i] && r@[i].soft_limit()
                    == self.hard_limits()[i] && r@[i].active_requests() == self.active_counts()[i],
    {
        &self.connections
    }

    /// The names of the upstreams, in pool order.
    pub fn clone_rpcs(&self) -> (r: Vec<String>)
        ensures
            r@.len() == self.names().len(),
            forall|i: int| 0 <= i < r@.len() ==> (#[trigger] r@[i])@ == self.names()[i],
    {
        let mut out: Vec<String> = Vec::new();
        let mut i: usize = 0;
        while i < self.rpcs.len()
            invariant
                i <= self.rpcs@.len(),
                out@.len() == i,
                forall|k: int| 0 <= k < i ==> (#[trigger] out@[k])@ == self.rpcs@[k]@,
            decreases self.rpcs@.len() - i,
        {
            out.push(self.rpcs[i].clone());
            i = i + 1;
        }
        out
    }

    /// The eligible upstreams, by preference.
    pub fn synced_rpcs(&self) -> (r: &Vec<usize>)
        ensures
            r@ == self.synced(),
    {
        &self.synced_rpcs
    }

    /// The position in the pool of the first upstream of a name.
    pub fn rpc_index(&self, name: &String) -> (r: Option<usize>)
        ensures
            match r {
                Some(i) => i < self.names().len() && self.names()[i as int] == name@ && forall|
                    k: int,
                | 0 <= k < i ==> #[trigger] self.names()[k] != name@,
                None => forall|k: int|
                    0 <= k < self.names().len() ==> #[trigger] self.names()[k] != name@,
            },
    {
        let mut i: usize = 0;
        while i < self.rpcs.len()
            invariant
                i <= self.rpcs@.len(),
                forall|k: int| 0 <= k < i ==> #[trigger] self.names()[k] != name@,
            decreases self.rpcs@.len() - i,
        {
            if self.rpcs[i] == *name {
                return Some(i);
            }
            i = i + 1;
        }
        None
    }

    /// Works out anew which upstreams are eligible: the pool is ordered by
    /// preference, and the upstreams before the first that is not synced
    /// are kept.
    pub fn update_synced_rpcs(&mut self, block_watcher: &BlockWatcher, allowed_lag: u64) -> (r:
        Result<(), Web3ProxyError>)
        requires
            old(self).wf(),
        ensures
            final(self).wf(),
            r.is_ok(),
            final(self).names() == old(self).names(),
            final(self).hard_limits() == old(self).hard_limits(),
            final(self).active_counts() == old(self).active_counts(),
            exists|order: Seq<usize>| #[trigger]
                is_synced_prefix_of(
                    final(self).synced(),
                    order,
                    pool_statuses(block_watcher.heads(), old(self).names().len(), allowed_lag),
                    old(self).active_counts(),
                ),
            forall|k: int|
                0 <= k < final(self).synced().len() ==> status_of(
                    block_watcher.heads(),
                    (#[trigger] final(self).synced()[k]) as int,
                    allowed_lag,
                ) is Synced,
            forall|i: usize|
                i < old(self).names().len() && status_of(
                    block_watcher.heads(),
                    i as int,
                    allowed_lag,
                ) is Synced ==> #[trigger] final(self).synced().contains(i),
    {
        let n: usize = self.rpcs.len();
        let mut statuses: Vec<SyncStatus> = Vec::new();
        let mut active: Vec<u64> = Vec::new();
        let mut i: usize = 0;
        while i < n
            invariant
                self.wf(),
                n == self.rpcs@.len(),
                i <= n,
                statuses@.len() == i,
                active@.len() == i,
                forall|k: int|
                    0 <= k < i ==> #[trigger] statuses@[k] == status_of(
                        block_watcher.heads(),
                        k,
                        allowed_lag,
                    ),
                forall|k: int|
                    0 <= k < i ==> #[trigger] active@[k] == self.connections@[k].active_requests(),
            decreases n - i,
        {
            statuses.push(block_watcher.sync_status(i, allowed_lag));
            active.push(self.connections[i].get_active_requests());
            i = i + 1;
        }
        let ghost pool = pool_statuses(block_watcher.heads(), n as nat, allowed_lag);
        assert(statuses@ =~= pool);
        assert(active@.map_values(|a: u64| a as int) =~= self.active_counts());
        let order = sort_by_preference(&statuses, &active);
        let mut synced: Vec<usize> = Vec::new();
        let mut m: usize = 0;
        while m < order.len() && is_synced(&statuses[order[m]])
            invariant
                is_pool_order(order@, n as nat),
                statuses@.len() == n,
                m <= order@.len(),
                synced@ == order@.take(m as int),
                forall|k: int| 0 <= k < m ==> statuses@[(#[trigger] order@[k]) as int] is Synced,
            decreases order@.len() - m,
        {
            synced.push(order[m]);
            m = m + 1;
            assert(synced@ =~= order@.take(m as int));
        }
        proof {
            lemma_synced_prefix_len(order@, statuses@, m as nat);
            assert forall|i: usize| i < n && status_of(
                block_watcher.heads(),
                i as int,
                allowed_lag,
            ) is Synced implies #[trigger] synced@.contains(i) by {
                assert(order@.contains(i));
                let j = choose|j: int| 0 <= j < order@.len() && order@[j] == i;
                assert(statuses@[i as int] is Synced);
                if j >= m {
                    assert(m < order@.len());
                    assert(!(statuses@[order@[m as int] as int] is Synced));
                    assert(j > m);
                    assert(!preferred(
                        statuses@[order@[j] as int],
                        self.active_counts()[order@[j] as int],
                        statuses@[order@[m as int] as int],
                        self.active_counts()[order@[m as int] as int],
                    ));
                    assert(false);
                }
                assert(synced@[j] == i);
            }
            assert forall|k: int| 0 <= k < synced@.len() implies status_of(
                block_watcher.heads(),
                (#[trigger] synced@[k]) as int,
                allowed_lag,
            ) is Synced by {
                assert(synced@[k] == order@[k]);
                assert(statuses@[order@[k] as int] is Synced);
            }
        }
        self.synced_rpcs = synced;
        assert(self.names() =~= old(self).names());
        assert(self.hard_limits() =~= old(self).hard_limits());
        assert(self.active_counts() =~= old(self).active_counts());
        assert(is_synced_prefix_of(self.synced(), order@, pool, old(self).active_counts()));
        Ok(())
    }

    /// Gives back one admission on an upstream.
    pub fn release(&mut self, rpc: usize)
        requires
            old(self).wf(),
        ensures
            final(self).wf(),
            final(self).names() == old(self).names(),
            final(self).hard_limits() == old(self).hard_limits(),
            final(self).synced() == old(self).synced(),
            final(self).active_counts() == released(old(self).active_counts(), rpc as int),
    {
        if rpc < self.connections.len() {
            self.connections[rpc].release();
        }
        assert(self.names() =~= old(self).names());
        assert(self.hard_limits() =~= old(self).hard_limits());
        assert(self.active_counts() =~= released(old(self).active_counts(), rpc as int));
    }
}

/// The earliest of the refusals, the first of those that name the same
/// instant; none where there is no refusal.
pub fn earliest_refusal(refusals: &Vec<NotUntil>) -> (r: Option<NotUntil>)
    ensures
        r == earliest_of(refusals@),
{
    let mut earliest: Option<NotUntil> = None;
    let mut i: usize = 0;
    while i < refusals.len()
        invariant
            i <= refusals@.len(),
            earliest == earliest_of(refusals@.take(i as int)),
        decreases refusals@.len() - i,
    {
        proof {
            assert(refusals@.take(i + 1).drop_last() =~= refusals@.take(i as int));
        }
        earliest = Some(earlier_of(earliest, refusals[i]));
        i = i + 1;
    }
    assert(refusals@.take(i as int) =~= refusals@);
    earliest
}

impl Web3ProviderTier {
    /// Picks the best upstream that admits a request, by its position in
    /// the pool: the eligible upstreams are asked in order of preference and
    /// the first that lets the request in is returned, with one more request
    /// counted on it; giving that admission back restores the counters. An
    /// upstream without hard limit never refuses, so no upstream behind it
    /// is asked. Where every upstream refuses, nothing is counted and the
    /// earliest of their refusals is returned; where none is eligible, no
    /// refusal is.
    pub fn next_upstream_index(&mut self) -> (r: Result<usize, Option<NotUntil>>)
        requires
            old(self).wf(),
            old(self).synced().len() > 0 ==> forall|i: int|
                0 <= i < old(self).active_counts().len() ==> #[trigger] old(self).active_counts()[i]
                    < u64::MAX,
        ensures
            final(self).wf(),
            final(self).names() == old(self).names(),
            final(self).hard_limits() == old(self).hard_limits(),
            final(self).synced() == old(self).synced(),
            match r {
                Ok(rpc) => {
                    &&& rpc < old(self).names().len()
                    &&& final(self).active_counts() == acquired(
                        old(self).active_counts(),
                        rpc as int,
                    )
                    &&& released(final(self).active_counts(), rpc as int) == old(self).active_counts()
                    &&& exists|k: int|
                        {
                            &&& 0 <= k < old(self).synced().len()
                            &&& (#[trigger] old(self).synced()[k]) == rpc
                            &&& forall|j: int|
                                0 <= j < k ==> old(self).hard_limits()[(#[trigger] old(self).synced()[j]) as int] > 0
                        }
                },
                Err(earliest) => {
                    &&& final(self).active_counts() == old(self).active_counts()
                    &&& earliest.is_none() <==> old(self).synced().len() == 0
                    &&& is_earliest_of_run(earliest, old(self).synced().len())
                    &&& forall|j: int|
                        0 <= j < old(self).synced().len() ==> old(self).hard_limits()[(
                        #[trigger] old(self).synced()[j]) as int] > 0
                },
            },
    {
        let mut refusals: Vec<NotUntil> = Vec::new();
        let mut k: usize = 0;
        while k < self.synced_rpcs.len()
            invariant
                self.wf(),
                self.rpcs@ == old(self).rpcs@,
                self.synced_rpcs@ == old(self).synced_rpcs@,
                self.connections@.len() == old(self).connections@.len(),
                self.hard_limits() == old(self).hard_limits(),
                self.active_counts() == old(self).active_counts(),
                self.synced_rpcs@.len() > 0 ==> forall|i: int|
                    0 <= i < self.active_counts().len() ==> #[trigger] self.active_counts()[i]
                        < u64::MAX,
                k <= self.synced_rpcs@.len(),
                refusals@.len() == k,
                forall|j: int|
                    0 <= j < k ==> self.hard_limits()[(#[trigger] self.synced_rpcs@[j]) as int] > 0,
            decreases self.synced_rpcs@.len() - k,
        {
            let i: usize = self.synced_rpcs[k];
            let ghost before = self.active_counts();
            assert(before[i as int] < u64::MAX);
            assert(self.hard_limits()[i as int] == self.connections@[i as int].hard_limit());
            match self.connections[i].try_inc_active_requests() {
                Ok(()) => {
                    proof {
                        assert(self.names() =~= old(self).names());
                        assert(self.hard_limits() =~= old(self).hard_limits());
                        assert(self.active_counts() =~= acquired(before, i as int));
                        assert(old(self).synced()[k as int] == i);
                        lemma_release_undoes_acquire(before, i as int);
                    }
                    return Ok(i);
                },
                Err(not_until) => {
                    refusals.push(not_until);
                    proof {
                        assert(self.hard_limits() =~= old(self).hard_limits());
                        assert(self.active_counts() =~= before);
                    }
                },
            }
            k = k + 1;
        }
        let earliest = earliest_refusal(&refusals);
        proof {
            assert(self.names() =~= old(self).names());
            lemma_earliest_of(refusals@);
            assert(earliest_of(refusals@) == earliest);
        }
        Err(earliest)
    }

    /// Picks the best upstream that admits a request, by its name: see
    /// `next_upstream_index`.
    pub fn next_upstream_server(&mut self) -> (r: Result<String, Option<NotUntil>>)
        requires
            old(self).wf(),
            old(self).synced().len() > 0 ==> forall|i: int|
                0 <= i < old(self).active_counts().len() ==> #[trigger] old(self).active_counts()[i]
                    < u64::MAX,
        ensures
            final(self).wf(),
            final(self).names() == old(self).names(),
            final(self).hard_limits() == old(self).hard_limits(),
            final(self).synced() == old(self).synced(),
            match r {
                Ok(name) => exists|k: int|
                    {
                        &&& 0 <= k < old(self).synced().len()
                        &&& name@ == old(self).names()[(#[trigger] old(self).synced()[k]) as int]
                        &&& final(self).active_counts() == acquired(
                            old(self).active_counts(),
                            old(self).synced()[k] as int,
                        )
                        &&& forall|j: int|
                            0 <= j < k ==> old(self).hard_limits()[(#[trigger] old(self).synced()[j]) as int] > 0
                    },
                Err(earliest) => {
                    &&& final(self).active_counts() == old(self).active_counts()
                    &&& earliest.is_none() <==> old(self).synced().len() == 0
                    &&& is_earliest_of_run(earliest, old(self).synced().len())
                    &&& forall|j: int|
                        0 <= j < old(self).synced().len() ==> old(self).hard_limits()[(
                        #[trigger] old(self).synced()[j]) as int] > 0
                },
            },
    {
        match self.next_upstream_index() {
            Ok(rpc) => Ok(self.rpcs[rpc].clone()),
            Err(earliest) => Err(earliest),
        }
    }

    /// Picks every upstream that admits a request, by position in the pool:
    /// each eligible upstream is asked once, in order of preference, and one
    /// more request is counted on each that lets the request in. Their
    /// positions are returned in that order; giving every one of these
    /// admissions back restores the counters. An upstream without hard limit
    /// never refuses. Where every upstream refuses, the earliest of their
    /// refusals is returned; where none is eligible, no refusal is.
    pub fn get_upstream_indices(&mut self) -> (r: Result<Vec<usize>, Option<NotUntil>>)
        requires
            old(self).wf(),
            old(self).counters_have_room(),
        ensures
            final(self).wf(),
            final(self).names() == old(self).names(),
            final(self).hard_limits() == old(self).hard_limits(),
            final(self).synced() == old(self).synced(),
            exists|outcomes: Seq<bool>|
                {
                    &&& outcomes.len() == old(self).synced().len()
                    &&& forall|j: int|
                        0 <= j < outcomes.len() && old(self).hard_limits()[old(self).synced()[j] as int] == 0 ==> #[trigger] outcomes[j]
                    &&& final(self).active_counts() == acquired_all(
                        old(self).active_counts(),
                        old(self).synced(),
                        outcomes,
                    )
                    &&& #[trigger] indices_match(r, admitted_rpcs(old(self).synced(), outcomes))
                },
            match r {
                Ok(admitted) => released_all(final(self).active_counts(), admitted@) == old(self).active_counts(),
                Err(earliest) => {
                    &&& final(self).active_counts() == old(self).active_counts()
                    &&& earliest.is_none() <==> old(self).synced().len() == 0
                    &&& is_earliest_of_run(earliest, old(self).synced().len())
                },
            },
    {
        let mut refusals: Vec<NotUntil> = Vec::new();
        let mut selected_rpcs: Vec<usize> = Vec::new();
        let ghost mut outcomes: Seq<bool> = Seq::empty();
        let mut k: usize = 0;
        while k < self.synced_rpcs.len()
            invariant
                self.wf(),
                self.rpcs@ == old(self).rpcs@,
                self.synced_rpcs@ == old(self).synced_rpcs@,
                self.connections@.len() == old(self).connections@.len(),
                self.hard_limits() == old(self).hard_limits(),
                k <= self.synced_rpcs@.len(),
                outcomes.len() == k,
                forall|j: int|
                    0 <= j < k && self.hard_limits()[self.synced_rpcs@[j] as int] == 0
                        ==> #[trigger] outcomes[j],
                self.active_counts() == acquired_all(
                    old(self).active_counts(),
                    self.synced_rpcs@.take(k as int),
                    outcomes,
                ),
                forall|i: int|
                    0 <= i < self.active_counts().len() ==> #[trigger] self.active_counts()[i]
                        <= old(self).active_counts()[i] + k,
                forall|i: int|
                    0 <= i < old(self).active_counts().len() ==> #[trigger] old(self).active_counts()[i] + old(self).synced_rpcs@.len() <= u64::MAX,
                selected_rpcs@ == admitted_rpcs(self.synced_rpcs@.take(k as int), outcomes),
                selected_rpcs@.len() + refusals@.len() == k,
                selected_rpcs@.len() == 0 ==> self.active_counts() == old(self).active_counts(),
            decreases self.synced_rpcs@.len() - k,
        {
            let i: usize = self.synced_rpcs[k];
            let ghost before = self.active_counts();
            let ghost names = self.names();
            assert(before[i as int] <= old(self).active_counts()[i as int] + k);
            assert(self.hard_limits()[i as int] == self.connections@[i as int].hard_limit());
            let outcome = self.connections[i].try_inc_active_requests();
            proof {
                assert(self.synced_rpcs@.take(k + 1).drop_last() =~= self.synced_rpcs@.take(
                    k as int,
                ));
                assert(outcomes.push(outcome.is_ok()).drop_last() =~= outcomes);
                assert(self.names() =~= names);
                assert(self.hard_limits() =~= old(self).hard_limits());
                outcomes = outcomes.push(outcome.is_ok());
            }
            match outcome {
                Ok(()) => {
                    proof {
                        assert(self.active_counts() =~= acquired(before, i as int));
                    }
                    selected_rpcs.push(i);
                },
                Err(not_until) => {
                    proof {
                        assert(self.active_counts() =~= before);
                    }
                    refusals.push(not_until);
                },
            }
            k = k + 1;
        }
        proof {
            assert(self.synced_rpcs@.take(k as int) =~= self.synced_rpcs@);
            assert(self.names() =~= old(self).names());
            old(self).lemma_wf_shape();
            lemma_release_all_undoes_acquire_all(
                old(self).active_counts(),
                old(self).synced(),
                outcomes,
            );
        }
        if selected_rpcs.len() > 0 {
            let r = Ok(selected_rpcs);
            assert(indices_match(r, admitted_rpcs(old(self).synced(), outcomes)));
            return r;
        }
        let earliest = earliest_refusal(&refusals);
        proof {
            lemma_earliest_of(refusals@);
            assert(earliest_of(refusals@) == earliest);
        }
        let r = Err(earliest);
        assert(indices_match(r, admitted_rpcs(old(self).synced(), outcomes)));
        r
    }

    /// Picks every upstream that admits a request, by name: see
    /// `get_upstream_indices`.
    pub fn get_upstream_servers(&mut self) -> (r: Result<Vec<String>, Option<NotUntil>>)
        requires
            old(self).wf(),
            old(self).counters_have_room(),
        ensures
            final(self).wf(),
            final(self).names() == old(self).names(),
            final(self).hard_limits() == old(self).hard_limits(),
            final(self).synced() == old(self).synced(),
            exists|outcomes: Seq<bool>|
                {
                    &&& outcomes.len() == old(self).synced().len()
                    &&& forall|j: int|
                        0 <= j < outcomes.len() && old(self).hard_limits()[old(self).synced()[j] as int] == 0 ==> #[trigger] outcomes[j]
                    &&& final(self).active_counts() == acquired_all(
                        old(self).active_counts(),
                        old(self).synced(),
                        outcomes,
                    )
                    &&& #[trigger] names_match(
                        r,
                        admitted_rpcs(old(self).synced(), outcomes),
                        old(self).names(),
                    )
                },
            r.is_err() ==> final(self).active_counts() == old(self).active_counts(),
            r.is_err() ==> (r.unwrap_err().is_none() <==> old(self).synced().len() == 0),
            r.is_err() ==> is_earliest_of_run(r.unwrap_err(), old(self).synced().len()),
    {
        let ghost synced = self.synced();
        let ghost names = self.names();
        match self.get_upstream_indices() {
            Err(earliest) => {
                let r = Err(earliest);
                proof {
                    let outcomes = choose|outcomes: Seq<bool>|
                        {
                            &&& outcomes.len() == synced.len()
                            &&& forall|j: int|
                                0 <= j < outcomes.len() && old(self).hard_limits()[synced[j] as int]
                                    == 0 ==> #[trigger] outcomes[j]
                            &&& self.active_counts() == acquired_all(
                                old(self).active_counts(),
                                synced,
                                outcomes,
                            )
                            &&& #[trigger] indices_match(
                                Err::<Vec<usize>, Option<NotUntil>>(earliest),
                                admitted_rpcs(synced, outcomes),
                            )
                        };
                    assert(names_match(r, admitted_rpcs(synced, outcomes), names));
                }
                r
            },
            Ok(admitted) => {
                let mut selected: Vec<String> = Vec::new();
                let mut j: usize = 0;
                proof {
                    self.lemma_wf_shape();
                }
                let ghost outcomes = choose|outcomes: Seq<bool>|
                    {
                        &&& outcomes.len() == synced.len()
                        &&& forall|j: int|
                            0 <= j < outcomes.len() && old(self).hard_limits()[synced[j] as int]
                                == 0 ==> #[trigger] outcomes[j]
                        &&& self.active_counts() == acquired_all(
                            old(self).active_counts(),
                            synced,
                            outcomes,
                        )
                        &&& #[trigger] indices_match(
                            Ok::<Vec<usize>, Option<NotUntil>>(admitted),
                            admitted_rpcs(synced, outcomes),
                        )
                    };
                proof {
                    lemma_admitted_are_synced(synced, outcomes);
                }
                while j < admitted.len()
                    invariant
                        self.wf(),
                        self.names() == names,
                        j <= admitted@.len(),
                        selected@.len() == j,
                        forall|k: int|
                            0 <= k < admitted@.len() ==> (#[trigger] admitted@[k])
                                < self.names().len(),
                        forall|k: int|
                            0 <= k < j ==> (#[trigger] selected@[k])@
                                == names[admitted@[k] as int],
                    decreases admitted@.len() - j,
                {
                    let rpc: usize = admitted[j];
                    assert(self.names()[rpc as int] == self.rpcs@[rpc as int]@);
                    selected.push(self.rpcs[rpc].clone());
                    j = j + 1;
                }
                let r = Ok(selected);
                assert(names_match(r, admitted_rpcs(synced, outcomes), names));
                r
            },
        }
    }

    /// Whether every counter has room for one admission by each eligible
    /// upstream: what the selections ask of the counters.
    pub open spec fn counters_have_room(&self) -> bool {
        forall|i: int|
            0 <= i < self.active_counts().len() ==> #[trigger] self.active_counts()[i]
                + self.synced().len() <= u64::MAX
    }

    /// Tests whether the counters have room for a selection.
    pub fn has_room(&self) -> (r: bool)
        requires
            self.wf(),
        ensures
            r == self.counters_have_room(),
    {
        let asked: usize = self.synced_rpcs.len();
        let mut i: usize = 0;
        while i < self.connections.len()
            invariant
                self.wf(),
                asked == self.synced_rpcs@.len(),
                i <= self.connections@.len(),
                forall|k: int|
                    0 <= k < i ==> #[trigger] self.active_counts()[k] + asked <= u64::MAX,
            decreases self.connections@.len() - i,
        {
            let active: u64 = self.connections[i].get_active_requests();
            assert(self.active_counts()[i as int] == active);
            if active > u64::MAX - (asked as u64) {
                return false;
            }
            i = i + 1;
        }
        true
    }

    /// Gives back the admissions on the listed upstreams, the last of the
    /// list first.
    pub fn release_all(&mut self, rpcs: &Vec<usize>)
        requires
            old(self).wf(),
        ensures
            final(self).wf(),
            final(self).names() == old(self).names(),
            final(self).hard_limits() == old(self).hard_limits(),
            final(self).synced() == old(self).synced(),
            final(self).active_counts() == released_all(old(self).active_counts(), rpcs@),
    {
        let mut left: usize = rpcs.len();
        assert(rpcs@.take(left as int) =~= rpcs@);
        while left > 0
            invariant
                self.wf(),
                self.names() == old(self).names(),
                self.hard_limits() == old(self).hard_limits(),
                self.synced() == old(self).synced(),
                left <= rpcs@.len(),
                released_all(self.active_counts(), rpcs@.take(left as int)) == released_all(
                    old(self).active_counts(),
                    rpcs@,
                ),
            decreases left,
        {
            proof {
                assert(rpcs@.take(left as int).drop_last() =~= rpcs@.take(left - 1));
                assert(rpcs@.take(left as int).last() == rpcs@[left - 1]);
            }
            left = left - 1;
            self.release(rpcs[left]);
        }
        assert(rpcs@.take(0) =~= Seq::<usize>::empty());
    }
}

/// Every admitted upstream is one of those asked.
pub proof fn lemma_admitted_are_synced(synced: Seq<usize>, outcomes: Seq<bool>)
    ensures
        forall|k: int|
            0 <= k < admitted_rpcs(synced, outcomes).len() ==> synced.contains(
                #[trigger] admitted_rpcs(synced, outcomes)[k],
            ),
    decreases synced.len(),
{
    if synced.len() > 0 && outcomes.len() == synced.len() {
        let s = synced.drop_last();
        let o = outcomes.drop_last();
        lemma_admitted_are_synced(s, o);
        let all = admitted_rpcs(synced, outcomes);
        let rest = admitted_rpcs(s, o);
        assert forall|k: int| 0 <= k < all.len() implies synced.contains(#[trigger] all[k]) by {
            if k < rest.len() {
                assert(all[k] == rest[k]);
                let i = choose|i: int| 0 <= i < s.len() && s[i] == rest[k];
                assert(synced[i] == rest[k]);
            } else {
                assert(synced[synced.len() - 1] == all[k]);
            }
        }
    }
}

/// Whether a selection by position holds exactly the admitted upstreams, in
/// order; a failed selection admitted none.
pub open spec fn indices_match(
    r: Result<Vec<usize>, Option<NotUntil>>,
    admitted: Seq<usize>,
) -> bool {
    match r {
        Ok(selected) => selected@.len() > 0 && selected@ == admitted,
        Err(_) => admitted.len() == 0,
    }
}

/// Whether a selection names exactly the admitted upstreams, in order; a
/// failed selection admitted none.
pub open spec fn names_match(
    r: Result<Vec<String>, Option<NotUntil>>,
    admitted: Seq<usize>,
    names: Seq<Seq<char>>,
) -> bool {
    match r {
        Ok(selected) => {
            &&& selected@.len() > 0
            &&& selected@.len() == admitted.len()
            &&& forall|j: int|
                0 <= j < selected@.len() ==> (#[trigger] selected@[j])@ == names[admitted[j] as int]
        },
        Err(_) => admitted.len() == 0,
    }
}

/// Whether a status is that of a synced upstream.
pub fn is_synced(status: &SyncStatus) -> (r: bool)
    ensures
        r == (*status is Synced),
{
    match status {
        SyncStatus::Synced(_) => true,
        _ => false,
    }
}

} // verus!
