//! The stats aggregator: one record per answered request, gathered per time
//! bucket and key, and handed out as rows for the store once a bucket has
//! expired.
use crate::assoc::{
    distinct_keys, key_absent, lemma_remove_keeps_distinct, lemma_to_map_absent, lemma_to_map_at,
    lemma_to_map_push, lemma_to_map_update, to_map,
};
use crate::errors::Web3ProxyError;
use crate::histogram::{highest_level, lowest_level, ProxyResponseHistograms, HIGHEST_RECORDABLE};
use vstd::multiset::Multiset;
use vstd::prelude::*;

verus! {

/// How many periods a bucket lives before it is flushed.
pub const TTL_PERIODS: u64 = 3;

pub type TimeBucketTimestamp = u64;

/// One answered request.
#[derive(Debug)]
pub struct ProxyResponseStat {
    pub rpc_key_id: u64,
    pub method: String,
    pub archive_request: bool,
    pub period_seconds: u64,
    pub period_timestamp: u64,
    pub request_bytes: u64,
    /// Zero backend requests mean that the answer came from the cache.
    pub backend_requests: u64,
    pub error_response: bool,
    pub response_bytes: u64,
    pub response_millis: u64,
}

/// A stat that is aggregated and then stored.
#[derive(Debug)]
pub enum Web3ProxyStat {
    Response(ProxyResponseStat),
}

impl From<ProxyResponseStat> for Web3ProxyStat {
    fn from(stat: ProxyResponseStat) -> (r: Web3ProxyStat) {
        Web3ProxyStat::Response(stat)
    }
}

impl vstd::std_specs::convert::FromSpecImpl<ProxyResponseStat> for Web3ProxyStat {
    open spec fn obeys_from_spec() -> bool {
        true
    }

    open spec fn from_spec(stat: ProxyResponseStat) -> Web3ProxyStat {
        Web3ProxyStat::Response(stat)
    }
}

/// The start of the period that a moment falls into.
pub open spec fn period_start(timestamp: u64, period_seconds: u64) -> int {
    (timestamp as int / period_seconds as int) * period_seconds as int
}

impl ProxyResponseStat {
    /// The record of a request that started at `start_timestamp`, in seconds
    /// since the epoch. Its bucket is the period that the start falls into.
    pub fn new(
        method: String,
        rpc_key_id: u64,
        archive_request: bool,
        backend_requests: u64,
        period_seconds: u64,
        start_timestamp: u64,
        request_bytes: u64,
        error_response: bool,
        response_bytes: u64,
        response_millis: u64,
    ) -> (r: ProxyResponseStat)
        requires
            period_seconds > 0,
        ensures
            r.rpc_key_id == rpc_key_id,
            r.method@ == method@,
            r.archive_request == archive_request,
            r.period_seconds == period_seconds,
            r.period_timestamp == period_start(start_timestamp, period_seconds),
            r.period_timestamp <= start_timestamp < r.period_timestamp + period_seconds,
            r.request_bytes == request_bytes,
            r.backend_requests == backend_requests,
            r.error_response == error_response,
            r.response_bytes == response_bytes,
            r.response_millis == response_millis,
    {
        let periods: u64 = start_timestamp / period_seconds;
        assert(periods * period_seconds <= start_timestamp < periods * period_seconds
            + period_seconds) by (nonlinear_arith)
            requires
                period_seconds > 0,
                periods == start_timestamp / period_seconds,
        ;
        let period_timestamp: u64 = periods * period_seconds;
        ProxyResponseStat {
            rpc_key_id,
            method,
            archive_request,
            period_seconds,
            period_timestamp,
            request_bytes,
            backend_requests,
            error_response,
            response_bytes,
            response_millis,
        }
    }
}

/// The key of an aggregate, as mathematics.
pub ghost struct KeyView {
    pub rpc_key_id: u64,
    pub method: Seq<char>,
    pub error_response: bool,
}

/// What the stats of one bucket are gathered by.
#[derive(Clone, Debug, Hash, PartialEq, Eq, PartialOrd, Ord)]
pub struct UserProxyResponseKey {
    pub rpc_key_id: u64,
    pub method: String,
    pub error_response: bool,
}

impl UserProxyResponseKey {
    pub open spec fn key_view(&self) -> KeyView {
        KeyView {
            rpc_key_id: self.rpc_key_id,
            method: self.method@,
            error_response: self.error_response,
        }
    }

    /// The key of a record.
    pub fn of(stat: &ProxyResponseStat) -> (r: UserProxyResponseKey)
        ensures
            r.key_view() == key_of(*stat),
    {
        UserProxyResponseKey {
            rpc_key_id: stat.rpc_key_id,
            method: stat.method.clone(),
            error_response: stat.error_response,
        }
    }

    /// Whether two keys are the same.
    pub fn same(&self, other: &UserProxyResponseKey) -> (r: bool)
        ensures
            r == (self.key_view() == other.key_view()),
    {
        self.rpc_key_id == other.rpc_key_id && self.error_response == other.error_response
            && self.method == other.method
    }
}

impl From<(u64, String, bool)> for UserProxyResponseKey {
    fn from(parts: (u64, String, bool)) -> (r: UserProxyResponseKey) {
        UserProxyResponseKey { rpc_key_id: parts.0, method: parts.1, error_response: parts.2 }
    }
}

impl vstd::std_specs::convert::FromSpecImpl<(u64, String, bool)> for UserProxyResponseKey {
    open spec fn obeys_from_spec() -> bool {
        true
    }

    open spec fn from_spec(parts: (u64, String, bool)) -> UserProxyResponseKey {
        UserProxyResponseKey { rpc_key_id: parts.0, method: parts.1, error_response: parts.2 }
    }
}

/// The key that a record is gathered under.
pub open spec fn key_of(stat: ProxyResponseStat) -> KeyView {
    KeyView {
        rpc_key_id: stat.rpc_key_id,
        method: stat.method@,
        error_response: stat.error_response,
    }
}

/// The sum of two counters as a counter: it starts again from zero where it
/// passes the highest value.
pub open spec fn wrapped_sum(a: u64, b: u64) -> u64 {
    if a + b > u64::MAX {
        (a + b - u64::MAX - 1) as u64
    } else {
        (a + b) as u64
    }
}

/// Adds to a counter; the counter wraps around.
pub fn wrapping_sum(a: u64, b: u64) -> (r: u64)
    ensures
        r == wrapped_sum(a, b),
{
    if b <= u64::MAX - a {
        a + b
    } else {
        b - (u64::MAX - a) - 1
    }
}

/// The counters and sums of an aggregate, with the bucket and the archive
/// flag that it was made with.
#[derive(Clone, Copy, Debug, PartialEq, Eq, Structural)]
pub struct AggregateCounts {
    pub period_timestamp: u64,
    pub archive_request: bool,
    pub frontend_requests: u64,
    pub backend_requests: u64,
    pub backend_retries: u64,
    pub no_servers: u64,
    pub cache_misses: u64,
    pub cache_hits: u64,
    pub sum_request_bytes: u64,
    pub sum_response_bytes: u64,
    pub sum_response_millis: u64,
}

impl AggregateCounts {
    /// The counters of an aggregate that has taken no record: all zero.
    pub open spec fn fresh(stat: ProxyResponseStat) -> AggregateCounts {
        AggregateCounts {
            period_timestamp: stat.period_timestamp,
            archive_request: stat.archive_request,
            frontend_requests: 0,
            backend_requests: 0,
            backend_retries: 0,
            no_servers: 0,
            cache_misses: 0,
            cache_hits: 0,
            sum_request_bytes: 0,
            sum_response_bytes: 0,
            sum_response_millis: 0,
        }
    }

    /// The counters after one more record: one more frontend request; a
    /// cache hit where the record has no backend request, else a cache miss
    /// and the record's backend requests; and the three sums.
    pub open spec fn with(self, stat: ProxyResponseStat) -> AggregateCounts {
        AggregateCounts {
            period_timestamp: self.period_timestamp,
            archive_request: self.archive_request,
            frontend_requests: wrapped_sum(self.frontend_requests, 1),
            backend_requests: if stat.backend_requests == 0 {
                self.backend_requests
            } else {
                wrapped_sum(self.backend_requests, stat.backend_requests)
            },
            backend_retries: self.backend_retries,
            no_servers: self.no_servers,
            cache_misses: if stat.backend_requests == 0 {
                self.cache_misses
            } else {
                wrapped_sum(self.cache_misses, 1)
            },
            cache_hits: if stat.backend_requests == 0 {
                wrapped_sum(self.cache_hits, 1)
            } else {
                self.cache_hits
            },
            sum_request_bytes: wrapped_sum(self.sum_request_bytes, stat.request_bytes),
            sum_response_bytes: wrapped_sum(self.sum_response_bytes, stat.response_bytes),
            sum_response_millis: wrapped_sum(self.sum_response_millis, stat.response_millis),
        }
    }

    /// Every frontend request is a cache hit or a cache miss, as far as the
    /// counters reach.
    pub open spec fn balanced(self) -> bool {
        self.frontend_requests == wrapped_sum(self.cache_hits, self.cache_misses)
    }
}

impl AggregateCounts {
    /// No cache miss without a backend request: the backend requests are at
    /// least as many as the cache misses.
    pub open spec fn misses_backed(self) -> bool {
        self.backend_requests >= self.cache_misses
    }

    /// Whether the counters take a record without starting again from zero.
    pub open spec fn has_room_for(self, stat: ProxyResponseStat) -> bool {
        &&& self.frontend_requests < u64::MAX
        &&& self.cache_hits < u64::MAX
        &&& self.cache_misses < u64::MAX
        &&& self.backend_requests + stat.backend_requests <= u64::MAX
    }
}

/// A fresh aggregate has no cache miss without a backend request, and a
/// record that the counters have room for keeps it so; with room, the
/// frontend requests are the cache hits and the cache misses together,
/// where they were before.
pub proof fn lemma_misses_stay_backed(counts: AggregateCounts, stat: ProxyResponseStat)
    ensures
        AggregateCounts::fresh(stat).misses_backed(),
        counts.misses_backed() && counts.has_room_for(stat) ==> counts.with(stat).misses_backed(),
        counts.has_room_for(stat) && counts.frontend_requests == counts.cache_hits
            + counts.cache_misses ==> counts.with(stat).frontend_requests == counts.with(
            stat,
        ).cache_hits + counts.with(stat).cache_misses,
{
}

/// A fresh aggregate is balanced, and a record keeps it so.
pub proof fn lemma_counts_stay_balanced(counts: AggregateCounts, stat: ProxyResponseStat)
    ensures
        AggregateCounts::fresh(stat).balanced(),
        counts.balanced() ==> counts.with(stat).balanced(),
{
}

/// A record counts every time that it is taken in: two records with the same
/// numbers leave what two records leave, in either order.
pub proof fn lemma_records_are_not_deduplicated(
    counts: AggregateCounts,
    first: ProxyResponseStat,
    second: ProxyResponseStat,
)
    requires
        first.backend_requests == second.backend_requests,
        first.request_bytes == second.request_bytes,
        first.response_bytes == second.response_bytes,
        first.response_millis == second.response_millis,
    ensures
        counts.with(first).with(second) == counts.with(second).with(first),
        counts.with(first).with(second).frontend_requests == wrapped_sum(
            counts.frontend_requests,
            2,
        ),
        counts.with(first).with(second).sum_request_bytes == wrapped_sum(
            wrapped_sum(counts.sum_request_bytes, first.request_bytes),
            first.request_bytes,
        ),
{
}

/// An aggregate as mathematics: its counters and the values that its three
/// histograms hold.
pub ghost struct AggregateView {
    pub counts: AggregateCounts,
    pub request_bytes: Multiset<u64>,
    pub response_millis: Multiset<u64>,
    pub response_bytes: Multiset<u64>,
}

impl AggregateView {
    /// An aggregate that has taken no record.
    pub open spec fn fresh(stat: ProxyResponseStat) -> AggregateView {
        AggregateView {
            counts: AggregateCounts::fresh(stat),
            request_bytes: Multiset::empty(),
            response_millis: Multiset::empty(),
            response_bytes: Multiset::empty(),
        }
    }

    /// The aggregate after one more record, of whose three values the first
    /// `recorded` went into their histograms: the request bytes first, then
    /// the response time, then the response bytes.
    pub open spec fn with(self, stat: ProxyResponseStat, recorded: nat) -> AggregateView {
        AggregateView {
            counts: self.counts.with(stat),
            request_bytes: if recorded >= 1 {
                self.request_bytes.insert(stat.request_bytes)
            } else {
                self.request_bytes
            },
            response_millis: if recorded >= 2 {
                self.response_millis.insert(stat.response_millis)
            } else {
                self.response_millis
            },
            response_bytes: if recorded >= 3 {
                self.response_bytes.insert(stat.response_bytes)
            } else {
                self.response_bytes
            },
        }
    }
}

/// Whether the three values of a record are in the range that a histogram
/// is asked to take.
pub open spec fn recordable(stat: ProxyResponseStat) -> bool {
    stat.request_bytes <= HIGHEST_RECORDABLE && stat.response_millis <= HIGHEST_RECORDABLE
        && stat.response_bytes <= HIGHEST_RECORDABLE
}

/// How many of a record's three values went into their histograms, given
/// what the call that took the record in returned: all three exactly when
/// it succeeded.
pub open spec fn recorded_fits(recorded: nat, succeeded: bool) -> bool {
    recorded <= 3 && (succeeded <==> recorded == 3)
}

/// The stats of one key in one bucket.
pub struct ProxyResponseAggregate {
    pub counts: AggregateCounts,
    pub histograms: ProxyResponseHistograms,
}

impl ProxyResponseAggregate {
    pub open spec fn view(&self) -> AggregateView {
        AggregateView {
            counts: self.counts,
            request_bytes: self.histograms.request_bytes.samples(),
            response_millis: self.histograms.response_millis.samples(),
            response_bytes: self.histograms.response_bytes.samples(),
        }
    }

    /// An aggregate for the bucket and archive flag of a record, with no
    /// record taken in.
    pub fn new(stat: &ProxyResponseStat) -> (r: ProxyResponseAggregate)
        ensures
            r.view() == AggregateView::fresh(*stat),
            r.histograms.fresh(),
    {
        ProxyResponseAggregate {
            counts: AggregateCounts {
                period_timestamp: stat.period_timestamp,
                archive_request: stat.archive_request,
                frontend_requests: 0,
                backend_requests: 0,
                backend_retries: 0,
                no_servers: 0,
                cache_misses: 0,
                cache_hits: 0,
                sum_request_bytes: 0,
                sum_response_bytes: 0,
                sum_response_millis: 0,
            },
            histograms: ProxyResponseHistograms::new(),
        }
    }

    /// Takes a record in: the counters move first, then the three values go
    /// into their histograms, request bytes, response time and response
    /// bytes in that order. The first histogram that refuses ends the call
    /// with an error; the counters have moved all the same. Histograms as
    /// new ones are made refuse a value only where it is out of range.
    pub fn add(&mut self, stat: &ProxyResponseStat) -> (r: Result<(), Web3ProxyError>)
        ensures
            final(self).counts == old(self).counts.with(*stat),
            exists|recorded: nat| #[trigger]
                recorded_fits(recorded, r.is_ok()) && final(self).view() == old(self).view().with(
                    *stat,
                    recorded,
                ),
            r.is_err() ==> r == Err::<(), Web3ProxyError>(Web3ProxyError::Histogram),
            !recordable(*stat) ==> r.is_err(),
            old(self).histograms.self_sizing() ==> (r.is_ok() <==> recordable(*stat)),
            final(self).histograms.made_as(old(self).histograms),
    {
        let c = self.counts;
        let cache_hit = stat.backend_requests == 0;
        self.counts = AggregateCounts {
            period_timestamp: c.period_timestamp,
            archive_request: c.archive_request,
            frontend_requests: wrapping_sum(c.frontend_requests, 1),
            backend_requests: if cache_hit {
                c.backend_requests
            } else {
                wrapping_sum(c.backend_requests, stat.backend_requests)
            },
            backend_retries: c.backend_retries,
            no_servers: c.no_servers,
            cache_misses: if cache_hit {
                c.cache_misses
            } else {
                wrapping_sum(c.cache_misses, 1)
            },
            cache_hits: if cache_hit {
                wrapping_sum(c.cache_hits, 1)
            } else {
                c.cache_hits
            },
            sum_request_bytes: wrapping_sum(c.sum_request_bytes, stat.request_bytes),
            sum_response_bytes: wrapping_sum(c.sum_response_bytes, stat.response_bytes),
            sum_response_millis: wrapping_sum(c.sum_response_millis, stat.response_millis),
        };
        if !self.histograms.request_bytes.record(stat.request_bytes) {
            let r: Result<(), Web3ProxyError> = Err(Web3ProxyError::Histogram);
            assert(recorded_fits(0, r.is_ok()) && self.view() == old(self).view().with(*stat, 0));
            return r;
        }
        if !self.histograms.response_millis.record(stat.response_millis) {
            let r: Result<(), Web3ProxyError> = Err(Web3ProxyError::Histogram);
            assert(recorded_fits(1, r.is_ok()) && self.view() == old(self).view().with(*stat, 1));
            return r;
        }
        if !self.histograms.response_bytes.record(stat.response_bytes) {
            let r: Result<(), Web3ProxyError> = Err(Web3ProxyError::Histogram);
            assert(recorded_fits(2, r.is_ok()) && self.view() == old(self).view().with(*stat, 2));
            return r;
        }
        let r: Result<(), Web3ProxyError> = Ok(());
        assert(recorded_fits(3, r.is_ok()) && self.view() == old(self).view().with(*stat, 3));
        r
    }
}

/// An aggregate with its key.
pub struct AggregateEntry {
    pub key: UserProxyResponseKey,
    pub aggregate: ProxyResponseAggregate,
}

/// The keys of the entries, each with its aggregate.
pub open spec fn entry_pairs(entries: Seq<AggregateEntry>) -> Seq<(KeyView, AggregateView)> {
    entries.map_values(|e: AggregateEntry| (e.key.key_view(), e.aggregate.view()))
}

/// A row of the stat store, as far as whole numbers go: means and quantiles
/// are read from the histograms by the writer of the row.
pub struct RpcAccountingRow {
    pub rpc_key_id: u64,
    pub chain_id: u64,
    pub method: String,
    pub archive_request: bool,
    pub error_response: bool,
    pub period_timestamp: u64,
    pub frontend_requests: u64,
    pub backend_requests: u64,
    pub backend_retries: u64,
    pub no_servers: u64,
    pub cache_misses: u64,
    pub cache_hits: u64,
    pub sum_request_bytes: u64,
    pub min_request_bytes: u64,
    pub max_request_bytes: u64,
    pub sum_response_millis: u64,
    pub min_response_millis: u64,
    pub max_response_millis: u64,
    pub sum_response_bytes: u64,
    pub min_response_bytes: u64,
    pub max_response_bytes: u64,
}

/// Whether a row is the row of an entry on a chain. The lowest and highest
/// levels are those of histograms as new ones are made.
pub open spec fn is_row_of(row: RpcAccountingRow, chain_id: u64, entry: AggregateEntry) -> bool {
    let c = entry.aggregate.counts;
    let h = entry.aggregate.histograms;
    &&& row.rpc_key_id == entry.key.rpc_key_id
    &&& row.chain_id == chain_id
    &&& row.method@ == entry.key.method@
    &&& row.archive_request == c.archive_request
    &&& row.error_response == entry.key.error_response
    &&& row.period_timestamp == c.period_timestamp
    &&& row.frontend_requests == c.frontend_requests
    &&& row.backend_requests == c.backend_requests
    &&& row.backend_retries == c.backend_retries
    &&& row.no_servers == c.no_servers
    &&& row.cache_misses == c.cache_misses
    &&& row.cache_hits == c.cache_hits
    &&& row.sum_request_bytes == c.sum_request_bytes
    &&& h.request_bytes.self_sizing() ==> row.min_request_bytes == lowest_level(
        h.request_bytes.samples(),
        h.request_bytes.digits(),
    )
    &&& h.request_bytes.self_sizing() ==> row.max_request_bytes == highest_level(
        h.request_bytes.samples(),
        h.request_bytes.digits(),
    )
    &&& row.sum_response_millis == c.sum_response_millis
    &&& h.response_millis.self_sizing() ==> row.min_response_millis == lowest_level(
        h.response_millis.samples(),
        h.response_millis.digits(),
    )
    &&& h.response_millis.self_sizing() ==> row.max_response_millis == highest_level(
        h.response_millis.samples(),
        h.response_millis.digits(),
    )
    &&& row.sum_response_bytes == c.sum_response_bytes
    &&& h.response_bytes.self_sizing() ==> row.min_response_bytes == lowest_level(
        h.response_bytes.samples(),
        h.response_bytes.digits(),
    )
    &&& h.response_bytes.self_sizing() ==> row.max_response_bytes == highest_level(
        h.response_bytes.samples(),
        h.response_bytes.digits(),
    )
}

impl AggregateEntry {
    /// The row that the entry is stored as.
    pub fn row(&self, chain_id: u64) -> (r: RpcAccountingRow)
        ensures
            is_row_of(r, chain_id, *self),
    {
        let c = self.aggregate.counts;
        RpcAccountingRow {
            rpc_key_id: self.key.rpc_key_id,
            chain_id,
            method: self.key.method.clone(),
            archive_request: c.archive_request,
            error_response: self.key.error_response,
            period_timestamp: c.period_timestamp,
            frontend_requests: c.frontend_requests,
            backend_requests: c.backend_requests,
            backend_retries: c.backend_retries,
            no_servers: c.no_servers,
            cache_misses: c.cache_misses,
            cache_hits: c.cache_hits,
            sum_request_bytes: c.sum_request_bytes,
            min_request_bytes: self.aggregate.histograms.request_bytes.min(),
            max_request_bytes: self.aggregate.histograms.request_bytes.max(),
            sum_response_millis: c.sum_response_millis,
            min_response_millis: self.aggregate.histograms.response_millis.min(),
            max_response_millis: self.aggregate.histograms.response_millis.max(),
            sum_response_bytes: c.sum_response_bytes,
            min_response_bytes: self.aggregate.histograms.response_bytes.min(),
            max_response_bytes: self.aggregate.histograms.response_bytes.max(),
        }
    }
}

/// The aggregates of one period.
pub struct TimeBucket {
    pub period_timestamp: TimeBucketTimestamp,
    /// When the bucket was made, in seconds on the clock of the ingest loop.
    pub created_at: u64,
    pub entries: Vec<AggregateEntry>,
}

impl TimeBucket {
    /// The aggregates of the bucket by key.
    pub open spec fn aggregates(&self) -> Map<KeyView, AggregateView> {
        to_map(entry_pairs(self.entries@))
    }

    /// No key has two aggregates, and in every aggregate each frontend
    /// request is a cache hit or a cache miss and the histograms are as new
    /// ones are made.
    pub open spec fn wf(&self) -> bool {
        &&& distinct_keys(entry_pairs(self.entries@))
        &&& forall|i: int|
            0 <= i < self.entries@.len() ==> (#[trigger] self.entries@[i]).aggregate.counts.balanced()
                && self.entries@[i].aggregate.histograms.self_sizing()
    }

    /// A bucket has expired once it is `TTL_PERIODS` periods old.
    pub open spec fn expired(&self, now: u64, period_seconds: u64) -> bool {
        now >= self.created_at + TTL_PERIODS * period_seconds
    }

    pub fn is_expired(&self, now: u64, period_seconds: u64) -> (r: bool)
        requires
            period_seconds <= u64::MAX / TTL_PERIODS,
        ensures
            r == self.expired(now, period_seconds),
    {
        let ttl: u64 = TTL_PERIODS * period_seconds;
        now >= self.created_at && now - self.created_at >= ttl
    }

    fn find(&self, key: &UserProxyResponseKey) -> (r: Option<usize>)
        ensures
            match r {
                Some(i) => i < self.entries@.len() && entry_pairs(self.entries@)[i as int].0
                    == key.key_view(),
                None => key_absent(entry_pairs(self.entries@), key.key_view()),
            },
    {
        let mut i: usize = 0;
        while i < self.entries.len()
            invariant
                i <= self.entries@.len(),
                forall|k: int|
                    0 <= k < i ==> (#[trigger] entry_pairs(self.entries@)[k]).0 != key.key_view(),
            decreases self.entries@.len() - i,
        {
            if self.entries[i].key.same(key) {
                return Some(i);
            }
            i = i + 1;
        }
        None
    }

    /// Takes a record into the aggregate of its key, which is made where
    /// the bucket has none for it. It fails exactly where one of the
    /// record's three values is out of the recordable range.
    pub fn aggregate(&mut self, stat: &ProxyResponseStat) -> (r: Result<(), Web3ProxyError>)
        requires
            old(self).wf(),
        ensures
            final(self).wf(),
            final(self).period_timestamp == old(self).period_timestamp,
            final(self).created_at == old(self).created_at,
            exists|recorded: nat| #[trigger]
                recorded_fits(recorded, r.is_ok()) && final(self).aggregates() == aggregates_with(
                    old(self).aggregates(),
                    *stat,
                    recorded,
                ),
            r.is_err() ==> r == Err::<(), Web3ProxyError>(Web3ProxyError::Histogram),
            r.is_ok() <==> recordable(*stat),
    {
        let key = UserProxyResponseKey::of(stat);
        let ghost kv = key.key_view();
        let ghost before = entry_pairs(self.entries@);
        let idx: usize = match self.find(&key) {
            Some(i) => {
                proof {
                    lemma_to_map_at(before, i as int);
                }
                i
            },
            None => {
                let entry = AggregateEntry { key, aggregate: ProxyResponseAggregate::new(stat) };
                proof {
                    lemma_to_map_absent(before, kv);
                    lemma_to_map_push(before, kv, AggregateView::fresh(*stat));
                    assert(entry_pairs(self.entries@.push(entry)) =~= before.push(
                        (kv, AggregateView::fresh(*stat)),
                    ));
                }
                self.entries.push(entry);
                proof {
                    lemma_to_map_at(entry_pairs(self.entries@), self.entries@.len() - 1);
                }
                self.entries.len() - 1
            },
        };
        let ghost mid = entry_pairs(self.entries@);
        let ghost mid_entries = self.entries@;
        let r = self.entries[idx].aggregate.add(stat);
        proof {
            lemma_counts_stay_balanced(mid_entries[idx as int].aggregate.counts, *stat);
            assert forall|i: int| 0 <= i < self.entries@.len() implies (
            #[trigger] self.entries@[i]).aggregate.counts.balanced()
                && self.entries@[i].aggregate.histograms.self_sizing() by {
                if i != idx {
                    assert(self.entries@[i] == mid_entries[i]);
                    if i < old(self).entries@.len() {
                        assert(mid_entries[i] == old(self).entries@[i]);
                    }
                }
            }
            let recorded = choose|recorded: nat| #[trigger]
                recorded_fits(recorded, r.is_ok()) && self.entries@[idx as int].aggregate.view()
                    == mid[idx as int].1.with(*stat, recorded);
            assert(entry_pairs(self.entries@) =~= mid.update(
                idx as int,
                (kv, mid[idx as int].1.with(*stat, recorded)),
            ));
            lemma_to_map_update(mid, idx as int, mid[idx as int].1.with(*stat, recorded));
            assert(self.aggregates() =~= aggregates_with(old(self).aggregates(), *stat, recorded));
        }
        r
    }

    /// The rows of the bucket, one for each aggregate.
    pub fn rows(&self, chain_id: u64) -> (r: Vec<RpcAccountingRow>)
        ensures
            r@.len() == self.entries@.len(),
            forall|i: int|
                0 <= i < r@.len() ==> is_row_of(#[trigger] r@[i], chain_id, self.entries@[i]),
    {
        let mut out: Vec<RpcAccountingRow> = Vec::new();
        let mut i: usize = 0;
        while i < self.entries.len()
            invariant
                i <= self.entries@.len(),
                out@.len() == i,
                forall|k: int|
                    0 <= k < i ==> is_row_of(#[trigger] out@[k], chain_id, self.entries@[k]),
            decreases self.entries@.len() - i,
        {
            out.push(self.entries[i].row(chain_id));
            i = i + 1;
        }
        out
    }
}

/// The aggregates of a bucket after a record was taken in: the aggregate of
/// the record's key, a fresh one where there was none, has one record more.
pub open spec fn aggregates_with(
    aggregates: Map<KeyView, AggregateView>,
    stat: ProxyResponseStat,
    recorded: nat,
) -> Map<KeyView, AggregateView> {
    let key = key_of(stat);
    let before = if aggregates.dom().contains(key) {
        aggregates[key]
    } else {
        AggregateView::fresh(stat)
    };
    aggregates.insert(key, before.with(stat, recorded))
}

/// The periods of the buckets, each with the aggregates of its bucket.
pub open spec fn bucket_pairs(buckets: Seq<TimeBucket>) -> Seq<
    (TimeBucketTimestamp, Map<KeyView, AggregateView>),
> {
    buckets.map_values(|b: TimeBucket| (b.period_timestamp, b.aggregates()))
}

/// The buckets that have expired, in the order in which they were made.
pub open spec fn expired_buckets(buckets: Seq<TimeBucket>, now: u64, period_seconds: u64) -> Seq<
    TimeBucket,
>
    decreases buckets.len(),
{
    if buckets.len() == 0 {
        Seq::empty()
    } else {
        let rest = expired_buckets(buckets.drop_last(), now, period_seconds);
        if buckets.last().expired(now, period_seconds) {
            rest.push(buckets.last())
        } else {
            rest
        }
    }
}

/// The buckets that have not expired, in the order in which they were made.
pub open spec fn live_buckets(buckets: Seq<TimeBucket>, now: u64, period_seconds: u64) -> Seq<
    TimeBucket,
>
    decreases buckets.len(),
{
    if buckets.len() == 0 {
        Seq::empty()
    } else {
        let rest = live_buckets(buckets.drop_last(), now, period_seconds);
        if buckets.last().expired(now, period_seconds) {
            rest
        } else {
            rest.push(buckets.last())
        }
    }
}

/// What the aggregator holds after a record was taken in: the record's
/// bucket, an empty one where there was none, has the record in the
/// aggregate of its key.
pub open spec fn aggregated_with(
    aggregated: Map<TimeBucketTimestamp, Map<KeyView, AggregateView>>,
    stat: ProxyResponseStat,
    recorded: nat,
) -> Map<TimeBucketTimestamp, Map<KeyView, AggregateView>> {
    let bucket = if aggregated.dom().contains(stat.period_timestamp) {
        aggregated[stat.period_timestamp]
    } else {
        Map::empty()
    };
    aggregated.insert(stat.period_timestamp, aggregates_with(bucket, stat, recorded))
}

/// Gathers stats per period and key until the period's bucket is flushed.
pub struct StatEmitter {
    chain_id: u64,
    period_seconds: u64,
    aggregated_proxy_responses: Vec<TimeBucket>,
}

impl StatEmitter {
    pub closed spec fn chain_id(&self) -> u64 {
        self.chain_id
    }

    pub closed spec fn period_seconds(&self) -> u64 {
        self.period_seconds
    }

    /// The buckets that wait to be flushed, in the order in which they were
    /// made.
    pub closed spec fn buckets(&self) -> Seq<TimeBucket> {
        self.aggregated_proxy_responses@
    }

    /// The aggregates held, by period and key.
    pub open spec fn aggregated(&self) -> Map<TimeBucketTimestamp, Map<KeyView, AggregateView>> {
        to_map(bucket_pairs(self.buckets()))
    }

    /// No period has two buckets, no key two aggregates in a bucket, and
    /// the time that a bucket lives fits the clock.
    pub open spec fn wf(&self) -> bool {
        &&& self.period_seconds() <= u64::MAX / TTL_PERIODS
        &&& distinct_keys(bucket_pairs(self.buckets()))
        &&& forall|i: int| 0 <= i < self.buckets().len() ==> (#[trigger] self.buckets()[i]).wf()
    }

    /// An aggregator that holds nothing.
    pub fn new(chain_id: u64, period_seconds: u64) -> (r: StatEmitter)
        requires
            period_seconds <= u64::MAX / TTL_PERIODS,
        ensures
            r.wf(),
            r.chain_id() == chain_id,
            r.period_seconds() == period_seconds,
            r.buckets() == Seq::<TimeBucket>::empty(),
    {
        let r = StatEmitter { chain_id, period_seconds, aggregated_proxy_responses: Vec::new() };
        assert(r.buckets() =~= Seq::<TimeBucket>::empty());
        r
    }

    pub fn get_period_seconds(&self) -> (r: u64)
        ensures
            r == self.period_seconds(),
    {
        self.period_seconds
    }

    /// The number of buckets that wait to be flushed.
    pub fn num_buckets(&self) -> (r: usize)
        ensures
            r == self.buckets().len(),
    {
        self.aggregated_proxy_responses.len()
    }

    fn find_bucket(&self, period_timestamp: u64) -> (r: Option<usize>)
        ensures
            match r {
                Some(i) => i < self.buckets().len() && self.buckets()[i as int].period_timestamp
                    == period_timestamp,
                None => key_absent(bucket_pairs(self.buckets()), period_timestamp),
            },
    {
        let mut i: usize = 0;
        while i < self.aggregated_proxy_responses.len()
            invariant
                i <= self.buckets().len(),
                forall|k: int|
                    0 <= k < i ==> (#[trigger] bucket_pairs(self.buckets())[k]).0
                        != period_timestamp,
            decreases self.buckets().len() - i,
        {
            if self.aggregated_proxy_responses[i].period_timestamp == period_timestamp {
                return Some(i);
            }
            i = i + 1;
        }
        None
    }

    /// Takes a record in at the time `now`, in seconds: into the bucket of
    /// its period, which is made at `now` where there is none, and there
    /// into the aggregate of its key. The counters move whatever the
    /// histograms say; an error tells that a histogram refused its value,
    /// which it does exactly where a value is out of the recordable range.
    pub fn aggregate_stat(&mut self, stat: Web3ProxyStat, now: u64) -> (r: Result<
        (),
        Web3ProxyError,
    >)
        requires
            old(self).wf(),
        ensures
            final(self).wf(),
            final(self).chain_id() == old(self).chain_id(),
            final(self).period_seconds() == old(self).period_seconds(),
            exists|recorded: nat| #[trigger]
                recorded_fits(recorded, r.is_ok()) && final(self).aggregated() == aggregated_with(
                    old(self).aggregated(),
                    stat->Response_0,
                    recorded,
                ),
            final(self).buckets().len() == if old(self).aggregated().dom().contains(
                stat->Response_0.period_timestamp,
            ) {
                old(self).buckets().len()
            } else {
                old(self).buckets().len() + 1
            },
            forall|i: int|
                0 <= i < old(self).buckets().len() ==> (#[trigger] final(self).buckets()[i]).created_at
                    == old(self).buckets()[i].created_at && final(self).buckets()[i].period_timestamp == old(self).buckets()[i].period_timestamp,
            !old(self).aggregated().dom().contains(stat->Response_0.period_timestamp) ==> final(self).buckets().last().created_at == now && final(self).buckets().last().period_timestamp
                == stat->Response_0.period_timestamp,
            r.is_ok() <==> recordable(stat->Response_0),
            r.is_err() ==> r == Err::<(), Web3ProxyError>(Web3ProxyError::Histogram),
    {
        match stat {
            Web3ProxyStat::Response(stat) => {
                let ghost before = bucket_pairs(self.buckets());
                let ts: u64 = stat.period_timestamp;
                let idx: usize = match self.find_bucket(ts) {
                    Some(i) => {
                        proof {
                            lemma_to_map_at(before, i as int);
                        }
                        i
                    },
                    None => {
                        let bucket = TimeBucket {
                            period_timestamp: ts,
                            created_at: now,
                            entries: Vec::new(),
                        };
                        proof {
                            assert(bucket.wf());
                            assert(entry_pairs(bucket.entries@) =~= Seq::empty());
                            assert(bucket.aggregates() =~= Map::empty());
                            lemma_to_map_absent(before, ts);
                            lemma_to_map_push(before, ts, bucket.aggregates());
                            assert(bucket_pairs(self.buckets().push(bucket)) =~= before.push(
                                (ts, bucket.aggregates()),
                            ));
                        }
                        self.aggregated_proxy_responses.push(bucket);
                        proof {
                            lemma_to_map_at(
                                bucket_pairs(self.buckets()),
                                self.buckets().len() - 1,
                            );
                        }
                        self.aggregated_proxy_responses.len() - 1
                    },
                };
                let ghost mid = bucket_pairs(self.buckets());
                let r = self.aggregated_proxy_responses[idx].aggregate(&stat);
                proof {
                    let recorded = choose|recorded: nat| #[trigger]
                        recorded_fits(recorded, r.is_ok()) && self.buckets()[idx as int].aggregates()
                            == aggregates_with(mid[idx as int].1, stat, recorded);
                    assert(bucket_pairs(self.buckets()) =~= mid.update(
                        idx as int,
                        (ts, aggregates_with(mid[idx as int].1, stat, recorded)),
                    ));
                    lemma_to_map_update(
                        mid,
                        idx as int,
                        aggregates_with(mid[idx as int].1, stat, recorded),
                    );
                    assert(self.aggregated() =~= aggregated_with(
                        old(self).aggregated(),
                        stat,
                        recorded,
                    ));
                }
                r
            },
        }
    }

    /// Hands out the buckets that have expired at `now`, each once and in
    /// the order in which they were made; the others stay, in their order.
    pub fn evict_expired(&mut self, now: u64) -> (r: Vec<TimeBucket>)
        requires
            old(self).wf(),
        ensures
            final(self).wf(),
            final(self).chain_id() == old(self).chain_id(),
            final(self).period_seconds() == old(self).period_seconds(),
            r@ == expired_buckets(old(self).buckets(), now, old(self).period_seconds()),
            final(self).buckets() == live_buckets(
                old(self).buckets(),
                now,
                old(self).period_seconds(),
            ),
            forall|i: int| 0 <= i < r@.len() ==> (#[trigger] r@[i]).wf(),
    {
        let mut out: Vec<TimeBucket> = Vec::new();
        let mut i: usize = 0;
        let ghost all = self.buckets();
        let ghost mut j: int = 0;
        let period: u64 = self.period_seconds;
        assert(self.buckets().take(0) =~= Seq::<TimeBucket>::empty());
        assert(all.take(0) =~= Seq::<TimeBucket>::empty());
        assert(self.buckets().skip(0) =~= all.skip(0));
        while i < self.aggregated_proxy_responses.len()
            invariant
                self.chain_id == old(self).chain_id,
                self.period_seconds == period,
                period == old(self).period_seconds,
                period <= u64::MAX / TTL_PERIODS,
                0 <= j <= all.len(),
                i <= self.buckets().len(),
                self.buckets().len() - i == all.len() - j,
                self.buckets().take(i as int) == live_buckets(all.take(j), now, period),
                self.buckets().skip(i as int) == all.skip(j),
                out@ == expired_buckets(all.take(j), now, period),
                distinct_keys(bucket_pairs(self.buckets())),
                forall|k: int| 0 <= k < self.buckets().len() ==> (#[trigger] self.buckets()[k]).wf(),
                forall|k: int| 0 <= k < out@.len() ==> (#[trigger] out@[k]).wf(),
            decreases self.buckets().len() - i,
        {
            let ghost prev = self.buckets();
            proof {
                assert(all.take(j + 1).drop_last() =~= all.take(j));
                assert(prev.skip(i as int)[0] == all.skip(j)[0]);
                assert(prev[i as int] == all[j]);
            }
            if self.aggregated_proxy_responses[i].is_expired(now, period) {
                let bucket = self.aggregated_proxy_responses.remove(i);
                out.push(bucket);
                proof {
                    lemma_remove_keeps_distinct(bucket_pairs(prev), i as int);
                    assert(bucket_pairs(prev.remove(i as int)) =~= bucket_pairs(prev).remove(
                        i as int,
                    ));
                    assert(self.buckets().take(i as int) =~= prev.take(i as int));
                    let now_rest = self.buckets().skip(i as int);
                    let all_rest = all.skip(j + 1);
                    assert forall|k: int| 0 <= k < all.len() - j - 1 implies #[trigger] now_rest[k]
                        == all_rest[k] by {
                        assert(prev.skip(i as int)[k + 1] == all.skip(j)[k + 1]);
                    }
                    assert(self.buckets().skip(i as int) =~= all.skip(j + 1));
                    j = j + 1;
                }
            } else {
                proof {
                    assert(prev.take(i + 1) =~= prev.take(i as int).push(prev[i as int]));
                    let now_rest = prev.skip(i + 1);
                    let all_rest = all.skip(j + 1);
                    assert forall|k: int| 0 <= k < all.len() - j - 1 implies #[trigger] now_rest[k]
                        == all_rest[k] by {
                        assert(prev.skip(i as int)[k + 1] == all.skip(j)[k + 1]);
                    }
                    assert(prev.skip(i + 1) =~= all.skip(j + 1));
                    j = j + 1;
                }
                i = i + 1;
            }
        }
        proof {
            assert(all.take(j) =~= all);
            assert(self.buckets().take(i as int) =~= self.buckets());
        }
        out
    }

    /// Hands out every bucket, for the shutdown: each bucket that was held
    /// is in the result once, and none is held any more.
    pub fn evict_all(&mut self) -> (r: Vec<TimeBucket>)
        requires
            old(self).wf(),
        ensures
            final(self).wf(),
            final(self).chain_id() == old(self).chain_id(),
            final(self).period_seconds() == old(self).period_seconds(),
            r@ == old(self).buckets(),
            final(self).buckets() == Seq::<TimeBucket>::empty(),
            forall|i: int| 0 <= i < r@.len() ==> (#[trigger] r@[i]).wf(),
    {
        let mut out: Vec<TimeBucket> = Vec::new();
        core::mem::swap(&mut out, &mut self.aggregated_proxy_responses);
        assert(self.buckets() =~= Seq::<TimeBucket>::empty());
        out
    }
}

} // verus!
