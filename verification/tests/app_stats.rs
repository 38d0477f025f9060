use web3_proxy::app_stats::{
    wrapping_sum, ProxyResponseAggregate, ProxyResponseStat, StatEmitter, UserProxyResponseKey,
    Web3ProxyStat,
};
use web3_proxy::errors::Web3ProxyError;
use web3_proxy::histogram::{
    ProxyResponseHistograms, ValueHistogram, HIGHEST_RECORDABLE,
};

fn held(h: &ValueHistogram) -> u64 {
    h.levels().iter().map(|level| level.1).sum()
}

fn stat(key: u64, method: &str, start: u64, backend: u64, error: bool) -> ProxyResponseStat {
    ProxyResponseStat::new(method.to_string(), key, false, backend, 60, start, 100, error, 200, 7)
}

#[test]
fn period_timestamp_is_the_start_of_the_period() {
    assert_eq!(stat(1, "m", 125, 0, false).period_timestamp, 120);
    assert_eq!(stat(1, "m", 59, 0, false).period_timestamp, 0);
    assert_eq!(stat(1, "m", 60, 0, false).period_timestamp, 60);
    let s = ProxyResponseStat::new("eth_call".to_string(), 4, true, 2, 7, 100, 1, true, 2, 3);
    assert_eq!(s.period_timestamp, 98);
    assert_eq!(s.period_seconds, 7);
    assert_eq!((s.rpc_key_id, s.archive_request, s.backend_requests), (4, true, 2));
    assert_eq!((s.request_bytes, s.error_response, s.response_bytes, s.response_millis), (1, true, 2, 3));
    assert_eq!(s.method, "eth_call");
}

#[test]
fn wrapping_sum_wraps_around() {
    assert_eq!(wrapping_sum(1, 2), 3);
    assert_eq!(wrapping_sum(u64::MAX, 1), 0);
    assert_eq!(wrapping_sum(u64::MAX, u64::MAX), u64::MAX - 1);
    assert_eq!(wrapping_sum(0, u64::MAX), u64::MAX);
}

#[test]
fn keys_compare_by_all_three_parts() {
    let k = UserProxyResponseKey::of(&stat(1, "m", 0, 0, false));
    assert!(k.same(&UserProxyResponseKey::of(&stat(1, "m", 90, 5, false))));
    assert!(!k.same(&UserProxyResponseKey::of(&stat(2, "m", 0, 0, false))));
    assert!(!k.same(&UserProxyResponseKey::of(&stat(1, "n", 0, 0, false))));
    assert!(!k.same(&UserProxyResponseKey::of(&stat(1, "m", 0, 0, true))));
}

#[test]
fn aggregate_counts_hits_misses_and_sums() {
    let mut a = ProxyResponseAggregate::new(&stat(1, "m", 0, 0, false));
    assert_eq!(a.counts.frontend_requests, 0);
    assert_eq!(a.add(&stat(1, "m", 0, 0, false)), Ok(()));
    assert_eq!(a.add(&stat(1, "m", 0, 3, false)), Ok(()));
    assert_eq!(a.add(&stat(1, "m", 0, 2, false)), Ok(()));
    let c = a.counts;
    assert_eq!(c.frontend_requests, 3);
    assert_eq!(c.cache_hits, 1);
    assert_eq!(c.cache_misses, 2);
    assert_eq!(c.backend_requests, 5);
    assert_eq!(c.frontend_requests, c.cache_hits + c.cache_misses);
    assert_eq!((c.backend_retries, c.no_servers), (0, 0));
    assert_eq!((c.sum_request_bytes, c.sum_response_bytes, c.sum_response_millis), (300, 600, 21));
    assert_eq!((c.period_timestamp, c.archive_request), (0, false));
}

#[test]
fn the_same_record_twice_counts_twice() {
    let mut e = StatEmitter::new(1, 60);
    e.aggregate_stat(Web3ProxyStat::Response(stat(1, "m", 5, 1, false)), 5).unwrap();
    e.aggregate_stat(Web3ProxyStat::Response(stat(1, "m", 5, 1, false)), 5).unwrap();
    let buckets = e.evict_all();
    assert_eq!(buckets.len(), 1);
    assert_eq!(buckets[0].entries.len(), 1);
    let c = buckets[0].entries[0].aggregate.counts;
    assert_eq!((c.frontend_requests, c.cache_misses, c.cache_hits, c.backend_requests), (2, 2, 0, 2));
    assert_eq!(c.sum_request_bytes, 200);
}

#[test]
fn histograms_take_values_and_report_their_levels() {
    let mut h = ValueHistogram::new();
    assert!(h.record(100));
    assert!(h.record(250));
    assert!(h.record(17));
    assert_eq!(h.min(), 17);
    assert_eq!(h.max(), 250);
    assert_eq!(held(&h), 3);
    assert!(!h.record(u64::MAX));
    assert_eq!(held(&h), 3);
    let three = ProxyResponseHistograms::default();
    assert_eq!(held(&three.request_bytes), 0);
    assert_eq!(three.response_bytes.min(), 0);
    assert!(ProxyResponseHistograms::new().response_millis.levels().is_empty());
}

#[test]
fn a_value_out_of_range_is_a_histogram_error_after_the_counters_moved() {
    let mut a = ProxyResponseAggregate::new(&stat(1, "m", 0, 0, false));
    let big = ProxyResponseStat::new("m".to_string(), 1, false, 0, 60, 0, 5, false, u64::MAX, 7);
    assert_eq!(a.add(&big), Err(Web3ProxyError::Histogram));
    assert_eq!(a.counts.frontend_requests, 1);
    assert_eq!(a.counts.sum_response_bytes, u64::MAX);
    assert_eq!(held(&a.histograms.request_bytes), 1);
    assert_eq!(held(&a.histograms.response_millis), 1);
    assert_eq!(held(&a.histograms.response_bytes), 0);
    let mut e = StatEmitter::new(1, 60);
    let big = ProxyResponseStat::new("m".to_string(), 1, false, 0, 60, 0, u64::MAX, false, 1, 7);
    assert_eq!(e.aggregate_stat(Web3ProxyStat::Response(big), 0), Err(Web3ProxyError::Histogram));
    assert_eq!(e.num_buckets(), 1);
}

#[test]
fn stat_bucket_flush() {
    let mut e = StatEmitter::new(5, 60);
    assert_eq!(e.get_period_seconds(), 60);
    e.aggregate_stat(Web3ProxyStat::Response(stat(1, "eth_call", 0, 0, false)), 0).unwrap();
    e.aggregate_stat(Web3ProxyStat::Response(stat(1, "eth_call", 30, 2, false)), 30).unwrap();
    e.aggregate_stat(Web3ProxyStat::Response(stat(2, "eth_call", 59, 1, false)), 59).unwrap();
    e.aggregate_stat(Web3ProxyStat::Response(stat(1, "eth_call", 59, 0, true)), 59).unwrap();
    assert_eq!(e.num_buckets(), 1);
    assert!(e.evict_expired(179).is_empty());
    assert_eq!(e.num_buckets(), 1);
    let flushed = e.evict_expired(180);
    assert_eq!(flushed.len(), 1);
    assert_eq!(e.num_buckets(), 0);
    assert!(e.evict_expired(1000).is_empty());
    assert_eq!((flushed[0].period_timestamp, flushed[0].created_at), (0, 0));
    let rows = flushed[0].rows(5);
    assert_eq!(rows.len(), 3);
    assert_eq!((rows[0].rpc_key_id, rows[0].error_response, rows[0].frontend_requests), (1, false, 2));
    assert_eq!((rows[1].rpc_key_id, rows[1].error_response, rows[1].frontend_requests), (2, false, 1));
    assert_eq!((rows[2].rpc_key_id, rows[2].error_response, rows[2].frontend_requests), (1, true, 1));
    let r = &rows[0];
    assert_eq!((r.chain_id, r.method.as_str(), r.archive_request, r.period_timestamp), (5, "eth_call", false, 0));
    assert_eq!((r.backend_requests, r.backend_retries, r.no_servers), (2, 0, 0));
    assert_eq!((r.cache_hits, r.cache_misses), (1, 1));
    assert_eq!((r.sum_request_bytes, r.min_request_bytes, r.max_request_bytes), (200, 100, 100));
    assert_eq!((r.sum_response_bytes, r.min_response_bytes, r.max_response_bytes), (400, 200, 200));
    assert_eq!((r.sum_response_millis, r.min_response_millis, r.max_response_millis), (14, 7, 7));
}

#[test]
fn only_expired_buckets_are_flushed() {
    let mut e = StatEmitter::new(1, 10);
    e.aggregate_stat(Web3ProxyStat::Response(ProxyResponseStat::new("a".to_string(), 1, false, 0, 10, 3, 1, false, 1, 1)), 3).unwrap();
    e.aggregate_stat(Web3ProxyStat::Response(ProxyResponseStat::new("a".to_string(), 1, false, 0, 10, 14, 1, false, 1, 1)), 14).unwrap();
    e.aggregate_stat(Web3ProxyStat::Response(ProxyResponseStat::new("a".to_string(), 1, false, 0, 10, 25, 1, false, 1, 1)), 25).unwrap();
    e.aggregate_stat(Web3ProxyStat::Response(ProxyResponseStat::new("a".to_string(), 1, false, 0, 10, 4, 1, false, 1, 1)), 26).unwrap();
    assert_eq!(e.num_buckets(), 3);
    let flushed = e.evict_expired(44);
    assert_eq!(flushed.iter().map(|b| b.period_timestamp).collect::<Vec<_>>(), vec![0, 10]);
    assert_eq!(flushed[0].entries[0].aggregate.counts.frontend_requests, 2);
    assert!(flushed[0].is_expired(33, 10));
    assert!(!flushed[0].is_expired(32, 10));
    assert_eq!(e.num_buckets(), 1);
}

#[test]
fn shutdown_drain_delivers_every_bucket_once() {
    let mut e = StatEmitter::new(1, 60);
    e.aggregate_stat(Web3ProxyStat::Response(stat(1, "m", 10, 0, false)), 10).unwrap();
    e.aggregate_stat(Web3ProxyStat::Response(stat(1, "m", 70, 0, false)), 70).unwrap();
    e.aggregate_stat(Web3ProxyStat::Response(stat(2, "m", 70, 0, false)), 71).unwrap();
    let drained = e.evict_all();
    assert_eq!(drained.len(), 2);
    assert_eq!(drained.iter().map(|b| b.rows(1).len()).sum::<usize>(), 3);
    assert!(e.evict_all().is_empty());
    assert!(e.evict_expired(u64::MAX).is_empty());
    assert_eq!(e.num_buckets(), 0);
}

#[test]
fn keys_and_stats_are_made_from_their_parts() {
    let k: UserProxyResponseKey = (7, "eth_call".to_string(), true).into();
    assert_eq!((k.rpc_key_id, k.method.as_str(), k.error_response), (7, "eth_call", true));
    assert!(k.same(&UserProxyResponseKey::of(&stat(7, "eth_call", 0, 0, true))));
    let Web3ProxyStat::Response(inner) = Web3ProxyStat::from(stat(3, "m", 61, 2, false));
    assert_eq!((inner.rpc_key_id, inner.period_timestamp, inner.backend_requests), (3, 60, 2));
}

#[test]
fn a_fresh_histogram_takes_every_value_of_the_recordable_range() {
    let mut h = ValueHistogram::new();
    assert!(h.record(0));
    assert!(h.record(1));
    assert!(h.record(1 << 40));
    assert!(h.record(HIGHEST_RECORDABLE));
    assert_eq!(held(&h), 4);
    assert!(!h.record(HIGHEST_RECORDABLE + 1));
    assert_eq!(held(&h), 4);
    let three = ProxyResponseHistograms::new();
}

#[test]
fn levels_hold_each_value_with_its_count_in_rising_order() {
    let mut h = ValueHistogram::new();
    assert!(h.levels().is_empty());
    for v in [100, 250, 17, 100, 0] {
        assert!(h.record(v));
    }
    assert_eq!(h.levels(), vec![(0, 1), (17, 1), (100, 2), (250, 1)]);
    let mut three = ProxyResponseHistograms::new();
    assert!(three.request_bytes.record(HIGHEST_RECORDABLE));
    assert!(three.response_bytes.levels().is_empty());
    assert_eq!(held(&three.request_bytes), 1);
}

#[test]
fn a_record_is_refused_exactly_where_a_value_is_out_of_range() {
    let mut e = StatEmitter::new(1, 60);
    let edge = ProxyResponseStat::new("m".to_string(), 1, false, 0, 60, 0, 0, false, 1, HIGHEST_RECORDABLE);
    assert_eq!(e.aggregate_stat(Web3ProxyStat::Response(edge), 0), Ok(()));
    let over = ProxyResponseStat::new("m".to_string(), 1, false, 0, 60, 0, 0, false, 1, HIGHEST_RECORDABLE + 1);
    assert_eq!(e.aggregate_stat(Web3ProxyStat::Response(over), 0), Err(Web3ProxyError::Histogram));
    let buckets = e.evict_all();
    let entry = &buckets[0].entries[0];
    assert_eq!(entry.aggregate.counts.frontend_requests, 2);
    assert_eq!(held(&entry.aggregate.histograms.request_bytes), 2);
    assert_eq!(held(&entry.aggregate.histograms.response_millis), 1);
    assert_eq!(held(&entry.aggregate.histograms.response_bytes), 1);
    let row = entry.row(1);
    assert_eq!((row.min_request_bytes, row.max_request_bytes), (0, 0));
    assert_eq!((row.min_response_bytes, row.max_response_bytes), (1, 1));
}

#[test]
fn an_empty_histogram_has_the_levels_zero() {
    let h = ValueHistogram::new();
    assert_eq!(h.min(), 0);
    assert_eq!(h.max(), 0);
    let mut a = ProxyResponseAggregate::new(&stat(1, "m", 0, 0, false));
    assert_eq!(a.histograms.response_bytes.max(), 0);
    a.add(&stat(1, "m", 0, 4, false)).unwrap();
    assert!(a.counts.backend_requests >= a.counts.cache_misses);
    assert_eq!((a.counts.backend_requests, a.counts.cache_misses), (4, 1));
}
