use web3_proxy::block_watcher::SyncStatus::{Behind, Synced, Unknown};
use web3_proxy::block_watcher::{BlockWatcher, SyncStatus};
use web3_proxy::connection::{after_refusal, Admission, PoolClock, Web3Connection};
use web3_proxy::errors::{NotUntil, Web3ProxyError};
use web3_proxy::provider_tiers::{
    earlier_of, earliest_refusal, is_preferred, is_synced, sort_by_preference, Web3ProviderTier,
};

fn tier(servers: &[(&str, u32)]) -> Web3ProviderTier {
    let clock = PoolClock::new();
    let servers: Vec<(String, u32)> = servers.iter().map(|(n, l)| (n.to_string(), *l)).collect();
    Web3ProviderTier::try_new(servers, &clock)
}

fn watcher(heads: &[Option<u64>]) -> BlockWatcher {
    let mut w = BlockWatcher::new(heads.len());
    for (i, h) in heads.iter().enumerate() {
        w.set_head(i, *h);
    }
    w
}

fn active(t: &Web3ProviderTier) -> Vec<u64> {
    t.clone_connections().iter().map(|c| c.get_active_requests()).collect()
}

#[test]
fn sync_status_measures_lag_against_the_highest_head() {
    let w = watcher(&[Some(100), Some(98), Some(90), None]);
    assert_eq!(w.highest(), 100);
    assert_eq!(w.sync_status(0, 2), SyncStatus::Synced(100));
    assert_eq!(w.sync_status(1, 2), SyncStatus::Synced(98));
    assert_eq!(w.sync_status(1, 1), SyncStatus::Behind(98));
    assert_eq!(w.sync_status(2, 2), SyncStatus::Behind(90));
    assert_eq!(w.sync_status(3, 2), SyncStatus::Unknown);
    assert_eq!(w.sync_status(9, 2), SyncStatus::Unknown);
    assert_eq!(BlockWatcher::new(2).highest(), 0);
}

#[test]
fn preference_is_rank_then_head_then_load() {
    assert!(is_preferred(Synced(5), 9, Behind(50), 0));
    assert!(is_preferred(Behind(1), 9, Unknown, 0));
    assert!(is_preferred(Synced(1), 9, Unknown, 0));
    assert!(!is_preferred(Unknown, 0, Synced(1), 9));
    assert!(is_preferred(Synced(7), 9, Synced(6), 0));
    assert!(!is_preferred(Synced(6), 0, Synced(7), 9));
    assert!(is_preferred(Behind(7), 9, Behind(6), 0));
    assert!(is_preferred(Synced(7), 1, Synced(7), 2));
    assert!(!is_preferred(Synced(7), 2, Synced(7), 2));
    assert!(is_preferred(Unknown, 1, Unknown, 2));
    assert!(is_synced(&Synced(0)));
    assert!(!is_synced(&Behind(0)));
    assert!(!is_synced(&Unknown));
}

#[test]
fn sort_by_preference_orders_the_pool() {
    let statuses = vec![Unknown, Behind(90), Synced(99), Synced(100), Synced(100), Behind(95)];
    let active = vec![0, 0, 0, 3, 1, 0];
    assert_eq!(sort_by_preference(&statuses, &active), vec![4, 3, 2, 5, 1, 0]);
    assert_eq!(sort_by_preference(&vec![], &vec![]), Vec::<usize>::new());
    let ties = vec![Synced(1), Synced(1), Synced(1)];
    assert_eq!(sort_by_preference(&ties, &vec![2, 2, 2]), vec![0, 1, 2]);
}

#[test]
fn update_synced_rpcs_keeps_the_synced_prefix() {
    let mut t = tier(&[("a", 0), ("b", 0), ("c", 0), ("d", 0)]);
    assert!(t.synced_rpcs().is_empty());
    let w = watcher(&[Some(90), Some(99), None, Some(100)]);
    assert!(t.update_synced_rpcs(&w, 2).is_ok());
    assert_eq!(t.synced_rpcs(), &vec![3, 1]);
    assert!(t.update_synced_rpcs(&w, 0).is_ok());
    assert_eq!(t.synced_rpcs(), &vec![3]);
    assert_eq!(t.clone_rpcs(), vec!["a", "b", "c", "d"]);
    assert_eq!(t.rpc_index(&"c".to_string()), Some(2));
    assert_eq!(t.rpc_index(&"z".to_string()), None);
}

#[test]
fn no_synced_upstream_gives_no_refusal() {
    let mut t = tier(&[("a", 1)]);
    assert_eq!(t.next_upstream_server(), Err(None));
    assert_eq!(t.get_upstream_servers(), Err(None));
    assert_eq!(active(&t), vec![0]);
}

#[test]
fn rate_limited_failover() {
    let mut t = tier(&[("A", 1), ("B", 10)]);
    let w = watcher(&[Some(100), Some(100)]);
    t.update_synced_rpcs(&w, 0).unwrap();
    assert_eq!(t.synced_rpcs(), &vec![0, 1]);
    assert_eq!(t.next_upstream_server(), Ok("A".to_string()));
    assert_eq!(t.next_upstream_server(), Ok("B".to_string()));
    assert_eq!(t.next_upstream_server(), Ok("B".to_string()));
    assert_eq!(active(&t), vec![1, 2]);
}

#[test]
fn every_upstream_refusing_gives_the_earliest_refusal() {
    let mut t = tier(&[("A", 1)]);
    t.update_synced_rpcs(&watcher(&[Some(5)]), 0).unwrap();
    assert_eq!(t.next_upstream_server(), Ok("A".to_string()));
    let refused = t.next_upstream_server();
    match refused {
        Err(Some(not_until)) => assert!(not_until.earliest_possible() > 0),
        other => panic!("expected a refusal, got {:?}", other),
    }
    assert!(matches!(t.get_upstream_servers(), Err(Some(_))));
    assert_eq!(active(&t), vec![1]);
}

#[test]
fn unlimited_upstream_never_denies() {
    let mut t = tier(&[("free", 0)]);
    t.update_synced_rpcs(&watcher(&[Some(1)]), 0).unwrap();
    for _ in 0..1000 {
        assert_eq!(t.next_upstream_server(), Ok("free".to_string()));
    }
    assert_eq!(active(&t), vec![1000]);
    let clock = PoolClock::new();
    let mut c = Web3Connection::new("x".to_string(), 3, 0, &clock);
    for _ in 0..100 {
        assert!(c.try_inc_active_requests().is_ok());
    }
    assert_eq!(c.get_active_requests(), 100);
    assert_eq!(c.get_soft_limit(), 3);
    assert_eq!(c.get_hard_limit(), 0);
    assert_eq!(c.get_name(), "x");
}

#[test]
fn guard_release_on_failure() {
    let mut t = tier(&[("U1", 0), ("U2", 0)]);
    t.update_synced_rpcs(&watcher(&[Some(7), Some(7)]), 0).unwrap();
    let before = active(&t);
    let picked = t.next_upstream_server().unwrap();
    assert_eq!(picked, "U1");
    assert_eq!(active(&t), vec![1, 0]);
    let rpc = t.rpc_index(&picked).unwrap();
    t.release(rpc);
    assert_eq!(active(&t), before);
    assert_eq!(t.next_upstream_server(), Ok("U1".to_string()));
    t.release(0);
    t.release(0);
    t.release(9);
    assert_eq!(active(&t), vec![0, 0]);
}

#[test]
fn all_available_upstreams_are_returned() {
    let mut t = tier(&[("A", 1), ("B", 0), ("C", 0)]);
    t.update_synced_rpcs(&watcher(&[Some(9), Some(9), None]), 0).unwrap();
    assert_eq!(t.get_upstream_servers(), Ok(vec!["A".to_string(), "B".to_string()]));
    assert_eq!(t.get_upstream_servers(), Ok(vec!["B".to_string()]));
    assert_eq!(active(&t), vec![1, 2, 0]);
}

#[test]
fn less_loaded_upstream_is_preferred_on_update() {
    let mut t = tier(&[("A", 0), ("B", 0)]);
    let w = watcher(&[Some(9), Some(9)]);
    t.update_synced_rpcs(&w, 0).unwrap();
    assert_eq!(t.next_upstream_server(), Ok("A".to_string()));
    t.update_synced_rpcs(&w, 0).unwrap();
    assert_eq!(t.synced_rpcs(), &vec![1, 0]);
    assert_eq!(t.next_upstream_server(), Ok("B".to_string()));
    let conns = t.clone_connections();
    assert!(!conns[0].less_loaded(&conns[1]));
}

#[test]
fn earlier_refusal_wins_and_the_first_stays_on_a_tie() {
    let a = NotUntil { earliest_nanos: 5 };
    let b = NotUntil { earliest_nanos: 3 };
    assert_eq!(earlier_of(None, a), a);
    assert_eq!(earlier_of(Some(a), b), b);
    assert_eq!(earlier_of(Some(b), a), b);
    assert_eq!(earlier_of(Some(a), NotUntil { earliest_nanos: 5 }), a);
}

#[test]
fn a_refusal_past_the_deadline_is_a_deadline_error() {
    let refusal = NotUntil { earliest_nanos: 5 };
    assert_eq!(after_refusal(refusal, 4), Err(Web3ProxyError::Deadline));
    assert_eq!(after_refusal(refusal, 5), Ok(Admission::RetryAt(5)));
    assert_eq!(after_refusal(refusal, 6), Ok(Admission::RetryAt(5)));
}

#[test]
fn waiting_for_a_handle_admits_retries_or_gives_up() {
    let clock = PoolClock::new();
    let mut limited = Web3Connection::new("l".to_string(), 1, 1, &clock);
    assert_eq!(limited.wait_for_request_handle(0), Ok(Admission::Admitted));
    assert_eq!(limited.get_active_requests(), 1);
    assert_eq!(limited.wait_for_request_handle(0), Err(Web3ProxyError::Deadline));
    match limited.wait_for_request_handle(u64::MAX) {
        Ok(Admission::RetryAt(at)) => {
            assert!(at > 0);
            assert!(at <= 2_000_000_000);
        }
        other => panic!("expected a retry, got {:?}", other),
    }
    assert_eq!(limited.get_active_requests(), 1);
    limited.release();
    assert_eq!(limited.get_active_requests(), 0);
    limited.release();
    assert_eq!(limited.get_active_requests(), 0);
    let mut free = Web3Connection::new("f".to_string(), 1, 0, &clock);
    assert_eq!(free.wait_for_request_handle(0), Ok(Admission::Admitted));
    assert_eq!(free.wait_for_request_handle(0), Ok(Admission::Admitted));
}

#[test]
fn the_pool_clock_does_not_run_backwards() {
    let clock = PoolClock::new();
    let a = clock.now_nanos();
    let b = clock.now_nanos();
    assert!(a <= b);
}

#[test]
fn earliest_refusal_is_the_minimum_and_the_first_on_a_tie() {
    let at = |n: u64| NotUntil { earliest_nanos: n };
    assert_eq!(earliest_refusal(&vec![]), None);
    assert_eq!(earliest_refusal(&vec![at(7)]), Some(at(7)));
    assert_eq!(earliest_refusal(&vec![at(7), at(3), at(9)]), Some(at(3)));
    assert_eq!(earliest_refusal(&vec![at(3), at(7), at(9)]), Some(at(3)));
    assert_eq!(earliest_refusal(&vec![at(9), at(7), at(3)]), Some(at(3)));
    assert_eq!(earliest_refusal(&vec![at(4), at(4)]), Some(at(4)));
}

#[test]
fn the_earliest_of_two_refusals_is_returned() {
    // both limiters are used up; the faster one may be asked again sooner
    let mut t = tier(&[("slow", 1), ("fast", 100)]);
    t.update_synced_rpcs(&watcher(&[Some(5), Some(5)]), 0).unwrap();
    assert_eq!(t.next_upstream_index(), Ok(0));
    let mut taken = 0;
    while t.next_upstream_index() == Ok(1) {
        taken += 1;
        assert!(taken <= 100_000);
    }
    let single = match t.next_upstream_index() {
        Err(Some(not_until)) => not_until,
        other => panic!("expected a refusal, got {:?}", other),
    };
    // the slow upstream alone refuses for about a second, the fast one for
    // about a hundredth of it
    assert!(single.earliest_possible() < 500_000_000);
    assert!(matches!(t.get_upstream_indices(), Err(Some(n)) if n.earliest_possible() < 500_000_000));
}

#[test]
fn admissions_by_position_are_given_back_even_with_repeated_names() {
    let mut t = tier(&[("same", 0), ("same", 0), ("other", 0)]);
    t.update_synced_rpcs(&watcher(&[Some(1), Some(9), Some(9)]), 0).unwrap();
    assert_eq!(t.synced_rpcs(), &vec![1, 2]);
    let before = active(&t);
    let rpc = t.next_upstream_index().unwrap();
    assert_eq!(rpc, 1);
    assert_eq!(active(&t), vec![0, 1, 0]);
    t.release(rpc);
    assert_eq!(active(&t), before);
    let all = t.get_upstream_indices().unwrap();
    assert_eq!(all, vec![1, 2]);
    assert_eq!(active(&t), vec![0, 1, 1]);
    t.release_all(&all);
    assert_eq!(active(&t), before);
    t.release_all(&vec![]);
    assert_eq!(active(&t), before);
    assert_eq!(t.get_upstream_servers(), Ok(vec!["same".to_string(), "other".to_string()]));
}
