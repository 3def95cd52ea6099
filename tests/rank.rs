use edge_scan::address::Ipv4;
use edge_scan::expand::expand_blocks;
use edge_scan::rank::{collect_successes, rank_outcomes, rank_results, ProbeResult};
use edge_scan::sample::sample_pool;

fn pr(d: u8, ms: u128) -> ProbeResult {
    ProbeResult { addr: Ipv4::new(10, 0, 0, d), latency_ms: ms }
}

#[test]
fn ranking_sorts_and_truncates() {
    let r = rank_results(&vec![pr(1, 50), pr(2, 10), pr(3, 30)], 2);
    assert_eq!(r, vec![pr(2, 10), pr(3, 30)]);
    let all = rank_results(&vec![pr(1, 50), pr(2, 10), pr(3, 30)], 10);
    assert_eq!(all, vec![pr(2, 10), pr(3, 30), pr(1, 50)]);
    assert!(rank_results(&vec![pr(1, 5)], 0).is_empty());
    assert!(rank_results(&vec![], 3).is_empty());
}

#[test]
fn equal_latencies_keep_their_order() {
    let r = rank_results(&vec![pr(4, 20), pr(1, 20), pr(3, 5), pr(2, 20)], 4);
    assert_eq!(r, vec![pr(3, 5), pr(4, 20), pr(1, 20), pr(2, 20)]);
}

#[test]
fn failures_leave_no_record() {
    let o = vec![
        (Ipv4::new(10, 0, 0, 1), None),
        (Ipv4::new(10, 0, 0, 2), Some(70)),
        (Ipv4::new(10, 0, 0, 3), None),
    ];
    assert_eq!(collect_successes(&o), vec![pr(2, 70)]);
}

#[test]
fn all_timeouts_give_empty_result() {
    let o = vec![(Ipv4::new(1, 8, 8, 1), None), (Ipv4::new(1, 8, 8, 2), None)];
    assert!(rank_outcomes(&o, 1).is_empty());
}

#[test]
fn no_targets_no_attempts() {
    let targets = sample_pool(&Vec::new(), 10, 0);
    assert!(targets.is_empty());
    assert!(rank_outcomes(&Vec::new(), 1).is_empty());
}

#[test]
fn two_address_pool_top_one() {
    let pool = expand_blocks(&vec!["198.51.100.5/31".to_string()]).unwrap();
    assert_eq!(pool, vec![Ipv4::new(198, 51, 100, 4), Ipv4::new(198, 51, 100, 5)]);
    let targets = sample_pool(&pool, 10, 99);
    assert_eq!(targets.len(), 2);
    let outcomes = vec![(targets[0], Some(120)), (targets[1], Some(80))];
    let top = rank_outcomes(&outcomes, 1);
    assert_eq!(top, vec![ProbeResult { addr: targets[1], latency_ms: 80 }]);
}
