use std::collections::HashMap;
use tg_ws_proxy::proxy::pool::{
    CfWorkerPool, PoolKey, RefillJob, Taken, WsPool, MAX_IDLE_NS, POOL_CONNECT_SECS,
};
use tg_ws_proxy::proxy::stats::Stats;

fn keys(jobs: &[RefillJob]) -> Vec<String> {
    jobs.iter().map(|job| format!("{:?} {}", job.key, job.target)).collect()
}

fn parts(taken: Taken<&'static str>) -> (Option<&'static str>, Vec<&'static str>, bool) {
    (taken.socket, taken.stale, taken.refill)
}

#[test]
fn the_oldest_usable_connection_is_given_out() {
    let mut totals = Stats::new();
    let mut pool: WsPool<&'static str> = WsPool::new();
    pool.add(2, false, "old", 0, false);
    pool.add(2, true, "media", 500, false);
    pool.add(2, false, "closed", 600, true);
    pool.add(2, false, "first", 700, false);
    pool.add(2, false, "second", 800, false);
    let now = MAX_IDLE_NS + 1;
    assert_eq!(
        parts(pool.get(2, false, now, &mut totals)),
        (Some("first"), vec!["old", "closed"], true)
    );
    assert_eq!(parts(pool.get(2, false, now, &mut totals)), (Some("second"), vec![], false));
    assert_eq!(parts(pool.get(2, false, now, &mut totals)), (None, vec![], false));
    assert_eq!(parts(pool.get(2, true, now, &mut totals)), (Some("media"), vec![], true));
    assert_eq!((totals.pool_hits, totals.pool_misses), (3, 1));
}

#[test]
fn a_connection_can_be_used_for_two_minutes() {
    let mut totals = Stats::new();
    let mut pool: WsPool<&'static str> = Default::default();
    pool.add(1, false, "a", 1000, false);
    pool.add(1, false, "b", 1000, false);
    pool.add(1, false, "c", u64::MAX, false);
    assert_eq!(parts(pool.get(1, false, 1000 + MAX_IDLE_NS, &mut totals)).0, Some("a"));
    assert_eq!(
        parts(pool.get(1, false, 1001 + MAX_IDLE_NS, &mut totals)),
        (Some("c"), vec!["b"], false)
    );
}

#[test]
fn a_refill_makes_what_is_missing() {
    let mut totals = Stats::new();
    let mut pool: WsPool<&'static str> = WsPool::new();
    assert_eq!(pool.needed(2, false, 4), 4);
    pool.add(2, false, "a", 0, false);
    assert_eq!((pool.needed(2, false, 4), pool.needed(2, false, 0)), (3, 0));
    assert!(pool.get(3, false, 0, &mut totals).refill);
    assert!(!pool.get(3, false, 0, &mut totals).refill);
    pool.finish_refill(3, false);
    assert!(pool.get(3, false, 0, &mut totals).refill);
    pool.reset();
    assert_eq!(pool.needed(2, false, 4), 4);
    assert!(pool.get(3, false, 0, &mut totals).refill);
}

#[test]
fn the_start_fills_the_pool_once_for_each_data_centre() {
    let mut totals = Stats::new();
    let mut pool: WsPool<&'static str> = WsPool::new();
    assert!(pool.get(4, true, 0, &mut totals).refill);
    let redirects = vec![
        (2u32, "1.1.1.1".to_string()),
        (4, "2.2.2.2".to_string()),
        (2, "3.3.3.3".to_string()),
    ];
    assert_eq!(
        keys(&pool.warmup(&redirects)),
        vec!["Dc(2, false) 1.1.1.1", "Dc(2, true) 1.1.1.1", "Dc(4, false) 2.2.2.2"]
    );
    assert!(pool.warmup(&redirects).is_empty());
}

#[test]
fn worker_connections_are_kept_apart() {
    let mut totals = Stats::new();
    let mut pool: CfWorkerPool<&'static str> = CfWorkerPool::new();
    pool.add(2, "a.dev", "a", 0, false);
    pool.add(2, "b.dev", "b", 0, false);
    assert_eq!(parts(pool.get(1, "a.dev", 0, &mut totals)), (None, vec![], true));
    assert_eq!(parts(pool.get(2, "b.dev", 0, &mut totals)), (Some("b"), vec![], true));
    assert_eq!(
        parts(pool.get(2, "a.dev", MAX_IDLE_NS + 1, &mut totals)),
        (None, vec!["a"], true)
    );
    assert_eq!((totals.cf_pool_hits, totals.cf_pool_misses), (1, 2));
    assert_eq!((totals.pool_hits, totals.pool_misses), (0, 0));
    pool.add(2, "a.dev", "again", 0, false);
    assert_eq!(pool.needed(2, "a.dev", 3), 2);
    pool.finish_refill(2, "a.dev");
    assert!(pool.get(2, "a.dev", 0, &mut totals).refill);
    pool.reset();
    assert_eq!(pool.needed(2, "a.dev", 3), 3);
    let fresh: CfWorkerPool<&'static str> = Default::default();
    assert_eq!(fresh.needed(2, "a.dev", 1), 1);
}

#[test]
fn workers_are_filled_for_data_centres_without_an_address() {
    let mut pool: CfWorkerPool<&'static str> = CfWorkerPool::new();
    let redirects = HashMap::from([
        (2u32, "x".to_string()),
        (4, "x".to_string()),
        (203, "x".to_string()),
        (77, "x".to_string()),
    ]);
    let workers = vec!["a.dev".to_string(), "b.dev".to_string()];
    let jobs = pool.warmup(&workers, &redirects);
    assert_eq!(
        keys(&jobs),
        vec![
            "Worker(1, \"a.dev\") 149.154.175.50",
            "Worker(3, \"a.dev\") 149.154.175.100",
            "Worker(5, \"a.dev\") 149.154.171.5",
            "Worker(1, \"b.dev\") 149.154.175.50",
            "Worker(3, \"b.dev\") 149.154.175.100",
            "Worker(5, \"b.dev\") 149.154.171.5",
        ]
    );
    assert!(pool.warmup(&workers, &redirects).is_empty());
    assert!(pool.warmup(&Vec::new(), &redirects).is_empty());
}

#[test]
fn a_job_says_how_to_connect() {
    let job = RefillJob { key: PoolKey::Dc(203, true), target: "1.2.3.4".to_string() };
    let plan = job.plan();
    assert_eq!(plan.host, "1.2.3.4");
    assert_eq!(plan.domains, vec!["kws2-1.web.telegram.org", "kws2.web.telegram.org"]);
    assert_eq!(plan.path, "/apiws");
    assert_eq!(plan.after_failure(0, true), Some(1));
    assert_eq!(plan.after_failure(0, false), None);
    assert_eq!(plan.after_failure(1, true), None);

    let job = RefillJob {
        key: PoolKey::Worker(5, "a.dev".to_string()),
        target: "149.154.171.5".to_string(),
    };
    let plan = job.plan();
    assert_eq!(plan.host, "a.dev");
    assert_eq!(plan.domains, vec!["a.dev"]);
    assert_eq!(plan.path, "/apiws?dst=149.154.171.5&dc=5");
    assert_eq!(plan.after_failure(0, true), None);
    assert_eq!(POOL_CONNECT_SECS, 8);
}
