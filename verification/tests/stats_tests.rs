use tg_ws_proxy::proxy::server::{may_stop, serve, ServerAction, ServerEvent};
use tg_ws_proxy::proxy::stats::{human_bytes, Stats};

// The same sizes by floating point.
fn by_float(n: u64) -> String {
    let units = ["B", "KB", "MB", "GB", "TB"];
    let mut size = n as f64;
    for unit in &units {
        if size < 1024.0 {
            return format!("{:.1}{}", size, unit);
        }
        size /= 1024.0;
    }
    format!("{:.1}TB", size)
}

#[test]
fn sizes_are_shown_in_the_largest_unit() {
    assert_eq!(human_bytes(0), "0.0B");
    assert_eq!(human_bytes(1023), "1023.0B");
    assert_eq!(human_bytes(1024), "1.0KB");
    assert_eq!(human_bytes(1280), "1.2KB");
    assert_eq!(human_bytes(1536), "1.5KB");
    assert_eq!(human_bytes(5 * 1024 * 1024), "5.0MB");
    assert_eq!(human_bytes(1 << 30), "1.0GB");
    assert_eq!(human_bytes(1 << 40), "1.0TB");
    assert_eq!(human_bytes(1 << 50), "1.0TB");
    assert_eq!(human_bytes(u64::MAX), by_float(u64::MAX));
}

#[test]
fn sizes_are_those_of_floating_point() {
    let mut n: u64 = 1;
    for i in 0..200_000u64 {
        n = n.wrapping_mul(6364136223846793005).wrapping_add(1442695040888963407);
        let value = n >> (i % 64);
        assert_eq!(human_bytes(value), by_float(value), "{}", value);
    }
    for shift in 0..64 {
        for offset in 0..200u64 {
            let base = 1u64 << shift;
            for value in [base.wrapping_add(offset), base.wrapping_sub(offset)] {
                assert_eq!(human_bytes(value), by_float(value), "{}", value);
            }
        }
    }
    for tenth in 0..2000u64 {
        let value = tenth * 1024 / 20;
        assert_eq!(human_bytes(value), by_float(value), "{}", value);
    }
}

#[test]
fn the_summary_shows_every_counter() {
    assert_eq!(
        Stats::new().summary(),
        "total=0 active=0 ws=0 tcp_fb=0 cf=0 bad=0 masked=0 err=0 pool=n/a cf_pool=n/a \
         up=0.0B down=0.0B"
    );
    let stats = Stats {
        connections_total: 1,
        connections_active: -2,
        connections_ws: 3,
        connections_tcp_fallback: 4,
        connections_cfproxy: 5,
        connections_bad: 6,
        connections_masked: 7,
        ws_errors: 8,
        bytes_up: 2048,
        bytes_down: 10,
        pool_hits: 9,
        pool_misses: 1,
        cf_pool_hits: 0,
        cf_pool_misses: 12,
    };
    assert_eq!(
        stats.summary(),
        "total=1 active=-2 ws=3 tcp_fb=4 cf=5 bad=6 masked=7 err=8 pool=9/10 cf_pool=0/12 \
         up=2.0KB down=10.0B"
    );
    let fresh: Stats = Default::default();
    assert_eq!(fresh.summary(), Stats::new().summary());
}

#[test]
fn the_server_counts_its_clients() {
    let mut totals = Stats::new();
    assert_eq!(serve(ServerEvent::Accepted, &mut totals), ServerAction::Serve);
    assert_eq!(serve(ServerEvent::Accepted, &mut totals), ServerAction::Serve);
    assert_eq!(serve(ServerEvent::AcceptFailed, &mut totals), ServerAction::Wait);
    assert_eq!((totals.connections_total, totals.connections_active), (2, 2));
    assert_eq!(serve(ServerEvent::Disconnected, &mut totals), ServerAction::Wait);
    assert_eq!((totals.connections_total, totals.connections_active), (2, 1));
    assert_eq!(serve(ServerEvent::Shutdown, &mut totals), ServerAction::Stop);
    assert!(!may_stop(&totals, 9, 10));
    assert!(may_stop(&totals, 10, 10));
    serve(ServerEvent::Disconnected, &mut totals);
    assert!(may_stop(&totals, 0, 10));
}
