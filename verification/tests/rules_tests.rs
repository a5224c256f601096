use cachebolt::bypass::should_bypass_cache;
use cachebolt::config::{LatencyFailover, MaxLatencyRule};
use cachebolt::latency::{LatencyCircuit, get_max_latency_for_path, FAILOVER_WINDOW_MS};
use cachebolt::refresh::RefreshSampler;

fn rules() -> LatencyFailover {
    LatencyFailover {
        default_max_latency_ms: 1500,
        path_rules: vec![
            MaxLatencyRule { pattern: "^/api/slow.*".to_string(), max_latency_ms: 3000 },
            MaxLatencyRule { pattern: "^/internal/healthz$".to_string(), max_latency_ms: 100 },
        ],
    }
}

#[test]
fn test_mark_and_should_failover() {
    let mut circuit = LatencyCircuit::new();
    let key = "/api/test";
    let t0: u64 = 1_000_000;
    assert!(!circuit.should_failover(key, t0), "Should not failover initially");

    circuit.mark_latency_fail(key, t0);
    assert!(circuit.should_failover(key, t0), "Should failover after mark");

    let after_expiry = t0 + 600_000;
    assert!(!circuit.should_failover(key, after_expiry), "Should not failover after expiry");
}

#[test]
fn test_latency_threshold_matching() {
    let cfg = rules();
    assert_eq!(get_max_latency_for_path(&cfg, "/api/slow-response"), 3000);
    assert_eq!(get_max_latency_for_path(&cfg, "/internal/healthz"), 100);
    assert_eq!(get_max_latency_for_path(&cfg, "/something/else"), 1500);
}

#[test]
fn test_latency_threshold_with_no_rules_returns_default() {
    let cfg = LatencyFailover { default_max_latency_ms: 1234, path_rules: vec![] };
    assert_eq!(get_max_latency_for_path(&cfg, "/something"), 1234);
}

#[test]
fn test_mark_latency_fail_overwrites_timestamp() {
    let mut circuit = LatencyCircuit::new();
    let key = "/overwrite/test";
    circuit.mark_latency_fail(key, 1_000);
    circuit.mark_latency_fail(key, 400_000);
    // The first mark alone would have expired by now; the overwrite keeps the
    // circuit open.
    let now = 1_000 + FAILOVER_WINDOW_MS;
    assert!(circuit.should_failover(key, now), "Timestamp should be updated on overwrite");
}

#[test]
fn test_latency_rule_with_invalid_regex_is_ignored() {
    let mut cfg = rules();
    cfg.path_rules.push(MaxLatencyRule { pattern: "[unclosed".into(), max_latency_ms: 9999 });
    assert_eq!(get_max_latency_for_path(&cfg, "/any"), 1500);
}

#[test]
fn test_failover_window_lasts_300_seconds() {
    let mut circuit = LatencyCircuit::new();
    circuit.mark_latency_fail("/u", 10_000);
    assert!(circuit.should_failover("/u", 10_000 + FAILOVER_WINDOW_MS - 1));
    assert!(!circuit.should_failover("/u", 10_000 + FAILOVER_WINDOW_MS));
}

#[test]
fn test_should_refresh_every_tenth_hit() {
    let mut sampler = RefreshSampler::new();
    for hit in 1..=30u64 {
        let refreshed = sampler.should_refresh("fp", 10);
        assert_eq!(refreshed, hit % 10 == 0, "hit {hit}");
    }
}

#[test]
fn test_should_refresh_zero_percentage_never_refreshes() {
    let mut sampler = RefreshSampler::new();
    for _ in 0..50 {
        assert!(!sampler.should_refresh("fp", 0));
    }
}

#[test]
fn test_should_refresh_counts_per_fingerprint() {
    let mut sampler = RefreshSampler::new();
    // Interleave two keys at p=50: each refreshes on its own 2nd hit.
    assert!(!sampler.should_refresh("a", 50));
    assert!(!sampler.should_refresh("b", 50));
    assert!(sampler.should_refresh("a", 50));
    assert!(sampler.should_refresh("b", 50));
}

#[test]
fn test_bypass_on_cache_control_no_cache() {
    let headers = vec![("Cache-Control".to_string(), "public, NO-CACHE".to_string())];
    assert!(should_bypass_cache(&headers));
}

#[test]
fn test_bypass_on_x_bypass_cache_true() {
    let headers = vec![("X-Bypass-Cache".to_string(), "TRUE".to_string())];
    assert!(should_bypass_cache(&headers));
}

#[test]
fn test_no_bypass_on_ordinary_headers() {
    let headers = vec![
        ("Cache-Control".to_string(), "max-age=60".to_string()),
        ("X-Bypass-Cache".to_string(), "false".to_string()),
        ("Accept".to_string(), "*/*".to_string()),
    ];
    assert!(!should_bypass_cache(&headers));
}
