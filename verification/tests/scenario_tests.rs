//! End-to-end scenarios driven through the engine's decision steps: the
//! origin and the durable transport are simulated by handing the engine the
//! values they would have produced.

use cachebolt::admin::{backend_purge_requested, invalidate_memory, InvalidateParams};
use cachebolt::admission::AdmissionController;
use cachebolt::codec::{decode_record, encode_record};
use cachebolt::config::LatencyFailover;
use cachebolt::memory::CachedResponse;
use cachebolt::proxy::ProxyState;

fn default_ignored() -> Vec<String> {
    vec!["x-bypass-cache".into(), "x-refresh-cache".into(), "cache-control".into()]
}

fn failover_rules(default_ms: u64) -> LatencyFailover {
    LatencyFailover { default_max_latency_ms: default_ms, path_rules: vec![] }
}

#[test]
fn scenario_cold_miss_then_hit() {
    let mut state = ProxyState::new();
    let mut admission = AdmissionController::new(10);
    let rules = failover_rules(1000);

    // First request: cold miss, forwarded; origin returns 200 "hello" in 20 ms.
    let plan = state.plan_request("/x", &vec![], &default_ignored(), 0, 0);
    assert!(!plan.failover);
    assert!(admission.try_acquire());
    let breached = state.observe_latency("/x", 20, &rules, 20);
    admission.release();
    assert!(!breached);
    let outcome = state.finish_origin_response(
        &plan,
        "/x",
        200,
        vec![("content-type".into(), "text/plain".into())],
        b"hello".to_vec(),
        breached,
        0,
        20,
        100,
    );
    assert_eq!(outcome.response.status, 200);
    assert_eq!(outcome.response.body, b"hello".to_vec());
    assert!(outcome.persist.is_some());
    assert_eq!(state.memory.len(), 1);

    // Second request: the entry is in the hot tier and serves without the
    // origin.
    let plan2 = state.plan_request("/x", &vec![], &default_ignored(), 0, 40);
    let hit = state.try_cache_hot(&plan2).expect("hot tier must hold the entry");
    assert_eq!(hit.status, 200);
    assert_eq!(hit.body, b"hello".to_vec());
    assert_eq!(hit.headers, vec![("content-type".to_string(), "text/plain".to_string())]);
    assert_eq!(state.memory.len(), 1);
}

#[test]
fn scenario_origin_fails_durable_hit() {
    let mut state = ProxyState::new();

    // Seed the durable store with the record for /y.
    let seeded_blob = encode_record(&b"cached".to_vec(), &vec![]);

    // Origin refuses the connection; the hot tier is empty, so the engine
    // asks for the durable record.
    let plan = state.plan_request("/y", &vec![], &default_ignored(), 0, 0);
    assert!(state.try_cache_hot(&plan).is_none());
    let loaded = decode_record(&seeded_blob);
    let (resp, evict) = state.on_durable_result(&plan, loaded, 0, 100);
    assert_eq!(resp.status, 200);
    assert_eq!(resp.body, b"cached".to_vec());
    assert!(evict.is_some(), "a durable hit runs the eviction pass");

    // The durable hit was promoted into the hot tier.
    assert_eq!(state.memory.len(), 1);
    assert!(state.try_cache_hot(&plan).is_some());
}

#[test]
fn scenario_latency_breach_opens_circuit() {
    let mut state = ProxyState::new();
    let rules = failover_rules(50);

    // First request: origin takes 200 ms and returns 200 "slow".
    let plan = state.plan_request("/z", &vec![], &default_ignored(), 0, 0);
    assert!(!plan.failover);
    let breached = state.observe_latency("/z", 200, &rules, 200);
    assert!(breached);
    let outcome = state.finish_origin_response(
        &plan,
        "/z",
        200,
        vec![],
        b"slow".to_vec(),
        breached,
        0,
        200,
        100,
    );
    assert_eq!(outcome.response.status, 200);
    assert_eq!(outcome.response.body, b"slow".to_vec());
    assert!(state.circuit.should_failover("/z", 200));
    assert_eq!(state.memory.len(), 1);

    // Second request within the window: the circuit diverts it to the cache
    // without contacting the origin.
    let plan2 = state.plan_request("/z", &vec![], &default_ignored(), 0, 10_000);
    assert!(plan2.failover);
    let hit = state.try_cache_hot(&plan2).expect("failover must serve from the hot tier");
    assert_eq!(hit.status, 200);
    assert_eq!(hit.body, b"slow".to_vec());
}

#[test]
fn scenario_saturation_fallback() {
    let mut state = ProxyState::new();
    let mut admission = AdmissionController::new(1);

    // Hold the one permit externally.
    assert!(admission.try_acquire());

    // Request with the hot tier empty: 502 with the saturation diagnostic.
    let plan = state.plan_request("/q", &vec![], &default_ignored(), 0, 0);
    assert!(!admission.try_acquire());
    let resp = state.handle_saturated(&plan);
    assert_eq!(resp.status, 502);
    assert!(String::from_utf8(resp.body).unwrap().contains("Too many concurrent"));

    // Pre-seed the hot tier for /q: the saturated request now serves it.
    let env = CachedResponse { body: b"seeded".to_vec(), headers: vec![], inserted_at: 0 };
    state.memory.load_into_memory(vec![(plan.key.clone(), env)], 100);
    assert!(!admission.try_acquire());
    let resp = state.handle_saturated(&plan);
    assert_eq!(resp.status, 200);
    assert_eq!(resp.body, b"seeded".to_vec());
}

#[test]
fn scenario_bypass_header() {
    let mut state = ProxyState::new();
    let headers = vec![("x-bypass-cache".to_string(), "true".to_string())];

    let plan = state.plan_request("/a", &headers, &default_ignored(), 0, 0);
    assert!(plan.bypass);
    assert!(!plan.failover, "bypass forces a refresh, which disables failover");

    // Origin returns 200 "fresh"; neither tier is written.
    let breached = state.observe_latency("/a", 10, &failover_rules(1000), 10);
    let outcome = state.finish_origin_response(
        &plan,
        "/a",
        200,
        vec![],
        b"fresh".to_vec(),
        breached,
        0,
        10,
        100,
    );
    assert_eq!(outcome.response.status, 200);
    assert_eq!(outcome.response.body, b"fresh".to_vec());
    assert!(outcome.persist.is_none(), "bypass must not persist");
    assert_eq!(state.memory.len(), 0, "bypass must not write the hot tier");
    assert!(state.try_cache_hot(&plan).is_none());
}

#[test]
fn scenario_admin_purge() {
    let mut state = ProxyState::new();
    let env = |b: &str| CachedResponse {
        body: b.as_bytes().to_vec(),
        headers: vec![],
        inserted_at: 0,
    };
    state.memory.load_into_memory(
        vec![
            ("f1".to_string(), env("1")),
            ("f2".to_string(), env("2")),
            ("f3".to_string(), env("3")),
        ],
        100,
    );
    assert_eq!(state.memory.len(), 3);

    let params = InvalidateParams { backend: Some(false) };
    assert!(!backend_purge_requested(&params), "backend=false leaves the durable tier alone");
    let count = invalidate_memory(&mut state.memory);
    assert_eq!(count, 3);
    assert_eq!(state.memory.len(), 0);
}
