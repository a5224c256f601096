use cachebolt::admission::AdmissionController;
use cachebolt::config::LatencyFailover;
use cachebolt::fingerprint::{fingerprint, hash_uri};
use cachebolt::memory::CachedResponse;
use cachebolt::proxy::{ProxyState, build_response, strip_content_length};

fn default_ignored() -> Vec<String> {
    vec!["x-bypass-cache".into(), "x-refresh-cache".into(), "cache-control".into()]
}

fn no_rules() -> LatencyFailover {
    LatencyFailover { default_max_latency_ms: 1000, path_rules: vec![] }
}

#[test]
fn test_hash_uri_consistency() {
    let uri = "/api/test";
    let hash1 = hash_uri(uri);
    let hash2 = hash_uri(uri);
    assert_eq!(hash1, hash2, "Hashes should be consistent for the same input");
}

#[test]
fn test_hash_uri_differs_for_different_input() {
    let a = hash_uri("/a");
    let b = hash_uri("/b");
    assert_ne!(a, b);
}

#[test]
fn test_hash_uri_known_digest() {
    // SHA-256 of "abc", a published reference value.
    assert_eq!(
        hash_uri("abc"),
        "ba7816bf8f01cfea414140de5dae2223b00361a396177a9cb410ff61f20015ad"
    );
    assert_eq!(hash_uri("abc").len(), 64);
}

#[test]
fn test_fingerprint_of_headerless_request_hashes_uri_and_separator() {
    let fp = fingerprint("/x", &vec![], &default_ignored());
    assert_eq!(fp, hash_uri("/x|"));
}

#[test]
fn test_fingerprint_ignores_header_order_and_name_case() {
    let ignored = default_ignored();
    let h1 = vec![
        ("Accept".to_string(), "text/html".to_string()),
        ("X-Tenant".to_string(), "acme".to_string()),
    ];
    let h2 = vec![
        ("x-tenant".to_string(), "acme".to_string()),
        ("ACCEPT".to_string(), "text/html".to_string()),
    ];
    assert_eq!(fingerprint("/u", &h1, &ignored), fingerprint("/u", &h2, &ignored));
}

#[test]
fn test_fingerprint_unchanged_by_ignored_headers() {
    let ignored = default_ignored();
    let bare = vec![("Accept".to_string(), "text/html".to_string())];
    let with_ignored = vec![
        ("Accept".to_string(), "text/html".to_string()),
        ("Cache-Control".to_string(), "no-cache".to_string()),
        ("X-Bypass-Cache".to_string(), "true".to_string()),
    ];
    assert_eq!(fingerprint("/u", &bare, &ignored), fingerprint("/u", &with_ignored, &ignored));
}

#[test]
fn test_fingerprint_changes_with_relevant_header_value() {
    let ignored = default_ignored();
    let h1 = vec![("X-Tenant".to_string(), "acme".to_string())];
    let h2 = vec![("X-Tenant".to_string(), "other".to_string())];
    assert_ne!(fingerprint("/u", &h1, &ignored), fingerprint("/u", &h2, &ignored));
}

#[test]
fn test_build_response_with_headers() {
    let body = b"hello world".to_vec();
    let headers = vec![
        ("content-type".to_string(), "text/plain".to_string()),
        ("x-custom".to_string(), "123".to_string()),
    ];

    let response = build_response(body.clone(), headers.clone());
    assert_eq!(response.status, 200);
    assert_eq!(response.body, body);
    assert_eq!(response.headers, headers);
}

#[test]
fn test_build_response_sets_default_content_type() {
    let body = b"no content type".to_vec();
    let headers = vec![("x-something".to_string(), "value".to_string())];

    let response = build_response(body, headers);
    let ct = response
        .headers
        .iter()
        .find(|(k, _)| k.eq_ignore_ascii_case("content-type"))
        .map(|(_, v)| v.clone());
    assert_eq!(ct.as_deref(), Some("application/octet-stream"));
}

#[test]
fn test_strip_content_length_removes_only_that_header() {
    let headers = vec![
        ("Content-Length".to_string(), "42".to_string()),
        ("content-type".to_string(), "text/plain".to_string()),
    ];
    let stripped = strip_content_length(headers);
    assert_eq!(stripped, vec![("content-type".to_string(), "text/plain".to_string())]);
}

#[test]
fn test_try_cache_returns_502_when_empty() {
    let mut state = ProxyState::new();
    let plan = state.plan_request("/missing", &vec![], &default_ignored(), 0, 0);
    assert!(state.try_cache_hot(&plan).is_none());
    let (resp, evict) = state.on_durable_result(&plan, None, 0, 100);
    assert_eq!(resp.status, 502);
    assert_eq!(resp.body, b"Downstream error and no cache".to_vec());
    assert!(evict.is_none());
}

#[test]
fn test_concurrency_semaphore_limit_blocks() {
    let mut semaphore = AdmissionController::new(1);
    assert!(semaphore.try_acquire(), "first should succeed");
    assert!(!semaphore.try_acquire(), "second should fail due to limit");
}

#[test]
fn test_semaphore_enforces_limit() {
    let limit = 5;
    let mut semaphore = AdmissionController::new(limit);
    for _ in 0..limit {
        assert!(semaphore.try_acquire(), "Should acquire permit within limit");
    }
    assert!(!semaphore.try_acquire(), "Should fail when exceeding permit limit");

    semaphore.release();
    assert!(semaphore.try_acquire(), "Should acquire permit after releasing one");
}

#[test]
fn test_proxy_handler_downstream_fail_no_cache() {
    let mut state = ProxyState::new();
    let plan = state.plan_request("/fail", &vec![], &default_ignored(), 10, 0);
    // The origin call failed; both tiers are empty, so the request fails.
    assert!(state.try_cache_hot(&plan).is_none());
    let (resp, _evict) = state.on_durable_result(&plan, None, 0, 100);
    assert_eq!(resp.status, 502);
}

#[test]
fn test_proxy_handler_concurrency_full_and_no_cache() {
    let mut state = ProxyState::new();
    let mut semaphore = AdmissionController::new(1);
    assert!(semaphore.try_acquire(), "should acquire");

    // Saturated: the one permit is held, so the next request is rejected.
    assert!(!semaphore.try_acquire());
    let plan = state.plan_request("/uncached", &vec![], &default_ignored(), 10, 0);
    let resp = state.handle_saturated(&plan);
    assert_eq!(resp.status, 502);
    let body = String::from_utf8(resp.body).unwrap();
    assert!(
        body.contains("Too many concurrent requests"),
        "Expected fallback 502 message, got: {}",
        body
    );
}

#[test]
fn test_saturated_request_served_from_cache() {
    let mut state = ProxyState::new();
    let plan = state.plan_request("/warm", &vec![], &default_ignored(), 0, 0);
    let env = CachedResponse {
        body: b"warm".to_vec(),
        headers: vec![("content-type".into(), "text/plain".into())],
        inserted_at: 0,
    };
    state.memory.load_into_memory(vec![(plan.key.clone(), env)], 100);
    let resp = state.handle_saturated(&plan);
    assert_eq!(resp.status, 200);
    assert_eq!(resp.body, b"warm".to_vec());
    assert_eq!(
        resp.headers,
        vec![("content-type".to_string(), "text/plain".to_string())]
    );
}

#[test]
fn test_finish_origin_response_stores_and_persists() {
    let mut state = ProxyState::new();
    let plan = state.plan_request("/ok", &vec![], &default_ignored(), 0, 0);
    let breached = state.observe_latency("/ok", 20, &no_rules(), 0);
    assert!(!breached);
    let outcome = state.finish_origin_response(
        &plan,
        "/ok",
        200,
        vec![("Content-Length".into(), "5".into()), ("x-a".into(), "b".into())],
        b"hello".to_vec(),
        breached,
        0,
        0,
        100,
    );
    assert_eq!(outcome.response.status, 200);
    assert_eq!(outcome.response.body, b"hello".to_vec());
    assert_eq!(outcome.response.headers, vec![("x-a".to_string(), "b".to_string())]);
    let job = outcome.persist.expect("a 2xx response below threshold is persisted");
    assert_eq!(job.key, plan.key);
    assert_eq!(job.body, b"hello".to_vec());
    assert_eq!(job.headers, vec![("x-a".to_string(), "b".to_string())]);
    assert!(outcome.evict.is_some(), "a store runs the eviction pass");
    assert_eq!(state.memory.len(), 1);
    // The stored envelope carries the stripped headers.
    let cached = state.memory.get_from_memory(&plan.key).unwrap();
    assert_eq!(cached.headers, vec![("x-a".to_string(), "b".to_string())]);
}

#[test]
fn test_finish_origin_response_skips_store_on_failure_status() {
    let mut state = ProxyState::new();
    let plan = state.plan_request("/err", &vec![], &default_ignored(), 0, 0);
    let outcome = state.finish_origin_response(
        &plan,
        "/err",
        503,
        vec![],
        b"oops".to_vec(),
        false,
        0,
        0,
        100,
    );
    assert_eq!(outcome.response.status, 503);
    assert!(outcome.persist.is_none());
    assert!(outcome.evict.is_none());
    assert_eq!(state.memory.len(), 0);
}
