use cachebolt::config::{
    CacheSettings, Config, ConfigError, LatencyFailover, MaxLatencyRule, StorageBackend,
    default_admin_port, default_proxy_port,
};

fn base_config() -> Config {
    Config {
        app_id: "x".into(),
        gcs_bucket: "g".into(),
        s3_bucket: "s".into(),
        azure_container: "a".into(),
        max_concurrent_requests: 1,
        downstream_base_url: "http://x".into(),
        cache: CacheSettings { memory_threshold: 90, refresh_percentage: 10, ttl_seconds: 300 },
        latency_failover: LatencyFailover {
            default_max_latency_ms: 200,
            path_rules: vec![],
        },
        storage_backend: StorageBackend::Local,
        storage_backend_failures: 0,
        backend_retry_interval_secs: 0,
        ignored_headers: None,
        proxy_port: 3000,
        admin_port: 3001,
    }
}

#[test]
fn test_manual_config_set() {
    let config = Config {
        app_id: "x".into(),
        gcs_bucket: "g".into(),
        s3_bucket: "s".into(),
        azure_container: "a".into(),
        max_concurrent_requests: 1,
        downstream_base_url: "http://x".into(),
        cache: CacheSettings { memory_threshold: 90, refresh_percentage: 10, ttl_seconds: 300 },
        latency_failover: LatencyFailover { default_max_latency_ms: 200, path_rules: vec![] },
        storage_backend: StorageBackend::Local,
        storage_backend_failures: 0,
        backend_retry_interval_secs: 0,
        ignored_headers: None,
        proxy_port: 3000,
        admin_port: 3001,
    };

    assert_eq!(config.cache.memory_threshold, 90);
    assert_eq!(config.storage_backend, StorageBackend::Local);
}

#[test]
fn test_validate_accepts_sound_config() {
    let cfg = base_config();
    assert!(cfg.validate().is_ok());
}

#[test]
fn test_validate_rejects_blank_app_id() {
    let mut cfg = base_config();
    cfg.app_id = "   ".into();
    assert_eq!(cfg.validate(), Err(ConfigError::AppIdEmpty));
}

#[test]
fn test_validate_rejects_threshold_out_of_range() {
    let mut cfg = base_config();
    cfg.cache.memory_threshold = 0;
    assert_eq!(cfg.validate(), Err(ConfigError::MemoryThresholdOutOfRange));
    cfg.cache.memory_threshold = 101;
    assert_eq!(cfg.validate(), Err(ConfigError::MemoryThresholdOutOfRange));
    cfg.cache.memory_threshold = 100;
    assert!(cfg.validate().is_ok());
}

#[test]
fn test_validate_rejects_blank_bucket_of_selected_backend() {
    let mut cfg = base_config();
    cfg.storage_backend = StorageBackend::Gcs;
    cfg.gcs_bucket = "".into();
    assert_eq!(cfg.validate(), Err(ConfigError::GcsBucketEmpty));

    let mut cfg = base_config();
    cfg.storage_backend = StorageBackend::S3;
    cfg.s3_bucket = " ".into();
    assert_eq!(cfg.validate(), Err(ConfigError::S3BucketEmpty));

    let mut cfg = base_config();
    cfg.storage_backend = StorageBackend::Azure;
    cfg.azure_container = "".into();
    assert_eq!(cfg.validate(), Err(ConfigError::AzureContainerEmpty));

    let mut cfg = base_config();
    cfg.storage_backend = StorageBackend::Local;
    cfg.gcs_bucket = "".into();
    cfg.s3_bucket = "".into();
    cfg.azure_container = "".into();
    assert!(cfg.validate().is_ok());
}

#[test]
fn test_ignored_headers_set_contains_defaults() {
    let cfg = base_config();
    let set = cfg.ignored_headers_set();
    assert!(set.iter().any(|h| h == "x-bypass-cache"));
    assert!(set.iter().any(|h| h == "x-refresh-cache"));
    assert!(set.iter().any(|h| h == "cache-control"));
}

#[test]
fn test_ignored_headers_set_lowercases_configured_entries() {
    let mut cfg = base_config();
    cfg.ignored_headers = Some(vec!["X-Trace-Id".into(), "authorization".into()]);
    let set = cfg.ignored_headers_set();
    assert!(set.iter().any(|h| h == "x-trace-id"));
    assert!(set.iter().any(|h| h == "authorization"));
    assert!(!set.iter().any(|h| h == "X-Trace-Id"));
}

#[test]
fn test_default_ports() {
    assert_eq!(default_proxy_port(), 3000);
    assert_eq!(default_admin_port(), 3001);
}
