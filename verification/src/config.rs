//! Application configuration: tunable settings for the proxy, the cache tiers,
//! and the latency-failover rules, together with the validation that must pass
//! before the proxy may start.

use vstd::prelude::*;

verus! {

use vstd::utf8::encode_utf8;
use vstd::string::StringSliceAdditionalSpecFns;
use vstd::string::StringExecFns;
use crate::text::lower_chars;

/// Supported persistent storage backends for the cache.
#[derive(Debug, Clone, Copy, PartialEq, Eq, Structural)]
pub enum StorageBackend {
    Gcs,
    S3,
    Azure,
    Local,
}

/// Cache-related settings for memory usage and re-cache policies.
#[derive(Debug, Clone)]
pub struct CacheSettings {
    /// Memory usage threshold as a percentage (e.g., 80 = 80%).
    pub memory_threshold: usize,
    /// Percentage of fallback requests that should attempt revalidation.
    pub refresh_percentage: u8,
    /// Time-to-live (TTL) for cached responses in seconds.
    pub ttl_seconds: u64,
}

/// Describes a latency threshold for request paths matching a regex pattern.
#[derive(Debug, Clone)]
pub struct MaxLatencyRule {
    /// Regex pattern to match request paths (e.g., ^/api/products).
    pub pattern: String,
    /// Maximum allowable response time in milliseconds for this pattern.
    pub max_latency_ms: u64,
}

/// Fallback configuration based on request latency.
#[derive(Debug, Clone)]
pub struct LatencyFailover {
    /// Default latency limit in milliseconds if no rule matches.
    pub default_max_latency_ms: u64,
    /// Specific path-based rules, applied in order.
    pub path_rules: Vec<MaxLatencyRule>,
}

/// Main configuration structure. Defines all tunable behavior of the proxy.
#[derive(Debug, Clone)]
pub struct Config {
    /// Application identifier, used for namespacing cache keys.
    pub app_id: String,
    /// GCS bucket name (used if storage_backend is set to Gcs).
    pub gcs_bucket: String,
    /// AWS S3 bucket name.
    pub s3_bucket: String,
    /// Azure Blob Storage container name.
    pub azure_container: String,
    /// Max number of concurrent origin requests allowed by the proxy.
    pub max_concurrent_requests: usize,
    /// Base URL of the downstream service that the proxy forwards to.
    pub downstream_base_url: String,
    /// Cache settings including memory limits and re-cache rules.
    pub cache: CacheSettings,
    /// Latency-based failover rules.
    pub latency_failover: LatencyFailover,
    /// Backend to use for persistent cache storage.
    pub storage_backend: StorageBackend,
    /// Number of allowed failures for a storage backend before treating it as
    /// unhealthy (0 disables the breaker).
    pub storage_backend_failures: usize,
    /// Retry interval (in seconds) before retrying an unhealthy backend
    /// (0 disables retries).
    pub backend_retry_interval_secs: u64,
    /// Headers to ignore when computing cache keys.
    pub ignored_headers: Option<Vec<String>>,
    /// Port for proxy traffic.
    pub proxy_port: u16,
    /// Port for the admin surface.
    pub admin_port: u16,
}

/// Why a configuration was rejected at startup.
#[derive(Debug, Clone, Copy, PartialEq, Eq, Structural)]
pub enum ConfigError {
    /// GCS backend selected but gcs_bucket is blank.
    GcsBucketEmpty,
    /// S3 backend selected but s3_bucket is blank.
    S3BucketEmpty,
    /// Azure backend selected but azure_container is blank.
    AzureContainerEmpty,
    /// app_id is required and cannot be blank.
    AppIdEmpty,
    /// cache.memory_threshold must be between 1 and 100.
    MemoryThresholdOutOfRange,
}

/// Default port for the proxy service.
pub fn default_proxy_port() -> (r: u16)
    ensures
        r == 3000,
{
    3000
}

/// Default port for the admin surface.
pub fn default_admin_port() -> (r: u16)
    ensures
        r == 3001,
{
    3001
}

/// An ASCII whitespace byte, as far as blank-field validation cares.
pub open spec fn is_space_byte(b: u8) -> bool {
    b == 32 || b == 9 || b == 10 || b == 13
}

/// A field is blank when its UTF-8 bytes hold nothing but whitespace.
pub open spec fn blank(s: Seq<u8>) -> bool {
    forall|i: int| 0 <= i < s.len() ==> is_space_byte(#[trigger] s[i])
}

/// Whether `s` trims to the empty string.
pub fn is_blank(s: &str) -> (r: bool)
    ensures
        r == blank(s.spec_bytes()),
{
    let bytes = s.as_bytes();
    let n = bytes.len();
    let mut i: usize = 0;
    while i < n
        invariant
            n == bytes@.len(),
            bytes@ == s.spec_bytes(),
            i <= n,
            forall|j: int| 0 <= j < i ==> is_space_byte(#[trigger] bytes@[j]),
        decreases n - i,
    {
        let b = bytes[i];
        if !(b == 32 || b == 9 || b == 10 || b == 13) {
            return false;
        }
        i = i + 1;
    }
    true
}

/// The check that decides whether this configuration may start the proxy.
pub open spec fn validation_of(c: Config) -> Option<ConfigError> {
    if c.storage_backend == StorageBackend::Gcs && blank(encode_utf8(c.gcs_bucket@)) {
        Some(ConfigError::GcsBucketEmpty)
    } else if c.storage_backend == StorageBackend::S3 && blank(encode_utf8(c.s3_bucket@)) {
        Some(ConfigError::S3BucketEmpty)
    } else if c.storage_backend == StorageBackend::Azure && blank(encode_utf8(c.azure_container@)) {
        Some(ConfigError::AzureContainerEmpty)
    } else if blank(encode_utf8(c.app_id@)) {
        Some(ConfigError::AppIdEmpty)
    } else if c.cache.memory_threshold == 0 || c.cache.memory_threshold > 100 {
        Some(ConfigError::MemoryThresholdOutOfRange)
    } else {
        None
    }
}

/// The set of header names that never influence a cache key: the configured
/// list, case-folded, always augmented with the bypass, refresh, and
/// cache-control headers.
pub open spec fn ignored_set_of(c: Config) -> Set<Seq<char>> {
    let configured = match c.ignored_headers {
        Some(hs) => hs@.map_values(|h: String| lower_chars(h@)).to_set(),
        None => Set::<Seq<char>>::empty(),
    };
    configured.insert("x-bypass-cache"@).insert("x-refresh-cache"@).insert("cache-control"@)
}

impl Config {
    /// Returns the list of headers to ignore (lowercased), always containing
    /// the bypass, refresh, and cache-control headers.
    pub fn ignored_headers_set(&self) -> (r: Vec<String>)
        ensures
            r@.map_values(|h: String| h@).to_set() == ignored_set_of(*self),
    {
        let mut out: Vec<String> = Vec::new();
        match &self.ignored_headers {
            Some(hs) => {
                let n = hs.len();
                let mut i: usize = 0;
                while i < n
                    invariant
                        n == hs@.len(),
                        i <= n,
                        out@.map_values(|h: String| h@) =~= hs@.take(i as int).map_values(
                            |h: String| lower_chars(h@),
                        ),
                    decreases n - i,
                {
                    out.push(hs[i].as_str().to_ascii_lowercase());
                    proof {
                        assert(hs@.take(i + 1) =~= hs@.take(i as int).push(hs@[i as int]));
                        assert(hs@.take(i + 1).map_values(|h: String| lower_chars(h@)) =~= hs@.take(
                            i as int,
                        ).map_values(|h: String| lower_chars(h@)).push(
                            lower_chars(hs@[i as int]@),
                        ));
                    }
                    i = i + 1;
                }
                proof {
                    assert(hs@.take(n as int) =~= hs@);
                }
            },
            None => {},
        }
        let ghost base = out@.map_values(|h: String| h@);
        out.push(String::from_str("x-bypass-cache"));
        proof {
            assert(out@.map_values(|h: String| h@) =~= base.push("x-bypass-cache"@));
        }
        let ghost base2 = out@.map_values(|h: String| h@);
        out.push(String::from_str("x-refresh-cache"));
        proof {
            assert(out@.map_values(|h: String| h@) =~= base2.push("x-refresh-cache"@));
        }
        let ghost base3 = out@.map_values(|h: String| h@);
        out.push(String::from_str("cache-control"));
        proof {
            assert(out@.map_values(|h: String| h@) =~= base3.push("cache-control"@));
            assert forall|x: Seq<char>|
                out@.map_values(|h: String| h@).to_set().contains(x) implies ignored_set_of(
                *self,
            ).contains(x) by {
                let m = out@.map_values(|h: String| h@);
                let i = choose|i: int| 0 <= i < m.len() && m[i] == x;
                if i < base.len() {
                    assert(base.contains(x));
                }
            }
            assert forall|x: Seq<char>| ignored_set_of(*self).contains(x) implies out@.map_values(
                |h: String| h@,
            ).to_set().contains(x) by {
                let m = out@.map_values(|h: String| h@);
                if base.contains(x) {
                    let i = choose|i: int| 0 <= i < base.len() && base[i] == x;
                    assert(m[i] == x);
                } else if x == "x-bypass-cache"@ {
                    assert(m[base.len() as int] == x);
                } else if x == "x-refresh-cache"@ {
                    assert(m[base.len() as int + 1] == x);
                } else {
                    assert(m[base.len() as int + 2] == x);
                }
            }
            assert(out@.map_values(|h: String| h@).to_set() =~= ignored_set_of(*self));
        }
        out
    }

    /// Validates the semantic rules that must abort startup when broken: a
    /// blank `app_id`, a memory threshold outside 1..=100, or a blank
    /// bucket/container for the selected backend.
    pub fn validate(&self) -> (r: Result<(), ConfigError>)
        ensures
            r is Ok <==> validation_of(*self) is None,
            r is Err ==> r->Err_0 == validation_of(*self)->0,
    {
        match self.storage_backend {
            StorageBackend::Gcs => {
                if is_blank(self.gcs_bucket.as_str()) {
                    return Err(ConfigError::GcsBucketEmpty);
                }
            },
            StorageBackend::S3 => {
                if is_blank(self.s3_bucket.as_str()) {
                    return Err(ConfigError::S3BucketEmpty);
                }
            },
            StorageBackend::Azure => {
                if is_blank(self.azure_container.as_str()) {
                    return Err(ConfigError::AzureContainerEmpty);
                }
            },
            StorageBackend::Local => {},
        }
        if is_blank(self.app_id.as_str()) {
            return Err(ConfigError::AppIdEmpty);
        }
        if self.cache.memory_threshold == 0 || self.cache.memory_threshold > 100 {
            return Err(ConfigError::MemoryThresholdOutOfRange);
        }
        Ok(())
    }
}

} // verus!
