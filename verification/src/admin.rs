//! The admin surface's decisions: flushing the hot tier and reporting its
//! contents. The transport that carries them, and the parallel purge of the
//! durable backends, live with the runtime.

use vstd::prelude::*;

verus! {

use crate::memory::MemoryCache;

/// The parameters of a cache invalidation: whether the durable backends are
/// purged too.
pub struct InvalidateParams {
    pub backend: Option<bool>,
}

/// One hot-tier entry's standing, as the status endpoint reports it.
pub struct CacheEntry {
    /// When the entry was inserted, as an epoch second; the transport
    /// renders it as an RFC 3339 timestamp.
    pub inserted_at: u64,
    /// The size of the cached body in bytes.
    pub size_bytes: usize,
    /// How many seconds of the TTL remain, zero at the earliest.
    pub ttl_remaining_secs: u64,
}

/// The seconds of TTL an entry inserted at `inserted_at` still has at `now`.
pub open spec fn ttl_remaining(now: u64, inserted_at: u64, ttl_seconds: u64) -> u64 {
    if now >= inserted_at && now - inserted_at >= ttl_seconds {
        0 as u64
    } else if now >= inserted_at {
        (ttl_seconds - (now - inserted_at)) as u64
    } else {
        ttl_seconds
    }
}

/// Whether an invalidation call purges the durable backends too.
pub fn backend_purge_requested(params: &InvalidateParams) -> (r: bool)
    ensures
        r == (params.backend == Some(true)),
{
    match params.backend {
        Some(b) => b,
        None => false,
    }
}

/// Clears the hot tier and returns how many entries it held; purging the
/// durable backends is the transport's follow-up when requested.
pub fn invalidate_memory(memory: &mut MemoryCache) -> (count: usize)
    ensures
        count == old(memory)@.dom().len(),
        final(memory)@ == crate::memory::empty_hot(),
        final(memory).order() == crate::memory::empty_order(),
{
    memory.clear()
}

/// Reports, per fingerprint, when the entry was inserted, how large its body
/// is, and how much of the TTL remains at `now`.
pub fn get_memory_cache_status(memory: &MemoryCache, now_epoch_secs: u64, ttl_seconds: u64) -> (r:
    Vec<(String, CacheEntry)>)
    ensures
        r@.len() == memory.order().len(),
        forall|i: int|
            0 <= i < r@.len() ==> {
                let entry = #[trigger] r@[i];
                &&& memory@.contains_key(entry.0@)
                &&& entry.1.inserted_at == memory@[entry.0@].inserted_at
                &&& entry.1.size_bytes == memory@[entry.0@].body.len()
                &&& entry.1.ttl_remaining_secs == ttl_remaining(
                    now_epoch_secs,
                    memory@[entry.0@].inserted_at,
                    ttl_seconds,
                )
            },
{
    let entries = memory.entries();
    let mut out: Vec<(String, CacheEntry)> = Vec::new();
    let n = entries.len();
    let mut i: usize = 0;
    let mut rest = entries;
    let ghost all = rest@;
    while i < n
        invariant
            n == all.len(),
            i <= n,
            rest@ =~= all.skip(i as int),
            out@.len() == i,
            forall|j: int|
                0 <= j < all.len() ==> {
                    &&& memory@.contains_key((#[trigger] all[j]).0@)
                    &&& all[j].1@ == memory@[all[j].0@]
                },
            forall|j: int|
                0 <= j < i ==> {
                    let entry = #[trigger] out@[j];
                    &&& memory@.contains_key(entry.0@)
                    &&& entry.1.inserted_at == memory@[entry.0@].inserted_at
                    &&& entry.1.size_bytes == memory@[entry.0@].body.len()
                    &&& entry.1.ttl_remaining_secs == ttl_remaining(
                        now_epoch_secs,
                        memory@[entry.0@].inserted_at,
                        ttl_seconds,
                    )
                },
        decreases n - i,
    {
        let ghost before = rest@;
        let (key, env) = rest.remove(0);
        proof {
            assert(rest@ =~= before.drop_first());
            assert(before[0] == all[i as int]);
        }
        let elapsed = if now_epoch_secs >= env.inserted_at {
            now_epoch_secs - env.inserted_at
        } else {
            0
        };
        let remaining = if now_epoch_secs >= env.inserted_at && elapsed >= ttl_seconds {
            0
        } else if now_epoch_secs >= env.inserted_at {
            ttl_seconds - elapsed
        } else {
            ttl_seconds
        };
        let entry = CacheEntry {
            inserted_at: env.inserted_at,
            size_bytes: env.body.len(),
            ttl_remaining_secs: remaining,
        };
        out.push((key, entry));
        i = i + 1;
    }
    out
}

} // verus!
