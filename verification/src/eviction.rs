//! The background memory monitor's decision step: sample memory every tick
//! and, when usage rose since the last tick, run the hot tier's eviction
//! pass. The surrounding once-a-second loop lives with the runtime, outside
//! the library; it feeds each sample to this step.

use vstd::prelude::*;

verus! {

use crate::memory::{MemoryCache, pct_of};

/// A sample's usage percentage, clamped to 100.
pub open spec fn pct_clamped(used: u64, total: u64) -> u64 {
    if pct_of(used, total) > 100 {
        100 as u64
    } else {
        pct_of(used, total) as u64
    }
}

/// Whether a monitor tick should run the eviction pass: only when usage rose
/// since the last tick; the eviction pass itself is the authority on the
/// threshold.
pub open spec fn tick_evicts(used: u64, total: u64, last_pct: u64) -> bool {
    pct_clamped(used, total) > last_pct
}

/// One pass of the background eviction monitor over a fresh memory sample
/// `(used, total)`: runs the eviction pass when usage rose above the previous
/// tick's percentage, and returns the percentage to carry to the next tick.
pub fn eviction_tick(
    cache: &mut MemoryCache,
    used: u64,
    total: u64,
    last_pct: u64,
    threshold_percent: u64,
) -> (r: u64)
    ensures
        r == pct_clamped(used, total),
        !tick_evicts(used, total, last_pct) ==> final(cache)@ == old(cache)@
            && final(cache).order() == old(cache).order(),
        forall|k: Seq<char>|
            #[trigger] final(cache)@.contains_key(k) ==> old(cache)@.contains_key(k)
                && final(cache)@[k] == old(cache)@[k],
{
    let current: u64 = if total == 0 {
        100
    } else {
        let wide: u128 = (used as u128) * 100 / (total as u128);
        if wide > 100 {
            100
        } else {
            wide as u64
        }
    };
    if current > last_pct {
        cache.maybe_evict_if_needed(threshold_percent);
    }
    current
}

} // verus!
