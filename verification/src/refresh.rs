//! Deterministic probabilistic refresh: a per-fingerprint hit counter that
//! forces one origin refresh out of every fixed number of cache hits.

use vstd::prelude::*;

verus! {

use crate::kvmap::StrU64Map;

/// The sampling period for a refresh percentage: one refresh is forced every
/// `100 / max(p, 1)` hits.
pub open spec fn refresh_modulus(p: u8) -> u64 {
    (100 as u64) / (if p == 0 {
        1 as u64
    } else {
        p as u64
    })
}

/// The hit count a key has seen, zero when never hit.
pub open spec fn hit_count(m: Map<Seq<char>, u64>, k: Seq<char>) -> u64 {
    if m.contains_key(k) {
        m[k]
    } else {
        0
    }
}

/// The hit count after one more hit; the counter pins at its maximum rather
/// than wrap.
pub open spec fn next_count(c: u64) -> u64 {
    if c == u64::MAX {
        c
    } else {
        (c + 1) as u64
    }
}

/// Per-fingerprint hit counters driving the deterministic refresh sampling.
pub struct RefreshSampler {
    counters: StrU64Map,
}

impl RefreshSampler {
    /// The per-fingerprint hit counts.
    pub closed spec fn view(&self) -> Map<Seq<char>, u64> {
        self.counters@
    }

    /// Well-formedness of the backing map.
    pub closed spec fn wf(&self) -> bool {
        self.counters.wf()
    }

    /// A sampler with all counters at zero.
    pub fn new() -> (r: Self)
        ensures
            r.wf(),
            r@ == Map::<Seq<char>, u64>::empty(),
    {
        RefreshSampler { counters: StrU64Map::new() }
    }

    /// Counts a hit for `key` and decides whether this hit should skip the
    /// cache and refresh from the origin: with percentage `p > 0`, every
    /// `100 / p`-th hit refreshes; with `p == 0`, never, and the counter is
    /// left untouched.
    pub fn should_refresh(&mut self, key: &str, percentage: u8) -> (r: bool)
        requires
            old(self).wf(),
            percentage <= 100,
        ensures
            final(self).wf(),
            percentage == 0 ==> final(self)@ == old(self)@ && r == false,
            percentage > 0 ==> {
                let c = next_count(hit_count(old(self)@, key@));
                &&& final(self)@ == old(self)@.insert(key@, c)
                &&& r == (c % refresh_modulus(percentage) == 0)
            },
    {
        if percentage == 0 {
            return false;
        }
        let prev = match self.counters.get(key) {
            Some(c) => c,
            None => 0,
        };
        let count = if prev == u64::MAX {
            prev
        } else {
            prev + 1
        };
        self.counters.set(key, count);
        let modulus = 100 / (percentage as u64);
        proof {
            vstd::arithmetic::div_mod::lemma_div_non_zero(100, percentage as int);
        }
        count % modulus == 0
    }
}

/// Law: for a positive refresh percentage, among the hit counts of any
/// `100 / p` consecutive hits of one key there is exactly one that triggers a
/// refresh.
pub proof fn lemma_refresh_exactly_once(start: u64, p: u8)
    requires
        0 < p <= 100,
        start + refresh_modulus(p) <= u64::MAX,
    ensures
        exists|k: int|
            start < k <= start + refresh_modulus(p) && #[trigger] (k % (refresh_modulus(p) as int))
                == 0,
        forall|k1: int, k2: int|
            start < k1 <= start + refresh_modulus(p) && start < k2 <= start + refresh_modulus(p)
                && #[trigger] (k1 % (refresh_modulus(p) as int)) == 0 && #[trigger] (k2 % (
            refresh_modulus(p) as int)) == 0 ==> k1 == k2,
{
    let m = refresh_modulus(p) as int;
    assert(1 <= m <= 100) by (nonlinear_arith)
        requires
            m == 100 as u64 / (p as u64),
            1 <= p <= 100,
    ;
    let s = start as int;
    let w = s - (s % m) + m;
    assert(s % m == s - (s / m) * m) by {
        vstd::arithmetic::div_mod::lemma_fundamental_div_mod(s, m);
    }
    assert(0 <= s % m < m) by {
        vstd::arithmetic::div_mod::lemma_mod_bound(s, m);
    }
    assert(w % m == 0) by {
        vstd::arithmetic::div_mod::lemma_add_mod_noop(s - (s % m), m, m);
        vstd::arithmetic::div_mod::lemma_sub_mod_noop(s, s % m, m);
        vstd::arithmetic::div_mod::lemma_mod_self_0(m);
        vstd::arithmetic::div_mod::lemma_mod_twice(s, m);
        vstd::arithmetic::div_mod::lemma_small_mod(0, m as nat);
    }
    assert(s < w <= s + m);
    assert forall|k1: int, k2: int|
        s < k1 <= s + m && s < k2 <= s + m && #[trigger] (k1 % m) == 0 && #[trigger] (k2 % m)
            == 0 implies k1 == k2 by {
        if k1 != k2 {
            let lo = if k1 < k2 {
                k1
            } else {
                k2
            };
            let hi = if k1 < k2 {
                k2
            } else {
                k1
            };
            assert(0 < hi - lo < m);
            assert((hi - lo) % m == 0) by {
                vstd::arithmetic::div_mod::lemma_sub_mod_noop(hi, lo, m);
                vstd::arithmetic::div_mod::lemma_small_mod(0, m as nat);
            }
            assert((hi - lo) % m == hi - lo) by {
                vstd::arithmetic::div_mod::lemma_small_mod((hi - lo) as nat, m as nat);
            }
        }
    }
}

} // verus!
