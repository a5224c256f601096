//! The in-memory hot tier: an unbounded LRU mapping from cache fingerprint to
//! a cached response envelope. Eviction is driven purely by host memory
//! pressure, never by an entry count.

use vstd::prelude::*;

verus! {

use std::collections::hash_map::RandomState;

/// A response cached in memory: the full body, a simplified list of headers,
/// and the epoch second it was inserted.
#[derive(Clone)]
pub struct CachedResponse {
    pub body: Vec<u8>,
    pub headers: Vec<(String, String)>,
    pub inserted_at: u64,
}

/// The mathematical shape of a cached response.
#[verifier::ext_equal]
pub struct Envelope {
    pub body: Seq<u8>,
    pub headers: Seq<(Seq<char>, Seq<char>)>,
    pub inserted_at: u64,
}

impl View for CachedResponse {
    type V = Envelope;

    open spec fn view(&self) -> Envelope {
        Envelope {
            body: self.body@,
            headers: crate::text::headers_view(self.headers@),
            inserted_at: self.inserted_at,
        }
    }
}

#[verifier::external_type_specification]
#[verifier::external_body]
#[verifier::reject_recursive_types(K)]
#[verifier::reject_recursive_types(V)]
#[verifier::reject_recursive_types(S)]
pub struct ExLruCache<K, V, S>(lru::LruCache<K, V, S>);

/// What the LRU store holds, keyed by fingerprint.
pub uninterp spec fn hot_map(c: lru::LruCache<String, CachedResponse, RandomState>) -> Map<
    Seq<char>,
    Envelope,
>;

/// The store's keys from most recently used to least recently used.
pub uninterp spec fn hot_order(c: lru::LruCache<String, CachedResponse, RandomState>) -> Seq<
    Seq<char>,
>;

/// An empty hot tier.
pub open spec fn empty_hot() -> Map<Seq<char>, Envelope> {
    Map::empty()
}

/// An empty recency list.
pub open spec fn empty_order() -> Seq<Seq<char>> {
    Seq::empty()
}

/// The recency order after touching `k`: it moves to the front.
pub open spec fn promote(order: Seq<Seq<char>>, k: Seq<char>) -> Seq<Seq<char>> {
    seq![k] + order.filter(|x: Seq<char>| x != k)
}

/// Relies on lru::LruCache::unbounded_with_hasher: the new cache is empty and
/// has no entry bound.
#[verifier::external_body]
fn store_new() -> (c: lru::LruCache<String, CachedResponse, RandomState>)
    ensures
        hot_map(c) == empty_hot(),
        hot_order(c) == empty_order(),
{
    lru::LruCache::unbounded_with_hasher(RandomState::default())
}

/// Relies on lru::LruCache::get: a hit returns the stored value and moves the
/// key to the front of the recency list; a miss changes nothing.
#[verifier::external_body]
fn store_get(c: &mut lru::LruCache<String, CachedResponse, RandomState>, k: &str) -> (r: Option<
    CachedResponse,
>)
    ensures
        hot_map(*final(c)) == hot_map(*old(c)),
        hot_map(*old(c)).contains_key(k@) ==> {
            &&& r is Some
            &&& r->0@ == hot_map(*old(c))[k@]
            &&& hot_order(*final(c)) == promote(hot_order(*old(c)), k@)
        },
        !hot_map(*old(c)).contains_key(k@) ==> r is None && hot_order(*final(c)) == hot_order(
            *old(c),
        ),
{
    c.get(k).cloned()
}

/// Relies on lru::LruCache::put: the value is stored under the key, which
/// moves to the front of the recency list; an old value under the same key is
/// replaced.
#[verifier::external_body]
fn store_put(c: &mut lru::LruCache<String, CachedResponse, RandomState>, k: String, v: CachedResponse)
    ensures
        hot_map(*final(c)) == hot_map(*old(c)).insert(k@, v@),
        hot_order(*final(c)) == promote(hot_order(*old(c)), k@),
{
    c.put(k, v);
}

/// Relies on lru::LruCache::pop_lru: removes and returns the least recently
/// used entry, the back of the recency list; on an empty cache it returns
/// nothing and changes nothing.
#[verifier::external_body]
fn store_pop_lru(c: &mut lru::LruCache<String, CachedResponse, RandomState>) -> (r: Option<
    (String, CachedResponse),
>)
    ensures
        hot_order(*old(c)).len() == 0 ==> {
            &&& r is None
            &&& hot_map(*final(c)) == hot_map(*old(c))
            &&& hot_order(*final(c)) == hot_order(*old(c))
        },
        hot_order(*old(c)).len() > 0 ==> (r matches Some(kv) && {
            &&& kv.0@ == hot_order(*old(c)).last()
            &&& hot_map(*old(c)).contains_key(kv.0@)
            &&& kv.1@ == hot_map(*old(c))[kv.0@]
            &&& hot_map(*final(c)) == hot_map(*old(c)).remove(kv.0@)
            &&& hot_order(*final(c)) == hot_order(*old(c)).drop_last()
        }),
{
    c.pop_lru()
}

/// Relies on lru::LruCache::len: the number of stored entries, one per key
/// and one slot of the recency list each.
#[verifier::external_body]
fn store_len(c: &lru::LruCache<String, CachedResponse, RandomState>) -> (r: usize)
    ensures
        r == hot_order(*c).len(),
        r == hot_map(*c).dom().len(),
{
    c.len()
}

/// Relies on lru::LruCache::clear: every entry is removed.
#[verifier::external_body]
fn store_clear(c: &mut lru::LruCache<String, CachedResponse, RandomState>)
    ensures
        hot_map(*final(c)) == empty_hot(),
        hot_order(*final(c)) == empty_order(),
{
    c.clear();
}

/// Relies on lru::LruCache::iter: visits every entry once, from most recently
/// used to least recently used.
#[verifier::external_body]
fn store_entries(c: &lru::LruCache<String, CachedResponse, RandomState>) -> (r: Vec<
    (String, CachedResponse),
>)
    ensures
        r@.len() == hot_order(*c).len(),
        forall|i: int|
            0 <= i < r@.len() ==> {
                &&& (#[trigger] r@[i]).0@ == hot_order(*c)[i]
                &&& hot_map(*c).contains_key(r@[i].0@)
                &&& r@[i].1@ == hot_map(*c)[r@[i].0@]
            },
{
    c.iter().map(|(k, v)| (k.clone(), v.clone())).collect()
}

/// Relies on sysinfo::System::refresh_memory, used_memory and total_memory:
/// a point sample of the host's memory in bytes; nothing is promised of the
/// sampled values.
#[verifier::external_body]
fn sample_memory_bytes() -> (r: (u64, u64)) {
    let mut sys = sysinfo::System::new();
    sys.refresh_memory();
    (sys.used_memory(), sys.total_memory())
}

/// Retrieves the current system memory usage from the operating system, as
/// `(used_kib, total_kib)`.
pub fn get_memory_usage_kib() -> (r: (u64, u64)) {
    let (used, total) = sample_memory_bytes();
    (used / 1024, total / 1024)
}

/// The usage percentage a memory sample stands for; a sample without a total
/// counts as full pressure.
pub open spec fn pct_of(used: u64, total: u64) -> int {
    if total == 0 {
        100
    } else {
        (used as int) * 100 / (total as int)
    }
}

/// Whether a memory sample reaches the eviction threshold.
fn over_threshold(used: u64, total: u64, threshold_percent: u64) -> (r: bool)
    ensures
        r == (pct_of(used, total) >= threshold_percent),
{
    if total == 0 {
        return 100 >= threshold_percent;
    }
    let pct: u128 = (used as u128) * 100 / (total as u128);
    pct >= threshold_percent as u128
}

/// The hot tier after storing a batch of entries in order.
pub open spec fn after_insert_map(
    m: Map<Seq<char>, Envelope>,
    entries: Seq<(String, CachedResponse)>,
) -> Map<Seq<char>, Envelope>
    decreases entries.len(),
{
    if entries.len() == 0 {
        m
    } else {
        after_insert_map(m.insert(entries[0].0@, entries[0].1@), entries.drop_first())
    }
}

/// The recency order after storing a batch of entries in order.
pub open spec fn after_insert_order(
    order: Seq<Seq<char>>,
    entries: Seq<(String, CachedResponse)>,
) -> Seq<Seq<char>>
    decreases entries.len(),
{
    if entries.len() == 0 {
        order
    } else {
        after_insert_order(promote(order, entries[0].0@), entries.drop_first())
    }
}

proof fn lemma_after_insert_absent(
    m: Map<Seq<char>, Envelope>,
    entries: Seq<(String, CachedResponse)>,
    k: Seq<char>,
)
    requires
        forall|j: int| 0 <= j < entries.len() ==> (#[trigger] entries[j]).0@ != k,
    ensures
        after_insert_map(m, entries).contains_key(k) == m.contains_key(k),
        m.contains_key(k) ==> after_insert_map(m, entries)[k] == m[k],
    decreases entries.len(),
{
    if entries.len() > 0 {
        lemma_after_insert_absent(m.insert(entries[0].0@, entries[0].1@), entries.drop_first(), k);
    }
}

/// Law: after a batch is stored with memory below the eviction threshold, a
/// get for any stored key returns the envelope of the batch's last write for
/// that key: here stated for a key written once.
pub proof fn lemma_insert_many_then_get(
    m: Map<Seq<char>, Envelope>,
    entries: Seq<(String, CachedResponse)>,
    i: int,
)
    requires
        0 <= i < entries.len(),
        forall|j: int| i < j < entries.len() ==> (#[trigger] entries[j]).0@ != entries[i].0@,
    ensures
        after_insert_map(m, entries).contains_key(entries[i].0@),
        after_insert_map(m, entries)[entries[i].0@] == entries[i].1@,
    decreases entries.len(),
{
    if i == 0 {
        lemma_after_insert_absent(
            m.insert(entries[0].0@, entries[0].1@),
            entries.drop_first(),
            entries[0].0@,
        );
    } else {
        lemma_insert_many_then_get(
            m.insert(entries[0].0@, entries[0].1@),
            entries.drop_first(),
            i - 1,
        );
    }
}

/// The memory samples an eviction pass observed: the one that triggered it
/// and the final one.
pub struct EvictReport {
    pub first_used: u64,
    pub first_total: u64,
    pub last_used: u64,
    pub last_total: u64,
}

/// The in-memory hot tier with LRU recency and memory-pressure eviction.
pub struct MemoryCache {
    store: lru::LruCache<String, CachedResponse, RandomState>,
}

impl MemoryCache {
    /// The mapping from fingerprint to cached envelope.
    pub closed spec fn view(&self) -> Map<Seq<char>, Envelope> {
        hot_map(self.store)
    }

    /// The fingerprints from most recently to least recently used.
    pub closed spec fn order(&self) -> Seq<Seq<char>> {
        hot_order(self.store)
    }

    /// An empty hot tier.
    pub fn new() -> (r: Self)
        ensures
            r@ == empty_hot(),
            r.order() == empty_order(),
    {
        MemoryCache { store: store_new() }
    }

    /// Attempts to retrieve a response from the hot tier. A hit returns a
    /// copy and touches the entry's recency; a miss changes nothing.
    pub fn get_from_memory(&mut self, key: &str) -> (r: Option<CachedResponse>)
        ensures
            final(self)@ == old(self)@,
            old(self)@.contains_key(key@) ==> (r matches Some(v) && {
                &&& v@ == old(self)@[key@]
                &&& final(self).order() == promote(old(self).order(), key@)
            }),
            !old(self)@.contains_key(key@) ==> r is None && final(self).order() == old(
                self,
            ).order(),
    {
        store_get(&mut self.store, key)
    }

    /// How many entries the hot tier holds.
    pub fn len(&self) -> (r: usize)
        ensures
            r == self@.dom().len(),
            r == self.order().len(),
    {
        store_len(&self.store)
    }

    /// Removes every entry and returns how many there were.
    pub fn clear(&mut self) -> (count: usize)
        ensures
            count == old(self)@.dom().len(),
            final(self)@ == empty_hot(),
            final(self).order() == empty_order(),
    {
        let count = store_len(&self.store);
        store_clear(&mut self.store);
        count
    }

    /// Every entry of the hot tier, most recently used first.
    pub fn entries(&self) -> (r: Vec<(String, CachedResponse)>)
        ensures
            r@.len() == self.order().len(),
            forall|i: int|
                0 <= i < r@.len() ==> {
                    &&& (#[trigger] r@[i]).0@ == self.order()[i]
                    &&& self@.contains_key(r@[i].0@)
                    &&& r@[i].1@ == self@[r@[i].0@]
                },
    {
        store_entries(&self.store)
    }

    /// Samples system memory and, while usage sits at or above the threshold
    /// percentage, evicts the least recently used entry and re-samples.
    /// Stops when usage falls below the threshold or the tier is empty.
    pub fn maybe_evict_if_needed(&mut self, threshold_percent: u64) -> (rep: EvictReport)
        ensures
            pct_of(rep.first_used, rep.first_total) < threshold_percent ==> final(self)@ == old(
                self,
            )@ && final(self).order() == old(self).order(),
            final(self).order().len() == 0 || pct_of(rep.last_used, rep.last_total)
                < threshold_percent,
            forall|k: Seq<char>|
                #[trigger] final(self)@.contains_key(k) ==> old(self)@.contains_key(k)
                    && final(self)@[k] == old(self)@[k],
            final(self).order() == old(self).order().take(final(self).order().len() as int),
    {
        let (first_used, first_total) = sample_memory_bytes();
        let mut last_used = first_used;
        let mut last_total = first_total;
        proof {
            assert(old(self).order().take(old(self).order().len() as int) =~= old(self).order());
        }
        if !over_threshold(first_used, first_total, threshold_percent) {
            return EvictReport { first_used, first_total, last_used, last_total };
        }
        while over_threshold(last_used, last_total, threshold_percent)
            invariant
                pct_of(first_used, first_total) >= threshold_percent,
                forall|k: Seq<char>|
                    #[trigger] hot_map(self.store).contains_key(k) ==> old(self)@.contains_key(k)
                        && hot_map(self.store)[k] == old(self)@[k],
                hot_order(self.store).len() <= old(self).order().len(),
                hot_order(self.store) == old(self).order().take(
                    hot_order(self.store).len() as int,
                ),
            decreases hot_order(self.store).len(),
        {
            match store_pop_lru(&mut self.store) {
                Some(_evicted) => {
                    proof {
                        let len = hot_order(self.store).len() as int;
                        assert(old(self).order().take(len + 1).drop_last() =~= old(
                            self,
                        ).order().take(len));
                    }
                },
                None => {
                    return EvictReport { first_used, first_total, last_used, last_total };
                },
            }
            let (u, t) = sample_memory_bytes();
            last_used = u;
            last_total = t;
        }
        EvictReport { first_used, first_total, last_used, last_total }
    }

    /// Loads a batch of entries into the hot tier in order, then runs the
    /// eviction pass.
    pub fn load_into_memory(&mut self, data: Vec<(String, CachedResponse)>, threshold_percent: u64) -> (rep:
        EvictReport)
        ensures
            pct_of(rep.first_used, rep.first_total) < threshold_percent ==> {
                &&& final(self)@ == after_insert_map(old(self)@, data@)
                &&& final(self).order() == after_insert_order(old(self).order(), data@)
            },
            final(self).order().len() == 0 || pct_of(rep.last_used, rep.last_total)
                < threshold_percent,
            forall|k: Seq<char>|
                #[trigger] final(self)@.contains_key(k) ==> after_insert_map(
                    old(self)@,
                    data@,
                ).contains_key(k) && final(self)@[k] == after_insert_map(old(self)@, data@)[k],
    {
        let ghost orig_data = data@;
        let ghost target_map = after_insert_map(old(self)@, orig_data);
        let ghost target_order = after_insert_order(old(self).order(), orig_data);
        let mut rest = data;
        while rest.len() > 0
            invariant
                after_insert_map(hot_map(self.store), rest@) == target_map,
                after_insert_order(hot_order(self.store), rest@) == target_order,
            decreases rest.len(),
        {
            let ghost before = rest@;
            let (k, v) = rest.remove(0);
            proof {
                assert(rest@ =~= before.drop_first());
            }
            store_put(&mut self.store, k, v);
        }
        proof {
            assert(hot_map(self.store) == target_map);
            assert(hot_order(self.store) == target_order);
        }
        self.maybe_evict_if_needed(threshold_percent)
    }
}

} // verus!
